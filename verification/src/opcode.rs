use vstd::prelude::*;

verus! {

/// One operation of the stack machine. Every operation is encoded in one
/// byte, followed by as many operand bytes as [`OpCode::operands`] says.
#[derive(Clone, Copy, Debug, PartialEq, Eq, Structural)]
pub enum OpCode {
    OpReturn,
    OpConstant,
    OpNegate,
    OpAdd,
    OpSubstract,
    OpMultiply,
    OpDivide,
}

impl OpCode {
    /// The byte that encodes this operation.
    pub open spec fn byte(self) -> u8 {
        match self {
            OpCode::OpReturn => 0,
            OpCode::OpConstant => 1,
            OpCode::OpNegate => 2,
            OpCode::OpAdd => 3,
            OpCode::OpSubstract => 4,
            OpCode::OpMultiply => 5,
            OpCode::OpDivide => 6,
        }
    }

    /// The operation that a byte encodes, if any.
    pub open spec fn decode(b: u8) -> Option<OpCode> {
        if b == 0 {
            Some(OpCode::OpReturn)
        } else if b == 1 {
            Some(OpCode::OpConstant)
        } else if b == 2 {
            Some(OpCode::OpNegate)
        } else if b == 3 {
            Some(OpCode::OpAdd)
        } else if b == 4 {
            Some(OpCode::OpSubstract)
        } else if b == 5 {
            Some(OpCode::OpMultiply)
        } else if b == 6 {
            Some(OpCode::OpDivide)
        } else {
            None
        }
    }

    /// How many operand bytes follow the operation's own byte.
    pub open spec fn operands(self) -> nat {
        match self {
            OpCode::OpConstant => 1,
            _ => 0,
        }
    }

    /// Whether the operation takes two numbers and gives one.
    pub open spec fn is_binary(self) -> bool {
        self == OpCode::OpAdd || self == OpCode::OpSubstract || self == OpCode::OpMultiply
            || self == OpCode::OpDivide
    }

    pub fn to_u8(self) -> (b: u8)
        ensures
            b == self.byte(),
    {
        match self {
            OpCode::OpReturn => 0,
            OpCode::OpConstant => 1,
            OpCode::OpNegate => 2,
            OpCode::OpAdd => 3,
            OpCode::OpSubstract => 4,
            OpCode::OpMultiply => 5,
            OpCode::OpDivide => 6,
        }
    }

    pub fn from_u8(b: u8) -> (r: Option<OpCode>)
        ensures
            r == OpCode::decode(b),
    {
        match b {
            0 => Some(OpCode::OpReturn),
            1 => Some(OpCode::OpConstant),
            2 => Some(OpCode::OpNegate),
            3 => Some(OpCode::OpAdd),
            4 => Some(OpCode::OpSubstract),
            5 => Some(OpCode::OpMultiply),
            6 => Some(OpCode::OpDivide),
            _ => None,
        }
    }

    /// The number of operand bytes of the operation.
    pub fn arity(self) -> (n: usize)
        ensures
            n == self.operands(),
    {
        match self {
            OpCode::OpConstant => 1,
            _ => 0,
        }
    }

    /// The name under which a listing shows the operation.
    pub open spec fn mnemonic(self) -> Seq<char> {
        match self {
            OpCode::OpReturn => "return"@,
            OpCode::OpConstant => "constant"@,
            OpCode::OpNegate => "negate"@,
            OpCode::OpAdd => "add"@,
            OpCode::OpSubstract => "substract"@,
            OpCode::OpMultiply => "multiply"@,
            OpCode::OpDivide => "divide"@,
        }
    }

    pub fn name(self) -> (s: &'static str)
        ensures
            s@ == self.mnemonic(),
    {
        match self {
            OpCode::OpReturn => "return",
            OpCode::OpConstant => "constant",
            OpCode::OpNegate => "negate",
            OpCode::OpAdd => "add",
            OpCode::OpSubstract => "substract",
            OpCode::OpMultiply => "multiply",
            OpCode::OpDivide => "divide",
        }
    }

    /// Encoding and decoding agree: a byte decodes to an operation exactly
    /// when it is that operation's byte.
    pub proof fn lemma_decode_inverts_byte(op: OpCode, b: u8)
        ensures
            OpCode::decode(op.byte()) == Some(op),
            OpCode::decode(b) == Some(op) <==> b == op.byte(),
    {
    }
}

} // verus!
