use vstd::prelude::*;
use vstd::string::StringExecFns;
use crate::chunk::Chunk;
use crate::opcode::OpCode;
use crate::text::{decimal, padded, push_decimal, push_padded, push_signed, signed};
use crate::value::{Value, ValueView};

verus! {

/// One line of a listing: an instruction, where it stands, and what it
/// refers to.
#[derive(Debug)]
pub struct Line {
    /// The offset of the instruction's first byte.
    pub offset: usize,
    /// The source line of the instruction, or nothing where it is the
    /// line of the byte just before, which a listing does not repeat.
    pub line: Option<i32>,
    pub op: OpCode,
    /// For an instruction that loads a constant: its index, and the constant.
    pub operand: Option<(u8, Value)>,
}

/// A [`Line`] as mathematical data.
pub ghost struct LineView {
    pub offset: usize,
    pub line: Option<i32>,
    pub op: OpCode,
    pub operand: Option<(u8, ValueView)>,
}

impl View for Line {
    type V = LineView;

    open spec fn view(&self) -> LineView {
        LineView {
            offset: self.offset,
            line: self.line,
            op: self.op,
            operand: match self.operand {
                Some((index, value)) => Some((index, value@)),
                None => None,
            },
        }
    }
}

/// A listing line as text: the offset, four digits wide; the source line
/// likewise, or a bar where it is not repeated; the operation's name;
/// and, for a constant, its index and then `shown` between quotes, which
/// is the constant as the caller writes it.
pub open spec fn line_text(line: LineView, shown: Seq<char>) -> Seq<char> {
    padded(decimal(line.offset as nat), 4) + " "@ + (match line.line {
        Some(n) => padded(signed(n as int), 4),
        None => "   |"@,
    }) + " "@ + line.op.mnemonic() + (match line.operand {
        Some((index, _)) => " "@ + decimal(index as nat) + " '"@ + shown + "'"@,
        None => Seq::empty(),
    })
}

impl Line {
    /// The line as text; `shown` is only used for a constant.
    pub fn render(&self, shown: &str) -> (s: String)
        ensures
            s@ == line_text(self@, shown@),
    {
        let mut out = String::new();
        let mut number = String::new();
        push_decimal(&mut number, self.offset as u64);
        push_padded(&mut out, number.as_str(), 4);
        out.append(" ");
        match self.line {
            Some(n) => {
                let mut number = String::new();
                push_signed(&mut number, n as i64);
                push_padded(&mut out, number.as_str(), 4);
            },
            None => out.append("   |"),
        }
        out.append(" ");
        out.append(self.op.name());
        let ghost head = out@;
        match &self.operand {
            Some((index, _)) => {
                out.append(" ");
                push_decimal(&mut out, *index as u64);
                out.append(" '");
                out.append(shown);
                out.append("'");
                assert(out@ =~= head + (" "@ + decimal(*index as nat) + " '"@ + shown@ + "'"@));
            },
            None => {
                assert(out@ =~= head + Seq::<char>::empty());
            },
        }
        assert(out@ =~= line_text(self@, shown@));
        out
    }
}

/// Why code cannot be decoded. Each fault names the offset of the
/// instruction at which decoding stopped.
#[derive(Clone, Copy, Debug, PartialEq, Eq, Structural)]
pub enum DecodeFault {
    /// There is no instruction at the offset: it lies behind the code.
    PastEnd(usize),
    /// The byte, at the offset, is no operation.
    InvalidInstruction(u8, usize),
    /// The operation at the offset lacks its operand byte.
    MissingOperand(usize),
    /// The operand, of the operation at the offset, is no index into the pool.
    InvalidConstant(u8, usize),
}

/// What a listing shows for the line of the byte at `offset`.
pub open spec fn shown_line(tags: Seq<i32>, offset: int) -> Option<i32> {
    if offset > 0 && tags[offset] == tags[offset - 1] {
        None
    } else {
        Some(tags[offset])
    }
}

/// The listing line of the instruction at `offset`, or why there is none.
pub open spec fn decode_at(chunk: Chunk, offset: usize) -> Result<LineView, DecodeFault> {
    let code = chunk.code();
    if offset >= code.len() {
        Err(DecodeFault::PastEnd(offset))
    } else {
        let line = shown_line(chunk.line_tags(), offset as int);
        match OpCode::decode(code[offset as int]) {
            None => Err(DecodeFault::InvalidInstruction(code[offset as int], offset)),
            Some(OpCode::OpConstant) => {
                if offset + 1 >= code.len() {
                    Err(DecodeFault::MissingOperand(offset))
                } else if code[offset + 1] >= chunk.pool().len() {
                    Err(DecodeFault::InvalidConstant(code[offset + 1], offset))
                } else {
                    Ok(
                        LineView {
                            offset,
                            line,
                            op: OpCode::OpConstant,
                            operand: Some((code[offset + 1], chunk.pool()[code[offset + 1] as int])),
                        },
                    )
                }
            },
            Some(op) => Ok(LineView { offset, line, op, operand: None }),
        }
    }
}

/// A result with `lines` put in front of what it holds, if it holds lines.
pub open spec fn after(lines: Seq<LineView>, rest: Result<Seq<LineView>, DecodeFault>) -> Result<
    Seq<LineView>,
    DecodeFault,
> {
    match rest {
        Ok(more) => Ok(lines + more),
        Err(fault) => Err(fault),
    }
}

/// The listing of the code from `offset` on, instruction after
/// instruction, each as wide as its operation says; or the first fault.
pub open spec fn listing_from(chunk: Chunk, offset: usize) -> Result<Seq<LineView>, DecodeFault>
    decreases chunk.code().len() - offset,
{
    if offset >= chunk.code().len() {
        Ok(Seq::empty())
    } else {
        match decode_at(chunk, offset) {
            Err(fault) => Err(fault),
            Ok(line) => {
                let next = offset + 1 + line.op.operands();
                if next <= usize::MAX {
                    after(seq![line], listing_from(chunk, next as usize))
                } else {
                    Ok(seq![line])
                }
            },
        }
    }
}

/// Whether the bytes of `code` from `from` on are whole instructions, one
/// after the other up to the very end, each constant that they load
/// being one of the first `constants` of the pool.
pub open spec fn well_encoded(code: Seq<u8>, constants: nat, from: int) -> bool
    decreases code.len() - from,
{
    if from >= code.len() {
        from == code.len()
    } else if from < 0 {
        false
    } else {
        match OpCode::decode(code[from]) {
            None => false,
            Some(op) => if op == OpCode::OpConstant {
                from + 1 < code.len() && code[from + 1] < constants && well_encoded(
                    code,
                    constants,
                    from + 2,
                )
            } else {
                well_encoded(code, constants, from + 1)
            },
        }
    }
}

/// Code that is well encoded stays so when the pool grows.
pub proof fn lemma_pool_may_grow(code: Seq<u8>, constants: nat, more: nat, from: int)
    requires
        well_encoded(code, constants, from),
        constants <= more,
    ensures
        well_encoded(code, more, from),
    decreases code.len() - from,
{
    if 0 <= from < code.len() {
        if OpCode::decode(code[from]) == Some(OpCode::OpConstant) {
            lemma_pool_may_grow(code, constants, more, from + 2);
        } else {
            lemma_pool_may_grow(code, constants, more, from + 1);
        }
    }
}

/// Code that is well encoded stays so when an operation without
/// operands is appended.
pub proof fn lemma_append_operation(code: Seq<u8>, constants: nat, from: int, op: OpCode)
    requires
        well_encoded(code, constants, from),
        0 <= from,
        op != OpCode::OpConstant,
    ensures
        well_encoded(code.push(op.byte()), constants, from),
    decreases code.len() - from,
{
    let longer = code.push(op.byte());
    if from < code.len() {
        assert(longer[from] == code[from]);
        if OpCode::decode(code[from]) == Some(OpCode::OpConstant) {
            assert(longer[from + 1] == code[from + 1]);
            lemma_append_operation(code, constants, from + 2, op);
        } else {
            lemma_append_operation(code, constants, from + 1, op);
        }
    } else {
        OpCode::lemma_decode_inverts_byte(op, op.byte());
        assert(longer[from] == op.byte());
        assert(well_encoded(longer, constants, from + 1));
    }
}

/// Code that is well encoded stays so when the load of a constant that
/// the pool holds is appended.
pub proof fn lemma_append_load(code: Seq<u8>, constants: nat, from: int, index: u8)
    requires
        well_encoded(code, constants, from),
        0 <= from,
        index < constants,
    ensures
        well_encoded(code.push(OpCode::OpConstant.byte()).push(index), constants, from),
    decreases code.len() - from,
{
    let longer = code.push(OpCode::OpConstant.byte()).push(index);
    if from < code.len() {
        assert(longer[from] == code[from]);
        if OpCode::decode(code[from]) == Some(OpCode::OpConstant) {
            assert(longer[from + 1] == code[from + 1]);
            lemma_append_load(code, constants, from + 2, index);
        } else {
            lemma_append_load(code, constants, from + 1, index);
        }
    } else {
        assert(longer[from] == OpCode::OpConstant.byte());
        assert(longer[from + 1] == index);
        assert(well_encoded(longer, constants, from + 2));
    }
}

/// The operands of the instructions that load a constant, in `code` from
/// `from` on, in their order.
pub open spec fn loads(code: Seq<u8>, from: int) -> Seq<u8>
    decreases code.len() - from,
{
    if from < 0 || from >= code.len() {
        Seq::empty()
    } else {
        match OpCode::decode(code[from]) {
            None => Seq::empty(),
            Some(op) => if op == OpCode::OpConstant {
                if from + 1 < code.len() {
                    seq![code[from + 1]] + loads(code, from + 2)
                } else {
                    Seq::empty()
                }
            } else {
                loads(code, from + 1)
            },
        }
    }
}

/// The indices of a pool of `n` constants, in order: 0, 1, and so on.
pub open spec fn indices(n: nat) -> Seq<u8> {
    Seq::new(n, |i: int| i as u8)
}

/// An operation without operands adds no load to well-encoded code.
pub proof fn lemma_loads_with_operation(code: Seq<u8>, constants: nat, from: int, op: OpCode)
    requires
        well_encoded(code, constants, from),
        0 <= from,
        op != OpCode::OpConstant,
    ensures
        loads(code.push(op.byte()), from) == loads(code, from),
    decreases code.len() - from,
{
    let longer = code.push(op.byte());
    if from < code.len() {
        assert(longer[from] == code[from]);
        if OpCode::decode(code[from]) == Some(OpCode::OpConstant) {
            assert(longer[from + 1] == code[from + 1]);
            lemma_loads_with_operation(code, constants, from + 2, op);
        } else {
            lemma_loads_with_operation(code, constants, from + 1, op);
        }
    } else {
        OpCode::lemma_decode_inverts_byte(op, op.byte());
        assert(longer[from] == op.byte());
        assert(loads(longer, from + 1) == Seq::<u8>::empty());
    }
}

/// A load that is appended to well-encoded code is the last of its loads.
pub proof fn lemma_loads_with_load(code: Seq<u8>, constants: nat, from: int, index: u8)
    requires
        well_encoded(code, constants, from),
        0 <= from,
    ensures
        loads(code.push(OpCode::OpConstant.byte()).push(index), from) == loads(code, from).push(
            index,
        ),
    decreases code.len() - from,
{
    let longer = code.push(OpCode::OpConstant.byte()).push(index);
    if from < code.len() {
        assert(longer[from] == code[from]);
        if OpCode::decode(code[from]) == Some(OpCode::OpConstant) {
            assert(longer[from + 1] == code[from + 1]);
            lemma_loads_with_load(code, constants, from + 2, index);
            assert(seq![code[from + 1]] + loads(code, from + 2).push(index) =~= (seq![
                code[from + 1],
            ] + loads(code, from + 2)).push(index));
        } else {
            lemma_loads_with_load(code, constants, from + 1, index);
        }
    } else {
        assert(longer[from] == OpCode::OpConstant.byte());
        assert(longer[from + 1] == index);
        assert(loads(longer, from + 2) == Seq::<u8>::empty());
        assert(seq![index] + Seq::<u8>::empty() =~= Seq::<u8>::empty().push(index));
    }
}

/// Code that is well encoded has a listing: decoding finds no fault in it.
pub proof fn lemma_well_encoded_lists(chunk: Chunk, from: usize)
    requires
        well_encoded(chunk.code(), chunk.pool().len(), from as int),
    ensures
        listing_from(chunk, from) is Ok,
    decreases chunk.code().len() - from,
{
    chunk.lemma_sizes_fit();
    if from < chunk.code().len() {
        let line = decode_at(chunk, from);
        assert(line is Ok);
        let next = from + 1 + line->Ok_0.op.operands();
        assert(well_encoded(chunk.code(), chunk.pool().len(), next));
        lemma_well_encoded_lists(chunk, next as usize);
    }
}

/// The views of a sequence of lines, item by item.
pub open spec fn line_views(lines: Seq<Line>) -> Seq<LineView> {
    lines.map_values(|l: Line| l@)
}

/// Reading code as instructions.
pub trait Instructions {
    /// Whether the code can be read at all.
    spec fn listable(&self) -> bool;

    fn simple_instruction(&self, op: OpCode, offset: &usize) -> (r: Result<
        (Line, usize),
        DecodeFault,
    >)
        requires
            self.listable(),
    ;

    fn invalid_instruction(&self, instruction: &u8, offset: &usize) -> (fault: DecodeFault)
        requires
            self.listable(),
    ;

    fn disassemble_instruction(&self, offset: &usize) -> (r: Result<(Line, usize), DecodeFault>)
        requires
            self.listable(),
    ;

    fn constant_instruction(&self, op: OpCode, offset: &usize) -> (r: Result<
        (Line, usize),
        DecodeFault,
    >)
        requires
            self.listable(),
    ;
}

impl Chunk {
    /// What a listing shows for the line of the byte at `offset`.
    fn shown(&self, offset: usize) -> (line: Option<i32>)
        requires
            self.wf(),
            offset < self.code().len(),
        ensures
            line == shown_line(self.line_tags(), offset as int),
    {
        proof {
            self.lemma_one_tag_per_byte();
        }
        let here = self.line_at(offset);
        if offset > 0 && here == self.line_at(offset - 1) {
            None
        } else {
            here
        }
    }

    /// The listing of the whole code, or the first fault in it. The chunk
    /// is only read: the same chunk always gives the same listing.
    pub fn disassemble(&self) -> (r: Result<Vec<Line>, DecodeFault>)
        requires
            self.wf(),
        ensures
            match r {
                Ok(lines) => listing_from(*self, 0) == Ok::<Seq<LineView>, DecodeFault>(
                    line_views(lines@),
                ),
                Err(fault) => listing_from(*self, 0) == Err::<Seq<LineView>, DecodeFault>(fault),
            },
    {
        let mut lines: Vec<Line> = Vec::new();
        let mut offset: usize = 0;
        assert(after(line_views(lines@), listing_from(*self, offset)) =~= listing_from(*self, 0));
        while offset < self.len()
            invariant
                self.wf(),
                after(line_views(lines@), listing_from(*self, offset)) == listing_from(*self, 0),
            decreases self.code().len() - offset,
        {
            let ghost before = line_views(lines@);
            match self.disassemble_instruction(&offset) {
                Ok((line, next)) => {
                    proof {
                        let rest = listing_from(*self, next);
                        assert(line_views(lines@.push(line)) =~= before.push(line@));
                        match rest {
                            Ok(more) => {
                                assert(before.push(line@) + more =~= before + (seq![line@] + more));
                            },
                            Err(_) => {},
                        }
                    }
                    lines.push(line);
                    offset = next;
                },
                Err(fault) => {
                    return Err(fault);
                },
            }
        }
        assert(line_views(lines@) + Seq::<LineView>::empty() =~= line_views(lines@));
        Ok(lines)
    }
}

impl Instructions for Chunk {
    open spec fn listable(&self) -> bool {
        self.wf()
    }

    /// The line for an operation without operands at `offset`, and the
    /// offset of the instruction after it.
    fn simple_instruction(&self, op: OpCode, offset: &usize) -> (r: Result<
        (Line, usize),
        DecodeFault,
    >)
        ensures
            *offset >= self.code().len() ==> r == Err::<(Line, usize), DecodeFault>(
                DecodeFault::PastEnd(*offset),
            ),
            *offset < self.code().len() ==> r is Ok && r->Ok_0.1 == *offset + 1 && r->Ok_0.0@ == (
            LineView {
                offset: *offset,
                line: shown_line(self.line_tags(), *offset as int),
                op,
                operand: None,
            }),
    {
        if *offset >= self.len() {
            return Err(DecodeFault::PastEnd(*offset));
        }
        Ok((Line { offset: *offset, line: self.shown(*offset), op, operand: None }, *offset + 1))
    }

    /// The fault of a byte that is no operation.
    fn invalid_instruction(&self, instruction: &u8, offset: &usize) -> (fault: DecodeFault)
        ensures
            fault == DecodeFault::InvalidInstruction(*instruction, *offset),
    {
        DecodeFault::InvalidInstruction(*instruction, *offset)
    }

    /// The line for the instruction at `offset`, and the offset of the
    /// instruction after it.
    fn disassemble_instruction(&self, offset: &usize) -> (r: Result<(Line, usize), DecodeFault>)
        ensures
            match r {
                Ok((line, next)) => decode_at(*self, *offset) == Ok::<LineView, DecodeFault>(line@)
                    && next == *offset + 1 + line.op.operands() && next <= self.code().len(),
                Err(fault) => decode_at(*self, *offset) == Err::<LineView, DecodeFault>(fault),
            },
    {
        let instruction = match self.byte_at(*offset) {
            Some(byte) => byte,
            None => {
                return Err(DecodeFault::PastEnd(*offset));
            },
        };
        match OpCode::from_u8(instruction) {
            Some(OpCode::OpConstant) => self.constant_instruction(OpCode::OpConstant, offset),
            Some(op) => self.simple_instruction(op, offset),
            None => Err(self.invalid_instruction(&instruction, offset)),
        }
    }

    /// The line for an operation with a constant as its operand at
    /// `offset`, and the offset of the instruction after it.
    fn constant_instruction(&self, op: OpCode, offset: &usize) -> (r: Result<
        (Line, usize),
        DecodeFault,
    >)
        ensures
            ({
                let code = self.code();
                if *offset >= code.len() {
                    r == Err::<(Line, usize), DecodeFault>(DecodeFault::PastEnd(*offset))
                } else if *offset + 1 >= code.len() {
                    r == Err::<(Line, usize), DecodeFault>(DecodeFault::MissingOperand(*offset))
                } else if code[*offset + 1] >= self.pool().len() {
                    r == Err::<(Line, usize), DecodeFault>(
                        DecodeFault::InvalidConstant(code[*offset + 1], *offset),
                    )
                } else {
                    r is Ok && r->Ok_0.1 == *offset + 2 && r->Ok_0.0@ == (LineView {
                        offset: *offset,
                        line: shown_line(self.line_tags(), *offset as int),
                        op,
                        operand: Some((code[*offset + 1], self.pool()[code[*offset + 1] as int])),
                    })
                }
            }),
    {
        let n = self.len();
        if *offset >= n {
            return Err(DecodeFault::PastEnd(*offset));
        }
        if *offset + 1 >= n {
            return Err(DecodeFault::MissingOperand(*offset));
        }
        let constant = match self.byte_at(*offset + 1) {
            Some(byte) => byte,
            None => {
                return Err(DecodeFault::MissingOperand(*offset));
            },
        };
        match self.constant_at(constant as usize) {
            Some(value) => Ok(
                (
                    Line {
                        offset: *offset,
                        line: self.shown(*offset),
                        op,
                        operand: Some((constant, value)),
                    },
                    *offset + 2,
                ),
            ),
            None => Err(DecodeFault::InvalidConstant(constant, *offset)),
        }
    }
}

} // verus!
