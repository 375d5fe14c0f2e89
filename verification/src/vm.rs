use vstd::prelude::*;
use crate::chunk::Chunk;
use crate::opcode::OpCode;
use crate::value::{Value, ValueView, views};

verus! {

/// How a run ended.
#[derive(Clone, Copy, Debug, PartialEq, Eq, Structural)]
pub enum InterpretResult {
    InterpretOk,
    InterpretCompileError,
    InterpretRuntimeError,
}

/// Where a machine stands.
#[derive(Clone, Copy, Debug, PartialEq, Eq, Structural)]
pub enum Status {
    /// Nothing has run yet.
    Ready,
    /// Between two instructions.
    Running,
    /// Between two instructions, with an operation handed out whose
    /// result has yet to come back.
    Awaiting,
    /// Stopped for good.
    Halted(InterpretResult),
}

/// What the machine asks of its caller after a step.
#[derive(Debug)]
pub enum Action {
    /// Nothing: the instruction is done.
    Continue,
    /// The negation of the number, as the reply to the next step.
    Negate(Value),
    /// The result of the operation on the two numbers, left operand
    /// first, as the reply to the next step.
    Binary(OpCode, Value, Value),
    /// The machine has stopped; after a return it hands out the value that
    /// was on top of the stack, if there was one, to be reported.
    Halt(InterpretResult, Option<Value>),
}

/// An [`Action`] as mathematical data.
pub ghost enum ActionView {
    Continue,
    Negate(ValueView),
    Binary(OpCode, ValueView, ValueView),
    Halt(InterpretResult, Option<ValueView>),
}

/// The view of a value that may be missing.
pub open spec fn optional_view(value: Option<Value>) -> Option<ValueView> {
    match value {
        Some(v) => Some(v@),
        None => None,
    }
}

impl View for Action {
    type V = ActionView;

    open spec fn view(&self) -> ActionView {
        match self {
            Action::Continue => ActionView::Continue,
            Action::Negate(a) => ActionView::Negate(a@),
            Action::Binary(op, a, b) => ActionView::Binary(*op, a@, b@),
            Action::Halt(r, v) => ActionView::Halt(*r, optional_view(*v)),
        }
    }
}

/// A machine as mathematical data: the code that it runs, with the line
/// tag of each byte, and the constants; the offset of the next
/// instruction; the operand stack with its top last; and the status.
pub ghost struct Machine {
    pub code: Seq<u8>,
    pub tags: Seq<i32>,
    pub pool: Seq<ValueView>,
    pub ip: int,
    pub stack: Seq<ValueView>,
    pub status: Status,
}

/// A machine after a step, and what the step asks for.
pub ghost struct Outcome {
    pub machine: Machine,
    pub action: ActionView,
}

/// The machine stopped with a fault; nothing else about it changes.
pub open spec fn fault(m: Machine) -> Outcome {
    Outcome {
        machine: Machine { status: Status::Halted(InterpretResult::InterpretRuntimeError), ..m },
        action: ActionView::Halt(InterpretResult::InterpretRuntimeError, None),
    }
}

/// Takes in the reply to an operation that was handed out: the result
/// goes on the stack; no result, because the operands were no numbers, is
/// a fault. A machine that awaits nothing does not look at the reply.
pub open spec fn absorb(m: Machine, reply: Option<ValueView>) -> Machine {
    match m.status {
        Status::Awaiting => match reply {
            Some(v) => Machine { stack: m.stack.push(v), status: Status::Running, ..m },
            None => Machine {
                status: Status::Halted(InterpretResult::InterpretRuntimeError),
                ..m
            },
        },
        Status::Ready => Machine { status: Status::Running, ..m },
        _ => m,
    }
}

/// Fetches, decodes and executes the instruction at `ip`.
///
/// Past the end of the code the machine stops without a value. A byte that
/// is no operation is a fault, and so are a constant whose operand byte is
/// missing or is no index into the pool, and an operation that finds too
/// few operands on the stack. A constant is pushed. A return pops the top
/// of the stack, if there is one, and stops. The arithmetic operations pop
/// their operands, the right one first, and hand them out.
pub open spec fn execute(m: Machine) -> Outcome {
    if !(0 <= m.ip < m.code.len()) {
        Outcome {
            machine: Machine { status: Status::Halted(InterpretResult::InterpretOk), ..m },
            action: ActionView::Halt(InterpretResult::InterpretOk, None),
        }
    } else {
        match OpCode::decode(m.code[m.ip]) {
            None => fault(m),
            Some(OpCode::OpReturn) => {
                let top = if m.stack.len() > 0 {
                    Some(m.stack.last())
                } else {
                    None
                };
                let rest = if m.stack.len() > 0 {
                    m.stack.drop_last()
                } else {
                    m.stack
                };
                Outcome {
                    machine: Machine {
                        ip: m.ip + 1,
                        stack: rest,
                        status: Status::Halted(InterpretResult::InterpretOk),
                        ..m
                    },
                    action: ActionView::Halt(InterpretResult::InterpretOk, top),
                }
            },
            Some(OpCode::OpConstant) => {
                if m.ip + 1 < m.code.len() && m.code[m.ip + 1] < m.pool.len() {
                    Outcome {
                        machine: Machine {
                            ip: m.ip + 2,
                            stack: m.stack.push(m.pool[m.code[m.ip + 1] as int]),
                            ..m
                        },
                        action: ActionView::Continue,
                    }
                } else {
                    fault(m)
                }
            },
            Some(OpCode::OpNegate) => {
                if m.stack.len() >= 1 {
                    Outcome {
                        machine: Machine {
                            ip: m.ip + 1,
                            stack: m.stack.drop_last(),
                            status: Status::Awaiting,
                            ..m
                        },
                        action: ActionView::Negate(m.stack.last()),
                    }
                } else {
                    fault(m)
                }
            },
            Some(op) => {
                if m.stack.len() >= 2 {
                    Outcome {
                        machine: Machine {
                            ip: m.ip + 1,
                            stack: m.stack.drop_last().drop_last(),
                            status: Status::Awaiting,
                            ..m
                        },
                        action: ActionView::Binary(
                            op,
                            m.stack[m.stack.len() - 2],
                            m.stack.last(),
                        ),
                    }
                } else {
                    fault(m)
                }
            },
        }
    }
}

/// One step: the reply is taken in, then one instruction runs. A machine
/// that has stopped stays as it is and says again how it stopped.
pub open spec fn step(m: Machine, reply: Option<ValueView>) -> Outcome {
    let taken = absorb(m, reply);
    match taken.status {
        Status::Halted(r) => Outcome { machine: taken, action: ActionView::Halt(r, None) },
        _ => execute(taken),
    }
}

/// The depth of the stack after the instructions of `code` from `from`
/// on have run on a stack that was `depth` deep; nothing if one of them
/// is no instruction, lacks its operand byte, finds too few operands on
/// the stack, or returns.
pub open spec fn depth_after(code: Seq<u8>, from: int, depth: int) -> Option<int>
    decreases code.len() - from,
{
    if from < 0 || from >= code.len() {
        if from == code.len() {
            Some(depth)
        } else {
            None
        }
    } else {
        match OpCode::decode(code[from]) {
            None => None,
            Some(OpCode::OpReturn) => None,
            Some(OpCode::OpConstant) => if from + 1 < code.len() {
                depth_after(code, from + 2, depth + 1)
            } else {
                None
            },
            Some(OpCode::OpNegate) => if depth >= 1 {
                depth_after(code, from + 1, depth)
            } else {
                None
            },
            Some(_) => if depth >= 2 {
                depth_after(code, from + 1, depth - 1)
            } else {
                None
            },
        }
    }
}

/// Whether a machine that stands before the instruction at `from`, with
/// `depth` values on its stack and a pool of `constants`, meets no fault
/// on its way to a return, and has exactly one value to return there.
pub open spec fn runs_safely(code: Seq<u8>, constants: nat, from: int, depth: int) -> bool
    decreases code.len() - from,
{
    if from < 0 || from >= code.len() {
        false
    } else {
        match OpCode::decode(code[from]) {
            None => false,
            Some(OpCode::OpReturn) => depth == 1,
            Some(OpCode::OpConstant) => from + 1 < code.len() && code[from + 1] < constants
                && runs_safely(code, constants, from + 2, depth + 1),
            Some(OpCode::OpNegate) => depth >= 1 && runs_safely(code, constants, from + 1, depth),
            Some(_) => depth >= 2 && runs_safely(code, constants, from + 1, depth - 1),
        }
    }
}

/// Loading a constant makes the stack one deeper.
pub proof fn lemma_depth_with_load(code: Seq<u8>, from: int, depth: int, index: u8)
    requires
        0 <= from,
        depth_after(code, from, depth) is Some,
    ensures
        depth_after(code.push(OpCode::OpConstant.byte()).push(index), from, depth) == Some(
            depth_after(code, from, depth).unwrap() + 1,
        ),
    decreases code.len() - from,
{
    let longer = code.push(OpCode::OpConstant.byte()).push(index);
    if from < code.len() {
        assert(longer[from] == code[from]);
        match OpCode::decode(code[from]) {
            Some(OpCode::OpConstant) => lemma_depth_with_load(code, from + 2, depth + 1, index),
            Some(OpCode::OpNegate) => lemma_depth_with_load(code, from + 1, depth, index),
            Some(OpCode::OpReturn) => {},
            Some(_) => lemma_depth_with_load(code, from + 1, depth - 1, index),
            None => {},
        }
    } else {
        assert(longer[from] == OpCode::OpConstant.byte());
        assert(depth_after(longer, from + 2, depth + 1) == Some(depth + 1));
    }
}

/// A negation leaves the depth of the stack, and an operation on two
/// numbers makes it one less, where the stack is deep enough for them.
pub proof fn lemma_depth_with_operation(code: Seq<u8>, from: int, depth: int, op: OpCode)
    requires
        0 <= from,
        depth_after(code, from, depth) is Some,
        op == OpCode::OpNegate && depth_after(code, from, depth).unwrap() >= 1 || op.is_binary()
            && depth_after(code, from, depth).unwrap() >= 2,
    ensures
        depth_after(code.push(op.byte()), from, depth) == Some(
            depth_after(code, from, depth).unwrap() - (if op.is_binary() {
                1int
            } else {
                0int
            }),
        ),
    decreases code.len() - from,
{
    let longer = code.push(op.byte());
    if from < code.len() {
        assert(longer[from] == code[from]);
        match OpCode::decode(code[from]) {
            Some(OpCode::OpConstant) => lemma_depth_with_operation(code, from + 2, depth + 1, op),
            Some(OpCode::OpNegate) => lemma_depth_with_operation(code, from + 1, depth, op),
            Some(OpCode::OpReturn) => {},
            Some(_) => lemma_depth_with_operation(code, from + 1, depth - 1, op),
            None => {},
        }
    } else {
        assert(longer[from] == op.byte());
        assert(depth_after(longer, from + 1, depth) == Some(depth));
        assert(depth_after(longer, from + 1, depth - 1) == Some(depth - 1));
    }
}

/// Code that leaves one value on the stack, and loads constants of the
/// pool only, runs safely once a return is put behind it.
pub proof fn lemma_return_makes_safe(code: Seq<u8>, constants: nat, from: int, depth: int)
    requires
        0 <= from,
        depth_after(code, from, depth) == Some(1int),
        crate::instructions::well_encoded(code, constants, from),
    ensures
        runs_safely(code.push(OpCode::OpReturn.byte()), constants, from, depth),
    decreases code.len() - from,
{
    let longer = code.push(OpCode::OpReturn.byte());
    if from < code.len() {
        assert(longer[from] == code[from]);
        match OpCode::decode(code[from]) {
            Some(OpCode::OpConstant) => {
                assert(longer[from + 1] == code[from + 1]);
                lemma_return_makes_safe(code, constants, from + 2, depth + 1);
            },
            Some(OpCode::OpNegate) => lemma_return_makes_safe(code, constants, from + 1, depth),
            Some(OpCode::OpReturn) => {},
            Some(_) => lemma_return_makes_safe(code, constants, from + 1, depth - 1),
            None => {},
        }
    } else {
        assert(longer[from] == OpCode::OpReturn.byte());
    }
}

/// Steps a machine until it stops. `replies` says with which result the
/// caller answers the operation that was handed out just before the
/// instruction at a given offset.
pub open spec fn run(m: Machine, replies: spec_fn(int) -> ValueView) -> Outcome
    decreases m.code.len() - m.ip,
{
    let next = step(m, Some(replies(m.ip)));
    if !(next.action is Halt) && m.ip < next.machine.ip <= m.code.len() {
        run(next.machine, replies)
    } else {
        next
    }
}

/// How many values a machine has or is owed: those on its stack, and
/// the result of an operation that it has handed out.
pub open spec fn depth_of(m: Machine) -> int {
    m.stack.len() + (if m.status == Status::Awaiting {
        1int
    } else {
        0int
    })
}

/// A machine whose code runs safely from where it stands, and that has
/// not stopped, runs without a fault to a return, whatever the results
/// of the operations that it hands out: it stops in order, hands out a
/// value and leaves an empty stack.
pub proof fn lemma_safe_code_runs(m: Machine, replies: spec_fn(int) -> ValueView)
    requires
        !(m.status is Halted),
        runs_safely(m.code, m.pool.len(), m.ip, depth_of(m)),
    ensures
        run(m, replies).machine.status == Status::Halted(InterpretResult::InterpretOk),
        run(m, replies).machine.stack.len() == 0,
        run(m, replies).action matches ActionView::Halt(r, v) && r == InterpretResult::InterpretOk
            && v is Some,
    decreases m.code.len() - m.ip,
{
    let next = step(m, Some(replies(m.ip)));
    if !(next.action is Halt) {
        lemma_safe_code_runs(next.machine, replies);
    }
}

/// The outcome of a step that stops the machine.
pub open spec fn stopped(machine: Machine, result: InterpretResult, value: Option<ValueView>)
    -> Outcome {
    Outcome { machine, action: ActionView::Halt(result, value) }
}

/// Whether `reply` can be the answer of `arithmetic` to what a step has
/// handed out: to a negation or an operation on two numbers, an answer
/// that `arithmetic` may give on values that look like the operands; to
/// anything else, no answer at all.
pub open spec fn admitted<F: Fn(OpCode, Value, Option<Value>) -> Option<Value>>(
    arithmetic: F,
    asked: ActionView,
    reply: Option<ValueView>,
) -> bool {
    match asked {
        ActionView::Negate(a) => exists|x: Value, r: Option<Value>|
            x@ == a && optional_view(r) == reply && #[trigger] arithmetic.ensures(
                (OpCode::OpNegate, x, None),
                r,
            ),
        ActionView::Binary(op, a, b) => exists|x: Value, y: Value, r: Option<Value>|
            x@ == a && y@ == b && optional_view(r) == reply && #[trigger] arithmetic.ensures(
                (op, x, Some(y)),
                r,
            ),
        _ => reply is None,
    }
}

/// Whether a machine that takes `reply` with its next step, and after
/// it the replies of `later` one with each step, stops with the last of
/// these steps and not before, with the outcome `end`, each reply being
/// an answer of `arithmetic` to what the step before it handed out.
pub open spec fn reaches<F: Fn(OpCode, Value, Option<Value>) -> Option<Value>>(
    arithmetic: F,
    m: Machine,
    reply: Option<ValueView>,
    later: Seq<Option<ValueView>>,
    end: Outcome,
) -> bool
    decreases later.len(),
{
    let next = step(m, reply);
    if later.len() == 0 {
        next.action is Halt && next == end
    } else {
        &&& !(next.action is Halt)
        &&& admitted(arithmetic, next.action, later[0])
        &&& reaches(arithmetic, next.machine, later[0], later.drop_first(), end)
    }
}

/// The outcome of running a machine that hands out no operation before
/// it stops: step after step without a reply, up to the step that stops
/// it. Nothing for a machine that hands out an operation first.
pub open spec fn quiet(m: Machine) -> Option<Outcome>
    decreases m.code.len() - m.ip,
{
    let next = step(m, None);
    match next.action {
        ActionView::Halt(_, _) => Some(next),
        ActionView::Continue => quiet(next.machine),
        _ => None,
    }
}

/// A stack machine that runs one chunk.
pub struct VM {
    chunk: Chunk,
    ip: usize,
    stack: Vec<Value>,
    status: Status,
}

impl View for VM {
    type V = Machine;

    closed spec fn view(&self) -> Machine {
        Machine {
            code: self.chunk.code(),
            tags: self.chunk.line_tags(),
            pool: self.chunk.pool(),
            ip: self.ip as int,
            stack: views(self.stack@),
            status: self.status,
        }
    }
}

impl VM {
    /// The chunk is well formed, and the next instruction lies within
    /// the code or just behind it.
    pub closed spec fn wf(&self) -> bool {
        &&& self.chunk.wf()
        &&& self.ip <= self.chunk.code().len()
    }

    /// A well-formed machine has one line tag for each byte of its code,
    /// and stands within the code or just behind it.
    pub proof fn lemma_wf(&self)
        requires
            self.wf(),
        ensures
            self@.tags.len() == self@.code.len(),
            0 <= self@.ip <= self@.code.len(),
    {
        self.chunk.lemma_one_tag_per_byte();
    }

    /// A machine that is ready to run `chunk` from its first byte, with
    /// an empty stack.
    pub fn new(chunk: Chunk) -> (vm: VM)
        requires
            chunk.wf(),
        ensures
            vm.wf(),
            vm@ == (Machine {
                code: chunk.code(),
                tags: chunk.line_tags(),
                pool: chunk.pool(),
                ip: 0,
                stack: Seq::empty(),
                status: Status::Ready,
            }),
    {
        let vm = VM { chunk, ip: 0, stack: Vec::new(), status: Status::Ready };
        assert(vm@.stack =~= Seq::empty());
        vm
    }

    /// Where the machine stands.
    pub fn status(&self) -> (s: Status)
        ensures
            s == self@.status,
    {
        self.status
    }

    /// The offset of the next instruction.
    pub fn offset(&self) -> (ip: usize)
        ensures
            ip == self@.ip,
    {
        self.ip
    }

    /// How many values are on the stack.
    pub fn depth(&self) -> (n: usize)
        ensures
            n == self@.stack.len(),
    {
        self.stack.len()
    }

    /// The value at `index` of the stack, counted from the bottom, if the
    /// stack is that deep.
    pub fn stack_value(&self, index: usize) -> (r: Option<Value>)
        ensures
            index < self@.stack.len() ==> r.is_some() && r.unwrap()@ == self@.stack[index as int],
            index >= self@.stack.len() ==> r.is_none(),
    {
        if index < self.stack.len() {
            Some(self.stack[index].duplicate())
        } else {
            None
        }
    }

    /// The chunk that the machine runs.
    pub fn chunk(&self) -> (chunk: &Chunk)
        ensures
            chunk.code() == self@.code,
            chunk.line_tags() == self@.tags,
            chunk.pool() == self@.pool,
            self.wf() ==> chunk.wf(),
    {
        &self.chunk
    }

    /// The byte at `ip`, if the code has one there; `ip` then moves past it.
    fn read_byte(&mut self) -> (byte: Option<u8>)
        requires
            old(self).wf(),
        ensures
            final(self).wf(),
            old(self)@.ip < old(self)@.code.len() ==> byte == Some(
                old(self)@.code[old(self)@.ip],
            ) && final(self)@ == (Machine { ip: old(self)@.ip + 1, ..old(self)@ }),
            old(self)@.ip >= old(self)@.code.len() ==> byte.is_none() && final(self)@ == old(
                self,
            )@,
    {
        if self.ip < self.chunk.len() {
            let instruction = self.chunk.byte_at(self.ip);
            self.ip += 1;
            instruction
        } else {
            None
        }
    }

    /// The constant that the operand byte at `ip` refers to, if there is
    /// such a byte and the pool has a constant at that index; `ip` moves
    /// past the byte if it is there.
    fn read_constant(&mut self) -> (constant: Option<Value>)
        requires
            old(self).wf(),
        ensures
            final(self).wf(),
            ({
                let m = old(self)@;
                if m.ip < m.code.len() && m.code[m.ip] < m.pool.len() {
                    &&& constant.is_some()
                    &&& constant.unwrap()@ == m.pool[m.code[m.ip] as int]
                    &&& final(self)@ == (Machine { ip: m.ip + 1, ..m })
                } else {
                    &&& constant.is_none()
                    &&& final(self)@.code == m.code
                    &&& final(self)@.tags == m.tags
                    &&& final(self)@.pool == m.pool
                    &&& final(self)@.stack == m.stack
                    &&& final(self)@.status == m.status
                }
            }),
    {
        match self.read_byte() {
            Some(constant_ref) => self.chunk.constant_at(constant_ref as usize),
            None => None,
        }
    }

    /// Stops the machine with a fault, at the instruction at `at`.
    fn halt_on_fault(&mut self, at: usize) -> (action: Action)
        requires
            old(self).wf(),
            at <= old(self)@.code.len(),
        ensures
            final(self).wf(),
            final(self)@ == (Machine {
                ip: at as int,
                status: Status::Halted(InterpretResult::InterpretRuntimeError),
                ..old(self)@
            }),
            action@ == ActionView::Halt(InterpretResult::InterpretRuntimeError, None),
    {
        self.ip = at;
        self.status = Status::Halted(InterpretResult::InterpretRuntimeError);
        Action::Halt(InterpretResult::InterpretRuntimeError, None)
    }

    /// Runs the machine until it stops, and says how it stopped and which
    /// value it handed out, if any.
    ///
    /// `arithmetic` does the operations on numbers: it is given the
    /// operation, the left operand and, for an operation on two numbers,
    /// the right operand, and answers with the result, or with nothing
    /// if the operands are no numbers, which stops the machine with a
    /// fault.
    ///
    /// The run is a chain of steps: the first takes no reply, each later
    /// one the answer of `arithmetic` to what the step before handed out,
    /// and the last is the one that stops the machine ([`reaches`]). Where
    /// the machine hands out no operation on its way, the outcome is that
    /// of [`quiet`]. Where the machine stands between two instructions,
    /// the code runs safely from there and `arithmetic` always answers,
    /// the run ends in order, with a value handed out and an empty stack.
    pub fn run<F>(&mut self, arithmetic: F) -> (outcome: (InterpretResult, Option<Value>)) where
        F: Fn(OpCode, Value, Option<Value>) -> Option<Value>,

        requires
            old(self).wf(),
            forall|op: OpCode, a: Value, b: Option<Value>| arithmetic.requires((op, a, b)),
        ensures
            final(self).wf(),
            final(self)@.code == old(self)@.code,
            final(self)@.tags == old(self)@.tags,
            final(self)@.pool == old(self)@.pool,
            final(self)@.status == Status::Halted(outcome.0),
            exists|replies: Seq<Option<ValueView>>|
                reaches(
                    arithmetic,
                    old(self)@,
                    None,
                    replies,
                    stopped(final(self)@, outcome.0, optional_view(outcome.1)),
                ),
            quiet(old(self)@) is Some ==> quiet(old(self)@) == Some(
                stopped(final(self)@, outcome.0, optional_view(outcome.1)),
            ),
            old(self)@.status matches Status::Halted(r) ==> outcome.0 == r && outcome.1 is None
                && final(self)@ == old(self)@,
            ((old(self)@.status == Status::Ready || old(self)@.status == Status::Running)
                && runs_safely(
                old(self)@.code,
                old(self)@.pool.len(),
                old(self)@.ip,
                depth_of(old(self)@),
            ) && forall|op: OpCode, a: Value, b: Option<Value>, r: Option<Value>|
                arithmetic.ensures((op, a, b), r) ==> r is Some) ==> outcome.0
                == InterpretResult::InterpretOk && outcome.1 is Some && final(self)@.stack.len()
                == 0,
    {
        let ghost safe = (self@.status == Status::Ready || self@.status == Status::Running)
            && runs_safely(self@.code, self@.pool.len(), self@.ip, depth_of(self@)) && forall|
            op: OpCode,
            a: Value,
            b: Option<Value>,
            r: Option<Value>,
        | arithmetic.ensures((op, a, b), r) ==> r is Some;
        let ghost mut given: Seq<Option<ValueView>> = Seq::empty();
        let ghost mut silent = true;
        let mut reply: Option<Value> = None;
        proof {
            assert forall|later: Seq<Option<ValueView>>, end: Outcome|
                reaches(arithmetic, self@, optional_view(reply), later, end) implies reaches(
                arithmetic,
                old(self)@,
                None,
                given + later,
                end,
            ) by {
                assert(given + later =~= later);
            }
        }
        loop
            invariant
                self.wf(),
                self@.code == old(self)@.code,
                self@.tags == old(self)@.tags,
                self@.pool == old(self)@.pool,
                forall|op: OpCode, a: Value, b: Option<Value>| arithmetic.requires((op, a, b)),
                safe ==> forall|op: OpCode, a: Value, b: Option<Value>, r: Option<Value>|
                    arithmetic.ensures((op, a, b), r) ==> r is Some,
                safe ==> !(self@.status is Halted) && runs_safely(
                    self@.code,
                    self@.pool.len(),
                    self@.ip,
                    depth_of(self@),
                ),
                safe && self@.status == Status::Awaiting ==> reply is Some,
                old(self)@.status is Halted ==> self@ == old(self)@,
                safe == ((old(self)@.status == Status::Ready || old(self)@.status
                    == Status::Running) && runs_safely(
                    old(self)@.code,
                    old(self)@.pool.len(),
                    old(self)@.ip,
                    depth_of(old(self)@),
                ) && forall|op: OpCode, a: Value, b: Option<Value>, r: Option<Value>|
                    arithmetic.ensures((op, a, b), r) ==> r is Some),
                forall|later: Seq<Option<ValueView>>, end: Outcome| #[trigger]
                    reaches(arithmetic, self@, optional_view(reply), later, end) ==> reaches(
                        arithmetic,
                        old(self)@,
                        None,
                        given + later,
                        end,
                    ),
                silent ==> reply is None && quiet(self@) == quiet(old(self)@),
                !silent ==> quiet(old(self)@) is None,
            decreases self@.code.len() - self@.ip,
        {
            let ghost before = self@;
            let ghost taken = optional_view(reply);
            let ghost so_far = given;
            let action = self.step(reply);
            let ghost asked = action@;
            match action {
                Action::Continue => {
                    reply = None;
                },
                Action::Negate(a) => {
                    let ghost operand = a;
                    reply = arithmetic(OpCode::OpNegate, a, None);
                    proof {
                        silent = false;
                        assert(arithmetic.ensures((OpCode::OpNegate, operand, None), reply));
                        assert(admitted(arithmetic, asked, optional_view(reply)));
                    }
                },
                Action::Binary(op, a, b) => {
                    let ghost left = a;
                    let ghost right = b;
                    reply = arithmetic(op, a, Some(b));
                    proof {
                        silent = false;
                        assert(arithmetic.ensures((op, left, Some(right)), reply));
                        assert(admitted(arithmetic, asked, optional_view(reply)));
                    }
                },
                Action::Halt(result, value) => {
                    proof {
                        let end = stopped(self@, result, optional_view(value));
                        assert(reaches(
                            arithmetic,
                            before,
                            taken,
                            Seq::<Option<ValueView>>::empty(),
                            end,
                        ));
                        assert(so_far + Seq::<Option<ValueView>>::empty() =~= so_far);
                        assert(reaches(arithmetic, old(self)@, None, so_far, end));
                    }
                    return (result, value);
                },
            }
            proof {
                let answer = optional_view(reply);
                given = so_far.push(answer);
                assert forall|later: Seq<Option<ValueView>>, end: Outcome|
                    reaches(arithmetic, self@, answer, later, end) implies reaches(
                    arithmetic,
                    old(self)@,
                    None,
                    given + later,
                    end,
                ) by {
                    let longer = seq![answer] + later;
                    assert(longer[0] == answer);
                    assert(longer.drop_first() =~= later);
                    assert(reaches(arithmetic, before, taken, longer, end));
                    assert(given + later =~= so_far + longer);
                }
            }
        }
    }

    /// Runs one instruction.
    ///
    /// `reply` is the result of the operation that the step before
    /// handed out, or nothing if the caller could not compute it.
    pub fn step(&mut self, reply: Option<Value>) -> (action: Action)
        requires
            old(self).wf(),
        ensures
            final(self).wf(),
            final(self)@ == step(old(self)@, optional_view(reply)).machine,
            action@ == step(old(self)@, optional_view(reply)).action,
    {
        match self.status {
            Status::Awaiting => match reply {
                Some(v) => {
                    self.stack.push(v);
                    self.status = Status::Running;
                    assert(self@.stack =~= old(self)@.stack.push(v@));
                },
                None => {
                    self.status = Status::Halted(InterpretResult::InterpretRuntimeError);
                },
            },
            Status::Ready => {
                self.status = Status::Running;
            },
            _ => {},
        }
        if let Status::Halted(r) = self.status {
            return Action::Halt(r, None);
        }
        let ghost taken = self@;
        let at = self.ip;
        let instruction = match self.read_byte() {
            Some(i) => i,
            None => {
                self.status = Status::Halted(InterpretResult::InterpretOk);
                return Action::Halt(InterpretResult::InterpretOk, None);
            },
        };
        match OpCode::from_u8(instruction) {
            None => self.halt_on_fault(at),
            Some(OpCode::OpReturn) => {
                let top = self.stack.pop();
                self.status = Status::Halted(InterpretResult::InterpretOk);
                assert(self@.stack =~= (if taken.stack.len() > 0 {
                    taken.stack.drop_last()
                } else {
                    taken.stack
                }));
                Action::Halt(InterpretResult::InterpretOk, top)
            },
            Some(OpCode::OpConstant) => {
                match self.read_constant() {
                    Some(constant) => {
                        self.stack.push(constant);
                        assert(self@.stack =~= taken.stack.push(constant@));
                        Action::Continue
                    },
                    None => self.halt_on_fault(at),
                }
            },
            Some(OpCode::OpNegate) => {
                match self.stack.pop() {
                    Some(operand) => {
                        self.status = Status::Awaiting;
                        assert(self@.stack =~= taken.stack.drop_last());
                        Action::Negate(operand)
                    },
                    None => self.halt_on_fault(at),
                }
            },
            Some(op) => {
                if self.stack.len() < 2 {
                    return self.halt_on_fault(at);
                }
                let operand2 = self.stack.pop().unwrap();
                let operand1 = self.stack.pop().unwrap();
                self.status = Status::Awaiting;
                assert(self@.stack =~= taken.stack.drop_last().drop_last());
                Action::Binary(op, operand1, operand2)
            },
        }
    }
}

} // verus!
