use vstd::prelude::*;
use vstd::string::{StrSliceExecFns, StringExecFns};
use crate::chunk::Chunk;
use crate::instructions::{
    indices, lemma_append_load, lemma_append_operation, lemma_loads_with_load,
    lemma_loads_with_operation, lemma_pool_may_grow, lemma_well_encoded_lists, listing_from, loads,
    well_encoded,
};
use crate::opcode::OpCode;
use crate::scanner::{
    end_token, is_digit, lemma_end_token_repeats, lemma_digits_to_the_end, lemma_next_token_moves, next_token, tokens_from, ScanError,
    Scanner, Token, TokenType,
};
use crate::text::{push_signed, signed};
use crate::value::{Value, ValueView};
use crate::vm::{
    depth_after, lemma_depth_with_load, lemma_depth_with_operation, lemma_return_makes_safe,
    quiet, runs_safely, step, ActionView, InterpretResult, Machine, Status, VM,
};

verus! {

/// How tightly an operator binds, from loosest to tightest.
#[derive(Clone, Copy, Debug, PartialEq, Eq, Structural)]
pub enum Precedence {
    Lowest,
    Assignment,  // =
    Or,  // or
    And,  // and
    Equality,  // == !=
    Comparison,  // < > <= >=
    Term,  // + -
    Factor,  // * /
    Unary,  // ! -
    Call,  // . ()
    Primary,
}

impl Precedence {
    /// The place of the level in the order.
    pub open spec fn rank(self) -> nat {
        match self {
            Precedence::Lowest => 0,
            Precedence::Assignment => 1,
            Precedence::Or => 2,
            Precedence::And => 3,
            Precedence::Equality => 4,
            Precedence::Comparison => 5,
            Precedence::Term => 6,
            Precedence::Factor => 7,
            Precedence::Unary => 8,
            Precedence::Call => 9,
            Precedence::Primary => 10,
        }
    }

    /// The level one step tighter; the tightest stays.
    pub open spec fn tighter(self) -> Precedence {
        match self {
            Precedence::Lowest => Precedence::Assignment,
            Precedence::Assignment => Precedence::Or,
            Precedence::Or => Precedence::And,
            Precedence::And => Precedence::Equality,
            Precedence::Equality => Precedence::Comparison,
            Precedence::Comparison => Precedence::Term,
            Precedence::Term => Precedence::Factor,
            Precedence::Factor => Precedence::Unary,
            Precedence::Unary => Precedence::Call,
            Precedence::Call => Precedence::Primary,
            Precedence::Primary => Precedence::Primary,
        }
    }

    pub fn level(self) -> (n: u8)
        ensures
            n == self.rank(),
    {
        match self {
            Precedence::Lowest => 0,
            Precedence::Assignment => 1,
            Precedence::Or => 2,
            Precedence::And => 3,
            Precedence::Equality => 4,
            Precedence::Comparison => 5,
            Precedence::Term => 6,
            Precedence::Factor => 7,
            Precedence::Unary => 8,
            Precedence::Call => 9,
            Precedence::Primary => 10,
        }
    }

    pub fn next(self) -> (p: Precedence)
        ensures
            p == self.tighter(),
    {
        match self {
            Precedence::Lowest => Precedence::Assignment,
            Precedence::Assignment => Precedence::Or,
            Precedence::Or => Precedence::And,
            Precedence::And => Precedence::Equality,
            Precedence::Equality => Precedence::Comparison,
            Precedence::Comparison => Precedence::Term,
            Precedence::Term => Precedence::Factor,
            Precedence::Factor => Precedence::Unary,
            Precedence::Unary => Precedence::Call,
            Precedence::Call => Precedence::Primary,
            Precedence::Primary => Precedence::Primary,
        }
    }

    /// The levels are ordered strictly: distinct levels have distinct
    /// ranks, and a tighter level has the greater rank.
    pub proof fn lemma_strictly_ordered(a: Precedence, b: Precedence)
        ensures
            a.rank() == b.rank() <==> a == b,
            a != Precedence::Primary ==> a.tighter().rank() == a.rank() + 1,
    {
    }
}

/// What a report says.
#[derive(Clone, Copy, Debug, PartialEq, Eq, Structural)]
pub enum Message {
    /// The scanner's own message for an error token.
    Scan(ScanError),
    /// No expression can start with the token.
    ExpectExpression,
    /// A parenthesis was opened and the expression in it is not followed
    /// by the closing one.
    ExpectedClosingParen,
    /// A token of the first kind was required and one of the second found.
    Expected(TokenType, TokenType),
    /// The constant pool is full.
    TooManyConstants,
}

/// Where in the source a report points.
#[derive(Clone, Copy, Debug, PartialEq, Eq, Structural)]
pub enum Location {
    /// Nowhere: the message of an error token says it all.
    Unplaced,
    /// At the end of the input.
    AtEnd,
    /// At the token that starts at the first field and is as long as the second.
    At(usize, i32),
}

/// One reported error.
#[derive(Clone, Copy, Debug, PartialEq, Eq, Structural)]
pub struct Diagnostic {
    pub line: i32,
    pub location: Location,
    pub message: Message,
}

/// Why a source did not compile: the errors reported, in order, at least one.
#[derive(Debug)]
pub struct CompileError {
    pub diagnostics: Vec<Diagnostic>,
}

impl Message {
    /// The message in words.
    pub open spec fn text(self) -> Seq<char> {
        match self {
            Message::Scan(e) => e.text(),
            Message::ExpectExpression => "Expect expression."@,
            Message::ExpectedClosingParen => "Expected '(' after expression."@,
            Message::Expected(wanted, found) => "Expected "@ + wanted.label() + ", found, "@
                + found.label(),
            Message::TooManyConstants => "Too many constants in one chunk."@,
        }
    }

    /// Appends the message in words to `out`.
    pub fn write(self, out: &mut String)
        ensures
            final(out)@ == old(out)@ + self.text(),
    {
        match self {
            Message::Scan(e) => out.append(e.message()),
            Message::ExpectExpression => out.append("Expect expression."),
            Message::ExpectedClosingParen => out.append("Expected '(' after expression."),
            Message::Expected(wanted, found) => {
                out.append("Expected ");
                out.append(wanted.name());
                out.append(", found, ");
                out.append(found.name());
                assert(out@ =~= old(out)@ + self.text());
            },
            Message::TooManyConstants => out.append("Too many constants in one chunk."),
        }
    }
}

/// The characters of `src` from `start` on, `length` of them; nothing
/// where they do not all lie within `src`.
pub open spec fn lexeme(src: Seq<char>, start: int, length: int) -> Seq<char> {
    if 0 <= start && 0 <= length && start + length <= src.len() {
        src.subrange(start, start + length)
    } else {
        Seq::empty()
    }
}

/// How a report says where it points.
pub open spec fn location_text(location: Location, src: Seq<char>) -> Seq<char> {
    match location {
        Location::Unplaced => Seq::empty(),
        Location::AtEnd => " at end"@,
        Location::At(start, length) => " at '"@ + lexeme(src, start as int, length as int) + "'"@,
    }
}

/// A report as one line of text: the line number in square brackets, the
/// word `Error`, the place, a colon and the message.
pub open spec fn report_text(d: Diagnostic, src: Seq<char>) -> Seq<char> {
    "[line "@ + signed(d.line as int) + "] Error"@ + location_text(d.location, src) + ": "@
        + d.message.text()
}

impl Diagnostic {
    /// The report as text, for the source that it is about.
    pub fn render(&self, source: &str) -> (s: String)
        ensures
            s@ == report_text(*self, source@),
    {
        let mut out = String::new();
        out.append("[line ");
        push_signed(&mut out, self.line as i64);
        out.append("] Error");
        let ghost head = out@;
        match self.location {
            Location::Unplaced => {},
            Location::AtEnd => out.append(" at end"),
            Location::At(start, length) => {
                out.append(" at '");
                let n = source.unicode_len();
                if length >= 0 && start <= n && length as usize <= n - start {
                    out.append(source.substring_char(start, start + length as usize));
                }
                out.append("'");
            },
        }
        assert(out@ =~= head + location_text(self.location, source@));
        out.append(": ");
        self.message.write(&mut out);
        assert(out@ =~= report_text(*self, source@));
        out
    }
}

/// The place to which a report about `token` points.
pub open spec fn location_of(token: Token) -> Location {
    match token.token_type {
        TokenType::Error(_) => Location::Unplaced,
        TokenType::EOF => Location::AtEnd,
        _ => Location::At(token.start, token.length),
    }
}

/// The state of a compilation: where the scanner stands, the last two
/// tokens, the error flags with what was reported, and the chunk so far.
pub struct ParseState {
    pub pos: int,
    pub line: int,
    pub previous: Token,
    pub current: Token,
    pub had_error: bool,
    pub panic_mode: bool,
    pub reports: Seq<Diagnostic>,
    pub code: Seq<u8>,
    pub tags: Seq<i32>,
    pub pool: Seq<ValueView>,
}

/// The token that stands for "none yet".
pub open spec fn placeholder() -> Token {
    Token { token_type: TokenType::EOF, start: 0, length: 0, line: 0 }
}

/// The state before anything is read.
pub open spec fn initial_state() -> ParseState {
    ParseState {
        pos: 0,
        line: 0,
        previous: placeholder(),
        current: placeholder(),
        had_error: false,
        panic_mode: false,
        reports: Seq::empty(),
        code: Seq::empty(),
        tags: Seq::empty(),
        pool: Seq::empty(),
    }
}

/// Reports `message` at `token`, unless an earlier report is still in
/// force: only the first error of a run is kept.
pub open spec fn report(s: ParseState, token: Token, message: Message) -> ParseState {
    if s.panic_mode {
        s
    } else {
        ParseState {
            had_error: true,
            panic_mode: true,
            reports: s.reports.push(
                Diagnostic { line: token.line, location: location_of(token), message },
            ),
            ..s
        }
    }
}

/// Appends one byte, tagged with the line of the token consumed last.
pub open spec fn emit(s: ParseState, byte: u8) -> ParseState {
    ParseState { code: s.code.push(byte), tags: s.tags.push(s.previous.line), ..s }
}

/// Reads tokens into `current` until one is no error token, reporting
/// each error token that is passed over.
pub open spec fn fetch(src: Seq<char>, s: ParseState) -> ParseState
    decreases src.len() - s.pos,
{
    let next = next_token(src, s.pos, s.line);
    let read = ParseState { pos: next.pos, line: next.line, current: next.token, ..s };
    match next.token.token_type {
        TokenType::Error(e) => {
            if 0 <= s.pos <= src.len() {
                proof {
                    lemma_next_token_moves(src, s.pos, s.line);
                }
                fetch(src, report(read, next.token, Message::Scan(e)))
            } else {
                read
            }
        },
        _ => read,
    }
}

/// Moves on by one token: `current` becomes `previous`.
pub open spec fn advance(src: Seq<char>, s: ParseState) -> ParseState {
    fetch(src, ParseState { previous: s.current, ..s })
}

/// Moves on if the current token has the kind asked for; reports
/// `message` at it otherwise, and stays.
pub open spec fn consume(src: Seq<char>, s: ParseState, kind: TokenType, message: Message) -> ParseState {
    if s.current.token_type == kind {
        advance(src, s)
    } else {
        report(s, s.current, message)
    }
}

/// The most constants that a chunk may hold.
pub const MAX_CONSTANTS: usize = 255;

/// Compiles the number literal in `previous`: the literal, as written,
/// goes to the end of the pool, and the code loads it by its index there.
/// With a full pool it is an error and nothing is added.
pub open spec fn literal(src: Seq<char>, s: ParseState) -> ParseState {
    if s.pool.len() >= MAX_CONSTANTS {
        report(s, s.previous, Message::TooManyConstants)
    } else {
        let text = src.subrange(s.previous.start as int, s.previous.start + s.previous.length);
        let added = ParseState { pool: s.pool.push(ValueView::Literal(text)), ..s };
        emit(emit(added, OpCode::OpConstant.byte()), s.pool.len() as u8)
    }
}

/// The level at which a token binds as an operator between two operands;
/// the lowest for what is no such operator.
pub open spec fn infix_level(kind: TokenType) -> Precedence {
    match kind {
        TokenType::Minus | TokenType::Plus => Precedence::Term,
        TokenType::Slash | TokenType::Star => Precedence::Factor,
        _ => Precedence::Lowest,
    }
}

/// The operation of an operator between two operands.
pub open spec fn binary_op(kind: TokenType) -> OpCode {
    match kind {
        TokenType::Minus => OpCode::OpSubstract,
        TokenType::Plus => OpCode::OpAdd,
        TokenType::Slash => OpCode::OpDivide,
        _ => OpCode::OpMultiply,
    }
}

/// Whether an expression can start with a token of this kind.
pub open spec fn starts_expression(kind: TokenType) -> bool {
    kind == TokenType::LeftParen || kind == TokenType::Minus || kind == TokenType::Number
}

/// What is left to read: the characters not yet scanned, and the current
/// token unless it is the end token. Every token consumed lowers it.
pub open spec fn remaining(src: Seq<char>, s: ParseState) -> int {
    src.len() - s.pos + (if s.current.is_end() { 0int } else { 1int })
}

/// Whether less is left to read in state `a` than in state `b`.
pub open spec fn nearer(src: Seq<char>, a: ParseState, b: ParseState) -> bool {
    0 <= remaining(src, a) < remaining(src, b)
}

/// Compiles one expression whose operators bind at least as tightly as
/// `level`. The token that starts it is consumed and decides: an opening
/// parenthesis has an expression and the closing one follow, a minus has
/// an operand at the level of unary operators follow and then negates, a
/// number is a literal; anything else is an error. After it come the
/// operators of [`operators`].
///
/// The tests of [`nearer`] bound the recursion; in every state
/// that a compilation reaches they hold, as the compiler's own contracts
/// show.
pub open spec fn expression(src: Seq<char>, s: ParseState, level: Precedence) -> ParseState
    decreases remaining(src, s), 1int,
{
    let s1 = advance(src, s);
    let kind = s1.previous.token_type;
    if starts_expression(kind) && nearer(src, s1, s) {
        let s2 = if kind == TokenType::LeftParen {
            consume(
                src,
                expression(src, s1, Precedence::Assignment),
                TokenType::RightParen,
                Message::ExpectedClosingParen,
            )
        } else if kind == TokenType::Minus {
            emit(expression(src, s1, Precedence::Unary), OpCode::OpNegate.byte())
        } else {
            literal(src, s1)
        };
        if nearer(src, s2, s) {
            operators(src, s2, level)
        } else {
            s2
        }
    } else {
        report(s1, s1.previous, Message::ExpectExpression)
    }
}

/// Compiles the operators that follow an operand, as long as they bind
/// at least as tightly as `level`: each is consumed, its right operand is
/// compiled one level tighter than the operator, so that operators of one
/// level group to the left, and then the operation itself is emitted.
pub open spec fn operators(src: Seq<char>, s: ParseState, level: Precedence) -> ParseState
    decreases remaining(src, s), 0int,
{
    let own = infix_level(s.current.token_type);
    if own != Precedence::Lowest && level.rank() <= own.rank() {
        let s1 = advance(src, s);
        if nearer(src, s1, s) {
            let s2 = emit(
                expression(src, s1, own.tighter()),
                binary_op(s1.previous.token_type).byte(),
            );
            if nearer(src, s2, s) {
                operators(src, s2, level)
            } else {
                s2
            }
        } else {
            s1
        }
    } else {
        s
    }
}

/// A whole compilation: one expression, then the end of the input, then
/// the instruction that returns.
pub open spec fn compilation(src: Seq<char>) -> ParseState {
    let s1 = advance(src, initial_state());
    let s2 = expression(src, s1, Precedence::Assignment);
    let s3 = consume(
        src,
        s2,
        TokenType::EOF,
        Message::Expected(TokenType::EOF, s2.current.token_type),
    );
    emit(s3, OpCode::OpReturn.byte())
}

/// All tokens of a source, in order, without the end token.
pub open spec fn all_tokens(src: Seq<char>) -> Seq<Token> {
    tokens_from(src, 0, 0)
}

/// The token alone, or nothing if it is the end token.
pub open spec fn unless_end(token: Token) -> Seq<Token> {
    if token.is_end() {
        Seq::empty()
    } else {
        seq![token]
    }
}

/// The number literals among `tokens`, in their order, each as the
/// constant that it is compiled to.
pub open spec fn literals(src: Seq<char>, tokens: Seq<Token>) -> Seq<ValueView>
    decreases tokens.len(),
{
    if tokens.len() == 0 {
        Seq::empty()
    } else {
        let before = literals(src, tokens.drop_last());
        let last = tokens.last();
        if last.token_type == TokenType::Number {
            before.push(ValueView::Literal(src.subrange(last.start as int, last.start + last.length)))
        } else {
            before
        }
    }
}

/// A token that is no number adds no literal, and the end token is not
/// counted at all.
pub proof fn lemma_literals_push(src: Seq<char>, tokens: Seq<Token>, token: Token)
    requires
        token.token_type != TokenType::Number,
    ensures
        literals(src, tokens + unless_end(token)) == literals(src, tokens),
{
    if token.is_end() {
        assert(tokens + unless_end(token) =~= tokens);
    } else {
        assert(tokens + unless_end(token) =~= tokens.push(token));
        assert(tokens.push(token).drop_last() =~= tokens);
    }
}

/// At the end of the source no token is left.
pub proof fn lemma_no_tokens_at_end(src: Seq<char>, line: int)
    ensures
        next_token(src, src.len() as int, line).token.is_end(),
        tokens_from(src, src.len() as int, line) == Seq::<Token>::empty(),
{
}

/// Once the end token is current at the end of the source, it stays
/// current: moving on reads it again.
pub proof fn lemma_end_repeats(src: Seq<char>, pos: int, line: int, s: ParseState)
    requires
        s.pos == pos,
        s.line == line,
        pos == src.len(),
    ensures
        advance(src, s).current.is_end(),
{
    lemma_no_tokens_at_end(src, line);
}

/// Every byte that is emitted carries the line of the token consumed
/// last, and nothing that was emitted before changes.
pub proof fn lemma_emit_tags_with_line(s: ParseState, byte: u8)
    ensures
        emit(s, byte).code == s.code.push(byte),
        emit(s, byte).tags == s.tags.push(s.previous.line),
        emit(s, byte).pool == s.pool,
{
}

/// A literal is stored behind the constants that are there, and the code
/// loads it by that index: the first literal has index 0, the next 1.
pub proof fn lemma_literal_takes_next_index(src: Seq<char>, s: ParseState)
    requires
        s.pool.len() < MAX_CONSTANTS,
    ensures
        literal(src, s).pool.len() == s.pool.len() + 1,
        literal(src, s).pool.drop_last() == s.pool,
        literal(src, s).code == s.code.push(OpCode::OpConstant.byte()).push(s.pool.len() as u8),
{
    assert(literal(src, s).pool.drop_last() =~= s.pool);
}

/// A source that is one number and nothing else compiles to three
/// bytes, which load the only constant and return, and that constant is
/// the number as written; the load carries the line of the number and
/// the return that of the end. A machine that runs them pushes the constant
/// with its first step and with its second stops, handing out the
/// constant and leaving the stack empty; it hands out no operation, so
/// that this is the outcome of every run.
pub proof fn lemma_lone_number(src: Seq<char>)
    requires
        next_token(src, 0, 0).token.token_type == TokenType::Number,
        next_token(src, next_token(src, 0, 0).pos, next_token(src, 0, 0).line).token.is_end(),
    ensures
        ({
            let number = next_token(src, 0, 0).token;
            let end = next_token(src, next_token(src, 0, 0).pos, next_token(src, 0, 0).line).token;
            let text = ValueView::Literal(
                src.subrange(number.start as int, number.start + number.length),
            );
            let done = compilation(src);
            let ready = Machine {
                code: done.code,
                tags: done.tags,
                pool: done.pool,
                ip: 0,
                stack: Seq::empty(),
                status: Status::Ready,
            };
            let first = step(ready, None);
            let second = step(first.machine, None);
            &&& !done.had_error
            &&& done.code == seq![
                OpCode::OpConstant.byte(),
                0u8,
                OpCode::OpReturn.byte(),
            ]
            &&& done.pool == seq![text]
            &&& done.tags == seq![number.line, number.line, end.line]
            &&& first.action == ActionView::Continue
            &&& second.action == ActionView::Halt(InterpretResult::InterpretOk, Some(text))
            &&& second.machine.stack == Seq::<ValueView>::empty()
            &&& second.machine.status == Status::Halted(InterpretResult::InterpretOk)
            &&& quiet(ready) == Some(second)
        }),
{
    let one = next_token(src, 0, 0);
    let two = next_token(src, one.pos, one.line);
    lemma_next_token_moves(src, 0, 0);
    lemma_next_token_moves(src, one.pos, one.line);
    lemma_no_tokens_at_end(src, two.line);
    let s1 = advance(src, initial_state());
    assert(s1.current == one.token && s1.pos == one.pos && s1.line == one.line);
    let a = advance(src, s1);
    assert(a.previous == one.token && a.current == two.token && a.pos == two.pos);
    assert(nearer(src, a, s1));
    let l = literal(src, a);
    assert(nearer(src, l, s1));
    assert(operators(src, l, Precedence::Assignment) == l);
    let s2 = expression(src, s1, Precedence::Assignment);
    assert(s2 == l);
    let three = next_token(src, two.pos, two.line);
    assert(three.token.is_end());
    let done = compilation(src);
    assert(done.code =~= seq![OpCode::OpConstant.byte(), 0u8, OpCode::OpReturn.byte()]);
    assert(done.pool =~= seq![
        ValueView::Literal(
            src.subrange(one.token.start as int, one.token.start + one.token.length),
        ),
    ]);
    assert(done.tags =~= seq![one.token.line, one.token.line, two.token.line]);
    let ready = Machine {
        code: done.code,
        tags: done.tags,
        pool: done.pool,
        ip: 0,
        stack: Seq::empty(),
        status: Status::Ready,
    };
    let first = step(ready, None);
    assert(first.machine.stack =~= seq![done.pool[0]]);
    let second = step(first.machine, None);
    assert(second.machine.stack =~= Seq::<ValueView>::empty());
    assert(quiet(first.machine) == Some(second));
    assert(quiet(ready) == Some(second));
}

/// A source that is nothing but decimal digits compiles, and a machine
/// that runs the code hands out the digits as they are written, as the
/// only value, and leaves its stack empty.
pub proof fn lemma_digits_evaluate_to_themselves(src: Seq<char>)
    requires
        0 < src.len() <= i32::MAX,
        forall|i: int| 0 <= i < src.len() ==> is_digit(#[trigger] src[i]),
    ensures
        ({
            let done = compilation(src);
            let ready = Machine {
                code: done.code,
                tags: done.tags,
                pool: done.pool,
                ip: 0,
                stack: Seq::empty(),
                status: Status::Ready,
            };
            let last = step(step(ready, None).machine, None);
            &&& !done.had_error
            &&& done.pool == seq![ValueView::Literal(src)]
            &&& last.action == ActionView::Halt(
                InterpretResult::InterpretOk,
                Some(ValueView::Literal(src)),
            )
            &&& last.machine.stack == Seq::<ValueView>::empty()
            &&& quiet(ready) == Some(last)
        }),
{
    lemma_digits_to_the_end(src, 1);
    let one = next_token(src, 0, 0);
    assert(one.token == Token {
        token_type: TokenType::Number,
        start: 0,
        length: src.len() as i32,
        line: 0,
    });
    assert(one.pos == src.len());
    lemma_no_tokens_at_end(src, one.line);
    assert(src.subrange(0, src.len() as int) =~= src);
    lemma_lone_number(src);
}

/// Whether `line` is the line of one of `tokens` or of the token `end`.
pub open spec fn has_line(tokens: Seq<Token>, end: Token, line: i32) -> bool {
    line == end.line || exists|k: int| 0 <= k < tokens.len() && (#[trigger] tokens[k]).line == line
}

/// Whether each of `tags` is the line of a token of `tokens` or of `end`.
pub open spec fn lines_among(tags: Seq<i32>, tokens: Seq<Token>, end: Token) -> bool {
    forall|i: int| 0 <= i < tags.len() ==> has_line(tokens, end, #[trigger] tags[i])
}

/// Whether each of `tags` is the line of a token of the source, its end
/// token included.
pub open spec fn lines_of_source(src: Seq<char>, tags: Seq<i32>) -> bool {
    lines_among(tags, all_tokens(src), end_token(src, 0, 0))
}

/// What is a line of some tokens is a line of more tokens.
pub proof fn lemma_lines_stay(tags: Seq<i32>, tokens: Seq<Token>, more: Seq<Token>, end: Token)
    requires
        lines_among(tags, tokens, end),
    ensures
        lines_among(tags, tokens + more, end),
{
    assert forall|i: int| 0 <= i < tags.len() implies has_line(
        tokens + more,
        end,
        #[trigger] tags[i],
    ) by {
        assert(has_line(tokens, end, tags[i]));
        if tags[i] != end.line {
            let k = choose|k: int| 0 <= k < tokens.len() && (#[trigger] tokens[k]).line == tags[i];
            assert((tokens + more)[k] == tokens[k]);
        }
    }
}

/// No item is greater than a later one.
pub open spec fn non_decreasing(tags: Seq<i32>) -> bool {
    forall|i: int, j: int| 0 <= i <= j < tags.len() ==> tags[i] <= tags[j]
}


/// Whether the span of a token lies within a source of `len` characters.
pub open spec fn token_fits(token: Token, len: nat) -> bool {
    0 <= token.length && token.start + token.length <= len
}

struct Compiler<'a> {
    source: &'a str,
    scanner: Scanner<'a>,
    had_error: bool,
    panic: bool,
    previous: Token,
    current: Token,
    chunk: Chunk,
    errors: Vec<Diagnostic>,
    /// The tokens consumed so far, in order.
    seen: Ghost<Seq<Token>>,
}

impl<'a> Compiler<'a> {
    spec fn src(&self) -> Seq<char> {
        self.source@
    }

    spec fn state(&self) -> ParseState {
        ParseState {
            pos: self.scanner.pos(),
            line: self.scanner.line_no(),
            previous: self.previous,
            current: self.current,
            had_error: self.had_error,
            panic_mode: self.panic,
            reports: self.errors@,
            code: self.chunk.code(),
            tags: self.chunk.line_tags(),
            pool: self.chunk.pool(),
        }
    }

    spec fn left(&self) -> int {
        remaining(self.source@, self.state())
    }

    /// What holds from the start on.
    spec fn ready(&self) -> bool {
        &&& self.scanner.wf()
        &&& self.scanner.src() == self.source@
        &&& self.source@.len() <= i32::MAX
        &&& 0 <= self.scanner.pos() <= self.source@.len()
        &&& self.chunk.wf()
        &&& token_fits(self.previous, self.source@.len())
        &&& token_fits(self.current, self.source@.len())
        &&& self.previous.line <= self.current.line <= self.scanner.line_no()
        &&& non_decreasing(self.chunk.line_tags())
        &&& self.chunk.line_tags().len() > 0 ==> self.chunk.line_tags().last()
            <= self.previous.line
        &&& self.chunk.pool().len() <= MAX_CONSTANTS
        &&& self.had_error == (self.errors@.len() > 0)
        &&& self.panic == self.had_error
        &&& !self.had_error ==> all_tokens(self.source@) == self.seen@ + unless_end(self.current)
            + tokens_from(self.source@, self.scanner.pos(), self.scanner.line_no())
        &&& !self.had_error ==> self.end() == end_token(
            self.source@,
            self.scanner.pos(),
            self.scanner.line_no(),
        )
        &&& !self.had_error ==> lines_among(self.chunk.line_tags(), self.seen@, self.end())
    }

    /// The end token of the source.
    spec fn end(&self) -> Token {
        end_token(self.source@, 0, 0)
    }

    /// What holds once the first token is read.
    spec fn wf(&self) -> bool {
        &&& self.ready()
        &&& self.current.is_end() ==> self.scanner.pos() == self.source@.len()
        &&& !self.had_error && self.current.is_end() ==> self.current == self.end()
    }

    /// The token consumed last is one of the source.
    spec fn placed(&self) -> bool {
        !self.had_error ==> has_line(self.seen@, self.end(), self.previous.line)
    }

    /// Every number consumed is in the pool, and nothing else; and the
    /// code is sound.
    spec fn settled(&self) -> bool {
        &&& !self.had_error ==> self.chunk.pool() == literals(self.source@, self.seen@)
        &&& self.sound()
    }

    /// The code is whole instructions that load constants of the pool,
    /// and a machine that runs it finds the operands that it needs.
    spec fn sound(&self) -> bool {
        &&& well_encoded(self.chunk.code(), self.chunk.pool().len(), 0)
        &&& loads(self.chunk.code(), 0) =~= indices(self.chunk.pool().len())
        &&& !self.had_error ==> self.depth() is Some && self.depth().unwrap() >= 0
    }

    /// How many values the code so far leaves on the stack of a machine.
    spec fn depth(&self) -> Option<int> {
        depth_after(self.chunk.code(), 0, 0)
    }

    /// Without an error, the code has come to leave one value more.
    spec fn one_more(&self, before: Self) -> bool {
        &&& before.had_error ==> self.had_error
        &&& !self.had_error ==> self.depth() == Some(before.depth().unwrap() + 1)
    }

    fn new(source: &'a str) -> (compiler: Compiler<'a>)
        requires
            source@.len() <= i32::MAX,
        ensures
            compiler.ready(),
            compiler.settled(),
            compiler.source == source,
            compiler.state() == initial_state(),
    {
        let scanner = Scanner::new(source);
        let compiler = Compiler {
            source,
            scanner,
            chunk: Chunk::new(),
            panic: false,
            had_error: false,
            previous: Token { token_type: TokenType::EOF, start: 0, length: 0, line: 0 },
            current: Token { token_type: TokenType::EOF, start: 0, length: 0, line: 0 },
            errors: Vec::new(),
            seen: Ghost(Seq::empty()),
        };
        assert(compiler.seen@ + unless_end(compiler.current) + tokens_from(source@, 0, 0)
            =~= all_tokens(source@));
        compiler
    }

    /// Compiles the whole source; the answer is whether no error was reported.
    fn compile(&mut self) -> (ok: bool)
        requires
            old(self).ready(),
            old(self).settled(),
            old(self).state() == initial_state(),
        ensures
            final(self).wf(),
            final(self).source == old(self).source,
            final(self).state() == compilation(old(self).src()),
            ok == !final(self).had_error,
            ok ==> final(self).chunk.pool() == literals(
                old(self).src(),
                all_tokens(old(self).src()),
            ),
            well_encoded(final(self).chunk.code(), final(self).chunk.pool().len(), 0),
            loads(final(self).chunk.code(), 0) == indices(final(self).chunk.pool().len()),
            ok ==> lines_of_source(old(self).src(), final(self).chunk.line_tags()),
            ok ==> runs_safely(final(self).chunk.code(), final(self).chunk.pool().len(), 0, 0),
    {
        self.advance();
        self.expression();
        self.consume(TokenType::EOF);
        proof {
            if !self.had_error {
                lemma_no_tokens_at_end(self.source@, self.scanner.line_no());
                assert(self.seen@ + unless_end(self.current) + Seq::<Token>::empty()
                    =~= self.seen@);
            }
            lemma_append_operation(
                self.chunk.code(),
                self.chunk.pool().len(),
                0,
                OpCode::OpReturn,
            );
            lemma_loads_with_operation(
                self.chunk.code(),
                self.chunk.pool().len(),
                0,
                OpCode::OpReturn,
            );
            if !self.had_error {
                lemma_return_makes_safe(self.chunk.code(), self.chunk.pool().len(), 0, 0);
            }
        }
        self.end_compiler();
        !self.had_error
    }

    fn emit_byte(&mut self, byte: u8)
        requires
            old(self).wf(),
            old(self).placed(),
        ensures
            final(self).wf(),
            final(self).placed(),
            final(self).source == old(self).source,
            final(self).had_error == old(self).had_error,
            final(self).seen == old(self).seen,
            final(self).state() == emit(old(self).state(), byte),
    {
        let line = self.previous.line;
        self.chunk.add_instruction(&byte, line);
    }

    fn compiling_chunk(&self) -> (chunk: &Chunk)
        ensures
            *chunk == self.chunk,
    {
        &self.chunk
    }

    fn end_compiler(&mut self)
        requires
            old(self).wf(),
            old(self).placed(),
        ensures
            final(self).wf(),
            final(self).placed(),
            final(self).source == old(self).source,
            final(self).had_error == old(self).had_error,
            final(self).seen == old(self).seen,
            final(self).state() == emit(old(self).state(), OpCode::OpReturn.byte()),
    {
        self.emit_return();
    }

    fn emit_return(&mut self)
        requires
            old(self).wf(),
            old(self).placed(),
        ensures
            final(self).wf(),
            final(self).placed(),
            final(self).source == old(self).source,
            final(self).had_error == old(self).had_error,
            final(self).seen == old(self).seen,
            final(self).state() == emit(old(self).state(), OpCode::OpReturn.byte()),
    {
        self.emit_byte(OpCode::OpReturn.to_u8());
    }

    fn emit_bytes(&mut self, byte1: u8, byte2: u8)
        requires
            old(self).wf(),
            old(self).placed(),
        ensures
            final(self).wf(),
            final(self).placed(),
            final(self).source == old(self).source,
            final(self).had_error == old(self).had_error,
            final(self).seen == old(self).seen,
            final(self).state() == emit(emit(old(self).state(), byte1), byte2),
    {
        self.emit_byte(byte1);
        self.emit_byte(byte2);
    }

    fn expression(&mut self)
        requires
            old(self).wf(),
            old(self).settled(),
        ensures
            final(self).wf(),
            final(self).placed(),
            final(self).settled(),
            final(self).source == old(self).source,
            final(self).state() == expression(
                old(self).src(),
                old(self).state(),
                Precedence::Assignment,
            ),
            final(self).one_more(*old(self)),
            0 <= final(self).left() <= old(self).left(),
        decreases old(self).left(), 1int,
    {
        self.parse_precedence(Precedence::Assignment);
    }

    fn parse_precedence(&mut self, precedence: Precedence)
        requires
            old(self).wf(),
            old(self).settled(),
        ensures
            final(self).wf(),
            final(self).placed(),
            final(self).settled(),
            final(self).source == old(self).source,
            final(self).state() == expression(old(self).src(), old(self).state(), precedence),
            final(self).one_more(*old(self)),
            0 <= final(self).left() <= old(self).left(),
        decreases old(self).left(), 0int,
    {
        let ghost src = self.src();
        let ghost s0 = self.state();
        let ghost seen0 = self.seen@;
        self.advance();
        let kind = self.previous.token_type;
        proof {
            if kind == TokenType::Number {
                assert(self.seen@ =~= seen0.push(self.previous));
                assert(self.seen@.drop_last() =~= seen0);
            } else {
                lemma_literals_push(src, seen0, self.previous);
            }
        }
        match kind {
            TokenType::LeftParen => self.grouping(),
            TokenType::Minus => self.unary(),
            TokenType::Number => self.number(),
            _ => {
                self.error(Message::ExpectExpression);
                return ;
            },
        }
        let ghost s2 = self.state();
        loop
            invariant
                self.wf(),
                self.settled(),
                self.source == old(self).source,
                src == self.source@,
                s0 == old(self).state(),
                old(self).left() == remaining(src, s0),
                nearer(src, self.state(), s0),
                operators(src, self.state(), precedence) == operators(src, s2, precedence),
                self.one_more(*old(self)),
                old(self).settled(),
                self.placed(),
            ensures
                self.wf(),
                self.placed(),
                self.settled(),
                self.source == old(self).source,
                nearer(src, self.state(), s0),
                self.state() == operators(src, s2, precedence),
                self.one_more(*old(self)),
            decreases self.left(),
        {
            let own = infix_precedence(self.current.token_type);
            if own == Precedence::Lowest || precedence.level() > own.level() {
                break ;
            }
            proof {
                lemma_literals_push(src, self.seen@, self.current);
            }
            self.advance();
            self.binary();
        }
    }

    /// Compiles the right operand of the operator in `previous`, then the
    /// operation.
    fn binary(&mut self)
        requires
            old(self).wf(),
            old(self).settled(),
            !old(self).had_error ==> old(self).depth().unwrap() >= 1,
        ensures
            final(self).wf(),
            final(self).placed(),
            final(self).settled(),
            final(self).source == old(self).source,
            final(self).state() == emit(
                expression(
                    old(self).src(),
                    old(self).state(),
                    infix_level(old(self).previous.token_type).tighter(),
                ),
                binary_op(old(self).previous.token_type).byte(),
            ),
            old(self).had_error ==> final(self).had_error,
            !final(self).had_error ==> final(self).depth() == old(self).depth(),
            0 <= final(self).left() <= old(self).left(),
        decreases old(self).left(), 2int,
    {
        let kind = self.previous.token_type;
        let own = infix_precedence(kind);
        self.parse_precedence(own.next());
        let op = match kind {
            TokenType::Minus => OpCode::OpSubstract,
            TokenType::Plus => OpCode::OpAdd,
            TokenType::Slash => OpCode::OpDivide,
            _ => OpCode::OpMultiply,
        };
        proof {
            lemma_append_operation(self.chunk.code(), self.chunk.pool().len(), 0, op);
            lemma_loads_with_operation(self.chunk.code(), self.chunk.pool().len(), 0, op);
            if !self.had_error {
                lemma_depth_with_operation(self.chunk.code(), 0, 0, op);
            }
        }
        self.emit_byte(op.to_u8());
    }

    /// Compiles the number literal in `previous`.
    fn number(&mut self)
        requires
            old(self).wf(),
            old(self).placed(),
            old(self).previous.token_type == TokenType::Number,
            old(self).seen@.len() > 0,
            old(self).seen@.last() == old(self).previous,
            !old(self).had_error ==> old(self).chunk.pool() == literals(
                old(self).src(),
                old(self).seen@.drop_last(),
            ),
            old(self).sound(),
        ensures
            final(self).wf(),
            final(self).placed(),
            final(self).settled(),
            final(self).source == old(self).source,
            final(self).state() == literal(old(self).src(), old(self).state()),
            final(self).one_more(*old(self)),
            final(self).left() == old(self).left(),
    {
        let start = self.previous.start;
        let len = self.previous.length as usize;
        let mut text: Vec<char> = Vec::new();
        let mut i: usize = 0;
        while i < len
            invariant
                i <= len,
                start + len <= self.source@.len() <= i32::MAX,
                text@ == self.source@.subrange(start as int, start + i),
            decreases len - i,
        {
            text.push(self.source.get_char(start + i));
            i += 1;
            assert(self.source@.subrange(start as int, start + i) == self.source@.subrange(
                start as int,
                start + i - 1,
            ).push(self.source@[start + i - 1]));
        }
        let value = Value::Literal(text);
        match self.make_constant(&value) {
            Some(index) => {
                proof {
                    let code = old(self).chunk.code();
                    lemma_pool_may_grow(
                        code,
                        old(self).chunk.pool().len(),
                        self.chunk.pool().len(),
                        0,
                    );
                    lemma_append_load(code, self.chunk.pool().len(), 0, index);
                    lemma_loads_with_load(code, old(self).chunk.pool().len(), 0, index);
                    assert(indices(old(self).chunk.pool().len()).push(index) =~= indices(
                        self.chunk.pool().len(),
                    ));
                    if !self.had_error {
                        lemma_depth_with_load(code, 0, 0, index);
                    }
                }
                self.emit_bytes(OpCode::OpConstant.to_u8(), index)
            },
            None => {},
        }
    }

    /// Appends a constant to the pool and gives its index there.
    fn emit_constant(&mut self, value: &Value) -> (index: usize)
        requires
            old(self).wf(),
            old(self).chunk.pool().len() < MAX_CONSTANTS,
        ensures
            final(self).wf(),
            final(self).previous == old(self).previous,
            final(self).source == old(self).source,
            final(self).had_error == old(self).had_error,
            final(self).seen == old(self).seen,
            index == old(self).chunk.pool().len(),
            final(self).state() == (ParseState {
                pool: old(self).state().pool.push(value@),
                ..old(self).state()
            }),
    {
        self.chunk.add_constant(value)
    }

    /// Appends a constant unless the pool is full, which is an error; the
    /// index of the constant is the number of constants before it.
    fn make_constant(&mut self, value: &Value) -> (index: Option<u8>)
        requires
            old(self).wf(),
        ensures
            final(self).wf(),
            final(self).previous == old(self).previous,
            final(self).source == old(self).source,
            index is Some ==> final(self).had_error == old(self).had_error,
            index is None ==> final(self).had_error,
            final(self).seen == old(self).seen,
            old(self).chunk.pool().len() >= MAX_CONSTANTS ==> index.is_none()
                && final(self).state() == report(
                old(self).state(),
                old(self).previous,
                Message::TooManyConstants,
            ),
            old(self).chunk.pool().len() < MAX_CONSTANTS ==> index == Some(
                old(self).chunk.pool().len() as u8,
            ) && final(self).state() == (ParseState {
                pool: old(self).state().pool.push(value@),
                ..old(self).state()
            }),
    {
        if self.compiling_chunk().constant_count() >= MAX_CONSTANTS {
            self.error(Message::TooManyConstants);
            return None;
        }
        let constant = self.emit_constant(value);
        Some(constant as u8)
    }

    fn advance(&mut self)
        requires
            old(self).ready(),
        ensures
            final(self).wf(),
            old(self).wf() ==> final(self).placed(),
            final(self).source == old(self).source,
            final(self).state() == advance(old(self).src(), old(self).state()),
            final(self).previous == old(self).current,
            final(self).seen@ == old(self).seen@ + unless_end(old(self).current),
            final(self).chunk == old(self).chunk,
            old(self).had_error ==> final(self).had_error,
            !final(self).current.is_error(),
            0 <= final(self).left() <= old(self).left(),
            !old(self).current.is_end() ==> final(self).left() < old(self).left(),
    {
        self.previous = self.current;
        proof {
            if !self.had_error {
                lemma_lines_stay(
                    self.chunk.line_tags(),
                    self.seen@,
                    unless_end(self.current),
                    self.end(),
                );
            }
            self.seen@ = self.seen@ + unless_end(self.current);
            if old(self).wf() && !self.had_error && !self.current.is_end() {
                assert(self.seen@[self.seen@.len() - 1] == self.previous);
            }
        }
        let ghost src = self.src();
        let ghost goal = fetch(src, self.state());
        loop
            invariant_except_break
                fetch(src, self.state()) == goal,
                !self.had_error ==> all_tokens(src) == self.seen@ + tokens_from(
                    src,
                    self.scanner.pos(),
                    self.scanner.line_no(),
                ),
            invariant
                self.scanner.wf(),
                self.scanner.src() == self.source@,
                self.source@.len() <= i32::MAX,
                0 <= self.scanner.pos() <= self.source@.len(),
                self.chunk.wf(),
                self.chunk == old(self).chunk,
                token_fits(self.previous, self.source@.len()),
                self.previous.line <= self.scanner.line_no(),
                non_decreasing(self.chunk.line_tags()),
                self.chunk.line_tags().len() > 0 ==> self.chunk.line_tags().last()
                    <= self.previous.line,
                self.chunk.pool().len() <= MAX_CONSTANTS,
                self.had_error == (self.errors@.len() > 0),
                self.panic == self.had_error,
                old(self).had_error ==> self.had_error,
                self.seen@ == old(self).seen@ + unless_end(old(self).current),
                self.source == old(self).source,
                src == self.source@,
                self.previous == old(self).current,
                old(self).scanner.pos() <= self.scanner.pos(),
                !self.had_error ==> self.end() == end_token(
                    src,
                    self.scanner.pos(),
                    self.scanner.line_no(),
                ),
                !self.had_error ==> lines_among(self.chunk.line_tags(), self.seen@, self.end()),
                old(self).wf() ==> self.placed(),
            ensures
                self.wf(),
                old(self).wf() ==> self.placed(),
                self.state() == goal,
                !self.current.is_error(),
                !self.current.is_end() ==> old(self).scanner.pos() < self.scanner.pos(),
            decreases self.source@.len() - self.scanner.pos(),
        {
            let ghost from = self.scanner.pos();
            let ghost line = self.scanner.line_no();
            self.current = self.scanner.scan_token();
            proof {
                if self.current.is_end() {
                    lemma_end_token_repeats(src, from, line);
                }
            }
            match self.current.token_type {
                TokenType::Error(e) => {
                    self.error_at_current(Message::Scan(e));
                },
                _ => {
                    proof {
                        if !self.had_error {
                            let rest = tokens_from(
                                src,
                                self.scanner.pos(),
                                self.scanner.line_no(),
                            );
                            if self.current.is_end() {
                                lemma_no_tokens_at_end(src, self.scanner.line_no());
                                assert(self.seen@ + unless_end(self.current) + rest =~= self.seen@);
                            } else {
                                assert(self.seen@ + unless_end(self.current) + rest =~= self.seen@
                                    + (seq![self.current] + rest));
                            }
                        }
                    }
                    break ;
                },
            }
        }
    }

    /// Compiles what follows an opening parenthesis: an expression and
    /// the closing parenthesis.
    fn grouping(&mut self)
        requires
            old(self).wf(),
            old(self).settled(),
        ensures
            final(self).wf(),
            final(self).placed(),
            final(self).settled(),
            final(self).source == old(self).source,
            final(self).state() == consume(
                old(self).src(),
                expression(old(self).src(), old(self).state(), Precedence::Assignment),
                TokenType::RightParen,
                Message::ExpectedClosingParen,
            ),
            final(self).one_more(*old(self)),
            0 <= final(self).left() <= old(self).left(),
        decreases old(self).left(), 2int,
    {
        self.expression();
        self.consume_msg(TokenType::RightParen, Message::ExpectedClosingParen);
    }

    /// Compiles what follows a minus sign in front: its operand, then
    /// the negation.
    fn unary(&mut self)
        requires
            old(self).wf(),
            old(self).settled(),
        ensures
            final(self).wf(),
            final(self).placed(),
            final(self).settled(),
            final(self).source == old(self).source,
            final(self).state() == emit(
                expression(old(self).src(), old(self).state(), Precedence::Unary),
                OpCode::OpNegate.byte(),
            ),
            final(self).one_more(*old(self)),
            0 <= final(self).left() <= old(self).left(),
        decreases old(self).left(), 2int,
    {
        self.parse_precedence(Precedence::Unary);
        proof {
            lemma_append_operation(
                self.chunk.code(),
                self.chunk.pool().len(),
                0,
                OpCode::OpNegate,
            );
            lemma_loads_with_operation(
                self.chunk.code(),
                self.chunk.pool().len(),
                0,
                OpCode::OpNegate,
            );
            if !self.had_error {
                lemma_depth_with_operation(self.chunk.code(), 0, 0, OpCode::OpNegate);
            }
        }
        self.emit_byte(OpCode::OpNegate.to_u8());
    }

    fn error_at_current(&mut self, message: Message)
        requires
            old(self).panic == old(self).had_error,
            old(self).had_error == (old(self).errors@.len() > 0),
        ensures
            final(self).source == old(self).source,
            final(self).scanner == old(self).scanner,
            final(self).chunk == old(self).chunk,
            final(self).seen == old(self).seen,
            final(self).previous == old(self).previous,
            final(self).current == old(self).current,
            final(self).had_error,
            final(self).panic,
            final(self).errors@.len() > 0,
            final(self).state() == report(old(self).state(), old(self).current, message),
    {
        self.error_at(self.current, message);
    }

    fn error(&mut self, message: Message)
        requires
            old(self).wf(),
        ensures
            final(self).wf(),
            final(self).had_error,
            final(self).chunk == old(self).chunk,
            final(self).source == old(self).source,
            final(self).seen == old(self).seen,
            final(self).state() == report(old(self).state(), old(self).previous, message),
    {
        self.error_at(self.previous, message);
    }

    fn consume(&mut self, tt: TokenType)
        requires
            old(self).wf(),
            old(self).settled(),
        ensures
            final(self).wf(),
            final(self).placed(),
            final(self).sound(),
            tt != TokenType::Number ==> final(self).settled(),
            final(self).source == old(self).source,
            final(self).state() == consume(
                old(self).src(),
                old(self).state(),
                tt,
                Message::Expected(tt, old(self).current.token_type),
            ),
            final(self).chunk == old(self).chunk,
            old(self).current.token_type == tt ==> final(self).previous == old(self).current,
            old(self).had_error ==> final(self).had_error,
            0 <= final(self).left() <= old(self).left(),
            !final(self).had_error && tt == TokenType::EOF ==> final(self).current.is_end(),
    {
        let default = Message::Expected(tt, self.current.token_type);
        self.consume_msg(tt, default);
    }

    fn consume_msg(&mut self, tt: TokenType, message: Message)
        requires
            old(self).wf(),
            old(self).settled(),
        ensures
            final(self).wf(),
            final(self).placed(),
            final(self).sound(),
            tt != TokenType::Number ==> final(self).settled(),
            final(self).source == old(self).source,
            final(self).state() == consume(old(self).src(), old(self).state(), tt, message),
            final(self).chunk == old(self).chunk,
            old(self).current.token_type == tt ==> final(self).previous == old(self).current,
            old(self).had_error ==> final(self).had_error,
            0 <= final(self).left() <= old(self).left(),
            !final(self).had_error && tt == TokenType::EOF ==> final(self).current.is_end(),
    {
        if self.current.token_type == tt {
            proof {
                if tt != TokenType::Number {
                    lemma_literals_push(self.source@, self.seen@, self.current);
                }
                if self.current.is_end() {
                    lemma_end_repeats(
                        self.source@,
                        self.scanner.pos(),
                        self.scanner.line_no(),
                        self.state(),
                    );
                }
            }
            self.advance()
        } else {
            self.error_at_current(message);
        }
    }

    fn error_at(&mut self, token: Token, message: Message)
        requires
            old(self).panic == old(self).had_error,
            old(self).had_error == (old(self).errors@.len() > 0),
        ensures
            final(self).source == old(self).source,
            final(self).scanner == old(self).scanner,
            final(self).chunk == old(self).chunk,
            final(self).seen == old(self).seen,
            final(self).previous == old(self).previous,
            final(self).current == old(self).current,
            final(self).had_error,
            final(self).panic,
            final(self).errors@.len() > 0,
            final(self).state() == report(old(self).state(), token, message),
    {
        if self.panic {
            return ;
        }
        self.had_error = true;
        self.panic = true;
        let location = match token.token_type {
            TokenType::Error(_) => Location::Unplaced,
            TokenType::EOF => Location::AtEnd,
            _ => Location::At(token.start, token.length),
        };
        self.errors.push(Diagnostic { line: token.line, location, message });
    }
}

/// The level at which a token binds as an operator between two operands.
fn infix_precedence(kind: TokenType) -> (level: Precedence)
    ensures
        level == infix_level(kind),
{
    match kind {
        TokenType::Minus | TokenType::Plus => Precedence::Term,
        TokenType::Slash | TokenType::Star => Precedence::Factor,
        _ => Precedence::Lowest,
    }
}

/// Compiles a source text of one expression into a chunk.
///
/// The result is that of [`compilation`]: the chunk that it builds where
/// it reports no error, and its reports otherwise. A chunk that is
/// handed out has its line tags in non-decreasing order, each of them
/// the line of a token of the source; its constants
/// are the number literals of the source, in the order in which they are
/// written, at most [`MAX_CONSTANTS`] of them, and the loads in its code
/// take them by the indices 0, 1 and so on, in that order; its code is whole
/// instructions that load constants of the pool only, so that it can be
/// listed without a fault, and run without one, to a return that finds
/// exactly one value on the stack.
pub fn compile(source: &str) -> (result: Result<Chunk, CompileError>)
    requires
        source@.len() <= i32::MAX,
    ensures
        result is Ok <==> !compilation(source@).had_error,
        result is Ok ==> {
            let chunk = result->Ok_0;
            &&& chunk.wf()
            &&& chunk.code() == compilation(source@).code
            &&& chunk.line_tags() == compilation(source@).tags
            &&& chunk.pool() == compilation(source@).pool
            &&& non_decreasing(chunk.line_tags())
            &&& lines_of_source(source@, chunk.line_tags())
            &&& chunk.pool().len() <= MAX_CONSTANTS
            &&& chunk.pool() == literals(source@, all_tokens(source@))
            &&& well_encoded(chunk.code(), chunk.pool().len(), 0)
            &&& loads(chunk.code(), 0) == indices(chunk.pool().len())
            &&& listing_from(chunk, 0) is Ok
            &&& runs_safely(chunk.code(), chunk.pool().len(), 0, 0)
        },
        result is Err ==> result->Err_0.diagnostics@ == compilation(source@).reports
            && result->Err_0.diagnostics@.len() > 0,
{
    let mut compiler = Compiler::new(source);
    if compiler.compile() {
        proof {
            lemma_well_encoded_lists(compiler.chunk, 0);
        }
        Ok(compiler.chunk)
    } else {
        Err(CompileError { diagnostics: compiler.errors })
    }
}

/// Compiles a source text and makes the machine that is ready to run
/// it. The machine will meet no fault: see [`crate::vm::lemma_safe_code_runs`].
pub fn interpret(source: &str) -> (result: Result<VM, CompileError>)
    requires
        source@.len() <= i32::MAX,
    ensures
        result is Ok <==> !compilation(source@).had_error,
        result is Ok ==> result->Ok_0.wf() && result->Ok_0@ == (Machine {
            code: compilation(source@).code,
            tags: compilation(source@).tags,
            pool: compilation(source@).pool,
            ip: 0,
            stack: Seq::empty(),
            status: Status::Ready,
        }) && runs_safely(result->Ok_0@.code, result->Ok_0@.pool.len(), 0, 0),
        result is Err ==> result->Err_0.diagnostics@ == compilation(source@).reports
            && result->Err_0.diagnostics@.len() > 0,
{
    match compile(source) {
        Ok(chunk) => Ok(VM::new(chunk)),
        Err(e) => Err(e),
    }
}

} // verus!
