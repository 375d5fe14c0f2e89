use vstd::prelude::*;
use vstd::string::{StrSliceExecFns, StringExecFns};
use crate::text::{decimal, padded, push_decimal, push_padded, push_signed, signed};

verus! {

/// Why the scanner could not make a token.
#[derive(Clone, Copy, Debug, PartialEq, Eq, Structural)]
pub enum ScanError {
    UnexpectedCharacter,
    UnterminatedString,
}

impl ScanError {
    pub open spec fn text(self) -> Seq<char> {
        match self {
            ScanError::UnexpectedCharacter => "Unexpected character."@,
            ScanError::UnterminatedString => "Unterminated string."@,
        }
    }

    /// The message that is reported for the error.
    pub fn message(self) -> (s: &'static str)
        ensures
            s@ == self.text(),
    {
        match self {
            ScanError::UnexpectedCharacter => "Unexpected character.",
            ScanError::UnterminatedString => "Unterminated string.",
        }
    }
}

#[derive(Clone, Copy, Debug, PartialEq, Eq, Structural)]
#[allow(dead_code)]
pub enum TokenType {
    // Single-character tokens.
    LeftParen,
    RightParen,
    LeftBrace,
    RightBrace,
    Comma,
    Dot,
    Minus,
    Plus,
    Semicolon,
    Slash,
    Star,
    // One or two character tokens.
    Bang,
    BangEqual,
    Equal,
    EqualEqual,
    Greater,
    GreaterEqual,
    Less,
    LessEqual,
    // Literals.
    Identifier,
    String,
    Number,
    // Keywords.
    And,
    Class,
    Else,
    False,
    For,
    Fun,
    If,
    Nil,
    Or,
    Print,
    Return,
    Super,
    This,
    True,
    Var,
    While,
    // Not really code.
    Error(ScanError),
    EOF,
}


impl TokenType {
    /// The name of the kind, as messages show it.
    pub open spec fn label(self) -> Seq<char> {
        match self {
            TokenType::LeftParen => "LeftParen"@,
            TokenType::RightParen => "RightParen"@,
            TokenType::LeftBrace => "LeftBrace"@,
            TokenType::RightBrace => "RightBrace"@,
            TokenType::Comma => "Comma"@,
            TokenType::Dot => "Dot"@,
            TokenType::Minus => "Minus"@,
            TokenType::Plus => "Plus"@,
            TokenType::Semicolon => "Semicolon"@,
            TokenType::Slash => "Slash"@,
            TokenType::Star => "Star"@,
            TokenType::Bang => "Bang"@,
            TokenType::BangEqual => "BangEqual"@,
            TokenType::Equal => "Equal"@,
            TokenType::EqualEqual => "EqualEqual"@,
            TokenType::Greater => "Greater"@,
            TokenType::GreaterEqual => "GreaterEqual"@,
            TokenType::Less => "Less"@,
            TokenType::LessEqual => "LessEqual"@,
            TokenType::Identifier => "Identifier"@,
            TokenType::String => "String"@,
            TokenType::Number => "Number"@,
            TokenType::And => "And"@,
            TokenType::Class => "Class"@,
            TokenType::Else => "Else"@,
            TokenType::False => "False"@,
            TokenType::For => "For"@,
            TokenType::Fun => "Fun"@,
            TokenType::If => "If"@,
            TokenType::Nil => "Nil"@,
            TokenType::Or => "Or"@,
            TokenType::Print => "Print"@,
            TokenType::Return => "Return"@,
            TokenType::Super => "Super"@,
            TokenType::This => "This"@,
            TokenType::True => "True"@,
            TokenType::Var => "Var"@,
            TokenType::While => "While"@,
            TokenType::Error(_) => "Error"@,
            TokenType::EOF => "EOF"@,
        }
    }

    pub fn name(self) -> (s: &'static str)
        ensures
            s@ == self.label(),
    {
        match self {
            TokenType::LeftParen => "LeftParen",
            TokenType::RightParen => "RightParen",
            TokenType::LeftBrace => "LeftBrace",
            TokenType::RightBrace => "RightBrace",
            TokenType::Comma => "Comma",
            TokenType::Dot => "Dot",
            TokenType::Minus => "Minus",
            TokenType::Plus => "Plus",
            TokenType::Semicolon => "Semicolon",
            TokenType::Slash => "Slash",
            TokenType::Star => "Star",
            TokenType::Bang => "Bang",
            TokenType::BangEqual => "BangEqual",
            TokenType::Equal => "Equal",
            TokenType::EqualEqual => "EqualEqual",
            TokenType::Greater => "Greater",
            TokenType::GreaterEqual => "GreaterEqual",
            TokenType::Less => "Less",
            TokenType::LessEqual => "LessEqual",
            TokenType::Identifier => "Identifier",
            TokenType::String => "String",
            TokenType::Number => "Number",
            TokenType::And => "And",
            TokenType::Class => "Class",
            TokenType::Else => "Else",
            TokenType::False => "False",
            TokenType::For => "For",
            TokenType::Fun => "Fun",
            TokenType::If => "If",
            TokenType::Nil => "Nil",
            TokenType::Or => "Or",
            TokenType::Print => "Print",
            TokenType::Return => "Return",
            TokenType::Super => "Super",
            TokenType::This => "This",
            TokenType::True => "True",
            TokenType::Var => "Var",
            TokenType::While => "While",
            TokenType::Error(_) => "Error",
            TokenType::EOF => "EOF",
        }
    }
}

/// A token: its kind, where its text starts in the source (counted in
/// characters), how many characters it spans, and the line it ends on.
#[derive(Clone, Copy, Debug, PartialEq, Eq, Structural)]
pub struct Token {
    pub token_type: TokenType,
    pub start: usize,
    pub length: i32,
    pub line: i32,
}

impl Token {
    /// Whether the token marks the end of the input.
    pub open spec fn is_end(self) -> bool {
        self.token_type == TokenType::EOF
    }

    /// Whether the token reports a scanning error.
    pub open spec fn is_error(self) -> bool {
        self.token_type is Error
    }
}

/// Whether `char::is_alphabetic` holds of a character.
pub uninterp spec fn alphabetic(c: char) -> bool;

/// Whether `char::is_alphanumeric` holds of a character.
pub uninterp spec fn alphanumeric(c: char) -> bool;

/// Calls std's `char::is_alphabetic`, which looks the character up in the
/// Unicode tables; the contract only gives that answer a name.
#[verifier::external_body]
fn is_alphabetic(c: char) -> (r: bool)
    ensures
        r == alphabetic(c),
{
    c.is_alphabetic()
}

/// Calls std's `char::is_alphanumeric`, which looks the character up in the
/// Unicode tables; the contract only gives that answer a name.
#[verifier::external_body]
fn is_alphanumeric(c: char) -> (r: bool)
    ensures
        r == alphanumeric(c),
{
    c.is_alphanumeric()
}

/// A decimal digit.
pub open spec fn is_digit(c: char) -> bool {
    '0' <= c && c <= '9'
}

/// A position of the scanner: an offset into the source and the line there.
pub struct Place {
    pub pos: int,
    pub line: int,
}

/// Where the next token starts: the place after blanks, line ends (each of
/// which adds one to the line) and comments, which run from `//` up to the
/// end of the line. `in_comment` says whether `pos` lies inside a comment.
pub open spec fn skip_blank(src: Seq<char>, pos: int, line: int, in_comment: bool) -> Place
    decreases src.len() - pos, (if in_comment { 1int } else { 0int }),
{
    if pos < 0 || pos >= src.len() {
        Place { pos, line }
    } else if in_comment {
        if src[pos] == '\n' {
            skip_blank(src, pos, line, false)
        } else {
            skip_blank(src, pos + 1, line, true)
        }
    } else if src[pos] == ' ' || src[pos] == '\r' || src[pos] == '\t' {
        skip_blank(src, pos + 1, line, false)
    } else if src[pos] == '\n' {
        skip_blank(src, pos + 1, line + 1, false)
    } else if src[pos] == '/' && pos + 1 < src.len() && src[pos + 1] == '/' {
        skip_blank(src, pos + 2, line, true)
    } else {
        Place { pos, line }
    }
}

/// The end of the longest run of decimal digits that starts at `pos`.
pub open spec fn digits_end(src: Seq<char>, pos: int) -> int
    decreases src.len() - pos,
{
    if 0 <= pos < src.len() && is_digit(src[pos]) {
        digits_end(src, pos + 1)
    } else {
        pos
    }
}

/// The end of the longest run of alphanumeric characters that starts at `pos`.
pub open spec fn word_end(src: Seq<char>, pos: int) -> int
    decreases src.len() - pos,
{
    if 0 <= pos < src.len() && alphanumeric(src[pos]) {
        word_end(src, pos + 1)
    } else {
        pos
    }
}

/// How a string literal whose opening quote lies before `pos` ends.
pub struct StringEnd {
    pub pos: int,
    pub line: int,
    pub closed: bool,
}

/// Reads on from `pos` to the closing quote, which is consumed, or to the
/// end of the source; each line end on the way adds one to the line.
pub open spec fn string_end(src: Seq<char>, pos: int, line: int) -> StringEnd
    decreases src.len() - pos,
{
    if pos < 0 || pos >= src.len() {
        StringEnd { pos, line, closed: false }
    } else if src[pos] == '"' {
        StringEnd { pos: pos + 1, line, closed: true }
    } else if src[pos] == '\n' {
        string_end(src, pos + 1, line + 1)
    } else {
        string_end(src, pos + 1, line)
    }
}

/// The kind of a word: that of the reserved word it is, else an identifier.
pub open spec fn word_kind(word: Seq<char>) -> TokenType {
    if word == "and"@ {
        TokenType::And
    } else if word == "class"@ {
        TokenType::Class
    } else if word == "else"@ {
        TokenType::Else
    } else if word == "false"@ {
        TokenType::False
    } else if word == "for"@ {
        TokenType::For
    } else if word == "fun"@ {
        TokenType::Fun
    } else if word == "if"@ {
        TokenType::If
    } else if word == "nil"@ {
        TokenType::Nil
    } else if word == "or"@ {
        TokenType::Or
    } else if word == "print"@ {
        TokenType::Print
    } else if word == "return"@ {
        TokenType::Return
    } else if word == "super"@ {
        TokenType::Super
    } else if word == "this"@ {
        TokenType::This
    } else if word == "true"@ {
        TokenType::True
    } else if word == "var"@ {
        TokenType::Var
    } else if word == "while"@ {
        TokenType::While
    } else {
        TokenType::Identifier
    }
}

/// The kind of a token that is one character long whatever follows it.
pub open spec fn single_kind(c: char) -> Option<TokenType> {
    if c == '(' {
        Some(TokenType::LeftParen)
    } else if c == ')' {
        Some(TokenType::RightParen)
    } else if c == '{' {
        Some(TokenType::LeftBrace)
    } else if c == '}' {
        Some(TokenType::RightBrace)
    } else if c == ';' {
        Some(TokenType::Semicolon)
    } else if c == ',' {
        Some(TokenType::Comma)
    } else if c == '.' {
        Some(TokenType::Dot)
    } else if c == '-' {
        Some(TokenType::Minus)
    } else if c == '+' {
        Some(TokenType::Plus)
    } else if c == '/' {
        Some(TokenType::Slash)
    } else if c == '*' {
        Some(TokenType::Star)
    } else {
        None
    }
}

/// For a character that starts an operator of one or two characters: the
/// kind of the operator alone, and its kind when `=` follows.
pub open spec fn pair_kinds(c: char) -> Option<(TokenType, TokenType)> {
    if c == '!' {
        Some((TokenType::Bang, TokenType::BangEqual))
    } else if c == '=' {
        Some((TokenType::Equal, TokenType::EqualEqual))
    } else if c == '<' {
        Some((TokenType::Less, TokenType::LessEqual))
    } else if c == '>' {
        Some((TokenType::Greater, TokenType::GreaterEqual))
    } else {
        None
    }
}

/// A token together with the place at which scanning goes on after it.
pub struct Scanned {
    pub token: Token,
    pub pos: int,
    pub line: int,
}

/// The token that spans `start..end` and ends on `line`.
pub open spec fn token_at(kind: TokenType, start: int, end: int, line: int) -> Scanned {
    Scanned {
        token: Token {
            token_type: kind,
            start: start as usize,
            length: (end - start) as i32,
            line: line as i32,
        },
        pos: end,
        line,
    }
}

/// The token that starts at `p`, where `p` is the offset of a character
/// that is no blank and starts no comment, and `line` is the line there.
pub open spec fn token_from(src: Seq<char>, p: int, line: int) -> Scanned
    recommends
        0 <= p < src.len(),
{
    let c = src[p];
    if c == '"' {
        let end = string_end(src, p + 1, line);
        if end.closed {
            token_at(TokenType::String, p, end.pos, end.line)
        } else {
            token_at(TokenType::Error(ScanError::UnterminatedString), p, end.pos, end.line)
        }
    } else if single_kind(c) is Some {
        token_at(single_kind(c).unwrap(), p, p + 1, line)
    } else if pair_kinds(c) is Some {
        if p + 1 < src.len() && src[p + 1] == '=' {
            token_at(pair_kinds(c).unwrap().1, p, p + 2, line)
        } else {
            token_at(pair_kinds(c).unwrap().0, p, p + 1, line)
        }
    } else if is_digit(c) {
        token_at(TokenType::Number, p, digits_end(src, p + 1), line)
    } else if alphabetic(c) {
        let end = word_end(src, p + 1);
        token_at(word_kind(src.subrange(p, end)), p, end, line)
    } else {
        token_at(TokenType::Error(ScanError::UnexpectedCharacter), p, p + 1, line)
    }
}

/// The next token of `src` for a scanner that stands at `pos` on `line`,
/// and the place after it. At the end of the source it is the end token,
/// of length zero, and the place does not move.
pub open spec fn next_token(src: Seq<char>, pos: int, line: int) -> Scanned {
    let at = skip_blank(src, pos, line, false);
    if 0 <= at.pos < src.len() {
        token_from(src, at.pos, at.line)
    } else {
        token_at(TokenType::EOF, at.pos, at.pos, at.line)
    }
}

/// The tokens of `src` from `pos` on, up to the end token, which is left out.
pub open spec fn tokens_from(src: Seq<char>, pos: int, line: int) -> Seq<Token>
    decreases src.len() - pos,
{
    let next = next_token(src, pos, line);
    if 0 <= pos <= src.len() && !next.token.is_end() {
        proof {
            lemma_next_token_moves(src, pos, line);
        }
        seq![next.token] + tokens_from(src, next.pos, next.line)
    } else {
        Seq::empty()
    }
}

pub proof fn lemma_skip_blank_bounds(src: Seq<char>, pos: int, line: int, in_comment: bool)
    requires
        0 <= pos <= src.len(),
    ensures
        pos <= skip_blank(src, pos, line, in_comment).pos <= src.len(),
        line <= skip_blank(src, pos, line, in_comment).line,
        skip_blank(src, pos, line, in_comment).line - line <= skip_blank(
            src,
            pos,
            line,
            in_comment,
        ).pos - pos,
    decreases src.len() - pos, (if in_comment { 1int } else { 0int }),
{
    if pos >= src.len() {
    } else if in_comment {
        if src[pos] == '\n' {
            lemma_skip_blank_bounds(src, pos, line, false);
        } else {
            lemma_skip_blank_bounds(src, pos + 1, line, true);
        }
    } else if src[pos] == ' ' || src[pos] == '\r' || src[pos] == '\t' {
        lemma_skip_blank_bounds(src, pos + 1, line, false);
    } else if src[pos] == '\n' {
        lemma_skip_blank_bounds(src, pos + 1, line + 1, false);
    } else if src[pos] == '/' && pos + 1 < src.len() && src[pos + 1] == '/' {
        lemma_skip_blank_bounds(src, pos + 2, line, true);
    }
}

pub proof fn lemma_run_bounds(src: Seq<char>, pos: int)
    requires
        0 <= pos <= src.len(),
    ensures
        pos <= digits_end(src, pos) <= src.len(),
        pos <= word_end(src, pos) <= src.len(),
    decreases src.len() - pos,
{
    if pos < src.len() {
        lemma_run_bounds(src, pos + 1);
    }
}

pub proof fn lemma_string_end_bounds(src: Seq<char>, pos: int, line: int)
    requires
        0 <= pos <= src.len(),
    ensures
        pos <= string_end(src, pos, line).pos <= src.len(),
        line <= string_end(src, pos, line).line,
        string_end(src, pos, line).line - line <= string_end(src, pos, line).pos - pos,
    decreases src.len() - pos,
{
    if pos < src.len() && src[pos] != '"' {
        if src[pos] == '\n' {
            lemma_string_end_bounds(src, pos + 1, line + 1);
        } else {
            lemma_string_end_bounds(src, pos + 1, line);
        }
    }
}

/// Scanning only moves forward, never past the end, and the line grows by
/// no more than the characters passed; a token other than the end token
/// takes at least one character, and starts and ends where scanning went.
pub proof fn lemma_next_token_moves(src: Seq<char>, pos: int, line: int)
    requires
        0 <= pos <= src.len(),
    ensures
        ({
            let next = next_token(src, pos, line);
            &&& pos <= next.pos <= src.len()
            &&& line <= next.line
            &&& next.line - line <= next.pos - pos
            &&& !next.token.is_end() ==> pos < next.pos
            &&& next.token.is_end() ==> next.pos == src.len()
        }),
{
    lemma_skip_blank_bounds(src, pos, line, false);
    let at = skip_blank(src, pos, line, false);
    if at.pos < src.len() {
        lemma_string_end_bounds(src, at.pos + 1, at.line);
        lemma_run_bounds(src, at.pos + 1);
    }
}


/// A token as one line of a listing: its line, four digits wide, or a
/// bar where that is the line of the token before it; the name of its
/// kind; and between quotes the offset at which it starts.
pub open spec fn token_text(token: Token, line_before: int) -> Seq<char> {
    (if token.line != line_before {
        padded(signed(token.line as int), 4) + " "@
    } else {
        "   | "@
    }) + token.token_type.label() + " '"@ + decimal(token.start as nat) + "'"@
}

/// The line of the token before the one at `index`; before the first, a
/// line that no token has.
pub open spec fn line_before(tokens: Seq<Token>, index: int) -> int {
    if index <= 0 {
        -1
    } else {
        tokens[index - 1].line as int
    }
}

/// The end token that scanning from `pos` on comes to, behind all the
/// tokens that are left.
pub open spec fn end_token(src: Seq<char>, pos: int, line: int) -> Token
    decreases src.len() - pos,
{
    let next = next_token(src, pos, line);
    if 0 <= pos <= src.len() && !next.token.is_end() {
        proof {
            lemma_next_token_moves(src, pos, line);
        }
        end_token(src, next.pos, next.line)
    } else {
        next.token
    }
}

/// Where nothing but digits follows, a run of digits ends at the end of
/// the source.
pub proof fn lemma_digits_to_the_end(src: Seq<char>, pos: int)
    requires
        0 <= pos <= src.len(),
        forall|i: int| pos <= i < src.len() ==> is_digit(#[trigger] src[i]),
    ensures
        digits_end(src, pos) == src.len(),
    decreases src.len() - pos,
{
    if pos < src.len() {
        lemma_digits_to_the_end(src, pos + 1);
    }
}

/// Once the end token has come, it comes again, and the place stays.
pub proof fn lemma_end_token_repeats(src: Seq<char>, pos: int, line: int)
    requires
        0 <= pos <= src.len(),
        next_token(src, pos, line).token.is_end(),
    ensures
        ({
            let end = next_token(src, pos, line);
            next_token(src, end.pos, end.line) == end
        }),
{
    lemma_next_token_moves(src, pos, line);
}

/// Reads tokens from a source text, one at a time.
pub struct Scanner<'a> {
    source: &'a str,
    length: usize,
    start: usize,
    current: usize,
    line: i32,
}

impl<'s> Scanner<'s> {
    /// The source, as its characters.
    pub closed spec fn src(&self) -> Seq<char> {
        self.source@
    }

    /// The offset at which the next token is looked for.
    pub closed spec fn pos(&self) -> int {
        self.current as int
    }

    /// The line at that offset; the first line is line 0.
    pub closed spec fn line_no(&self) -> int {
        self.line as int
    }

    /// The text between `start` and `current` lies within the source.
    spec fn spans(&self) -> bool {
        &&& self.length == self.source@.len()
        &&& self.start <= self.current <= self.length
    }

    /// Offsets and lines fit the source and the token fields.
    pub closed spec fn wf(&self) -> bool {
        &&& self.spans()
        &&& self.length <= i32::MAX
        &&& 0 <= self.line <= self.current
    }

    /// A scanner at the start of `source`. Offsets, lengths and lines are
    /// kept in 32 bits, which bounds the source.
    pub fn new(source: &'s str) -> (scanner: Scanner<'s>)
        requires
            source@.len() <= i32::MAX,
        ensures
            scanner.wf(),
            scanner.src() == source@,
            scanner.pos() == 0,
            scanner.line_no() == 0,
    {
        Scanner { source, length: source.unicode_len(), current: 0, line: 0, start: 0 }
    }

    /// All tokens that are left, in order, without the end token.
    pub fn scan(&mut self) -> (tokens: Vec<Token>)
        requires
            old(self).wf(),
        ensures
            final(self).wf(),
            final(self).src() == old(self).src(),
            tokens@ == tokens_from(old(self).src(), old(self).pos(), old(self).line_no()),
            final(self).pos() == final(self).src().len(),
    {
        let mut tokens: Vec<Token> = Vec::new();
        let ghost src = self.src();
        let ghost all = tokens_from(src, self.pos(), self.line_no());
        loop
            invariant
                self.wf(),
                self.src() == src,
                all == tokens@ + tokens_from(src, self.pos(), self.line_no()),
            ensures
                self.wf(),
                self.src() == src,
                all == tokens@,
                self.pos() == src.len(),
            decreases src.len() - self.pos(),
        {
            let ghost before = tokens@;
            let token = self.scan_token();
            if token.token_type == TokenType::EOF {
                assert(all =~= tokens@);
                break ;
            }
            tokens.push(token);
            assert(tokens@ + tokens_from(src, self.pos(), self.line_no()) =~= before + (seq![token]
                + tokens_from(src, self.pos(), self.line_no())));
        }
        tokens
    }

    /// A listing of `tokens`, one line of text for each.
    pub fn list_tokens(&self, tokens: &Vec<Token>) -> (lines: Vec<String>)
        ensures
            lines@.len() == tokens@.len(),
            forall|i: int|
                0 <= i < tokens@.len() ==> (#[trigger] lines@[i])@ == token_text(
                    tokens@[i],
                    line_before(tokens@, i),
                ),
    {
        let mut lines: Vec<String> = Vec::new();
        let mut prev_line: i64 = -1;
        let mut i: usize = 0;
        while i < tokens.len()
            invariant
                i <= tokens@.len(),
                lines@.len() == i,
                prev_line == line_before(tokens@, i as int),
                forall|k: int|
                    0 <= k < i ==> (#[trigger] lines@[k])@ == token_text(
                        tokens@[k],
                        line_before(tokens@, k),
                    ),
            decreases tokens@.len() - i,
        {
            let token = tokens[i];
            let mut out = String::new();
            if token.line as i64 != prev_line {
                let mut number = String::new();
                push_signed(&mut number, token.line as i64);
                push_padded(&mut out, number.as_str(), 4);
                out.append(" ");
                prev_line = token.line as i64;
            } else {
                out.append("   | ");
            }
            out.append(token.token_type.name());
            out.append(" '");
            push_decimal(&mut out, token.start as u64);
            out.append("'");
            assert(out@ =~= token_text(token, line_before(tokens@, i as int)));
            lines.push(out);
            i += 1;
        }
        lines
    }

    fn error_token(&self, error: ScanError) -> (token: Token)
        requires
            self.wf(),
        ensures
            token == token_at(
                TokenType::Error(error),
                self.start as int,
                self.current as int,
                self.line as int,
            ).token,
    {
        Token {
            token_type: TokenType::Error(error),
            length: (self.current - self.start) as i32,
            line: self.line,
            start: self.start,
        }
    }

    fn make_token(&self, tt: TokenType) -> (token: Token)
        requires
            self.wf(),
        ensures
            token == token_at(tt, self.start as int, self.current as int, self.line as int).token,
    {
        Token {
            token_type: tt,
            length: (self.current - self.start) as i32,
            line: self.line,
            start: self.start,
        }
    }

    fn skip_whitespace(&mut self)
        requires
            old(self).wf(),
        ensures
            final(self).wf(),
            final(self).source == old(self).source,
            final(self).start == old(self).start,
            skip_blank(
                old(self).source@,
                old(self).current as int,
                old(self).line as int,
                false,
            ) == (Place { pos: final(self).current as int, line: final(self).line as int }),
    {
        let ghost src = self.source@;
        let ghost goal = skip_blank(src, self.current as int, self.line as int, false);
        let mut in_comment = false;
        loop
            invariant
                self.wf(),
                self.source@ == src,
                self.source == old(self).source,
                self.start == old(self).start,
                goal == skip_blank(src, self.current as int, self.line as int, in_comment),
            ensures
                self.wf(),
                self.source == old(self).source,
                self.start == old(self).start,
                goal == (Place { pos: self.current as int, line: self.line as int }),
            decreases self.length - self.current, (if in_comment { 1int } else { 0int }),
        {
            let c = self.peek();
            if in_comment {
                match c {
                    Some('\n') | None => {
                        in_comment = false;
                    },
                    Some(_) => {
                        self.advance();
                    },
                }
                if c.is_none() {
                    break ;
                }
            } else {
                match c {
                    Some(' ') | Some('\r') | Some('\t') => {
                        self.advance();
                    },
                    Some('\n') => {
                        self.advance();
                        self.line += 1;
                    },
                    Some('/') => {
                        if self.peek_next() == Some('/') {
                            self.advance();
                            self.advance();
                            in_comment = true;
                        } else {
                            break ;
                        }
                    },
                    _ => {
                        break ;
                    },
                }
            }
        }
    }

    /// The next token. Once the source is used up, every call gives the end
    /// token and changes nothing.
    pub fn scan_token(&mut self) -> (token: Token)
        requires
            old(self).wf(),
        ensures
            final(self).wf(),
            final(self).src() == old(self).src(),
            token == next_token(old(self).src(), old(self).pos(), old(self).line_no()).token,
            final(self).pos() == next_token(old(self).src(), old(self).pos(), old(self).line_no()).pos,
            final(self).line_no() == next_token(
                old(self).src(),
                old(self).pos(),
                old(self).line_no(),
            ).line,
            old(self).pos() <= final(self).pos() <= final(self).src().len(),
            old(self).line_no() <= final(self).line_no(),
            token.is_end() ==> final(self).pos() == final(self).src().len(),
            !token.is_end() ==> old(self).pos() < final(self).pos(),
            token.line == final(self).line_no(),
            token.length >= 0,
            token.start + token.length == final(self).pos(),
    {
        proof {
            lemma_next_token_moves(self.src(), self.pos(), self.line_no());
        }
        self.skip_whitespace();
        self.start = self.current;
        let c = self.advance();
        match c {
            None => self.make_token(TokenType::EOF),
            Some(c) => {
                if c == '"' {
                    self.string()
                } else if c == '(' {
                    self.make_token(TokenType::LeftParen)
                } else if c == ')' {
                    self.make_token(TokenType::RightParen)
                } else if c == '{' {
                    self.make_token(TokenType::LeftBrace)
                } else if c == '}' {
                    self.make_token(TokenType::RightBrace)
                } else if c == ';' {
                    self.make_token(TokenType::Semicolon)
                } else if c == ',' {
                    self.make_token(TokenType::Comma)
                } else if c == '.' {
                    self.make_token(TokenType::Dot)
                } else if c == '-' {
                    self.make_token(TokenType::Minus)
                } else if c == '+' {
                    self.make_token(TokenType::Plus)
                } else if c == '/' {
                    self.make_token(TokenType::Slash)
                } else if c == '*' {
                    self.make_token(TokenType::Star)
                } else if c == '!' {
                    self.ternary_match('=', TokenType::BangEqual, TokenType::Bang)
                } else if c == '=' {
                    self.ternary_match('=', TokenType::EqualEqual, TokenType::Equal)
                } else if c == '<' {
                    self.ternary_match('=', TokenType::LessEqual, TokenType::Less)
                } else if c == '>' {
                    self.ternary_match('=', TokenType::GreaterEqual, TokenType::Greater)
                } else if '0' <= c && c <= '9' {
                    self.number()
                } else if is_alphabetic(c) {
                    self.keyword()
                } else {
                    self.error_token(ScanError::UnexpectedCharacter)
                }
            },
        }
    }

    /// The kind of the word that the scanner has just read.
    fn keyword_type(&self) -> (tt: TokenType)
        requires
            self.spans(),
        ensures
            tt == word_kind(self.source@.subrange(self.start as int, self.current as int)),
    {
        if self.check_keyword("and") {
            TokenType::And
        } else if self.check_keyword("class") {
            TokenType::Class
        } else if self.check_keyword("else") {
            TokenType::Else
        } else if self.check_keyword("false") {
            TokenType::False
        } else if self.check_keyword("for") {
            TokenType::For
        } else if self.check_keyword("fun") {
            TokenType::Fun
        } else if self.check_keyword("if") {
            TokenType::If
        } else if self.check_keyword("nil") {
            TokenType::Nil
        } else if self.check_keyword("or") {
            TokenType::Or
        } else if self.check_keyword("print") {
            TokenType::Print
        } else if self.check_keyword("return") {
            TokenType::Return
        } else if self.check_keyword("super") {
            TokenType::Super
        } else if self.check_keyword("this") {
            TokenType::This
        } else if self.check_keyword("true") {
            TokenType::True
        } else if self.check_keyword("var") {
            TokenType::Var
        } else if self.check_keyword("while") {
            TokenType::While
        } else {
            TokenType::Identifier
        }
    }

    fn keyword(&mut self) -> (token: Token)
        requires
            old(self).wf(),
        ensures
            final(self).wf(),
            final(self).source == old(self).source,
            final(self).start == old(self).start,
            final(self).line == old(self).line,
            final(self).current == word_end(old(self).source@, old(self).current as int),
            token == token_at(
                word_kind(
                    old(self).source@.subrange(old(self).start as int, final(self).current as int),
                ),
                old(self).start as int,
                final(self).current as int,
                old(self).line as int,
            ).token,
    {
        loop
            invariant
                self.wf(),
                self.source == old(self).source,
                self.start == old(self).start,
                self.line == old(self).line,
                word_end(self.source@, self.current as int) == word_end(
                    old(self).source@,
                    old(self).current as int,
                ),
            ensures
                self.wf(),
                self.source == old(self).source,
                self.start == old(self).start,
                self.line == old(self).line,
                self.current == word_end(old(self).source@, old(self).current as int),
            decreases self.length - self.current,
        {
            match self.peek() {
                Some(c) => {
                    if is_alphanumeric(c) {
                        self.advance();
                    } else {
                        break ;
                    }
                },
                None => {
                    break ;
                },
            }
        }
        let tt = self.keyword_type();
        self.make_token(tt)
    }

    /// Whether the word that the scanner has just read is `word`.
    fn check_keyword(&self, word: &str) -> (same: bool)
        requires
            self.spans(),
        ensures
            same == (self.source@.subrange(self.start as int, self.current as int) == word@),
    {
        let n = word.unicode_len();
        if self.current - self.start != n {
            return false;
        }
        let ghost span = self.source@.subrange(self.start as int, self.current as int);
        let mut i: usize = 0;
        while i < n
            invariant
                self.spans(),
                n == word@.len(),
                n == self.current - self.start,
                i <= n,
                span == self.source@.subrange(self.start as int, self.current as int),
                forall|k: int| 0 <= k < i ==> span[k] == word@[k],
            decreases n - i,
        {
            if self.source.get_char(self.start + i) != word.get_char(i) {
                assert(span[i as int] != word@[i as int]);
                return false;
            }
            i += 1;
        }
        assert(span =~= word@);
        true
    }

    fn number(&mut self) -> (token: Token)
        requires
            old(self).wf(),
        ensures
            final(self).wf(),
            final(self).source == old(self).source,
            final(self).start == old(self).start,
            final(self).line == old(self).line,
            final(self).current == digits_end(old(self).source@, old(self).current as int),
            token == token_at(
                TokenType::Number,
                old(self).start as int,
                final(self).current as int,
                old(self).line as int,
            ).token,
    {
        loop
            invariant
                self.wf(),
                self.source == old(self).source,
                self.start == old(self).start,
                self.line == old(self).line,
                digits_end(self.source@, self.current as int) == digits_end(
                    old(self).source@,
                    old(self).current as int,
                ),
            ensures
                self.wf(),
                self.source == old(self).source,
                self.start == old(self).start,
                self.line == old(self).line,
                self.current == digits_end(old(self).source@, old(self).current as int),
            decreases self.length - self.current,
        {
            match self.peek() {
                Some(c) => {
                    if '0' <= c && c <= '9' {
                        self.advance();
                    } else {
                        break ;
                    }
                },
                None => {
                    break ;
                },
            }
        }
        self.make_token(TokenType::Number)
    }

    fn string(&mut self) -> (token: Token)
        requires
            old(self).wf(),
        ensures
            final(self).wf(),
            final(self).source == old(self).source,
            final(self).start == old(self).start,
            ({
                let end = string_end(
                    old(self).source@,
                    old(self).current as int,
                    old(self).line as int,
                );
                &&& final(self).current == end.pos
                &&& final(self).line == end.line
                &&& token == token_at(
                    if end.closed {
                        TokenType::String
                    } else {
                        TokenType::Error(ScanError::UnterminatedString)
                    },
                    old(self).start as int,
                    end.pos,
                    end.line,
                ).token
            }),
    {
        let ghost goal = string_end(self.source@, self.current as int, self.line as int);
        loop
            invariant
                self.wf(),
                self.source == old(self).source,
                self.start == old(self).start,
                goal == string_end(self.source@, self.current as int, self.line as int),
                goal == string_end(
                    old(self).source@,
                    old(self).current as int,
                    old(self).line as int,
                ),
            decreases self.length - self.current,
        {
            let current = self.advance();
            match current {
                Some('"') => {
                    return self.make_token(TokenType::String);
                },
                Some('\n') => {
                    self.line += 1;
                },
                Some(_) => {},
                None => {
                    return self.error_token(ScanError::UnterminatedString);
                },
            }
        }
    }

    fn ternary_match(&mut self, expected: char, if_match: TokenType, if_no_match: TokenType) -> (token: Token)
        requires
            old(self).wf(),
        ensures
            final(self).wf(),
            final(self).source == old(self).source,
            final(self).start == old(self).start,
            final(self).line == old(self).line,
            ({
                let hit = old(self).current < old(self).length && old(self).source@[old(
                    self,
                ).current as int] == expected;
                &&& final(self).current == old(self).current + (if hit { 1int } else { 0int })
                &&& token == token_at(
                    if hit { if_match } else { if_no_match },
                    old(self).start as int,
                    final(self).current as int,
                    old(self).line as int,
                ).token
            }),
    {
        let matched_type = if self.match_token(expected) {
            if_match
        } else {
            if_no_match
        };
        self.make_token(matched_type)
    }

    /// Takes the next character, if there is one.
    fn advance(&mut self) -> (c: Option<char>)
        requires
            old(self).wf(),
        ensures
            final(self).source == old(self).source,
            final(self).length == old(self).length,
            final(self).start == old(self).start,
            final(self).line == old(self).line,
            old(self).current < old(self).length ==> c == Some(
                old(self).source@[old(self).current as int],
            ) && final(self).current == old(self).current + 1,
            old(self).current >= old(self).length ==> c.is_none() && final(self).current == old(
                self,
            ).current,
            final(self).wf(),
    {
        if self.current < self.length {
            let c = self.source.get_char(self.current);
            self.current += 1;
            Some(c)
        } else {
            None
        }
    }

    fn peek(&self) -> (c: Option<char>)
        requires
            self.wf(),
        ensures
            c == (if self.current < self.length {
                Some(self.source@[self.current as int])
            } else {
                None
            }),
    {
        if self.current < self.length {
            Some(self.source.get_char(self.current))
        } else {
            None
        }
    }

    fn peek_next(&self) -> (c: Option<char>)
        requires
            self.wf(),
        ensures
            c == (if self.current + 1 < self.length {
                Some(self.source@[self.current + 1])
            } else {
                None
            }),
    {
        if self.current < self.length && self.current + 1 < self.length {
            Some(self.source.get_char(self.current + 1))
        } else {
            None
        }
    }

    fn match_token(&mut self, expected: char) -> (hit: bool)
        requires
            old(self).wf(),
        ensures
            final(self).wf(),
            final(self).source == old(self).source,
            final(self).start == old(self).start,
            final(self).line == old(self).line,
            hit == (old(self).current < old(self).length && old(self).source@[old(
                self,
            ).current as int] == expected),
            final(self).current == old(self).current + (if hit { 1int } else { 0int }),
    {
        match self.peek() {
            Some(c) => {
                if c == expected {
                    self.advance();
                    true
                } else {
                    false
                }
            },
            None => false,
        }
    }
}

/// The kind of a word: that of the reserved word that it is, letter for
/// letter, and else an identifier.
pub fn word_type(word: &str) -> (kind: TokenType)
    ensures
        kind == word_kind(word@),
{
    let length = word.unicode_len();
    let scanner = Scanner { source: word, length, start: 0, current: length, line: 0 };
    assert(word@.subrange(0, length as int) =~= word@);
    scanner.keyword_type()
}

} // verus!
