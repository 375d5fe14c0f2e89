use clox::chunk::Chunk;
use clox::compiler::{compile, Diagnostic, Location, Message, Precedence, MAX_CONSTANTS};
use clox::instructions::{DecodeFault, Instructions};
use clox::opcode::OpCode;
use clox::scanner::{word_type, ScanError, Scanner, Token, TokenType};
use clox::value::Value;

fn kinds(source: &str) -> Vec<TokenType> {
    Scanner::new(source).scan().iter().map(|t| t.token_type).collect()
}

fn code_of(chunk: &Chunk) -> Vec<u8> {
    (0..chunk.len()).map(|i| chunk.byte_at(i).unwrap()).collect()
}

fn tags_of(chunk: &Chunk) -> Vec<i32> {
    (0..chunk.len()).map(|i| chunk.line_at(i).unwrap()).collect()
}

fn literal_at(chunk: &Chunk, index: usize) -> String {
    match chunk.constant_at(index) {
        Some(Value::Literal(text)) => text.iter().collect(),
        other => panic!("{:?}", other),
    }
}

#[test]
fn opcode_bytes_round_trip() {
    let all = [
        OpCode::OpReturn,
        OpCode::OpConstant,
        OpCode::OpNegate,
        OpCode::OpAdd,
        OpCode::OpSubstract,
        OpCode::OpMultiply,
        OpCode::OpDivide,
    ];
    for (i, op) in all.iter().enumerate() {
        assert_eq!(op.to_u8() as usize, i);
        assert_eq!(OpCode::from_u8(i as u8), Some(*op));
    }
    for b in 7..=255u8 {
        assert_eq!(OpCode::from_u8(b), None);
    }
    assert_eq!(OpCode::OpConstant.arity(), 1);
    assert_eq!(OpCode::OpAdd.arity(), 0);
    assert_eq!(OpCode::OpSubstract.name(), "substract");
}

#[test]
fn chunk_appends() {
    let mut chunk = Chunk::new();
    assert_eq!(chunk.len(), 0);
    assert_eq!(chunk.constant_count(), 0);
    chunk.add_instruction(&7, 3);
    chunk.add_instruction(&9, 4);
    assert_eq!(code_of(&chunk), vec![7, 9]);
    assert_eq!(tags_of(&chunk), vec![3, 4]);
    assert_eq!(chunk.byte_at(2), None);
    assert_eq!(chunk.line_at(2), None);
    assert_eq!(chunk.add_constant(&Value::Number(5)), 0);
    assert_eq!(chunk.add_constant(&Value::Number(5)), 1);
    assert_eq!(chunk.add_constant(&Value::Literal(vec!['1', '2'])), 2);
    assert_eq!(chunk.constant_count(), 3);
    assert!(matches!(chunk.constant_at(1), Some(Value::Number(5))));
    assert_eq!(literal_at(&chunk, 2), "12");
    assert!(chunk.constant_at(3).is_none());
}

#[test]
fn single_character_tokens() {
    assert_eq!(
        kinds("(){};,.-+/*"),
        vec![
            TokenType::LeftParen,
            TokenType::RightParen,
            TokenType::LeftBrace,
            TokenType::RightBrace,
            TokenType::Semicolon,
            TokenType::Comma,
            TokenType::Dot,
            TokenType::Minus,
            TokenType::Plus,
            TokenType::Slash,
            TokenType::Star,
        ]
    );
}

#[test]
fn one_or_two_character_operators() {
    assert_eq!(
        kinds("! != = == < <= > >= =! <"),
        vec![
            TokenType::Bang,
            TokenType::BangEqual,
            TokenType::Equal,
            TokenType::EqualEqual,
            TokenType::Less,
            TokenType::LessEqual,
            TokenType::Greater,
            TokenType::GreaterEqual,
            TokenType::Equal,
            TokenType::Bang,
            TokenType::Less,
        ]
    );
}

#[test]
fn every_reserved_word_is_recognised() {
    assert_eq!(
        kinds("and class else false for fun if nil or print return super this true var while"),
        vec![
            TokenType::And,
            TokenType::Class,
            TokenType::Else,
            TokenType::False,
            TokenType::For,
            TokenType::Fun,
            TokenType::If,
            TokenType::Nil,
            TokenType::Or,
            TokenType::Print,
            TokenType::Return,
            TokenType::Super,
            TokenType::This,
            TokenType::True,
            TokenType::Var,
            TokenType::While,
        ]
    );
}

#[test]
fn near_misses_are_identifiers() {
    assert_eq!(
        kinds("an andy f fo forx t tru thistle If classes x1 \u{e9}t\u{e9}"),
        vec![TokenType::Identifier; 12]
    );
}

#[test]
fn a_word_takes_letters_and_digits() {
    let tokens = Scanner::new("ab12 34cd").scan();
    assert_eq!(
        tokens,
        vec![
            Token { token_type: TokenType::Identifier, start: 0, length: 4, line: 0 },
            Token { token_type: TokenType::Number, start: 5, length: 2, line: 0 },
            Token { token_type: TokenType::Identifier, start: 7, length: 2, line: 0 },
        ]
    );
}

#[test]
fn unexpected_characters_are_error_tokens() {
    assert_eq!(
        Scanner::new("1 @ _").scan(),
        vec![
            Token { token_type: TokenType::Number, start: 0, length: 1, line: 0 },
            Token {
                token_type: TokenType::Error(ScanError::UnexpectedCharacter),
                start: 2,
                length: 1,
                line: 0
            },
            Token {
                token_type: TokenType::Error(ScanError::UnexpectedCharacter),
                start: 4,
                length: 1,
                line: 0
            },
        ]
    );
    assert_eq!(ScanError::UnexpectedCharacter.message(), "Unexpected character.");
    assert_eq!(ScanError::UnterminatedString.message(), "Unterminated string.");
}

#[test]
fn strings_span_their_quotes_and_count_lines() {
    assert_eq!(
        Scanner::new("\"a\nb\" \"\" 1").scan(),
        vec![
            Token { token_type: TokenType::String, start: 0, length: 5, line: 1 },
            Token { token_type: TokenType::String, start: 6, length: 2, line: 1 },
            Token { token_type: TokenType::Number, start: 9, length: 1, line: 1 },
        ]
    );
}

#[test]
fn an_unterminated_string_is_an_error_token() {
    assert_eq!(
        Scanner::new("1 \"ab\nc").scan(),
        vec![
            Token { token_type: TokenType::Number, start: 0, length: 1, line: 0 },
            Token {
                token_type: TokenType::Error(ScanError::UnterminatedString),
                start: 2,
                length: 5,
                line: 1
            },
        ]
    );
}

#[test]
fn blanks_comments_and_lines_are_skipped() {
    assert_eq!(
        Scanner::new(" \t1 // one / two\r\n\n  // only a comment\n2 / 3 //").scan(),
        vec![
            Token { token_type: TokenType::Number, start: 2, length: 1, line: 0 },
            Token { token_type: TokenType::Number, start: 39, length: 1, line: 3 },
            Token { token_type: TokenType::Slash, start: 41, length: 1, line: 3 },
            Token { token_type: TokenType::Number, start: 43, length: 1, line: 3 },
        ]
    );
}

#[test]
fn the_end_token_repeats() {
    let mut scanner = Scanner::new("1 \n");
    assert_eq!(scanner.scan_token().token_type, TokenType::Number);
    let end = Token { token_type: TokenType::EOF, start: 3, length: 0, line: 1 };
    assert_eq!(scanner.scan_token(), end);
    assert_eq!(scanner.scan_token(), end);
    assert_eq!(scanner.scan(), vec![]);
    let mut empty = Scanner::new("");
    assert_eq!(
        empty.scan_token(),
        Token { token_type: TokenType::EOF, start: 0, length: 0, line: 0 }
    );
}

#[test]
fn offsets_count_characters() {
    assert_eq!(
        Scanner::new("\u{e9}\u{e9} +").scan(),
        vec![
            Token { token_type: TokenType::Identifier, start: 0, length: 2, line: 0 },
            Token { token_type: TokenType::Plus, start: 3, length: 1, line: 0 },
        ]
    );
}

#[test]
fn code_for_a_binary_expression() {
    let chunk = compile("1 + 2 * 3").ok().expect("compiles");
    assert_eq!(
        code_of(&chunk),
        vec![
            OpCode::OpConstant.to_u8(),
            0,
            OpCode::OpConstant.to_u8(),
            1,
            OpCode::OpConstant.to_u8(),
            2,
            OpCode::OpMultiply.to_u8(),
            OpCode::OpAdd.to_u8(),
            OpCode::OpReturn.to_u8(),
        ]
    );
    assert_eq!(chunk.constant_count(), 3);
}

#[test]
fn constants_are_indexed_in_order_of_use() {
    let chunk = compile("30 - (10 / 30) - -20").ok().expect("compiles");
    assert_eq!(chunk.constant_count(), 4);
    assert_eq!(literal_at(&chunk, 0), "30");
    assert_eq!(literal_at(&chunk, 1), "10");
    assert_eq!(literal_at(&chunk, 2), "30");
    assert_eq!(literal_at(&chunk, 3), "20");
    assert_eq!(
        code_of(&chunk),
        vec![1, 0, 1, 1, 1, 2, 6, 4, 1, 3, 2, 4, 0]
    );
}

#[test]
fn bytes_carry_the_line_of_the_token_consumed_last() {
    let chunk = compile("1 +\n2\n*\n\n3").ok().expect("compiles");
    assert_eq!(code_of(&chunk), vec![1, 0, 1, 1, 1, 2, 5, 3, 0]);
    assert_eq!(tags_of(&chunk), vec![0, 0, 1, 1, 4, 4, 4, 4, 4]);
    let tags = tags_of(&chunk);
    assert!(tags.windows(2).all(|w| w[0] <= w[1]));
}

#[test]
fn the_pool_holds_its_limit_and_no_more() {
    let mut source = String::from("0");
    for _ in 1..MAX_CONSTANTS {
        source.push_str("+0");
    }
    let chunk = compile(&source).ok().expect("compiles");
    assert_eq!(chunk.constant_count(), 255);
    assert_eq!(chunk.byte_at(2 * 254 + 254), Some(254));
    source.push_str("+\n12");
    let error = compile(&source).err().expect("too many");
    assert_eq!(
        error.diagnostics,
        vec![Diagnostic {
            line: 1,
            location: Location::At(source.len() - 2, 2),
            message: Message::TooManyConstants,
        }]
    );
}

#[test]
fn only_the_first_error_is_reported() {
    let error = compile("@ \"abc").err().expect("no chunk");
    assert_eq!(
        error.diagnostics,
        vec![Diagnostic {
            line: 0,
            location: Location::Unplaced,
            message: Message::Scan(ScanError::UnexpectedCharacter),
        }]
    );
    let error = compile("1 + \"abc").err().expect("no chunk");
    assert_eq!(
        error.diagnostics,
        vec![Diagnostic {
            line: 0,
            location: Location::Unplaced,
            message: Message::Scan(ScanError::UnterminatedString),
        }]
    );
}

#[test]
fn an_operator_needs_its_right_operand() {
    let error = compile("1 +\n* 2").err().expect("no chunk");
    assert_eq!(
        error.diagnostics,
        vec![Diagnostic {
            line: 1,
            location: Location::At(4, 1),
            message: Message::ExpectExpression,
        }]
    );
}

#[test]
fn precedence_levels_are_ordered() {
    let levels = [
        Precedence::Lowest,
        Precedence::Assignment,
        Precedence::Or,
        Precedence::And,
        Precedence::Equality,
        Precedence::Comparison,
        Precedence::Term,
        Precedence::Factor,
        Precedence::Unary,
        Precedence::Call,
        Precedence::Primary,
    ];
    for (i, level) in levels.iter().enumerate() {
        assert_eq!(level.level() as usize, i);
        assert_eq!(level.next(), levels[(i + 1).min(10)]);
    }
}

#[test]
fn a_listing_walks_the_instructions() {
    let chunk = compile("1 +\n2").ok().expect("compiles");
    let lines = chunk.disassemble().ok().expect("decodes");
    let shown: Vec<(usize, Option<i32>, OpCode, Option<u8>)> = lines
        .iter()
        .map(|l| (l.offset, l.line, l.op, l.operand.as_ref().map(|o| o.0)))
        .collect();
    assert_eq!(
        shown,
        vec![
            (0, Some(0), OpCode::OpConstant, Some(0)),
            (2, Some(1), OpCode::OpConstant, Some(1)),
            (4, None, OpCode::OpAdd, None),
            (5, None, OpCode::OpReturn, None),
        ]
    );
    match &lines[1].operand {
        Some((1, Value::Literal(text))) => assert_eq!(text, &vec!['2']),
        other => panic!("{:?}", other),
    }
}

#[test]
fn a_listing_reads_and_changes_nothing() {
    let chunk = compile("(1 + 2) * -3").ok().expect("compiles");
    let code = code_of(&chunk);
    let first = format!("{:?}", chunk.disassemble());
    let second = format!("{:?}", chunk.disassemble());
    assert_eq!(first, second);
    assert_eq!(code_of(&chunk), code);
    assert_eq!(chunk.constant_count(), 3);
}

#[test]
fn a_listing_stops_at_a_fault() {
    let mut chunk = Chunk::new();
    chunk.add_instruction(&OpCode::OpNegate.to_u8(), 1);
    chunk.add_instruction(&77, 1);
    assert_eq!(chunk.disassemble().err(), Some(DecodeFault::InvalidInstruction(77, 1)));
    assert_eq!(chunk.invalid_instruction(&77, &1), DecodeFault::InvalidInstruction(77, 1));

    let mut chunk = Chunk::new();
    chunk.add_instruction(&OpCode::OpConstant.to_u8(), 1);
    assert_eq!(chunk.disassemble().err(), Some(DecodeFault::MissingOperand(0)));
    chunk.add_instruction(&0, 1);
    assert_eq!(chunk.disassemble().err(), Some(DecodeFault::InvalidConstant(0, 0)));
    assert_eq!(
        chunk.disassemble_instruction(&2).err(),
        Some(DecodeFault::PastEnd(2))
    );
    assert_eq!(
        chunk.simple_instruction(OpCode::OpAdd, &5).err(),
        Some(DecodeFault::PastEnd(5))
    );
}

#[test]
fn words_have_their_kinds() {
    let reserved = [
        ("and", TokenType::And),
        ("class", TokenType::Class),
        ("else", TokenType::Else),
        ("false", TokenType::False),
        ("for", TokenType::For),
        ("fun", TokenType::Fun),
        ("if", TokenType::If),
        ("nil", TokenType::Nil),
        ("or", TokenType::Or),
        ("print", TokenType::Print),
        ("return", TokenType::Return),
        ("super", TokenType::Super),
        ("this", TokenType::This),
        ("true", TokenType::True),
        ("var", TokenType::Var),
        ("while", TokenType::While),
    ];
    for (word, kind) in reserved {
        assert_eq!(word_type(word), kind);
        assert_eq!(word_type(&word.to_uppercase()), TokenType::Identifier);
        assert_eq!(word_type(&format!("x{}", word)), TokenType::Identifier);
        assert_eq!(word_type(&format!("{}s", word)), TokenType::Identifier);
    }
    assert_eq!(word_type(""), TokenType::Identifier);
    assert_eq!(word_type("12"), TokenType::Identifier);
    assert_eq!(word_type("\u{e9}t\u{e9}"), TokenType::Identifier);
}
