use clox::chunk::Chunk;
use clox::compiler::{compile, Diagnostic, Location, Message};
use clox::opcode::OpCode;
use clox::scanner::{ScanError, Scanner, TokenType};
use clox::value::Value;
use clox::vm::{Action, VM};

fn report(source: &str) -> String {
    let error = compile(source).err().expect("no chunk");
    assert_eq!(error.diagnostics.len(), 1);
    error.diagnostics[0].render(source)
}

#[test]
fn reports_name_line_place_and_message() {
    assert_eq!(report("(1 + 2"), "[line 0] Error at end: Expected '(' after expression.");
    assert_eq!(report("\n\n1 +\n  *"), "[line 3] Error at '*': Expect expression.");
    assert_eq!(report("1 @"), "[line 0] Error: Unexpected character.");
    assert_eq!(report("1 +\n\"ab"), "[line 1] Error: Unterminated string.");
    assert_eq!(report("1 while"), "[line 0] Error at 'while': Expected EOF, found, While");
    assert_eq!(report("1 12"), "[line 0] Error at '12': Expected EOF, found, Number");
    assert_eq!(report(""), "[line 0] Error at end: Expect expression.");
}

#[test]
fn the_report_of_a_full_pool() {
    let mut source = String::from("0");
    for _ in 0..255 {
        source.push_str("\n+ 1234567890");
    }
    assert_eq!(
        report(&source),
        "[line 255] Error at '1234567890': Too many constants in one chunk."
    );
}

#[test]
fn a_report_renders_any_line_and_place() {
    let d = Diagnostic {
        line: -2147483648,
        location: Location::At(2, 3),
        message: Message::Expected(TokenType::RightParen, TokenType::Error(ScanError::UnexpectedCharacter)),
    };
    assert_eq!(
        d.render("ab\u{e9}de"),
        "[line -2147483648] Error at '\u{e9}de': Expected RightParen, found, Error"
    );
    assert_eq!(
        d.render("abc"),
        "[line -2147483648] Error at '': Expected RightParen, found, Error"
    );
    let d = Diagnostic { line: 1020, location: Location::AtEnd, message: Message::TooManyConstants };
    assert_eq!(d.render(""), "[line 1020] Error at end: Too many constants in one chunk.");
}

#[test]
fn every_kind_has_its_name() {
    assert_eq!(TokenType::LeftParen.name(), "LeftParen");
    assert_eq!(TokenType::GreaterEqual.name(), "GreaterEqual");
    assert_eq!(TokenType::String.name(), "String");
    assert_eq!(TokenType::While.name(), "While");
    assert_eq!(TokenType::EOF.name(), "EOF");
    assert_eq!(TokenType::Error(ScanError::UnterminatedString).name(), "Error");
}

#[test]
fn listing_lines_as_text() {
    let chunk = compile("1 +\n2").ok().expect("compiles");
    let lines = chunk.disassemble().ok().expect("decodes");
    let texts: Vec<String> = lines.iter().map(|l| l.render("1.5")).collect();
    assert_eq!(
        texts,
        vec!["0000 0000 constant 0 '1.5'", "0002 0001 constant 1 '1.5'", "0004    | add", "0005    | return"]
    );
}

#[test]
fn listing_numbers_wider_than_four_digits() {
    let mut chunk = Chunk::new();
    for _ in 0..12345 {
        chunk.add_instruction(&OpCode::OpNegate.to_u8(), 7);
    }
    chunk.add_instruction(&OpCode::OpDivide.to_u8(), 123456);
    chunk.add_instruction(&OpCode::OpMultiply.to_u8(), -5);
    chunk.add_instruction(&OpCode::OpSubstract.to_u8(), 10);
    let lines = chunk.disassemble().ok().expect("decodes");
    assert_eq!(lines[0].render(""), "0000 0007 negate");
    assert_eq!(lines[1].render(""), "0001    | negate");
    assert_eq!(lines[999].render(""), "0999    | negate");
    assert_eq!(lines[12345].render(""), "12345 123456 divide");
    assert_eq!(lines[12346].render(""), "12346 00-5 multiply");
    assert_eq!(lines[12347].render(""), "12347 0010 substract");
}

#[test]
fn the_stack_can_be_read() {
    let mut chunk = Chunk::new();
    chunk.add_constant(&Value::Number(11));
    chunk.add_constant(&Value::Literal(vec!['4', '2']));
    for index in [0u8, 1, 0] {
        chunk.add_instruction(&OpCode::OpConstant.to_u8(), 1);
        chunk.add_instruction(&index, 1);
    }
    let mut vm = VM::new(chunk);
    for _ in 0..3 {
        assert!(matches!(vm.step(None), Action::Continue));
    }
    assert_eq!(vm.depth(), 3);
    assert!(matches!(vm.stack_value(0), Some(Value::Number(11))));
    match vm.stack_value(1) {
        Some(Value::Literal(text)) => assert_eq!(text, vec!['4', '2']),
        other => panic!("{:?}", other),
    }
    assert!(matches!(vm.stack_value(2), Some(Value::Number(11))));
    assert!(vm.stack_value(3).is_none());
    assert_eq!(vm.chunk().len(), 6);
}

#[test]
fn tokens_as_text() {
    let mut scanner = Scanner::new("1 + x\n\n@ \"a\nb\" while");
    let tokens = scanner.scan();
    assert_eq!(
        scanner.list_tokens(&tokens),
        vec![
            "0000 Number '0'",
            "   | Plus '2'",
            "   | Identifier '4'",
            "0002 Error '7'",
            "0003 String '9'",
            "   | While '15'",
        ]
    );
    assert_eq!(scanner.list_tokens(&vec![]), Vec::<String>::new());
}
