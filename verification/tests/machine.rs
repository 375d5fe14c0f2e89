use clox::chunk::Chunk;
use clox::compiler::{compile, interpret, Diagnostic, Location, Message};
use clox::opcode::OpCode;
use clox::scanner::TokenType;
use clox::value::Value;
use clox::vm::{Action, InterpretResult, Status, VM};

fn number(value: &Value) -> f64 {
    match value {
        Value::Literal(text) => text.iter().collect::<String>().parse().unwrap(),
        Value::Number(bits) => f64::from_bits(*bits),
    }
}

fn computed(x: f64) -> Option<Value> {
    Some(Value::Number(x.to_bits()))
}

/// Runs a machine to its end, doing the arithmetic it asks for.
fn run(vm: &mut VM) -> (InterpretResult, Option<f64>) {
    let mut reply: Option<Value> = None;
    loop {
        match vm.step(reply.take()) {
            Action::Continue => {}
            Action::Negate(a) => reply = computed(-number(&a)),
            Action::Binary(op, a, b) => {
                let (a, b) = (number(&a), number(&b));
                reply = match op {
                    OpCode::OpAdd => computed(a + b),
                    OpCode::OpSubstract => computed(a - b),
                    OpCode::OpMultiply => computed(a * b),
                    OpCode::OpDivide => computed(a / b),
                    _ => None,
                };
            }
            Action::Halt(result, value) => return (result, value.map(|v| number(&v))),
        }
    }
}

fn arithmetic(op: OpCode, a: Value, b: Option<Value>) -> Option<Value> {
    let x = number(&a);
    match (op, b) {
        (OpCode::OpNegate, None) => computed(-x),
        (OpCode::OpAdd, Some(b)) => computed(x + number(&b)),
        (OpCode::OpSubstract, Some(b)) => computed(x - number(&b)),
        (OpCode::OpMultiply, Some(b)) => computed(x * number(&b)),
        (OpCode::OpDivide, Some(b)) => computed(x / number(&b)),
        _ => None,
    }
}

fn evaluate(source: &str) -> f64 {
    let mut vm = interpret(source).expect("the source compiles");
    let (result, value) = vm.run(arithmetic);
    assert_eq!(result, InterpretResult::InterpretOk);
    assert_eq!(vm.depth(), 0);
    assert_eq!(vm.status(), Status::Halted(InterpretResult::InterpretOk));
    let value = number(&value.expect("a value is reported"));
    let mut stepped = interpret(source).expect("the source compiles");
    assert_eq!(run(&mut stepped), (InterpretResult::InterpretOk, Some(value)));
    assert_eq!(stepped.depth(), 0);
    value
}

#[test]
fn a_literal_evaluates_to_itself() {
    assert_eq!(evaluate("123"), 123.0);
    assert_eq!(evaluate("0"), 0.0);
    assert_eq!(evaluate("007"), 7.0);
    assert_eq!(evaluate("9007199254740993"), 9007199254740993.0);
}

#[test]
fn subtraction_groups_to_the_left() {
    assert_eq!(evaluate("6 - 2 - 1"), 3.0);
}

#[test]
fn multiplication_binds_tighter_than_addition() {
    assert_eq!(evaluate("2 + 3 * 4"), 14.0);
}

#[test]
fn unary_minus_binds_tighter_than_binary() {
    assert_eq!(evaluate("-2 + 3"), 1.0);
}

#[test]
fn grouping_overrides_precedence() {
    assert_eq!(evaluate("(2 + 3) * 4"), 20.0);
}

#[test]
fn division_and_nesting() {
    assert_eq!(evaluate("1 / 4"), 0.25);
    assert_eq!(evaluate("-(1 + 2) * -(3)"), 9.0);
    assert_eq!(evaluate("8 / 2 / 2"), 2.0);
    assert_eq!(evaluate("--5"), 5.0);
}

#[test]
fn missing_closing_parenthesis_fails() {
    let error = compile("(1 + 2").err().expect("no chunk");
    assert_eq!(
        error.diagnostics,
        vec![Diagnostic {
            line: 0,
            location: Location::AtEnd,
            message: Message::ExpectedClosingParen,
        }]
    );
    assert!(interpret("(1 + 2").is_err());
}

#[test]
fn a_statement_end_is_no_part_of_an_expression() {
    let error = compile("1;").err().expect("no chunk");
    assert_eq!(
        error.diagnostics,
        vec![Diagnostic {
            line: 0,
            location: Location::At(1, 1),
            message: Message::Expected(TokenType::EOF, TokenType::Semicolon),
        }]
    );
}

#[test]
fn an_empty_source_has_no_expression() {
    let error = compile("").err().expect("no chunk");
    assert_eq!(
        error.diagnostics,
        vec![Diagnostic {
            line: 0,
            location: Location::AtEnd,
            message: Message::ExpectExpression,
        }]
    );
}

#[test]
fn constant_index_out_of_range_is_a_fault() {
    let mut chunk = Chunk::new();
    chunk.add_constant(&Value::Number(1.5f64.to_bits()));
    chunk.add_instruction(&OpCode::OpConstant.to_u8(), 1);
    chunk.add_instruction(&1, 1);
    chunk.add_instruction(&OpCode::OpReturn.to_u8(), 1);
    let mut vm = VM::new(chunk);
    let (result, value) = run(&mut vm);
    assert_eq!(result, InterpretResult::InterpretRuntimeError);
    assert_eq!(value, None);
    assert_eq!(vm.status(), Status::Halted(InterpretResult::InterpretRuntimeError));
    assert_eq!(vm.depth(), 0);
    assert_eq!(vm.offset(), 0);
}

#[test]
fn constant_without_operand_is_a_fault() {
    let mut chunk = Chunk::new();
    chunk.add_constant(&Value::Number(0));
    chunk.add_instruction(&OpCode::OpConstant.to_u8(), 1);
    let mut vm = VM::new(chunk);
    assert_eq!(run(&mut vm), (InterpretResult::InterpretRuntimeError, None));
}

#[test]
fn constant_in_range_is_pushed_and_returned() {
    let mut chunk = Chunk::new();
    assert_eq!(chunk.add_constant(&Value::Number(1.5f64.to_bits())), 0);
    assert_eq!(chunk.add_constant(&Value::Number(2.5f64.to_bits())), 1);
    chunk.add_instruction(&OpCode::OpConstant.to_u8(), 1);
    chunk.add_instruction(&1, 1);
    chunk.add_instruction(&OpCode::OpReturn.to_u8(), 1);
    let mut vm = VM::new(chunk);
    assert_eq!(vm.status(), Status::Ready);
    assert_eq!(run(&mut vm), (InterpretResult::InterpretOk, Some(2.5)));
    assert_eq!(vm.offset(), 3);
}

#[test]
fn unknown_opcode_is_a_fault() {
    let mut chunk = Chunk::new();
    chunk.add_instruction(&200, 1);
    let mut vm = VM::new(chunk);
    assert_eq!(run(&mut vm), (InterpretResult::InterpretRuntimeError, None));
}

#[test]
fn empty_stack_is_a_fault() {
    for op in [OpCode::OpNegate, OpCode::OpAdd, OpCode::OpSubstract, OpCode::OpMultiply, OpCode::OpDivide] {
        let mut chunk = Chunk::new();
        chunk.add_instruction(&op.to_u8(), 1);
        let mut vm = VM::new(chunk);
        assert_eq!(run(&mut vm), (InterpretResult::InterpretRuntimeError, None));
    }
}

#[test]
fn one_operand_is_too_few_for_a_binary_operation() {
    let mut chunk = Chunk::new();
    chunk.add_constant(&Value::Number(1.0f64.to_bits()));
    chunk.add_instruction(&OpCode::OpConstant.to_u8(), 1);
    chunk.add_instruction(&0, 1);
    chunk.add_instruction(&OpCode::OpAdd.to_u8(), 1);
    let mut vm = VM::new(chunk);
    assert_eq!(run(&mut vm), (InterpretResult::InterpretRuntimeError, None));
    assert_eq!(vm.depth(), 1);
    assert_eq!(vm.offset(), 2);
}

#[test]
fn return_on_an_empty_stack_reports_nothing() {
    let mut chunk = Chunk::new();
    chunk.add_instruction(&OpCode::OpReturn.to_u8(), 1);
    let mut vm = VM::new(chunk);
    assert_eq!(run(&mut vm), (InterpretResult::InterpretOk, None));
}

#[test]
fn code_without_return_stops_at_its_end() {
    let mut vm = VM::new(Chunk::new());
    assert_eq!(run(&mut vm), (InterpretResult::InterpretOk, None));
    assert_eq!(vm.status(), Status::Halted(InterpretResult::InterpretOk));
}

#[test]
fn a_halted_machine_stays_halted() {
    let mut vm = interpret("1").expect("compiles");
    assert_eq!(run(&mut vm), (InterpretResult::InterpretOk, Some(1.0)));
    let offset = vm.offset();
    assert!(matches!(vm.step(None), Action::Halt(InterpretResult::InterpretOk, None)));
    assert!(matches!(vm.step(computed(1.0)), Action::Halt(InterpretResult::InterpretOk, None)));
    assert_eq!(vm.offset(), offset);
}

#[test]
fn a_missing_reply_is_a_fault() {
    let mut vm = interpret("-1").expect("compiles");
    assert!(matches!(vm.step(None), Action::Continue));
    assert!(matches!(vm.step(None), Action::Negate(Value::Literal(_))));
    assert_eq!(vm.status(), Status::Awaiting);
    assert!(matches!(vm.step(None), Action::Halt(InterpretResult::InterpretRuntimeError, None)));
}

#[test]
fn operands_are_handed_out_left_first() {
    let mut vm = interpret("6 / 3").expect("compiles");
    assert!(matches!(vm.step(None), Action::Continue));
    assert!(matches!(vm.step(None), Action::Continue));
    match vm.step(None) {
        Action::Binary(op, a, b) => {
            assert_eq!(op, OpCode::OpDivide);
            assert_eq!(number(&a), 6.0);
            assert_eq!(number(&b), 3.0);
        }
        other => panic!("{:?}", other),
    }
}

#[test]
fn a_run_stops_at_a_fault() {
    let mut chunk = Chunk::new();
    chunk.add_constant(&Value::Number(1.0f64.to_bits()));
    chunk.add_instruction(&OpCode::OpConstant.to_u8(), 1);
    chunk.add_instruction(&0, 1);
    chunk.add_instruction(&OpCode::OpNegate.to_u8(), 1);
    chunk.add_instruction(&OpCode::OpMultiply.to_u8(), 1);
    chunk.add_instruction(&OpCode::OpReturn.to_u8(), 1);
    let mut vm = VM::new(chunk);
    let (result, value) = vm.run(arithmetic);
    assert_eq!(result, InterpretResult::InterpretRuntimeError);
    assert!(value.is_none());
    assert_eq!(vm.offset(), 3);
    assert!(matches!(vm.stack_value(0), Some(Value::Number(bits)) if f64::from_bits(bits) == -1.0));
    let (result, value) = vm.run(arithmetic);
    assert_eq!(result, InterpretResult::InterpretRuntimeError);
    assert!(value.is_none());
}

#[test]
fn a_run_stops_when_the_arithmetic_gives_no_answer() {
    let mut vm = interpret("1 + 2").expect("compiles");
    let (result, value) = vm.run(|_, _, _| None);
    assert_eq!(result, InterpretResult::InterpretRuntimeError);
    assert!(value.is_none());
    assert_eq!(vm.status(), Status::Halted(InterpretResult::InterpretRuntimeError));
}

#[test]
fn loads_without_operations_run_to_the_return() {
    let mut chunk = Chunk::new();
    chunk.add_constant(&Value::Number(1.0f64.to_bits()));
    for _ in 0..128 {
        chunk.add_instruction(&OpCode::OpConstant.to_u8(), 1);
        chunk.add_instruction(&0, 1);
    }
    chunk.add_instruction(&OpCode::OpReturn.to_u8(), 1);
    let mut vm = VM::new(chunk);
    let (result, value) = vm.run(|_, _, _| panic!("no operation is handed out"));
    assert_eq!(result, InterpretResult::InterpretOk);
    assert_eq!(value.map(|v| number(&v)), Some(1.0));
    assert_eq!(vm.depth(), 127);
    assert_eq!(vm.offset(), 257);
}

#[test]
fn a_run_takes_the_answers_of_the_arithmetic() {
    let mut vm = interpret("1 - 2").expect("compiles");
    let (result, value) = vm.run(|op, a, b| {
        assert_eq!(op, OpCode::OpSubstract);
        assert_eq!(number(&a), 1.0);
        assert_eq!(b.map(|b| number(&b)), Some(2.0));
        computed(42.0)
    });
    assert_eq!(result, InterpretResult::InterpretOk);
    assert_eq!(value.map(|v| number(&v)), Some(42.0));
}

#[test]
fn a_run_on_a_bad_constant_reads_nothing() {
    let mut chunk = Chunk::new();
    chunk.add_constant(&Value::Number(1.0f64.to_bits()));
    chunk.add_instruction(&OpCode::OpConstant.to_u8(), 1);
    chunk.add_instruction(&5, 1);
    chunk.add_instruction(&OpCode::OpReturn.to_u8(), 1);
    let mut vm = VM::new(chunk);
    let (result, value) = vm.run(arithmetic);
    assert_eq!(result, InterpretResult::InterpretRuntimeError);
    assert!(value.is_none());
    assert_eq!(vm.depth(), 0);
    assert_eq!(vm.offset(), 0);
    assert_eq!(vm.chunk().len(), 3);
    assert_eq!(vm.chunk().line_at(2), Some(1));
}
