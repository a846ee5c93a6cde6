use rlox::chunk::{Chunk, OpCode};
use rlox::error::InterpretError;
use rlox::value::{Number, Value, ValueFault};
use rlox::vm::{InterpretResult, VM};

fn run(source: &str) -> (Result<InterpretResult, InterpretError>, VM) {
    let mut vm = VM::default();
    let r = vm.interpret(source);
    (r, vm)
}

fn result_of(source: &str) -> Value {
    let (r, vm) = run(source);
    assert_eq!(r, Ok(InterpretResult));
    vm.peek(0).unwrap()
}

fn num(n: i64) -> Value {
    Value::Number(Number::from_int(n))
}

#[test]
fn one_plus_one_is_two() {
    let (r, vm) = run("1 + 1");
    assert_eq!(r, Ok(InterpretResult));
    assert_eq!(vm.peek(0).unwrap(), num(2));
    assert!(vm.peek(1).is_err());
}

#[test]
fn grouped_arithmetic_gives_one_half() {
    let v = result_of("(1 + 1) * (2 - 1) / 4");
    assert_eq!(v, Value::Number(Number::new(1, 2).unwrap()));
    match v {
        Value::Number(n) => {
            assert_eq!(n.numerator(), 1);
            assert_eq!(n.denominator(), 2);
            assert_eq!(n.numerator() as f64 / n.denominator() as f64, 0.5);
        }
        _ => panic!("not a number"),
    }
}

#[test]
fn not_nil_is_true() {
    assert_eq!(result_of("!nil"), Value::Bool(true));
}

#[test]
fn truthiness() {
    assert_eq!(result_of("!nil"), Value::Bool(true));
    assert_eq!(result_of("!false"), Value::Bool(true));
    assert_eq!(result_of("!0"), Value::Bool(false));
    assert_eq!(result_of("!\"\""), Value::Bool(false));
    assert_eq!(result_of("!true"), Value::Bool(false));
}

#[test]
fn adding_a_bool_fails_on_its_line() {
    let (r, vm) = run("1 + true");
    assert_eq!(r, Err(InterpretError::ValueError(ValueFault::AddOperands, 1)));
    assert!(vm.peek(0).is_err());
    let (r, _) = run("1 +\n\n -\"x\"");
    assert_eq!(r, Err(InterpretError::ValueError(ValueFault::NegateOperand, 3)));
}

#[test]
fn arithmetic_typing() {
    assert_eq!(result_of("\"ab\" + \"cd\""), Value::string("abcd".to_string()));
    assert_eq!(result_of("2.5 + 0.25"), Value::Number(Number::new(11, 4).unwrap()));
    let fails = [
        ("1 + \"a\"", ValueFault::AddOperands),
        ("nil + nil", ValueFault::AddOperands),
        ("\"a\" - \"b\"", ValueFault::SubtractOperands),
        ("true * 2", ValueFault::MultiplyOperands),
        ("2 / nil", ValueFault::DivideOperands),
        ("-true", ValueFault::NegateOperand),
        ("1 / 0", ValueFault::DivisionByZero),
        ("1 < \"a\"", ValueFault::CompareOperands),
        ("1 == true", ValueFault::CompareOperands),
    ];
    for (src, fault) in fails {
        let (r, vm) = run(src);
        assert_eq!(r, Err(InterpretError::ValueError(fault, 1)), "{}", src);
        assert!(vm.peek(0).is_err());
    }
}

#[test]
fn comparisons() {
    assert_eq!(result_of("1 < 2"), Value::Bool(true));
    assert_eq!(result_of("2 <= 2"), Value::Bool(true));
    assert_eq!(result_of("3 > 4"), Value::Bool(false));
    assert_eq!(result_of("0.5 >= 1 / 2"), Value::Bool(true));
    assert_eq!(result_of("0.1 + 0.2 == 0.3"), Value::Bool(true));
    assert_eq!(result_of("\"a\" != \"a\""), Value::Bool(false));
    assert_eq!(result_of("nil == nil"), Value::Bool(true));
}

#[test]
fn negation_and_precedence() {
    assert_eq!(result_of("-2 * 3 + 10 / 4"), Value::Number(Number::new(-7, 2).unwrap()));
    assert_eq!(result_of("2 - 3 - 4"), num(-5));
    assert_eq!(result_of("1 + 2 * 3"), num(7));
}

#[test]
fn overflow_is_a_value_error() {
    let (r, _) = run("9223372036854775807 + 1");
    assert_eq!(r, Err(InterpretError::ValueError(ValueFault::NumberOverflow, 1)));
}

#[test]
fn compile_errors_do_not_run() {
    let (r, vm) = run("1 +");
    assert_eq!(r, Err(InterpretError::CompileError));
    assert!(vm.peek(0).is_err());
}

#[test]
fn many_constants_run() {
    let mut src = String::from("0");
    for _ in 0..299 {
        src.push_str(" + 1");
    }
    assert_eq!(result_of(&src), num(299));
}

#[test]
fn hand_built_chunks() {
    let mut chunk = Chunk::new();
    let k = chunk.add_constant(num(4));
    chunk.write(OpCode::Constant.into(), 1);
    chunk.write(k as u8, 1);
    chunk.write(OpCode::Negate.into(), 1);
    chunk.write(OpCode::Return.into(), 2);
    let mut vm = VM::new();
    assert_eq!(vm.instruct(chunk), Ok(InterpretResult));
    assert_eq!(vm.peek(0).unwrap(), num(-4));

    let mut chunk = Chunk::new();
    chunk.write(OpCode::Add.into(), 1);
    assert_eq!(vm.instruct(chunk), Err(InterpretError::RuntimeError));

    let mut chunk = Chunk::new();
    chunk.write(OpCode::Nil.into(), 1);
    assert_eq!(vm.instruct(chunk), Err(InterpretError::RuntimeError));

    let mut chunk = Chunk::new();
    chunk.write(0x77, 1);
    assert_eq!(vm.instruct(chunk), Err(InterpretError::RuntimeError));
}

#[test]
fn long_constant_index_is_big_endian() {
    let mut chunk = Chunk::new();
    for i in 0..300 {
        chunk.add_constant(num(i));
    }
    chunk.write(OpCode::ConstantLong.into(), 1);
    chunk.write(0, 1);
    chunk.write(1, 1);
    chunk.write(0x2A, 1);
    chunk.write(OpCode::Return.into(), 1);
    let mut vm = VM::new();
    assert_eq!(vm.instruct(chunk), Ok(InterpretResult));
    assert_eq!(vm.peek(0).unwrap(), num(298));
}

#[test]
fn a_used_machine_interprets_like_a_fresh_one() {
    let mut used = VM::new();
    assert_eq!(used.interpret("1 + 2"), Ok(InterpretResult));
    let mut fresh = VM::default();
    for src in ["2 * 3", "1 + true", "(", "1 + (2 + true)"] {
        let a = used.interpret(src);
        let b = fresh.interpret(src);
        assert_eq!(a, b, "{}", src);
        assert_eq!(used.peek(0).ok(), fresh.peek(0).ok());
        assert!(used.peek(1).is_err());
    }
    assert_eq!(fresh.interpret("1 + (2 + true)"), Err(InterpretError::ValueError(ValueFault::AddOperands, 1)));
    assert!(fresh.peek(0).is_err());
}
