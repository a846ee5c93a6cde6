use rlox::chunk::{Chunk, OpCode};
use rlox::compiler::{compile, get_rule, ParseError, ParseFn, Parser};
use rlox::precedence::Precedence;
use rlox::scanner::ScanError;
use rlox::token::TokenType;
use rlox::value::{Number, Value};

fn assert_expr(source: &str, code: Vec<u8>) {
    let mut p = Parser::new(source, Chunk::default());

    p.advance();
    p.expression();
    p.consume(TokenType::EOF, ParseError::ExpectEnd);

    let chunk = p.into_chunk();
    assert_eq!(chunk.code(), &code);
}

fn op(o: OpCode) -> u8 {
    o.into()
}

fn compiled(source: &str) -> Chunk {
    let mut chunk = Chunk::new();
    compile(source, &mut chunk).unwrap();
    chunk
}

#[test]
fn test_basic_arithmetic() {
    assert_expr("1 + 1", vec![
        OpCode::Constant.into(), 0x00,
        OpCode::Constant.into(), 0x01,
        OpCode::Add.into()
    ]);

    assert_expr("2 * 2", vec![
        OpCode::Constant.into(), 0x00,
        OpCode::Constant.into(), 0x01,
        OpCode::Multiply.into()
    ]);

    assert_expr("3 / 3", vec![
        OpCode::Constant.into(), 0x00,
        OpCode::Constant.into(), 0x01,
        OpCode::Divide.into()
    ]);

    assert_expr("4 - 4", vec![
        OpCode::Constant.into(), 0x00,
        OpCode::Constant.into(), 0x01,
        OpCode::Subtract.into()
    ]);
}

#[test]
fn test_grouping() {
    assert_expr("(1 + 1) * 2", vec![
        OpCode::Constant.into(), 0x00,
        OpCode::Constant.into(), 0x01,
        OpCode::Add.into(),
        OpCode::Constant.into(), 0x02,
        OpCode::Multiply.into(),
    ]);

    assert_expr("(1 + 1) * (2 - 1) / 4", vec![
        OpCode::Constant.into(), 0x00,
        OpCode::Constant.into(), 0x01,
        OpCode::Add.into(),
        OpCode::Constant.into(), 0x02,
        OpCode::Constant.into(), 0x03,
        OpCode::Subtract.into(),
        OpCode::Multiply.into(),
        OpCode::Constant.into(), 0x04,
        OpCode::Divide.into(),
    ]);
}

#[test]
fn multiplication_binds_tighter_than_addition() {
    let chunk = compiled("1 + 2 * 3");
    assert_eq!(chunk.code(), &vec![
        op(OpCode::Constant), 0, op(OpCode::Constant), 1, op(OpCode::Constant), 2,
        op(OpCode::Multiply), op(OpCode::Add), op(OpCode::Return),
    ]);
    assert_eq!(chunk.read_constant(0).unwrap(), Value::Number(Number::from_int(1)));
    assert_eq!(chunk.read_constant(1).unwrap(), Value::Number(Number::from_int(2)));
    assert_eq!(chunk.read_constant(2).unwrap(), Value::Number(Number::from_int(3)));
}

#[test]
fn subtraction_is_left_associative() {
    let chunk = compiled("2 - 3 - 4");
    assert_eq!(chunk.code(), &vec![
        op(OpCode::Constant), 0, op(OpCode::Constant), 1, op(OpCode::Subtract),
        op(OpCode::Constant), 2, op(OpCode::Subtract), op(OpCode::Return),
    ]);
}

#[test]
fn comparisons_desugar_with_not() {
    let tail = |src: &str| {
        let c = compiled(src);
        let code = c.code().clone();
        code[4..].to_vec()
    };
    assert_eq!(tail("1 >= 2"), vec![op(OpCode::Less), op(OpCode::Not), op(OpCode::Return)]);
    assert_eq!(tail("1 <= 2"), vec![op(OpCode::Greater), op(OpCode::Not), op(OpCode::Return)]);
    assert_eq!(tail("1 != 2"), vec![op(OpCode::Equal), op(OpCode::Not), op(OpCode::Return)]);
    assert_eq!(tail("1 == 2"), vec![op(OpCode::Equal), op(OpCode::Return)]);
    assert_eq!(tail("1 > 2"), vec![op(OpCode::Greater), op(OpCode::Return)]);
    assert_eq!(tail("1 < 2"), vec![op(OpCode::Less), op(OpCode::Return)]);
}

#[test]
fn literals_use_their_own_opcodes() {
    let chunk = compiled("!nil == !true");
    assert_eq!(chunk.code(), &vec![
        op(OpCode::Nil), op(OpCode::Not), op(OpCode::True), op(OpCode::Not), op(OpCode::Equal),
        op(OpCode::Return),
    ]);
    assert_eq!(chunk.constants_len(), 0);
    let chunk = compiled("-false");
    assert_eq!(chunk.code(), &vec![op(OpCode::False), op(OpCode::Negate), op(OpCode::Return)]);
}

#[test]
fn string_literal_loses_its_quotes() {
    let chunk = compiled("\"ab\" + \"\"");
    assert_eq!(chunk.read_constant(0).unwrap(), Value::string("ab".to_string()));
    assert_eq!(chunk.read_constant(1).unwrap(), Value::string(String::new()));
}

#[test]
fn decimal_literal_is_exact() {
    let chunk = compiled("12.25");
    assert_eq!(chunk.read_constant(0).unwrap(), Value::Number(Number::new(49, 4).unwrap()));
}

#[test]
fn lines_follow_the_source() {
    let chunk = compiled("1 +\n2");
    assert_eq!(chunk.get_line(0), Some(1));
    assert_eq!(chunk.get_line(1), Some(1));
    assert_eq!(chunk.get_line(2), Some(2));
    assert_eq!(chunk.get_line(4), Some(2));
}

#[test]
fn constant_pool_past_one_byte_uses_the_long_form() {
    let mut src = String::from("0");
    for _ in 0..299 {
        src.push_str(" + 1");
    }
    let chunk = compiled(&src);
    assert_eq!(chunk.constants_len(), 300);
    let code = chunk.code().clone();
    // The constant with index 256 is the 257th load: 256 short loads and 255 adds precede it.
    let at = 256 * 2 + 255;
    assert_eq!(code[at], op(OpCode::ConstantLong));
    assert_eq!(&code[at + 1..at + 4], &[0, 1, 0]);
}

#[test]
fn errors_are_reported() {
    let mut chunk = Chunk::new();
    let errors = compile("1 +", &mut chunk).unwrap_err();
    assert_eq!(errors.len(), 1);
    assert_eq!(errors[0].error, ParseError::ExpectExpression);
    assert_eq!(errors[0].at, None);

    let mut chunk = Chunk::new();
    let errors = compile("(1", &mut chunk).unwrap_err();
    assert_eq!(errors[0].error, ParseError::ExpectRightParen);

    let mut chunk = Chunk::new();
    let errors = compile("1 2", &mut chunk).unwrap_err();
    assert_eq!(errors[0].error, ParseError::ExpectEnd);
    assert_eq!(errors[0].at, Some("2"));

    let mut chunk = Chunk::new();
    let errors = compile("\n\n1 + @", &mut chunk).unwrap_err();
    assert_eq!(errors[0].error, ParseError::ScanError(ScanError::UnexpectedCharacter));
    assert_eq!(errors[0].line, 3);
    assert_eq!(errors[0].at, Some("@"));

    let mut chunk = Chunk::new();
    let errors = compile("\"open", &mut chunk).unwrap_err();
    assert_eq!(errors[0].error, ParseError::ScanError(ScanError::UnterminatedString));

    let mut chunk = Chunk::new();
    let errors = compile("99999999999999999999999999999999999999999", &mut chunk).unwrap_err();
    assert_eq!(errors[0].error, ParseError::NumberTooLarge);
}

#[test]
fn only_the_first_error_of_a_cascade_is_reported() {
    let mut chunk = Chunk::new();
    let errors = compile(") ) )", &mut chunk).unwrap_err();
    assert_eq!(errors.len(), 1);
    assert_eq!(errors[0].at, Some(")"));
}

#[test]
fn rule_table_rows() {
    let r = get_rule(TokenType::Minus);
    assert_eq!(r.prefix, Some(ParseFn::Unary));
    assert_eq!(r.infix, Some(ParseFn::Binary));
    assert_eq!(r.precedence, Precedence::Term);
    let r = get_rule(TokenType::Star);
    assert_eq!(r.prefix, None);
    assert_eq!(r.precedence, Precedence::Factor);
    let r = get_rule(TokenType::EOF);
    assert_eq!(r.prefix, None);
    assert_eq!(r.infix, None);
    assert_eq!(r.precedence, Precedence::Lowest);
}

#[test]
fn precedence_steps() {
    assert_eq!(Precedence::Term + 1, Precedence::Factor);
    assert_eq!(Precedence::Primary + 1, Precedence::Primary);
    assert_eq!(Precedence::Assignment - 1, Precedence::Lowest);
    assert_eq!(Precedence::Lowest - 1, Precedence::Lowest);
    assert_eq!(usize::from(Precedence::Unary), 8);
    assert_eq!(Precedence::try_from(5usize), Ok(Precedence::Comparison));
    assert_eq!(Precedence::try_from(11usize), Err(()));
    assert!(Precedence::Term.at_most(Precedence::Factor));
    assert!(!Precedence::Call.at_most(Precedence::Unary));
}
