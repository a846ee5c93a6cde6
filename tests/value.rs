use rlox::value::{Number, Value, ValueFault};

#[test]
fn numbers_are_kept_in_lowest_terms() {
    let n = Number::new(6, -8).unwrap();
    assert_eq!(n.numerator(), -3);
    assert_eq!(n.denominator(), 4);
    assert!(Number::new(1, 0).is_none());
}

#[test]
fn number_literals() {
    let n = Number::parse_literal("0.125").unwrap();
    assert_eq!((n.numerator(), n.denominator()), (1, 8));
    let n = Number::parse_literal("42").unwrap();
    assert_eq!((n.numerator(), n.denominator()), (42, 1));
    assert!(Number::parse_literal("").is_none());
    assert!(Number::parse_literal("1.").is_none());
    assert!(Number::parse_literal(".5").is_none());
    assert!(Number::parse_literal("1.2.3").is_none());
    assert!(Number::parse_literal("1a").is_none());
    assert!(Number::parse_literal("9223372036854775808").is_none());
    assert!(Number::parse_literal("9223372036854775807").is_some());
}

#[test]
fn number_arithmetic() {
    let a = Number::new(1, 3).unwrap();
    let b = Number::new(1, 6).unwrap();
    let s = a.checked_add(b).unwrap();
    assert_eq!((s.numerator(), s.denominator()), (1, 2));
    let d = a.checked_sub(b).unwrap();
    assert_eq!((d.numerator(), d.denominator()), (1, 6));
    let p = a.checked_mul(b).unwrap();
    assert_eq!((p.numerator(), p.denominator()), (1, 18));
    let q = a.checked_div(Number::new(-2, 1).unwrap()).unwrap();
    assert_eq!((q.numerator(), q.denominator()), (-1, 6));
    let m = Number::from_int(i64::MIN);
    assert!(m.checked_neg().is_none());
    assert!(a.less_than(&Number::new(1, 2).unwrap()));
    assert!(a.equals(&Number::new(2, 6).unwrap()));
}

#[test]
fn value_operators() {
    let two = Value::Number(Number::from_int(2));
    let s = Value::string("x".to_string());
    assert_eq!(two.clone().add(two.clone()), Ok(Value::Number(Number::from_int(4))));
    assert_eq!(s.clone().add(s.clone()), Ok(Value::string("xx".to_string())));
    assert_eq!(two.clone().add(s.clone()), Err(ValueFault::AddOperands));
    assert_eq!(two.clone().negate(), Ok(Value::Number(Number::from_int(-2))));
    assert_eq!(Value::Nil.negate(), Err(ValueFault::NegateOperand));
    assert!(Value::Nil.is_falsey());
    assert!(Value::Bool(false).is_falsey());
    assert!(!Value::Number(Number::from_int(0)).is_falsey());
    assert!(!Value::string(String::new()).is_falsey());
    assert_eq!(two.equals(&Value::Bool(true)), Err(ValueFault::CompareOperands));
    assert_eq!(two.greater(&Value::Number(Number::from_int(1))), Ok(true));
}
