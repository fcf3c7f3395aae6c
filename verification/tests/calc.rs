//! The calculator: arithmetic, the expression parser and `eval`.

use testmap::calc::parser::{self, Op};
use testmap::calc::{add, div, eval, mul, sub};

#[test]
fn add_works() {
    assert_eq!(add(2, 2), 4);
    assert_eq!(add(-1, 1), 0);
}

#[test]
fn sub_works() {
    assert_eq!(sub(5, 3), 2);
}

#[test]
fn eval_add() {
    assert_eq!(eval("2 + 3"), Some(5));
}

#[test]
fn eval_sub() {
    assert_eq!(eval("10 - 4"), Some(6));
}

#[test]
fn eval_rejects_garbage() {
    assert_eq!(eval("not an expression"), None);
}

#[test]
fn parses_add() {
    assert_eq!(parser::parse("1 + 2"), Some((1, Op::Add, 2)));
}

#[test]
fn parses_div() {
    assert_eq!(parser::parse("8 / 2"), Some((8, Op::Div, 2)));
}

#[test]
fn rejects_bad_operator() {
    assert_eq!(parser::parse("1 ^ 2"), None);
}

#[test]
fn rejects_trailing_junk() {
    assert_eq!(parser::parse("1 + 2 extra"), None);
}

#[test]
fn full_arithmetic_roundtrip() {
    assert_eq!(add(1, 2), 3);
    assert_eq!(sub(3, 1), 2);
    assert_eq!(mul(4, 5), 20);
    assert_eq!(div(10, 2), Some(5));
}

#[test]
fn eval_all_operators() {
    assert_eq!(eval("6 + 1"), Some(7));
    assert_eq!(eval("6 - 1"), Some(5));
    assert_eq!(eval("6 * 2"), Some(12));
    assert_eq!(eval("6 / 2"), Some(3));
}

#[test]
fn div_by_zero_is_none() {
    assert_eq!(div(5, 0), None);
    assert_eq!(eval("5 / 0"), None);
}

#[test]
fn parser_roundtrips_every_op() {
    assert_eq!(parser::parse("1 + 2"), Some((1, Op::Add, 2)));
    assert_eq!(parser::parse("1 - 2"), Some((1, Op::Sub, 2)));
    assert_eq!(parser::parse("1 * 2"), Some((1, Op::Mul, 2)));
    assert_eq!(parser::parse("1 / 2"), Some((1, Op::Div, 2)));
}

#[test]
fn div_truncates_toward_zero() {
    assert_eq!(div(-7, 2), Some(-3));
    assert_eq!(div(7, -2), Some(-3));
    assert_eq!(div(i64::MIN, 1), Some(i64::MIN));
}

#[test]
fn parse_negative_operands() {
    assert_eq!(parser::parse("-3 * 4"), Some((-3, Op::Mul, 4)));
    assert_eq!(eval("-3 * 4"), Some(-12));
    assert_eq!(parser::parse("  7   -  2  "), Some((7, Op::Sub, 2)));
    assert_eq!(parser::parse("1 +"), None);
}

#[test]
fn rendered_expressions_read_back() {
    let ops = [(Op::Add, "+"), (Op::Sub, "-"), (Op::Mul, "*"), (Op::Div, "/")];
    let values = [i64::MIN, -1, 0, 9, 10, 1234567890, i64::MAX];
    for (op, sym) in ops {
        for a in values {
            for b in values {
                let plain = format!("{a} {sym} {b}");
                assert_eq!(parser::parse(&plain), Some((a, op, b)));
                let spaced = format!("  {a}  {sym}  {b} ");
                assert_eq!(parser::parse(&spaced), Some((a, op, b)));
            }
        }
    }
}
