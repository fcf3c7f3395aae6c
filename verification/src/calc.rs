//! A tiny arithmetic library: integer operations and the evaluation of
//! `"a OP b"` strings.

pub mod parser;

use vstd::prelude::*;
use crate::calc::parser::{parse, parse_spec, Op};

verus! {

/// Sum; the caller keeps it inside `i64`.
pub fn add(a: i64, b: i64) -> (r: i64)
    requires
        i64::MIN <= a + b <= i64::MAX,
    ensures
        r == a + b,
{
    a + b
}

/// Difference; the caller keeps it inside `i64`.
pub fn sub(a: i64, b: i64) -> (r: i64)
    requires
        i64::MIN <= a - b <= i64::MAX,
    ensures
        r == a - b,
{
    a - b
}

/// Product; the caller keeps it inside `i64`.
pub fn mul(a: i64, b: i64) -> (r: i64)
    requires
        i64::MIN <= a * b <= i64::MAX,
    ensures
        r == a * b,
{
    a * b
}

/// Division rounding toward zero, as Rust's `/` does.
pub open spec fn trunc_div(a: int, b: int) -> int {
    let q = (if a < 0 {
        -a
    } else {
        a
    }) / (if b < 0 {
        -b
    } else {
        b
    });
    if (a < 0) != (b < 0) {
        -q
    } else {
        q
    }
}

/// Returns `None` on division by zero, else the quotient rounded toward
/// zero; `i64::MIN / -1` does not fit and is left out.
pub fn div(a: i64, b: i64) -> (r: Option<i64>)
    requires
        !(a == i64::MIN && b == -1),
    ensures
        b == 0 ==> r is None,
        b != 0 ==> r == Some(trunc_div(a as int, b as int) as i64),
{
    if b == 0 {
        return None;
    }
    let ua: u128 = if a < 0 {
        (0i128 - a as i128) as u128
    } else {
        a as u128
    };
    let ub: u128 = if b < 0 {
        (0i128 - b as i128) as u128
    } else {
        b as u128
    };
    let uq = ua / ub;
    proof {
        assert(uq <= ua) by (nonlinear_arith)
            requires
                ub >= 1,
                uq == ua / ub,
        ;
        if uq == ua && ua == 0x8000_0000_0000_0000 {
            assert(ub == 1) by (nonlinear_arith)
                requires
                    ub >= 1,
                    uq == ua / ub,
                    uq == ua,
                    ua > 0,
            ;
        }
    }
    let q: i128 = if (a < 0) != (b < 0) {
        0i128 - uq as i128
    } else {
        uq as i128
    };
    Some(q as i64)
}

/// The value of `a op b`, `None` for a division by zero.
pub open spec fn apply(a: int, op: Op, b: int) -> Option<int> {
    match op {
        Op::Add => Some(a + b),
        Op::Sub => Some(a - b),
        Op::Mul => Some(a * b),
        Op::Div => if b == 0 {
            None
        } else {
            Some(trunc_div(a, b))
        },
    }
}

/// `a op b` is computed without overflow.
pub open spec fn fits(a: int, op: Op, b: int) -> bool {
    match apply(a, op, b) {
        Some(v) => i64::MIN <= v <= i64::MAX,
        None => true,
    }
}

/// What `eval` returns for `expr`.
pub open spec fn eval_spec(expr: Seq<char>) -> Option<int> {
    match parse_spec(expr) {
        Some((a, op, b)) => apply(a as int, op, b as int),
        None => None,
    }
}

/// Evaluates `"a OP b"` strings; `None` when the text does not parse or
/// divides by zero. Overflowing expressions are left out.
pub fn eval(expr: &str) -> (r: Option<i64>)
    requires
        parse_spec(expr@) matches Some((a, op, b)) ==> fits(a as int, op, b as int),
    ensures
        match r {
            Some(v) => eval_spec(expr@) == Some(v as int),
            None => eval_spec(expr@) is None,
        },
{
    let (a, op, b) = match parse(expr) {
        Some(t) => t,
        None => return None,
    };
    let r = match op {
        Op::Add => self::add(a, b),
        Op::Sub => self::sub(a, b),
        Op::Mul => self::mul(a, b),
        Op::Div => match div(a, b) {
            Some(v) => v,
            None => return None,
        },
    };
    Some(r)
}

} // verus!
