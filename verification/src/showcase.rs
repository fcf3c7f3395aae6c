//! One function per line category the report can show, so that a report of
//! this module doubles as a visual legend.

use vstd::prelude::*;
use crate::text::{chars_of, parse_u32_in, parse_unsigned};
use vstd::string::StringSliceAdditionalSpecFns;

verus! {

/// Plain arithmetic.
pub fn add(a: i32, b: i32) -> (r: i32)
    requires
        i32::MIN <= a + b <= i32::MAX,
    ensures
        r == a + b,
{
    a + b
}

/// The FizzBuzz word for `n`.
pub open spec fn fizzbuzz_spec(n: u32) -> Seq<char> {
    if n % 15 == 0 {
        "FizzBuzz"@
    } else if n % 3 == 0 {
        "Fizz"@
    } else if n % 5 == 0 {
        "Buzz"@
    } else {
        "number"@
    }
}

/// FizzBuzz.
pub fn fizzbuzz(n: u32) -> (r: &'static str)
    ensures
        r@ == fizzbuzz_spec(n),
{
    if n % 15 == 0 {
        "FizzBuzz"
    } else if n % 3 == 0 {
        "Fizz"
    } else if n % 5 == 0 {
        "Buzz"
    } else {
        "number"
    }
}

/// The grade for a score.
pub open spec fn classify_spec(score: u32) -> Seq<char> {
    if score >= 90 {
        "A"@
    } else if score >= 80 {
        "B"@
    } else {
        "C or below"@
    }
}

/// Grades a score.
pub fn classify(score: u32) -> (r: &'static str)
    ensures
        r@ == classify_spec(score),
{
    if score >= 90 {
        "A"
    } else if score >= 80 {
        "B"
    } else {
        "C or below"
    }
}

/// The color named by a traffic-light code.
pub open spec fn traffic_light_spec(code: u8) -> Seq<char> {
    if code == 82 {
        "red"@
    } else if code == 71 {
        "green"@
    } else {
        "yellow"@
    }
}

/// The color of a traffic-light code; only `R`, `G` and `Y` are valid.
pub fn traffic_light(code: u8) -> (r: &'static str)
    requires
        code == 82 || code == 71 || code == 89,
    ensures
        r@ == traffic_light_spec(code),
{
    if code == 82 {
        "red"
    } else if code == 71 {
        "green"
    } else {
        "yellow"
    }
}

/// Twice `x`.
pub fn double(x: i32) -> (r: i32)
    requires
        i32::MIN <= 2 * x <= i32::MAX,
    ensures
        r == 2 * x,
{
    x * 2
}

/// The number `s` denotes; `s` must parse as a `u32`.
pub fn force_parse(s: &str) -> (r: u32)
    requires
        parse_unsigned(s@, u32::MAX as nat) is Some,
    ensures
        parse_unsigned(s@, u32::MAX as nat) == Some(r as nat),
{
    let cs = chars_of(s);
    assert(cs@.subrange(0, cs@.len() as int) =~= s@);
    match parse_u32_in(cs.as_slice(), 0, cs.len()) {
        Some(v) => v,
        None => 0,
    }
}

/// The first half (by bytes) of `s`; the middle must fall on a character
/// boundary.
pub fn first_half(s: &str) -> (r: &str)
    requires
        s.spec_bytes().len() <= usize::MAX,
        vstd::utf8::is_char_boundary(s.spec_bytes(), (s.spec_bytes().len() / 2) as int),
    ensures
        r.spec_bytes() == s.spec_bytes().subrange(0, (s.spec_bytes().len() / 2) as int),
{
    let mid = s.len() / 2;
    let (a, _) = s.split_at(mid);
    a
}

/// The value carried by `input`, which must be present.
pub fn parse_or_die(input: Option<u32>) -> (r: u32)
    requires
        input is Some,
    ensures
        input == Some(r),
{
    match input {
        Some(v) => v,
        None => 0,
    }
}

/// Handles `kind == 0`; other kinds are not implemented.
pub fn variant_handler(kind: u8, n: u32) -> (r: u32)
    requires
        kind == 0,
    ensures
        r == n,
{
    n
}

/// The byte length of `k`, as a `u32` (truncated to its low 32 bits).
pub fn noisy_default(k: &str) -> (r: u32)
    requires
        k.spec_bytes().len() <= usize::MAX,
    ensures
        r == k.spec_bytes().len() % 0x1_0000_0000,
{
    let len = k.len() as u64;
    let scratch = (len % 0x1_0000_0000) as u32;
    scratch
}

/// FizzBuzz by divisibility: `"FizzBuzz"` for every multiple of both 3
/// and 5, `"Fizz"` for the other multiples of 3, `"Buzz"` for the other
/// multiples of 5, and `"number"` for everything else.
pub proof fn law_fizzbuzz_by_divisibility(n: u32)
    ensures
        n % 3 == 0 && n % 5 == 0 ==> fizzbuzz_spec(n) == "FizzBuzz"@,
        n % 3 == 0 && n % 5 != 0 ==> fizzbuzz_spec(n) == "Fizz"@,
        n % 3 != 0 && n % 5 == 0 ==> fizzbuzz_spec(n) == "Buzz"@,
        n % 3 != 0 && n % 5 != 0 ==> fizzbuzz_spec(n) == "number"@,
{
    let m = n as int;
    assert((m % 15 == 0) <==> (m % 3 == 0 && m % 5 == 0)) by (nonlinear_arith)
        requires
            m >= 0,
    {
        let q = m / 15;
        let r = m % 15;
        assert(m == 15 * q + r);
        assert(0 <= r < 15);
        assert(m % 3 == r % 3);
        assert(m % 5 == r % 5);
    }
}

/// Grades by score bands: 90 and above is `"A"`, 80 to 89 is `"B"`, below
/// 80 is `"C or below"`; a higher score never gets a lower grade.
pub proof fn law_grade_bands(score: u32, other: u32)
    ensures
        score >= 90 ==> classify_spec(score) == "A"@,
        80 <= score < 90 ==> classify_spec(score) == "B"@,
        score < 80 ==> classify_spec(score) == "C or below"@,
        classify_spec(score) == "A"@ && other >= score ==> classify_spec(other) == "A"@,
{
    reveal_strlit("A");
    reveal_strlit("B");
    reveal_strlit("C or below");
}

/// The traffic-light codes are the letters of the colors: `R` is red, `G`
/// is green, `Y` is yellow.
pub proof fn law_traffic_light_letters(code: u8)
    ensures
        code == 'R' as u8 ==> traffic_light_spec(code) == "red"@,
        code == 'G' as u8 ==> traffic_light_spec(code) == "green"@,
        code == 'Y' as u8 ==> traffic_light_spec(code) == "yellow"@,
{
}

} // verus!
