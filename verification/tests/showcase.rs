//! The showcase functions, hit along the paths that give each line
//! category its colour.

use testmap::showcase::{
    add, classify, double, first_half, fizzbuzz, force_parse, noisy_default, parse_or_die,
    traffic_light, variant_handler,
};

#[test]
fn covered_and_not() {
    assert_eq!(add(2, 3), 5);
    assert_eq!(fizzbuzz(3), "Fizz");
    assert_eq!(fizzbuzz(1), "number");
}

#[test]
fn excluded_examples() {
    assert_eq!(classify(95), "A");
    assert_eq!(classify(50), "C or below");
    assert_eq!(traffic_light(b'R'), "red");
    assert_eq!(traffic_light(b'G'), "green");
    assert_eq!(traffic_light(b'Y'), "yellow");
}

#[test]
fn showcase_excluded_but_covered_is_pink() {
    assert_eq!(double(21), 42);
}

#[test]
fn ignored_panic_sites() {
    assert_eq!(force_parse("42"), 42);
    assert_eq!(first_half("hello"), "he");
    assert_eq!(parse_or_die(Some(7)), 7);
    assert_eq!(variant_handler(0, 9), 9);
    assert_eq!(noisy_default("ab"), 2);
}

#[test]
fn showcase_other_arms() {
    assert_eq!(fizzbuzz(15), "FizzBuzz");
    assert_eq!(fizzbuzz(5), "Buzz");
    assert_eq!(classify(85), "B");
    assert_eq!(first_half(""), "");
    assert_eq!(noisy_default(""), 0);
}
