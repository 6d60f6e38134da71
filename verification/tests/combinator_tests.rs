use regex_combinators::combinators::{achar, alt, char_range, dot, empty, maybe, star};
use regex_combinators::Regex;

#[test]
fn tests() {
    let mut zero = achar('0');
    assert!(!zero.is_match(""));
    assert!(zero.is_match("0"));
    assert!(!zero.is_match("1"));
    assert!(!zero.is_match("00"));
    assert!(!zero.is_match("01"));
    assert!(!zero.is_match("10"));

    let mut digit = char_range('0', '1');
    assert!(!digit.is_match(""));
    assert!(digit.is_match("0"));
    assert!(digit.is_match("1"));
    assert!(!digit.is_match("2"));
    assert!(!digit.is_match("01"));
    assert!(!digit.is_match("00"));

    let mut zeroes = star(achar('0'));
    assert!(zeroes.is_match(""));
    assert!(zeroes.is_match("0"));
    assert!(zeroes.is_match("00"));
    assert!(!zeroes.is_match("1"));
    assert!(!zeroes.is_match("01"));
    assert!(!zeroes.is_match("0010"));

    let mut oh_one = regex_combinators::combinators::seq(achar('0'), achar('1'));
    assert!(oh_one.is_match("01"));

    let mut integer = alt(
        achar('0'),
        regex_combinators::combinators::seq(achar('1'), star(char_range('0', '1'))),
    );
    assert!(integer.is_match("0"));
    assert!(!integer.is_match("2"));
    assert!(integer.is_match("10"));
    assert!(!integer.is_match("01"));
    assert!(integer.is_match("1101001"));
    assert!(!integer.is_match("0101001"));
    assert!(!integer.is_match("1101021"));
}

#[test]
fn empty_matches_only_empty() {
    let mut pat = empty();
    assert!(pat.is_match(""));
    assert!(!pat.is_match("a"));
    assert!(!pat.is_match(" "));
    assert!(!pat.is_match("ab"));
}

#[test]
fn dot_matches_any_single_char() {
    let mut pat = dot();
    assert!(!pat.is_match(""));
    assert!(pat.is_match("a"));
    assert!(pat.is_match("0"));
    assert!(pat.is_match("\u{00e9}"));
    assert!(!pat.is_match("ab"));
}

#[test]
fn maybe_matches_empty_or_one() {
    let mut pat = maybe(achar('a'));
    assert!(pat.is_match(""));
    assert!(pat.is_match("a"));
    assert!(!pat.is_match("aa"));
    assert!(!pat.is_match("b"));
}

#[test]
fn inverted_range_matches_nothing() {
    let mut pat = char_range('9', '0');
    assert!(!pat.is_match(""));
    assert!(!pat.is_match("0"));
    assert!(!pat.is_match("5"));
    assert!(!pat.is_match("9"));
}

#[test]
fn seq_splits_anywhere() {
    let mut pat = regex_combinators::combinators::seq(star(achar('a')), achar('b'));
    assert!(pat.is_match("b"));
    assert!(pat.is_match("ab"));
    assert!(pat.is_match("aaab"));
    assert!(!pat.is_match("a"));
    assert!(!pat.is_match("ba"));
    assert!(!pat.is_match(""));

    let mut seeded = regex_combinators::combinators::seq(empty(), achar('x'));
    assert!(seeded.is_match("x"));
    assert!(!seeded.is_match(""));
    assert!(!seeded.is_match("xx"));
}

#[test]
fn star_restarts_after_each_repetition() {
    let mut pat = star(regex_combinators::combinators::seq(achar('a'), maybe(achar('b'))));
    assert!(pat.is_match(""));
    assert!(pat.is_match("a"));
    assert!(pat.is_match("ab"));
    assert!(pat.is_match("aab"));
    assert!(pat.is_match("abab"));
    assert!(pat.is_match("abaab"));
    assert!(!pat.is_match("b"));
    assert!(!pat.is_match("abb"));
}

#[test]
fn decimal_number_pattern() {
    let integer = alt(
        achar('0'),
        regex_combinators::combinators::seq(char_range('1', '9'), star(char_range('0', '9'))),
    );
    let tail = regex_combinators::combinators::seq(achar('.'), star(char_range('0', '9')));
    let mut decimal = regex_combinators::combinators::seq(integer, maybe(tail));
    assert!(decimal.is_match("0"));
    assert!(decimal.is_match("42"));
    assert!(decimal.is_match("3.14"));
    assert!(decimal.is_match("10."));
    assert!(!decimal.is_match("007"));
    assert!(!decimal.is_match(".5"));
    assert!(!decimal.is_match("1.2.3"));
    assert!(decimal.is_match("31415926535897932384626.4338327950288419716939937"));
    assert!(!decimal.is_match("31415926535897932384626.4338327.95028841971693993"));
}
