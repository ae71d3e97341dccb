//! The grammar of an observation: the text forms that stand for a decimal
//! number.
//!
//! ```text
//! literal  ::= sign? ( "inf" | "infinity" | "nan" | number )
//! number   ::= ( digit+ | digit+ "." digit* | digit* "." digit+ ) exponent?
//! exponent ::= ( "e" | "E" ) sign? digit+
//! sign     ::= "+" | "-"
//! ```
//!
//! The three words are matched without regard to case. Nothing may come
//! before or after a literal: no blank, no underscore, no suffix.

use crate::text::{all_digits, find_byte, find_either, first_index, first_of, only_digits};
use crate::text::{DOT, MINUS, PLUS};
use vstd::prelude::*;
use vstd::slice::slice_subrange;

verus! {

pub const LOWER_E: u8 = 0x65;

pub const UPPER_E: u8 = 0x45;

/// `s` without a leading `+` or `-`.
pub open spec fn without_sign(s: Seq<u8>) -> Seq<u8> {
    if s.len() > 0 && (s[0] == PLUS || s[0] == MINUS) {
        s.skip(1)
    } else {
        s
    }
}

/// `b` with an ASCII capital replaced by its small letter.
pub open spec fn lowered(b: u8) -> u8 {
    if 0x41 <= b <= 0x5a {
        (b + 0x20) as u8
    } else {
        b
    }
}

/// Whether `s` spells `word`, a word in small letters, in any mix of cases.
pub open spec fn spells(s: Seq<u8>, word: Seq<u8>) -> bool {
    s.len() == word.len() && forall|i: int| 0 <= i < s.len() ==> lowered(#[trigger] s[i]) == word[i]
}

/// The letters of `inf`.
pub open spec fn word_inf() -> Seq<u8> {
    seq![0x69u8, 0x6eu8, 0x66u8]
}

/// The letters of `nan`.
pub open spec fn word_nan() -> Seq<u8> {
    seq![0x6eu8, 0x61u8, 0x6eu8]
}

/// The letters of `infinity`.
pub open spec fn word_infinity() -> Seq<u8> {
    seq![0x69u8, 0x6eu8, 0x66u8, 0x69u8, 0x6eu8, 0x69u8, 0x74u8, 0x79u8]
}

/// Whether `s` is one of the three words that stand for no finite number.
pub open spec fn special_word(s: Seq<u8>) -> bool {
    spells(s, word_inf()) || spells(s, word_nan()) || spells(s, word_infinity())
}

/// Whether `s` is digits with at most one point among them, and at least one
/// digit on one side of it.
pub open spec fn mantissa(s: Seq<u8>) -> bool {
    let point = first_index(s, DOT);
    let whole = s.take(point);
    let fraction = if point < s.len() {
        s.skip(point + 1)
    } else {
        Seq::<u8>::empty()
    };
    all_digits(whole) && all_digits(fraction) && whole.len() + fraction.len() > 0
}

/// Whether `s`, the text after an exponent mark, is an optional sign and at
/// least one digit.
pub open spec fn exponent(s: Seq<u8>) -> bool {
    without_sign(s).len() > 0 && all_digits(without_sign(s))
}

/// Whether `s` is a mantissa, followed or not by an exponent mark and an
/// exponent.
pub open spec fn unsigned_number(s: Seq<u8>) -> bool {
    let mark = first_of(s, LOWER_E, UPPER_E);
    mantissa(s.take(mark)) && (mark < s.len() ==> exponent(s.skip(mark + 1)))
}

/// Whether `s` is a literal of the grammar.
pub open spec fn numeric_literal(s: Seq<u8>) -> bool {
    special_word(without_sign(s)) || unsigned_number(without_sign(s))
}

/// Gives `b` with an ASCII capital replaced by its small letter.
pub fn to_lower(b: u8) -> (r: u8)
    ensures
        r == lowered(b),
{
    if 0x41 <= b && b <= 0x5a {
        b + 0x20
    } else {
        b
    }
}

/// Drops a leading `+` or `-`.
pub fn strip_sign(s: &[u8]) -> (r: &[u8])
    ensures
        r@ == without_sign(s@),
{
    if s.len() > 0 && (s[0] == PLUS || s[0] == MINUS) {
        let rest = slice_subrange(s, 1, s.len());
        assert(rest@ == s@.skip(1));
        rest
    } else {
        s
    }
}

/// Tells whether `s` is `inf`, `nan` or `infinity` in any mix of cases.
pub fn is_special_word(s: &[u8]) -> (ok: bool)
    ensures
        ok == special_word(s@),
{
    if s.len() == 3 {
        let a = to_lower(s[0]);
        let b = to_lower(s[1]);
        let c = to_lower(s[2]);
        let inf = a == 0x69 && b == 0x6e && c == 0x66;
        let nan = a == 0x6e && b == 0x61 && c == 0x6e;
        assert(inf == spells(s@, word_inf()));
        assert(nan == spells(s@, word_nan()));
        inf || nan
    } else if s.len() == 8 {
        let ok = to_lower(s[0]) == 0x69 && to_lower(s[1]) == 0x6e && to_lower(s[2]) == 0x66
            && to_lower(s[3]) == 0x69 && to_lower(s[4]) == 0x6e && to_lower(s[5]) == 0x69
            && to_lower(s[6]) == 0x74 && to_lower(s[7]) == 0x79;
        assert(ok == spells(s@, word_infinity()));
        ok
    } else {
        false
    }
}

/// Tells whether `s` is a mantissa.
pub fn is_mantissa(s: &[u8]) -> (ok: bool)
    ensures
        ok == mantissa(s@),
{
    let point = find_byte(s, DOT);
    let whole = slice_subrange(s, 0, point);
    assert(whole@ == s@.take(point as int));
    if !only_digits(whole) {
        return false;
    }
    if point < s.len() {
        let fraction = slice_subrange(s, point + 1, s.len());
        assert(fraction@ == s@.skip(point + 1));
        only_digits(fraction) && whole.len() + fraction.len() > 0
    } else {
        whole.len() > 0
    }
}

/// Tells whether `s` is an exponent.
pub fn is_exponent(s: &[u8]) -> (ok: bool)
    ensures
        ok == exponent(s@),
{
    let digits = strip_sign(s);
    digits.len() > 0 && only_digits(digits)
}

/// Tells whether `s` is a literal of the grammar.
pub fn is_numeric_literal(s: &[u8]) -> (ok: bool)
    ensures
        ok == numeric_literal(s@),
{
    let body = strip_sign(s);
    if is_special_word(body) {
        return true;
    }
    let mark = find_either(body, LOWER_E, UPPER_E);
    let head = slice_subrange(body, 0, mark);
    assert(head@ == body@.take(mark as int));
    if !is_mantissa(head) {
        return false;
    }
    if mark < body.len() {
        let tail = slice_subrange(body, mark + 1, body.len());
        assert(tail@ == body@.skip(mark + 1));
        is_exponent(tail)
    } else {
        true
    }
}

} // verus!
