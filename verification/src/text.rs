//! Text as bytes: where a byte first occurs, how a line splits at a
//! separator, and what decimal number a run of digits writes.

use vstd::prelude::*;
use vstd::slice::slice_subrange;
use vstd::string::StringSliceAdditionalSpecFns;
use vstd::utf8::valid_utf8;

verus! {

pub const SLASH: u8 = 0x2f;

pub const PLUS: u8 = 0x2b;

pub const MINUS: u8 = 0x2d;

pub const DOT: u8 = 0x2e;

pub const DIGIT_ZERO: u8 = 0x30;

pub const DIGIT_NINE: u8 = 0x39;

/// The largest magnitude that the number readers tell apart: a number beyond
/// it is reported as the limit itself.
pub const DECIMAL_LIMIT: i64 = 1_000_000_000;

/// The bytes as text, where they are well-formed UTF-8. `std::str::from_utf8`
/// accepts exactly the well-formed sequences and hands back the same bytes,
/// now typed as text.
#[verifier::external_body]
pub(crate) fn utf8_text(bytes: &[u8]) -> (r: Option<&str>)
    ensures
        r is Some == valid_utf8(bytes@),
        r matches Some(s) ==> s.spec_bytes() == bytes@,
{
    std::str::from_utf8(bytes).ok()
}

/// How many items at the front of `s` satisfy `keep`, up to the first that
/// does not.
pub open spec fn leading_count<A>(s: Seq<A>, keep: spec_fn(A) -> bool) -> int
    decreases s.len(),
{
    if s.len() == 0 || !keep(s[0]) {
        0
    } else {
        1 + leading_count(s.drop_first(), keep)
    }
}

/// `leading_count` is the one position that everything before satisfies
/// `keep` and that is the end or an item that fails it.
pub proof fn lemma_leading_count<A>(s: Seq<A>, keep: spec_fn(A) -> bool, k: int)
    requires
        0 <= k <= s.len(),
        forall|j: int| 0 <= j < k ==> keep(#[trigger] s[j]),
        k < s.len() ==> !keep(s[k]),
    ensures
        leading_count(s, keep) == k,
    decreases s.len(),
{
    if k > 0 {
        let rest = s.drop_first();
        assert(keep(s[0]));
        assert forall|j: int| 0 <= j < k - 1 implies keep(#[trigger] rest[j]) by {
            assert(rest[j] == s[j + 1]);
        }
        lemma_leading_count(rest, keep, k - 1);
    }
}

/// The bounds of `leading_count`, and what holds on either side of it.
pub proof fn lemma_leading_count_bounds<A>(s: Seq<A>, keep: spec_fn(A) -> bool)
    ensures
        0 <= leading_count(s, keep) <= s.len(),
        forall|j: int| 0 <= j < leading_count(s, keep) ==> keep(#[trigger] s[j]),
        leading_count(s, keep) < s.len() ==> !keep(s[leading_count(s, keep)]),
    decreases s.len(),
{
    if s.len() > 0 && keep(s[0]) {
        let rest = s.drop_first();
        lemma_leading_count_bounds(rest, keep);
        assert forall|j: int| 0 <= j < leading_count(s, keep) implies keep(#[trigger] s[j]) by {
            if j > 0 {
                assert(s[j] == rest[j - 1]);
            }
        }
    }
}

/// The test that a byte is neither `a` nor `b`.
pub open spec fn neither(a: u8, b: u8) -> spec_fn(u8) -> bool {
    |x: u8| x != a && x != b
}

/// The index of the first `a` or `b` in `s`, or the length of `s` where it
/// holds neither.
pub open spec fn first_of(s: Seq<u8>, a: u8, b: u8) -> int {
    leading_count(s, neither(a, b))
}

/// The index of the first `b` in `s`, or the length of `s` where there is none.
pub open spec fn first_index(s: Seq<u8>, b: u8) -> int {
    first_of(s, b, b)
}

/// Finds the first `a` or `b` in `s`.
pub fn find_either(s: &[u8], a: u8, b: u8) -> (i: usize)
    ensures
        i == first_of(s@, a, b),
        i <= s@.len(),
        i < s@.len() ==> s@[i as int] == a || s@[i as int] == b,
{
    let mut i: usize = 0;
    while i < s.len() && s[i] != a && s[i] != b
        invariant
            i <= s@.len(),
            forall|j: int| 0 <= j < i ==> #[trigger] s@[j] != a && s@[j] != b,
        decreases s@.len() - i,
    {
        i += 1;
    }
    proof {
        lemma_leading_count(s@, neither(a, b), i as int);
    }
    i
}

/// Finds the first `b` in `s`.
pub fn find_byte(s: &[u8], b: u8) -> (i: usize)
    ensures
        i == first_index(s@, b),
        i <= s@.len(),
        i < s@.len() ==> s@[i as int] == b,
{
    find_either(s, b, b)
}

/// The pieces of `s` between occurrences of `sep`: one more than there are
/// separators, empty pieces included.
pub open spec fn split(s: Seq<u8>, sep: u8) -> Seq<Seq<u8>>
    decreases s.len(),
{
    let i = first_index(s, sep);
    if 0 <= i < s.len() {
        seq![s.take(i)] + split(s.skip(i + 1), sep)
    } else {
        seq![s]
    }
}

/// Whether `b` is one of the ten ASCII digits.
pub open spec fn is_digit(b: u8) -> bool {
    DIGIT_ZERO <= b <= DIGIT_NINE
}

/// Whether `s` holds digits and nothing else. The empty text does.
pub open spec fn all_digits(s: Seq<u8>) -> bool {
    forall|i: int| 0 <= i < s.len() ==> is_digit(#[trigger] s[i])
}

/// The number that the digits of `s` write in base ten; leading zeros count
/// for nothing, and the empty text writes 0.
pub open spec fn digits_value(s: Seq<u8>) -> nat
    decreases s.len(),
{
    if s.len() == 0 {
        0
    } else {
        (10 * digits_value(s.drop_last()) + (s.last() - DIGIT_ZERO)) as nat
    }
}

/// `v` held within `-DECIMAL_LIMIT..=DECIMAL_LIMIT`.
pub open spec fn capped(v: int) -> int {
    if v > DECIMAL_LIMIT {
        DECIMAL_LIMIT as int
    } else if v < -DECIMAL_LIMIT {
        -DECIMAL_LIMIT
    } else {
        v
    }
}

/// The number written by an optional `+` and at least one digit.
pub open spec fn unsigned_decimal(s: Seq<u8>) -> Option<int> {
    let digits = if s.len() > 0 && s[0] == PLUS {
        s.skip(1)
    } else {
        s
    };
    if digits.len() > 0 && all_digits(digits) {
        Some(digits_value(digits) as int)
    } else {
        None
    }
}

/// The number written by an optional `+` or `-` and at least one digit.
pub open spec fn signed_decimal(s: Seq<u8>) -> Option<int> {
    if s.len() > 0 && s[0] == MINUS {
        let digits = s.skip(1);
        if digits.len() > 0 && all_digits(digits) {
            Some(-(digits_value(digits) as int))
        } else {
            None
        }
    } else {
        unsigned_decimal(s)
    }
}

/// Tells whether `s` holds only digits.
pub fn only_digits(s: &[u8]) -> (ok: bool)
    ensures
        ok == all_digits(s@),
{
    let mut i: usize = 0;
    while i < s.len()
        invariant
            i <= s@.len(),
            forall|j: int| 0 <= j < i ==> is_digit(#[trigger] s@[j]),
        decreases s@.len() - i,
    {
        if s[i] < DIGIT_ZERO || s[i] > DIGIT_NINE {
            assert(!is_digit(s@[i as int]));
            return false;
        }
        i += 1;
    }
    true
}

/// Reads a run of at least one digit. The result is `None` where `s` is empty
/// or holds anything else, and otherwise its value, or `DECIMAL_LIMIT` where
/// the value is larger.
pub fn read_digits(s: &[u8]) -> (r: Option<i64>)
    ensures
        r == if s@.len() > 0 && all_digits(s@) {
            Some(capped(digits_value(s@) as int) as i64)
        } else {
            None
        },
{
    if s.len() == 0 {
        return None;
    }
    let mut value: i64 = 0;
    let mut i: usize = 0;
    while i < s.len()
        invariant
            i <= s@.len(),
            forall|j: int| 0 <= j < i ==> is_digit(#[trigger] s@[j]),
            value == capped(digits_value(s@.take(i as int)) as int),
            0 <= value <= DECIMAL_LIMIT,
        decreases s@.len() - i,
    {
        let b = s[i];
        if b < DIGIT_ZERO || b > DIGIT_NINE {
            assert(!is_digit(s@[i as int]));
            return None;
        }
        proof {
            let next = s@.take(i + 1);
            assert(next.drop_last() == s@.take(i as int));
            assert(next.last() == b);
        }
        let grown: i64 = value * 10 + (b - DIGIT_ZERO) as i64;
        value = if grown > DECIMAL_LIMIT {
            DECIMAL_LIMIT
        } else {
            grown
        };
        i += 1;
    }
    assert(s@.take(i as int) == s@);
    Some(value)
}

/// Reads an optional `+` and at least one digit; a value beyond
/// `DECIMAL_LIMIT` is reported as the limit.
pub fn parse_unsigned(s: &[u8]) -> (r: Option<i64>)
    ensures
        r == match unsigned_decimal(s@) {
            Some(v) => Some(capped(v) as i64),
            None => None,
        },
{
    if s.len() > 0 && s[0] == PLUS {
        let digits = slice_subrange(s, 1, s.len());
        assert(digits@ == s@.skip(1));
        read_digits(digits)
    } else {
        read_digits(s)
    }
}

/// Reads an optional `+` or `-` and at least one digit; a value beyond
/// `DECIMAL_LIMIT` on either side is reported as the limit of that side.
pub fn parse_signed(s: &[u8]) -> (r: Option<i64>)
    ensures
        r == match signed_decimal(s@) {
            Some(v) => Some(capped(v) as i64),
            None => None,
        },
{
    if s.len() > 0 && s[0] == MINUS {
        let digits = slice_subrange(s, 1, s.len());
        assert(digits@ == s@.skip(1));
        match read_digits(digits) {
            Some(v) => Some(-v),
            None => None,
        }
    } else {
        parse_unsigned(s)
    }
}

/// A text always splits into at least one piece.
pub proof fn lemma_split_nonempty(s: Seq<u8>, sep: u8)
    ensures
        split(s, sep).len() >= 1,
    decreases s.len(),
{
    lemma_leading_count_bounds(s, neither(sep, sep));
    let i = first_index(s, sep);
    if 0 <= i < s.len() {
        lemma_split_nonempty(s.skip(i + 1), sep);
    }
}

} // verus!
