//! The text forms of integers and booleans.

use crate::container::BuiltInType;
use crate::text::bytes_eq;
use vstd::prelude::*;

verus! {

pub open spec fn is_digit(b: u8) -> bool {
    0x30 <= b <= 0x39
}

pub open spec fn all_digits(s: Seq<u8>) -> bool {
    forall|i: int| 0 <= i < s.len() ==> is_digit(#[trigger] s[i])
}

/// The value of one decimal digit; 0 for any other byte.
pub open spec fn digit_value(b: u8) -> nat {
    if is_digit(b) {
        (b - 0x30) as nat
    } else {
        0
    }
}

/// The number that a string of decimal digits writes.
pub open spec fn digits_value(s: Seq<u8>) -> nat
    decreases s.len(),
{
    if s.len() == 0 {
        0
    } else {
        digits_value(s.drop_last()) * 10 + digit_value(s.last())
    }
}

/// The number that a non-empty string of decimal digits writes.
pub open spec fn unsigned_of_text(s: Seq<u8>) -> Option<int> {
    if s.len() > 0 && all_digits(s) {
        Some(digits_value(s) as int)
    } else {
        None
    }
}

/// The integer that `s` writes: decimal digits behind an optional plus sign
/// or, where `signed` holds, an optional minus sign.
pub open spec fn integer_of_text(s: Seq<u8>, signed: bool) -> Option<int> {
    if s.len() > 0 && s[0] == 0x2b {
        unsigned_of_text(s.skip(1))
    } else if signed && s.len() > 0 && s[0] == 0x2d {
        match unsigned_of_text(s.skip(1)) {
            Some(v) => Some(-v),
            None => None,
        }
    } else {
        unsigned_of_text(s)
    }
}

/// The value of type `ty` that `s` writes, if `ty` is an integer type and `s`
/// writes an integer within its range.
pub open spec fn number_of_text(s: Seq<u8>, ty: BuiltInType) -> Option<int> {
    match integer_of_text(s, ty.spec_is_signed()) {
        Some(v) => if ty.spec_is_integer() && ty.spec_min() <= v <= ty.spec_max() {
            Some(v)
        } else {
            None
        },
        None => None,
    }
}

/// The decimal digits of `n`, without leading zeros.
pub open spec fn digits_of(n: nat) -> Seq<u8>
    decreases n,
{
    if n < 10 {
        seq![(0x30 + n) as u8]
    } else {
        digits_of(n / 10).push((0x30 + n % 10) as u8)
    }
}

/// The text form of an integer.
pub open spec fn text_of_integer(v: int) -> Seq<u8> {
    if v < 0 {
        seq![0x2du8] + digits_of((-v) as nat)
    } else {
        digits_of(v as nat)
    }
}

pub open spec fn true_text() -> Seq<u8> {
    seq![0x74u8, 0x72u8, 0x75u8, 0x65u8]
}

pub open spec fn false_text() -> Seq<u8> {
    seq![0x66u8, 0x61u8, 0x6cu8, 0x73u8, 0x65u8]
}

/// The boolean that `s` writes: `true` or `false`, in lower case.
pub open spec fn bool_of_text(s: Seq<u8>) -> Option<bool> {
    if s == true_text() {
        Some(true)
    } else if s == false_text() {
        Some(false)
    } else {
        None
    }
}

pub open spec fn text_of_bool(b: bool) -> Seq<u8> {
    if b {
        true_text()
    } else {
        false_text()
    }
}

proof fn lemma_digits_value_step(s: Seq<u8>, from: int, to: int)
    requires
        0 <= from <= to < s.len(),
    ensures
        digits_value(s.subrange(from, to + 1)) == digits_value(s.subrange(from, to)) * 10
            + digit_value(s[to]),
{
    let longer = s.subrange(from, to + 1);
    assert(longer.drop_last() =~= s.subrange(from, to));
}

proof fn lemma_digits_value_grows(s: Seq<u8>, k: int)
    requires
        0 <= k <= s.len(),
    ensures
        digits_value(s.take(k)) <= digits_value(s),
    decreases s.len() - k,
{
    if k < s.len() {
        lemma_digits_value_grows(s.drop_last(), k);
        assert(s.drop_last().take(k) =~= s.take(k));
    } else {
        assert(s.take(k) =~= s);
    }
}

/// Reads an integer of type `ty` from its text form.
pub fn parse_number(s: &[u8], ty: BuiltInType) -> (value: Option<i128>)
    ensures
        match number_of_text(s@, ty) {
            Some(v) => value == Some(v as i128) && ty.spec_min() <= v <= ty.spec_max(),
            None => value is None,
        },
{
    if !ty.is_integer() {
        return None;
    }
    let signed = ty.is_signed();
    let mut negative = false;
    let mut start: usize = 0;
    if s.len() > 0 && s[0] == 0x2b {
        start = 1;
    } else if signed && s.len() > 0 && s[0] == 0x2d {
        negative = true;
        start = 1;
    }
    if start == s.len() {
        return None;
    }
    let ghost body = s@.skip(start as int);
    let ghost whole = integer_of_text(s@, signed);
    assert(whole == match unsigned_of_text(body) {
        Some(v) => Some(if negative { -v } else { v }),
        None => None,
    }) by {
        if start == 0 {
            assert(body =~= s@);
        }
    }
    let limit: i128 = 0xffff_ffff_ffff_ffff;
    let mut acc: i128 = 0;
    let mut i: usize = start;
    while i < s.len()
        invariant
            start <= i <= s.len(),
            start < s.len(),
            body == s@.skip(start as int),
            ty.spec_is_integer(),
            signed == ty.spec_is_signed(),
            whole == integer_of_text(s@, signed),
            whole == match unsigned_of_text(body) {
                Some(v) => Some(if negative { -v } else { v }),
                None => None,
            },
            limit == 0xffff_ffff_ffff_ffff,
            0 <= acc <= limit,
            acc == digits_value(s@.subrange(start as int, i as int)),
            forall|j: int| start <= j < i ==> is_digit(#[trigger] s@[j]),
        decreases s.len() - i,
    {
        let d = s[i];
        if d < 0x30 || d > 0x39 {
            assert(!is_digit(body[i - start]));
            return None;
        }
        proof {
            lemma_digits_value_step(s@, start as int, i as int);
        }
        acc = acc * 10 + (d - 0x30) as i128;
        i += 1;
        if acc > limit {
            proof {
                lemma_digits_value_grows(body, i - start);
                assert(body.take(i - start) =~= s@.subrange(start as int, i as int));
            }
            return None;
        }
    }
    proof {
        assert(s@.subrange(start as int, s.len() as int) =~= body);
        assert(all_digits(body)) by {
            assert forall|j: int| 0 <= j < body.len() implies is_digit(#[trigger] body[j]) by {
                assert(body[j] == s@[j + start]);
            }
        }
    }
    let v = if negative {
        -acc
    } else {
        acc
    };
    if ty.min() <= v && v <= ty.max() {
        Some(v)
    } else {
        None
    }
}

/// Reads a boolean from its text form.
pub fn parse_bool(s: &[u8]) -> (value: Option<bool>)
    ensures
        value == bool_of_text(s@),
{
    let t: [u8; 4] = [0x74, 0x72, 0x75, 0x65];
    let f: [u8; 5] = [0x66, 0x61, 0x6c, 0x73, 0x65];
    assert(t@ =~= true_text());
    assert(f@ =~= false_text());
    if bytes_eq(s, t.as_slice()) {
        Some(true)
    } else if bytes_eq(s, f.as_slice()) {
        Some(false)
    } else {
        None
    }
}

fn push_digits(n: u128, out: &mut Vec<u8>)
    ensures
        final(out)@ == old(out)@ + digits_of(n as nat),
    decreases n,
{
    if n >= 10 {
        push_digits(n / 10, out);
    }
    let d: u8 = (n % 10) as u8;
    out.push(0x30 + d);
    proof {
        if n >= 10 {
            assert(final(out)@ =~= old(out)@ + digits_of(n as nat));
        } else {
            assert(final(out)@ =~= old(out)@ + digits_of(n as nat));
        }
    }
}

/// Writes an integer in its text form.
pub fn format_number(v: i128) -> (text: Vec<u8>)
    ensures
        text@ == text_of_integer(v as int),
{
    let mut text: Vec<u8> = Vec::new();
    if v < 0 {
        text.push(0x2d);
        let magnitude: u128 = (-(v + 1)) as u128 + 1;
        push_digits(magnitude, &mut text);
    } else {
        push_digits(v as u128, &mut text);
    }
    assert(text@ =~= text_of_integer(v as int));
    text
}

/// Writes a boolean in its text form.
pub fn format_bool(b: bool) -> (text: Vec<u8>)
    ensures
        text@ == text_of_bool(b),
{
    let mut text: Vec<u8> = Vec::new();
    if b {
        text.push(0x74);
        text.push(0x72);
        text.push(0x75);
        text.push(0x65);
    } else {
        text.push(0x66);
        text.push(0x61);
        text.push(0x6c);
        text.push(0x73);
        text.push(0x65);
    }
    assert(text@ =~= text_of_bool(b));
    text
}

proof fn lemma_digits_of(n: nat)
    ensures
        digits_of(n).len() > 0,
        all_digits(digits_of(n)),
        digits_value(digits_of(n)) == n,
    decreases n,
{
    if n >= 10 {
        lemma_digits_of(n / 10);
        let d = digits_of(n);
        assert(d.drop_last() =~= digits_of(n / 10));
        assert(d.last() == (0x30 + n % 10) as u8);
        assert(digit_value(d.last()) == n % 10);
        assert(n == (n / 10) * 10 + n % 10);
        assert forall|i: int| 0 <= i < d.len() implies is_digit(#[trigger] d[i]) by {
            if i < d.len() - 1 {
                assert(d[i] == digits_of(n / 10)[i]);
            }
        }
    } else {
        let d = digits_of(n);
        assert(d.drop_last() =~= Seq::<u8>::empty());
        assert(digit_value(d.last()) == n);
        assert(digits_value(d.drop_last()) == 0);
    }
}

/// Reading back the text form of an integer gives the integer: for a signed
/// reading always, for an unsigned one where the integer is not negative.
pub proof fn lemma_number_round_trip(v: int, signed: bool)
    requires
        signed || v >= 0,
    ensures
        integer_of_text(text_of_integer(v), signed) == Some(v),
{
    let t = text_of_integer(v);
    if v < 0 {
        lemma_digits_of((-v) as nat);
        assert(t.skip(1) =~= digits_of((-v) as nat));
    } else {
        lemma_digits_of(v as nat);
        assert(is_digit(t[0]));
    }
}

/// Reading back the text form of a value of an integer type gives the value.
pub proof fn lemma_typed_number_round_trip(v: int, ty: BuiltInType)
    requires
        ty.spec_is_integer(),
        ty.spec_min() <= v <= ty.spec_max(),
    ensures
        number_of_text(text_of_integer(v), ty) == Some(v),
{
    lemma_number_round_trip(v, ty.spec_is_signed());
}

/// Reading back the text form of a boolean gives the boolean.
pub proof fn lemma_bool_round_trip(b: bool)
    ensures
        bool_of_text(text_of_bool(b)) == Some(b),
{
    assert(true_text().len() != false_text().len());
}

} // verus!
