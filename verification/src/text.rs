//! Byte strings: comparison, trimming, names, and the text forms of scalars.

use vstd::prelude::*;

verus! {

/// The four characters that XML calls white space.
pub open spec fn is_space(b: u8) -> bool {
    b == 0x20 || b == 0x09 || b == 0x0a || b == 0x0d
}

/// The number of leading white space bytes of `s`.
pub open spec fn leading_spaces(s: Seq<u8>) -> nat
    decreases s.len(),
{
    if s.len() > 0 && is_space(s[0]) {
        1 + leading_spaces(s.skip(1))
    } else {
        0
    }
}

/// The number of trailing white space bytes of `s`.
pub open spec fn trailing_spaces(s: Seq<u8>) -> nat
    decreases s.len(),
{
    if s.len() > 0 && is_space(s.last()) {
        1 + trailing_spaces(s.drop_last())
    } else {
        0
    }
}

/// `s` without its leading and trailing white space.
pub open spec fn trimmed(s: Seq<u8>) -> Seq<u8> {
    let rest = s.skip(leading_spaces(s) as int);
    rest.take(rest.len() - trailing_spaces(rest))
}

pub proof fn lemma_leading_spaces_bound(s: Seq<u8>)
    ensures
        leading_spaces(s) <= s.len(),
    decreases s.len(),
{
    if s.len() > 0 && is_space(s[0]) {
        lemma_leading_spaces_bound(s.skip(1));
    }
}

pub proof fn lemma_trailing_spaces_bound(s: Seq<u8>)
    ensures
        trailing_spaces(s) <= s.len(),
    decreases s.len(),
{
    if s.len() > 0 && is_space(s.last()) {
        lemma_trailing_spaces_bound(s.drop_last());
    }
}

/// The position of the first byte of `s` for which `stop` holds, or the
/// length of `s` where there is none.
pub open spec fn first_index(s: Seq<u8>, stop: spec_fn(u8) -> bool) -> nat
    decreases s.len(),
{
    if s.len() == 0 || stop(s[0]) {
        0
    } else {
        1 + first_index(s.skip(1), stop)
    }
}

pub proof fn lemma_first_index(s: Seq<u8>, stop: spec_fn(u8) -> bool)
    ensures
        first_index(s, stop) <= s.len(),
        first_index(s, stop) < s.len() ==> stop(s[first_index(s, stop) as int]),
        forall|i: int| 0 <= i < first_index(s, stop) ==> !stop(#[trigger] s[i]),
    decreases s.len(),
{
    if !(s.len() == 0 || stop(s[0])) {
        let rest = s.skip(1);
        lemma_first_index(rest, stop);
        assert forall|i: int| 0 <= i < first_index(s, stop) implies !stop(#[trigger] s[i]) by {
            if i > 0 {
                assert(s[i] == rest[i - 1]);
            }
        }
    }
}

/// Where `first_index` lies, seen from the front: the first `n` bytes do not
/// stop and the byte at `n`, if there is one, does.
pub proof fn lemma_first_index_is(s: Seq<u8>, stop: spec_fn(u8) -> bool, n: nat)
    requires
        n <= s.len(),
        forall|i: int| 0 <= i < n ==> !stop(#[trigger] s[i]),
        n < s.len() ==> stop(s[n as int]),
    ensures
        first_index(s, stop) == n,
    decreases s.len(),
{
    if n > 0 {
        let rest = s.skip(1);
        assert forall|i: int| 0 <= i < n - 1 implies !stop(#[trigger] rest[i]) by {
            assert(rest[i] == s[i + 1]);
        }
        lemma_first_index_is(rest, stop, (n - 1) as nat);
    }
}

/// The length of the name that a tag's content begins with: the name ends at
/// the first white space.
pub open spec fn name_len(content: Seq<u8>) -> nat {
    first_index(content, |b: u8| is_space(b))
}

/// The part of a qualified name behind its first colon, or the whole name
/// where it has none.
pub open spec fn local_part(name: Seq<u8>) -> Seq<u8> {
    let colon = first_index(name, |b: u8| b == 0x3a);
    if colon < name.len() {
        name.skip(colon as int + 1)
    } else {
        name
    }
}

pub fn bytes_eq(a: &[u8], b: &[u8]) -> (equal: bool)
    ensures
        equal == (a@ == b@),
{
    if a.len() != b.len() {
        return false;
    }
    let mut i: usize = 0;
    while i < a.len()
        invariant
            a.len() == b.len(),
            i <= a.len(),
            forall|j: int| 0 <= j < i ==> a@[j] == b@[j],
        decreases a.len() - i,
    {
        if a[i] != b[i] {
            return false;
        }
        i += 1;
    }
    assert(a@ =~= b@);
    true
}

pub fn copy_bytes(a: &[u8]) -> (copy: Vec<u8>)
    ensures
        copy@ == a@,
{
    let mut copy: Vec<u8> = Vec::new();
    let mut i: usize = 0;
    while i < a.len()
        invariant
            i <= a.len(),
            copy@ == a@.take(i as int),
        decreases a.len() - i,
    {
        copy.push(a[i]);
        assert(a@.take(i + 1) =~= a@.take(i as int).push(a@[i as int]));
        i += 1;
    }
    assert(a@.take(a.len() as int) =~= a@);
    copy
}

/// Appends `tail` to `out`.
pub fn append_bytes(out: &mut Vec<u8>, tail: &[u8])
    ensures
        final(out)@ == old(out)@ + tail@,
{
    let mut i: usize = 0;
    while i < tail.len()
        invariant
            i <= tail.len(),
            out@ == old(out)@ + tail@.take(i as int),
        decreases tail.len() - i,
    {
        out.push(tail[i]);
        assert(tail@.take(i + 1) =~= tail@.take(i as int).push(tail@[i as int]));
        assert(out@ =~= old(out)@ + tail@.take(i + 1));
        i += 1;
    }
    assert(tail@.take(tail.len() as int) =~= tail@);
}

/// The slice `a[from..to]`, copied.
pub fn copy_range(a: &[u8], from: usize, to: usize) -> (copy: Vec<u8>)
    requires
        from <= to <= a.len(),
    ensures
        copy@ == a@.subrange(from as int, to as int),
{
    let mut copy: Vec<u8> = Vec::new();
    let mut i: usize = from;
    while i < to
        invariant
            from <= i <= to <= a.len(),
            copy@ == a@.subrange(from as int, i as int),
        decreases to - i,
    {
        copy.push(a[i]);
        assert(a@.subrange(from as int, i + 1) =~= a@.subrange(from as int, i as int).push(a@[i as int]));
        i += 1;
    }
    copy
}

pub fn is_space_byte(b: u8) -> (space: bool)
    ensures
        space == is_space(b),
{
    b == 0x20 || b == 0x09 || b == 0x0a || b == 0x0d
}

proof fn lemma_leading_spaces_is(s: Seq<u8>, n: nat)
    requires
        n <= s.len(),
        forall|i: int| 0 <= i < n ==> is_space(#[trigger] s[i]),
        n < s.len() ==> !is_space(s[n as int]),
    ensures
        leading_spaces(s) == n,
    decreases s.len(),
{
    if n > 0 {
        let rest = s.skip(1);
        assert forall|i: int| 0 <= i < n - 1 implies is_space(#[trigger] rest[i]) by {
            assert(rest[i] == s[i + 1]);
        }
        lemma_leading_spaces_is(rest, (n - 1) as nat);
    }
}

proof fn lemma_trailing_spaces_is(s: Seq<u8>, n: nat)
    requires
        n <= s.len(),
        forall|i: int| s.len() - n <= i < s.len() ==> is_space(#[trigger] s[i]),
        n < s.len() ==> !is_space(s[s.len() - n - 1]),
    ensures
        trailing_spaces(s) == n,
    decreases s.len(),
{
    if n > 0 {
        let rest = s.drop_last();
        assert forall|i: int| rest.len() - (n - 1) <= i < rest.len() implies is_space(
            #[trigger] rest[i],
        ) by {
            assert(rest[i] == s[i]);
        }
        lemma_trailing_spaces_is(rest, (n - 1) as nat);
    }
}

/// `s` without the white space around it.
pub fn trim(s: &[u8]) -> (inner: Vec<u8>)
    ensures
        inner@ == trimmed(s@),
{
    let mut from: usize = 0;
    while from < s.len() && is_space_byte(s[from])
        invariant
            from <= s.len(),
            forall|i: int| 0 <= i < from ==> is_space(#[trigger] s@[i]),
        decreases s.len() - from,
    {
        from += 1;
    }
    let mut to: usize = s.len();
    while to > from && is_space_byte(s[to - 1])
        invariant
            from <= to <= s.len(),
            forall|i: int| to <= i < s.len() ==> is_space(#[trigger] s@[i]),
        decreases to,
    {
        to -= 1;
    }
    proof {
        lemma_leading_spaces_is(s@, from as nat);
        let rest = s@.skip(from as int);
        assert forall|i: int| rest.len() - (s.len() - to) <= i < rest.len() implies is_space(
            #[trigger] rest[i],
        ) by {
            assert(rest[i] == s@[i + from]);
        }
        lemma_trailing_spaces_is(rest, (s.len() - to) as nat);
        assert(rest.take(rest.len() - (s.len() - to)) =~= s@.subrange(from as int, to as int));
    }
    copy_range(s, from, to)
}

/// The length of the name at the start of a tag's content.
pub fn tag_name_len(content: &[u8]) -> (len: usize)
    ensures
        len == name_len(content@),
        len <= content.len(),
{
    let mut i: usize = 0;
    while i < content.len() && !is_space_byte(content[i])
        invariant
            i <= content.len(),
            forall|j: int| 0 <= j < i ==> !is_space(#[trigger] content@[j]),
        decreases content.len() - i,
    {
        i += 1;
    }
    proof {
        lemma_first_index_is(content@, |b: u8| is_space(b), i as nat);
    }
    i
}

/// The local part of a qualified name.
pub fn local_name(name: &[u8]) -> (local: Vec<u8>)
    ensures
        local@ == local_part(name@),
{
    let mut i: usize = 0;
    while i < name.len() && name[i] != 0x3a
        invariant
            i <= name.len(),
            forall|j: int| 0 <= j < i ==> #[trigger] name@[j] != 0x3a,
        decreases name.len() - i,
    {
        i += 1;
    }
    proof {
        lemma_first_index_is(name@, |b: u8| b == 0x3a, i as nat);
    }
    if i < name.len() {
        copy_range(name, i + 1, name.len())
    } else {
        copy_bytes(name)
    }
}

/// Whether a byte is one of the white space characters of one byte:
/// tab, line feed, vertical tab, form feed, carriage return, space.
pub open spec fn is_narrow_white(b: u8) -> bool {
    (0x09 <= b && b <= 0x0d) || b == 0x20
}

/// Whether three bytes are the UTF-8 form of a white space character of
/// three bytes: U+1680, U+2000 to U+200A, U+2028, U+2029, U+202F, U+205F or
/// U+3000.
pub open spec fn is_wide_white(a: u8, b: u8, c: u8) -> bool {
    ||| a == 0xe1 && b == 0x9a && c == 0x80
    ||| a == 0xe2 && b == 0x80 && ((0x80 <= c && c <= 0x8a) || c == 0xa8 || c == 0xa9 || c
        == 0xaf)
    ||| a == 0xe2 && b == 0x81 && c == 0x9f
    ||| a == 0xe3 && b == 0x80 && c == 0x80
}

/// The length of the white space character that `s` begins with, in its
/// UTF-8 form, and 0 where it begins with none. White space is what Unicode
/// calls so; of two bytes are U+0085 and U+00A0.
pub open spec fn white_front(s: Seq<u8>) -> nat {
    if s.len() >= 1 && is_narrow_white(s[0]) {
        1
    } else if s.len() >= 2 && s[0] == 0xc2 && (s[1] == 0x85 || s[1] == 0xa0) {
        2
    } else if s.len() >= 3 && is_wide_white(s[0], s[1], s[2]) {
        3
    } else {
        0
    }
}

/// The length of the white space character that `s` ends with, in its
/// UTF-8 form, and 0 where it ends with none.
pub open spec fn white_back(s: Seq<u8>) -> nat {
    let n = s.len() as int;
    if n >= 1 && is_narrow_white(s[n - 1]) {
        1
    } else if n >= 2 && s[n - 2] == 0xc2 && (s[n - 1] == 0x85 || s[n - 1] == 0xa0) {
        2
    } else if n >= 3 && is_wide_white(s[n - 3], s[n - 2], s[n - 1]) {
        3
    } else {
        0
    }
}

/// The number of bytes of the white space that `s` begins with.
pub open spec fn leading_white(s: Seq<u8>) -> nat
    decreases s.len(),
{
    let w = white_front(s);
    if w > 0 {
        w + leading_white(s.skip(w as int))
    } else {
        0
    }
}

/// The number of bytes of the white space that `s` ends with.
pub open spec fn trailing_white(s: Seq<u8>) -> nat
    decreases s.len(),
{
    let w = white_back(s);
    if w > 0 {
        w + trailing_white(s.take(s.len() - w))
    } else {
        0
    }
}

/// Text in UTF-8 without the white space around it, by what Unicode calls
/// white space.
pub open spec fn stripped(s: Seq<u8>) -> Seq<u8> {
    let rest = s.skip(leading_white(s) as int);
    rest.take(rest.len() - trailing_white(rest))
}

/// Text that begins and ends with a character of one byte that is no white
/// space has no white space around it.
pub proof fn lemma_stripped_plain(s: Seq<u8>)
    requires
        s.len() > 0,
        s[0] < 0x80 && !is_narrow_white(s[0]),
        s.last() < 0x80 && !is_narrow_white(s.last()),
    ensures
        stripped(s) == s,
{
    assert(white_front(s) == 0);
    assert(s.skip(0) =~= s);
    assert(white_back(s) == 0);
    assert(s.take(s.len() as int) =~= s);
}

fn is_narrow_white_byte(b: u8) -> (white: bool)
    ensures
        white == is_narrow_white(b),
{
    (0x09 <= b && b <= 0x0d) || b == 0x20
}

fn is_wide_white_bytes(a: u8, b: u8, c: u8) -> (white: bool)
    ensures
        white == is_wide_white(a, b, c),
{
    (a == 0xe1 && b == 0x9a && c == 0x80) || (a == 0xe2 && b == 0x80 && ((0x80 <= c && c <= 0x8a)
        || c == 0xa8 || c == 0xa9 || c == 0xaf)) || (a == 0xe2 && b == 0x81 && c == 0x9f) || (a
        == 0xe3 && b == 0x80 && c == 0x80)
}

/// The length of the white space character at `from`, within `s` up to `to`.
fn white_front_at(s: &[u8], from: usize, to: usize) -> (w: usize)
    requires
        from <= to <= s.len(),
    ensures
        w == white_front(s@.subrange(from as int, to as int)),
        from + w <= to,
{
    let ghost part = s@.subrange(from as int, to as int);
    let n = to - from;
    if n >= 1 && is_narrow_white_byte(s[from]) {
        assert(part[0] == s@[from as int]);
        1
    } else if n >= 2 && s[from] == 0xc2 && (s[from + 1] == 0x85 || s[from + 1] == 0xa0) {
        assert(part[0] == s@[from as int]);
        assert(part[1] == s@[from + 1]);
        2
    } else if n >= 3 && is_wide_white_bytes(s[from], s[from + 1], s[from + 2]) {
        assert(part[0] == s@[from as int]);
        assert(part[1] == s@[from + 1]);
        assert(part[2] == s@[from + 2]);
        3
    } else {
        proof {
            if n >= 1 {
                assert(part[0] == s@[from as int]);
            }
            if n >= 2 {
                assert(part[1] == s@[from + 1]);
            }
            if n >= 3 {
                assert(part[2] == s@[from + 2]);
            }
        }
        0
    }
}

/// The length of the white space character before `to`, within `s` from
/// `from` on.
fn white_back_at(s: &[u8], from: usize, to: usize) -> (w: usize)
    requires
        from <= to <= s.len(),
    ensures
        w == white_back(s@.subrange(from as int, to as int)),
        from + w <= to,
{
    let ghost part = s@.subrange(from as int, to as int);
    let n = to - from;
    proof {
        if n >= 1 {
            assert(part[n - 1] == s@[to - 1]);
        }
        if n >= 2 {
            assert(part[n - 2] == s@[to - 2]);
        }
        if n >= 3 {
            assert(part[n - 3] == s@[to - 3]);
        }
    }
    if n >= 1 && is_narrow_white_byte(s[to - 1]) {
        1
    } else if n >= 2 && s[to - 2] == 0xc2 && (s[to - 1] == 0x85 || s[to - 1] == 0xa0) {
        2
    } else if n >= 3 && is_wide_white_bytes(s[to - 3], s[to - 2], s[to - 1]) {
        3
    } else {
        0
    }
}

/// Text in UTF-8 without the white space around it, by what Unicode calls
/// white space.
pub fn strip(s: &[u8]) -> (inner: Vec<u8>)
    ensures
        inner@ == stripped(s@),
{
    let mut from: usize = 0;
    assert(s@.subrange(0, s.len() as int) =~= s@);
    loop
        invariant_except_break
            from <= s.len(),
            leading_white(s@) == from + leading_white(s@.subrange(from as int, s.len() as int)),
        ensures
            from <= s.len(),
            leading_white(s@) == from,
        decreases s.len() - from,
    {
        let w = white_front_at(s, from, s.len());
        if w == 0 {
            break;
        }
        proof {
            let part = s@.subrange(from as int, s.len() as int);
            assert(part.skip(w as int) =~= s@.subrange(from + w, s.len() as int));
        }
        from += w;
    }
    let ghost rest = s@.skip(from as int);
    assert(rest =~= s@.subrange(from as int, s.len() as int));
    let mut to: usize = s.len();
    loop
        invariant_except_break
            from <= to <= s.len(),
            rest == s@.subrange(from as int, s.len() as int),
            trailing_white(rest) == (s.len() - to) + trailing_white(
                s@.subrange(from as int, to as int),
            ),
        ensures
            from <= to <= s.len(),
            trailing_white(rest) == s.len() - to,
        decreases to,
    {
        let w = white_back_at(s, from, to);
        if w == 0 {
            break;
        }
        proof {
            let part = s@.subrange(from as int, to as int);
            assert(part.take(part.len() - w) =~= s@.subrange(from as int, to - w));
        }
        to -= w;
    }
    assert(rest.take(rest.len() - (s.len() - to)) =~= s@.subrange(from as int, to as int));
    copy_range(s, from, to)
}

} // verus!
