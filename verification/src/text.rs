//! Text as bytes: lines, decimal and hexadecimal numbers, literals.
use vstd::prelude::*;
use vstd::slice::slice_subrange;
use vstd::string::*;

verus! {

/// Where `byte` first occurs in `s`; the length of `s` if it does not.
pub open spec fn first_index(s: Seq<u8>, byte: u8) -> int
    decreases s.len(),
{
    if s.len() == 0 || s[0] == byte {
        0
    } else {
        1 + first_index(s.skip(1), byte)
    }
}

pub proof fn lemma_first_index(s: Seq<u8>, byte: u8, i: int)
    requires
        0 <= i <= s.len(),
        forall|k: int| 0 <= k < i ==> s[k] != byte,
        i < s.len() ==> s[i] == byte,
    ensures
        first_index(s, byte) == i,
    decreases s.len(),
{
    if s.len() > 0 && s[0] != byte {
        lemma_first_index(s.skip(1), byte, i - 1);
    }
}

pub proof fn lemma_first_index_bounds(s: Seq<u8>, byte: u8)
    ensures
        0 <= first_index(s, byte) <= s.len(),
        first_index(s, byte) < s.len() ==> s[first_index(s, byte)] == byte,
        forall|k: int| 0 <= k < first_index(s, byte) ==> s[k] != byte,
    decreases s.len(),
{
    if s.len() > 0 && s[0] != byte {
        lemma_first_index_bounds(s.skip(1), byte);
        let rest = s.skip(1);
        assert forall|k: int| 0 <= k < first_index(s, byte) implies s[k] != byte by {
            if k > 0 {
                assert(s[k] == rest[k - 1]);
            }
        }
    }
}

pub(crate) fn find_byte(s: &[u8], byte: u8) -> (r: usize)
    ensures
        r == first_index(s@, byte),
        r <= s.len(),
        r < s.len() ==> s@[r as int] == byte,
        forall|k: int| 0 <= k < r ==> s@[k] != byte,
{
    let mut i: usize = 0;
    while i < s.len() && s[i] != byte
        invariant
            i <= s.len(),
            forall|k: int| 0 <= k < i ==> s@[k] != byte,
        decreases s.len() - i,
    {
        i += 1;
    }
    proof {
        lemma_first_index(s@, byte, i as int);
    }
    i
}

/// `line` without a carriage return at its end.
pub open spec fn without_cr(line: Seq<u8>) -> Seq<u8> {
    if line.len() > 0 && line.last() == 13 {
        line.drop_last()
    } else {
        line
    }
}

/// The lines of `s`: a line ends at a line feed, with or without a carriage
/// return before it, and the last line needs no line feed.
pub open spec fn lines(s: Seq<u8>) -> Seq<Seq<u8>>
    decreases s.len(),
{
    if s.len() == 0 {
        Seq::empty()
    } else {
        let i = first_index(s, 10);
        if 0 <= i < s.len() {
            seq![without_cr(s.take(i))] + lines(s.skip(i + 1))
        } else {
            seq![s]
        }
    }
}

/// Takes the first line off `s`: the line and the bytes after it.
pub(crate) fn next_line(s: &[u8]) -> (r: (&[u8], &[u8]))
    requires
        s.len() > 0,
    ensures
        lines(s@) == seq![r.0@] + lines(r.1@),
        r.1.len() < s.len(),
{
    let i: usize = find_byte(s, 10);
    if i < s.len() {
        let rest = slice_subrange(s, i + 1, s.len());
        assert(rest@ =~= s@.skip(i + 1));
        let line = slice_subrange(s, 0, i);
        assert(line@ =~= s@.take(i as int));
        if i > 0 && line[i - 1] == 13 {
            let short = slice_subrange(line, 0, i - 1);
            assert(short@ =~= line@.drop_last());
            (short, rest)
        } else {
            (line, rest)
        }
    } else {
        let rest = slice_subrange(s, s.len(), s.len());
        assert(rest@ =~= Seq::<u8>::empty());
        assert(lines(rest@) =~= Seq::<Seq<u8>>::empty());
        assert(seq![s@] + lines(rest@) =~= seq![s@]);
        (s, rest)
    }
}

pub open spec fn is_digit(b: u8) -> bool {
    48 <= b <= 57
}

/// Whether `s` is a decimal numeral.
pub open spec fn is_numeral(s: Seq<u8>) -> bool {
    s.len() > 0 && forall|i: int| 0 <= i < s.len() ==> is_digit(#[trigger] s[i])
}

/// The number that the digits of `s` denote.
pub open spec fn decimal(s: Seq<u8>) -> int
    decreases s.len(),
{
    if s.len() == 0 {
        0
    } else {
        decimal(s.drop_last()) * 10 + (s.last() - 48)
    }
}

proof fn lemma_decimal_prefix(s: Seq<u8>, i: int)
    requires
        0 <= i <= s.len(),
        forall|k: int| 0 <= k < s.len() ==> is_digit(#[trigger] s[k]),
    ensures
        0 <= decimal(s.take(i)) <= decimal(s),
    decreases s.len() - i,
{
    if i == s.len() {
        assert(s.take(i) =~= s);
        lemma_decimal_nonnegative(s);
    } else {
        lemma_decimal_prefix(s, i + 1);
        assert(s.take(i + 1).drop_last() =~= s.take(i));
        lemma_decimal_nonnegative(s.take(i));
        assert(s.take(i + 1).last() == s[i]);
        assert(is_digit(s[i]));
    }
}

proof fn lemma_decimal_nonnegative(s: Seq<u8>)
    requires
        forall|k: int| 0 <= k < s.len() ==> is_digit(#[trigger] s[k]),
    ensures
        decimal(s) >= 0,
    decreases s.len(),
{
    if s.len() > 0 {
        let t = s.drop_last();
        assert forall|k: int| 0 <= k < t.len() implies is_digit(#[trigger] t[k]) by {
            assert(t[k] == s[k]);
        }
        lemma_decimal_nonnegative(t);
        assert(is_digit(s[s.len() - 1]));
    }
}

/// The number that `s` denotes, if `s` is a decimal numeral of at most `max`.
pub(crate) fn parse_decimal(s: &[u8], max: u64) -> (r: Option<u64>)
    requires
        max <= 0xffff_ffff,
    ensures
        r is Some <==> is_numeral(s@) && decimal(s@) <= max,
        r matches Some(v) ==> v == decimal(s@),
{
    if s.len() == 0 {
        return None;
    }
    let mut value: u64 = 0;
    let mut i: usize = 0;
    assert(s@.take(0) =~= Seq::<u8>::empty());
    while i < s.len()
        invariant
            i <= s.len(),
            max <= 0xffff_ffff,
            value <= max,
            value == decimal(s@.take(i as int)),
            forall|k: int| 0 <= k < i ==> is_digit(#[trigger] s@[k]),
        decreases s.len() - i,
    {
        let b: u8 = s[i];
        if b < 48 || b > 57 {
            assert(!is_digit(s@[i as int]));
            return None;
        }
        assert(s@.take(i + 1).drop_last() =~= s@.take(i as int));
        value = value * 10 + (b - 48) as u64;
        i += 1;
        if value > max {
            proof {
                if is_numeral(s@) {
                    lemma_decimal_prefix(s@, i as int);
                }
            }
            return None;
        }
    }
    assert(s@.take(i as int) =~= s@);
    Some(value)
}

/// The shortest decimal numeral for `n`.
pub open spec fn decimal_text(n: nat) -> Seq<u8>
    decreases n,
{
    if n < 10 {
        seq![(48 + n) as u8]
    } else {
        decimal_text(n / 10).push((48 + n % 10) as u8)
    }
}

/// `text` padded on the left with `fill` to at least `width` bytes.
pub open spec fn padded(text: Seq<u8>, width: nat, fill: u8) -> Seq<u8> {
    if text.len() >= width {
        text
    } else {
        Seq::new((width - text.len()) as nat, |i: int| fill) + text
    }
}

/// Reading a numeral back gives the number it was made from.
pub proof fn law_decimal_round_trip(n: nat)
    ensures
        is_numeral(decimal_text(n)),
        decimal(decimal_text(n)) == n,
    decreases n,
{
    if n < 10 {
        let s = decimal_text(n);
        assert(s.drop_last() =~= Seq::<u8>::empty());
        assert(decimal(s.drop_last()) == 0);
    } else {
        law_decimal_round_trip(n / 10);
        let s = decimal_text(n);
        assert(s.drop_last() =~= decimal_text(n / 10));
        assert forall|i: int| 0 <= i < s.len() implies is_digit(#[trigger] s[i]) by {
            if i < s.len() - 1 {
                assert(s[i] == decimal_text(n / 10)[i]);
            }
        }
    }
}

/// The decimal numeral for `n`.
pub(crate) fn decimal_bytes(n: u64) -> (r: Vec<u8>)
    ensures
        r@ == decimal_text(n as nat),
    decreases n,
{
    if n < 10 {
        let mut r: Vec<u8> = Vec::new();
        r.push((48 + n) as u8);
        assert(r@ =~= decimal_text(n as nat));
        r
    } else {
        let mut r = decimal_bytes(n / 10);
        r.push((48 + n % 10) as u8);
        assert(r@ =~= decimal_text(n as nat));
        r
    }
}

pub(crate) fn push_decimal(v: &mut Vec<u8>, n: u64)
    ensures
        final(v)@ == old(v)@ + decimal_text(n as nat),
{
    let digits = decimal_bytes(n);
    crate::bytes::push_all(v, digits.as_slice());
}

pub(crate) fn push_padded(v: &mut Vec<u8>, n: u64, width: usize, fill: u8)
    ensures
        final(v)@ == old(v)@ + padded(decimal_text(n as nat), width as nat, fill),
{
    let digits = decimal_bytes(n);
    let ghost before = v@;
    if digits.len() < width {
        let gap: usize = width - digits.len();
        let mut i: usize = 0;
        while i < gap
            invariant
                i <= gap,
                v@ == before + Seq::new(i as nat, |k: int| fill),
            decreases gap - i,
        {
            v.push(fill);
            i += 1;
            assert(v@ =~= before + Seq::new(i as nat, |k: int| fill));
        }
    }
    crate::bytes::push_all(v, digits.as_slice());
    assert(v@ =~= before + padded(decimal_text(n as nat), width as nat, fill));
}

/// The UTF-8 encoding of `s`.
pub open spec fn utf8(s: Seq<char>) -> Seq<u8> {
    vstd::utf8::encode_utf8(s)
}

pub(crate) fn push_str(v: &mut Vec<u8>, s: &str)
    ensures
        final(v)@ == old(v)@ + utf8(s@),
{
    crate::bytes::push_all(v, s.as_bytes());
}

/// The parts of `s` between occurrences of `byte`.
pub open spec fn split(s: Seq<u8>, byte: u8) -> Seq<Seq<u8>>
    decreases s.len(),
{
    let i = first_index(s, byte);
    if 0 <= i < s.len() {
        seq![s.take(i)] + split(s.skip(i + 1), byte)
    } else {
        seq![s]
    }
}

pub proof fn lemma_split_more(s: Seq<u8>, byte: u8)
    ensures
        split(s, byte).len() >= 1,
        first_index(s, byte) < s.len() ==> split(s, byte).len() >= 2,
    decreases s.len(),
{
    lemma_first_index_bounds(s, byte);
    let i = first_index(s, byte);
    if i < s.len() {
        lemma_split_more(s.skip(i + 1), byte);
    }
}

/// Whether `bytes` is UTF-8, by `core::str::from_utf8`: it returns `Ok` exactly
/// on valid UTF-8.
#[verifier::external_body]
pub(crate) fn is_utf8(bytes: &[u8]) -> (r: bool)
    ensures
        r == vstd::utf8::valid_utf8(bytes@),
{
    core::str::from_utf8(bytes).is_ok()
}

/// The string with the UTF-8 bytes `bytes`, by `String::from_utf8`: it returns
/// `Ok` exactly on valid UTF-8, and then the string with those bytes.
#[verifier::external_body]
pub(crate) fn string_from(bytes: Vec<u8>) -> (r: Option<String>)
    ensures
        r is Some <==> vstd::utf8::valid_utf8(bytes@),
        r matches Some(s) ==> s@ == vstd::utf8::decode_utf8(bytes@),
{
    String::from_utf8(bytes).ok()
}

/// A byte with an ASCII capital made small.
pub open spec fn small(b: u8) -> u8 {
    if 65 <= b <= 90 {
        (b + 32) as u8
    } else {
        b
    }
}

/// `s` with ASCII capitals made small.
pub open spec fn lowercase(s: Seq<u8>) -> Seq<u8> {
    s.map_values(|b: u8| small(b))
}

pub(crate) fn to_lowercase(s: &[u8]) -> (r: Vec<u8>)
    ensures
        r@ == lowercase(s@),
{
    let mut r: Vec<u8> = Vec::new();
    let mut i: usize = 0;
    while i < s.len()
        invariant
            i <= s.len(),
            r@ == lowercase(s@.take(i as int)),
        decreases s.len() - i,
    {
        let b: u8 = s[i];
        r.push(
            if 65 <= b && b <= 90 {
                b + 32
            } else {
                b
            },
        );
        i += 1;
        assert(r@ =~= lowercase(s@.take(i as int)));
    }
    assert(s@.take(i as int) =~= s@);
    r
}

/// Whether a text starts with another.
pub open spec fn starts_with(s: Seq<u8>, start: Seq<u8>) -> bool {
    s.len() >= start.len() && s.take(start.len() as int) == start
}

/// Whether a text ends with another.
pub open spec fn ends_with(s: Seq<u8>, end: Seq<u8>) -> bool {
    s.len() >= end.len() && s.skip(s.len() - end.len()) == end
}

pub(crate) fn is_text(s: &[u8], text: &str) -> (r: bool)
    ensures
        r == (s@ == utf8(text@)),
{
    crate::bytes::bytes_equal(s, text.as_bytes())
}

pub(crate) fn starts_with_text(s: &[u8], text: &str) -> (r: bool)
    ensures
        r == starts_with(s@, utf8(text@)),
{
    let start = text.as_bytes();
    assert(s@.len() == s.len() && start@.len() == start.len());
    if s.len() < start.len() {
        return false;
    }
    let part = crate::bytes::copy_range(s, 0, start.len());
    assert(part@ =~= s@.take(start@.len() as int));
    crate::bytes::bytes_equal(part.as_slice(), start)
}

pub(crate) fn ends_with_text(s: &[u8], text: &str) -> (r: bool)
    ensures
        r == ends_with(s@, utf8(text@)),
{
    let end = text.as_bytes();
    assert(s@.len() == s.len() && end@.len() == end.len());
    if s.len() < end.len() {
        return false;
    }
    let part = crate::bytes::copy_range(s, s.len() - end.len(), s.len());
    assert(part@ =~= s@.skip(s@.len() - end@.len()));
    crate::bytes::bytes_equal(part.as_slice(), end)
}

pub(crate) fn text_bytes(text: &str) -> (r: Vec<u8>)
    ensures
        r@ == utf8(text@),
{
    let bytes = text.as_bytes();
    let copy = crate::bytes::copy_range(bytes, 0, bytes.len());
    assert(copy@ =~= bytes@);
    copy
}

pub(crate) proof fn lemma_index_found(s: Seq<u8>, byte: u8)
    ensures
        0 <= first_index(s, byte) <= s.len(),
        forall|j: int| 0 <= j < first_index(s, byte) ==> #[trigger] s[j] != byte,
        first_index(s, byte) < s.len() ==> s[first_index(s, byte)] == byte,
    decreases s.len(),
{
    if s.len() > 0 && s[0] != byte {
        lemma_index_found(s.skip(1), byte);
        assert forall|j: int| 0 <= j < first_index(s, byte) implies #[trigger] s[j] != byte by {
            if j > 0 {
                assert(s[j] == s.skip(1)[j - 1]);
            }
        }
    }
}

/// The first line is what stands before the first line feed, without a carriage
/// return at its end; the other lines are those of what follows.
pub proof fn law_line_then_rest(line: Seq<u8>, rest: Seq<u8>)
    requires
        forall|j: int| 0 <= j < line.len() ==> #[trigger] line[j] != 10,
    ensures
        line.len() > 0 && line.last() == 13 ==> lines(line.push(10) + rest) == seq![
            line.drop_last(),
        ] + lines(rest),
        line.len() == 0 || line.last() != 13 ==> lines(line.push(10) + rest) == seq![line] + lines(
            rest,
        ),
        line.len() > 0 ==> lines(line) == seq![line],
{
    let s = line.push(10) + rest;
    lemma_index_found(s, 10);
    lemma_index_found(line, 10);
    let i = first_index(s, 10);
    assert(s[line.len() as int] == 10);
    if i < line.len() {
        assert(s[i] == line[i]);
    }
    assert(i == line.len());
    assert(s.take(i) =~= line);
    assert(s.skip(i + 1) =~= rest);
    let k = first_index(line, 10);
    if k < line.len() {
        assert(line[k] != 10);
    }
}

} // verus!
