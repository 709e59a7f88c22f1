//! Text as the bytes it is written in: the slash that separates a scope's
//! segments, the byte order that ties are broken by, and slicing a `str`
//! at positions next to an ASCII byte.

use vstd::prelude::*;
use vstd::utf8::*;
use vstd::string::*;

verus! {

/// The byte of `/`.
pub open spec fn slash() -> u8 {
    47u8
}

/// The UTF-8 bytes of a text.
pub open spec fn bytes_of(chars: Seq<char>) -> Seq<u8> {
    encode_utf8(chars)
}

/// The text with every leading slash removed.
pub open spec fn trim_start_slashes(s: Seq<u8>) -> Seq<u8>
    decreases s.len(),
{
    if s.len() > 0 && s[0] == slash() {
        trim_start_slashes(s.drop_first())
    } else {
        s
    }
}

/// The text with every trailing slash removed.
pub open spec fn trim_end_slashes(s: Seq<u8>) -> Seq<u8>
    decreases s.len(),
{
    if s.len() > 0 && s.last() == slash() {
        trim_end_slashes(s.drop_last())
    } else {
        s
    }
}

/// Byte-wise lexicographic order: -1 when `a` comes first, 0 when equal,
/// 1 when `b` comes first. A proper prefix comes first.
pub open spec fn lex_order(a: Seq<u8>, b: Seq<u8>) -> int
    decreases a.len(),
{
    if a.len() == 0 {
        if b.len() == 0 { 0 } else { -1 }
    } else if b.len() == 0 {
        1
    } else if a[0] < b[0] {
        -1
    } else if a[0] > b[0] {
        1
    } else {
        lex_order(a.drop_first(), b.drop_first())
    }
}

/// Byte order answers -1, 0 or 1, the other way round answers the
/// opposite, and 0 only for the same bytes.
pub proof fn lemma_lex_order_range(a: Seq<u8>, b: Seq<u8>)
    ensures
        -1 <= lex_order(a, b) <= 1,
        lex_order(a, b) == -lex_order(b, a),
        lex_order(a, b) == 0 <==> a == b,
    decreases a.len(),
{
    if a.len() > 0 && b.len() > 0 && a[0] == b[0] {
        lemma_lex_order_range(a.drop_first(), b.drop_first());
        if a.drop_first() == b.drop_first() {
            assert(a =~= b) by {
                assert forall|k: int| 0 <= k < a.len() implies a[k] == b[k] by {
                    if k > 0 {
                        assert(a[k] == a.drop_first()[k - 1]);
                        assert(b[k] == b.drop_first()[k - 1]);
                    }
                }
            }
        } else {
            assert(a != b);
        }
    } else if a.len() == 0 && b.len() == 0 {
        assert(a =~= b);
    } else if a.len() > 0 && b.len() > 0 {
        assert(a[0] != b[0]);
    } else {
        assert(a.len() != b.len());
    }
}

/// Byte order is transitive.
pub proof fn lemma_lex_order_transitive(a: Seq<u8>, b: Seq<u8>, c: Seq<u8>)
    requires
        lex_order(a, b) <= 0,
        lex_order(b, c) <= 0,
    ensures
        lex_order(a, c) <= 0,
        lex_order(a, b) < 0 || lex_order(b, c) < 0 ==> lex_order(a, c) < 0,
    decreases a.len(),
{
    lemma_lex_order_range(a, b);
    lemma_lex_order_range(b, c);
    lemma_lex_order_range(a, c);
    if a.len() > 0 && b.len() > 0 && c.len() > 0 && a[0] == b[0] && b[0] == c[0] {
        lemma_lex_order_transitive(a.drop_first(), b.drop_first(), c.drop_first());
    }
}

/// Whether the byte at `i` of a valid UTF-8 text, and the one after it,
/// start a character, when the byte at `i` is ASCII.
pub proof fn lemma_ascii_boundary(bytes: Seq<u8>, i: int)
    requires
        valid_utf8(bytes),
        0 <= i < bytes.len(),
        bytes[i] < 128,
    ensures
        is_char_boundary(bytes, i),
        is_char_boundary(bytes, i + 1),
    decreases bytes.len(),
{
    let n = length_of_first_scalar(bytes);
    let rest = pop_first_scalar(bytes);
    assert(rest.len() == bytes.len() - n);
    if i < n {
        if i > 0 {
            assert(is_continuation_byte(bytes[i]));
        }
        assert(n == 1);
        reveal_with_fuel(is_char_boundary, 2);
        assert(is_char_boundary(rest, 0));
    } else {
        assert(rest[i - n] == bytes[i]);
        lemma_ascii_boundary(rest, i - n);
        reveal_with_fuel(is_char_boundary, 2);
    }
}

/// The start and the end of valid UTF-8 are character boundaries.
pub proof fn lemma_ends_are_boundaries(bytes: Seq<u8>)
    requires
        valid_utf8(bytes),
    ensures
        is_char_boundary(bytes, 0),
        is_char_boundary(bytes, bytes.len() as int),
{
    is_char_boundary_start_end_of_seq(bytes);
}

/// The bytes of a `str` are valid UTF-8.
pub proof fn lemma_str_valid(s: &str)
    ensures
        valid_utf8(s.spec_bytes()),
{
    encode_utf8_valid_utf8(s@);
}

/// The part of `s` between two byte positions that each start a character
/// or end the text.
pub(crate) fn slice_str(s: &str, start: usize, end: usize) -> (r: &str)
    requires
        start <= end <= s.spec_bytes().len(),
        is_char_boundary(s.spec_bytes(), start as int),
        is_char_boundary(s.spec_bytes(), end as int),
    ensures
        r.spec_bytes() == s.spec_bytes().subrange(start as int, end as int),
{
    proof {
        lemma_str_valid(s);
    }
    let (_, tail) = s.split_at(start);
    proof {
        lemma_str_valid(tail);
        let b = s.spec_bytes();
        assert(tail.spec_bytes() =~= b.subrange(start as int, b.len() as int));
        lemma_boundary_shift(b, start as int, end as int);
    }
    let (mid, _) = tail.split_at(end - start);
    proof {
        assert(mid.spec_bytes() =~= s.spec_bytes().subrange(start as int, end as int));
    }
    mid
}

/// A boundary at or after another boundary is a boundary of the text that
/// follows the first.
proof fn lemma_boundary_shift(bytes: Seq<u8>, start: int, end: int)
    requires
        valid_utf8(bytes),
        0 <= start <= end <= bytes.len(),
        is_char_boundary(bytes, start),
        is_char_boundary(bytes, end),
    ensures
        is_char_boundary(bytes.subrange(start, bytes.len() as int), end - start),
    decreases bytes.len(),
{
    if start == 0 {
        assert(bytes.subrange(0, bytes.len() as int) =~= bytes);
    } else {
        let n = length_of_first_scalar(bytes);
        let rest = pop_first_scalar(bytes);
        reveal_with_fuel(is_char_boundary, 2);
        lemma_first_scalar_within(bytes, start);
        lemma_first_scalar_within(bytes, end);
        lemma_boundary_shift(rest, start - n, end - n);
        assert(rest.subrange(start - n, rest.len() as int) =~= bytes.subrange(
            start,
            bytes.len() as int,
        ));
    }
}

/// A boundary after the start lies at or past the end of the first
/// character, and is still a boundary once that character is taken off.
proof fn lemma_first_scalar_within(bytes: Seq<u8>, index: int)
    requires
        valid_utf8(bytes),
        is_char_boundary(bytes, index),
        index > 0,
    ensures
        index >= length_of_first_scalar(bytes),
        is_char_boundary(pop_first_scalar(bytes), index - length_of_first_scalar(bytes)),
{
    reveal_with_fuel(is_char_boundary, 2);
    if index < length_of_first_scalar(bytes) {
        let rest = pop_first_scalar(bytes);
        assert(index - length_of_first_scalar(bytes) < 0);
        assert(!is_char_boundary(rest, index - length_of_first_scalar(bytes)));
    }
}

/// Two texts are the same text exactly when their bytes are the same.
pub proof fn lemma_bytes_determine_text(a: Seq<char>, b: Seq<char>)
    ensures
        (bytes_of(a) == bytes_of(b)) <==> (a == b),
{
    encode_utf8_decode_utf8(a);
    encode_utf8_decode_utf8(b);
}

/// A `str` is the text its bytes decode to.
pub proof fn lemma_str_decodes(s: &str)
    ensures
        s@ == decode_utf8(s.spec_bytes()),
{
    encode_utf8_decode_utf8(s@);
}

/// Whether two texts are the same, exactly: character for character.
pub(crate) fn same_text(a: &str, b: &str) -> (r: bool)
    ensures
        r == (a@ == b@),
{
    proof {
        lemma_bytes_determine_text(a@, b@);
    }
    bytes_equal(a.as_bytes(), b.as_bytes())
}

/// Whether two byte runs are equal.
pub(crate) fn bytes_equal(a: &[u8], b: &[u8]) -> (r: bool)
    ensures
        r == (a@ == b@),
{
    if a.len() != b.len() {
        return false;
    }
    let mut i: usize = 0;
    while i < a.len()
        invariant
            a@.len() == b@.len(),
            i <= a@.len(),
            forall|j: int| 0 <= j < i ==> a@[j] == b@[j],
        decreases a@.len() - i,
    {
        if a[i] != b[i] {
            return false;
        }
        i = i + 1;
    }
    assert(a@ =~= b@);
    true
}

/// The byte-wise order of two byte runs.
pub(crate) fn order_bytes(a: &[u8], b: &[u8]) -> (r: i8)
    ensures
        r == lex_order(a@, b@),
{
    proof {
        lemma_lex_order_range(a@, b@);
    }
    let mut i: usize = 0;
    assert(a@.skip(0) =~= a@);
    assert(b@.skip(0) =~= b@);
    while i < a.len() && i < b.len()
        invariant
            i <= a@.len(),
            i <= b@.len(),
            lex_order(a@, b@) == lex_order(a@.skip(i as int), b@.skip(i as int)),
        decreases a@.len() - i,
    {
        if a[i] < b[i] {
            return -1;
        }
        if a[i] > b[i] {
            return 1;
        }
        assert(a@.skip(i as int).drop_first() =~= a@.skip(i + 1));
        assert(b@.skip(i as int).drop_first() =~= b@.skip(i + 1));
        i = i + 1;
    }
    if i < a.len() {
        1
    } else if i < b.len() {
        -1
    } else {
        0
    }
}

/// How long a text is once every trailing slash is removed.
pub(crate) fn trimmed_end_len(b: &[u8]) -> (m: usize)
    ensures
        m <= b@.len(),
        trim_end_slashes(b@) == b@.take(m as int),
{
    let mut m = b.len();
    assert(b@.take(m as int) =~= b@);
    while m > 0 && b[m - 1] == 47
        invariant
            m <= b@.len(),
            trim_end_slashes(b@) == trim_end_slashes(b@.take(m as int)),
        decreases m,
    {
        assert(b@.take(m as int).drop_last() =~= b@.take(m - 1));
        m = m - 1;
    }
    m
}

/// Byte order goes by the first byte that differs, and a proper prefix
/// comes first.
pub proof fn law_byte_order(a: Seq<u8>, b: Seq<u8>, i: int)
    requires
        0 <= i <= a.len(),
        i <= b.len(),
        a.take(i) == b.take(i),
    ensures
        i < a.len() && i < b.len() && a[i] < b[i] ==> lex_order(a, b) == -1,
        i == a.len() && i < b.len() ==> lex_order(a, b) == -1,
    decreases i,
{
    if i > 0 {
        assert(a[0] == a.take(i)[0] && b[0] == b.take(i)[0]);
        assert(a.drop_first().take(i - 1) =~= a.take(i).drop_first());
        assert(b.drop_first().take(i - 1) =~= b.take(i).drop_first());
        law_byte_order(a.drop_first(), b.drop_first(), i - 1);
    }
}

} // verus!