//! UTF-8 text helpers shared by the fragment and document layers.
//!
//! Text is modelled by its UTF-8 bytes. The lemmas here connect byte
//! positions next to ASCII bytes with character boundaries, which is what lets
//! byte-oriented scanning hand out `&str` slices.

use vstd::prelude::*;
use vstd::utf8::*;
use vstd::string::*;

verus! {

broadcast use {
    vstd::utf8::encode_utf8_valid_utf8,
    vstd::utf8::encode_utf8_decode_utf8,
    vstd::utf8::valid_utf8_concat,
};

/// `std::str::from_utf8`: borrows the bytes as a `str` exactly when they are
/// valid UTF-8 (`vstd::utf8::valid_utf8`), and the returned `str` holds those
/// same bytes.
#[verifier::external_body]
pub(crate) fn str_from_utf8<'a>(bytes: &'a [u8]) -> (r: Option<&'a str>)
    ensures
        r is Some <==> valid_utf8(bytes@),
        r matches Some(s) ==> s.spec_bytes() == bytes@,
{
    std::str::from_utf8(bytes).ok()
}

/// `String::from_utf8`: takes ownership of the bytes as a `String` exactly
/// when they are valid UTF-8, and the string then encodes those same bytes.
#[verifier::external_body]
pub(crate) fn string_from_utf8(bytes: Vec<u8>) -> (r: Option<String>)
    ensures
        r is Some <==> valid_utf8(bytes@),
        r matches Some(s) ==> encode_utf8(s@) == bytes@,
{
    String::from_utf8(bytes).ok()
}

/// The UTF-8 bytes of an owned string.
pub open spec fn string_bytes(s: String) -> Seq<u8> {
    encode_utf8(s@)
}

/// True when every byte is ASCII.
pub open spec fn all_ascii(b: Seq<u8>) -> bool {
    forall|i: int| 0 <= i < b.len() ==> #[trigger] b[i] < 0x80
}

pub proof fn lemma_ascii_valid(b: Seq<u8>)
    requires
        all_ascii(b),
    ensures
        valid_utf8(b),
    decreases b.len(),
{
    if b.len() > 0 {
        assert(is_leading_byte_width_1(b[0]));
        let rest = pop_first_scalar(b);
        assert(rest =~= b.subrange(1, b.len() as int));
        lemma_ascii_valid(rest);
    }
}

/// A position holding an ASCII byte is a character boundary, and so is the
/// position just after it.
pub proof fn lemma_ascii_boundaries(b: Seq<u8>, i: int)
    requires
        valid_utf8(b),
        0 <= i < b.len(),
        b[i] < 0x80,
    ensures
        is_char_boundary(b, i),
        is_char_boundary(b, i + 1),
{
    is_char_boundary_iff_is_leading_byte(b, i);
    lemma_boundary_after_ascii(b, i);
}

proof fn lemma_boundary_after_ascii(b: Seq<u8>, i: int)
    requires
        valid_utf8(b),
        0 <= i < b.len(),
        is_char_boundary(b, i),
        b[i] < 0x80,
    ensures
        is_char_boundary(b, i + 1),
    decreases b.len(),
{
    let lf = length_of_first_scalar(b);
    let rest = pop_first_scalar(b);
    assert(valid_first_scalar(b) && valid_utf8(rest));
    assert(1 <= lf <= 4);
    assert(rest.len() == b.len() - lf);
    if i == 0 {
        assert(is_leading_byte_width_1(b[0]));
        assert(lf == 1);
        assert(is_char_boundary(rest, 0));
    } else {
        assert(is_char_boundary(b, i) == is_char_boundary(rest, i - lf));
        assert(i - lf >= 0);
        assert(rest[i - lf] == b[i]);
        lemma_boundary_after_ascii(rest, i - lf);
        assert(is_char_boundary(rest, i - lf + 1));
    }
}

pub proof fn lemma_ends_are_boundaries(b: Seq<u8>)
    requires
        valid_utf8(b),
    ensures
        is_char_boundary(b, 0),
        is_char_boundary(b, b.len() as int),
{
    is_char_boundary_start_end_of_seq(b);
}

/// The bytes in `[start, end)` of a string, borrowed as a `str`.
pub(crate) fn substr<'a>(s: &'a str, start: usize, end: usize) -> (r: &'a str)
    requires
        start <= end <= s.spec_bytes().len(),
        is_char_boundary(s.spec_bytes(), start as int),
        is_char_boundary(s.spec_bytes(), end as int),
    ensures
        r.spec_bytes() == s.spec_bytes().subrange(start as int, end as int),
{
    let b = Ghost(s.spec_bytes());
    proof {
        valid_utf8_split(b@, end as int);
        decode_utf8_split(b@, end as int);
    }
    let head = s.split_at(end).0;
    proof {
        let hb = head.spec_bytes();
        assert(hb =~= b@.subrange(0, end as int));
        assert(is_char_boundary(hb, start as int)) by {
            lemma_boundary_prefix(b@, end as int, start as int);
        }
    }
    let tail = head.split_at(start).1;
    proof {
        assert(tail.spec_bytes() =~= b@.subrange(start as int, end as int));
    }
    tail
}

/// A boundary of a sequence that lies inside a valid prefix is a boundary of
/// that prefix.
pub proof fn lemma_boundary_prefix(b: Seq<u8>, end: int, i: int)
    requires
        valid_utf8(b),
        0 <= i <= end <= b.len(),
        is_char_boundary(b, end),
        is_char_boundary(b, i),
    ensures
        valid_utf8(b.subrange(0, end)),
        is_char_boundary(b.subrange(0, end), i),
    decreases b.len(),
{
    valid_utf8_split(b, end);
    let p = b.subrange(0, end);
    if i == 0 {
    } else {
        let lf = length_of_first_scalar(b);
        let rest = pop_first_scalar(b);
        assert(valid_first_scalar(b) && valid_utf8(rest));
        assert(is_char_boundary(b, i) == is_char_boundary(rest, i - lf));
        assert(is_char_boundary(b, end) == is_char_boundary(rest, end - lf));
        assert(i - lf >= 0);
        lemma_boundary_prefix(rest, end - lf, i - lf);
        assert(p.subrange(0, lf) =~= b.subrange(0, lf));
        assert(valid_first_scalar(p)) by {
            assert(p.len() >= lf);
            assert(p[0] == b[0]);
            if lf >= 2 { assert(p[1] == b[1]); }
            if lf >= 3 { assert(p[2] == b[2]); }
            if lf >= 4 { assert(p[3] == b[3]); }
        }
        assert(length_of_first_scalar(p) == lf);
        assert(pop_first_scalar(p) =~= rest.subrange(0, end - lf));
    }
}

/// Unicode `White_Space` code points, the set that `char::is_whitespace`
/// reports.
pub open spec fn is_unicode_whitespace(c: char) -> bool {
    let v = c as u32;
    ||| 0x09 <= v <= 0x0d
    ||| v == 0x20
    ||| v == 0x85
    ||| v == 0xa0
    ||| v == 0x1680
    ||| 0x2000 <= v <= 0x200a
    ||| v == 0x2028
    ||| v == 0x2029
    ||| v == 0x202f
    ||| v == 0x205f
    ||| v == 0x3000
}

pub(crate) fn is_whitespace_char(c: char) -> (r: bool)
    ensures
        r == is_unicode_whitespace(c),
{
    let v = c as u32;
    (0x09 <= v && v <= 0x0d) || v == 0x20 || v == 0x85 || v == 0xa0 || v == 0x1680 || (0x2000
        <= v && v <= 0x200a) || v == 0x2028 || v == 0x2029 || v == 0x202f || v == 0x205f || v
        == 0x3000
}

/// Lexicographic byte order, the order of `str` and `String`.
pub open spec fn seq_lt(a: Seq<u8>, b: Seq<u8>) -> bool
    decreases a.len(),
{
    if a.len() == 0 {
        b.len() > 0
    } else if b.len() == 0 {
        false
    } else if a[0] != b[0] {
        a[0] < b[0]
    } else {
        seq_lt(a.drop_first(), b.drop_first())
    }
}

/// Byte-wise order is transitive.
pub proof fn lemma_seq_lt_transitive(a: Seq<u8>, b: Seq<u8>, c: Seq<u8>)
    requires
        seq_lt(a, b),
        seq_lt(b, c),
    ensures
        seq_lt(a, c),
    decreases a.len(),
{
    if a.len() > 0 && b.len() > 0 && c.len() > 0 && a[0] == b[0] && b[0] == c[0] {
        lemma_seq_lt_transitive(a.drop_first(), b.drop_first(), c.drop_first());
    }
}

pub(crate) fn bytes_lt(a: &[u8], b: &[u8]) -> (r: bool)
    ensures
        r == seq_lt(a@, b@),
{
    let mut i: usize = 0;
    assert(a@.subrange(0, a@.len() as int) =~= a@);
    assert(b@.subrange(0, b@.len() as int) =~= b@);
    while i < a.len() && i < b.len()
        invariant
            i <= a.len(),
            i <= b.len(),
            a@.subrange(0, i as int) == b@.subrange(0, i as int),
            seq_lt(a@, b@) == seq_lt(a@.subrange(i as int, a@.len() as int), b@.subrange(i as int, b@.len() as int)),
        decreases a.len() - i,
    {
        let ghost sa = a@.subrange(i as int, a@.len() as int);
        let ghost sb = b@.subrange(i as int, b@.len() as int);
        if a[i] != b[i] {
            return a[i] < b[i];
        }
        proof {
            assert(sa.drop_first() =~= a@.subrange(i + 1, a@.len() as int));
            assert(sb.drop_first() =~= b@.subrange(i + 1, b@.len() as int));
            assert(a@.subrange(0, i + 1) =~= a@.subrange(0, i as int).push(a@[i as int]));
            assert(b@.subrange(0, i + 1) =~= b@.subrange(0, i as int).push(b@[i as int]));
        }
        i = i + 1;
    }
    i < b.len()
}

pub(crate) fn bytes_eq(a: &[u8], b: &[u8]) -> (r: bool)
    ensures
        r == (a@ == b@),
{
    if a.len() != b.len() {
        return false;
    }
    let mut i: usize = 0;
    while i < a.len()
        invariant
            i <= a.len(),
            a.len() == b.len(),
            forall|k: int| 0 <= k < i ==> a@[k] == b@[k],
        decreases a.len() - i,
    {
        if a[i] != b[i] {
            return false;
        }
        i = i + 1;
    }
    assert(a@ =~= b@);
    true
}


/// Appends `bytes` to `out`.
pub(crate) fn push_all(out: &mut Vec<u8>, bytes: &[u8])
    ensures
        final(out)@ == old(out)@ + bytes@,
{
    let ghost start = out@;
    let mut i: usize = 0;
    while i < bytes.len()
        invariant
            i <= bytes@.len(),
            out@ == start + bytes@.subrange(0, i as int),
        decreases bytes@.len() - i,
    {
        out.push(bytes[i]);
        proof {
            assert(bytes@.subrange(0, i + 1) =~= bytes@.subrange(0, i as int).push(bytes@[i as int]));
        }
        i = i + 1;
    }
    assert(bytes@.subrange(0, i as int) =~= bytes@);
}

/// The bytes between two character boundaries are valid UTF-8.
pub proof fn lemma_valid_segment(b: Seq<u8>, i: int, j: int)
    requires
        valid_utf8(b),
        0 <= i <= j <= b.len(),
        is_char_boundary(b, i),
        is_char_boundary(b, j),
    ensures
        valid_utf8(b.subrange(i, j)),
{
    valid_utf8_split(b, j);
    let head = b.subrange(0, j);
    lemma_boundary_prefix(b, j, i);
    valid_utf8_split(head, i);
    assert(head.subrange(i, head.len() as int) =~= b.subrange(i, j));
}

} // verus!
