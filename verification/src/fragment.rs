//! Canonical fragment values and surgical access to markers in embedded source.
//!
//! Every text value is modelled by its UTF-8 bytes: a [`FragmentPath`] and a
//! [`CanonicalSource`] view as `Seq<u8>`, and parsing and rewriting are stated
//! over the bytes of the node source.

use vstd::prelude::*;
use vstd::utf8::*;
use vstd::string::*;
use vstd::slice::slice_to_vec;
use std::borrow::Cow;

use crate::adls::NodeKind;
use crate::text::{
    all_ascii, is_unicode_whitespace, is_whitespace_char, lemma_ascii_boundaries,
    lemma_ascii_valid, lemma_boundary_prefix, lemma_ends_are_boundaries, string_bytes, seq_lt,
    bytes_lt, bytes_eq, push_all, lemma_valid_segment,
    string_from_utf8, substr,
};
use sha2::Digest;

verus! {

broadcast use {
    vstd::utf8::encode_utf8_valid_utf8,
    vstd::utf8::encode_utf8_decode_utf8,
    vstd::utf8::valid_utf8_concat,
};

// ---------------------------------------------------------------------------
// Fragment paths
// ---------------------------------------------------------------------------

pub const SLASH: u8 = 0x2f;
pub const BACKSLASH: u8 = 0x5c;
pub const DOT: u8 = 0x2e;
pub const CR: u8 = 0x0d;
pub const LF: u8 = 0x0a;

/// Why a string is not a canonical fragment path.
#[derive(Clone, Copy, Debug, PartialEq, Eq, Structural)]
pub enum FragmentPathError {
    Empty,
    LeadingSlash,
    TrailingSlash,
    Backslash,
    Whitespace,
    EmptySegment,
    CurrentDirectorySegment,
    ParentDirectorySegment,
}

/// The index of the first `c` in `p`, or `p.len()` when there is none.
pub open spec fn first_index_of(p: Seq<u8>, c: u8) -> int
    decreases p.len(),
{
    if p.len() == 0 {
        0
    } else if p[0] == c {
        0
    } else {
        1 + first_index_of(p.drop_first(), c)
    }
}

/// The first invalid `/`-separated segment of `p`, in order.
pub open spec fn segment_error(p: Seq<u8>) -> Option<FragmentPathError>
    decreases p.len(),
{
    let k = first_index_of(p, SLASH);
    proof {
        lemma_first_index_bound(p, SLASH);
    }
    let segment = p.subrange(0, k);
    if segment.len() == 0 {
        Some(FragmentPathError::EmptySegment)
    } else if segment == seq![DOT] {
        Some(FragmentPathError::CurrentDirectorySegment)
    } else if segment == seq![DOT, DOT] {
        Some(FragmentPathError::ParentDirectorySegment)
    } else if k >= p.len() {
        None
    } else {
        segment_error(p.subrange(k + 1, p.len() as int))
    }
}

pub open spec fn has_whitespace(chars: Seq<char>) -> bool {
    exists|i: int| 0 <= i < chars.len() && is_unicode_whitespace(#[trigger] chars[i])
}

/// Why the UTF-8 bytes `p` are not a canonical fragment path, checked in the
/// documented order; `None` for a canonical path.
pub open spec fn path_error(p: Seq<u8>) -> Option<FragmentPathError> {
    if p.len() == 0 {
        Some(FragmentPathError::Empty)
    } else if p[0] == SLASH {
        Some(FragmentPathError::LeadingSlash)
    } else if p.last() == SLASH {
        Some(FragmentPathError::TrailingSlash)
    } else if p.contains(BACKSLASH) {
        Some(FragmentPathError::Backslash)
    } else if has_whitespace(decode_utf8(p)) {
        Some(FragmentPathError::Whitespace)
    } else {
        segment_error(p)
    }
}

pub open spec fn is_canonical_path(p: Seq<u8>) -> bool {
    valid_utf8(p) && path_error(p) is None
}

/// A canonical source-root-relative fragment path.
#[derive(Debug, Hash, PartialOrd, Ord)]
pub struct FragmentPath(String);

impl View for FragmentPath {
    type V = Seq<u8>;

    /// The UTF-8 bytes of the path.
    closed spec fn view(&self) -> Seq<u8> {
        string_bytes(self.0)
    }
}

impl FragmentPath {
    #[verifier::type_invariant]
    closed spec fn wf(&self) -> bool {
        is_canonical_path(self@)
    }

    /// Validates `value` as a canonical fragment path.
    pub fn new(value: String) -> (r: Result<FragmentPath, FragmentPathError>)
        ensures
            match r {
                Ok(path) => path@ == string_bytes(value) && path_error(path@) is None,
                Err(e) => path_error(string_bytes(value)) == Some(e),
            },
    {
        match validate_fragment_path(value.as_str()) {
            Ok(()) => Ok(FragmentPath(value)),
            Err(e) => Err(e),
        }
    }

    /// Returns the canonical `/`-separated representation.
    pub fn as_str(&self) -> (r: &str)
        ensures
            r.spec_bytes() == self@,
            is_canonical_path(self@),
    {
        proof {
            use_type_invariant(self);
        }
        self.0.as_str()
    }

    /// The path as an owned string.
    pub fn to_string(&self) -> (r: String)
        ensures
            string_bytes(r) == self@,
    {
        self.0.clone()
    }

}

impl Clone for FragmentPath {
    fn clone(&self) -> (r: Self)
        ensures
            r@ == self@,
    {
        proof {
            use_type_invariant(self);
        }
        FragmentPath(self.0.clone())
    }
}

impl PartialEq for FragmentPath {
    fn eq(&self, other: &Self) -> (r: bool) {
        let r = self.0 == other.0;
        proof {
            if self@ == other@ {
                assert(decode_utf8(self@) == self.0@);
                assert(decode_utf8(other@) == other.0@);
            }
        }
        r
    }
}

impl vstd::std_specs::cmp::PartialEqSpecImpl for FragmentPath {
    open spec fn obeys_eq_spec() -> bool {
        true
    }

    open spec fn eq_spec(&self, other: &Self) -> bool {
        self@ == other@
    }
}

impl Eq for FragmentPath {

}

impl TryFrom<String> for FragmentPath {
    type Error = FragmentPathError;

    fn try_from(value: String) -> (r: Result<Self, Self::Error>)
        ensures
            match r {
                Ok(path) => path@ == string_bytes(value) && path_error(path@) is None,
                Err(e) => path_error(string_bytes(value)) == Some(e),
            },
    {
        FragmentPath::new(value)
    }
}

impl vstd::std_specs::convert::TryFromSpecImpl<String> for FragmentPath {
    open spec fn obeys_try_from_spec() -> bool {
        false
    }

    open spec fn try_from_spec(v: String) -> Result<Self, Self::Error> {
        arbitrary()
    }
}

impl<'a> TryFrom<&'a str> for FragmentPath {
    type Error = FragmentPathError;

    fn try_from(value: &'a str) -> (r: Result<Self, Self::Error>)
        ensures
            match r {
                Ok(path) => path@ == value.spec_bytes() && path_error(path@) is None,
                Err(e) => path_error(value.spec_bytes()) == Some(e),
            },
    {
        FragmentPath::new(value.to_owned())
    }
}

impl<'a> vstd::std_specs::convert::TryFromSpecImpl<&'a str> for FragmentPath {
    open spec fn obeys_try_from_spec() -> bool {
        false
    }

    open spec fn try_from_spec(v: &'a str) -> Result<Self, Self::Error> {
        arbitrary()
    }
}

pub proof fn lemma_first_index_bound(p: Seq<u8>, c: u8)
    ensures
        0 <= first_index_of(p, c) <= p.len(),
    decreases p.len(),
{
    if p.len() > 0 && p[0] != c {
        lemma_first_index_bound(p.drop_first(), c);
    }
}

proof fn lemma_first_index_of(p: Seq<u8>, c: u8, k: int)
    requires
        0 <= k <= p.len(),
        forall|j: int| 0 <= j < k ==> p[j] != c,
        k == p.len() || p[k] == c,
    ensures
        first_index_of(p, c) == k,
    decreases p.len(),
{
    if p.len() > 0 && k > 0 {
        lemma_first_index_of(p.drop_first(), c, k - 1);
    }
}

/// Checks the documented path rules over the bytes and characters of `value`.
fn validate_fragment_path(value: &str) -> (r: Result<(), FragmentPathError>)
    ensures
        r is Ok ==> path_error(value.spec_bytes()) is None,
        r matches Err(e) ==> path_error(value.spec_bytes()) == Some(e),
{
    let bytes = value.as_bytes();
    let ghost p = value.spec_bytes();
    proof {
        assert(decode_utf8(p) == value@);
    }
    let n = bytes.len();
    if n == 0 {
        return Err(FragmentPathError::Empty);
    }
    if bytes[0] == SLASH {
        return Err(FragmentPathError::LeadingSlash);
    }
    if bytes[n - 1] == SLASH {
        return Err(FragmentPathError::TrailingSlash);
    }
    let mut i: usize = 0;
    while i < n
        invariant
            n == p.len(),
            bytes@ == p,
            p == value.spec_bytes(),
            i <= n,
            n > 0,
            p[0] != SLASH,
            p[n - 1] != SLASH,
            forall|j: int| 0 <= j < i ==> p[j] != BACKSLASH,
        decreases n - i,
    {
        if bytes[i] == BACKSLASH {
            proof {
                assert(p.contains(BACKSLASH)) by {
                    assert(p[i as int] == BACKSLASH);
                }
                assert(p.len() != 0);
                assert(p[0] != SLASH);
                assert(p.last() != SLASH);
                assert(path_error(p) == Some(FragmentPathError::Backslash));
            }
            return Err(FragmentPathError::Backslash);
        }
        i = i + 1;
    }
    proof {
        if p.contains(BACKSLASH) {
            let j = choose|j: int| 0 <= j < p.len() && p[j] == BACKSLASH;
            assert(p[j] != BACKSLASH);
        }
    }
    for c in it: value.chars()
        invariant
            it.seq() == value@,
            p == value.spec_bytes(),
            decode_utf8(p) == value@,
            p.len() > 0,
            p[0] != SLASH,
            p.last() != SLASH,
            !p.contains(BACKSLASH),
            forall|j: int| 0 <= j < it.index() ==> !is_unicode_whitespace(#[trigger] value@[j]),
    {
        if is_whitespace_char(c) {
            proof {
                assert(is_unicode_whitespace(value@[it.index() as int]));
            }
            return Err(FragmentPathError::Whitespace);
        }
    }
    // Segments, in order.
    let mut start: usize = 0;
    proof {
        assert(p.subrange(0, n as int) =~= p);
        assert(!has_whitespace(decode_utf8(p)));
        assert(path_error(p) == segment_error(p));
    }
    loop
        invariant
            path_error(p) == segment_error(p),
            p == value.spec_bytes(),
            n == p.len(),
            bytes@ == p,
            start <= n,
            segment_error(p) == segment_error(p.subrange(start as int, n as int)),
        decreases n - start,
    {
        let ghost q = p.subrange(start as int, n as int);
        let mut end = start;
        while end < n && bytes[end] != SLASH
            invariant
                start <= end <= n,
                bytes@ == p,
                n == p.len(),
                forall|j: int| start <= j < end ==> p[j] != SLASH,
            decreases n - end,
        {
            end = end + 1;
        }
        proof {
            lemma_first_index_of(q, SLASH, end - start);
        }
        let length = end - start;
        let ghost segment = q.subrange(0, (end - start) as int);
        assert(segment =~= p.subrange(start as int, end as int));
        if length == 0 {
            return Err(FragmentPathError::EmptySegment);
        }
        if length == 1 && bytes[start] == DOT {
            assert(segment =~= seq![DOT]);
            return Err(FragmentPathError::CurrentDirectorySegment);
        }
        if length == 2 && bytes[start] == DOT && bytes[start + 1] == DOT {
            assert(segment =~= seq![DOT, DOT]);
            return Err(FragmentPathError::ParentDirectorySegment);
        }
        proof {
            if length == 1 {
                assert(segment != seq![DOT]) by {
                    assert(segment[0] != DOT);
                }
            }
            if length == 2 {
                assert(segment != seq![DOT, DOT]) by {
                    assert(segment[0] != DOT || segment[1] != DOT);
                }
            }
            assert(segment.len() == 1 ==> segment != seq![DOT, DOT]);
            assert(segment.len() != 1 ==> segment != seq![DOT]);
            assert(segment.len() != 2 ==> segment != seq![DOT, DOT]);
        }
        if end == n {
            return Ok(());
        }
        proof {
            assert(q.subrange(end - start + 1, q.len() as int) =~= p.subrange(end + 1, n as int));
        }
        start = end + 1;
    }
}

// ---------------------------------------------------------------------------
// Baseline hashes
// ---------------------------------------------------------------------------

/// The SHA-256 digest of `data`, as computed by the `sha2` crate.
pub uninterp spec fn sha256_digest(data: Seq<u8>) -> Seq<u8>;

/// `sha2::Sha256::digest`: the digest of the input bytes, of the digest
/// function's fixed output size (`OutputSize = U32`).
#[verifier::external_body]
fn sha256(data: &[u8]) -> (r: Vec<u8>)
    ensures
        r@ == sha256_digest(data@),
        r@.len() == 32,
{
    sha2::Sha256::digest(data).to_vec()
}

/// The stored baseline of canonical source bytes: the 64-bit prefix of their
/// SHA-256 digest.
pub open spec fn baseline_of(source: Seq<u8>) -> Seq<u8> {
    Seq::new(8, |k: int| sha256_digest(source)[k])
}

pub open spec fn is_lower_hex(b: u8) -> bool {
    (0x30 <= b <= 0x39) || (0x61 <= b <= 0x66)
}

pub open spec fn hex_value(b: u8) -> u8 {
    if 0x30 <= b <= 0x39 {
        (b - 0x30) as u8
    } else {
        (b - 0x61 + 10) as u8
    }
}

pub open spec fn hex_digit(v: u8) -> u8 {
    if v < 10 {
        (0x30 + v) as u8
    } else {
        (0x61 + v - 10) as u8
    }
}

/// The first index in `t` that is not a lowercase hexadecimal digit.
pub open spec fn first_non_hex(t: Seq<u8>) -> int
    decreases t.len(),
{
    if t.len() == 0 {
        0
    } else if !is_lower_hex(t[0]) {
        0
    } else {
        1 + first_non_hex(t.drop_first())
    }
}

/// Why the bytes `t` are not a canonical baseline hash.
#[derive(Clone, Copy, Debug, PartialEq, Eq, Structural)]
pub enum BaselineHashError {
    InvalidLength { actual: usize },
    InvalidCharacter { index: usize },
}

/// Parses 16 lowercase hexadecimal digits into the 8 bytes they spell.
pub open spec fn parse_hash(t: Seq<u8>) -> Result<Seq<u8>, BaselineHashError> {
    if t.len() != 16 {
        Err(BaselineHashError::InvalidLength { actual: t.len() as usize })
    } else if first_non_hex(t) < 16 {
        Err(BaselineHashError::InvalidCharacter { index: first_non_hex(t) as usize })
    } else {
        Ok(Seq::new(8, |k: int| (hex_value(t[2 * k]) * 16 + hex_value(t[2 * k + 1])) as u8))
    }
}

/// The lowercase hexadecimal spelling of hash bytes.
pub open spec fn hex_of(h: Seq<u8>) -> Seq<u8> {
    Seq::new(
        2 * h.len(),
        |i: int|
            if i % 2 == 0 {
                hex_digit(h[i / 2] / 16)
            } else {
                hex_digit(h[i / 2] % 16)
            },
    )
}

/// The first eight bytes of a SHA-256 digest of canonical source.
#[derive(Clone, Copy, Debug, Hash, PartialOrd, Ord)]
pub struct BaselineHash([u8; 8]);

impl View for BaselineHash {
    type V = Seq<u8>;

    closed spec fn view(&self) -> Seq<u8> {
        self.0@
    }
}

impl PartialEq for BaselineHash {
    fn eq(&self, other: &Self) -> (r: bool) {
        let mut i: usize = 0;
        while i < 8
            invariant
                i <= 8,
                self@.len() == 8,
                other@.len() == 8,
                forall|k: int| 0 <= k < i ==> self@[k] == other@[k],
            decreases 8 - i,
        {
            if self.0[i] != other.0[i] {
                return false;
            }
            i = i + 1;
        }
        assert(self@ =~= other@);
        true
    }
}

impl vstd::std_specs::cmp::PartialEqSpecImpl for BaselineHash {
    open spec fn obeys_eq_spec() -> bool {
        true
    }

    open spec fn eq_spec(&self, other: &Self) -> bool {
        self@ == other@
    }
}

impl Eq for BaselineHash {

}

fn lowercase_hex_value(byte: u8) -> (r: Option<u8>)
    ensures
        r is Some <==> is_lower_hex(byte),
        r matches Some(v) ==> v == hex_value(byte) && v < 16,
{
    if 0x30 <= byte && byte <= 0x39 {
        Some(byte - 0x30)
    } else if 0x61 <= byte && byte <= 0x66 {
        Some(byte - 0x61 + 10)
    } else {
        None
    }
}

fn hex_digit_byte(v: u8) -> (r: u8)
    requires
        v < 16,
    ensures
        r == hex_digit(v),
        r < 0x80,
{
    if v < 10 {
        0x30 + v
    } else {
        0x61 + v - 10
    }
}

proof fn lemma_first_non_hex(t: Seq<u8>, k: int)
    requires
        0 <= k <= t.len(),
        forall|j: int| 0 <= j < k ==> is_lower_hex(t[j]),
        k == t.len() || !is_lower_hex(t[k]),
    ensures
        first_non_hex(t) == k,
    decreases t.len(),
{
    if t.len() > 0 && k > 0 {
        lemma_first_non_hex(t.drop_first(), k - 1);
    }
}

proof fn lemma_hex_prefix(t: Seq<u8>, j: int)
    requires
        0 <= j < first_non_hex(t),
        j < t.len(),
    ensures
        is_lower_hex(t[j]),
    decreases t.len(),
{
    if j > 0 {
        lemma_hex_prefix(t.drop_first(), j - 1);
        assert(t.drop_first()[j - 1] == t[j]);
    }
}

/// Spelling a hash and parsing the spelling gives the hash back.
pub proof fn lemma_hash_spelling_parses_back(h: Seq<u8>)
    requires
        h.len() == 8,
    ensures
        parse_hash(hex_of(h)) == Ok::<Seq<u8>, BaselineHashError>(h),
{
    let t = hex_of(h);
    assert forall|j: int| 0 <= j < 16 implies is_lower_hex(#[trigger] t[j]) by {
        assert(h[j / 2] / 16 < 16 && h[j / 2] % 16 < 16);
    }
    lemma_first_non_hex(t, 16);
    let parsed = Seq::new(8, |k: int| (hex_value(t[2 * k]) * 16 + hex_value(t[2 * k + 1])) as u8);
    assert forall|k: int| 0 <= k < 8 implies #[trigger] parsed[k] == h[k] by {
        assert((2 * k) / 2 == k && (2 * k) % 2 == 0);
        assert((2 * k + 1) / 2 == k && (2 * k + 1) % 2 == 1);
        assert(hex_value(t[2 * k]) == h[k] / 16);
        assert(hex_value(t[2 * k + 1]) == h[k] % 16);
    }
    assert(parsed =~= h);
}

/// A parsed hash spells back to exactly the text it was parsed from.
pub proof fn lemma_parsed_hash_spells_back(t: Seq<u8>)
    requires
        parse_hash(t) is Ok,
    ensures
        hex_of(parse_hash(t)->Ok_0) == t,
{
    let h = parse_hash(t)->Ok_0;
    assert forall|j: int| 0 <= j < 16 implies is_lower_hex(#[trigger] t[j]) by {
        lemma_hex_prefix(t, j);
    }
    assert forall|i: int| 0 <= i < 16 implies #[trigger] hex_of(h)[i] == t[i] by {
        let k = i / 2;
        assert(0 <= k < 8);
        assert(is_lower_hex(t[2 * k]) && is_lower_hex(t[2 * k + 1]));
        let hi = hex_value(t[2 * k]);
        let lo = hex_value(t[2 * k + 1]);
        assert(hi < 16 && lo < 16);
        assert(h[k] == hi * 16 + lo);
        assert(h[k] / 16 == hi && h[k] % 16 == lo);
        if i % 2 == 0 {
            assert(i == 2 * k);
        } else {
            assert(i == 2 * k + 1);
        }
    }
    assert(hex_of(h) =~= t);
}

impl BaselineHash {
    /// Computes the baseline hash of canonical source.
    pub fn from_source(source: &CanonicalSource) -> (r: Self)
        ensures
            r@ == baseline_of(source@),
    {
        Self::of_bytes(source.as_str().as_bytes())
    }

    pub(crate) fn of_bytes(bytes: &[u8]) -> (r: Self)
        ensures
            r@ == baseline_of(bytes@),
    {
        let digest = sha256(bytes);
        let mut prefix = [0u8; 8];
        let mut i: usize = 0;
        while i < 8
            invariant
                i <= 8,
                digest@.len() == 32,
                prefix@.len() == 8,
                forall|k: int| 0 <= k < i ==> prefix@[k] == digest@[k],
            decreases 8 - i,
        {
            prefix[i] = digest[i];
            i = i + 1;
        }
        let r = BaselineHash(prefix);
        assert(r@ =~= baseline_of(bytes@));
        r
    }

    /// Returns the digest prefix in digest byte order.
    pub fn as_bytes(&self) -> (r: &[u8; 8])
        ensures
            r@ == self@,
    {
        &self.0
    }

    /// Parses 16 lowercase hexadecimal digits.
    pub fn parse_bytes(value: &[u8]) -> (r: Result<Self, BaselineHashError>)
        ensures
            match r {
                Ok(h) => parse_hash(value@) == Ok::<Seq<u8>, BaselineHashError>(h@),
                Err(e) => parse_hash(value@) == Err::<Seq<u8>, BaselineHashError>(e),
            },
    {
        if value.len() != 16 {
            return Err(BaselineHashError::InvalidLength { actual: value.len() });
        }
        let mut bytes = [0u8; 8];
        let mut index: usize = 0;
        while index < 8
            invariant
                index <= 8,
                value@.len() == 16,
                bytes@.len() == 8,
                forall|j: int| 0 <= j < 2 * index ==> is_lower_hex(value@[j]),
                forall|k: int|
                    0 <= k < index ==> bytes@[k] == (hex_value(value@[2 * k]) * 16 + hex_value(
                        value@[2 * k + 1],
                    )) as u8,
            decreases 8 - index,
        {
            let high = match lowercase_hex_value(value[2 * index]) {
                Some(v) => v,
                None => {
                    proof {
                        lemma_first_non_hex(value@, 2 * index as int);
                    }
                    return Err(BaselineHashError::InvalidCharacter { index: index * 2 });
                },
            };
            let low = match lowercase_hex_value(value[2 * index + 1]) {
                Some(v) => v,
                None => {
                    proof {
                        lemma_first_non_hex(value@, 2 * index + 1);
                    }
                    return Err(BaselineHashError::InvalidCharacter { index: index * 2 + 1 });
                },
            };
            bytes[index] = high * 16 + low;
            index = index + 1;
        }
        proof {
            lemma_first_non_hex(value@, 16);
        }
        let r = BaselineHash(bytes);
        assert(r@ =~= parse_hash(value@)->Ok_0);
        Ok(r)
    }

    /// The 16-digit lowercase hexadecimal spelling, as bytes.
    pub fn hex_bytes(&self) -> (r: Vec<u8>)
        ensures
            r@ == hex_of(self@),
            all_ascii(r@),
            r@.len() == 16,
    {
        let mut out: Vec<u8> = Vec::new();
        let mut i: usize = 0;
        while i < 8
            invariant
                i <= 8,
                self@.len() == 8,
                out@.len() == 2 * i,
                forall|j: int| 0 <= j < out@.len() ==> out@[j] == hex_of(self@)[j],
                all_ascii(out@),
            decreases 8 - i,
        {
            let byte = self.0[i];
            out.push(hex_digit_byte(byte / 16));
            out.push(hex_digit_byte(byte % 16));
            i = i + 1;
        }
        assert(out@ =~= hex_of(self@));
        out
    }

    /// The 16-digit lowercase hexadecimal spelling.
    pub fn to_string(&self) -> (r: String)
        ensures
            string_bytes(r) == hex_of(self@),
    {
        let bytes = self.hex_bytes();
        proof {
            lemma_ascii_valid(bytes@);
        }
        match string_from_utf8(bytes) {
            Some(s) => s,
            None => String::new(),
        }
    }
}

impl<'a> TryFrom<&'a str> for BaselineHash {
    type Error = BaselineHashError;

    fn try_from(value: &'a str) -> (r: Result<Self, Self::Error>)
        ensures
            match r {
                Ok(h) => parse_hash(value.spec_bytes()) == Ok::<Seq<u8>, BaselineHashError>(h@),
                Err(e) => parse_hash(value.spec_bytes()) == Err::<Seq<u8>, BaselineHashError>(e),
            },
    {
        BaselineHash::parse_bytes(value.as_bytes())
    }
}

impl<'a> vstd::std_specs::convert::TryFromSpecImpl<&'a str> for BaselineHash {
    open spec fn obeys_try_from_spec() -> bool {
        false
    }

    open spec fn try_from_spec(v: &'a str) -> Result<Self, Self::Error> {
        arbitrary()
    }
}

impl core::str::FromStr for BaselineHash {
    type Err = BaselineHashError;

    fn from_str(value: &str) -> (r: Result<Self, Self::Err>)
        ensures
            match r {
                Ok(h) => parse_hash(value.spec_bytes()) == Ok::<Seq<u8>, BaselineHashError>(h@),
                Err(e) => parse_hash(value.spec_bytes()) == Err::<Seq<u8>, BaselineHashError>(e),
            },
    {
        BaselineHash::parse_bytes(value.as_bytes())
    }
}

// ---------------------------------------------------------------------------
// Canonical source
// ---------------------------------------------------------------------------

/// The UTF-8 byte-order mark.
pub open spec fn starts_with_bom(b: Seq<u8>) -> bool {
    b.len() >= 3 && b[0] == 0xef && b[1] == 0xbb && b[2] == 0xbf
}

/// Converts `CRLF` and lone `CR` to `LF`.
pub open spec fn normalize_newlines(b: Seq<u8>) -> Seq<u8>
    decreases b.len(),
{
    if b.len() == 0 {
        Seq::empty()
    } else if b[0] == CR {
        if b.len() > 1 && b[1] == LF {
            seq![LF] + normalize_newlines(b.subrange(2, b.len() as int))
        } else {
            seq![LF] + normalize_newlines(b.drop_first())
        }
    } else {
        seq![b[0]] + normalize_newlines(b.drop_first())
    }
}

/// The canonical representation of fragment source bytes: normalized line
/// endings, and a final `LF` appended to nonempty source that lacks one.
pub open spec fn canonical_bytes(b: Seq<u8>) -> Seq<u8> {
    let n = normalize_newlines(b);
    if n.len() > 0 && n.last() != LF {
        n.push(LF)
    } else {
        n
    }
}

/// A prefix without `CR` passes through normalization unchanged.
proof fn lemma_normalize_prefix(b: Seq<u8>, k: int)
    requires
        0 <= k <= b.len(),
        forall|j: int| 0 <= j < k ==> b[j] != CR,
    ensures
        normalize_newlines(b) == b.subrange(0, k) + normalize_newlines(b.subrange(k, b.len() as int)),
    decreases k,
{
    if k == 0 {
        assert(b.subrange(0, 0) + normalize_newlines(b.subrange(0, b.len() as int)) =~= normalize_newlines(b)) by {
            assert(b.subrange(0, b.len() as int) =~= b);
        }
    } else {
        let t = b.drop_first();
        lemma_normalize_prefix(t, k - 1);
        assert(t.subrange(k - 1, t.len() as int) =~= b.subrange(k, b.len() as int));
        assert(b.subrange(0, k) =~= seq![b[0]] + t.subrange(0, k - 1));
    }
}

/// Normalization never produces a `CR`, and leaves no trailing content that
/// would change when normalized again.
proof fn lemma_normalize_no_cr(b: Seq<u8>)
    ensures
        forall|j: int| 0 <= j < normalize_newlines(b).len() ==> normalize_newlines(b)[j] != CR,
    decreases b.len(),
{
    if b.len() > 0 {
        let n = normalize_newlines(b);
        if b[0] == CR && b.len() > 1 && b[1] == LF {
            let t = b.subrange(2, b.len() as int);
            lemma_normalize_no_cr(t);
            assert forall|j: int| 0 <= j < n.len() implies n[j] != CR by {
                if j > 0 {
                    assert(n[j] == normalize_newlines(t)[j - 1]);
                }
            }
        } else {
            let t = b.drop_first();
            lemma_normalize_no_cr(t);
            assert forall|j: int| 0 <= j < n.len() implies n[j] != CR by {
                if j > 0 {
                    assert(n[j] == normalize_newlines(t)[j - 1]);
                }
            }
        }
    }
}

proof fn lemma_normalize_identity(b: Seq<u8>)
    requires
        forall|j: int| 0 <= j < b.len() ==> b[j] != CR,
    ensures
        normalize_newlines(b) == b,
{
    lemma_normalize_prefix(b, b.len() as int);
    assert(b.subrange(b.len() as int, b.len() as int) =~= Seq::<u8>::empty());
    assert(b.subrange(0, b.len() as int) =~= b);
}

/// Canonicalization is idempotent.
pub proof fn lemma_canonical_idempotent(b: Seq<u8>)
    ensures
        canonical_bytes(canonical_bytes(b)) == canonical_bytes(b),
{
    let n = normalize_newlines(b);
    lemma_normalize_no_cr(b);
    let c = canonical_bytes(b);
    assert forall|j: int| 0 <= j < c.len() implies c[j] != CR by {
        if j < n.len() {
        }
    }
    lemma_normalize_identity(c);
}

/// Canonical source has no `CR`; it is empty exactly when the source is,
/// and otherwise ends with `LF`.
pub proof fn lemma_canonical_shape(b: Seq<u8>)
    ensures
        forall|j: int| 0 <= j < canonical_bytes(b).len() ==> #[trigger] canonical_bytes(b)[j] != CR,
        canonical_bytes(b).len() == 0 <==> b.len() == 0,
        canonical_bytes(b).len() > 0 ==> canonical_bytes(b).last() == LF,
{
    let n = normalize_newlines(b);
    lemma_normalize_no_cr(b);
    let c = canonical_bytes(b);
    assert forall|j: int| 0 <= j < c.len() implies #[trigger] c[j] != CR by {
        if j < n.len() {
        }
    }
    if b.len() > 0 {
        assert(n.len() > 0);
    }
}

/// UTF-8 fragment source in its canonical transferred representation.
#[derive(Debug, Hash, PartialOrd, Ord)]
pub struct CanonicalSource(String);

impl View for CanonicalSource {
    type V = Seq<u8>;

    /// The UTF-8 bytes of the canonical source.
    closed spec fn view(&self) -> Seq<u8> {
        string_bytes(self.0)
    }
}

/// Why source cannot be represented canonically.
#[derive(Clone, Copy, Debug, PartialEq, Eq, Structural)]
pub enum CanonicalSourceError {
    ByteOrderMark,
}

/// The canonical form of `bytes`, which must be valid UTF-8.
fn canonicalize(bytes: &[u8]) -> (r: String)
    requires
        valid_utf8(bytes@),
    ensures
        string_bytes(r) == canonical_bytes(bytes@),
{
    let ghost b = bytes@;
    let n = bytes.len();
    let mut out: Vec<u8> = Vec::new();
    let mut segment_start: usize = 0;
    let mut index: usize = 0;
    proof {
        lemma_ends_are_boundaries(b);
        assert(b.subrange(0, n as int) =~= b);
    }
    while index < n
        invariant
            n == b.len(),
            bytes@ == b,
            valid_utf8(b),
            segment_start <= index <= n,
            is_char_boundary(b, segment_start as int),
            forall|j: int| segment_start <= j < index ==> b[j] != CR,
            valid_utf8(out@),
            normalize_newlines(b) == out@ + normalize_newlines(b.subrange(segment_start as int, n as int)),
        decreases n - index,
    {
        if bytes[index] == CR {
            let ghost rest = b.subrange(segment_start as int, n as int);
            proof {
                lemma_ascii_boundaries(b, index as int);
                lemma_normalize_prefix(rest, (index - segment_start) as int);
                assert(rest.subrange(0, (index - segment_start) as int) =~= b.subrange(segment_start as int, index as int));
                assert(rest.subrange((index - segment_start) as int, rest.len() as int) =~= b.subrange(index as int, n as int));
                // The segment is valid UTF-8 because both ends are boundaries.
                valid_utf8_split(b, index as int);
                let head = b.subrange(0, index as int);
                lemma_boundary_prefix(b, index as int, segment_start as int);
                valid_utf8_split(head, segment_start as int);
                assert(head.subrange(segment_start as int, head.len() as int) =~= b.subrange(segment_start as int, index as int));
            }
            let mut k = segment_start;
            let ghost before = out@;
            while k < index
                invariant
                    segment_start <= k <= index <= n,
                    bytes@ == b,
                    n == b.len(),
                    out@ == before + b.subrange(segment_start as int, k as int),
                decreases index - k,
            {
                out.push(bytes[k]);
                proof {
                    assert(b.subrange(segment_start as int, k + 1) =~= b.subrange(segment_start as int, k as int).push(b[k as int]));
                }
                k = k + 1;
            }
            proof {
                valid_utf8_concat(before, b.subrange(segment_start as int, index as int));
            }
            out.push(LF);
            let ghost tail_at_cr = b.subrange(index as int, n as int);
            proof {
                lemma_ascii_valid(seq![LF]);
                valid_utf8_concat(before + b.subrange(segment_start as int, index as int), seq![LF]);
                assert(out@ =~= before + b.subrange(segment_start as int, index as int) + seq![LF]);
            }
            index = index + 1;
            if index < n && bytes[index] == LF {
                proof {
                    lemma_ascii_boundaries(b, index as int);
                    assert(tail_at_cr.subrange(2, tail_at_cr.len() as int) =~= b.subrange(index + 1, n as int));
                }
                index = index + 1;
            } else {
                proof {
                    assert(tail_at_cr.drop_first() =~= b.subrange(index as int, n as int));
                }
            }
            segment_start = index;
        } else {
            index = index + 1;
        }
    }
    let ghost rest = b.subrange(segment_start as int, n as int);
    proof {
        lemma_normalize_identity(rest);
        valid_utf8_split(b, segment_start as int);
    }
    let mut k = segment_start;
    let ghost before = out@;
    while k < n
        invariant
            segment_start <= k <= n,
            bytes@ == b,
            n == b.len(),
            out@ == before + b.subrange(segment_start as int, k as int),
        decreases n - k,
    {
        out.push(bytes[k]);
        proof {
            assert(b.subrange(segment_start as int, k + 1) =~= b.subrange(segment_start as int, k as int).push(b[k as int]));
        }
        k = k + 1;
    }
    assert(out@ == normalize_newlines(b));
    proof {
        valid_utf8_split(b, segment_start as int);
        valid_utf8_concat(before, b.subrange(segment_start as int, n as int));
    }
    let len = out.len();
    if len > 0 && out[len - 1] != LF {
        out.push(LF);
        proof {
            lemma_ascii_valid(seq![LF]);
            assert(out@ =~= normalize_newlines(b) + seq![LF]);
            valid_utf8_concat(normalize_newlines(b), seq![LF]);
        }
    }
    assert(out@ == canonical_bytes(b));
    match string_from_utf8(out) {
        Some(s) => s,
        None => String::new(),
    }
}

impl CanonicalSource {
    pub open spec fn wf_bytes(b: Seq<u8>) -> bool {
        valid_utf8(b) && canonical_bytes(b) == b
    }

    #[verifier::type_invariant]
    closed spec fn wf(&self) -> bool {
        Self::wf_bytes(self@)
    }

    /// Canonicalizes UTF-8 text that does not begin with a byte-order mark.
    pub fn new(value: &str) -> (r: Result<CanonicalSource, CanonicalSourceError>)
        ensures
            match r {
                Ok(c) => !starts_with_bom(value.spec_bytes()) && c@ == canonical_bytes(
                    value.spec_bytes(),
                ) && Self::wf_bytes(c@),
                Err(e) => starts_with_bom(value.spec_bytes()) && e
                    == CanonicalSourceError::ByteOrderMark,
            },
    {
        let bytes = value.as_bytes();
        if bytes.len() >= 3 && bytes[0] == 0xef && bytes[1] == 0xbb && bytes[2] == 0xbf {
            return Err(CanonicalSourceError::ByteOrderMark);
        }
        let c = Self::from_validated(value);
        proof {
            use_type_invariant(&c);
        }
        Ok(c)
    }

    /// Canonicalizes source already known not to begin with a byte-order mark.
    pub(crate) fn from_validated(value: &str) -> (r: CanonicalSource)
        ensures
            r@ == canonical_bytes(value.spec_bytes()),
    {
        let s = canonicalize(value.as_bytes());
        proof {
            lemma_canonical_idempotent(value.spec_bytes());
        }
        CanonicalSource(s)
    }

    /// Returns the canonical source text.
    pub fn as_str(&self) -> (r: &str)
        ensures
            r.spec_bytes() == self@,
    {
        self.0.as_str()
    }

}

impl Clone for CanonicalSource {
    fn clone(&self) -> (r: Self)
        ensures
            r@ == self@,
            Self::wf_bytes(r@),
    {
        proof {
            use_type_invariant(self);
        }
        CanonicalSource(self.0.clone())
    }
}

impl PartialEq for CanonicalSource {
    fn eq(&self, other: &Self) -> (r: bool) {
        let r = self.0 == other.0;
        proof {
            if self@ == other@ {
                assert(decode_utf8(self@) == self.0@);
                assert(decode_utf8(other@) == other.0@);
            }
        }
        r
    }
}

impl vstd::std_specs::cmp::PartialEqSpecImpl for CanonicalSource {
    open spec fn obeys_eq_spec() -> bool {
        true
    }

    open spec fn eq_spec(&self, other: &Self) -> bool {
        self@ == other@
    }
}

impl Eq for CanonicalSource {

}

impl<'a> TryFrom<&'a str> for CanonicalSource {
    type Error = CanonicalSourceError;

    fn try_from(value: &'a str) -> (r: Result<Self, Self::Error>)
        ensures
            match r {
                Ok(c) => !starts_with_bom(value.spec_bytes()) && c@ == canonical_bytes(value.spec_bytes()),
                Err(e) => starts_with_bom(value.spec_bytes()) && e == CanonicalSourceError::ByteOrderMark,
            },
    {
        CanonicalSource::new(value)
    }
}

impl<'a> vstd::std_specs::convert::TryFromSpecImpl<&'a str> for CanonicalSource {
    open spec fn obeys_try_from_spec() -> bool {
        false
    }

    open spec fn try_from_spec(v: &'a str) -> Result<Self, Self::Error> {
        arbitrary()
    }
}

impl TryFrom<String> for CanonicalSource {
    type Error = CanonicalSourceError;

    fn try_from(value: String) -> (r: Result<Self, Self::Error>)
        ensures
            match r {
                Ok(c) => !starts_with_bom(string_bytes(value)) && c@ == canonical_bytes(string_bytes(value)),
                Err(e) => starts_with_bom(string_bytes(value)) && e == CanonicalSourceError::ByteOrderMark,
            },
    {
        CanonicalSource::new(value.as_str())
    }
}

impl vstd::std_specs::convert::TryFromSpecImpl<String> for CanonicalSource {
    open spec fn obeys_try_from_spec() -> bool {
        false
    }

    open spec fn try_from_spec(v: String) -> Result<Self, Self::Error> {
        arbitrary()
    }
}


// ---------------------------------------------------------------------------
// Marker scanning
// ---------------------------------------------------------------------------

pub const SPACE: u8 = 0x20;
pub const TAB: u8 = 0x09;
pub const AT: u8 = 0x40;
pub const LBRACE: u8 = 0x7b;
pub const RBRACE: u8 = 0x7d;
pub const DASH: u8 = 0x2d;

pub open spec fn is_hspace(b: u8) -> bool {
    b == SPACE || b == TAB
}

/// The first position at or after `pos` (below `limit`) that is not
/// horizontal whitespace.
pub open spec fn skip_h(b: Seq<u8>, pos: int, limit: int) -> int
    decreases limit - pos,
{
    if pos < limit && is_hspace(b[pos]) {
        skip_h(b, pos + 1, limit)
    } else {
        pos
    }
}

/// The end of the token starting at `pos`: the first horizontal whitespace
/// or `limit`.
pub open spec fn token_end(b: Seq<u8>, pos: int, limit: int) -> int
    decreases limit - pos,
{
    if pos < limit && !is_hspace(b[pos]) {
        token_end(b, pos + 1, limit)
    } else {
        pos
    }
}

/// The end of the content of the physical line starting at `i`.
pub open spec fn content_end(b: Seq<u8>, i: int) -> int
    decreases b.len() - i,
{
    if 0 <= i < b.len() && b[i] != CR && b[i] != LF {
        content_end(b, i + 1)
    } else {
        i
    }
}

/// The start of the next physical line, given the content end of the current
/// one: past a `CRLF`, a lone `CR`, or an `LF`.
pub open spec fn line_end(b: Seq<u8>, ce: int) -> int {
    if 0 <= ce < b.len() && b[ce] == CR && ce + 1 < b.len() && b[ce + 1] == LF {
        ce + 2
    } else if 0 <= ce < b.len() {
        ce + 1
    } else {
        ce
    }
}

/// The marker comment character of a node's language, repeated twice in the
/// marker (`--` for Lua, `//` for GLSL and Lyte).
pub open spec fn comment_of(kind: NodeKind) -> u8 {
    match kind {
        NodeKind::Canvas | NodeKind::Dsp => DASH,
        NodeKind::Shader | NodeKind::LyteDsp => SLASH,
    }
}

/// Where a closing marker's hash is, or where one is inserted.
#[derive(Clone, Copy, Debug, PartialEq, Eq, Structural)]
pub enum HashLocation {
    Present { start: usize, end: usize },
    Missing { insertion: usize },
}

/// A structural error on one marker line, before line context is attached.
#[derive(Clone, Copy, Debug, PartialEq, Eq, Structural)]
pub enum MarkerError {
    MissingPath,
    UnexpectedTokens,
    InvalidPath(FragmentPathError),
    InvalidHash(BaselineHashError),
}

/// A recognized marker line.
pub enum SpecMarker {
    Open { path: Seq<u8> },
    Close { path: Seq<u8>, baseline: Option<Seq<u8>>, location: HashLocation },
}

/// The marker grammar on the line content `b[start..ce]`.
pub open spec fn spec_marker(comment: u8, b: Seq<u8>, start: int, ce: int) -> Result<
    Option<SpecMarker>,
    MarkerError,
> {
    let p0 = skip_h(b, start, ce);
    if !(p0 + 2 <= ce && b[p0] == comment && b[p0 + 1] == comment) {
        Ok(None)
    } else {
        let p1 = p0 + 2;
        let p2 = skip_h(b, p1, ce);
        let p3 = token_end(b, p2, ce);
        let token = b.subrange(p2, p3);
        if p2 == p1 {
            Ok(None)
        } else if token != seq![AT, LBRACE] && token != seq![AT, RBRACE] {
            Ok(None)
        } else {
            let opening = token == seq![AT, LBRACE];
            let p4 = skip_h(b, p3, ce);
            if p4 == p3 || p4 == ce {
                Err(MarkerError::MissingPath)
            } else {
                let p5 = token_end(b, p4, ce);
                let path = b.subrange(p4, p5);
                match path_error(path) {
                    Some(e) => Err(MarkerError::InvalidPath(e)),
                    None => {
                        let p6 = skip_h(b, p5, ce);
                        if opening {
                            if p6 != ce {
                                Err(MarkerError::UnexpectedTokens)
                            } else {
                                Ok(Some(SpecMarker::Open { path }))
                            }
                        } else if p6 == ce {
                            Ok(
                                Some(
                                    SpecMarker::Close {
                                        path,
                                        baseline: None,
                                        location: HashLocation::Missing { insertion: p5 as usize },
                                    },
                                ),
                            )
                        } else {
                            let p7 = token_end(b, p6, ce);
                            match parse_hash(b.subrange(p6, p7)) {
                                Err(e) => Err(MarkerError::InvalidHash(e)),
                                Ok(h) => {
                                    if skip_h(b, p7, ce) != ce {
                                        Err(MarkerError::UnexpectedTokens)
                                    } else {
                                        Ok(
                                            Some(
                                                SpecMarker::Close {
                                                    path,
                                                    baseline: Some(h),
                                                    location: HashLocation::Present {
                                                        start: p6 as usize,
                                                        end: p7 as usize,
                                                    },
                                                },
                                            ),
                                        )
                                    }
                                },
                            }
                        }
                    },
                }
            }
        }
    }
}

fn skip_horizontal(bytes: &[u8], pos: usize, limit: usize) -> (r: usize)
    requires
        pos <= limit <= bytes@.len(),
    ensures
        r == skip_h(bytes@, pos as int, limit as int),
        pos <= r <= limit,
        r < limit ==> !is_hspace(bytes@[r as int]),
        r > pos ==> is_hspace(bytes@[r - 1]),
{
    let mut p = pos;
    while p < limit && (bytes[p] == SPACE || bytes[p] == TAB)
        invariant
            pos <= p <= limit <= bytes@.len(),
            skip_h(bytes@, pos as int, limit as int) == skip_h(bytes@, p as int, limit as int),
            p > pos ==> is_hspace(bytes@[p - 1]),
        decreases limit - p,
    {
        p = p + 1;
    }
    p
}

fn find_token_end(bytes: &[u8], pos: usize, limit: usize) -> (r: usize)
    requires
        pos <= limit <= bytes@.len(),
    ensures
        r == token_end(bytes@, pos as int, limit as int),
        pos <= r <= limit,
        r < limit ==> is_hspace(bytes@[r as int]),
        forall|j: int| pos <= j < r ==> !is_hspace(bytes@[j]),
{
    let mut p = pos;
    while p < limit && !(bytes[p] == SPACE || bytes[p] == TAB)
        invariant
            pos <= p <= limit <= bytes@.len(),
            token_end(bytes@, pos as int, limit as int) == token_end(bytes@, p as int, limit as int),
            forall|j: int| pos <= j < p ==> !is_hspace(bytes@[j]),
        decreases limit - p,
    {
        p = p + 1;
    }
    p
}

/// The content end and next line start of the physical line at `next`.
fn line_bounds(bytes: &[u8], next: usize) -> (r: (usize, usize))
    requires
        next < bytes@.len(),
    ensures
        r.0 == content_end(bytes@, next as int),
        r.1 == line_end(bytes@, r.0 as int),
        next <= r.0 <= bytes@.len(),
        next < r.1 <= bytes@.len(),
        r.0 < bytes@.len() ==> (bytes@[r.0 as int] == CR || bytes@[r.0 as int] == LF),
        r.0 < r.1 ==> (bytes@[r.1 - 1] == CR || bytes@[r.1 - 1] == LF),
        forall|j: int| next <= j < r.0 ==> bytes@[j] != CR && bytes@[j] != LF,
{
    let n = bytes.len();
    let mut ce = next;
    while ce < n && bytes[ce] != CR && bytes[ce] != LF
        invariant
            next <= ce <= n,
            n == bytes@.len(),
            content_end(bytes@, next as int) == content_end(bytes@, ce as int),
            forall|j: int| next <= j < ce ==> bytes@[j] != CR && bytes@[j] != LF,
        decreases n - ce,
    {
        ce = ce + 1;
    }
    let end = if ce < n && bytes[ce] == CR && ce + 1 < n && bytes[ce + 1] == LF {
        ce + 2
    } else if ce < n {
        ce + 1
    } else {
        ce
    };
    (ce, end)
}

/// A recognized marker line with its validated values.
enum Marker {
    Open { path: FragmentPath },
    Close { path: FragmentPath, baseline: Option<BaselineHash>, location: HashLocation },
}

spec fn marker_view(m: Marker) -> SpecMarker {
    match m {
        Marker::Open { path } => SpecMarker::Open { path: path@ },
        Marker::Close { path, baseline, location } => SpecMarker::Close {
            path: path@,
            baseline: match baseline {
                Some(h) => Some(h@),
                None => None,
            },
            location,
        },
    }
}

spec fn marker_result_view(r: Result<Option<Marker>, MarkerError>) -> Result<
    Option<SpecMarker>,
    MarkerError,
> {
    match r {
        Ok(Some(m)) => Ok(Some(marker_view(m))),
        Ok(None) => Ok(None),
        Err(e) => Err(e),
    }
}

/// A position that follows an ASCII byte, starts at the beginning, or sits on
/// an ASCII byte is a character boundary.
proof fn lemma_boundary_near_ascii(b: Seq<u8>, i: int)
    requires
        valid_utf8(b),
        0 <= i <= b.len(),
        i == 0 || i == b.len() || b[i] < 0x80 || b[i - 1] < 0x80,
    ensures
        is_char_boundary(b, i),
{
    lemma_ends_are_boundaries(b);
    if i == 0 || i == b.len() {
    } else if b[i] < 0x80 {
        lemma_ascii_boundaries(b, i);
    } else {
        lemma_ascii_boundaries(b, i - 1);
    }
}

/// Parses one marker line `bytes[start..ce]` of `source`.
fn parse_marker(comment: u8, source: &str, bytes: &[u8], start: usize, ce: usize) -> (r: Result<
    Option<Marker>,
    MarkerError,
>)
    requires
        bytes@ == source.spec_bytes(),
        start <= ce <= bytes@.len(),
        ce == bytes@.len() || bytes@[ce as int] == CR || bytes@[ce as int] == LF,
        comment == DASH || comment == SLASH,
    ensures
        marker_result_view(r) == spec_marker(comment, bytes@, start as int, ce as int),
        r matches Ok(Some(Marker::Close { location, .. })) ==> match location {
            HashLocation::Present { start: s, end: e } => start <= s <= e <= ce
                && is_char_boundary(bytes@, s as int) && is_char_boundary(bytes@, e as int),
            HashLocation::Missing { insertion } => start <= insertion <= ce && is_char_boundary(
                bytes@,
                insertion as int,
            ),
        },
{
    let ghost b = bytes@;
    proof {
        assert(valid_utf8(b));
    }
    let p0 = skip_horizontal(bytes, start, ce);
    if !(ce - p0 >= 2 && bytes[p0] == comment && bytes[p0 + 1] == comment) {
        return Ok(None);
    }
    let p1 = p0 + 2;
    let p2 = skip_horizontal(bytes, p1, ce);
    let p3 = find_token_end(bytes, p2, ce);
    let ghost token = b.subrange(p2 as int, p3 as int);
    if p2 == p1 {
        return Ok(None);
    }
    let is_open = p3 - p2 == 2 && bytes[p2] == AT && bytes[p2 + 1] == LBRACE;
    let is_close = p3 - p2 == 2 && bytes[p2] == AT && bytes[p2 + 1] == RBRACE;
    proof {
        if p3 - p2 == 2 {
            assert(is_open <==> token =~= seq![AT, LBRACE]);
            assert(is_close <==> token =~= seq![AT, RBRACE]);
        } else {
            assert(token.len() != 2);
            assert(token != seq![AT, LBRACE]);
            assert(token != seq![AT, RBRACE]);
        }
    }
    if !is_open && !is_close {
        return Ok(None);
    }
    let p4 = skip_horizontal(bytes, p3, ce);
    if p4 == p3 || p4 == ce {
        return Err(MarkerError::MissingPath);
    }
    let p5 = find_token_end(bytes, p4, ce);
    proof {
        lemma_boundary_near_ascii(b, p4 as int);
        lemma_boundary_near_ascii(b, p5 as int);
    }
    let path_text = substr(source, p4, p5);
    let path = match FragmentPath::new(path_text.to_owned()) {
        Ok(path) => path,
        Err(e) => {
            return Err(MarkerError::InvalidPath(e));
        },
    };
    let p6 = skip_horizontal(bytes, p5, ce);
    if is_open {
        if p6 != ce {
            return Err(MarkerError::UnexpectedTokens);
        }
        return Ok(Some(Marker::Open { path }));
    }
    if p6 == ce {
        return Ok(
            Some(
                Marker::Close {
                    path,
                    baseline: None,
                    location: HashLocation::Missing { insertion: p5 },
                },
            ),
        );
    }
    let p7 = find_token_end(bytes, p6, ce);
    proof {
        lemma_boundary_near_ascii(b, p6 as int);
        lemma_boundary_near_ascii(b, p7 as int);
    }
    let baseline = match BaselineHash::parse_bytes(&bytes[p6..p7]) {
        Ok(h) => h,
        Err(e) => {
            return Err(MarkerError::InvalidHash(e));
        },
    };
    let p8 = skip_horizontal(bytes, p7, ce);
    if p8 != ce {
        return Err(MarkerError::UnexpectedTokens);
    }
    Ok(
        Some(
            Marker::Close {
                path,
                baseline: Some(baseline),
                location: HashLocation::Present { start: p6, end: p7 },
            },
        ),
    )
}


// ---------------------------------------------------------------------------
// Parsed node source
// ---------------------------------------------------------------------------

/// A structural marker error in one node source.
#[allow(inconsistent_fields)]
#[derive(Debug, PartialEq, Eq)]
pub enum ParseError {
    MissingPath { line: usize },
    UnexpectedTokens { line: usize },
    InvalidPath { line: usize, source: FragmentPathError },
    InvalidHash { line: usize, source: BaselineHashError },
    NestedOpening { line: usize, opening_line: usize },
    OrphanedClosing { line: usize },
    MismatchedClosingPath {
        line: usize,
        opening_line: usize,
        expected: FragmentPath,
        found: FragmentPath,
    },
    Unterminated { line: usize, path: FragmentPath },
    InvalidFragmentSource { line: usize, path: FragmentPath, source: CanonicalSourceError },
}

/// [`ParseError`] with paths as their bytes.
#[allow(inconsistent_fields)]
pub enum SpecParseError {
    MissingPath { line: int },
    UnexpectedTokens { line: int },
    InvalidPath { line: int, source: FragmentPathError },
    InvalidHash { line: int, source: BaselineHashError },
    NestedOpening { line: int, opening_line: int },
    OrphanedClosing { line: int },
    MismatchedClosingPath { line: int, opening_line: int, expected: Seq<u8>, found: Seq<u8> },
    Unterminated { line: int, path: Seq<u8> },
    InvalidFragmentSource { line: int, path: Seq<u8>, source: CanonicalSourceError },
}

impl View for ParseError {
    type V = SpecParseError;

    open spec fn view(&self) -> SpecParseError {
        match *self {
            ParseError::MissingPath { line } => SpecParseError::MissingPath { line: line as int },
            ParseError::UnexpectedTokens { line } => SpecParseError::UnexpectedTokens {
                line: line as int,
            },
            ParseError::InvalidPath { line, source } => SpecParseError::InvalidPath {
                line: line as int,
                source,
            },
            ParseError::InvalidHash { line, source } => SpecParseError::InvalidHash {
                line: line as int,
                source,
            },
            ParseError::NestedOpening { line, opening_line } => SpecParseError::NestedOpening {
                line: line as int,
                opening_line: opening_line as int,
            },
            ParseError::OrphanedClosing { line } => SpecParseError::OrphanedClosing {
                line: line as int,
            },
            ParseError::MismatchedClosingPath { line, opening_line, expected, found } => {
                SpecParseError::MismatchedClosingPath {
                    line: line as int,
                    opening_line: opening_line as int,
                    expected: expected@,
                    found: found@,
                }
            },
            ParseError::Unterminated { line, path } => SpecParseError::Unterminated {
                line: line as int,
                path: path@,
            },
            ParseError::InvalidFragmentSource { line, path, source } => {
                SpecParseError::InvalidFragmentSource { line: line as int, path: path@, source }
            },
        }
    }
}

pub open spec fn marker_error_at(e: MarkerError, line: int) -> SpecParseError {
    match e {
        MarkerError::MissingPath => SpecParseError::MissingPath { line },
        MarkerError::UnexpectedTokens => SpecParseError::UnexpectedTokens { line },
        MarkerError::InvalidPath(source) => SpecParseError::InvalidPath { line, source },
        MarkerError::InvalidHash(source) => SpecParseError::InvalidHash { line, source },
    }
}

/// One fragment of a parsed node source: its path, recorded baseline, source
/// span `[start, end)`, and closing-marker hash location.
pub struct SpecFragment {
    pub path: Seq<u8>,
    pub baseline: Option<Seq<u8>>,
    pub start: int,
    pub end: int,
    pub location: HashLocation,
}

/// An open fragment: its path, opening line, and source start.
pub struct SpecOpen {
    pub path: Seq<u8>,
    pub line: int,
    pub start: int,
}

/// The marker structure of the physical lines from `next` onward, given the
/// fragments found so far and the currently open fragment.
pub open spec fn spec_parse_from(
    comment: u8,
    b: Seq<u8>,
    next: int,
    number: int,
    acc: Seq<SpecFragment>,
    open: Option<SpecOpen>,
) -> Result<Seq<SpecFragment>, SpecParseError>
    decreases b.len() - next,
{
    if next < 0 || next >= b.len() {
        match open {
            Some(o) => Err(SpecParseError::Unterminated { line: o.line, path: o.path }),
            None => Ok(acc),
        }
    } else {
        let ce = content_end(b, next);
        let end = line_end(b, ce);
        proof {
            lemma_line_advances(b, next);
        }
        match spec_marker(comment, b, next, ce) {
            Err(e) => Err(marker_error_at(e, number)),
            Ok(None) => spec_parse_from(comment, b, end, number + 1, acc, open),
            Ok(Some(SpecMarker::Open { path })) => match open {
                Some(o) => Err(SpecParseError::NestedOpening { line: number, opening_line: o.line }),
                None => spec_parse_from(
                    comment,
                    b,
                    end,
                    number + 1,
                    acc,
                    Some(SpecOpen { path, line: number, start: end }),
                ),
            },
            Ok(Some(SpecMarker::Close { path, baseline, location })) => match open {
                None => Err(SpecParseError::OrphanedClosing { line: number }),
                Some(o) => if path != o.path {
                    Err(
                        SpecParseError::MismatchedClosingPath {
                            line: number,
                            opening_line: o.line,
                            expected: o.path,
                            found: path,
                        },
                    )
                } else if starts_with_bom(b.subrange(o.start, next)) {
                    Err(
                        SpecParseError::InvalidFragmentSource {
                            line: o.line + 1,
                            path: o.path,
                            source: CanonicalSourceError::ByteOrderMark,
                        },
                    )
                } else {
                    spec_parse_from(
                        comment,
                        b,
                        end,
                        number + 1,
                        acc.push(SpecFragment { path, baseline, start: o.start, end: next, location }),
                        None,
                    )
                },
            },
        }
    }
}

/// The fragments of a node source, in source order, or its first structural
/// marker error.
pub open spec fn spec_parse(kind: NodeKind, b: Seq<u8>) -> Result<Seq<SpecFragment>, SpecParseError> {
    spec_parse_from(comment_of(kind), b, 0, 1, Seq::empty(), None)
}

pub proof fn lemma_content_end(b: Seq<u8>, i: int)
    requires
        0 <= i <= b.len(),
    ensures
        i <= content_end(b, i) <= b.len(),
        content_end(b, i) < b.len() ==> (b[content_end(b, i)] == CR || b[content_end(b, i)] == LF),
        content_end(b, i) == i && i < b.len() ==> (b[i] == CR || b[i] == LF),
    decreases b.len() - i,
{
    if i < b.len() && b[i] != CR && b[i] != LF {
        lemma_content_end(b, i + 1);
    }
}

pub proof fn lemma_line_advances(b: Seq<u8>, next: int)
    requires
        0 <= next < b.len(),
    ensures
        next < line_end(b, content_end(b, next)) <= b.len(),
{
    lemma_content_end(b, next);
}

pub open spec fn location_lo(f: SpecFragment) -> int {
    match f.location {
        HashLocation::Present { start, .. } => start as int,
        HashLocation::Missing { insertion } => insertion as int,
    }
}

pub open spec fn location_hi(f: SpecFragment) -> int {
    match f.location {
        HashLocation::Present { end, .. } => end as int,
        HashLocation::Missing { insertion } => insertion as int,
    }
}

/// Parsed fragments lie in order within the source, their spans and hash
/// locations on character boundaries, each before the next.
pub open spec fn wf_fragments(b: Seq<u8>, frags: Seq<SpecFragment>) -> bool {
    &&& forall|i: int|
        0 <= i < frags.len() ==> {
            let f = #[trigger] frags[i];
            &&& 0 <= f.start <= f.end <= location_lo(f) <= location_hi(f) <= b.len()
            &&& is_char_boundary(b, f.start)
            &&& is_char_boundary(b, f.end)
            &&& is_char_boundary(b, location_lo(f))
            &&& is_char_boundary(b, location_hi(f))
            &&& is_canonical_path(f.path)
            &&& (f.location is Present <==> f.baseline is Some)
            &&& (f.baseline matches Some(h) ==> h.len() == 8)
        }
    &&& forall|i: int, j: int|
        0 <= i < j < frags.len() ==> location_hi(#[trigger] frags[i]) <= (#[trigger] frags[j]).start
}

/// One discovered fragment in embedded source.
#[derive(Clone, Copy, Debug, PartialEq, Eq)]
pub struct Fragment<'a> {
    pub path: &'a FragmentPath,
    pub baseline: Option<BaselineHash>,
    pub source: &'a str,
}

#[derive(Debug)]
struct ParsedFragment {
    path: FragmentPath,
    baseline: Option<BaselineHash>,
    source_start: usize,
    source_end: usize,
    location: HashLocation,
}

impl ParsedFragment {
    spec fn view(&self) -> SpecFragment {
        SpecFragment {
            path: self.path@,
            baseline: match self.baseline {
                Some(h) => Some(h@),
                None => None,
            },
            start: self.source_start as int,
            end: self.source_end as int,
            location: self.location,
        }
    }
}

spec fn fragment_views(v: Seq<ParsedFragment>) -> Seq<SpecFragment> {
    v.map_values(|f: ParsedFragment| f.view())
}

struct OpenFragment {
    path: FragmentPath,
    line: usize,
    source_start: usize,
}

spec fn open_view(o: Option<OpenFragment>) -> Option<SpecOpen> {
    match o {
        Some(o) => Some(SpecOpen { path: o.path@, line: o.line as int, start: o.source_start as int }),
        None => None,
    }
}

/// The bytes of a parsed node source and its fragments.
pub struct ParsedView {
    pub source: Seq<u8>,
    pub fragments: Seq<SpecFragment>,
}

/// A parsed, borrowed view of the fragments in one source-bearing node.
#[derive(Debug)]
pub struct ParsedSource<'a> {
    source: &'a str,
    fragments: Vec<ParsedFragment>,
}

impl<'a> View for ParsedSource<'a> {
    type V = ParsedView;

    closed spec fn view(&self) -> ParsedView {
        ParsedView { source: self.source.spec_bytes(), fragments: fragment_views(self.fragments@) }
    }
}

fn marker_comment(kind: NodeKind) -> (r: u8)
    ensures
        r == comment_of(kind),
        r == DASH || r == SLASH,
{
    match kind {
        NodeKind::Canvas | NodeKind::Dsp => DASH,
        NodeKind::Shader | NodeKind::LyteDsp => SLASH,
    }
}

impl<'a> ParsedSource<'a> {
    #[verifier::type_invariant]
    closed spec fn wf(&self) -> bool {
        &&& self.source.spec_bytes().len() < usize::MAX
        &&& wf_fragments(self.source.spec_bytes(), fragment_views(self.fragments@))
    }

    /// Parses and structurally validates all Zwirn markers in one node source.
    pub fn parse(kind: NodeKind, source: &'a str) -> (r: Result<Self, ParseError>)
        requires
            source.spec_bytes().len() < usize::MAX,
        ensures
            match r {
                Ok(parsed) => parsed@.source == source.spec_bytes() && spec_parse(
                    kind,
                    source.spec_bytes(),
                ) == Ok::<Seq<SpecFragment>, SpecParseError>(parsed@.fragments),
                Err(e) => spec_parse(kind, source.spec_bytes()) == Err::<
                    Seq<SpecFragment>,
                    SpecParseError,
                >(e@),
            },
    {
        let bytes = source.as_bytes();
        let ghost b = bytes@;
        let n = bytes.len();
        let comment = marker_comment(kind);
        let mut fragments: Vec<ParsedFragment> = Vec::new();
        let mut open: Option<OpenFragment> = None;
        let mut next: usize = 0;
        let mut number: usize = 1;
        proof {
            assert(valid_utf8(b));
            lemma_ends_are_boundaries(b);
            assert(fragment_views(fragments@) =~= Seq::<SpecFragment>::empty());
        }
        while next < n
            invariant
                b == bytes@,
                b == source.spec_bytes(),
                valid_utf8(b),
                n == b.len(),
                n < usize::MAX,
                comment == comment_of(kind),
                comment == DASH || comment == SLASH,
                next <= n,
                1 <= number <= next + 1,
                is_char_boundary(b, next as int),
                spec_parse(kind, b) == spec_parse_from(
                    comment,
                    b,
                    next as int,
                    number as int,
                    fragment_views(fragments@),
                    open_view(open),
                ),
                wf_fragments(b, fragment_views(fragments@)),
                forall|i: int|
                    0 <= i < fragments@.len() ==> location_hi(
                        #[trigger] fragment_views(fragments@)[i],
                    ) <= next,
                open matches Some(o) ==> o.source_start <= next && is_char_boundary(
                    b,
                    o.source_start as int,
                ) && o.line < number && is_canonical_path(o.path@) && (forall|i: int|
                    0 <= i < fragments@.len() ==> location_hi(
                        #[trigger] fragment_views(fragments@)[i],
                    ) <= o.source_start),
            decreases n - next,
        {
            let (ce, end) = line_bounds(bytes, next);
            proof {
                lemma_boundary_near_ascii(b, end as int);
            }
            let marker = parse_marker(comment, source, bytes, next, ce);
            match marker {
                Err(e) => {
                    return Err(
                        match e {
                            MarkerError::MissingPath => ParseError::MissingPath { line: number },
                            MarkerError::UnexpectedTokens => ParseError::UnexpectedTokens {
                                line: number,
                            },
                            MarkerError::InvalidPath(source) => ParseError::InvalidPath {
                                line: number,
                                source,
                            },
                            MarkerError::InvalidHash(source) => ParseError::InvalidHash {
                                line: number,
                                source,
                            },
                        },
                    );
                },
                Ok(None) => {},
                Ok(Some(Marker::Open { path })) => {
                    if let Some(o) = &open {
                        return Err(
                            ParseError::NestedOpening { line: number, opening_line: o.line },
                        );
                    }
                    proof {
                        use_type_invariant(&path);
                    }
                    open = Some(OpenFragment { path, line: number, source_start: end });
                },
                Ok(Some(Marker::Close { path, baseline, location })) => {
                    let opened = match open {
                        None => {
                            return Err(ParseError::OrphanedClosing { line: number });
                        },
                        Some(o) => o,
                    };
                    open = None;
                    if !(path == opened.path) {
                        return Err(
                            ParseError::MismatchedClosingPath {
                                line: number,
                                opening_line: opened.line,
                                expected: opened.path,
                                found: path,
                            },
                        );
                    }
                    let start = opened.source_start;
                    if next - start >= 3 && bytes[start] == 0xef && bytes[start + 1] == 0xbb
                        && bytes[start + 2] == 0xbf {
                        return Err(
                            ParseError::InvalidFragmentSource {
                                line: opened.line + 1,
                                path: opened.path,
                                source: CanonicalSourceError::ByteOrderMark,
                            },
                        );
                    }
                    proof {
                        let span = b.subrange(start as int, next as int);
                        if span.len() >= 3 {
                            assert(span[0] == b[start as int]);
                            assert(span[1] == b[start + 1]);
                            assert(span[2] == b[start + 2]);
                        }
                        assert(!starts_with_bom(span));
                    }
                    let ghost before = fragment_views(fragments@);
                    let fragment = ParsedFragment {
                        path: opened.path,
                        baseline,
                        source_start: start,
                        source_end: next,
                        location,
                    };
                    let ghost fv = fragment.view();
                    fragments.push(fragment);
                    proof {
                        assert(fragment_views(fragments@) =~= before.push(fv));
                        assert(fv.baseline is Some ==> fv.baseline->0.len() == 8) by {
                            if baseline is Some {
                                assert(baseline->0@.len() == 8);
                            }
                        }
                    }
                },
            }
            next = end;
            number = number + 1;
        }
        if let Some(o) = open {
            return Err(ParseError::Unterminated { line: o.line, path: o.path });
        }
        Ok(ParsedSource { source, fragments })
    }
}


impl<'a> ParsedSource<'a> {
    /// The fragments in embedded source order.
    pub fn fragments(&self) -> (r: Vec<Fragment<'_>>)
        ensures
            r@.len() == self@.fragments.len(),
            forall|i: int|
                0 <= i < r@.len() ==> {
                    let f = #[trigger] self@.fragments[i];
                    &&& r@[i].path@ == f.path
                    &&& hash_opt_view(r@[i].baseline) == f.baseline
                    &&& r@[i].source.spec_bytes() == self@.source.subrange(f.start, f.end)
                },
    {
        proof {
            use_type_invariant(self);
        }
        let mut out: Vec<Fragment<'_>> = Vec::new();
        let mut i: usize = 0;
        while i < self.fragments.len()
            invariant
                i <= self.fragments@.len(),
                out@.len() == i,
                wf_fragments(self.source.spec_bytes(), fragment_views(self.fragments@)),
                forall|k: int|
                    0 <= k < i ==> {
                        let f = #[trigger] fragment_views(self.fragments@)[k];
                        &&& out@[k].path@ == f.path
                        &&& hash_opt_view(out@[k].baseline) == f.baseline
                        &&& out@[k].source.spec_bytes() == self.source.spec_bytes().subrange(
                            f.start,
                            f.end,
                        )
                    },
            decreases self.fragments@.len() - i,
        {
            let fragment = &self.fragments[i];
            proof {
                let f = fragment_views(self.fragments@)[i as int];
                assert(f == fragment.view());
            }
            let text = substr(self.source, fragment.source_start, fragment.source_end);
            out.push(Fragment { path: &fragment.path, baseline: fragment.baseline, source: text });
            i = i + 1;
        }
        out
    }
}

pub open spec fn hash_opt_view(h: Option<BaselineHash>) -> Option<Seq<u8>> {
    match h {
        Some(h) => Some(h@),
        None => None,
    }
}


// ---------------------------------------------------------------------------
// Surgical rewriting
// ---------------------------------------------------------------------------

/// A requested change to one parsed fragment.
#[derive(Clone, Copy, Debug)]
pub enum FragmentUpdate<'a> {
    /// Retain exact embedded source and record its canonical hash.
    Record { path: &'a FragmentPath },
    /// Replace embedded source and record the replacement's hash.
    Replace { path: &'a FragmentPath, source: &'a CanonicalSource },
}

pub enum SpecUpdate {
    Record { path: Seq<u8> },
    Replace { path: Seq<u8>, source: Seq<u8> },
}

impl<'a> View for FragmentUpdate<'a> {
    type V = SpecUpdate;

    open spec fn view(&self) -> SpecUpdate {
        match *self {
            FragmentUpdate::Record { path } => SpecUpdate::Record { path: path@ },
            FragmentUpdate::Replace { path, source } => SpecUpdate::Replace {
                path: path@,
                source: source@,
            },
        }
    }
}

pub open spec fn update_path(u: SpecUpdate) -> Seq<u8> {
    match u {
        SpecUpdate::Record { path } => path,
        SpecUpdate::Replace { path, .. } => path,
    }
}

pub open spec fn update_views(us: Seq<FragmentUpdate>) -> Seq<SpecUpdate> {
    us.map_values(|u: FragmentUpdate| u@)
}

pub open spec fn update_paths(us: Seq<SpecUpdate>) -> Seq<Seq<u8>> {
    us.map_values(|u: SpecUpdate| update_path(u))
}

pub open spec fn has_earlier(ps: Seq<Seq<u8>>, j: int) -> bool {
    exists|k: int| 0 <= k < j && ps[k] == ps[j]
}

pub open spec fn first_dup_from(ps: Seq<Seq<u8>>, j: int) -> int
    decreases ps.len() - j,
{
    if j < 0 || j >= ps.len() {
        ps.len() as int
    } else if has_earlier(ps, j) {
        j
    } else {
        first_dup_from(ps, j + 1)
    }
}

/// The first update whose path repeats an earlier update's path, or the
/// number of updates.
pub open spec fn first_duplicate(ps: Seq<Seq<u8>>) -> int {
    first_dup_from(ps, 0)
}

/// How many fragments have path `p`.
pub open spec fn match_count(frags: Seq<SpecFragment>, p: Seq<u8>) -> nat
    decreases frags.len(),
{
    if frags.len() == 0 {
        0
    } else {
        (if frags.last().path == p {
            1nat
        } else {
            0nat
        }) + match_count(frags.drop_last(), p)
    }
}

pub open spec fn is_failing(frags: Seq<SpecFragment>, p: Seq<u8>) -> bool {
    match_count(frags, p) != 1
}

pub open spec fn any_failing(frags: Seq<SpecFragment>, ps: Seq<Seq<u8>>) -> bool {
    exists|j: int| 0 <= j < ps.len() && is_failing(frags, #[trigger] ps[j])
}

/// `p` is the least requested path, in byte order, that names no fragment or
/// more than one.
pub open spec fn is_min_failing(frags: Seq<SpecFragment>, ps: Seq<Seq<u8>>, p: Seq<u8>) -> bool {
    &&& ps.contains(p)
    &&& is_failing(frags, p)
    &&& forall|j: int|
        0 <= j < ps.len() && is_failing(frags, #[trigger] ps[j]) ==> !seq_lt(ps[j], p)
}

pub open spec fn min_failing(frags: Seq<SpecFragment>, ps: Seq<Seq<u8>>) -> Seq<u8> {
    choose|p: Seq<u8>| is_min_failing(frags, ps, p)
}

/// The index of the first update for path `p`, or the number of updates.
pub open spec fn requested_index(us: Seq<SpecUpdate>, p: Seq<u8>) -> int
    decreases us.len(),
{
    if us.len() == 0 {
        0
    } else if update_path(us[0]) == p {
        0
    } else {
        1 + requested_index(us.drop_first(), p)
    }
}

/// One replacement of the bytes `[start, end)`.
pub struct SpecEdit {
    pub start: int,
    pub end: int,
    pub text: Seq<u8>,
}

/// The hash edit of a fragment whose recorded baseline becomes `hash`:
/// nothing when it is already recorded, the token's replacement when one is
/// present, and a separating space and the hash after the path otherwise.
pub open spec fn hash_edit(f: SpecFragment, hash: Seq<u8>) -> Seq<SpecEdit> {
    if f.baseline == Some(hash) {
        Seq::empty()
    } else {
        match f.location {
            HashLocation::Present { start, end } => seq![
                SpecEdit { start: start as int, end: end as int, text: hex_of(hash) },
            ],
            HashLocation::Missing { insertion } => seq![
                SpecEdit {
                    start: insertion as int,
                    end: insertion as int,
                    text: seq![SPACE] + hex_of(hash),
                },
            ],
        }
    }
}

/// The edits that one update makes to its fragment, in source order.
pub open spec fn fragment_edits(b: Seq<u8>, f: SpecFragment, u: SpecUpdate) -> Seq<SpecEdit> {
    let current = b.subrange(f.start, f.end);
    match u {
        SpecUpdate::Record { .. } => hash_edit(f, baseline_of(canonical_bytes(current))),
        SpecUpdate::Replace { source, .. } => (if current != source {
            seq![SpecEdit { start: f.start, end: f.end, text: source }]
        } else {
            Seq::empty()
        }) + hash_edit(f, baseline_of(source)),
    }
}

/// All edits of a batch, fragment by fragment in source order.
pub open spec fn edits_for(b: Seq<u8>, frags: Seq<SpecFragment>, us: Seq<SpecUpdate>) -> Seq<
    SpecEdit,
>
    decreases frags.len(),
{
    if frags.len() == 0 {
        Seq::empty()
    } else {
        let f = frags.last();
        let k = requested_index(us, f.path);
        edits_for(b, frags.drop_last(), us) + if k < us.len() {
            fragment_edits(b, f, us[k])
        } else {
            Seq::empty()
        }
    }
}

/// The bytes from `cursor` onward with `edits` applied.
pub open spec fn apply_edits(b: Seq<u8>, edits: Seq<SpecEdit>, cursor: int) -> Seq<u8>
    decreases edits.len(),
{
    if edits.len() == 0 {
        b.subrange(cursor, b.len() as int)
    } else {
        b.subrange(cursor, edits[0].start) + edits[0].text + apply_edits(
            b,
            edits.drop_first(),
            edits[0].end,
        )
    }
}

/// The rewritten length computed edit by edit with checked arithmetic.
pub open spec fn length_fold(len: int, edits: Seq<SpecEdit>) -> Option<int>
    decreases edits.len(),
{
    if edits.len() == 0 {
        Some(len)
    } else {
        match length_fold(len, edits.drop_last()) {
            None => None,
            Some(l) => {
                let e = edits.last();
                let shorter = l - (e.end - e.start);
                let longer = shorter + e.text.len();
                if shorter < 0 || longer > usize::MAX {
                    None
                } else {
                    Some(longer)
                }
            },
        }
    }
}

/// A failure while applying fragment updates.
#[derive(Debug, PartialEq, Eq)]
pub enum RewriteError {
    DuplicateUpdate { path: FragmentPath },
    UnknownPath { path: FragmentPath },
    AmbiguousPath { path: FragmentPath },
    SourceTooLarge,
    /// Kept for callers that match on every rewrite failure; the verified
    /// rewriter never reports it.
    AllocationFailed,
}

pub enum SpecRewriteError {
    DuplicateUpdate { path: Seq<u8> },
    UnknownPath { path: Seq<u8> },
    AmbiguousPath { path: Seq<u8> },
    SourceTooLarge,
    AllocationFailed,
}

impl View for RewriteError {
    type V = SpecRewriteError;

    open spec fn view(&self) -> SpecRewriteError {
        match *self {
            RewriteError::DuplicateUpdate { path } => SpecRewriteError::DuplicateUpdate {
                path: path@,
            },
            RewriteError::UnknownPath { path } => SpecRewriteError::UnknownPath { path: path@ },
            RewriteError::AmbiguousPath { path } => SpecRewriteError::AmbiguousPath { path: path@ },
            RewriteError::SourceTooLarge => SpecRewriteError::SourceTooLarge,
            RewriteError::AllocationFailed => SpecRewriteError::AllocationFailed,
        }
    }
}

/// The result of applying a batch of updates to parsed source `b`: `None` when
/// the source is unchanged, otherwise the rewritten bytes.
pub open spec fn spec_rewrite(b: Seq<u8>, frags: Seq<SpecFragment>, us: Seq<SpecUpdate>) -> Result<
    Option<Seq<u8>>,
    SpecRewriteError,
> {
    let ps = update_paths(us);
    if us.len() == 0 {
        Ok(None)
    } else if first_duplicate(ps) < ps.len() {
        Err(SpecRewriteError::DuplicateUpdate { path: ps[first_duplicate(ps)] })
    } else if any_failing(frags, ps) {
        let p = min_failing(frags, ps);
        if match_count(frags, p) == 0 {
            Err(SpecRewriteError::UnknownPath { path: p })
        } else {
            Err(SpecRewriteError::AmbiguousPath { path: p })
        }
    } else {
        let edits = edits_for(b, frags, us);
        if edits.len() == 0 {
            Ok(None)
        } else {
            match length_fold(b.len() as int, edits) {
                None => Err(SpecRewriteError::SourceTooLarge),
                Some(_) => Ok(Some(apply_edits(b, edits, 0))),
            }
        }
    }
}

/// Byte order is total.
pub proof fn lemma_seq_lt_total(a: Seq<u8>, b: Seq<u8>)
    ensures
        a == b || seq_lt(a, b) || seq_lt(b, a),
        !(seq_lt(a, b) && seq_lt(b, a)),
        !seq_lt(a, a),
    decreases a.len(),
{
    if a.len() > 0 && b.len() > 0 && a[0] == b[0] {
        lemma_seq_lt_total(a.drop_first(), b.drop_first());
        if a.drop_first() == b.drop_first() {
            assert(a =~= seq![a[0]] + a.drop_first());
            assert(b =~= seq![b[0]] + b.drop_first());
        }
    } else if a.len() == 0 && b.len() == 0 {
        assert(a =~= b);
    }
    if a.len() > 0 {
        lemma_seq_lt_irreflexive(a);
    }
}

proof fn lemma_seq_lt_irreflexive(a: Seq<u8>)
    ensures
        !seq_lt(a, a),
    decreases a.len(),
{
    if a.len() > 0 {
        lemma_seq_lt_irreflexive(a.drop_first());
    }
}


/// The least failing path is unique.
proof fn lemma_min_failing_unique(frags: Seq<SpecFragment>, ps: Seq<Seq<u8>>, p: Seq<u8>)
    requires
        is_min_failing(frags, ps, p),
    ensures
        min_failing(frags, ps) == p,
{
    let q = min_failing(frags, ps);
    assert(is_min_failing(frags, ps, q));
    let jp = choose|j: int| 0 <= j < ps.len() && ps[j] == p;
    let jq = choose|j: int| 0 <= j < ps.len() && ps[j] == q;
    assert(!seq_lt(ps[jq], p));
    assert(!seq_lt(ps[jp], q));
    lemma_seq_lt_total(p, q);
}

proof fn lemma_first_dup(ps: Seq<Seq<u8>>, j: int)
    requires
        0 <= j <= ps.len(),
        forall|k: int| 0 <= k < j ==> !has_earlier(ps, k),
    ensures
        first_duplicate(ps) == first_dup_from(ps, j),
    decreases j,
{
    if j > 0 {
        lemma_first_dup(ps, j - 1);
    }
}

proof fn lemma_requested_index(us: Seq<SpecUpdate>, p: Seq<u8>, k: int)
    requires
        0 <= k <= us.len(),
        forall|j: int| 0 <= j < k ==> update_path(us[j]) != p,
        k == us.len() || update_path(us[k]) == p,
    ensures
        requested_index(us, p) == k,
    decreases us.len(),
{
    if us.len() > 0 && k > 0 {
        assert forall|j: int| 0 <= j < k - 1 implies update_path(us.drop_first()[j]) != p by {
            assert(us.drop_first()[j] == us[j + 1]);
        }
        lemma_requested_index(us.drop_first(), p, k - 1);
    }
}

fn update_path_of<'u>(u: &FragmentUpdate<'u>) -> (r: &'u FragmentPath)
    ensures
        r@ == update_path(u@),
{
    match *u {
        FragmentUpdate::Record { path } => path,
        FragmentUpdate::Replace { path, .. } => path,
    }
}

fn path_eq(a: &FragmentPath, b: &FragmentPath) -> (r: bool)
    ensures
        r == (a@ == b@),
{
    a == b
}

/// Finds the first update that repeats an earlier update's path.
fn find_duplicate(updates: &[FragmentUpdate]) -> (r: Option<usize>)
    ensures
        match r {
            Some(j) => j == first_duplicate(update_paths(update_views(updates@))) && j
                < updates@.len(),
            None => first_duplicate(update_paths(update_views(updates@))) == updates@.len(),
        },
{
    let ghost ps = update_paths(update_views(updates@));
    let n = updates.len();
    let mut j: usize = 0;
    while j < n
        invariant
            j <= n,
            n == updates@.len(),
            ps == update_paths(update_views(updates@)),
            ps.len() == n,
            forall|k: int| 0 <= k < j ==> !has_earlier(ps, k),
        decreases n - j,
    {
        let pj = update_path_of(&updates[j]);
        let mut k: usize = 0;
        while k < j
            invariant
                k <= j < n,
                n == updates@.len(),
                ps == update_paths(update_views(updates@)),
                ps.len() == n,
                pj@ == ps[j as int],
                forall|i: int| 0 <= i < j ==> !has_earlier(ps, i),
                forall|i: int| 0 <= i < k ==> ps[i] != ps[j as int],
            decreases j - k,
        {
            if path_eq(update_path_of(&updates[k]), pj) {
                proof {
                    assert(ps[k as int] == ps[j as int]);
                    assert(has_earlier(ps, j as int));
                    lemma_first_dup(ps, j as int);
                }
                return Some(j);
            }
            k = k + 1;
        }
        proof {
            assert(!has_earlier(ps, j as int));
        }
        j = j + 1;
    }
    proof {
        lemma_first_dup(ps, n as int);
    }
    None
}

impl<'a> ParsedSource<'a> {
    /// The number of fragments with the given path.
    fn count_matches(&self, path: &FragmentPath) -> (r: usize)
        ensures
            r == match_count(self@.fragments, path@),
    {
        let mut count: usize = 0;
        let mut i: usize = 0;
        while i < self.fragments.len()
            invariant
                i <= self.fragments@.len(),
                count == match_count(fragment_views(self.fragments@).subrange(0, i as int), path@),
                count <= i,
            decreases self.fragments@.len() - i,
        {
            proof {
                let fv = fragment_views(self.fragments@);
                assert(fv.subrange(0, i + 1).drop_last() =~= fv.subrange(0, i as int));
            }
            if path_eq(&self.fragments[i].path, path) {
                count = count + 1;
            }
            i = i + 1;
        }
        assert(fragment_views(self.fragments@).subrange(0, i as int) =~= fragment_views(
            self.fragments@,
        ));
        count
    }

    /// Finds the least requested path, in byte order, that does not name
    /// exactly one fragment.
    fn find_failing(&self, updates: &[FragmentUpdate]) -> (r: Option<(usize, usize)>)
        ensures
            match r {
                Some((j, count)) => j < updates@.len() && is_min_failing(
                    self@.fragments,
                    update_paths(update_views(updates@)),
                    update_paths(update_views(updates@))[j as int],
                ) && count == match_count(
                    self@.fragments,
                    update_paths(update_views(updates@))[j as int],
                ),
                None => !any_failing(self@.fragments, update_paths(update_views(updates@))),
            },
    {
        let ghost ps = update_paths(update_views(updates@));
        let ghost frags = self@.fragments;
        let n = updates.len();
        let mut best: Option<(usize, usize)> = None;
        let mut j: usize = 0;
        while j < n
            invariant
                j <= n,
                n == updates@.len(),
                ps == update_paths(update_views(updates@)),
                ps.len() == n,
                frags == self@.fragments,
                match best {
                    Some((b, count)) => b < j && is_failing(frags, ps[b as int]) && count
                        == match_count(frags, ps[b as int]) && forall|k: int|
                        0 <= k < j && is_failing(frags, #[trigger] ps[k]) ==> !seq_lt(
                            ps[k],
                            ps[b as int],
                        ),
                    None => forall|k: int| 0 <= k < j ==> !is_failing(frags, #[trigger] ps[k]),
                },
            decreases n - j,
        {
            let pj = update_path_of(&updates[j]);
            let count = self.count_matches(pj);
            if count != 1 {
                match best {
                    None => {
                        proof {
                            lemma_seq_lt_total(ps[j as int], ps[j as int]);
                        }
                        best = Some((j, count));
                    },
                    Some((b, _)) => {
                        let pb = update_path_of(&updates[b]);
                        if bytes_lt(pj.as_str().as_bytes(), pb.as_str().as_bytes()) {
                            proof {
                                assert forall|k: int|
                                    0 <= k < j + 1 && is_failing(frags, #[trigger] ps[k]) implies !seq_lt(
                                    ps[k],
                                    ps[j as int],
                                ) by {
                                    lemma_seq_lt_total(ps[k], ps[j as int]);
                                    if k < j && seq_lt(ps[k], ps[j as int]) {
                                        crate::text::lemma_seq_lt_transitive(ps[k], ps[j as int], ps[b as int]);
                                    }
                                }
                            }
                            best = Some((j, count));
                        } else {
                            proof {
                                lemma_seq_lt_total(ps[j as int], ps[b as int]);
                            }
                        }
                    },
                }
            }
            j = j + 1;
        }
        proof {
            if let Some((b, _)) = best {
                assert(ps.contains(ps[b as int]));
            }
        }
        best
    }

    /// The canonical baseline of a fragment's current embedded source.
    fn current_hash(&self, i: usize) -> (r: BaselineHash)
        requires
            i < self@.fragments.len(),
        ensures
            r@ == baseline_of(
                canonical_bytes(
                    self@.source.subrange(self@.fragments[i as int].start, self@.fragments[i as int].end),
                ),
            ),
    {
        proof {
            use_type_invariant(self);
        }
        let fragment = &self.fragments[i];
        let text = substr(self.source, fragment.source_start, fragment.source_end);
        let current = CanonicalSource::from_validated(text);
        BaselineHash::from_source(&current)
    }
}


struct TextEdit {
    start: usize,
    end: usize,
    replacement: Vec<u8>,
}

impl TextEdit {
    spec fn view(&self) -> SpecEdit {
        SpecEdit { start: self.start as int, end: self.end as int, text: self.replacement@ }
    }
}

spec fn edit_views(v: Seq<TextEdit>) -> Seq<SpecEdit> {
    v.map_values(|e: TextEdit| e.view())
}

/// Edits lie in order within the source, on character boundaries, and
/// replace with valid UTF-8.
pub open spec fn edits_wf(b: Seq<u8>, edits: Seq<SpecEdit>) -> bool {
    &&& forall|k: int|
        0 <= k < edits.len() ==> {
            let e = #[trigger] edits[k];
            &&& 0 <= e.start <= e.end <= b.len()
            &&& is_char_boundary(b, e.start)
            &&& is_char_boundary(b, e.end)
            &&& valid_utf8(e.text)
        }
    &&& forall|k: int, l: int|
        0 <= k < l < edits.len() ==> (#[trigger] edits[k]).end <= (#[trigger] edits[l]).start
}

/// Appends the hash edit of fragment `f` (at `location`) for `hash`.
fn push_hash_edit(
    edits: &mut Vec<TextEdit>,
    baseline: Option<BaselineHash>,
    location: HashLocation,
    hash: BaselineHash,
    Ghost(f): Ghost<SpecFragment>,
)
    requires
        f.baseline == hash_opt_view(baseline),
        f.location == location,
    ensures
        edit_views(final(edits)@) == edit_views(old(edits)@) + hash_edit(f, hash@),
        forall|k: int|
            edit_views(old(edits)@).len() <= k < edit_views(final(edits)@).len() ==> {
                let e = #[trigger] edit_views(final(edits)@)[k];
                &&& e.start == location_lo(f)
                &&& e.end == location_hi(f)
                &&& valid_utf8(e.text)
            },
{
    let ghost before = edit_views(edits@);
    let recorded = match baseline {
        Some(h) => h == hash,
        None => false,
    };
    if recorded {
        assert(edit_views(edits@) =~= before + hash_edit(f, hash@));
        return;
    }
    let hex = hash.hex_bytes();
    match location {
        HashLocation::Present { start, end } => {
            proof {
                lemma_ascii_valid(hex@);
            }
            edits.push(TextEdit { start, end, replacement: hex });
        },
        HashLocation::Missing { insertion } => {
            let mut text: Vec<u8> = Vec::new();
            text.push(SPACE);
            push_all(&mut text, hex.as_slice());
            proof {
                assert(text@ =~= seq![SPACE] + hex@);
                assert(all_ascii(text@));
                lemma_ascii_valid(text@);
            }
            edits.push(TextEdit { start: insertion, end: insertion, replacement: text });
        },
    }
    assert(edit_views(edits@) =~= before + hash_edit(f, hash@));
}

impl<'a> ParsedSource<'a> {
    /// The edits of a batch whose paths are distinct and each name exactly
    /// one fragment.
    fn collect_edits(&self, updates: &[FragmentUpdate]) -> (r: Vec<TextEdit>)
        ensures
            edit_views(r@) == edits_for(self@.source, self@.fragments, update_views(updates@)),
            edits_wf(self@.source, edit_views(r@)),
    {
        proof {
            use_type_invariant(self);
        }
        let ghost b = self@.source;
        let ghost frags = self@.fragments;
        let ghost us = update_views(updates@);
        let mut edits: Vec<TextEdit> = Vec::new();
        let ghost mut bound: int = 0;
        let mut i: usize = 0;
        while i < self.fragments.len()
            invariant
                b == self@.source,
                frags == self@.fragments,
                us == update_views(updates@),
                valid_utf8(b),
                wf_fragments(b, frags),
                i <= frags.len(),
                edit_views(edits@) == edits_for(b, frags.subrange(0, i as int), us),
                edits_wf(b, edit_views(edits@)),
                0 <= bound,
                i < frags.len() ==> bound <= frags[i as int].start,
                i == frags.len() ==> bound <= b.len(),
                forall|k: int| 0 <= k < edits@.len() ==> (#[trigger] edit_views(edits@)[k]).end <= bound,
            decreases frags.len() - i,
        {
            let fragment = &self.fragments[i];
            let ghost f = frags[i as int];
            assert(f == fragment.view());
            // The update for this fragment, if any.
            let mut k: usize = 0;
            while k < updates.len() && !path_eq(update_path_of(&updates[k]), &fragment.path)
                invariant
                    k <= updates@.len(),
                    us == update_views(updates@),
                    fragment.path@ == f.path,
                    forall|j: int| 0 <= j < k ==> update_path(#[trigger] us[j]) != f.path,
                decreases updates@.len() - k,
            {
                k = k + 1;
            }
            proof {
                lemma_requested_index(us, f.path, k as int);
            }
            let ghost before = edit_views(edits@);
            if k < updates.len() {
                let update = updates[k];
                let hash = match update {
                    FragmentUpdate::Record { .. } => self.current_hash(i),
                    FragmentUpdate::Replace { source, .. } => {
                        let text = substr(self.source, fragment.source_start, fragment.source_end);
                        if !bytes_eq(text.as_bytes(), source.as_str().as_bytes()) {
                            let replacement = slice_to_vec(source.as_str().as_bytes());
                            proof {
                                assert(valid_utf8(replacement@));
                            }
                            edits.push(
                                TextEdit {
                                    start: fragment.source_start,
                                    end: fragment.source_end,
                                    replacement,
                                },
                            );
                        }
                        BaselineHash::from_source(source)
                    },
                };
                let ghost mid = edit_views(edits@);
                push_hash_edit(&mut edits, fragment.baseline, fragment.location, hash, Ghost(f));
                proof {
                    assert(edit_views(edits@) =~= before + fragment_edits(b, f, us[k as int]));
                }
            }
            proof {
                let next_bound = location_hi(f);
                let all = edit_views(edits@);
                assert(frags.subrange(0, i + 1).drop_last() =~= frags.subrange(0, i as int));
                assert(frags.subrange(0, i + 1).last() == f);
                assert forall|k2: int| 0 <= k2 < all.len() implies (#[trigger] all[k2]).end <= next_bound by {
                    if k2 < before.len() {
                        assert(all[k2] == before[k2]);
                    }
                }
                assert forall|k1: int, l1: int|
                    0 <= k1 < l1 < all.len() implies (#[trigger] all[k1]).end <= (#[trigger] all[l1]).start by {
                    if l1 < before.len() {
                        assert(all[k1] == before[k1]);
                        assert(all[l1] == before[l1]);
                    } else if k1 < before.len() {
                        assert(all[k1] == before[k1]);
                    }
                }
                if i + 1 < frags.len() {
                    assert(location_hi(frags[i as int]) <= frags[i + 1].start);
                }
                bound = next_bound;
            }
            i = i + 1;
        }
        assert(frags.subrange(0, frags.len() as int) =~= frags);
        edits
    }
}

fn final_length(initial: usize, edits: &Vec<TextEdit>) -> (r: Option<usize>)
    requires
        forall|k: int| 0 <= k < edits@.len() ==> (#[trigger] edits@[k]).start <= edits@[k].end,
    ensures
        match r {
            Some(l) => length_fold(initial as int, edit_views(edits@)) == Some(l as int),
            None => length_fold(initial as int, edit_views(edits@)) is None,
        },
{
    let mut length = initial;
    let mut k: usize = 0;
    while k < edits.len()
        invariant
            k <= edits@.len(),
            length_fold(initial as int, edit_views(edits@).subrange(0, k as int)) == Some(
                length as int,
            ),
            forall|j: int| 0 <= j < edits@.len() ==> (#[trigger] edits@[j]).start <= edits@[j].end,
        decreases edits@.len() - k,
    {
        let edit = &edits[k];
        let ghost prefix = edit_views(edits@).subrange(0, k + 1);
        proof {
            assert(prefix.drop_last() =~= edit_views(edits@).subrange(0, k as int));
            assert(prefix.last() == edit.view());
        }
        let removed = edit.end - edit.start;
        if length < removed {
            proof {
                lemma_length_fold_none_extends(initial as int, edit_views(edits@), k + 1);
            }
            return None;
        }
        let shorter = length - removed;
        if shorter > usize::MAX - edit.replacement.len() {
            proof {
                lemma_length_fold_none_extends(initial as int, edit_views(edits@), k + 1);
            }
            return None;
        }
        length = shorter + edit.replacement.len();
        k = k + 1;
    }
    assert(edit_views(edits@).subrange(0, k as int) =~= edit_views(edits@));
    Some(length)
}

proof fn lemma_length_fold_none_extends(len: int, edits: Seq<SpecEdit>, k: int)
    requires
        0 <= k <= edits.len(),
        length_fold(len, edits.subrange(0, k)) is None,
    ensures
        length_fold(len, edits) is None,
    decreases edits.len() - k,
{
    if k < edits.len() {
        assert(edits.subrange(0, k + 1).drop_last() =~= edits.subrange(0, k));
        lemma_length_fold_none_extends(len, edits, k + 1);
    } else {
        assert(edits.subrange(0, k) =~= edits);
    }
}

/// Applies ordered edits to the source bytes.
fn apply_all(bytes: &[u8], edits: &Vec<TextEdit>) -> (r: Vec<u8>)
    requires
        valid_utf8(bytes@),
        edits_wf(bytes@, edit_views(edits@)),
    ensures
        r@ == apply_edits(bytes@, edit_views(edits@), 0),
        valid_utf8(r@),
{
    let ghost b = bytes@;
    let ghost all = edit_views(edits@);
    let mut out: Vec<u8> = Vec::new();
    let mut cursor: usize = 0;
    let mut k: usize = 0;
    proof {
        lemma_ends_are_boundaries(b);
        assert(all.subrange(0, all.len() as int) =~= all);
        assert(out@ + apply_edits(b, all, 0) =~= apply_edits(b, all, 0));
    }
    while k < edits.len()
        invariant
            b == bytes@,
            all == edit_views(edits@),
            valid_utf8(b),
            edits_wf(b, all),
            k <= all.len(),
            cursor <= b.len(),
            is_char_boundary(b, cursor as int),
            k < all.len() ==> cursor <= all[k as int].start,
            valid_utf8(out@),
            out@ + apply_edits(b, all.subrange(k as int, all.len() as int), cursor as int)
                == apply_edits(b, all, 0),
        decreases all.len() - k,
    {
        let edit = &edits[k];
        let ghost e = all[k as int];
        let ghost rest = all.subrange(k as int, all.len() as int);
        proof {
            assert(e == edit.view());
            assert(rest[0] == e);
            assert(rest.drop_first() =~= all.subrange(k + 1, all.len() as int));
            lemma_valid_segment(b, cursor as int, e.start);
        }
        let ghost before = out@;
        push_all(&mut out, &bytes[cursor..edit.start]);
        push_all(&mut out, edit.replacement.as_slice());
        proof {
            valid_utf8_concat(before, b.subrange(cursor as int, e.start));
            valid_utf8_concat(before + b.subrange(cursor as int, e.start), e.text);
            assert(out@ =~= before + b.subrange(cursor as int, e.start) + e.text);
            if k + 1 < all.len() {
                assert(all[k as int].end <= all[k + 1].start);
            }
        }
        cursor = edit.end;
        k = k + 1;
    }
    let ghost before = out@;
    proof {
        lemma_valid_segment(b, cursor as int, b.len() as int);
        assert(all.subrange(k as int, all.len() as int) =~= Seq::<SpecEdit>::empty());
    }
    push_all(&mut out, &bytes[cursor..bytes.len()]);
    proof {
        valid_utf8_concat(before, b.subrange(cursor as int, b.len() as int));
    }
    out
}

impl<'a> ParsedSource<'a> {
    /// Applies a batch of source and baseline updates surgically.
    pub fn rewrite<'update>(&self, updates: &[FragmentUpdate<'update>]) -> (r: Result<
        Cow<'a, str>,
        RewriteError,
    >)
        ensures
            match r {
                Ok(Cow::Borrowed(s)) => s.spec_bytes() == self@.source && spec_rewrite(
                    self@.source,
                    self@.fragments,
                    update_views(updates@),
                ) == Ok::<Option<Seq<u8>>, SpecRewriteError>(None),
                Ok(Cow::Owned(s)) => spec_rewrite(
                    self@.source,
                    self@.fragments,
                    update_views(updates@),
                ) == Ok::<Option<Seq<u8>>, SpecRewriteError>(Some(string_bytes(s))),
                Err(e) => spec_rewrite(self@.source, self@.fragments, update_views(updates@))
                    == Err::<Option<Seq<u8>>, SpecRewriteError>(e@),
            },
    {
        proof {
            use_type_invariant(self);
        }
        let ghost b = self@.source;
        let ghost frags = self@.fragments;
        let ghost us = update_views(updates@);
        let ghost ps = update_paths(us);
        if updates.len() == 0 {
            return Ok(Cow::Borrowed(self.source));
        }
        if let Some(j) = find_duplicate(updates) {
            let path = update_path_of(&updates[j]).clone();
            return Err(RewriteError::DuplicateUpdate { path });
        }
        if let Some((j, count)) = self.find_failing(updates) {
            proof {
                lemma_min_failing_unique(frags, ps, ps[j as int]);
            }
            let path = update_path_of(&updates[j]).clone();
            if count == 0 {
                return Err(RewriteError::UnknownPath { path });
            } else {
                return Err(RewriteError::AmbiguousPath { path });
            }
        }
        let edits = self.collect_edits(updates);
        if edits.len() == 0 {
            return Ok(Cow::Borrowed(self.source));
        }
        proof {
            assert forall|k: int| 0 <= k < edits@.len() implies (#[trigger] edits@[k]).start
                <= edits@[k].end by {
                assert(edit_views(edits@)[k] == edits@[k].view());
            }
        }
        if final_length(self.source.as_bytes().len(), &edits).is_none() {
            return Err(RewriteError::SourceTooLarge);
        }
        let bytes = apply_all(self.source.as_bytes(), &edits);
        let ghost out = bytes@;
        match string_from_utf8(bytes) {
            Some(s) => Ok(Cow::Owned(s)),
            None => {
                proof {
                    assert(false);
                }
                Err(RewriteError::AllocationFailed)
            },
        }
    }
}

} // verus!
