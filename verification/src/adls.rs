//! Narrow, preservation-oriented access to source fields in Audulus documents.
//!
//! An `.audulus4` document is one FlatBuffer with the `ADLS` identifier. The
//! spec functions below read it the way the format is laid out: little-endian
//! words, `uoffset` targets, and table fields found through their vtables.

use vstd::prelude::*;
use vstd::utf8::*;
use vstd::string::*;
use std::borrow::Cow;

use crate::fragment::{baseline_of, BaselineHash};
use crate::text::{bytes_eq, push_all, str_from_utf8};

verus! {

broadcast use {vstd::utf8::encode_utf8_valid_utf8, vstd::utf8::encode_utf8_decode_utf8};

pub const HEADER_SIZE: usize = 8;
pub const MAX_REWRITTEN_ADLS_SIZE: usize = 0x8000_0000;
pub const U32_SIZE: usize = 4;
pub const VTABLE_HEADER_SIZE: usize = 4;

// ---------------------------------------------------------------------------
// Reading the format
// ---------------------------------------------------------------------------

pub open spec fn u16_at(b: Seq<u8>, i: int) -> int {
    b[i] as int + 256 * b[i + 1] as int
}

pub open spec fn u32_at(b: Seq<u8>, i: int) -> int {
    b[i] as int + 256 * b[i + 1] as int + 65536 * b[i + 2] as int + 16777216 * b[i + 3] as int
}

pub open spec fn i32_at(b: Seq<u8>, i: int) -> int {
    let u = u32_at(b, i);
    if u >= 0x8000_0000 {
        u - 0x1_0000_0000
    } else {
        u
    }
}

/// The target of the `uoffset` stored at `loc`.
pub open spec fn uoffset_target(b: Seq<u8>, loc: int) -> int {
    loc + u32_at(b, loc)
}

/// The vtable of the table at `table`, reached through its signed offset.
pub open spec fn vtable_of(b: Seq<u8>, table: int) -> int {
    table - i32_at(b, table)
}

/// The location of field `index` of the table at `table`: absent when the
/// vtable is too short for the entry or the entry is zero.
pub open spec fn spec_field(b: Seq<u8>, table: int, index: int) -> Option<int> {
    let vt = vtable_of(b, table);
    if 4 + 2 * index + 2 > u16_at(b, vt) {
        None
    } else {
        let offset = u16_at(b, vt + 4 + 2 * index);
        if offset == 0 {
            None
        } else {
            Some(table + offset)
        }
    }
}

pub open spec fn root_table(b: Seq<u8>) -> int {
    uoffset_target(b, 0)
}

pub open spec fn pool_vector(b: Seq<u8>) -> int {
    uoffset_target(b, spec_field(b, root_table(b), 0).unwrap())
}

pub open spec fn pool_count(b: Seq<u8>) -> int {
    u32_at(b, pool_vector(b))
}

pub open spec fn object_table(b: Seq<u8>, i: int) -> int {
    uoffset_target(b, pool_vector(b) + 4 + 4 * i)
}

/// A patch object's node type; an absent field is Module (`0`).
pub open spec fn type_id_of(b: Seq<u8>, object: int) -> int {
    match spec_field(b, object, 0) {
        Some(l) => u32_at(b, l),
        None => 0,
    }
}

/// A kind of Audulus node whose `f10` field contains source code.
#[derive(Clone, Copy, Debug, PartialEq, Eq, Structural, Hash)]
pub enum NodeKind {
    Shader,
    Canvas,
    Dsp,
    LyteDsp,
}

pub open spec fn kind_of_type(type_id: int) -> Option<NodeKind> {
    if type_id == 74 {
        Some(NodeKind::Shader)
    } else if type_id == 78 {
        Some(NodeKind::Canvas)
    } else if type_id == 79 {
        Some(NodeKind::Dsp)
    } else if type_id == 82 {
        Some(NodeKind::LyteDsp)
    } else {
        None
    }
}

impl NodeKind {
    fn from_type_id(type_id: u32) -> (r: Option<Self>)
        ensures
            r == kind_of_type(type_id as int),
    {
        match type_id {
            74 => Some(Self::Shader),
            78 => Some(Self::Canvas),
            79 => Some(Self::Dsp),
            82 => Some(Self::LyteDsp),
            _ => None,
        }
    }
}

/// One present source field: the patch-object index, the node kind, the
/// location of its `f10` field, and the bytes of its string.
pub struct SpecSource {
    pub index: int,
    pub kind: NodeKind,
    pub field: int,
    pub source: Seq<u8>,
}

/// The source field of patch object `i`, when it is a source-bearing node
/// with a present `f10`.
pub open spec fn source_of_object(b: Seq<u8>, i: int) -> Option<SpecSource> {
    let object = object_table(b, i);
    match kind_of_type(type_id_of(b, object)) {
        None => None,
        Some(kind) => match spec_field(b, object, 10) {
            None => None,
            Some(field) => {
                let s = uoffset_target(b, field);
                let length = u32_at(b, s);
                Some(SpecSource { index: i, kind, field, source: b.subrange(s + 4, s + 4 + length) })
            },
        },
    }
}

pub open spec fn sources_upto(b: Seq<u8>, n: int) -> Seq<SpecSource>
    decreases n,
{
    if n <= 0 {
        Seq::empty()
    } else {
        sources_upto(b, n - 1) + match source_of_object(b, n - 1) {
            Some(s) => seq![s],
            None => Seq::empty(),
        }
    }
}

/// Every present source field, in patch-object vector order.
pub open spec fn document_sources(b: Seq<u8>) -> Seq<SpecSource> {
    sources_upto(b, pool_count(b))
}

pub open spec fn has_adls_identifier(b: Seq<u8>) -> bool {
    b[4] == 0x41 && b[5] == 0x44 && b[6] == 0x4c && b[7] == 0x53
}

// ---------------------------------------------------------------------------
// Handles and errors
// ---------------------------------------------------------------------------

/// The document identity of handles: the 64-bit SHA-256 prefix of the
/// document bytes, read big-endian.
pub open spec fn be_u64(h: Seq<u8>) -> int
    decreases h.len(),
{
    if h.len() == 0 {
        0
    } else {
        be_u64(h.drop_last()) * 256 + h.last() as int
    }
}

pub open spec fn fingerprint_of(b: Seq<u8>) -> u64 {
    be_u64(baseline_of(b)) as u64
}

#[derive(Clone, Copy, Debug, PartialEq, Eq, Structural, Hash, PartialOrd, Ord)]
struct DocumentId(u64);

/// A patch-object index in one parsed document.
///
/// Handles are only meaningful with the [`Document`] that produced them; a
/// handle carries the identity of its document's bytes.
#[derive(Clone, Copy, Debug, PartialEq, Eq, Structural, Hash, PartialOrd, Ord)]
pub struct NodeHandle {
    index: u32,
    document: DocumentId,
}

pub struct NodeHandleView {
    pub index: u32,
    pub document: u64,
}

impl View for NodeHandle {
    type V = NodeHandleView;

    closed spec fn view(&self) -> NodeHandleView {
        NodeHandleView { index: self.index, document: self.document.0 }
    }
}

impl NodeHandle {
    /// Returns this node's index in the document's patch-object pool.
    pub fn index(self) -> (r: u32)
        ensures
            r == self@.index,
    {
        self.index
    }
}

/// Failures while parsing or rewriting the narrow ADLS source view.
#[derive(Debug)]
pub enum Error {
    InvalidHeader,
    InvalidIdentifier,
    Malformed { offset: usize, structure: &'static str },
    MissingPatchObjectPool,
    DuplicatePatchObjectTable { first_index: u32, second_index: u32 },
    InvalidSourceUtf8 { node: NodeHandle },
    UnknownNodeHandle { node: NodeHandle },
    DuplicateReplacement { node: NodeHandle },
    SizeLimitExceeded,
}

fn malformed(offset: usize, structure: &'static str) -> (r: Error)
    ensures
        r == (Error::Malformed { offset, structure }),
{
    Error::Malformed { offset, structure }
}

fn fingerprint(bytes: &[u8]) -> (r: u64)
    ensures
        r == fingerprint_of(bytes@),
{
    let h = BaselineHash::of_bytes(bytes);
    let prefix = h.as_bytes();
    let mut v: u64 = 0;
    let mut i: usize = 0;
    while i < 8
        invariant
            i <= 8,
            prefix@ == baseline_of(bytes@),
            prefix@.len() == 8,
            v as int == be_u64(prefix@.subrange(0, i as int)),
            v as int <= pow256(i as int) - 1,
        decreases 8 - i,
    {
        proof {
            assert(prefix@.subrange(0, i + 1).drop_last() =~= prefix@.subrange(0, i as int));
            assert(pow256(i + 1) == pow256(i as int) * 256);
            assert(v * 256 + prefix@[i as int] <= (pow256(i as int) - 1) * 256 + 255) by (nonlinear_arith)
                requires v <= pow256(i as int) - 1, prefix@[i as int] <= 255;
            assert(pow256(i as int) <= 0x1_0000_0000_0000_00) by {
                lemma_pow256_bound(i as int);
            }
        }
        v = v * 256 + prefix[i] as u64;
        i = i + 1;
    }
    assert(prefix@.subrange(0, 8) =~= prefix@);
    v
}

spec fn pow256(i: int) -> int
    decreases i,
{
    if i <= 0 {
        1
    } else {
        256 * pow256(i - 1)
    }
}

proof fn lemma_pow256_bound(i: int)
    requires
        0 <= i < 8,
    ensures
        pow256(i) <= 0x1_0000_0000_0000_00,
        pow256(i) >= 1,
{
    assert(pow256(0) == 1 && pow256(1) == 0x100 && pow256(2) == 0x1_0000 && pow256(3)
        == 0x100_0000 && pow256(4) == 0x1_0000_0000 && pow256(5) == 0x100_0000_0000 && pow256(6)
        == 0x1_0000_0000_0000 && pow256(7) == 0x100_0000_0000_0000) by {
        reveal_with_fuel(pow256, 8);
    }
    assert(i == 0 || i == 1 || i == 2 || i == 3 || i == 4 || i == 5 || i == 6 || i == 7);
}

// ---------------------------------------------------------------------------
// What a well-formed document is
// ---------------------------------------------------------------------------

/// A `uoffset` at `loc` that can be followed: aligned, nonzero, and aimed at
/// an aligned location inside the buffer.
pub open spec fn uoffset_ok(b: Seq<u8>, loc: int) -> bool {
    &&& loc % 4 == 0
    &&& loc + 4 <= b.len()
    &&& u32_at(b, loc) != 0
    &&& uoffset_target(b, loc) % 4 == 0
    &&& uoffset_target(b, loc) < b.len()
}

/// The vtable entry at byte offset `e` of the vtable at `vt`.
pub open spec fn entry_at(b: Seq<u8>, vt: int, e: int) -> int {
    u16_at(b, vt + e)
}

pub open spec fn vtable_length_of(b: Seq<u8>, table: int) -> int {
    u16_at(b, vtable_of(b, table))
}

pub open spec fn object_length_of(b: Seq<u8>, table: int) -> int {
    u16_at(b, vtable_of(b, table) + 2)
}

/// Every present entry of the vtable points inside the table, past its
/// vtable offset.
pub open spec fn entries_in_table(b: Seq<u8>, vt: int, vtable_length: int, object_length: int) -> bool {
    forall|e: int|
        4 <= e < vtable_length && e % 2 == 0 ==> #[trigger] entry_at(b, vt, e) == 0 || (4
            <= entry_at(b, vt, e) < object_length)
}

/// A table at `loc` whose vtable and inline span lie inside the buffer.
pub open spec fn table_ok(b: Seq<u8>, loc: int) -> bool {
    let vt = vtable_of(b, loc);
    &&& loc % 4 == 0
    &&& loc + 4 <= b.len()
    &&& i32_at(b, loc) != 0
    &&& vt >= 0
    &&& vt % 2 == 0
    &&& vt + 4 <= b.len()
    &&& vtable_length_of(b, loc) >= 4
    &&& vtable_length_of(b, loc) % 2 == 0
    &&& object_length_of(b, loc) >= 4
    &&& vt + vtable_length_of(b, loc) <= b.len()
    &&& loc + object_length_of(b, loc) <= b.len()
    &&& entries_in_table(b, vt, vtable_length_of(b, loc), object_length_of(b, loc))
}

/// Field `index` of the table at `table`, a `u32`, is absent or stored
/// aligned inside the table with no other field starting inside it.
pub open spec fn field_ok(b: Seq<u8>, table: int, index: int) -> bool {
    let vt = vtable_of(b, table);
    let entry = 4 + 2 * index;
    let offset = entry_at(b, vt, entry);
    ||| entry + 2 > vtable_length_of(b, table)
    ||| offset == 0
    ||| {
        &&& offset + 4 <= object_length_of(b, table)
        &&& forall|e: int|
            4 <= e < vtable_length_of(b, table) && e % 2 == 0 && e != entry ==> !(offset
                <= #[trigger] entry_at(b, vt, e) < offset + 4)
        &&& (table + offset) % 4 == 0
        &&& table + offset + 4 <= b.len()
    }
}

/// A length-prefixed, NUL-terminated UTF-8 string reached through the
/// `uoffset` at `field`.
pub open spec fn string_ok(b: Seq<u8>, field: int) -> bool {
    let s = uoffset_target(b, field);
    let length = u32_at(b, s);
    &&& uoffset_ok(b, field)
    &&& s + 4 <= b.len()
    &&& s + 4 + length < b.len()
    &&& b[s + 4 + length] == 0
    &&& valid_utf8(b.subrange(s + 4, s + 4 + length))
}

pub open spec fn element_location(b: Seq<u8>, i: int) -> int {
    pool_vector(b) + 4 + 4 * i
}

/// Patch object `i` is reachable, a valid table, and (when it is a source
/// node with a present `f10`) carries a valid source string.
pub open spec fn object_ok(b: Seq<u8>, i: int) -> bool {
    let object = object_table(b, i);
    &&& uoffset_ok(b, element_location(b, i))
    &&& table_ok(b, object)
    &&& field_ok(b, object, 0)
    &&& (i == 0 ==> type_id_of(b, object) == 0)
    &&& kind_of_type(type_id_of(b, object)) is Some ==> {
        &&& field_ok(b, object, 10)
        &&& spec_field(b, object, 10) matches Some(f) ==> string_ok(b, f)
    }
}

/// A string reached through the `uoffset` at `field` is in range and
/// NUL-terminated, whatever its bytes.
pub open spec fn string_shape_ok(b: Seq<u8>, field: int) -> bool {
    let s = uoffset_target(b, field);
    let length = u32_at(b, s);
    &&& uoffset_ok(b, field)
    &&& s + 4 <= b.len()
    &&& s + 4 + length < b.len()
    &&& b[s + 4 + length] == 0
}

/// Patch object `i` is well formed but perhaps for the UTF-8 of its source.
pub open spec fn object_shape_ok(b: Seq<u8>, i: int) -> bool {
    let object = object_table(b, i);
    &&& uoffset_ok(b, element_location(b, i))
    &&& table_ok(b, object)
    &&& field_ok(b, object, 0)
    &&& (i == 0 ==> type_id_of(b, object) == 0)
    &&& kind_of_type(type_id_of(b, object)) is Some ==> {
        &&& field_ok(b, object, 10)
        &&& spec_field(b, object, 10) matches Some(f) ==> string_shape_ok(b, f)
    }
}

/// Every structure the source view reaches is in range and well formed, no
/// patch object is referenced twice, and reached structures do not overlap
/// but as shared vtables or strings: the document is well formed but perhaps
/// for the UTF-8 of its sources.
#[verifier::opaque]
pub open spec fn structure_ok(b: Seq<u8>) -> bool {
    &&& header_ok(b)
    &&& forall|i: int| 0 <= i < pool_count(b) ==> #[trigger] object_shape_ok(b, i)
    &&& forall|i: int, j: int|
        0 <= i < j < pool_count(b) ==> #[trigger] object_table(b, i) != #[trigger] object_table(
            b,
            j,
        )
    &&& consistent(document_regions(b))
}

/// The kinds of byte range that reached structures occupy.
#[derive(Clone, Copy, PartialEq, Eq, Structural)]
pub enum RegionKind {
    Header,
    Table,
    Vector,
    Vtable,
    String,
}

pub open spec fn can_share(kind: RegionKind) -> bool {
    kind == RegionKind::Vtable || kind == RegionKind::String
}

pub struct SpecRegion {
    pub start: int,
    pub end: int,
    pub kind: RegionKind,
}

/// Two reached ranges may coexist: they are disjoint, or they are one shared
/// vtable or string.
pub open spec fn compatible(p: SpecRegion, q: SpecRegion) -> bool {
    ||| (p.start == q.start && p.end == q.end && p.kind == q.kind && can_share(q.kind))
    ||| p.end <= q.start
    ||| q.end <= p.start
}

pub open spec fn consistent(rs: Seq<SpecRegion>) -> bool {
    &&& forall|i: int| 0 <= i < rs.len() ==> (#[trigger] rs[i]).start < rs[i].end
    &&& forall|i: int, j: int|
        0 <= i < j < rs.len() ==> compatible(#[trigger] rs[i], #[trigger] rs[j])
}

pub open spec fn table_regions(b: Seq<u8>, table: int) -> Seq<SpecRegion> {
    seq![
        SpecRegion { start: table, end: table + object_length_of(b, table), kind: RegionKind::Table },
        SpecRegion {
            start: vtable_of(b, table),
            end: vtable_of(b, table) + vtable_length_of(b, table),
            kind: RegionKind::Vtable,
        },
    ]
}

pub open spec fn string_region(b: Seq<u8>, field: int) -> SpecRegion {
    let s = uoffset_target(b, field);
    SpecRegion { start: s, end: s + 4 + u32_at(b, s) + 1, kind: RegionKind::String }
}

pub open spec fn object_regions(b: Seq<u8>, i: int) -> Seq<SpecRegion> {
    table_regions(b, object_table(b, i)) + match source_of_object(b, i) {
        Some(s) => seq![string_region(b, s.field)],
        None => Seq::empty(),
    }
}

pub open spec fn header_regions(b: Seq<u8>) -> Seq<SpecRegion> {
    seq![SpecRegion { start: 0, end: 8, kind: RegionKind::Header }] + table_regions(
        b,
        root_table(b),
    ) + seq![
        SpecRegion {
            start: pool_vector(b),
            end: element_location(b, pool_count(b)),
            kind: RegionKind::Vector,
        },
    ]
}

pub open spec fn regions_upto(b: Seq<u8>, n: int) -> Seq<SpecRegion>
    decreases n,
{
    if n <= 0 {
        header_regions(b)
    } else {
        regions_upto(b, n - 1) + object_regions(b, n - 1)
    }
}

/// Every byte range the source view reaches, in the order it reaches them.
pub open spec fn document_regions(b: Seq<u8>) -> Seq<SpecRegion> {
    regions_upto(b, pool_count(b))
}

/// The fixed part of a well-formed document: header, root table, and the
/// patch-object vector it points to.
pub open spec fn header_ok(b: Seq<u8>) -> bool {
    let root = root_table(b);
    &&& b.len() >= 8
    &&& has_adls_identifier(b)
    &&& uoffset_ok(b, 0)
    &&& table_ok(b, root)
    &&& field_ok(b, root, 0)
    &&& spec_field(b, root, 0) is Some
    &&& uoffset_ok(b, spec_field(b, root, 0).unwrap())
    &&& pool_vector(b) + 4 <= b.len()
    &&& pool_count(b) > 0
    &&& element_location(b, pool_count(b)) <= b.len()
}

/// Patch object `j` is the first whose table an earlier one, `i`, already
/// has: every object before `j` is well formed with a table of its own,
/// the ranges they reach are consistent, and `j`'s offset can be followed.
pub open spec fn first_duplicate(b: Seq<u8>, i: int, j: int) -> bool {
    &&& 0 <= i < j < pool_count(b)
    &&& object_table(b, i) == object_table(b, j)
    &&& forall|k: int| 0 <= k < i ==> #[trigger] object_table(b, k) != object_table(b, j)
    &&& forall|k: int| 0 <= k < j ==> #[trigger] object_ok(b, k)
    &&& forall|p: int, q: int|
        0 <= p < q < j ==> #[trigger] object_table(b, p) != #[trigger] object_table(b, q)
    &&& uoffset_ok(b, element_location(b, j))
    &&& consistent(regions_upto(b, j))
}

/// The root table can be read: the header is an ADLS header whose root
/// offset is valid, and the root table is well formed, clear of the header,
/// with a readable field 0.
pub open spec fn root_readable(b: Seq<u8>) -> bool {
    &&& b.len() >= 8
    &&& has_adls_identifier(b)
    &&& uoffset_ok(b, 0)
    &&& table_ok(b, root_table(b))
    &&& consistent(header_regions(b).subrange(0, 3))
    &&& field_ok(b, root_table(b), 0)
}

/// A well-formed document: every structure the source view reaches is in
/// range and well formed, no patch object is referenced twice, and reached
/// structures do not overlap except as shared vtables or strings.
pub open spec fn well_formed_document(b: Seq<u8>) -> bool {
    &&& header_ok(b)
    &&& forall|i: int| 0 <= i < pool_count(b) ==> #[trigger] object_ok(b, i)
    &&& forall|i: int, j: int|
        0 <= i < j < pool_count(b) ==> #[trigger] object_table(b, i) != #[trigger] object_table(
            b,
            j,
        )
    &&& consistent(document_regions(b))
}

pub proof fn lemma_regions_prefix(b: Seq<u8>, i: int, n: int)
    requires
        0 <= i <= n,
    ensures
        regions_upto(b, i).len() <= regions_upto(b, n).len(),
        regions_upto(b, n).subrange(0, regions_upto(b, i).len() as int) == regions_upto(b, i),
    decreases n - i,
{
    if i < n {
        lemma_regions_prefix(b, i, n - 1);
        assert(regions_upto(b, n) == regions_upto(b, n - 1) + object_regions(b, n - 1));
        assert(regions_upto(b, n).subrange(0, regions_upto(b, i).len() as int) =~= regions_upto(
            b,
            n - 1,
        ).subrange(0, regions_upto(b, i).len() as int));
    } else {
        assert(regions_upto(b, n).subrange(0, regions_upto(b, i).len() as int) =~= regions_upto(
            b,
            n,
        ));
    }
}

proof fn lemma_consistent_prefix(rs: Seq<SpecRegion>, k: int)
    requires
        consistent(rs),
        0 <= k <= rs.len(),
    ensures
        consistent(rs.subrange(0, k)),
{
    let p = rs.subrange(0, k);
    assert forall|i: int, j: int| 0 <= i < j < p.len() implies compatible(
        #[trigger] p[i],
        #[trigger] p[j],
    ) by {
        assert(p[i] == rs[i] && p[j] == rs[j]);
    }
    assert forall|i: int| 0 <= i < p.len() implies (#[trigger] p[i]).start < p[i].end by {
        assert(p[i] == rs[i]);
    }
}

/// A prefix of a well-formed document's reached ranges is consistent.
proof fn lemma_reached_prefix_consistent(b: Seq<u8>, i: int, extra: Seq<SpecRegion>)
    requires
        header_ok(b),
        consistent(document_regions(b)),
        0 <= i < pool_count(b),
        extra.len() <= object_regions(b, i).len(),
        extra == object_regions(b, i).subrange(0, extra.len() as int),
    ensures
        consistent(regions_upto(b, i) + extra),
{
    lemma_regions_prefix(b, i + 1, pool_count(b));
    let full = document_regions(b);
    let upto = regions_upto(b, i + 1);
    lemma_consistent_prefix(full, upto.len() as int);
    assert(full.subrange(0, upto.len() as int) == upto);
    assert(upto == regions_upto(b, i) + object_regions(b, i));
    let k = (regions_upto(b, i).len() + extra.len()) as int;
    lemma_consistent_prefix(upto, k);
    assert(upto.subrange(0, k) =~= regions_upto(b, i) + extra);
}

proof fn lemma_header_prefix_consistent(b: Seq<u8>, k: int)
    requires
        header_ok(b),
        consistent(document_regions(b)),
        0 <= k <= header_regions(b).len(),
    ensures
        consistent(header_regions(b).subrange(0, k)),
{
    lemma_regions_prefix(b, 0, pool_count(b));
    lemma_consistent_prefix(document_regions(b), header_regions(b).len() as int);
    assert(document_regions(b).subrange(0, header_regions(b).len() as int) == header_regions(b));
    lemma_consistent_prefix(header_regions(b), k);
}

// ---------------------------------------------------------------------------
// Exec readers
// ---------------------------------------------------------------------------

fn read_u16(bytes: &[u8], location: usize, structure: &'static str) -> (r: Result<u16, Error>)
    ensures
        match r {
            Ok(v) => location + 2 <= bytes@.len() && v == u16_at(bytes@, location as int),
            Err(e) => location + 2 > bytes@.len() && e == (Error::Malformed {
                offset: location,
                structure,
            }),
        },
{
    if location > bytes.len() || bytes.len() - location < 2 {
        return Err(malformed(location, structure));
    }
    Ok(bytes[location] as u16 + 256 * (bytes[location + 1] as u16))
}

fn read_u32(bytes: &[u8], location: usize, structure: &'static str) -> (r: Result<u32, Error>)
    ensures
        match r {
            Ok(v) => location + 4 <= bytes@.len() && v == u32_at(bytes@, location as int),
            Err(e) => location + 4 > bytes@.len() && e == (Error::Malformed {
                offset: location,
                structure,
            }),
        },
{
    if location > bytes.len() || bytes.len() - location < 4 {
        return Err(malformed(location, structure));
    }
    Ok(
        bytes[location] as u32 + 256 * (bytes[location + 1] as u32) + 65536 * (bytes[location
            + 2] as u32) + 16777216 * (bytes[location + 3] as u32),
    )
}

fn read_i32(bytes: &[u8], location: usize, structure: &'static str) -> (r: Result<i64, Error>)
    ensures
        match r {
            Ok(v) => location + 4 <= bytes@.len() && v == i32_at(bytes@, location as int),
            Err(e) => location + 4 > bytes@.len() && e is Malformed,
        },
{
    let u = read_u32(bytes, location, structure)?;
    if u >= 0x8000_0000 {
        Ok(u as i64 - 0x1_0000_0000)
    } else {
        Ok(u as i64)
    }
}

fn require_range(bytes: &[u8], location: usize, length: usize, structure: &'static str) -> (r:
    Result<(), Error>)
    ensures
        match r {
            Ok(()) => location + length <= bytes@.len(),
            Err(e) => location + length > bytes@.len() && e is Malformed,
        },
{
    if location > bytes.len() || bytes.len() - location < length {
        return Err(malformed(location, structure));
    }
    Ok(())
}

fn follow_uoffset(bytes: &[u8], location: usize, structure: &'static str) -> (r: Result<
    usize,
    Error,
>)
    ensures
        r is Ok <==> uoffset_ok(bytes@, location as int),
        match r {
            Ok(t) => t == uoffset_target(bytes@, location as int),
            Err(e) => e is Malformed,
        },
{
    let len = bytes.len();
    if location % 4 != 0 {
        return Err(malformed(location, structure));
    }
    let relative = read_u32(bytes, location, structure)? as usize;
    if relative == 0 {
        return Err(malformed(location, structure));
    }
    if location > usize::MAX - relative {
        return Err(malformed(location, structure));
    }
    let target = location + relative;
    if target % 4 != 0 || target >= len {
        return Err(malformed(location, structure));
    }
    Ok(target)
}

#[derive(Clone, Copy)]
struct Table {
    location: usize,
    vtable_location: usize,
    vtable_length: usize,
    object_length: usize,
}

spec fn table_matches(b: Seq<u8>, t: Table, location: int) -> bool {
    &&& table_ok(b, location)
    &&& t.location == location
    &&& t.vtable_location == vtable_of(b, location)
    &&& t.vtable_length == vtable_length_of(b, location)
    &&& t.object_length == object_length_of(b, location)
}

fn parse_table(bytes: &[u8], location: usize, structure: &'static str) -> (r: Result<Table, Error>)
    ensures
        r is Ok <==> table_ok(bytes@, location as int),
        match r {
            Ok(t) => table_matches(bytes@, t, location as int),
            Err(e) => e is Malformed,
        },
{
    let len = bytes.len();
    if location % 4 != 0 {
        return Err(malformed(location, structure));
    }
    let vtable_offset = read_i32(bytes, location, structure)?;
    if vtable_offset == 0 {
        return Err(malformed(location, structure));
    }
    let vtable_location = if vtable_offset > 0 {
        let distance = vtable_offset as usize;
        if location < distance {
            return Err(malformed(location, structure));
        }
        location - distance
    } else {
        let distance = (0 - vtable_offset) as usize;
        if location > usize::MAX - distance {
            return Err(malformed(location, structure));
        }
        location + distance
    };
    assert(vtable_location == vtable_of(bytes@, location as int));
    if vtable_location % 2 != 0 {
        return Err(malformed(vtable_location, structure));
    }
    let vtable_length = read_u16(bytes, vtable_location, structure)? as usize;
    if vtable_location > usize::MAX - 2 {
        return Err(malformed(vtable_location, structure));
    }
    let object_length_location = vtable_location + 2;
    let object_length = read_u16(bytes, object_length_location, structure)? as usize;
    assert(vtable_length == vtable_length_of(bytes@, location as int));
    assert(object_length == object_length_of(bytes@, location as int));
    if vtable_length < VTABLE_HEADER_SIZE || vtable_length % 2 != 0 {
        return Err(malformed(vtable_location, structure));
    }
    if object_length < 4 {
        return Err(malformed(location, structure));
    }
    require_range(bytes, vtable_location, vtable_length, structure)?;
    require_range(bytes, location, object_length, structure)?;
    let mut entry_offset: usize = VTABLE_HEADER_SIZE;
    while entry_offset < vtable_length
        invariant
            len == bytes@.len(),
            VTABLE_HEADER_SIZE <= entry_offset,
            entry_offset % 2 == 0,
            vtable_length % 2 == 0,
            vtable_location + vtable_length <= bytes@.len(),
            vtable_location == vtable_of(bytes@, location as int),
            vtable_length == vtable_length_of(bytes@, location as int),
            object_length == object_length_of(bytes@, location as int),
            forall|e: int|
                4 <= e < entry_offset && e % 2 == 0 ==> #[trigger] entry_at(
                    bytes@,
                    vtable_location as int,
                    e,
                ) == 0 || (4 <= entry_at(bytes@, vtable_location as int, e) < object_length),
        decreases vtable_length - entry_offset,
    {
        let entry_location = vtable_location + entry_offset;
        let field_offset = read_u16(bytes, entry_location, structure)? as usize;
        assert(field_offset == entry_at(bytes@, vtable_location as int, entry_offset as int));
        if field_offset != 0 && (field_offset < 4 || field_offset >= object_length) {
            return Err(malformed(entry_location, structure));
        }
        entry_offset = entry_offset + 2;
    }
    Ok(Table { location, vtable_location, vtable_length, object_length })
}

impl Table {
    /// The location of field `field_index`, a `u32`-wide, `u32`-aligned field.
    fn field(self, bytes: &[u8], field_index: usize, structure: &'static str) -> (r: Result<
        Option<usize>,
        Error,
    >)
        requires
            table_matches(bytes@, self, self.location as int),
            field_index <= 16,
        ensures
            r is Ok <==> field_ok(bytes@, self.location as int, field_index as int),
            match r {
                Ok(Some(l)) => spec_field(bytes@, self.location as int, field_index as int) == Some(
                    l as int,
                ) && l + 4 <= bytes@.len() && l % 4 == 0 && self.location + 4 <= l && l + 4
                    <= self.location + self.object_length,
                Ok(None) => spec_field(bytes@, self.location as int, field_index as int) is None,
                Err(e) => e is Malformed,
            },
    {
        let len = bytes.len();
        let entry_offset = VTABLE_HEADER_SIZE + 2 * field_index;
        let entry_end = entry_offset + 2;
        if entry_end > self.vtable_length {
            return Ok(None);
        }
        let entry_location = self.vtable_location + entry_offset;
        let field_offset = read_u16(bytes, entry_location, structure)? as usize;
        assert(field_offset == entry_at(bytes@, self.vtable_location as int, entry_offset as int));
        if field_offset == 0 {
            return Ok(None);
        }
        let field_end = field_offset + 4;
        if field_end > self.object_length {
            return Err(malformed(entry_location, structure));
        }
        // Each accessed field has one logical identity: reject another entry
        // whose storage starts inside this field.
        let mut other_entry_offset: usize = VTABLE_HEADER_SIZE;
        while other_entry_offset < self.vtable_length
            invariant
                len == bytes@.len(),
                VTABLE_HEADER_SIZE <= other_entry_offset,
                other_entry_offset % 2 == 0,
                table_matches(bytes@, self, self.location as int),
                entry_offset == 4 + 2 * field_index,
                field_offset == entry_at(bytes@, self.vtable_location as int, entry_offset as int),
                field_end == field_offset + 4,
                field_offset != 0,
                entry_offset + 2 <= self.vtable_length,
                field_end <= self.object_length,
                forall|e: int|
                    4 <= e < other_entry_offset && e % 2 == 0 && e != entry_offset ==> !(
                    field_offset <= #[trigger] entry_at(bytes@, self.vtable_location as int, e)
                        < field_end),
            decreases self.vtable_length - other_entry_offset,
        {
            if other_entry_offset != entry_offset {
                let other_entry_location = self.vtable_location + other_entry_offset;
                let other_field_offset = read_u16(bytes, other_entry_location, structure)? as usize;
                assert(other_field_offset == entry_at(
                    bytes@,
                    self.vtable_location as int,
                    other_entry_offset as int,
                ));
                if field_offset <= other_field_offset && other_field_offset < field_end {
                    return Err(malformed(other_entry_location, structure));
                }
            }
            other_entry_offset = other_entry_offset + 2;
        }
        let field_location = self.location + field_offset;
        if field_location % 4 != 0 {
            return Err(malformed(field_location, structure));
        }
        require_range(bytes, field_location, 4, structure)?;
        Ok(Some(field_location))
    }
}

// ---------------------------------------------------------------------------
// Layout of reached structures
// ---------------------------------------------------------------------------

#[derive(Clone, Copy)]
struct Region {
    start: usize,
    end: usize,
    kind: RegionKind,
}

spec fn region_view(r: Region) -> SpecRegion {
    SpecRegion { start: r.start as int, end: r.end as int, kind: r.kind }
}

/// The ranges of every structure reached so far. Each distinct range is
/// stored once; `reached` lists every range in the order reached, a shared
/// range once for each structure that reached it.
struct Layout {
    regions: Vec<Region>,
    reached: Ghost<Seq<SpecRegion>>,
}

impl Layout {
    spec fn reached(&self) -> Seq<SpecRegion> {
        self.reached@
    }

    /// The stored ranges are the reached ones, each once.
    spec fn wf(&self) -> bool {
        &&& forall|i: int| 0 <= i < self.reached@.len() ==> exists|j: int|
            0 <= j < self.regions@.len() && region_view(#[trigger] self.regions@[j]) == #[trigger] self.reached@[i]
        &&& forall|j: int| 0 <= j < self.regions@.len() ==> self.reached@.contains(
            region_view(#[trigger] self.regions@[j]),
        )
        &&& forall|i: int, j: int|
            0 <= i < j < self.regions@.len() ==> region_view(#[trigger] self.regions@[i]) != region_view(
                #[trigger] self.regions@[j],
            )
    }

    fn new() -> (r: Layout)
        ensures
            r.reached() == Seq::<SpecRegion>::empty(),
            r.wf(),
    {
        Layout { regions: Vec::new(), reached: Ghost(Seq::empty()) }
    }

    /// Adds one structure's range. It must be compatible with every range
    /// reached before: disjoint from it, or the same shared vtable or string,
    /// which is then not stored again.
    fn add(&mut self, start: usize, end: usize, kind: RegionKind, structure: &'static str) -> (r:
        Result<(), Error>)
        requires
            old(self).wf(),
        ensures
            final(self).wf(),
            ({
                let q = SpecRegion { start: start as int, end: end as int, kind };
                &&& r is Ok <==> (start < end && forall|i: int|
                    0 <= i < old(self).reached().len() ==> compatible(
                        #[trigger] old(self).reached()[i],
                        q,
                    ))
                &&& r is Ok ==> final(self).reached() == old(self).reached().push(q)
                &&& r is Err ==> *final(self) == *old(self)
                &&& r matches Err(e) ==> e == (Error::Malformed { offset: start, structure })
                &&& consistent(old(self).reached()) && r is Ok ==> consistent(final(self).reached())
            }),
    {
        let ghost q = SpecRegion { start: start as int, end: end as int, kind };
        let ghost before = self.reached@;
        if end <= start {
            return Err(malformed(start, structure));
        }
        let n = self.regions.len();
        let mut stored = false;
        let mut i: usize = 0;
        while i < n
            invariant
                i <= n,
                n == self.regions@.len(),
                *self == *old(self),
                self.wf(),
                before == self.reached@,
                q == (SpecRegion { start: start as int, end: end as int, kind }),
                forall|k: int| 0 <= k < i ==> compatible(region_view(#[trigger] self.regions@[k]), q),
                stored <==> exists|k: int| 0 <= k < i && region_view(#[trigger] self.regions@[k]) == q,
            decreases n - i,
        {
            let region = self.regions[i];
            let same = region.start == start && region.end == end && region.kind == kind;
            let shared = same && (kind == RegionKind::Vtable || kind == RegionKind::String);
            if !shared && region.end > start && end > region.start {
                proof {
                    assert(self.regions@[i as int] == region);
                    assert(before.contains(region_view(self.regions@[i as int])));
                    let j = choose|j: int| 0 <= j < before.len() && before[j] == region_view(region);
                    assert(!compatible(before[j], q));
                    assert(old(self).reached() == before);
                    assert(!compatible(old(self).reached()[j], q));
                }
                return Err(malformed(start, structure));
            }
            if same {
                stored = true;
            }
            i = i + 1;
        }
        proof {
            assert forall|k: int| 0 <= k < before.len() implies compatible(#[trigger] before[k], q) by {
                let j = choose|j: int| 0 <= j < self.regions@.len() && region_view(self.regions@[j]) == before[k];
            }
        }
        if !stored {
            self.regions.push(Region { start, end, kind });
        }
        self.reached = Ghost(before.push(q));
        proof {
            let rs = self.regions@;
            let after = before.push(q);
            assert forall|k: int| 0 <= k < after.len() implies exists|j: int|
                0 <= j < rs.len() && region_view(#[trigger] rs[j]) == #[trigger] after[k] by {
                if k < before.len() {
                    assert(after[k] == before[k]);
                    let j = choose|j: int| 0 <= j < old(self).regions@.len() && region_view(old(self).regions@[j]) == before[k];
                    assert(rs[j] == old(self).regions@[j]);
                } else if !stored {
                    assert(rs[n as int] == Region { start, end, kind });
                } else {
                    let j = choose|j: int| 0 <= j < n && region_view(old(self).regions@[j]) == q;
                    assert(rs[j] == old(self).regions@[j]);
                }
            }
            assert forall|j: int| 0 <= j < rs.len() implies after.contains(region_view(#[trigger] rs[j])) by {
                if j < n {
                    assert(rs[j] == old(self).regions@[j]);
                    assert(before.contains(region_view(rs[j])));
                    let k = choose|k: int| 0 <= k < before.len() && before[k] == region_view(rs[j]);
                    assert(after[k] == before[k]);
                } else {
                    assert(after[before.len() as int] == q);
                }
            }
            assert forall|a: int, c: int| 0 <= a < c < rs.len() implies region_view(#[trigger] rs[a]) != region_view(
                #[trigger] rs[c],
            ) by {
                if c < n {
                    assert(rs[a] == old(self).regions@[a] && rs[c] == old(self).regions@[c]);
                } else {
                    assert(rs[a] == old(self).regions@[a]);
                }
            }
            if consistent(before) {
                lemma_consistent_extend(before, seq![q]);
                assert(before + seq![q] =~= after);
            }
        }
        Ok(())
    }

    fn add_table(&mut self, table: Table, structure: &'static str) -> (r: Result<(), Error>)
        requires
            old(self).wf(),
        ensures
            final(self).wf(),
            ({
                let rs = seq![
                    SpecRegion {
                        start: table.location as int,
                        end: table.location + table.object_length,
                        kind: RegionKind::Table,
                    },
                    SpecRegion {
                        start: table.vtable_location as int,
                        end: table.vtable_location + table.vtable_length,
                        kind: RegionKind::Vtable,
                    },
                ];
                &&& table.location + table.object_length <= usize::MAX
                    && table.vtable_location + table.vtable_length <= usize::MAX ==> (r is Ok
                    <==> consistent_extension(old(self).reached(), rs))
                &&& r is Ok ==> final(self).reached() == old(self).reached() + rs
                &&& r matches Err(e) ==> e is Malformed
            }),
    {
        let ghost rs = seq![
            SpecRegion {
                start: table.location as int,
                end: table.location + table.object_length,
                kind: RegionKind::Table,
            },
            SpecRegion {
                start: table.vtable_location as int,
                end: table.vtable_location + table.vtable_length,
                kind: RegionKind::Vtable,
            },
        ];
        let ghost before = self.reached();
        if table.location > usize::MAX - table.object_length {
            return Err(malformed(table.location, structure));
        }
        let added = self.add(
            table.location,
            table.location + table.object_length,
            RegionKind::Table,
            structure,
        );
        if added.is_err() {
            proof {
                lemma_extension_first(before, rs);
            }
            return added;
        }
        if table.vtable_location > usize::MAX - table.vtable_length {
            return Err(malformed(table.vtable_location, structure));
        }
        let r = self.add(
            table.vtable_location,
            table.vtable_location + table.vtable_length,
            RegionKind::Vtable,
            structure,
        );
        proof {
            lemma_extension_second(before, rs);
            if r is Ok {
                assert(self.reached() =~= before + rs);
            }
        }
        r
    }
}

/// Appending `rs` to the ranges `before` keeps every pair compatible and
/// every range nonempty.
pub open spec fn consistent_extension(before: Seq<SpecRegion>, rs: Seq<SpecRegion>) -> bool {
    forall|k: int|
        0 <= k < rs.len() ==> (#[trigger] rs[k]).start < rs[k].end && forall|i: int|
            0 <= i < before.len() + k ==> compatible(#[trigger] (before + rs)[i], rs[k])
}

proof fn lemma_extension_first(before: Seq<SpecRegion>, rs: Seq<SpecRegion>)
    requires
        rs.len() >= 1,
        !(rs[0].start < rs[0].end && forall|i: int|
            0 <= i < before.len() ==> compatible(#[trigger] before[i], rs[0])),
    ensures
        !consistent_extension(before, rs),
{
    if rs[0].start < rs[0].end {
        let i = choose|i: int| 0 <= i < before.len() && !compatible(#[trigger] before[i], rs[0]);
        assert((before + rs)[i] == before[i]);
    }
}

proof fn lemma_extension_second(before: Seq<SpecRegion>, rs: Seq<SpecRegion>)
    requires
        rs.len() == 2,
        rs[0].start < rs[0].end,
        forall|i: int| 0 <= i < before.len() ==> compatible(#[trigger] before[i], rs[0]),
    ensures
        consistent_extension(before, rs) <==> (rs[1].start < rs[1].end && forall|i: int|
            0 <= i < before.push(rs[0]).len() ==> compatible(
                #[trigger] before.push(rs[0])[i],
                rs[1],
            )),
{
    assert(before.push(rs[0]) =~= (before + rs).subrange(0, before.len() + 1 as int));
    if rs[1].start < rs[1].end && forall|i: int|
        0 <= i < before.push(rs[0]).len() ==> compatible(#[trigger] before.push(rs[0])[i], rs[1]) {
        assert forall|k: int| 0 <= k < rs.len() implies (#[trigger] rs[k]).start < rs[k].end
            && forall|i: int|
            0 <= i < before.len() + k ==> compatible(#[trigger] (before + rs)[i], rs[k]) by {
            assert forall|i: int| 0 <= i < before.len() + k implies compatible(
                #[trigger] (before + rs)[i],
                rs[k],
            ) by {
                if k == 0 {
                    assert((before + rs)[i] == before[i]);
                } else {
                    assert((before + rs)[i] == before.push(rs[0])[i]);
                }
            }
        }
    }
    if consistent_extension(before, rs) {
        assert(rs[1].start < rs[1].end);
        assert forall|i: int| 0 <= i < before.push(rs[0]).len() implies compatible(
            #[trigger] before.push(rs[0])[i],
            rs[1],
        ) by {
            assert((before + rs)[i] == before.push(rs[0])[i]);
        }
    }
}

proof fn lemma_consistent_extend(before: Seq<SpecRegion>, rs: Seq<SpecRegion>)
    requires
        consistent(before),
    ensures
        consistent(before + rs) <==> consistent_extension(before, rs),
{
    let all = before + rs;
    if consistent(all) {
        assert forall|k: int| 0 <= k < rs.len() implies (#[trigger] rs[k]).start < rs[k].end
            && forall|i: int| 0 <= i < before.len() + k ==> compatible(#[trigger] all[i], rs[k]) by {
            assert(all[before.len() + k] == rs[k]);
            assert forall|i: int| 0 <= i < before.len() + k implies compatible(
                #[trigger] all[i],
                rs[k],
            ) by {
                assert(compatible(all[i], all[before.len() + k]));
            }
        }
    }
    if consistent_extension(before, rs) {
        assert forall|i: int| 0 <= i < all.len() implies (#[trigger] all[i]).start < all[i].end by {
            if i >= before.len() {
                assert(all[i] == rs[i - before.len()]);
            }
        }
        assert forall|i: int, j: int| 0 <= i < j < all.len() implies compatible(
            #[trigger] all[i],
            #[trigger] all[j],
        ) by {
            if j < before.len() {
                assert(all[i] == before[i] && all[j] == before[j]);
            } else {
                assert(all[j] == rs[j - before.len()]);
                assert(compatible(all[i], rs[j - before.len()]));
            }
        }
    }
}

// ---------------------------------------------------------------------------
// Documents
// ---------------------------------------------------------------------------

/// One present source field in a document.
#[derive(Clone, Copy, Debug, PartialEq, Eq)]
pub struct SourceNode<'a> {
    pub handle: NodeHandle,
    pub kind: NodeKind,
    pub source: &'a str,
}

/// A validated, borrowed view of the source-bearing part of an Audulus document.
#[derive(Debug)]
pub struct Document<'a> {
    bytes: &'a [u8],
    sources: Vec<SourceNode<'a>>,
    source_field_locations: Vec<usize>,
    id: u64,
}

/// The bytes of a document, its handle identity, and its source fields.
pub struct DocumentView {
    pub bytes: Seq<u8>,
    pub id: u64,
    pub sources: Seq<SpecSource>,
}

spec fn node_views(nodes: Seq<SourceNode>, fields: Seq<usize>) -> Seq<SpecSource> {
    Seq::new(
        nodes.len(),
        |i: int|
            SpecSource {
                index: nodes[i].handle@.index as int,
                kind: nodes[i].kind,
                field: fields[i] as int,
                source: nodes[i].source.spec_bytes(),
            },
    )
}

impl<'a> View for Document<'a> {
    type V = DocumentView;

    closed spec fn view(&self) -> DocumentView {
        DocumentView {
            bytes: self.bytes@,
            id: self.id,
            sources: node_views(self.sources@, self.source_field_locations@),
        }
    }
}

pub open spec fn strictly_increasing_indices(s: Seq<SpecSource>) -> bool {
    forall|i: int, j: int| 0 <= i < j < s.len() ==> (#[trigger] s[i]).index < (#[trigger] s[j]).index
}

// ---------------------------------------------------------------------------
// Rewriting
// ---------------------------------------------------------------------------

/// The little-endian bytes of a `u32` value.
pub open spec fn le32(v: int) -> Seq<u8> {
    seq![
        (v % 256) as u8,
        ((v / 256) % 256) as u8,
        ((v / 65536) % 256) as u8,
        ((v / 16777216) % 256) as u8,
    ]
}

/// `n` rounded up to a multiple of four.
pub open spec fn word_aligned(n: int) -> int {
    n + (4 - n % 4) % 4
}

/// One effective replacement: the source field's location and the new text.
pub struct SpecChange {
    pub field: int,
    pub text: Seq<u8>,
}

/// Appends `c.text` as a new aligned, length-prefixed, NUL-terminated string
/// and points the `uoffset` at `c.field` to it.
pub open spec fn append_string(out: Seq<u8>, c: SpecChange) -> Seq<u8> {
    let at = word_aligned(out.len() as int);
    let grown = out + Seq::new((at - out.len()) as nat, |i: int| 0u8) + le32(c.text.len() as int)
        + c.text + seq![0u8];
    grown.subrange(0, c.field) + le32(at - c.field) + grown.subrange(c.field + 4, grown.len() as int)
}

/// The document bytes after appending every change in order.
pub open spec fn apply_changes(b: Seq<u8>, cs: Seq<SpecChange>) -> Seq<u8>
    decreases cs.len(),
{
    if cs.len() == 0 {
        b
    } else {
        append_string(apply_changes(b, cs.drop_last()), cs.last())
    }
}

/// The size after appending a string of `text_len` bytes to `n` bytes.
pub open spec fn grown_size(n: int, text_len: int) -> int {
    word_aligned(n) + 4 + text_len + 1
}

pub open spec fn planned_size(initial: int, lengths: Seq<int>) -> int
    decreases lengths.len(),
{
    if lengths.len() == 0 {
        initial
    } else {
        grown_size(planned_size(initial, lengths.drop_last()), lengths.last())
    }
}

/// A rewrite fits when the input and the planned output both stay within
/// the size limit.
pub open spec fn size_fits(initial: int, lengths: Seq<int>) -> bool {
    initial <= MAX_REWRITTEN_ADLS_SIZE && planned_size(initial, lengths) <= MAX_REWRITTEN_ADLS_SIZE
}

pub open spec fn change_lengths(cs: Seq<SpecChange>) -> Seq<int> {
    cs.map_values(|c: SpecChange| c.text.len() as int)
}

pub open spec fn usize_lengths(ls: Seq<usize>) -> Seq<int> {
    ls.map_values(|l: usize| l as int)
}

proof fn lemma_planned_grows(initial: int, lengths: Seq<int>, k: int)
    requires
        0 <= k <= lengths.len(),
        0 <= initial,
        forall|i: int| 0 <= i < lengths.len() ==> lengths[i] >= 0,
    ensures
        planned_size(initial, lengths) >= initial,
        planned_size(initial, lengths) >= planned_size(initial, lengths.subrange(0, k)),
        k < lengths.len() ==> planned_size(initial, lengths) >= lengths[k] + 5,
    decreases lengths.len(),
{
    if lengths.len() == 0 {
        assert(lengths.subrange(0, k) =~= lengths);
    } else {
        let prefix = lengths.drop_last();
        let p = planned_size(initial, prefix);
        if k < lengths.len() {
            lemma_planned_grows(initial, prefix, k);
            if k < prefix.len() {
                assert(prefix.subrange(0, k) =~= lengths.subrange(0, k));
                assert(prefix[k] == lengths[k]);
            } else {
                assert(prefix =~= lengths.subrange(0, k));
            }
        } else {
            lemma_planned_grows(initial, prefix, 0);
            assert(lengths.subrange(0, k) =~= lengths);
        }
        assert(word_aligned(p) >= p);
    }
}

pub proof fn lemma_apply_changes_len(b: Seq<u8>, cs: Seq<SpecChange>)
    requires
        forall|i: int| 0 <= i < cs.len() ==> 0 <= (#[trigger] cs[i]).field && cs[i].field + 4 <= b.len(),
    ensures
        apply_changes(b, cs).len() == planned_size(b.len() as int, change_lengths(cs)),
        apply_changes(b, cs).len() >= b.len(),
    decreases cs.len(),
{
    if cs.len() > 0 {
        let prefix = cs.drop_last();
        assert forall|i: int| 0 <= i < prefix.len() implies 0 <= (#[trigger] prefix[i]).field
            && prefix[i].field + 4 <= b.len() by {
            assert(prefix[i] == cs[i]);
        }
        lemma_apply_changes_len(b, prefix);
        assert(change_lengths(cs).drop_last() =~= change_lengths(prefix));
        let out = apply_changes(b, prefix);
        let at = word_aligned(out.len() as int);
        assert(at >= out.len());
    }
}

/// The handle of source `i` of a document.
pub open spec fn source_handle(v: DocumentView, i: int) -> NodeHandleView {
    NodeHandleView { index: v.sources[i].index as u32, document: v.id }
}

/// The handle names a present source field of the document.
pub open spec fn known_handle(v: DocumentView, h: NodeHandleView) -> bool {
    h.document == v.id && exists|i: int| 0 <= i < v.sources.len() && #[trigger] v.sources[i].index
        == h.index
}

/// The last of the first `n` pairs that names `h`.
pub open spec fn pair_for(reps: Seq<(NodeHandleView, Seq<u8>)>, h: NodeHandleView, n: int) -> Option<
    int,
>
    decreases n,
{
    if n <= 0 {
        None
    } else if reps[n - 1].0 == h {
        Some(n - 1)
    } else {
        pair_for(reps, h, n - 1)
    }
}

/// The first refused pair among the first `n`, if any: its handle is
/// unknown, or an earlier pair names the same handle.
pub open spec fn refused_pair(v: DocumentView, reps: Seq<(NodeHandleView, Seq<u8>)>, n: int) -> Option<
    int,
>
    decreases n,
{
    if n <= 0 {
        None
    } else {
        match refused_pair(v, reps, n - 1) {
            Some(j) => Some(j),
            None => if !known_handle(v, reps[n - 1].0) || pair_for(reps, reps[n - 1].0, n - 1) is Some {
                Some(n - 1)
            } else {
                None
            },
        }
    }
}

/// The effective replacements among the first `n` source fields, in
/// document order: requested, and different from the current text.
pub open spec fn changes_upto(v: DocumentView, reps: Seq<(NodeHandleView, Seq<u8>)>, n: int) -> Seq<
    SpecChange,
>
    decreases n,
{
    if n <= 0 {
        Seq::empty()
    } else {
        let prev = changes_upto(v, reps, n - 1);
        match pair_for(reps, source_handle(v, n - 1), reps.len() as int) {
            Some(j) => if reps[j].1 != v.sources[n - 1].source {
                prev.push(SpecChange { field: v.sources[n - 1].field, text: reps[j].1 })
            } else {
                prev
            },
            None => prev,
        }
    }
}

pub open spec fn document_changes(v: DocumentView, reps: Seq<(NodeHandleView, Seq<u8>)>) -> Seq<
    SpecChange,
> {
    changes_upto(v, reps, v.sources.len() as int)
}

/// What a batch of replacements does to a document.
pub enum SpecRewrite {
    /// The pair at this position names an unknown handle.
    UnknownHandle(int),
    /// The pair at this position repeats an earlier handle.
    DuplicateHandle(int),
    /// Nothing changes: the original bytes are kept.
    Unchanged,
    /// The rewritten document would exceed the size limit.
    TooLarge,
    /// The rewritten bytes.
    Rewritten(Seq<u8>),
}

pub open spec fn spec_document_rewrite(v: DocumentView, reps: Seq<(NodeHandleView, Seq<u8>)>) -> SpecRewrite {
    if reps.len() == 0 {
        SpecRewrite::Unchanged
    } else {
        match refused_pair(v, reps, reps.len() as int) {
            Some(j) => if !known_handle(v, reps[j].0) {
                SpecRewrite::UnknownHandle(j)
            } else {
                SpecRewrite::DuplicateHandle(j)
            },
            None => {
                let cs = document_changes(v, reps);
                if cs.len() == 0 {
                    SpecRewrite::Unchanged
                } else if !size_fits(v.bytes.len() as int, change_lengths(cs)) {
                    SpecRewrite::TooLarge
                } else {
                    SpecRewrite::Rewritten(apply_changes(v.bytes, cs))
                }
            },
        }
    }
}

pub open spec fn replacement_views(r: Seq<(NodeHandle, &str)>) -> Seq<(NodeHandleView, Seq<u8>)> {
    r.map_values(|p: (NodeHandle, &str)| (p.0@, p.1.spec_bytes()))
}

/// Plans the size of a rewritten document: each replacement is appended at
/// the next four-byte boundary as a length, its bytes, and a NUL.
pub fn plan_rewrite_size(initial_size: usize, replacement_lengths: &[usize]) -> (r: Result<
    usize,
    Error,
>)
    ensures
        r is Ok <==> size_fits(initial_size as int, usize_lengths(replacement_lengths@)),
        match r {
            Ok(n) => n == planned_size(initial_size as int, usize_lengths(replacement_lengths@)),
            Err(e) => e is SizeLimitExceeded,
        },
{
    let ghost lens = usize_lengths(replacement_lengths@);
    if initial_size > MAX_REWRITTEN_ADLS_SIZE {
        return Err(Error::SizeLimitExceeded);
    }
    let mut size = initial_size;
    let mut k: usize = 0;
    while k < replacement_lengths.len()
        invariant
            k <= replacement_lengths@.len(),
            lens == usize_lengths(replacement_lengths@),
            initial_size <= MAX_REWRITTEN_ADLS_SIZE,
            size <= MAX_REWRITTEN_ADLS_SIZE,
            size == planned_size(initial_size as int, lens.subrange(0, k as int)),
        decreases replacement_lengths@.len() - k,
    {
        let length = replacement_lengths[k];
        let padding = (U32_SIZE - size % U32_SIZE) % U32_SIZE;
        let base = size + padding + U32_SIZE + 1;
        proof {
            assert(lens.subrange(0, k + 1).drop_last() =~= lens.subrange(0, k as int));
            assert(lens[k as int] == length);
        }
        if base > MAX_REWRITTEN_ADLS_SIZE || length > MAX_REWRITTEN_ADLS_SIZE - base {
            proof {
                assert forall|i: int| 0 <= i < lens.len() implies lens[i] >= 0 by {}
                lemma_planned_grows(initial_size as int, lens, k + 1);
            }
            return Err(Error::SizeLimitExceeded);
        }
        size = base + length;
        k = k + 1;
    }
    assert(lens.subrange(0, k as int) =~= lens);
    Ok(size)
}

/// Appends `text` as a new aligned string at the end of `output` and points
/// the `uoffset` at `field` to it.
fn append_change(output: &mut Vec<u8>, field: usize, text: &str)
    requires
        field + 4 <= old(output)@.len(),
        grown_size(old(output)@.len() as int, text.spec_bytes().len() as int)
            <= MAX_REWRITTEN_ADLS_SIZE,
    ensures
        final(output)@ == append_string(
            old(output)@,
            SpecChange { field: field as int, text: text.spec_bytes() },
        ),
{
    let ghost start = output@;
    let bytes = text.as_bytes();
    let padding = (U32_SIZE - output.len() % U32_SIZE) % U32_SIZE;
    let mut p: usize = 0;
    while p < padding
        invariant
            p <= padding,
            output@ == start + Seq::new(p as nat, |i: int| 0u8),
        decreases padding - p,
    {
        output.push(0);
        p = p + 1;
        assert(output@ =~= start + Seq::new(p as nat, |i: int| 0u8));
    }
    let string_location = output.len();
    let relative = (string_location - field) as u32;
    let length = bytes.len() as u32;
    output.push((length % 256) as u8);
    output.push(((length / 256) % 256) as u8);
    output.push(((length / 65536) % 256) as u8);
    output.push(((length / 16777216) % 256) as u8);
    push_all(output, bytes);
    output.push(0);
    let ghost grown = output@;
    assert(grown =~= start + Seq::new((string_location - start.len()) as nat, |i: int| 0u8) + le32(
        bytes@.len() as int,
    ) + bytes@ + seq![0u8]);
    output.set(field, (relative % 256) as u8);
    output.set(field + 1, ((relative / 256) % 256) as u8);
    output.set(field + 2, ((relative / 65536) % 256) as u8);
    output.set(field + 3, ((relative / 16777216) % 256) as u8);
    assert(output@ =~= grown.subrange(0, field as int) + le32(string_location - field)
        + grown.subrange(field + 4, grown.len() as int));
}

pub open spec fn change_views(c: Seq<(usize, &str)>) -> Seq<SpecChange> {
    c.map_values(|p: (usize, &str)| SpecChange { field: p.0 as int, text: p.1.spec_bytes() })
}

spec fn slot_view(o: Option<usize>) -> Option<int> {
    match o {
        Some(j) => Some(j as int),
        None => None,
    }
}

proof fn lemma_refused_stays(v: DocumentView, reps: Seq<(NodeHandleView, Seq<u8>)>, m: int, n: int)
    requires
        0 <= m <= n,
        refused_pair(v, reps, m) is Some,
    ensures
        refused_pair(v, reps, n) == refused_pair(v, reps, m),
    decreases n - m,
{
    if m < n {
        lemma_refused_stays(v, reps, m, n - 1);
    }
}

/// A refused pair is one of the pairs searched.
pub(crate) proof fn lemma_refused_pair_bound(v: DocumentView, reps: Seq<(NodeHandleView, Seq<u8>)>, n: int)
    ensures
        refused_pair(v, reps, n) matches Some(j) ==> 0 <= j < n,
    decreases n,
{
    if n > 0 {
        lemma_refused_pair_bound(v, reps, n - 1);
    }
}

proof fn lemma_pair_for_bound(reps: Seq<(NodeHandleView, Seq<u8>)>, h: NodeHandleView, n: int)
    ensures
        pair_for(reps, h, n) matches Some(j) ==> 0 <= j < n && reps[j].0 == h,
    decreases n,
{
    if n > 0 {
        lemma_pair_for_bound(reps, h, n - 1);
    }
}

/// Reads patch object `index`, at `object_location`: its table, its node
/// type, and (for a source node with a present `f10`) its source string,
/// adding each reached range to `layout`.
#[verifier::rlimit(40)]
/// Object `i` is a source node whose present source string, in range and
/// NUL-terminated, is not UTF-8.
pub open spec fn invalid_source_utf8(b: Seq<u8>, i: int) -> bool {
    let o = object_table(b, i);
    &&& kind_of_type(type_id_of(b, o)) is Some
    &&& spec_field(b, o, 10) matches Some(f) && {
        let s = uoffset_target(b, f);
        let length = u32_at(b, s);
        &&& s + 4 + length < b.len()
        &&& !valid_utf8(b.subrange(s + 4, s + 4 + length))
    }
}

/// What object `i` of a document that is well formed, or well formed but
/// for UTF-8, satisfies.
proof fn lemma_consistent_upto(b: Seq<u8>, i: int, j: int)
    requires
        0 <= i <= j,
        consistent(regions_upto(b, j)),
    ensures
        consistent(regions_upto(b, i)),
        consistent(header_regions(b)),
{
    lemma_regions_prefix(b, i, j);
    lemma_consistent_prefix(regions_upto(b, j), regions_upto(b, i).len() as int);
    lemma_regions_prefix(b, 0, j);
    lemma_consistent_prefix(regions_upto(b, j), regions_upto(b, 0).len() as int);
}

proof fn lemma_object_shape(b: Seq<u8>, i: int)
    requires
        0 <= i < pool_count(b),
    ensures
        object_ok(b, i) ==> object_shape_ok(b, i),
        structure_ok(b) ==> object_shape_ok(b, i),
        well_formed_document(b) ==> object_ok(b, i),
{
    reveal(structure_ok);
}

/// A well-formed document is well formed but perhaps for UTF-8.
proof fn lemma_wf_structure(b: Seq<u8>)
    ensures
        well_formed_document(b) ==> structure_ok(b),
{
    reveal(structure_ok);
    if well_formed_document(b) {
        assert forall|i: int| 0 <= i < pool_count(b) implies #[trigger] object_shape_ok(b, i) by {
            assert(object_ok(b, i));
        }
    }
}

/// What a document that is well formed but perhaps for UTF-8 satisfies.
proof fn lemma_structure_ok_parts(b: Seq<u8>)
    ensures
        structure_ok(b) ==> header_ok(b) && consistent(document_regions(b)),
        structure_ok(b) ==> forall|i: int, j: int|
            0 <= i < j < pool_count(b) ==> #[trigger] object_table(b, i) != #[trigger] object_table(b, j),
{
    reveal(structure_ok);
}

#[verifier::spinoff_prover]
#[verifier::rlimit(60)]
fn parse_object<'a>(
    bytes: &'a [u8],
    index: usize,
    object_location: usize,
    id: u64,
    layout: &mut Layout,
) -> (r: Result<Option<(NodeKind, usize, &'a str)>, Error>)
    requires
        header_ok(bytes@),
        index < pool_count(bytes@) <= u32::MAX,
        object_location == object_table(bytes@, index as int),
        uoffset_ok(bytes@, element_location(bytes@, index as int)),
        old(layout).reached() == regions_upto(bytes@, index as int),
        consistent(old(layout).reached()),
        old(layout).wf(),
    ensures
        final(layout).wf(),
        r is Ok ==> {
            &&& object_ok(bytes@, index as int)
            &&& final(layout).reached() == regions_upto(bytes@, index + 1)
            &&& consistent(final(layout).reached())
        },
        r matches Ok(None) ==> source_of_object(bytes@, index as int) is None,
        r matches Ok(Some((kind, field, source))) ==> {
            &&& source_of_object(bytes@, index as int) == Some(
                SpecSource { index: index as int, kind, field: field as int, source: source.spec_bytes() },
            )
            &&& field + 4 <= bytes@.len()
            &&& valid_utf8(source.spec_bytes())
            &&& source.spec_bytes().len() < bytes@.len()
        },
        r is Err ==> !well_formed_document(bytes@),
        r is Err ==> !(object_ok(bytes@, index as int) && consistent(regions_upto(bytes@, index + 1))),
        r matches Err(e) ==> e is Malformed || e is InvalidSourceUtf8,
        r matches Err(Error::Malformed { .. }) ==> !structure_ok(bytes@),
        r matches Err(Error::InvalidSourceUtf8 { node }) ==> node@.index == index && node@.document == id
            && invalid_source_utf8(bytes@, index as int),
{
    let ghost b = bytes@;
    let len = bytes.len();
    proof {
        assert(regions_upto(b, index + 1) == regions_upto(b, index as int) + object_regions(
            b,
            index as int,
        ));
    }
    let object = match parse_table(bytes, object_location, "patch object") {
        Ok(t) => t,
        Err(e) => {
            assert(!object_shape_ok(b, index as int));
        proof { lemma_object_shape(b, index as int); }
            return Err(e);
        },
    };
    let ghost before_table = layout.reached();
    let ghost object_table_regions = table_regions(b, object_location as int);
    let table_added = layout.add_table(object, "patch object");
    if table_added.is_err() {
        proof {
            lemma_wf_structure(b);
            if structure_ok(b) {
                lemma_structure_ok_parts(b);
                assert(object_table_regions =~= object_regions(b, index as int).subrange(0, 2));
                lemma_reached_prefix_consistent(b, index as int, object_table_regions);
                lemma_consistent_extend(before_table, object_table_regions);
            }
            if consistent(regions_upto(b, index + 1)) {
                assert(object_table_regions =~= object_regions(b, index as int).subrange(0, 2));
                lemma_consistent_prefix(regions_upto(b, index + 1), before_table.len() + 2int);
                assert(regions_upto(b, index + 1).subrange(0, before_table.len() + 2int) =~= before_table
                    + object_table_regions);
                lemma_consistent_extend(before_table, object_table_regions);
            }
        }
        return Err(table_added.unwrap_err());
    }
    proof {
        lemma_consistent_extend(before_table, object_table_regions);
    }
    let type_id = match object.field(bytes, 0, "patch object f0") {
        Ok(Some(location)) => match read_u32(bytes, location, "patch object f0") {
            Ok(v) => v,
            Err(e) => {
                assert(!object_shape_ok(b, index as int));
        proof { lemma_object_shape(b, index as int); }
                return Err(e);
            },
        },
        Ok(None) => 0,
        Err(e) => {
            assert(!object_shape_ok(b, index as int));
        proof { lemma_object_shape(b, index as int); }
            return Err(e);
        },
    };
    assert(type_id == type_id_of(b, object_location as int));
    if index == 0 && type_id != 0 {
        assert(!object_shape_ok(b, index as int));
        proof { lemma_object_shape(b, index as int); }
        return Err(malformed(object_location, "root patch object"));
    }
    let kind = match NodeKind::from_type_id(type_id) {
        Some(kind) => kind,
        None => {
            assert(source_of_object(b, index as int) is None);
            assert(object_ok(b, index as int));
            assert(regions_upto(b, index + 1) =~= layout.reached());
            return Ok(None);
        },
    };
    let source_field_location = match object.field(bytes, 10, "patch object f10") {
        Ok(Some(l)) => l,
        Ok(None) => {
            assert(source_of_object(b, index as int) is None);
            assert(object_ok(b, index as int));
            assert(regions_upto(b, index + 1) =~= layout.reached());
            return Ok(None);
        },
        Err(e) => {
            assert(!object_shape_ok(b, index as int));
        proof { lemma_object_shape(b, index as int); }
            return Err(e);
        },
    };
    let handle = NodeHandle { index: index as u32, document: DocumentId(id) };
    let source_location = match follow_uoffset(bytes, source_field_location, "source string") {
        Ok(l) => l,
        Err(e) => {
            assert(!object_shape_ok(b, index as int));
        proof { lemma_object_shape(b, index as int); }
            return Err(e);
        },
    };
    let source_length = match read_u32(bytes, source_location, "source string") {
        Ok(n) => n as usize,
        Err(e) => {
            assert(!object_shape_ok(b, index as int));
        proof { lemma_object_shape(b, index as int); }
            return Err(e);
        },
    };
    if source_location > usize::MAX - U32_SIZE {
        assert(!object_shape_ok(b, index as int));
        proof { lemma_object_shape(b, index as int); }
        return Err(malformed(source_location, "source string"));
    }
    let source_bytes_location = source_location + U32_SIZE;
    if source_bytes_location > usize::MAX - source_length {
        assert(!object_shape_ok(b, index as int));
        proof { lemma_object_shape(b, index as int); }
        return Err(malformed(source_location, "source string"));
    }
    let terminator_location = source_bytes_location + source_length;
    if require_range(bytes, source_bytes_location, source_length, "source string").is_err() {
        assert(!object_shape_ok(b, index as int));
        proof { lemma_object_shape(b, index as int); }
        return Err(malformed(source_bytes_location, "source string"));
    }
    if terminator_location >= len {
        assert(!object_shape_ok(b, index as int));
        proof { lemma_object_shape(b, index as int); }
        return Err(malformed(terminator_location, "source string terminator"));
    }
    if bytes[terminator_location] != 0 {
        assert(!object_shape_ok(b, index as int));
        proof { lemma_object_shape(b, index as int); }
        return Err(malformed(terminator_location, "source string terminator"));
    }
    let source_end = terminator_location + 1;
    let ghost before_string = layout.reached();
    let ghost string = string_region(b, source_field_location as int);
    assert(string == (SpecRegion {
        start: source_location as int,
        end: source_end as int,
        kind: RegionKind::String,
    }));
    assert(object_regions(b, index as int) =~= object_table_regions.push(string));
    let string_added = layout.add(source_location, source_end, RegionKind::String, "source string");
    if string_added.is_err() {
        proof {
            lemma_wf_structure(b);
            if structure_ok(b) {
                lemma_structure_ok_parts(b);
                assert(object_regions(b, index as int).subrange(0, 3) =~= object_regions(
                    b,
                    index as int,
                ));
                lemma_reached_prefix_consistent(b, index as int, object_regions(b, index as int));
                assert(before_string =~= regions_upto(b, index as int) + object_table_regions);
                assert(regions_upto(b, index as int) + object_regions(b, index as int)
                    =~= before_string.push(string));
                let i = choose|i: int|
                    0 <= i < before_string.len() && !compatible(#[trigger] before_string[i], string);
                assert(before_string.push(string)[i] == before_string[i]);
                assert(before_string.push(string)[before_string.len() as int] == string);
            }
            if consistent(regions_upto(b, index + 1)) {
                assert(regions_upto(b, index + 1) =~= before_string.push(string));
                let i = choose|i: int|
                    0 <= i < before_string.len() && !compatible(#[trigger] before_string[i], string);
                assert(before_string.push(string)[i] == before_string[i]);
                assert(before_string.push(string)[before_string.len() as int] == string);
            }
        }
        return Err(string_added.unwrap_err());
    }
    proof {
        lemma_consistent_extend(before_string, seq![string]);
        assert(before_string + seq![string] =~= before_string.push(string));
        assert(layout.reached() =~= regions_upto(b, index + 1));
    }
    let source = match str_from_utf8(&bytes[source_bytes_location..terminator_location]) {
        Some(source) => source,
        None => {
            assert(!object_ok(b, index as int));
            assert(bytes@.subrange(source_bytes_location as int, terminator_location as int)
                == b.subrange(source_bytes_location as int, terminator_location as int));
            return Err(Error::InvalidSourceUtf8 { node: handle });
        },
    };
    assert(source.spec_bytes().len() == terminator_location - source_bytes_location);
    assert(object_ok(b, index as int));
    Ok(Some((kind, source_field_location, source)))
}

impl<'a> Document<'a> {
    #[verifier::type_invariant]
    closed spec fn wf(&self) -> bool {
        &&& self.sources@.len() == self.source_field_locations@.len()
        &&& well_formed_document(self.bytes@)
        &&& self.id == fingerprint_of(self.bytes@)
        &&& node_views(self.sources@, self.source_field_locations@) == document_sources(
            self.bytes@,
        )
        &&& forall|i: int|
            0 <= i < self.sources@.len() ==> (#[trigger] self.sources@[i]).handle@.document
                == self.id
        &&& strictly_increasing_indices(node_views(self.sources@, self.source_field_locations@))
        &&& forall|i: int|
            0 <= i < self.sources@.len() ==> (#[trigger] self.source_field_locations@[i]) + 4
                <= self.bytes@.len()
        &&& forall|i: int|
            0 <= i < self.sources@.len() ==> (#[trigger] self.sources@[i]).source.spec_bytes().len()
                < self.bytes@.len()
        &&& self.bytes@.len() <= usize::MAX
    }

    /// Parses and validates every structure reached by the source-field view.
    ///
    /// Repeated patch-object references and aliased storage for an accessed
    /// table field are rejected because they cannot represent independently
    /// rewritable node fields while preserving unknown data. Shared vtables and
    /// shared string targets remain supported because rewriting does not mutate
    /// them.
    #[verifier::rlimit(60)]
    pub fn parse(bytes: &'a [u8]) -> (r: Result<Self, Error>)
        ensures
            r is Ok <==> well_formed_document(bytes@),
            (bytes@.len() < 8) <==> r matches Err(Error::InvalidHeader),
            (bytes@.len() >= 8 && !has_adls_identifier(bytes@)) <==> r matches Err(
                Error::InvalidIdentifier,
            ),
            r matches Ok(d) ==> {
                &&& d@.bytes == bytes@
                &&& d@.id == fingerprint_of(bytes@)
                &&& d@.sources == document_sources(bytes@)
                &&& forall|i: int|
                    0 <= i < d@.sources.len() ==> valid_utf8(#[trigger] d@.sources[i].source)
            },
            (root_readable(bytes@) && spec_field(bytes@, root_table(bytes@), 0) is None) <==> r matches Err(
                Error::MissingPatchObjectPool,
            ),
            r matches Err(Error::DuplicatePatchObjectTable { first_index, second_index }) ==> header_ok(bytes@)
                && first_duplicate(bytes@, first_index as int, second_index as int),
            forall|i: int, j: int|
                header_ok(bytes@) && #[trigger] first_duplicate(bytes@, i, j) ==> (r matches Err(
                    Error::DuplicatePatchObjectTable { first_index, second_index },
                ) && first_index == i && second_index == j),
            r matches Err(Error::InvalidSourceUtf8 { node }) ==> node@.index < pool_count(bytes@)
                && node@.document == fingerprint_of(bytes@) && invalid_source_utf8(bytes@, node@.index as int)
                && forall|k: int| 0 <= k < node@.index ==> !#[trigger] invalid_source_utf8(bytes@, k),
            r matches Err(Error::Malformed { .. }) ==> !structure_ok(bytes@),
            structure_ok(bytes@) && !well_formed_document(bytes@) ==> r matches Err(Error::InvalidSourceUtf8 { .. }),
    {
        proof {
            lemma_wf_structure(bytes@);
            lemma_structure_ok_parts(bytes@);
            if exists|i: int, j: int| header_ok(bytes@) && #[trigger] first_duplicate(bytes@, i, j) {
                let (i, j) = choose|i: int, j: int| header_ok(bytes@) && #[trigger] first_duplicate(bytes@, i, j);
                lemma_consistent_upto(bytes@, 0, j);
            }
        }
        if bytes.len() < HEADER_SIZE {
            return Err(Error::InvalidHeader);
        }
        if !(bytes[4] == 0x41 && bytes[5] == 0x44 && bytes[6] == 0x4c && bytes[7] == 0x53) {
            return Err(Error::InvalidIdentifier);
        }
        let ghost b = bytes@;
        let len = bytes.len();
        let id = fingerprint(bytes);
        let mut layout = Layout::new();
        let header_added = layout.add(0, HEADER_SIZE, RegionKind::Header, "ADLS header");
        assert(header_added is Ok);
        let root_location = follow_uoffset(bytes, 0, "root table")?;
        let root = parse_table(bytes, root_location, "root table")?;
        let ghost before_root = layout.reached();
        let root_added = layout.add_table(root, "root table");
        if root_added.is_err() {
            proof {
                if structure_ok(b) {
                    lemma_header_prefix_consistent(b, 3);
                }
                if consistent(header_regions(b)) {
                    lemma_consistent_prefix(header_regions(b), 3);
                }
                if consistent(header_regions(b).subrange(0, 3)) {
                    assert(header_regions(b).subrange(0, 3) =~= before_root + table_regions(
                        b,
                        root_location as int,
                    ));
                    lemma_consistent_extend(before_root, table_regions(b, root_location as int));
                }
            }
            return Err(root_added.unwrap_err());
        }
        proof {
            assert(header_regions(b).subrange(0, 3) =~= before_root + table_regions(b, root_location as int));
            lemma_consistent_extend(before_root, table_regions(b, root_location as int));
        }
        let pool_field = match root.field(bytes, 0, "root f0")? {
            Some(l) => l,
            None => {
                return Err(Error::MissingPatchObjectPool);
            },
        };
        let pool_location = follow_uoffset(bytes, pool_field, "patch-object vector")?;
        let object_count = read_u32(bytes, pool_location, "patch-object vector")? as usize;
        if object_count == 0 {
            return Err(malformed(pool_location, "patch-object vector"));
        }
        if pool_location > usize::MAX - U32_SIZE {
            return Err(malformed(pool_location, "patch-object vector"));
        }
        let elements_location = pool_location + U32_SIZE;
        if object_count > usize::MAX / U32_SIZE {
            return Err(malformed(pool_location, "patch-object vector"));
        }
        let elements_size = object_count * U32_SIZE;
        require_range(bytes, elements_location, elements_size, "patch-object vector")?;
        let pool_end = elements_location + elements_size;
        assert(pool_location == pool_vector(b));
        assert(object_count == pool_count(b));
        assert(pool_end == element_location(b, pool_count(b)));
        let ghost before_pool = layout.reached();
        let pool_added = layout.add(
            pool_location,
            pool_end,
            RegionKind::Vector,
            "patch-object vector",
        );
        let ghost pool_region = SpecRegion {
            start: pool_location as int,
            end: pool_end as int,
            kind: RegionKind::Vector,
        };
        assert(header_regions(b) =~= before_pool.push(pool_region));
        if pool_added.is_err() {
            proof {
                if structure_ok(b) {
                    lemma_header_prefix_consistent(b, 4);
                    assert(header_regions(b).subrange(0, 4) =~= header_regions(b));
                }
                if consistent(header_regions(b)) {
                    assert(header_regions(b)[3] == pool_region);
                    let i = choose|i: int|
                        0 <= i < before_pool.len() && !compatible(
                            #[trigger] before_pool[i],
                            pool_region,
                        );
                    assert(header_regions(b)[i] == before_pool[i]);
                }
            }
            return Err(pool_added.unwrap_err());
        }
        proof {
            lemma_consistent_extend(Seq::<SpecRegion>::empty(), before_pool);
            lemma_consistent_extend(before_pool, seq![pool_region]);
            assert(before_pool + seq![pool_region] =~= before_pool.push(pool_region));
            assert(Seq::<SpecRegion>::empty() + before_pool =~= before_pool);
            assert(layout.reached() == regions_upto(b, 0));
        }

        let mut sources: Vec<SourceNode<'a>> = Vec::new();
        let mut fields: Vec<usize> = Vec::new();
        let mut objects: Vec<usize> = Vec::new();
        let mut index: usize = 0;
        while index < object_count
            invariant
                b == bytes@,
                len == b.len(),
                object_count <= u32::MAX,
                header_ok(b),
                id == fingerprint_of(b),
                index <= object_count,
                object_count == pool_count(b),
                elements_location == pool_vector(b) + 4,
                forall|k: int| 0 <= k < index ==> #[trigger] object_ok(b, k),
                forall|i: int, j: int|
                    0 <= i < j < index ==> #[trigger] object_table(b, i) != #[trigger] object_table(
                        b,
                        j,
                    ),
                layout.reached() == regions_upto(b, index as int),
                consistent(layout.reached()),
                layout.wf(),
                forall|i: int, j: int| #[trigger] first_duplicate(b, i, j) ==> index <= j,
                objects@.len() == index,
                forall|k: int| 0 <= k < index ==> objects@[k] == object_table(b, k),
                sources@.len() == fields@.len(),
                node_views(sources@, fields@) == sources_upto(b, index as int),
                forall|k: int|
                    0 <= k < sources@.len() ==> (#[trigger] sources@[k]).handle@.document == id,
                forall|k: int|
                    0 <= k < sources@.len() ==> (#[trigger] sources@[k]).handle@.index < index,
                strictly_increasing_indices(node_views(sources@, fields@)),
                forall|k: int| 0 <= k < fields@.len() ==> (#[trigger] fields@[k]) + 4 <= b.len(),
                forall|k: int|
                    0 <= k < sources@.len() ==> valid_utf8(
                        (#[trigger] sources@[k]).source.spec_bytes(),
                    ),
                forall|k: int|
                    0 <= k < sources@.len() ==> (#[trigger] sources@[k]).source.spec_bytes().len()
                        < b.len(),
            decreases object_count - index,
        {
            let element = elements_location + U32_SIZE * index;
            assert(element == element_location(b, index as int));
            let object_location = match follow_uoffset(bytes, element, "patch object") {
                Ok(l) => l,
                Err(e) => {
                    assert(!object_shape_ok(b, index as int));
                    proof {
                        lemma_object_shape(b, index as int);
                    }
                    return Err(e);
                },
            };
            assert(object_location == object_table(b, index as int));
            let pool_index = index as u32;
            let mut k: usize = 0;
            while k < objects.len()
                invariant
                    k <= objects@.len(),
                    objects@.len() == index,
                    index < object_count <= u32::MAX,
                    object_count == pool_count(b),
                    b == bytes@,
                    header_ok(b),
                    object_location == object_table(b, index as int),
                    forall|j: int| 0 <= j < index ==> objects@[j] == object_table(b, j),
                    forall|j: int| 0 <= j < k ==> objects@[j] != object_location,
                    forall|j: int| 0 <= j < index ==> #[trigger] object_ok(b, j),
                    forall|i: int, j: int|
                        0 <= i < j < index ==> #[trigger] object_table(b, i) != #[trigger] object_table(b, j),
                    uoffset_ok(b, element_location(b, index as int)),
                    consistent(regions_upto(b, index as int)),
                    forall|i: int, j: int| #[trigger] first_duplicate(b, i, j) ==> index <= j,
                    pool_index as int == index as int,
                decreases objects@.len() - k,
            {
                if objects[k] == object_location {
                    assert(object_table(b, k as int) == object_table(b, index as int));
                    assert(forall|j: int| 0 <= j < pool_index ==> #[trigger] object_ok(bytes@, j));
                    proof {
                        lemma_structure_ok_parts(bytes@);
                    }
                    return Err(
                        Error::DuplicatePatchObjectTable {
                            first_index: k as u32,
                            second_index: pool_index,
                        },
                    );
                }
                k = k + 1;
            }
            proof {
                assert forall|i: int, j: int| #[trigger] first_duplicate(b, i, j) implies index < j by {
                    if j == index {
                        assert(objects@[i] == object_table(b, i));
                    }
                }
                if exists|i: int, j: int| #[trigger] first_duplicate(b, i, j) {
                    let (i, j) = choose|i: int, j: int| #[trigger] first_duplicate(b, i, j);
                    lemma_consistent_upto(b, index + 1, j);
                }
            }
            objects.push(object_location);
            let ghost before = node_views(sources@, fields@);
            proof {
                assert(sources_upto(b, index + 1) == sources_upto(b, index as int) + match source_of_object(b, index as int) {
                    Some(s) => seq![s],
                    None => Seq::<SpecSource>::empty(),
                });
            }
            assert forall|k: int| 0 <= k < index implies !#[trigger] invalid_source_utf8(b, k) by {
                assert(object_ok(b, k));
            }
            match parse_object(bytes, index, object_location, id, &mut layout)? {
                None => {
                    assert(sources_upto(b, index + 1) =~= before);
                },
                Some((kind, source_field_location, source)) => {
                    let handle = NodeHandle { index: pool_index, document: DocumentId(id) };
                    sources.push(SourceNode { handle, kind, source });
                    fields.push(source_field_location);
                    proof {
                        let spec_source = SpecSource {
                            index: index as int,
                            kind,
                            field: source_field_location as int,
                            source: source.spec_bytes(),
                        };
                        assert(node_views(sources@, fields@) =~= before.push(spec_source));
                        assert(node_views(sources@, fields@) =~= sources_upto(b, index + 1));
                    }
                },
            }
            index = index + 1;
        }
        assert(layout.reached() == document_regions(b));
        let document = Document { bytes, sources, source_field_locations: fields, id };
        assert(document@.sources == document_sources(b));
        Ok(document)
    }

    /// Returns present source fields in patch-object vector (document) order.
    pub fn sources(&self) -> (r: &[SourceNode<'a>])
        ensures
            r@.len() == self@.sources.len(),
            forall|i: int|
                0 <= i < r@.len() ==> {
                    &&& (#[trigger] r@[i]).handle@.index == self@.sources[i].index
                    &&& r@[i].handle@.document == self@.id
                    &&& r@[i].kind == self@.sources[i].kind
                    &&& r@[i].source.spec_bytes() == self@.sources[i].source
                    &&& r@[i].source.spec_bytes().len() < self@.bytes.len()
                },
            self@.bytes.len() <= usize::MAX,
            well_formed_document(self@.bytes),
            self@.sources == document_sources(self@.bytes),
    {
        proof {
            use_type_invariant(self);
        }
        self.sources.as_slice()
    }

    /// The position of the source whose patch-object index is `index`.
    fn find_slot(&self, index: u32) -> (r: Option<usize>)
        ensures
            match r {
                Some(i) => i < self@.sources.len() && self@.sources[i as int].index == index,
                None => forall|i: int|
                    0 <= i < self@.sources.len() ==> #[trigger] self@.sources[i].index != index,
            },
    {
        proof {
            use_type_invariant(self);
        }
        let mut i: usize = 0;
        while i < self.sources.len()
            invariant
                i <= self.sources@.len(),
                self@.sources.len() == self.sources@.len(),
                forall|k: int| 0 <= k < self.sources@.len() ==> #[trigger] self@.sources[k].index
                    == self.sources@[k].handle@.index,
                forall|k: int| 0 <= k < i ==> #[trigger] self@.sources[k].index != index,
            decreases self.sources@.len() - i,
        {
            if self.sources[i].handle.index() == index {
                return Some(i);
            }
            i = i + 1;
        }
        None
    }

    /// Replaces a batch of present source fields.
    ///
    /// An empty batch, or a batch whose values are all unchanged, borrows the
    /// original bytes exactly. Replacement handles must come from [`Self::sources`]
    /// and may occur at most once in a batch.
    pub fn rewrite<'source>(&self, replacements: &[(NodeHandle, &'source str)]) -> (r: Result<
        Cow<'a, [u8]>,
        Error,
    >)
        ensures
            match spec_document_rewrite(self@, replacement_views(replacements@)) {
                SpecRewrite::UnknownHandle(j) => r matches Err(Error::UnknownNodeHandle { node })
                    && node == replacements@[j].0,
                SpecRewrite::DuplicateHandle(j) => r matches Err(
                    Error::DuplicateReplacement { node },
                ) && node == replacements@[j].0,
                SpecRewrite::Unchanged => r matches Ok(Cow::Borrowed(o)) && o@ == self@.bytes,
                SpecRewrite::TooLarge => r matches Err(Error::SizeLimitExceeded),
                SpecRewrite::Rewritten(out) => r matches Ok(Cow::Owned(o)) && o@ == out,
            },
    {
        proof {
            use_type_invariant(self);
        }
        let ghost v = self@;
        let ghost reps = replacement_views(replacements@);
        if replacements.len() == 0 {
            return Ok(Cow::Borrowed(self.bytes));
        }
        let n = self.sources.len();
        let mut requested: Vec<Option<usize>> = Vec::new();
        let mut i: usize = 0;
        while i < n
            invariant
                i <= n,
                requested@.len() == i,
                forall|k: int| 0 <= k < i ==> requested@[k] is None,
            decreases n - i,
        {
            requested.push(None);
            i = i + 1;
        }
        let mut j: usize = 0;
        while j < replacements.len()
            invariant
                j <= replacements@.len(),
                reps == replacement_views(replacements@),
                v == self@,
                n == v.sources.len(),
                requested@.len() == n,
                refused_pair(v, reps, j as int) is None,
                forall|k: int|
                    0 <= k < n ==> slot_view(#[trigger] requested@[k]) == pair_for(
                        reps,
                        source_handle(v, k),
                        j as int,
                    ),
            decreases replacements@.len() - j,
        {
            proof {
                use_type_invariant(self);
            }
            let handle = replacements[j].0;
            assert(reps[j as int].0 == handle@);
            let slot = match self.find_slot(handle.index()) {
                Some(slot) => slot,
                None => {
                    assert(!known_handle(v, handle@));
                    proof {
                        lemma_refused_stays(v, reps, j + 1, reps.len() as int);
                    }
                    return Err(Error::UnknownNodeHandle { node: handle });
                },
            };
            assert(self.sources@[slot as int].handle@ == source_handle(v, slot as int));
            if self.sources[slot].handle != handle {
                assert(!known_handle(v, handle@)) by {
                    if known_handle(v, handle@) {
                        let k = choose|k: int|
                            0 <= k < v.sources.len() && #[trigger] v.sources[k].index
                                == handle@.index;
                        if k != slot {
                            assert(strictly_increasing_indices(v.sources));
                            if k < slot {
                                assert(v.sources[k].index < v.sources[slot as int].index);
                            } else {
                                assert(v.sources[slot as int].index < v.sources[k].index);
                            }
                        }
                    }
                }
                proof {
                    lemma_refused_stays(v, reps, j + 1, reps.len() as int);
                }
                return Err(Error::UnknownNodeHandle { node: handle });
            }
            assert(known_handle(v, handle@));
            if requested[slot].is_some() {
                proof {
                    lemma_refused_stays(v, reps, j + 1, reps.len() as int);
                }
                return Err(Error::DuplicateReplacement { node: handle });
            }
            requested.set(slot, Some(j));
            proof {
                assert forall|k: int| 0 <= k < n implies slot_view(#[trigger] requested@[k])
                    == pair_for(reps, source_handle(v, k), j + 1) by {
                    if k != slot {
                        assert(v.sources[k].index != v.sources[slot as int].index) by {
                            assert(strictly_increasing_indices(v.sources));
                            if k < slot {
                                assert(v.sources[k].index < v.sources[slot as int].index);
                            } else {
                                assert(v.sources[slot as int].index < v.sources[k].index);
                            }
                        }
                        assert(source_handle(v, k) != handle@);
                    }
                }
            }
            j = j + 1;
        }
        let mut changes: Vec<(usize, &'source str)> = Vec::new();
        let mut lengths: Vec<usize> = Vec::new();
        let mut i: usize = 0;
        while i < n
            invariant
                i <= n,
                j == replacements@.len(),
                reps == replacement_views(replacements@),
                v == self@,
                n == v.sources.len(),
                requested@.len() == n,
                forall|k: int|
                    0 <= k < n ==> slot_view(#[trigger] requested@[k]) == pair_for(
                        reps,
                        source_handle(v, k),
                        j as int,
                    ),
                change_views(changes@) == changes_upto(v, reps, i as int),
                lengths@.len() == changes@.len(),
                forall|k: int| 0 <= k < changes@.len() ==> #[trigger] lengths@[k] == changes@[k].1.spec_bytes().len(),
                forall|k: int| 0 <= k < changes@.len() ==> (#[trigger] changes@[k]).0 + 4 <= v.bytes.len(),
            decreases n - i,
        {
            proof {
                use_type_invariant(self);
            }
            if let Some(j) = requested[i] {
                proof {
                    lemma_pair_for_bound(reps, source_handle(v, i as int), replacements@.len() as int);
                }
                let replacement = replacements[j].1;
                let current = self.sources[i].source;
                assert(current.spec_bytes() == v.sources[i as int].source);
                if !bytes_eq(replacement.as_bytes(), current.as_bytes()) {
                    let ghost before = changes@;
                    changes.push((self.source_field_locations[i], replacement));
                    lengths.push(replacement.as_bytes().len());
                    assert(change_views(changes@) =~= change_views(before).push(
                        SpecChange { field: v.sources[i as int].field, text: replacement.spec_bytes() },
                    ));
                } else {
                    assert(change_views(changes@) =~= changes_upto(v, reps, i + 1));
                }
            }
            i = i + 1;
        }
        let ghost cs = document_changes(v, reps);
        assert(change_views(changes@) == cs);
        if changes.len() == 0 {
            return Ok(Cow::Borrowed(self.bytes));
        }
        assert(usize_lengths(lengths@) =~= change_lengths(cs));
        let planned = plan_rewrite_size(self.bytes.len(), lengths.as_slice())?;
        let mut output: Vec<u8> = Vec::with_capacity(planned);
        push_all(&mut output, self.bytes);
        assert(output@ =~= v.bytes);
        let mut k: usize = 0;
        while k < changes.len()
            invariant
                k <= changes@.len(),
                cs == change_views(changes@),
                size_fits(v.bytes.len() as int, change_lengths(cs)),
                forall|m: int| 0 <= m < changes@.len() ==> (#[trigger] changes@[m]).0 + 4 <= v.bytes.len(),
                output@ == apply_changes(v.bytes, cs.subrange(0, k as int)),
            decreases changes@.len() - k,
        {
            let (field, replacement) = changes[k];
            let ghost prefix = cs.subrange(0, k as int);
            proof {
                assert forall|m: int| 0 <= m < prefix.len() implies 0 <= (#[trigger] prefix[m]).field
                    && prefix[m].field + 4 <= v.bytes.len() by {
                    assert(prefix[m] == cs[m]);
                }
                lemma_apply_changes_len(v.bytes, prefix);
                assert(change_lengths(cs.subrange(0, k + 1)) =~= change_lengths(cs).subrange(0, k + 1));
                assert(change_lengths(cs.subrange(0, k + 1)).drop_last() =~= change_lengths(prefix));
                assert forall|m: int| 0 <= m < change_lengths(cs).len() implies change_lengths(cs)[m] >= 0 by {}
                lemma_planned_grows(v.bytes.len() as int, change_lengths(cs), k + 1);
                assert(cs.subrange(0, k + 1).drop_last() =~= prefix);
                assert(cs[k as int] == (SpecChange { field: field as int, text: replacement.spec_bytes() }));
            }
            append_change(&mut output, field, replacement);
            k = k + 1;
        }
        assert(cs.subrange(0, k as int) =~= cs);
        proof {
            assert(v == crate::adls_laws::view_of(v.bytes));
            assert forall|m: int| 0 <= m < reps.len() implies valid_utf8(#[trigger] reps[m].1) by {
                assert(reps[m].1 == replacements@[m].1.spec_bytes());
            }
            crate::adls_valid::lemma_rewrite_stays_well_formed(v.bytes, reps, output@);
        }
        match Document::parse(output.as_slice()) {
            Ok(_) => {},
            Err(e) => {
                return Err(e);
            },
        }
        Ok(Cow::Owned(output))
    }
}

} // verus!
