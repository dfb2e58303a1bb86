//! What a rewritten document reads back.
//!
//! Rewriting appends each new source string and points the source field at
//! it. Every other byte of the document stays where it was, and every source
//! field reads back exactly the text it was given.

use vstd::prelude::*;

use crate::adls::{
    apply_changes, compatible, document_regions, entries_in_table, entry_at,
    header_regions, le32, lemma_regions_prefix, object_length_of, object_ok, object_regions,
    object_table, pool_count, regions_upto, source_of_object, sources_upto, string_region,
    table_regions, string_ok, uoffset_target, pair_for, source_handle, size_fits, change_lengths, type_id_of, kind_of_type, u32_at, i32_at, u16_at, spec_field, root_table, pool_vector, vtable_length_of, vtable_of, well_formed_document, word_aligned,
    RegionKind, SpecChange, SpecSource, SpecRewrite, spec_document_rewrite, refused_pair, DocumentView, NodeHandleView, changes_upto, document_sources,
    fingerprint_of, document_changes,
};

verus! {

/// Position `p` lies in the four-byte word at `f`.
pub open spec fn in_word(f: int, p: int) -> bool {
    f <= p < f + 4
}

/// Position `p` lies in the field word of some change.
pub open spec fn touched(cs: Seq<SpecChange>, p: int) -> bool {
    exists|k: int| 0 <= k < cs.len() && in_word(#[trigger] cs[k].field, p)
}

/// Every change rewrites a field word inside the original bytes.
pub open spec fn fields_inside(b: Seq<u8>, cs: Seq<SpecChange>) -> bool {
    forall|k: int| 0 <= k < cs.len() ==> 0 <= #[trigger] cs[k].field && cs[k].field + 4 <= b.len()
}

/// No two changes share a byte of their field words.
pub open spec fn fields_apart(cs: Seq<SpecChange>) -> bool {
    forall|k: int, l: int|
        0 <= k < cs.len() && 0 <= l < cs.len() && k != l ==> #[trigger] cs[k].field + 4 <= #[trigger] cs[l].field
            || cs[l].field + 4 <= cs[k].field
}

proof fn lemma_fields_prefix(b: Seq<u8>, cs: Seq<SpecChange>)
    requires
        fields_inside(b, cs),
        cs.len() > 0,
    ensures
        fields_inside(b, cs.drop_last()),
{
    assert forall|k: int| 0 <= k < cs.drop_last().len() implies 0 <= #[trigger] cs.drop_last()[k].field
        && cs.drop_last()[k].field + 4 <= b.len() by {
        assert(cs.drop_last()[k] == cs[k]);
    }
}

/// Appending changes keeps every original byte outside the changed field
/// words, and only grows the document.
pub proof fn lemma_rewrite_preserves_untouched_bytes(b: Seq<u8>, cs: Seq<SpecChange>)
    requires
        fields_inside(b, cs),
    ensures
        apply_changes(b, cs).len() >= b.len(),
        forall|p: int| 0 <= p < b.len() && !touched(cs, p) ==> #[trigger] apply_changes(b, cs)[p] == b[p],
    decreases cs.len(),
{
    if cs.len() > 0 {
        let prev = cs.drop_last();
        lemma_fields_prefix(b, cs);
        lemma_rewrite_preserves_untouched_bytes(b, prev);
        let out = apply_changes(b, prev);
        let c = cs.last();
        let at = word_aligned(out.len() as int);
        assert(at >= out.len());
        assert(c == cs[cs.len() - 1]);
        assert forall|p: int| 0 <= p < b.len() && !touched(cs, p) implies #[trigger] apply_changes(b, cs)[p] == b[p] by {
            if touched(prev, p) {
                let k = choose|k: int| 0 <= k < prev.len() && in_word(#[trigger] prev[k].field, p);
                assert(prev[k] == cs[k]);
            }
            assert(!in_word(c.field, p));
        }
    }
}

/// Where the string of change `j` starts: the aligned end of the document
/// after the changes before it.
pub open spec fn string_at(b: Seq<u8>, cs: Seq<SpecChange>, j: int) -> int {
    word_aligned(apply_changes(b, cs.subrange(0, j)).len() as int)
}

pub(crate) proof fn lemma_apply_grows(b: Seq<u8>, cs: Seq<SpecChange>, j: int)
    requires
        fields_inside(b, cs),
        0 <= j <= cs.len(),
    ensures
        apply_changes(b, cs.subrange(0, j)).len() <= apply_changes(b, cs).len(),
        j < cs.len() ==> string_at(b, cs, j) + 4 + cs[j].text.len() + 1 <= apply_changes(b, cs).len(),
    decreases cs.len(),
{
    if j == cs.len() {
        assert(cs.subrange(0, j) =~= cs);
    } else {
        let prev = cs.drop_last();
        lemma_fields_prefix(b, cs);
        let out = apply_changes(b, prev);
        let at = word_aligned(out.len() as int);
        assert(at >= out.len());
        lemma_rewrite_preserves_untouched_bytes(b, prev);
        if j < prev.len() {
            lemma_apply_grows(b, prev, j);
            assert(prev.subrange(0, j) =~= cs.subrange(0, j));
            assert(prev[j] == cs[j]);
        } else {
            assert(prev =~= cs.subrange(0, j));
        }
    }
}

/// The field word of change `j` points at its string, which holds the
/// text's length, the text, and a NUL.
#[verifier::spinoff_prover]
#[verifier::rlimit(40)]
pub proof fn lemma_rewrite_writes_change(b: Seq<u8>, cs: Seq<SpecChange>, j: int)
    requires
        fields_inside(b, cs),
        fields_apart(cs),
        0 <= j < cs.len(),
    ensures
        b.len() <= string_at(b, cs, j),
        string_at(b, cs, j) + 4 + cs[j].text.len() + 1 <= apply_changes(b, cs).len(),
        forall|q: int| 0 <= q < 4 ==> #[trigger] apply_changes(b, cs)[cs[j].field + q] == le32(
            string_at(b, cs, j) - cs[j].field,
        )[q],
        forall|q: int| 0 <= q < 4 ==> #[trigger] apply_changes(b, cs)[string_at(b, cs, j) + q]
            == le32(cs[j].text.len() as int)[q],
        forall|q: int| 0 <= q < cs[j].text.len() ==> #[trigger] apply_changes(b, cs)[string_at(b, cs, j) + 4 + q]
            == cs[j].text[q],
        apply_changes(b, cs)[string_at(b, cs, j) + 4 + cs[j].text.len()] == 0,
    decreases cs.len(),
{
    let n = cs.len();
    let prev = cs.drop_last();
    lemma_fields_prefix(b, cs);
    lemma_rewrite_preserves_untouched_bytes(b, prev);
    lemma_apply_grows(b, cs, j);
    let out = apply_changes(b, prev);
    let last = cs.last();
    let at_last = word_aligned(out.len() as int);
    assert(at_last >= out.len());
    let grown = out + Seq::new((at_last - out.len()) as nat, |i: int| 0u8) + le32(last.text.len() as int)
        + last.text + seq![0u8];
    let result = apply_changes(b, cs);
    assert(result == grown.subrange(0, last.field) + le32(at_last - last.field) + grown.subrange(
        last.field + 4,
        grown.len() as int,
    ));
    assert(cs[n - 1] == last);
    if j == n - 1 {
        assert(prev =~= cs.subrange(0, j));
        assert(string_at(b, cs, j) == at_last);
        assert forall|q: int| 0 <= q < 4 implies #[trigger] result[last.field + q] == le32(at_last - last.field)[q] by {}
        assert forall|q: int| 0 <= q < 4 implies #[trigger] result[at_last + q] == le32(last.text.len() as int)[q] by {
            assert(grown[at_last + q] == le32(last.text.len() as int)[q]);
        }
        assert forall|q: int| 0 <= q < last.text.len() implies #[trigger] result[at_last + 4 + q] == last.text[q] by {
            assert(grown[at_last + 4 + q] == last.text[q]);
        }
        assert(grown[at_last + 4 + last.text.len()] == 0);
    } else {
        assert forall|k: int, l: int|
            0 <= k < prev.len() && 0 <= l < prev.len() && k != l implies #[trigger] prev[k].field + 4
            <= #[trigger] prev[l].field || prev[l].field + 4 <= prev[k].field by {
            assert(prev[k] == cs[k] && prev[l] == cs[l]);
        }
        lemma_rewrite_writes_change(b, prev, j);
        assert(prev.subrange(0, j) =~= cs.subrange(0, j));
        assert(prev[j] == cs[j]);
        let c = cs[j];
        let at = string_at(b, cs, j);
        assert(string_at(b, prev, j) == at);
        lemma_apply_grows(b, prev, j);
        // Positions below the previous length keep their bytes unless they
        // are in the last change's field word.
        assert forall|p: int| 0 <= p < out.len() && !in_word(last.field, p) implies #[trigger] result[p] == out[p] by {
            if p < last.field {
            } else {
                assert(grown[p] == out[p]);
            }
        }
        assert(c.field + 4 <= last.field || last.field + 4 <= c.field);
        assert forall|q: int| 0 <= q < 4 implies #[trigger] result[c.field + q] == le32(at - c.field)[q] by {
            assert(!in_word(last.field, c.field + q));
            assert(out[c.field + q] == le32(at - c.field)[q]);
        }
        assert forall|q: int| 0 <= q < 4 implies #[trigger] result[at + q] == le32(c.text.len() as int)[q] by {
            assert(out[at + q] == le32(c.text.len() as int)[q]);
            assert(!in_word(last.field, at + q));
        }
        assert forall|q: int| 0 <= q < c.text.len() implies #[trigger] result[at + 4 + q] == c.text[q] by {
            assert(out[at + 4 + q] == c.text[q]);
            assert(!in_word(last.field, at + 4 + q));
        }
        assert(!in_word(last.field, at + 4 + c.text.len()));
        assert(result[at + 4 + c.text.len()] == out[at + 4 + c.text.len()]);
    }
}

/// Four bytes written as `le32(v)` read back as `v`.
pub proof fn lemma_u32_reads_le32(s: Seq<u8>, i: int, v: int)
    requires
        0 <= v < 0x1_0000_0000,
        0 <= i,
        i + 4 <= s.len(),
        forall|q: int| 0 <= q < 4 ==> #[trigger] s[i + q] == le32(v)[q],
    ensures
        u32_at(s, i) == v,
{
    assert(s[i + 0] == le32(v)[0]);
    assert(s[i + 1] == le32(v)[1]);
    assert(s[i + 2] == le32(v)[2]);
    assert(s[i + 3] == le32(v)[3]);
    let b0 = v % 256;
    let b1 = (v / 256) % 256;
    let b2 = (v / 65536) % 256;
    let b3 = (v / 16777216) % 256;
    assert(b0 + 256 * b1 + 65536 * b2 + 16777216 * b3 == v) by (nonlinear_arith)
        requires
            0 <= v < 0x1_0000_0000,
            b0 == v % 256,
            b1 == (v / 256) % 256,
            b2 == (v / 65536) % 256,
            b3 == (v / 16777216) % 256,
    ;
}

/// The first reached range of object `i` in the document's list of ranges.
pub open spec fn object_base(b: Seq<u8>, i: int) -> int {
    regions_upto(b, i).len() as int
}

pub(crate) proof fn lemma_object_regions_len(b: Seq<u8>, i: int)
    ensures
        2 <= object_regions(b, i).len() <= 3,
        object_regions(b, i)[0] == table_regions(b, object_table(b, i))[0],
        object_regions(b, i)[1] == table_regions(b, object_table(b, i))[1],
        source_of_object(b, i) matches Some(s) ==> object_regions(b, i).len() == 3
            && object_regions(b, i)[2] == string_region(b, s.field),
{
}

pub(crate) proof fn lemma_regions_grow(b: Seq<u8>, i: int, k: int)
    requires
        0 <= i < k,
    ensures
        object_base(b, i) + object_regions(b, i).len() <= object_base(b, k),
        object_base(b, 0) == 4,
        4 <= object_base(b, i),
    decreases k - i,
{
    lemma_object_regions_len(b, i);
    lemma_regions_base(b, i);
    if i + 1 < k {
        lemma_regions_grow(b, i + 1, k);
        lemma_object_regions_len(b, i + 1);
    }
}

pub(crate) proof fn lemma_regions_base(b: Seq<u8>, i: int)
    requires
        0 <= i,
    ensures
        4 <= object_base(b, i),
        object_base(b, 0) == 4,
        object_base(b, i + 1) == object_base(b, i) + object_regions(b, i).len(),
    decreases i,
{
    if i > 0 {
        lemma_regions_base(b, i - 1);
    }
}

/// Range `q` of object `i` is at its place in the document's list of ranges.
pub(crate) proof fn lemma_object_region_at(b: Seq<u8>, i: int, q: int)
    requires
        0 <= i < pool_count(b),
        0 <= q < object_regions(b, i).len(),
    ensures
        object_base(b, i) + q < document_regions(b).len(),
        document_regions(b)[object_base(b, i) + q] == object_regions(b, i)[q],
{
    lemma_regions_prefix(b, i + 1, pool_count(b));
    let upto = regions_upto(b, i + 1);
    assert(upto == regions_upto(b, i) + object_regions(b, i));
    assert(document_regions(b).subrange(0, upto.len() as int) == upto);
    assert(upto[object_base(b, i) + q] == object_regions(b, i)[q]);
}

pub(crate) proof fn lemma_header_region_at(b: Seq<u8>, q: int)
    requires
        0 <= q < 4,
    ensures
        q < document_regions(b).len(),
        document_regions(b)[q] == header_regions(b)[q],
{
    lemma_regions_prefix(b, 0, pool_count(b));
    assert(document_regions(b).subrange(0, 4) == header_regions(b));
}

/// Two different ranges of a well-formed document, one of them a table, are
/// disjoint.
proof fn lemma_table_apart(b: Seq<u8>, r: int, t: int, p: int)
    requires
        well_formed_document(b),
        0 <= r < document_regions(b).len(),
        0 <= t < document_regions(b).len(),
        r != t,
        document_regions(b)[t].kind == RegionKind::Table,
        document_regions(b)[r].start <= p < document_regions(b)[r].end,
    ensures
        !(document_regions(b)[t].start <= p < document_regions(b)[t].end),
{
    let rs = document_regions(b);
    if r < t {
        assert(compatible(rs[r], rs[t]));
    } else {
        assert(compatible(rs[t], rs[r]));
    }
}

/// The source field of object `i` lies inside its table, past its vtable
/// offset.
pub(crate) proof fn lemma_field_in_table(b: Seq<u8>, i: int)
    requires
        well_formed_document(b),
        0 <= i < pool_count(b),
        source_of_object(b, i) is Some,
    ensures
        ({
            let o = object_table(b, i);
            let f = source_of_object(b, i).unwrap().field;
            &&& o + 4 <= f
            &&& f + 4 <= o + object_length_of(b, o)
        }),
{
    assert(object_ok(b, i));
    let o = object_table(b, i);
    let vt = vtable_of(b, o);
    assert(entries_in_table(b, vt, vtable_length_of(b, o), object_length_of(b, o)));
    assert(entry_at(b, vt, 24) == entry_at(b, vt, 4 + 2 * 10int));
}

/// Every listed source is the source of its own object.
proof fn lemma_sources_are_objects(b: Seq<u8>, n: int, m: int)
    requires
        0 <= m < sources_upto(b, n).len(),
    ensures
        0 <= sources_upto(b, n)[m].index < n,
        source_of_object(b, sources_upto(b, n)[m].index) == Some(sources_upto(b, n)[m]),
    decreases n,
{
    if n > 0 {
        let prev = sources_upto(b, n - 1);
        if m < prev.len() {
            lemma_sources_are_objects(b, n - 1, m);
            assert(sources_upto(b, n)[m] == prev[m]);
        } else {
            assert(source_of_object(b, n - 1) is Some);
        }
    }
}

/// The view of the document held in `b`.
pub open spec fn view_of(b: Seq<u8>) -> DocumentView {
    DocumentView { bytes: b, id: fingerprint_of(b), sources: document_sources(b) }
}

proof fn lemma_changes_step(v: DocumentView, reps: Seq<(NodeHandleView, Seq<u8>)>, n: int)
    requires
        0 < n,
    ensures
        changes_upto(v, reps, n) == changes_upto(v, reps, n - 1)
            || changes_upto(v, reps, n) == changes_upto(v, reps, n - 1).push(
            SpecChange { field: v.sources[n - 1].field, text: changes_upto(v, reps, n).last().text },
        ),
{
}

/// Change `k` comes from a source `m` with exactly `k` changes before it.
proof fn lemma_change_origin(v: DocumentView, reps: Seq<(NodeHandleView, Seq<u8>)>, n: int, k: int)
    requires
        0 <= k < changes_upto(v, reps, n).len(),
    ensures
        exists|m: int|
            0 <= m < n && changes_upto(v, reps, m).len() == k && changes_upto(v, reps, m + 1).len() == k + 1
                && #[trigger] v.sources[m].field == changes_upto(v, reps, n)[k].field,
    decreases n,
{
    if n > 0 {
        let prev = changes_upto(v, reps, n - 1);
        lemma_changes_step(v, reps, n);
        if k < prev.len() {
            lemma_change_origin(v, reps, n - 1, k);
            let m = choose|m: int|
                0 <= m < n - 1 && changes_upto(v, reps, m).len() == k && changes_upto(v, reps, m + 1).len()
                    == k + 1 && #[trigger] v.sources[m].field == prev[k].field;
            assert(changes_upto(v, reps, n)[k] == prev[k]);
            assert(v.sources[m].field == changes_upto(v, reps, n)[k].field);
        } else {
            assert(changes_upto(v, reps, n) != prev);
            assert(v.sources[n - 1].field == changes_upto(v, reps, n)[k].field);
        }
    }
}

pub(crate) proof fn lemma_changes_prefix(v: DocumentView, reps: Seq<(NodeHandleView, Seq<u8>)>, m: int, n: int)
    requires
        0 <= m <= n,
    ensures
        changes_upto(v, reps, m).len() <= changes_upto(v, reps, n).len(),
        changes_upto(v, reps, n).subrange(0, changes_upto(v, reps, m).len() as int) == changes_upto(
            v,
            reps,
            m,
        ),
    decreases n - m,
{
    if m < n {
        lemma_changes_prefix(v, reps, m, n - 1);
        lemma_changes_step(v, reps, n);
        assert(changes_upto(v, reps, n).subrange(0, changes_upto(v, reps, m).len() as int)
            =~= changes_upto(v, reps, n - 1).subrange(0, changes_upto(v, reps, m).len() as int));
    } else {
        assert(changes_upto(v, reps, n).subrange(0, changes_upto(v, reps, m).len() as int)
            =~= changes_upto(v, reps, n));
    }
}

pub(crate) proof fn lemma_source_indices_increase(b: Seq<u8>, n: int)
    ensures
        forall|m1: int, m2: int|
            0 <= m1 < m2 < sources_upto(b, n).len() ==> #[trigger] sources_upto(b, n)[m1].index
                < #[trigger] sources_upto(b, n)[m2].index,
    decreases n,
{
    if n > 0 {
        lemma_source_indices_increase(b, n - 1);
        let prev = sources_upto(b, n - 1);
        assert forall|m1: int, m2: int|
            0 <= m1 < m2 < sources_upto(b, n).len() implies #[trigger] sources_upto(b, n)[m1].index
            < #[trigger] sources_upto(b, n)[m2].index by {
            assert(sources_upto(b, n)[m1] == prev[m1]);
            if m2 < prev.len() {
                assert(sources_upto(b, n)[m2] == prev[m2]);
            } else {
                lemma_sources_are_objects(b, n - 1, m1);
                assert(source_of_object(b, n - 1) is Some);
            }
        }
    }
}

/// Source `m` has an effective replacement.
pub open spec fn has_change(v: DocumentView, reps: Seq<(NodeHandleView, Seq<u8>)>, m: int) -> bool {
    changes_upto(v, reps, m + 1).len() == changes_upto(v, reps, m).len() + 1
}

/// Source `m` of a well-formed document is object `index`'s source, and its
/// field lies inside that object's table.
pub(crate) proof fn lemma_source_position(b: Seq<u8>, m: int)
    requires
        well_formed_document(b),
        0 <= m < document_sources(b).len(),
    ensures
        0 <= document_sources(b)[m].index < pool_count(b),
        source_of_object(b, document_sources(b)[m].index) == Some(document_sources(b)[m]),
{
    lemma_sources_are_objects(b, pool_count(b), m);
}

/// A byte of a reached range is not in a changed field word, unless the
/// range is the table of an object whose source changed and the byte lies
/// in that source's field word.
proof fn lemma_untouched(b: Seq<u8>, reps: Seq<(NodeHandleView, Seq<u8>)>, r: int, p: int)
    requires
        well_formed_document(b),
        0 <= r < document_regions(b).len(),
        document_regions(b)[r].start <= p < document_regions(b)[r].end,
        forall|m: int|
            0 <= m < document_sources(b).len() && r == object_base(b, #[trigger] document_sources(b)[m].index)
                && has_change(view_of(b), reps, m) ==> !in_word(document_sources(b)[m].field, p),
    ensures
        !touched(document_changes(view_of(b), reps), p),
{
    let v = view_of(b);
    let cs = document_changes(v, reps);
    if touched(cs, p) {
        let k = choose|k: int| 0 <= k < cs.len() && in_word(#[trigger] cs[k].field, p);
        lemma_change_origin(v, reps, v.sources.len() as int, k);
        let m = choose|m: int|
            0 <= m < v.sources.len() && changes_upto(v, reps, m).len() == k && changes_upto(v, reps, m + 1).len()
                == k + 1 && #[trigger] v.sources[m].field == cs[k].field;
        let s = v.sources[m];
        lemma_source_position(b, m);
        let o = s.index;
        lemma_field_in_table(b, o);
        lemma_object_region_at(b, o, 0);
        lemma_object_regions_len(b, o);
        let t = object_base(b, o);
        assert(document_regions(b)[t] == table_regions(b, object_table(b, o))[0]);
        if r != t {
            lemma_table_apart(b, r, t, p);
        } else {
            assert(has_change(v, reps, m));
        }
    }
}

/// How many sources come before object `i`.
pub open spec fn source_number(b: Seq<u8>, i: int) -> int {
    sources_upto(b, i).len() as int
}

/// Source `m` of the first `n` objects is numbered by the sources before
/// its object.
pub(crate) proof fn lemma_source_number(b: Seq<u8>, n: int, m: int)
    requires
        0 <= m < sources_upto(b, n).len(),
    ensures
        source_number(b, sources_upto(b, n)[m].index) == m,
    decreases n,
{
    if n > 0 {
        let prev = sources_upto(b, n - 1);
        if m < prev.len() {
            lemma_source_number(b, n - 1, m);
            assert(sources_upto(b, n)[m] == prev[m]);
        } else {
            assert(source_of_object(b, n - 1) is Some);
        }
    }
}

/// Change `k` of a batch rewrites the source field of an object whose
/// source is numbered so that `k` changes come before it.
proof fn lemma_change_object(b: Seq<u8>, reps: Seq<(NodeHandleView, Seq<u8>)>, k: int) -> (i: int)
    requires
        well_formed_document(b),
        0 <= k < document_changes(view_of(b), reps).len(),
    ensures
        0 <= i < pool_count(b),
        source_of_object(b, i) is Some,
        source_of_object(b, i).unwrap().field == document_changes(view_of(b), reps)[k].field,
        changes_upto(view_of(b), reps, source_number(b, i)).len() == k,
        object_table(b, i) + 4 <= source_of_object(b, i).unwrap().field,
        source_of_object(b, i).unwrap().field + 4 <= object_table(b, i) + object_length_of(b, object_table(b, i)),
        object_table(b, i) + object_length_of(b, object_table(b, i)) <= b.len(),
{
    let v = view_of(b);
    let n = v.sources.len() as int;
    let cs = document_changes(v, reps);
    lemma_change_origin(v, reps, n, k);
    let m = choose|m: int|
        0 <= m < n && changes_upto(v, reps, m).len() == k && changes_upto(v, reps, m + 1).len() == k + 1
            && #[trigger] v.sources[m].field == cs[k].field;
    lemma_source_position(b, m);
    lemma_source_number(b, pool_count(b), m);
    let i = v.sources[m].index;
    lemma_field_in_table(b, i);
    assert(object_ok(b, i));
    i
}

/// The changes of a batch on a well-formed document rewrite field words
/// inside the document, and no two of them share a byte.
pub(crate) proof fn lemma_changes_placed(b: Seq<u8>, reps: Seq<(NodeHandleView, Seq<u8>)>)
    requires
        well_formed_document(b),
    ensures
        fields_inside(b, document_changes(view_of(b), reps)),
        fields_apart(document_changes(view_of(b), reps)),
{
    let cs = document_changes(view_of(b), reps);
    assert forall|k: int| 0 <= k < cs.len() implies 0 <= #[trigger] cs[k].field && cs[k].field + 4 <= b.len() by {
        let i = lemma_change_object(b, reps, k);
    }
    assert forall|k: int, l: int|
        0 <= k < cs.len() && 0 <= l < cs.len() && k != l implies #[trigger] cs[k].field + 4 <= #[trigger] cs[l].field
        || cs[l].field + 4 <= cs[k].field by {
        let ik = lemma_change_object(b, reps, k);
        let il = lemma_change_object(b, reps, l);
        lemma_tables_apart(b, ik, il);
    }
}

/// The tables of two different objects of a well-formed document do not
/// overlap.
proof fn lemma_tables_apart(b: Seq<u8>, i: int, j: int)
    requires
        well_formed_document(b),
        0 <= i < pool_count(b),
        0 <= j < pool_count(b),
        i != j,
    ensures
        object_table(b, i) + object_length_of(b, object_table(b, i)) <= object_table(b, j)
            || object_table(b, j) + object_length_of(b, object_table(b, j)) <= object_table(b, i),
{
    if i < j {
        assert(object_table(b, i) != object_table(b, j));
    } else {
        assert(object_table(b, j) != object_table(b, i));
    }
    lemma_object_region_at(b, i, 0);
    lemma_object_region_at(b, j, 0);
    lemma_object_regions_len(b, i);
    lemma_object_regions_len(b, j);
    lemma_bases_apart(b, i, j);
    let rs = document_regions(b);
    let ti = object_base(b, i);
    let tj = object_base(b, j);
    if ti < tj {
        assert(compatible(rs[ti], rs[tj]));
    } else {
        assert(compatible(rs[tj], rs[ti]));
    }
}

/// The ranges of two different objects start at different places, and no
/// object's table is a header range or another object's vtable or string.
pub(crate) proof fn lemma_bases_apart(b: Seq<u8>, i: int, j: int)
    requires
        0 <= i,
        0 <= j,
        i != j,
    ensures
        4 <= object_base(b, j),
        object_base(b, j) != object_base(b, i),
        object_base(b, j) != object_base(b, i) + 1,
        object_regions(b, i).len() == 3 ==> object_base(b, j) != object_base(b, i) + 2,
{
    lemma_regions_base(b, j);
    lemma_object_regions_len(b, i);
    lemma_object_regions_len(b, j);
    if i < j {
        lemma_regions_grow(b, i, j);
    } else {
        lemma_regions_grow(b, j, i);
    }
}

/// The bytes of `b` after the changes that `reps` asks for.
pub open spec fn rewritten(b: Seq<u8>, reps: Seq<(NodeHandleView, Seq<u8>)>) -> Seq<u8> {
    apply_changes(b, document_changes(view_of(b), reps))
}

/// No object whose source changes has its field word at the bytes `p` to
/// `p + w` of range `r`, unless `r` is not that object's table.
pub open spec fn clear_of_changes(b: Seq<u8>, reps: Seq<(NodeHandleView, Seq<u8>)>, r: int, p: int, w: int) -> bool {
    forall|i: int|
        0 <= i < pool_count(b) && r == object_base(b, i) && source_of_object(b, i) is Some
            && #[trigger] has_change(view_of(b), reps, source_number(b, i)) ==> source_of_object(
            b,
            i,
        ).unwrap().field + 4 <= p || p + w <= source_of_object(b, i).unwrap().field
}

/// The `w` bytes at `p`, inside reached range `r` and clear of the changed
/// field words, are kept by the rewrite.
pub(crate) proof fn lemma_bytes_kept(b: Seq<u8>, reps: Seq<(NodeHandleView, Seq<u8>)>, r: int, p: int, w: int)
    requires
        well_formed_document(b),
        0 <= r < document_regions(b).len(),
        document_regions(b)[r].start <= p,
        p + w <= document_regions(b)[r].end,
        0 <= p,
        p + w <= b.len(),
        clear_of_changes(b, reps, r, p, w),
    ensures
        b.len() <= rewritten(b, reps).len(),
        forall|q: int| p <= q < p + w ==> #[trigger] rewritten(b, reps)[q] == b[q],
{
    let v = view_of(b);
    let cs = document_changes(v, reps);
    lemma_changes_placed(b, reps);
    lemma_rewrite_preserves_untouched_bytes(b, cs);
    assert forall|q: int| p <= q < p + w implies #[trigger] rewritten(b, reps)[q] == b[q] by {
        assert forall|m: int|
            0 <= m < v.sources.len() && r == object_base(b, #[trigger] v.sources[m].index) && has_change(
                v,
                reps,
                m,
            ) implies !in_word(v.sources[m].field, q) by {
            lemma_source_position(b, m);
            lemma_source_number(b, pool_count(b), m);
            let i = v.sources[m].index;
            assert(has_change(v, reps, source_number(b, i)));
        }
        lemma_untouched(b, reps, r, q);
    }
}

pub(crate) proof fn lemma_u32_kept(b: Seq<u8>, reps: Seq<(NodeHandleView, Seq<u8>)>, r: int, p: int)
    requires
        well_formed_document(b),
        0 <= r < document_regions(b).len(),
        document_regions(b)[r].start <= p,
        p + 4 <= document_regions(b)[r].end,
        0 <= p,
        p + 4 <= b.len(),
        clear_of_changes(b, reps, r, p, 4),
    ensures
        b.len() <= rewritten(b, reps).len(),
        u32_at(rewritten(b, reps), p) == u32_at(b, p),
        i32_at(rewritten(b, reps), p) == i32_at(b, p),
{
    lemma_bytes_kept(b, reps, r, p, 4);
    let out = rewritten(b, reps);
    assert(out[p] == b[p] && out[p + 1] == b[p + 1] && out[p + 2] == b[p + 2] && out[p + 3] == b[p + 3]);
}

pub(crate) proof fn lemma_u16_kept(b: Seq<u8>, reps: Seq<(NodeHandleView, Seq<u8>)>, r: int, p: int)
    requires
        well_formed_document(b),
        0 <= r < document_regions(b).len(),
        document_regions(b)[r].start <= p,
        p + 2 <= document_regions(b)[r].end,
        0 <= p,
        p + 2 <= b.len(),
        clear_of_changes(b, reps, r, p, 2),
    ensures
        u16_at(rewritten(b, reps), p) == u16_at(b, p),
{
    lemma_bytes_kept(b, reps, r, p, 2);
    let out = rewritten(b, reps);
    assert(out[p] == b[p] && out[p + 1] == b[p + 1]);
}

/// Ranges that are no object's table are clear of every change.
pub(crate) proof fn lemma_not_a_table(b: Seq<u8>, reps: Seq<(NodeHandleView, Seq<u8>)>, r: int, p: int, w: int)
    requires
        forall|i: int| 0 <= i < pool_count(b) ==> r != #[trigger] object_base(b, i),
    ensures
        clear_of_changes(b, reps, r, p, w),
{
}

/// The header, the root table and the patch-object vector read the same
/// after a rewrite.
pub(crate) proof fn lemma_header_kept(b: Seq<u8>, reps: Seq<(NodeHandleView, Seq<u8>)>)
    requires
        well_formed_document(b),
    ensures
        b.len() <= rewritten(b, reps).len(),
        root_table(rewritten(b, reps)) == root_table(b),
        pool_vector(rewritten(b, reps)) == pool_vector(b),
        pool_count(rewritten(b, reps)) == pool_count(b),
        forall|i: int| 0 <= i < pool_count(b) ==> #[trigger] object_table(rewritten(b, reps), i) == object_table(b, i),
{
    let out = rewritten(b, reps);
    assert forall|i: int| 0 <= i < pool_count(b) implies 4 <= #[trigger] object_base(b, i) by {
        lemma_regions_base(b, i);
    }
    lemma_header_region_at(b, 0);
    lemma_header_region_at(b, 1);
    lemma_header_region_at(b, 2);
    lemma_header_region_at(b, 3);
    lemma_not_a_table(b, reps, 0, 0, 4);
    lemma_u32_kept(b, reps, 0, 0);
    let root = root_table(b);
    lemma_not_a_table(b, reps, 1, root, 4);
    lemma_u32_kept(b, reps, 1, root);
    let vt = vtable_of(b, root);
    lemma_not_a_table(b, reps, 2, vt, 2);
    lemma_u16_kept(b, reps, 2, vt);
    lemma_not_a_table(b, reps, 2, vt + 4, 2);
    lemma_u16_kept(b, reps, 2, vt + 4);
    let f = spec_field(b, root, 0).unwrap();
    lemma_not_a_table(b, reps, 1, f, 4);
    lemma_u32_kept(b, reps, 1, f);
    assert(spec_field(out, root, 0) == spec_field(b, root, 0));
    let pv = pool_vector(b);
    lemma_not_a_table(b, reps, 3, pv, 4);
    lemma_u32_kept(b, reps, 3, pv);
    assert forall|i: int| 0 <= i < pool_count(b) implies #[trigger] object_table(out, i) == object_table(b, i) by {
        lemma_not_a_table(b, reps, 3, pv + 4 + 4 * i, 4);
        lemma_u32_kept(b, reps, 3, pv + 4 + 4 * i);
    }
}

/// Object `i`'s source is listed at its number among the sources of the
/// first `n` objects.
pub(crate) proof fn lemma_source_at(b: Seq<u8>, i: int, n: int)
    requires
        0 <= i < n,
        source_of_object(b, i) is Some,
    ensures
        source_number(b, i) < sources_upto(b, n).len(),
        sources_upto(b, n)[source_number(b, i)] == source_of_object(b, i).unwrap(),
    decreases n,
{
    if n > i + 1 {
        lemma_source_at(b, i, n - 1);
        assert(sources_upto(b, n)[source_number(b, i)] == sources_upto(b, n - 1)[source_number(b, i)]);
    }
}

/// A word inside object `i`'s table, apart from its source field word when
/// that source changes, is clear of every change.
pub(crate) proof fn lemma_clear_in_table(b: Seq<u8>, reps: Seq<(NodeHandleView, Seq<u8>)>, i: int, p: int, w: int)
    requires
        0 <= i < pool_count(b),
        source_of_object(b, i) is Some && has_change(view_of(b), reps, source_number(b, i)) ==> source_of_object(
            b,
            i,
        ).unwrap().field + 4 <= p || p + w <= source_of_object(b, i).unwrap().field,
    ensures
        clear_of_changes(b, reps, object_base(b, i), p, w),
{
    assert forall|j: int|
        0 <= j < pool_count(b) && object_base(b, i) == object_base(b, j) && source_of_object(b, j) is Some
            && #[trigger] has_change(view_of(b), reps, source_number(b, j)) implies source_of_object(
        b,
        j,
    ).unwrap().field + 4 <= p || p + w <= source_of_object(b, j).unwrap().field by {
        if j != i {
            lemma_bases_apart(b, i, j);
        }
    }
}

/// The vtable and string ranges of object `i` are clear of every change.
pub(crate) proof fn lemma_clear_beside_table(b: Seq<u8>, reps: Seq<(NodeHandleView, Seq<u8>)>, i: int, q: int, p: int, w: int)
    requires
        0 <= i < pool_count(b),
        q == 1 || (q == 2 && object_regions(b, i).len() == 3),
    ensures
        clear_of_changes(b, reps, object_base(b, i) + q, p, w),
{
    assert forall|j: int| 0 <= j < pool_count(b) implies object_base(b, i) + q != #[trigger] object_base(b, j) by {
        if j != i {
            lemma_bases_apart(b, i, j);
        }
    }
}

/// The type field word and the source field word of a source object do not
/// overlap.
proof fn lemma_type_word_apart(b: Seq<u8>, i: int)
    requires
        well_formed_document(b),
        0 <= i < pool_count(b),
        source_of_object(b, i) is Some,
        spec_field(b, object_table(b, i), 0) is Some,
    ensures
        spec_field(b, object_table(b, i), 0).unwrap() + 4 <= source_of_object(b, i).unwrap().field
            || source_of_object(b, i).unwrap().field + 4 <= spec_field(b, object_table(b, i), 0).unwrap(),
{
    let o = object_table(b, i);
    let vt = vtable_of(b, o);
    assert(object_ok(b, i));
    let e0 = entry_at(b, vt, 4);
    let e10 = entry_at(b, vt, 24);
    assert(entry_at(b, vt, 4 + 2 * 0int) == e0);
    assert(entry_at(b, vt, 4 + 2 * 10int) == e10);
    assert(!(e10 <= entry_at(b, vt, 4) < e10 + 4));
    assert(!(e0 <= entry_at(b, vt, 24) < e0 + 4));
}

/// Object `i` keeps its table, type, and source field location.
#[verifier::spinoff_prover]
#[verifier::rlimit(40)]
pub(crate) proof fn lemma_object_shape_kept(b: Seq<u8>, reps: Seq<(NodeHandleView, Seq<u8>)>, i: int)
    requires
        well_formed_document(b),
        0 <= i < pool_count(b),
    ensures
        object_table(rewritten(b, reps), i) == object_table(b, i),
        type_id_of(rewritten(b, reps), object_table(b, i)) == type_id_of(b, object_table(b, i)),
        kind_of_type(type_id_of(b, object_table(b, i))) is Some ==> spec_field(
            rewritten(b, reps),
            object_table(b, i),
            10,
        ) == spec_field(b, object_table(b, i), 10),
{
    let out = rewritten(b, reps);
    lemma_header_kept(b, reps);
    assert(object_ok(b, i));
    let o = object_table(b, i);
    let vt = vtable_of(b, o);
    let base = object_base(b, i);
    lemma_object_region_at(b, i, 0);
    lemma_object_region_at(b, i, 1);
    lemma_object_regions_len(b, i);
    let src = source_of_object(b, i);
    if src is Some {
        lemma_field_in_table(b, i);
    }
    lemma_clear_in_table(b, reps, i, o, 4);
    lemma_u32_kept(b, reps, base, o);
    lemma_clear_beside_table(b, reps, i, 1, vt, 2);
    lemma_u16_kept(b, reps, base + 1, vt);
    if 6 <= u16_at(b, vt) {
        lemma_clear_beside_table(b, reps, i, 1, vt + 4, 2);
        lemma_u16_kept(b, reps, base + 1, vt + 4);
    }
    assert(spec_field(out, o, 0) == spec_field(b, o, 0));
    if spec_field(b, o, 0) is Some {
        let l = spec_field(b, o, 0).unwrap();
        if src is Some {
            lemma_type_word_apart(b, i);
        }
        lemma_clear_in_table(b, reps, i, l, 4);
        lemma_u32_kept(b, reps, base, l);
    }
    if kind_of_type(type_id_of(b, o)) is Some && 26 <= u16_at(b, vt) {
        lemma_clear_beside_table(b, reps, i, 1, vt + 24, 2);
        lemma_u16_kept(b, reps, base + 1, vt + 24);
    }
}

/// The text that source `m` holds after a rewrite: the text its pair asks
/// for, or its own when no pair names it.
pub open spec fn replaced_text(v: DocumentView, reps: Seq<(NodeHandleView, Seq<u8>)>, m: int) -> Seq<u8> {
    match pair_for(reps, source_handle(v, m), reps.len() as int) {
        Some(j) => reps[j].1,
        None => v.sources[m].source,
    }
}

/// Source `s`, numbered `m`, with the text a rewrite gives it.
pub open spec fn replaced_source(v: DocumentView, reps: Seq<(NodeHandleView, Seq<u8>)>, s: SpecSource, m: int) -> SpecSource {
    SpecSource { index: s.index, kind: s.kind, field: s.field, source: replaced_text(v, reps, m) }
}

/// The rewrite of `b` by `reps` stays within the size limit.
pub open spec fn rewrite_fits(b: Seq<u8>, reps: Seq<(NodeHandleView, Seq<u8>)>) -> bool {
    size_fits(b.len() as int, change_lengths(document_changes(view_of(b), reps)))
}

/// A source that no pair changes keeps its string.
#[verifier::spinoff_prover]
#[verifier::rlimit(40)]
pub(crate) proof fn lemma_source_text_kept(b: Seq<u8>, reps: Seq<(NodeHandleView, Seq<u8>)>, i: int)
    requires
        well_formed_document(b),
        0 <= i < pool_count(b),
        source_of_object(b, i) is Some,
        !has_change(view_of(b), reps, source_number(b, i)),
    ensures
        ({
            let out = rewritten(b, reps);
            let s = source_of_object(b, i).unwrap();
            let st = uoffset_target(out, s.field);
            let len = u32_at(out, st);
            &&& st == uoffset_target(b, s.field)
            &&& len == u32_at(b, st)
            &&& out.subrange(st + 4, st + 4 + len) == s.source
            &&& replaced_text(view_of(b), reps, source_number(b, i)) == s.source
        }),
{
    let v = view_of(b);
    let out = rewritten(b, reps);
    let s = source_of_object(b, i).unwrap();
    let f = s.field;
    let m = source_number(b, i);
    assert(object_ok(b, i));
    lemma_source_at(b, i, pool_count(b));
    assert(v.sources[m] == s);
    assert(replaced_text(v, reps, m) == s.source);
    lemma_field_in_table(b, i);
    lemma_object_regions_len(b, i);
    let base = object_base(b, i);
    lemma_object_region_at(b, i, 0);
    lemma_clear_in_table(b, reps, i, f, 4);
    lemma_u32_kept(b, reps, base, f);
    let st = uoffset_target(b, f);
    let len = u32_at(b, st);
    assert(string_ok(b, f));
    lemma_object_region_at(b, i, 2);
    lemma_clear_beside_table(b, reps, i, 2, st, 4);
    lemma_u32_kept(b, reps, base + 2, st);
    lemma_clear_beside_table(b, reps, i, 2, st + 4, len);
    lemma_bytes_kept(b, reps, base + 2, st + 4, len);
    assert(out.subrange(st + 4, st + 4 + len) =~= b.subrange(st + 4, st + 4 + len));
}

/// Reading change `k` back: its field word points at a string of the
/// change's length holding the change's text.
#[verifier::rlimit(60)]
pub proof fn lemma_change_reads_back(b: Seq<u8>, cs: Seq<SpecChange>, k: int)
    requires
        fields_inside(b, cs),
        fields_apart(cs),
        0 <= k < cs.len(),
        apply_changes(b, cs).len() <= 0x8000_0000,
    ensures
        uoffset_target(apply_changes(b, cs), cs[k].field) == string_at(b, cs, k),
        u32_at(apply_changes(b, cs), string_at(b, cs, k)) == cs[k].text.len(),
        apply_changes(b, cs).subrange(string_at(b, cs, k) + 4, string_at(b, cs, k) + 4 + cs[k].text.len())
            =~= cs[k].text,
{
    let out = apply_changes(b, cs);
    let c = cs[k];
    let at = string_at(b, cs, k);
    assert(u32_at(out, c.field) == at - c.field) by {
        lemma_rewrite_writes_change(b, cs, k);
        lemma_u32_reads_le32(out, c.field, at - c.field);
    }
    assert(u32_at(out, at) == c.text.len()) by {
        lemma_rewrite_writes_change(b, cs, k);
        lemma_u32_reads_le32(out, at, c.text.len() as int);
    }
    assert(out.subrange(at + 4, at + 4 + c.text.len()) =~= c.text) by {
        lemma_rewrite_writes_change(b, cs, k);
        assert forall|q: int| 0 <= q < c.text.len() implies #[trigger] out.subrange(at + 4, at + 4 + c.text.len())[q]
            == c.text[q] by {
            assert(out[at + 4 + q] == c.text[q]);
        }
    }
}

/// The change that a changed source makes.
pub(crate) proof fn lemma_change_of_source(b: Seq<u8>, reps: Seq<(NodeHandleView, Seq<u8>)>, i: int) -> (k: int)
    requires
        well_formed_document(b),
        0 <= i < pool_count(b),
        source_of_object(b, i) is Some,
        has_change(view_of(b), reps, source_number(b, i)),
    ensures
        0 <= k < document_changes(view_of(b), reps).len(),
        k == changes_upto(view_of(b), reps, source_number(b, i)).len(),
        document_changes(view_of(b), reps)[k] == (SpecChange {
            field: source_of_object(b, i).unwrap().field,
            text: replaced_text(view_of(b), reps, source_number(b, i)),
        }),
{
    let v = view_of(b);
    let s = source_of_object(b, i).unwrap();
    let m = source_number(b, i);
    let n = v.sources.len() as int;
    lemma_source_at(b, i, pool_count(b));
    assert(v.sources[m] == s);
    let cs = document_changes(v, reps);
    let k = changes_upto(v, reps, m).len() as int;
    lemma_changes_prefix(v, reps, m + 1, n);
    let j = pair_for(reps, source_handle(v, m), reps.len() as int).unwrap();
    assert(changes_upto(v, reps, m + 1) == changes_upto(v, reps, m).push(
        SpecChange { field: s.field, text: reps[j].1 },
    ));
    assert(cs[k] == changes_upto(v, reps, m + 1)[k]);
    k
}

/// A source that a pair changes points at a new string holding the
/// requested text.
proof fn lemma_source_text_changed(b: Seq<u8>, reps: Seq<(NodeHandleView, Seq<u8>)>, i: int)
    requires
        well_formed_document(b),
        rewrite_fits(b, reps),
        0 <= i < pool_count(b),
        source_of_object(b, i) is Some,
        has_change(view_of(b), reps, source_number(b, i)),
    ensures
        ({
            let out = rewritten(b, reps);
            let s = source_of_object(b, i).unwrap();
            let st = uoffset_target(out, s.field);
            let len = u32_at(out, st);
            out.subrange(st + 4, st + 4 + len) == replaced_text(view_of(b), reps, source_number(b, i))
        }),
{
    let cs = document_changes(view_of(b), reps);
    let k = lemma_change_of_source(b, reps, i);
    lemma_changes_placed(b, reps);
    crate::adls::lemma_apply_changes_len(b, cs);
    lemma_change_reads_back(b, cs, k);
}

/// Object `i` of the rewritten document has the source it had, with the
/// replaced text.
pub(crate) proof fn lemma_object_source_kept(b: Seq<u8>, reps: Seq<(NodeHandleView, Seq<u8>)>, i: int)
    requires
        well_formed_document(b),
        rewrite_fits(b, reps),
        0 <= i < pool_count(b),
    ensures
        source_of_object(rewritten(b, reps), i) == match source_of_object(b, i) {
            None => None,
            Some(s) => Some(replaced_source(view_of(b), reps, s, source_number(b, i))),
        },
{
    lemma_object_shape_kept(b, reps, i);
    if source_of_object(b, i) is Some {
        if has_change(view_of(b), reps, source_number(b, i)) {
            lemma_source_text_changed(b, reps, i);
        } else {
            lemma_source_text_kept(b, reps, i);
        }
    }
}

/// The sources of the first `n` objects read back with their replaced
/// texts.
proof fn lemma_sources_read_back(b: Seq<u8>, reps: Seq<(NodeHandleView, Seq<u8>)>, n: int)
    requires
        well_formed_document(b),
        rewrite_fits(b, reps),
        0 <= n <= pool_count(b),
    ensures
        sources_upto(rewritten(b, reps), n).len() == sources_upto(b, n).len(),
        forall|m: int|
            0 <= m < sources_upto(b, n).len() ==> #[trigger] sources_upto(rewritten(b, reps), n)[m]
                == replaced_source(view_of(b), reps, sources_upto(b, n)[m], m),
    decreases n,
{
    if n > 0 {
        let out = rewritten(b, reps);
        lemma_sources_read_back(b, reps, n - 1);
        lemma_object_source_kept(b, reps, n - 1);
        let prev_b = sources_upto(b, n - 1);
        let prev_out = sources_upto(out, n - 1);
        assert forall|m: int| 0 <= m < sources_upto(b, n).len() implies #[trigger] sources_upto(out, n)[m]
            == replaced_source(view_of(b), reps, sources_upto(b, n)[m], m) by {
            if m < prev_b.len() {
                assert(sources_upto(out, n)[m] == prev_out[m]);
                assert(sources_upto(b, n)[m] == prev_b[m]);
            }
        }
    }
}

/// Reading a rewrite back: the rewritten document has the same source
/// fields, in the same objects and at the same places, and each holds the
/// text its pair asks for, or its old text where no pair names it.
pub proof fn lemma_rewrite_reads_back(b: Seq<u8>, reps: Seq<(NodeHandleView, Seq<u8>)>, out: Seq<u8>)
    requires
        well_formed_document(b),
        spec_document_rewrite(view_of(b), reps) == SpecRewrite::Rewritten(out),
    ensures
        pool_count(out) == pool_count(b),
        document_sources(out).len() == document_sources(b).len(),
        forall|m: int|
            0 <= m < document_sources(b).len() ==> #[trigger] document_sources(out)[m] == replaced_source(
                view_of(b),
                reps,
                document_sources(b)[m],
                m,
            ),
{
    assert(out == rewritten(b, reps));
    assert(rewrite_fits(b, reps));
    lemma_header_kept(b, reps);
    lemma_sources_read_back(b, reps, pool_count(b));
}

/// The pair that names a handle is one of the batch's pairs.
pub proof fn lemma_pair_for_in_range(reps: Seq<(NodeHandleView, Seq<u8>)>, h: NodeHandleView, n: int)
    requires
        n <= reps.len(),
    ensures
        pair_for(reps, h, n) matches Some(j) ==> 0 <= j < n && reps[j].0 == h,
    decreases n,
{
    if n > 0 {
        lemma_pair_for_in_range(reps, h, n - 1);
    }
}

/// Two sources of a well-formed document with the same handle are the same
/// source.
proof fn lemma_source_handles_distinct(b: Seq<u8>, m1: int, m2: int)
    requires
        well_formed_document(b),
        0 <= m1 < document_sources(b).len(),
        0 <= m2 < document_sources(b).len(),
        source_handle(view_of(b), m1) == source_handle(view_of(b), m2),
    ensures
        m1 == m2,
{
    lemma_source_position(b, m1);
    lemma_source_position(b, m2);
    lemma_source_indices_increase(b, pool_count(b));
    let s = document_sources(b);
    assert(s[m1].index as u32 == s[m2].index as u32);
    assert(s[m1].index == s[m2].index);
}

/// Pair `j` names a source of the document and asks for the text it holds.
pub open spec fn asks_current_text(b: Seq<u8>, reps: Seq<(NodeHandleView, Seq<u8>)>, j: int) -> bool {
    exists|m: int|
        0 <= m < document_sources(b).len() && reps[j].0 == #[trigger] source_handle(view_of(b), m)
            && reps[j].1 == document_sources(b)[m].source
}

/// Asking sources for the texts they already hold changes nothing: an
/// accepted batch whose every pair names a source of the document with its
/// current text leaves the document as it is.
pub proof fn lemma_same_text_batch_unchanged(b: Seq<u8>, reps: Seq<(NodeHandleView, Seq<u8>)>)
    requires
        well_formed_document(b),
        refused_pair(view_of(b), reps, reps.len() as int) is None,
        forall|j: int| 0 <= j < reps.len() ==> #[trigger] asks_current_text(b, reps, j),
    ensures
        spec_document_rewrite(view_of(b), reps) == SpecRewrite::Unchanged,
{
    let v = view_of(b);
    lemma_no_changes(b, reps, v.sources.len() as int);
}

proof fn lemma_no_changes(b: Seq<u8>, reps: Seq<(NodeHandleView, Seq<u8>)>, n: int)
    requires
        well_formed_document(b),
        0 <= n <= document_sources(b).len(),
        forall|j: int| 0 <= j < reps.len() ==> #[trigger] asks_current_text(b, reps, j),
    ensures
        changes_upto(view_of(b), reps, n).len() == 0,
    decreases n,
{
    if n > 0 {
        let v = view_of(b);
        lemma_no_changes(b, reps, n - 1);
        let h = source_handle(v, n - 1);
        lemma_pair_for_in_range(reps, h, reps.len() as int);
        if pair_for(reps, h, reps.len() as int) is Some {
            let j = pair_for(reps, h, reps.len() as int).unwrap();
            assert(asks_current_text(b, reps, j));
            let m = choose|m: int|
                0 <= m < document_sources(b).len() && reps[j].0 == #[trigger] source_handle(view_of(b), m)
                    && reps[j].1 == document_sources(b)[m].source;
            lemma_source_handles_distinct(b, m, n - 1);
        }
    }
}

/// The sources among the first `n` patch objects, in object order.
proof fn lemma_sources_upto_order(b: Seq<u8>, n: int)
    ensures
        crate::adls::strictly_increasing_indices(sources_upto(b, n)),
        forall|k: int| 0 <= k < sources_upto(b, n).len() ==> 0 <= #[trigger] sources_upto(b, n)[k].index < n,
    decreases n,
{
    if n > 0 {
        lemma_sources_upto_order(b, n - 1);
        let prev = sources_upto(b, n - 1);
        let cur = sources_upto(b, n);
        match source_of_object(b, n - 1) {
            Some(src) => {
                assert(cur == prev + seq![src]);
                assert(src.index == n - 1);
                assert forall|k: int| 0 <= k < cur.len() implies 0 <= #[trigger] cur[k].index < n by {
                    if k < prev.len() {
                        assert(cur[k] == prev[k]);
                    }
                }
                assert forall|i: int, j: int| 0 <= i < j < cur.len() implies (#[trigger] cur[i]).index < (
                #[trigger] cur[j]).index by {
                    assert(cur[i] == prev[i]);
                    if j < prev.len() {
                        assert(cur[j] == prev[j]);
                    }
                }
            },
            None => {
                assert(cur =~= prev);
            },
        }
    }
}

/// The sources of a document come in patch-object order: their handles'
/// indices strictly increase.
pub proof fn lemma_sources_in_object_order(b: Seq<u8>)
    ensures
        crate::adls::strictly_increasing_indices(document_sources(b)),
{
    lemma_sources_upto_order(b, pool_count(b));
}

} // verus!
