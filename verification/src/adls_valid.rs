//! A rewrite of a well-formed document is itself well formed.
//!
//! Every structure the source view reaches keeps its bytes, except the
//! source field words that now point at appended strings. Those strings lie
//! past the original bytes and past each other, so the reached ranges stay
//! consistent.

use vstd::prelude::*;
use vstd::utf8::valid_utf8;

use crate::adls::{
    apply_changes, changes_upto, compatible, consistent, document_changes, document_regions,
    element_location, entries_in_table, entry_at, field_ok, header_ok, header_regions,
    kind_of_type, object_length_of, object_ok, object_regions, object_table, pool_count,
    regions_upto, root_table, source_handle, source_of_object, sources_upto, spec_document_rewrite,
    spec_field, string_ok, string_region, table_ok, table_regions, type_id_of, u16_at, u32_at,
    uoffset_ok, uoffset_target, vtable_length_of, vtable_of, well_formed_document, word_aligned,
    NodeHandleView, RegionKind, SpecChange, SpecRegion, SpecRewrite,
};
use crate::adls_laws::{
    clear_of_changes, fields_apart, fields_inside, has_change, lemma_apply_grows,
    lemma_bytes_kept, lemma_change_of_source, lemma_change_reads_back, lemma_changes_placed,
    lemma_changes_prefix, lemma_clear_beside_table, lemma_clear_in_table, lemma_field_in_table,
    lemma_header_kept, lemma_header_region_at, lemma_not_a_table, lemma_object_region_at,
    lemma_object_regions_len, lemma_object_shape_kept, lemma_object_source_kept,
    lemma_pair_for_in_range, lemma_regions_base, lemma_rewrite_writes_change,
    lemma_source_text_kept, lemma_u16_kept, lemma_u32_kept, object_base, rewrite_fits, rewritten,
    source_number, string_at, view_of,
};

verus! {

/// Every entry of a vtable held in reached range `rv`, clear of every change,
/// reads the same after the rewrite.
proof fn lemma_vtable_entries_kept(b: Seq<u8>, reps: Seq<(NodeHandleView, Seq<u8>)>, rv: int, vt: int, len: int)
    requires
        well_formed_document(b),
        0 <= rv < document_regions(b).len(),
        document_regions(b)[rv].start == vt,
        document_regions(b)[rv].end == vt + len,
        0 <= vt,
        vt + len <= b.len(),
        len % 2 == 0,
        forall|p: int, w: int| #[trigger] clear_of_changes(b, reps, rv, p, w),
    ensures
        forall|e: int| 0 <= e < len && e % 2 == 0 ==> #[trigger] entry_at(rewritten(b, reps), vt, e) == entry_at(b, vt, e),
{
    assert forall|e: int| 0 <= e < len && e % 2 == 0 implies #[trigger] entry_at(rewritten(b, reps), vt, e) == entry_at(b, vt, e) by {
        assert(clear_of_changes(b, reps, rv, vt + e, 2));
        lemma_u16_kept(b, reps, rv, vt + e);
    }
}

/// A valid table whose ranges are clear of changes, but for words past its
/// vtable offset, stays a valid table with the same fields.
proof fn lemma_table_kept(b: Seq<u8>, reps: Seq<(NodeHandleView, Seq<u8>)>, rt: int, rv: int, loc: int)
    requires
        well_formed_document(b),
        table_ok(b, loc),
        0 <= loc,
        0 <= rt < document_regions(b).len(),
        0 <= rv < document_regions(b).len(),
        document_regions(b)[rt] == table_regions(b, loc)[0],
        document_regions(b)[rv] == table_regions(b, loc)[1],
        clear_of_changes(b, reps, rt, loc, 4),
        forall|p: int, w: int| #[trigger] clear_of_changes(b, reps, rv, p, w),
    ensures
        vtable_of(rewritten(b, reps), loc) == vtable_of(b, loc),
        vtable_length_of(rewritten(b, reps), loc) == vtable_length_of(b, loc),
        object_length_of(rewritten(b, reps), loc) == object_length_of(b, loc),
        forall|e: int|
            0 <= e < vtable_length_of(b, loc) && e % 2 == 0 ==> #[trigger] entry_at(rewritten(b, reps), vtable_of(b, loc), e)
                == entry_at(b, vtable_of(b, loc), e),
        table_ok(rewritten(b, reps), loc),
        forall|index: int| 0 <= index ==> #[trigger] spec_field(rewritten(b, reps), loc, index) == spec_field(b, loc, index),
        forall|index: int| 0 <= index && #[trigger] field_ok(b, loc, index) ==> field_ok(rewritten(b, reps), loc, index),
{
    let out = rewritten(b, reps);
    let vt = vtable_of(b, loc);
    let len = vtable_length_of(b, loc);
    lemma_u32_kept(b, reps, rt, loc);
    lemma_vtable_entries_kept(b, reps, rv, vt, len);
    assert(entry_at(out, vt, 0) == entry_at(b, vt, 0));
    assert(entry_at(out, vt, 2) == entry_at(b, vt, 2));
    assert(entries_in_table(out, vt, len, object_length_of(b, loc)));
    assert forall|index: int| 0 <= index implies #[trigger] spec_field(out, loc, index) == spec_field(b, loc, index) by {
        if 4 + 2 * index + 2 <= u16_at(b, vt) {
            assert(entry_at(out, vt, 4 + 2 * index) == entry_at(b, vt, 4 + 2 * index));
        }
    }
    assert forall|index: int| 0 <= index && #[trigger] field_ok(b, loc, index) implies field_ok(out, loc, index) by {
        let entry = 4 + 2 * index;
        if entry + 2 <= len {
            assert(entry_at(out, vt, entry) == entry_at(b, vt, entry));
        }
    }
}

/// The header, root table and patch-object vector of a rewrite are as valid
/// as the original's.
proof fn lemma_header_ok_kept(b: Seq<u8>, reps: Seq<(NodeHandleView, Seq<u8>)>)
    requires
        well_formed_document(b),
    ensures
        header_ok(rewritten(b, reps)),
        vtable_of(rewritten(b, reps), root_table(b)) == vtable_of(b, root_table(b)),
        vtable_length_of(rewritten(b, reps), root_table(b)) == vtable_length_of(b, root_table(b)),
        object_length_of(rewritten(b, reps), root_table(b)) == object_length_of(b, root_table(b)),
{
    let out = rewritten(b, reps);
    lemma_header_kept(b, reps);
    assert forall|i: int| 0 <= i < pool_count(b) implies 4 <= #[trigger] object_base(b, i) by {
        lemma_regions_base(b, i);
    }
    lemma_header_region_at(b, 0);
    lemma_header_region_at(b, 1);
    lemma_header_region_at(b, 2);
    lemma_not_a_table(b, reps, 0, 0, 4);
    lemma_u32_kept(b, reps, 0, 0);
    lemma_not_a_table(b, reps, 0, 4, 4);
    lemma_bytes_kept(b, reps, 0, 4, 4);
    assert(out[4] == b[4] && out[5] == b[5] && out[6] == b[6] && out[7] == b[7]);
    let root = root_table(b);
    lemma_not_a_table(b, reps, 1, root, 4);
    assert forall|p: int, w: int| #[trigger] clear_of_changes(b, reps, 2, p, w) by {
        lemma_not_a_table(b, reps, 2, p, w);
    }
    lemma_table_kept(b, reps, 1, 2, root);
    assert(field_ok(out, root, 0));
    assert(spec_field(out, root, 0) == spec_field(b, root, 0));
    let f = spec_field(b, root, 0).unwrap();
    lemma_not_a_table(b, reps, 1, f, 4);
    lemma_u32_kept(b, reps, 1, f);
    assert(uoffset_ok(out, f));
    assert(element_location(out, pool_count(out)) == element_location(b, pool_count(b)));
}

/// The replacement texts of a batch are UTF-8.
pub open spec fn texts_valid(reps: Seq<(NodeHandleView, Seq<u8>)>) -> bool {
    forall|j: int| 0 <= j < reps.len() ==> valid_utf8(#[trigger] reps[j].1)
}

/// A source string that no pair changes stays a valid string.
proof fn lemma_kept_string_ok(b: Seq<u8>, reps: Seq<(NodeHandleView, Seq<u8>)>, i: int)
    requires
        well_formed_document(b),
        0 <= i < pool_count(b),
        source_of_object(b, i) is Some,
        !has_change(view_of(b), reps, source_number(b, i)),
    ensures
        string_ok(rewritten(b, reps), source_of_object(b, i).unwrap().field),
{
    let out = rewritten(b, reps);
    let s = source_of_object(b, i).unwrap();
    let f = s.field;
    assert(object_ok(b, i));
    assert(string_ok(b, f));
    lemma_source_text_kept(b, reps, i);
    let st = uoffset_target(b, f);
    let len = u32_at(b, st);
    lemma_object_regions_len(b, i);
    lemma_object_region_at(b, i, 2);
    lemma_clear_beside_table(b, reps, i, 2, st + 4 + len, 1);
    lemma_bytes_kept(b, reps, object_base(b, i) + 2, st + 4 + len, 1);
    assert(out.subrange(st + 4, st + 4 + len) == b.subrange(st + 4, st + 4 + len));
}

/// A field word at `f` pointing at an aligned, NUL-terminated string of
/// valid UTF-8 makes a valid string.
proof fn lemma_string_ok_from(out: Seq<u8>, f: int, at: int, text: Seq<u8>)
    requires
        f % 4 == 0,
        0 <= f,
        f + 4 <= at,
        at % 4 == 0,
        u32_at(out, f) == at - f,
        u32_at(out, at) == text.len(),
        at + 4 + text.len() + 1 <= out.len(),
        out.subrange(at + 4, at + 4 + text.len()) == text,
        out[at + 4 + text.len()] == 0,
        valid_utf8(text),
    ensures
        string_ok(out, f),
{
}

/// The string a change appends is a valid string for its field.
proof fn lemma_appended_string_ok(b: Seq<u8>, cs: Seq<SpecChange>, k: int)
    requires
        fields_inside(b, cs),
        fields_apart(cs),
        0 <= k < cs.len(),
        apply_changes(b, cs).len() <= 0x8000_0000,
        cs[k].field % 4 == 0,
        valid_utf8(cs[k].text),
    ensures
        string_ok(apply_changes(b, cs), cs[k].field),
{
    let out = apply_changes(b, cs);
    let f = cs[k].field;
    let at = string_at(b, cs, k);
    lemma_change_reads_back(b, cs, k);
    lemma_rewrite_writes_change(b, cs, k);
    lemma_word_aligned(apply_changes(b, cs.subrange(0, k)).len() as int);
    lemma_string_ok_from(out, f, at, cs[k].text);
}

proof fn lemma_word_aligned(n: int)
    requires
        0 <= n,
    ensures
        word_aligned(n) % 4 == 0,
        n <= word_aligned(n) < n + 4,
{
}

/// A source string that a pair changes becomes the appended string of its
/// text, which is valid.
proof fn lemma_changed_string_ok(b: Seq<u8>, reps: Seq<(NodeHandleView, Seq<u8>)>, i: int)
    requires
        well_formed_document(b),
        rewrite_fits(b, reps),
        texts_valid(reps),
        0 <= i < pool_count(b),
        source_of_object(b, i) is Some,
        has_change(view_of(b), reps, source_number(b, i)),
    ensures
        string_ok(rewritten(b, reps), source_of_object(b, i).unwrap().field),
{
    let v = view_of(b);
    let cs = document_changes(v, reps);
    let f = source_of_object(b, i).unwrap().field;
    assert(object_ok(b, i));
    assert(string_ok(b, f));
    let k = lemma_change_of_source(b, reps, i);
    lemma_changes_placed(b, reps);
    crate::adls::lemma_apply_changes_len(b, cs);
    let m = source_number(b, i);
    lemma_pair_for_in_range(reps, source_handle(v, m), reps.len() as int);
    lemma_appended_string_ok(b, cs, k);
}

/// Every patch object of a rewrite is as valid as it was.
proof fn lemma_object_ok_kept(b: Seq<u8>, reps: Seq<(NodeHandleView, Seq<u8>)>, i: int)
    requires
        well_formed_document(b),
        rewrite_fits(b, reps),
        texts_valid(reps),
        0 <= i < pool_count(b),
    ensures
        object_ok(rewritten(b, reps), i),
        object_table(rewritten(b, reps), i) == object_table(b, i),
        vtable_of(rewritten(b, reps), object_table(b, i)) == vtable_of(b, object_table(b, i)),
        vtable_length_of(rewritten(b, reps), object_table(b, i)) == vtable_length_of(b, object_table(b, i)),
        object_length_of(rewritten(b, reps), object_table(b, i)) == object_length_of(b, object_table(b, i)),
{
    let out = rewritten(b, reps);
    lemma_header_kept(b, reps);
    lemma_object_shape_kept(b, reps, i);
    assert(object_ok(b, i));
    let o = object_table(b, i);
    let base = object_base(b, i);
    lemma_object_regions_len(b, i);
    lemma_object_region_at(b, i, 0);
    lemma_object_region_at(b, i, 1);
    if source_of_object(b, i) is Some {
        lemma_field_in_table(b, i);
    }
    lemma_clear_in_table(b, reps, i, o, 4);
    assert forall|p: int, w: int| #[trigger] clear_of_changes(b, reps, base + 1, p, w) by {
        lemma_clear_beside_table(b, reps, i, 1, p, w);
    }
    lemma_table_kept(b, reps, base, base + 1, o);
    assert(element_location(out, i) == element_location(b, i));
    assert(uoffset_ok(out, element_location(out, i)));
    assert(field_ok(out, o, 0));
    if kind_of_type(type_id_of(b, o)) is Some {
        assert(field_ok(out, o, 10));
        if source_of_object(b, i) is Some {
            if has_change(view_of(b), reps, source_number(b, i)) {
                lemma_changed_string_ok(b, reps, i);
            } else {
                lemma_kept_string_ok(b, reps, i);
            }
        }
    }
}

/// The strings of a batch are appended in order, each ending before the
/// next begins.
proof fn lemma_strings_in_order(b: Seq<u8>, cs: Seq<SpecChange>, k: int, l: int)
    requires
        fields_inside(b, cs),
        0 <= k < l < cs.len(),
    ensures
        string_at(b, cs, k) + 4 + cs[k].text.len() + 1 <= string_at(b, cs, l),
{
    let head = cs.subrange(0, l);
    assert(fields_inside(b, head)) by {
        assert forall|q: int| 0 <= q < head.len() implies 0 <= #[trigger] head[q].field && head[q].field + 4 <= b.len() by {
            assert(head[q] == cs[q]);
        }
    }
    lemma_apply_grows(b, head, k);
    assert(head.subrange(0, k) =~= cs.subrange(0, k));
    assert(head[k] == cs[k]);
    lemma_word_aligned(apply_changes(b, head).len() as int);
}

/// Every range a well-formed document reaches ends inside it.
#[verifier::spinoff_prover]
#[verifier::rlimit(30)]
proof fn lemma_regions_inside(b: Seq<u8>, n: int)
    requires
        well_formed_document(b),
        0 <= n <= pool_count(b),
    ensures
        forall|r: int| 0 <= r < regions_upto(b, n).len() ==> (#[trigger] regions_upto(b, n)[r]).end <= b.len(),
    decreases n,
{
    if n == 0 {
        assert(table_ok(b, root_table(b)));
    } else {
        lemma_regions_inside(b, n - 1);
        let i = n - 1;
        assert(object_ok(b, i));
        let prev = regions_upto(b, n - 1);
        let cur = regions_upto(b, n);
        let obj = object_regions(b, i);
        assert forall|r: int| 0 <= r < cur.len() implies (#[trigger] cur[r]).end <= b.len() by {
            if r < prev.len() {
                assert(cur[r] == prev[r]);
            } else {
                assert(cur[r] == obj[r - prev.len()]);
                lemma_object_regions_len(b, i);
                if r - prev.len() == 2 {
                    assert(string_ok(b, source_of_object(b, i).unwrap().field));
                }
            }
        }
    }
}

/// Object `i`'s source changes in the rewrite.
pub open spec fn changed_object(b: Seq<u8>, reps: Seq<(NodeHandleView, Seq<u8>)>, i: int) -> bool {
    source_of_object(b, i) is Some && has_change(view_of(b), reps, source_number(b, i))
}

/// The range of the string appended for object `i`'s source.
pub open spec fn appended_region(b: Seq<u8>, reps: Seq<(NodeHandleView, Seq<u8>)>, i: int) -> SpecRegion {
    let cs = document_changes(view_of(b), reps);
    let k = changes_upto(view_of(b), reps, source_number(b, i)).len() as int;
    SpecRegion {
        start: string_at(b, cs, k),
        end: string_at(b, cs, k) + 4 + cs[k].text.len() + 1,
        kind: RegionKind::String,
    }
}

/// The ranges object `i` reaches in the rewrite: its table and vtable as
/// they were, and its old string or, where its source changed, the appended
/// one.
proof fn lemma_object_regions_rewritten(b: Seq<u8>, reps: Seq<(NodeHandleView, Seq<u8>)>, i: int)
    requires
        well_formed_document(b),
        rewrite_fits(b, reps),
        texts_valid(reps),
        0 <= i < pool_count(b),
    ensures
        object_regions(rewritten(b, reps), i) == if changed_object(b, reps, i) {
            table_regions(b, object_table(b, i)) + seq![appended_region(b, reps, i)]
        } else {
            object_regions(b, i)
        },
{
    let out = rewritten(b, reps);
    lemma_object_ok_kept(b, reps, i);
    lemma_object_source_kept(b, reps, i);
    let o = object_table(b, i);
    assert(table_regions(out, o) == table_regions(b, o));
    if source_of_object(b, i) is Some {
        let f = source_of_object(b, i).unwrap().field;
        if changed_object(b, reps, i) {
            let cs = document_changes(view_of(b), reps);
            let k = lemma_change_of_source(b, reps, i);
            lemma_changes_placed(b, reps);
            crate::adls::lemma_apply_changes_len(b, cs);
            lemma_change_reads_back(b, cs, k);
            assert(string_region(out, f) == appended_region(b, reps, i));
        } else {
            lemma_source_text_kept(b, reps, i);
            assert(string_region(out, f) == string_region(b, f));
        }
    }
}

/// The fixed ranges of a rewrite are the original's.
proof fn lemma_header_regions_rewritten(b: Seq<u8>, reps: Seq<(NodeHandleView, Seq<u8>)>)
    requires
        well_formed_document(b),
    ensures
        header_regions(rewritten(b, reps)) == header_regions(b),
{
    lemma_header_kept(b, reps);
    lemma_header_ok_kept(b, reps);
    assert(table_regions(rewritten(b, reps), root_table(b)) == table_regions(b, root_table(b)));
}

/// Range `r` of the rewrite's first `n` objects is the original's, or the
/// string appended for a changed object.
pub open spec fn region_rewritten(b: Seq<u8>, reps: Seq<(NodeHandleView, Seq<u8>)>, n: int, r: int) -> bool {
    ||| regions_upto(rewritten(b, reps), n)[r] == regions_upto(b, n)[r]
    ||| exists|i: int|
        0 <= i < n && changed_object(b, reps, i) && r == #[trigger] object_base(b, i) + 2 && regions_upto(
            rewritten(b, reps),
            n,
        )[r] == appended_region(b, reps, i)
}

proof fn lemma_regions_rewritten(b: Seq<u8>, reps: Seq<(NodeHandleView, Seq<u8>)>, n: int)
    requires
        well_formed_document(b),
        rewrite_fits(b, reps),
        texts_valid(reps),
        0 <= n <= pool_count(b),
    ensures
        regions_upto(rewritten(b, reps), n).len() == regions_upto(b, n).len(),
        forall|r: int| 0 <= r < regions_upto(b, n).len() ==> #[trigger] region_rewritten(b, reps, n, r),
    decreases n,
{
    let out = rewritten(b, reps);
    if n == 0 {
        lemma_header_regions_rewritten(b, reps);
    } else {
        let i = n - 1;
        lemma_regions_rewritten(b, reps, i);
        lemma_object_regions_rewritten(b, reps, i);
        lemma_object_regions_len(b, i);
        let prev_o = regions_upto(out, i);
        let prev_b = regions_upto(b, i);
        let cur_o = regions_upto(out, n);
        let cur_b = regions_upto(b, n);
        assert forall|r: int| 0 <= r < cur_b.len() implies #[trigger] region_rewritten(b, reps, n, r) by {
            if r < prev_b.len() {
                assert(cur_o[r] == prev_o[r]);
                assert(cur_b[r] == prev_b[r]);
                assert(region_rewritten(b, reps, i, r));
                if cur_o[r] != cur_b[r] {
                    let j = choose|j: int|
                        0 <= j < i && changed_object(b, reps, j) && r == #[trigger] object_base(b, j) + 2
                            && prev_o[r] == appended_region(b, reps, j);
                    assert(0 <= j < n && changed_object(b, reps, j) && r == object_base(b, j) + 2
                        && cur_o[r] == appended_region(b, reps, j));
                }
            } else {
                let q = r - prev_b.len();
                assert(cur_o[r] == object_regions(out, i)[q]);
                assert(cur_b[r] == object_regions(b, i)[q]);
                if changed_object(b, reps, i) && q == 2 {
                    assert(object_base(b, i) == prev_b.len());
                    assert(cur_o[r] == appended_region(b, reps, i));
                }
            }
        }
    }
}

proof fn lemma_sources_upto_grows(b: Seq<u8>, i: int, j: int)
    requires
        0 <= i <= j,
    ensures
        sources_upto(b, i).len() <= sources_upto(b, j).len(),
    decreases j - i,
{
    if i < j {
        lemma_sources_upto_grows(b, i, j - 1);
    }
}

/// Changed objects append their strings in object order.
proof fn lemma_changes_in_object_order(b: Seq<u8>, reps: Seq<(NodeHandleView, Seq<u8>)>, i1: int, i2: int)
    requires
        0 <= i1 < i2,
        changed_object(b, reps, i1),
    ensures
        changes_upto(view_of(b), reps, source_number(b, i1)).len() < changes_upto(
            view_of(b),
            reps,
            source_number(b, i2),
        ).len(),
{
    let v = view_of(b);
    let m1 = source_number(b, i1);
    let m2 = source_number(b, i2);
    lemma_sources_upto_grows(b, i1 + 1, i2);
    assert(sources_upto(b, i1 + 1).len() == m1 + 1);
    lemma_changes_prefix(v, reps, m1 + 1, m2);
}

/// The string appended for a changed object lies past the original bytes.
proof fn lemma_appended_past_end(b: Seq<u8>, reps: Seq<(NodeHandleView, Seq<u8>)>, i: int)
    requires
        well_formed_document(b),
        0 <= i < pool_count(b),
        changed_object(b, reps, i),
    ensures
        b.len() <= appended_region(b, reps, i).start < appended_region(b, reps, i).end,
{
    let cs = document_changes(view_of(b), reps);
    let k = lemma_change_of_source(b, reps, i);
    lemma_changes_placed(b, reps);
    lemma_rewrite_writes_change(b, cs, k);
}

/// Two strings appended for different changed objects do not overlap.
proof fn lemma_appended_apart(b: Seq<u8>, reps: Seq<(NodeHandleView, Seq<u8>)>, i1: int, i2: int)
    requires
        well_formed_document(b),
        0 <= i1 < i2 < pool_count(b),
        changed_object(b, reps, i1),
        changed_object(b, reps, i2),
    ensures
        appended_region(b, reps, i1).end <= appended_region(b, reps, i2).start,
{
    let cs = document_changes(view_of(b), reps);
    let k1 = lemma_change_of_source(b, reps, i1);
    let k2 = lemma_change_of_source(b, reps, i2);
    lemma_changes_in_object_order(b, reps, i1, i2);
    lemma_changes_placed(b, reps);
    lemma_strings_in_order(b, cs, k1, k2);
}

/// Two ranges of a rewrite are compatible.
proof fn lemma_rewritten_pair_compatible(b: Seq<u8>, reps: Seq<(NodeHandleView, Seq<u8>)>, r1: int, r2: int)
    requires
        well_formed_document(b),
        rewrite_fits(b, reps),
        texts_valid(reps),
        0 <= r1 < r2 < regions_upto(b, pool_count(b)).len(),
    ensures
        compatible(regions_upto(rewritten(b, reps), pool_count(b))[r1], regions_upto(rewritten(b, reps), pool_count(b))[r2]),
{
    let n = pool_count(b);
    let ro = regions_upto(rewritten(b, reps), n);
    let rb = regions_upto(b, n);
    lemma_regions_rewritten(b, reps, n);
    lemma_regions_inside(b, n);
    assert(region_rewritten(b, reps, n, r1));
    assert(region_rewritten(b, reps, n, r2));
    assert(consistent(document_regions(b)));
    let new1 = ro[r1] != rb[r1];
    let new2 = ro[r2] != rb[r2];
    if !new1 && !new2 {
        assert(compatible(rb[r1], rb[r2]));
    } else if new1 && !new2 {
        let i1 = choose|i: int| 0 <= i < n && changed_object(b, reps, i) && r1 == #[trigger] object_base(b, i) + 2
            && ro[r1] == appended_region(b, reps, i);
        lemma_appended_past_end(b, reps, i1);
        assert(rb[r2].end <= b.len());
    } else if !new1 && new2 {
        let i2 = choose|i: int| 0 <= i < n && changed_object(b, reps, i) && r2 == #[trigger] object_base(b, i) + 2
            && ro[r2] == appended_region(b, reps, i);
        lemma_appended_past_end(b, reps, i2);
        assert(rb[r1].end <= b.len());
    } else {
        let i1 = choose|i: int| 0 <= i < n && changed_object(b, reps, i) && r1 == #[trigger] object_base(b, i) + 2
            && ro[r1] == appended_region(b, reps, i);
        let i2 = choose|i: int| 0 <= i < n && changed_object(b, reps, i) && r2 == #[trigger] object_base(b, i) + 2
            && ro[r2] == appended_region(b, reps, i);
        if i1 < i2 {
            lemma_appended_apart(b, reps, i1, i2);
        } else {
            assert(i1 != i2);
            lemma_appended_apart(b, reps, i2, i1);
        }
    }
}

/// The ranges a rewrite reaches are consistent.
proof fn lemma_rewritten_regions_consistent(b: Seq<u8>, reps: Seq<(NodeHandleView, Seq<u8>)>)
    requires
        well_formed_document(b),
        rewrite_fits(b, reps),
        texts_valid(reps),
    ensures
        consistent(document_regions(rewritten(b, reps))),
{
    let n = pool_count(b);
    let out = rewritten(b, reps);
    lemma_header_kept(b, reps);
    let ro = regions_upto(out, n);
    let rb = regions_upto(b, n);
    lemma_regions_rewritten(b, reps, n);
    assert(consistent(document_regions(b)));
    assert forall|r: int| 0 <= r < ro.len() implies (#[trigger] ro[r]).start < ro[r].end by {
        assert(region_rewritten(b, reps, n, r));
        if ro[r] != rb[r] {
            let i = choose|i: int| 0 <= i < n && changed_object(b, reps, i) && r == #[trigger] object_base(b, i) + 2
                && ro[r] == appended_region(b, reps, i);
            lemma_appended_past_end(b, reps, i);
        }
    }
    assert forall|r1: int, r2: int| 0 <= r1 < r2 < ro.len() implies compatible(#[trigger] ro[r1], #[trigger] ro[r2]) by {
        lemma_rewritten_pair_compatible(b, reps, r1, r2);
    }
}

/// A rewrite of a well-formed document with UTF-8 replacement texts is
/// itself well formed: the source view reads it back, so a rewrite that
/// fits is never refused on its own output.
pub proof fn lemma_rewrite_stays_well_formed(b: Seq<u8>, reps: Seq<(NodeHandleView, Seq<u8>)>, out: Seq<u8>)
    requires
        well_formed_document(b),
        texts_valid(reps),
        spec_document_rewrite(view_of(b), reps) == SpecRewrite::Rewritten(out),
    ensures
        well_formed_document(out),
{
    assert(out == rewritten(b, reps));
    assert(rewrite_fits(b, reps));
    lemma_header_kept(b, reps);
    lemma_header_ok_kept(b, reps);
    assert forall|i: int| 0 <= i < pool_count(out) implies #[trigger] object_ok(out, i) by {
        lemma_object_ok_kept(b, reps, i);
    }
    assert forall|i: int, j: int| 0 <= i < j < pool_count(out) implies #[trigger] object_table(out, i) != #[trigger] object_table(out, j) by {
        assert(object_table(b, i) != object_table(b, j));
    }
    lemma_rewritten_regions_consistent(b, reps);
}

} // verus!
