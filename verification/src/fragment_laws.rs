//! What recording a baseline hash on a closing marker line reads back.
//!
//! Updating a present hash replaces only its token; establishing one inserts
//! a space and the hash after the path. Either way the edited line is still
//! the closing marker of the same path, now carrying the recorded hash.

use vstd::prelude::*;

use crate::adls::NodeKind;

use crate::fragment::{
    hash_edit, hex_of, is_hspace, lemma_hash_spelling_parses_back, skip_h, spec_marker,
    token_end, content_end, line_end, lemma_content_end, lemma_line_advances, spec_parse_from,
    starts_with_bom, comment_of, spec_parse, HashLocation, MarkerError, SpecEdit, SpecFragment, SpecMarker, SpecOpen, CR,
    LF, SPACE,
};

verus! {

/// `skip_h` stops at `r` exactly when everything before `r` is horizontal
/// whitespace and `r` is the limit or not whitespace.
pub(crate) proof fn lemma_skip_h_at(b: Seq<u8>, pos: int, lim: int, r: int)
    requires
        0 <= pos <= r <= lim <= b.len(),
    ensures
        skip_h(b, pos, lim) == r <==> (forall|k: int| pos <= k < r ==> is_hspace(#[trigger] b[k])) && (r == lim
            || !is_hspace(b[r])),
    decreases r - pos,
{
    if pos < lim {
        lemma_skip_h_bound(b, pos + 1, lim);
    }
    if pos < r {
        lemma_skip_h_at(b, pos + 1, lim, r);
        if is_hspace(b[pos]) {
            assert(skip_h(b, pos, lim) == skip_h(b, pos + 1, lim));
        } else {
            assert(skip_h(b, pos, lim) == pos);
        }
        if skip_h(b, pos, lim) == r {
            assert(is_hspace(b[pos]));
            assert forall|k: int| pos <= k < r implies is_hspace(#[trigger] b[k]) by {
                if k > pos {
                }
            }
        }
        if (forall|k: int| pos <= k < r ==> is_hspace(#[trigger] b[k])) && (r == lim || !is_hspace(b[r])) {
            assert(is_hspace(b[pos]));
            assert(forall|k: int| pos + 1 <= k < r ==> is_hspace(#[trigger] b[k]));
        }
    }
}

/// `token_end` stops at `r` exactly when nothing before `r` is horizontal
/// whitespace and `r` is the limit or whitespace.
pub(crate) proof fn lemma_token_end_at(b: Seq<u8>, pos: int, lim: int, r: int)
    requires
        0 <= pos <= r <= lim <= b.len(),
    ensures
        token_end(b, pos, lim) == r <==> (forall|k: int| pos <= k < r ==> !is_hspace(#[trigger] b[k])) && (r
            == lim || is_hspace(b[r])),
    decreases r - pos,
{
    if pos < lim {
        lemma_token_end_bound(b, pos + 1, lim);
    }
    if pos < r {
        lemma_token_end_at(b, pos + 1, lim, r);
        if !is_hspace(b[pos]) {
            assert(token_end(b, pos, lim) == token_end(b, pos + 1, lim));
        } else {
            assert(token_end(b, pos, lim) == pos);
        }
        if token_end(b, pos, lim) == r {
            assert(!is_hspace(b[pos]));
            assert forall|k: int| pos <= k < r implies !is_hspace(#[trigger] b[k]) by {
                if k > pos {
                }
            }
        }
        if (forall|k: int| pos <= k < r ==> !is_hspace(#[trigger] b[k])) && (r == lim || is_hspace(b[r])) {
            assert(!is_hspace(b[pos]));
            assert(forall|k: int| pos + 1 <= k < r ==> !is_hspace(#[trigger] b[k]));
        }
    }
}

pub(crate) proof fn lemma_skip_h_bound(b: Seq<u8>, pos: int, lim: int)
    requires
        0 <= pos <= lim <= b.len(),
    ensures
        pos <= skip_h(b, pos, lim) <= lim,
    decreases lim - pos,
{
    if pos < lim && is_hspace(b[pos]) {
        lemma_skip_h_bound(b, pos + 1, lim);
    }
}

pub(crate) proof fn lemma_token_end_bound(b: Seq<u8>, pos: int, lim: int)
    requires
        0 <= pos <= lim <= b.len(),
    ensures
        pos <= token_end(b, pos, lim) <= lim,
    decreases lim - pos,
{
    if pos < lim && !is_hspace(b[pos]) {
        lemma_token_end_bound(b, pos + 1, lim);
    }
}

/// Hexadecimal digits are not whitespace.
pub(crate) proof fn lemma_hex_not_space(h: Seq<u8>, k: int)
    requires
        h.len() == 8,
        0 <= k < 16,
    ensures
        !is_hspace(hex_of(h)[k]),
{
    assert(h[k / 2] / 16 < 16 && h[k / 2] % 16 < 16);
}

/// `b` with the bytes `[e.start, e.end)` replaced by `e.text`.
pub open spec fn edited(b: Seq<u8>, e: SpecEdit) -> Seq<u8> {
    b.subrange(0, e.start) + e.text + b.subrange(e.end, b.len() as int)
}

pub(crate) proof fn lemma_edited_bytes(b: Seq<u8>, e: SpecEdit)
    requires
        0 <= e.start <= e.end <= b.len(),
    ensures
        edited(b, e).len() == b.len() + e.text.len() - (e.end - e.start),
        forall|k: int| 0 <= k < e.start ==> #[trigger] edited(b, e)[k] == b[k],
        forall|j: int| 0 <= j < e.text.len() ==> #[trigger] edited(b, e)[e.start + j] == e.text[j],
        forall|j: int|
            0 <= j < b.len() - e.end ==> #[trigger] edited(b, e)[e.start + e.text.len() + j] == b[e.end + j],
{
    let b2 = edited(b, e);
    assert forall|j: int| 0 <= j < b.len() - e.end implies #[trigger] b2[e.start + e.text.len() + j] == b[e.end + j] by {
        assert(b2[e.start + e.text.len() + j] == b.subrange(e.end, b.len() as int)[j]);
    }
}

/// The marker positions of a closing line, as the grammar finds them.
pub struct ClosePositions {
    pub p0: int,
    pub p2: int,
    pub p3: int,
    pub p4: int,
    pub p5: int,
    pub p6: int,
}

/// The positions `spec_marker` computes on the line `b[ls..ce]`.
pub open spec fn close_positions(c: u8, b: Seq<u8>, ls: int, ce: int) -> ClosePositions {
    let p0 = skip_h(b, ls, ce);
    let p2 = skip_h(b, p0 + 2, ce);
    let p3 = token_end(b, p2, ce);
    let p4 = skip_h(b, p3, ce);
    let p5 = token_end(b, p4, ce);
    let p6 = skip_h(b, p5, ce);
    ClosePositions { p0, p2, p3, p4, p5, p6 }
}

pub(crate) proof fn lemma_close_positions_bounds(c: u8, b: Seq<u8>, ls: int, ce: int)
    requires
        0 <= ls <= ce <= b.len(),
        spec_marker(c, b, ls, ce) matches Ok(Some(SpecMarker::Close { .. })),
    ensures
        ({
            let q = close_positions(c, b, ls, ce);
            ls <= q.p0 && q.p0 + 2 <= q.p2 <= q.p3 <= q.p4 <= q.p5 <= q.p6 <= ce
        }),
{
    let q = close_positions(c, b, ls, ce);
    lemma_skip_h_bound(b, ls, ce);
    lemma_skip_h_bound(b, q.p0 + 2, ce);
    lemma_token_end_bound(b, q.p2, ce);
    lemma_skip_h_bound(b, q.p3, ce);
    lemma_token_end_bound(b, q.p4, ce);
    lemma_skip_h_bound(b, q.p5, ce);
}

/// The grammar finds the same opening tokens and path on a line whose bytes
/// agree up to `s`, at or past the end of the path.
proof fn lemma_close_prefix_kept(c: u8, b: Seq<u8>, b2: Seq<u8>, ls: int, ce: int, ce2: int, s: int)
    requires
        0 <= ls <= ce <= b.len(),
        ls <= ce2 <= b2.len(),
        spec_marker(c, b, ls, ce) matches Ok(Some(SpecMarker::Close { .. })),
        close_positions(c, b, ls, ce).p5 <= s <= ce2,
        s <= b.len(),
        forall|k: int| 0 <= k < s ==> #[trigger] b2[k] == b[k],
    ensures
        ({
            let q = close_positions(c, b, ls, ce);
            let q2 = close_positions(c, b2, ls, ce2);
            &&& q2.p0 == q.p0 && q2.p2 == q.p2 && q2.p3 == q.p3 && q2.p4 == q.p4
            &&& q.p0 + 2 < q.p2 < q.p3 < q.p4 < q.p5 <= q.p6 <= ce
            &&& b2[q.p0] == c && b2[q.p0 + 1] == c
            &&& b2.subrange(q.p2, q.p3) == b.subrange(q.p2, q.p3)
            &&& b2.subrange(q.p4, q.p5) == b.subrange(q.p4, q.p5)
            &&& forall|k: int| q.p4 <= k < q.p5 ==> !is_hspace(#[trigger] b2[k])
            &&& q.p5 < ce ==> is_hspace(b[q.p5])
        }),
{
    let q = close_positions(c, b, ls, ce);
    let p0 = q.p0;
    let p2 = q.p2;
    let p3 = q.p3;
    let p4 = q.p4;
    let p5 = q.p5;
    lemma_skip_h_bound(b, ls, ce);
    assert(p0 + 2 <= ce);
    lemma_skip_h_bound(b, p0 + 2, ce);
    lemma_token_end_bound(b, p2, ce);
    lemma_skip_h_bound(b, p3, ce);
    lemma_token_end_bound(b, p4, ce);
    lemma_skip_h_bound(b, p5, ce);
    assert(p2 != p0 + 2);
    assert(b.subrange(p2, p3) =~= seq![crate::fragment::AT, crate::fragment::RBRACE]);
    assert(p4 != p3 && p4 != ce);
    assert(p5 > p4) by {
        if p5 == p4 {
            assert(b.subrange(p4, p5).len() == 0);
        }
    }
    // Each position is where the same characterization puts it in `b2`.
    lemma_skip_h_at(b, ls, ce, p0);
    lemma_skip_h_at(b2, ls, ce2, p0);
    lemma_skip_h_at(b, p0 + 2, ce, p2);
    lemma_skip_h_at(b2, p0 + 2, ce2, p2);
    lemma_token_end_at(b, p2, ce, p3);
    lemma_token_end_at(b2, p2, ce2, p3);
    lemma_skip_h_at(b, p3, ce, p4);
    lemma_skip_h_at(b2, p3, ce2, p4);
    lemma_token_end_at(b, p4, ce, p5);
    assert(b2.subrange(p2, p3) =~= b.subrange(p2, p3));
    assert(b2.subrange(p4, p5) =~= b.subrange(p4, p5));
}

/// The hash edit of `f` recording `h`, when one is needed.
pub open spec fn recording_edit(f: SpecFragment, h: Seq<u8>) -> SpecEdit {
    hash_edit(f, h)[0]
}

/// The closing marker a line reads as once `h` is recorded at `at`.
pub open spec fn recorded_close(path: Seq<u8>, h: Seq<u8>, at: int) -> Result<Option<SpecMarker>, MarkerError> {
    Ok(Some(SpecMarker::Close {
        path,
        baseline: Some(h),
        location: HashLocation::Present { start: at as usize, end: (at + 16) as usize },
    }))
}

proof fn lemma_present_hash_reads_back(c: u8, b: Seq<u8>, ls: int, ce: int, f: SpecFragment, h: Seq<u8>)
    requires
        0 <= ls <= ce <= b.len(),
        b.len() + 17 <= usize::MAX,
        spec_marker(c, b, ls, ce) == Ok::<Option<SpecMarker>, MarkerError>(
            Some(SpecMarker::Close { path: f.path, baseline: f.baseline, location: f.location }),
        ),
        f.location is Present,
        h.len() == 8,
        f.baseline != Some(h),
    ensures
        hash_edit(f, h).len() == 1,
        spec_marker(
            c,
            edited(b, recording_edit(f, h)),
            ls,
            ce + 16 - (recording_edit(f, h).end - recording_edit(f, h).start),
        ) == recorded_close(f.path, h, recording_edit(f, h).start),
{
    let q = close_positions(c, b, ls, ce);
    let p5 = q.p5;
    let p6 = q.p6;
    let p7 = token_end(b, p6, ce);
    lemma_close_positions_bounds(c, b, ls, ce);
    lemma_token_end_bound(b, p6, ce);
    assert(p6 != ce);
    assert(f.location == HashLocation::Present { start: p6 as usize, end: p7 as usize });
    let e = recording_edit(f, h);
    assert(e == SpecEdit { start: p6, end: p7, text: hex_of(h) });
    let b2 = edited(b, e);
    let ce2 = ce + 16 - (p7 - p6);
    lemma_edited_bytes(b, e);
    lemma_close_prefix_kept(c, b, b2, ls, ce, ce2, p6);
    let q2 = close_positions(c, b2, ls, ce2);
    lemma_skip_h_at(b, p5, ce, p6);
    lemma_token_end_at(b, p6, ce, p7);
    lemma_skip_h_at(b, p7, ce, ce);
    assert(p5 < p6) by {
        if p5 == p6 {
            assert(is_hspace(b[p5]));
        }
    }
    assert forall|k: int| p6 <= k < p6 + 16 implies !is_hspace(#[trigger] b2[k]) by {
        assert(b2[p6 + (k - p6)] == hex_of(h)[k - p6]);
        lemma_hex_not_space(h, k - p6);
    }
    lemma_token_end_at(b2, q.p4, ce2, p5);
    assert(q2.p5 == p5);
    lemma_skip_h_at(b2, p5, ce2, p6);
    assert(q2.p6 == p6);
    if p7 < ce {
        assert(b2[p6 + 16 + 0] == b[p7 + 0]);
    }
    lemma_token_end_at(b2, p6, ce2, p6 + 16);
    assert(b2.subrange(p6, p6 + 16) =~= hex_of(h));
    lemma_hash_spelling_parses_back(h);
    assert forall|k: int| p6 + 16 <= k < ce2 implies is_hspace(#[trigger] b2[k]) by {
        assert(b2[p6 + 16 + (k - p6 - 16)] == b[p7 + (k - p6 - 16)]);
    }
    lemma_skip_h_at(b2, p6 + 16, ce2, ce2);
}

proof fn lemma_missing_hash_reads_back(c: u8, b: Seq<u8>, ls: int, ce: int, f: SpecFragment, h: Seq<u8>)
    requires
        0 <= ls <= ce <= b.len(),
        b.len() + 17 <= usize::MAX,
        spec_marker(c, b, ls, ce) == Ok::<Option<SpecMarker>, MarkerError>(
            Some(SpecMarker::Close { path: f.path, baseline: f.baseline, location: f.location }),
        ),
        f.location is Missing,
        h.len() == 8,
    ensures
        hash_edit(f, h).len() == 1,
        spec_marker(c, edited(b, recording_edit(f, h)), ls, ce + 17) == recorded_close(
            f.path,
            h,
            recording_edit(f, h).start + 1,
        ),
{
    let q = close_positions(c, b, ls, ce);
    let p5 = q.p5;
    lemma_close_positions_bounds(c, b, ls, ce);
    assert(q.p6 == ce);
    assert(f.location == HashLocation::Missing { insertion: p5 as usize });
    let e = recording_edit(f, h);
    assert(e == SpecEdit { start: p5, end: p5, text: seq![SPACE] + hex_of(h) });
    let b2 = edited(b, e);
    let ce2 = ce + 17;
    lemma_edited_bytes(b, e);
    lemma_close_prefix_kept(c, b, b2, ls, ce, ce2, p5);
    let q2 = close_positions(c, b2, ls, ce2);
    lemma_skip_h_at(b, p5, ce, ce);
    assert(b2[p5 + 0] == SPACE);
    assert forall|k: int| p5 + 1 <= k < p5 + 17 implies !is_hspace(#[trigger] b2[k]) by {
        assert(b2[p5 + (k - p5)] == (seq![SPACE] + hex_of(h))[k - p5]);
        lemma_hex_not_space(h, k - p5 - 1);
    }
    lemma_token_end_at(b2, q.p4, ce2, p5);
    assert(q2.p5 == p5);
    lemma_skip_h_at(b2, p5, ce2, p5 + 1);
    assert(q2.p6 == p5 + 1);
    if p5 < ce {
        assert(b2[p5 + 17 + 0] == b[p5 + 0]);
    }
    lemma_token_end_at(b2, p5 + 1, ce2, p5 + 17);
    assert(b2.subrange(p5 + 1, p5 + 17) =~= hex_of(h));
    lemma_hash_spelling_parses_back(h);
    assert forall|k: int| p5 + 17 <= k < ce2 implies is_hspace(#[trigger] b2[k]) by {
        assert(b2[p5 + 17 + (k - p5 - 17)] == b[p5 + (k - p5 - 17)]);
    }
    lemma_skip_h_at(b2, p5 + 17, ce2, ce2);
}

pub(crate) proof fn lemma_recorded_close(c: u8, b: Seq<u8>, ls: int, ce: int, f: SpecFragment, h: Seq<u8>)
    requires
        0 <= ls <= ce <= b.len(),
        b.len() + 17 <= usize::MAX,
        spec_marker(c, b, ls, ce) == Ok::<Option<SpecMarker>, MarkerError>(
            Some(SpecMarker::Close { path: f.path, baseline: f.baseline, location: f.location }),
        ),
        h.len() == 8,
        f.baseline != Some(h),
    ensures
        hash_edit(f, h).len() == 1,
        spec_marker(
            c,
            edited(b, recording_edit(f, h)),
            ls,
            ce + recording_edit(f, h).text.len() - (recording_edit(f, h).end - recording_edit(f, h).start),
        ) == recorded_close(f.path, h, recording_edit(f, h).start + recording_edit(f, h).text.len() - 16),
{
    if f.location is Present {
        lemma_present_hash_reads_back(c, b, ls, ce, f, h);
    } else {
        lemma_missing_hash_reads_back(c, b, ls, ce, f, h);
    }
}

/// `content_end` stops at `r` exactly when no line break comes before `r`
/// and `r` is the end of the bytes or a line break.
pub(crate) proof fn lemma_content_end_at(b: Seq<u8>, i: int, r: int)
    requires
        0 <= i <= r <= b.len(),
    ensures
        content_end(b, i) == r <==> (forall|k: int| i <= k < r ==> #[trigger] b[k] != CR && b[k] != LF) && (r
            == b.len() || b[r] == CR || b[r] == LF),
    decreases r - i,
{
    lemma_content_end(b, i);
    if i < b.len() {
        lemma_content_end(b, i + 1);
    }
    if i < r {
        lemma_content_end_at(b, i + 1, r);
        if b[i] != CR && b[i] != LF {
            assert(content_end(b, i) == content_end(b, i + 1));
        } else {
            assert(content_end(b, i) == i);
        }
        if content_end(b, i) == r {
            assert forall|k: int| i <= k < r implies #[trigger] b[k] != CR && b[k] != LF by {
                if k > i {
                }
            }
        }
        if (forall|k: int| i <= k < r ==> #[trigger] b[k] != CR && b[k] != LF) && (r == b.len() || b[r] == CR
            || b[r] == LF) {
            assert(b[i] != CR && b[i] != LF);
            assert(forall|k: int| i + 1 <= k < r ==> #[trigger] b[k] != CR && b[k] != LF);
        }
    }
}

/// Every parsed fragment ends where its closing marker line starts, and that
/// line reads as its closing marker.
pub(crate) proof fn lemma_parsed_closings(
    c: u8,
    b: Seq<u8>,
    next: int,
    number: int,
    acc: Seq<SpecFragment>,
    open: Option<SpecOpen>,
)
    requires
        0 <= next,
        spec_parse_from(c, b, next, number, acc, open) is Ok,
        forall|i: int| 0 <= i < acc.len() ==> closes_at(c, b, #[trigger] acc[i]),
    ensures
        forall|i: int|
            0 <= i < spec_parse_from(c, b, next, number, acc, open)->Ok_0.len() ==> closes_at(
                c,
                b,
                #[trigger] spec_parse_from(c, b, next, number, acc, open)->Ok_0[i],
            ),
    decreases b.len() - next,
{
    if next < b.len() {
        let ce = content_end(b, next);
        let end = line_end(b, ce);
        lemma_line_advances(b, next);
        lemma_content_end(b, next);
        match spec_marker(c, b, next, ce) {
            Err(_) => {},
            Ok(None) => {
                lemma_parsed_closings(c, b, end, number + 1, acc, open);
            },
            Ok(Some(SpecMarker::Open { path })) => {
                if open is None {
                    lemma_parsed_closings(c, b, end, number + 1, acc, Some(SpecOpen { path, line: number, start: end }));
                }
            },
            Ok(Some(SpecMarker::Close { path, baseline, location })) => {
                if open is Some {
                    let o = open.unwrap();
                    if path == o.path && !starts_with_bom(b.subrange(o.start, next)) {
                        let f = SpecFragment { path, baseline, start: o.start, end: next, location };
                        let acc2 = acc.push(f);
                        assert(closes_at(c, b, f));
                        assert forall|i: int| 0 <= i < acc2.len() implies closes_at(c, b, #[trigger] acc2[i]) by {
                            if i < acc.len() {
                                assert(acc2[i] == acc[i]);
                            }
                        }
                        lemma_parsed_closings(c, b, end, number + 1, acc2, None);
                    }
                }
            },
        }
    }
}

/// Fragment `f`'s closing marker line starts at `f.end` and reads as its
/// closing marker.
pub open spec fn closes_at(c: u8, b: Seq<u8>, f: SpecFragment) -> bool {
    &&& 0 <= f.end <= b.len()
    &&& spec_marker(c, b, f.end, content_end(b, f.end)) == Ok::<Option<SpecMarker>, MarkerError>(
        Some(SpecMarker::Close { path: f.path, baseline: f.baseline, location: f.location }),
    )
}

/// The recording edit of a closing line lies within that line.
pub(crate) proof fn lemma_recording_edit_in_line(c: u8, b: Seq<u8>, ls: int, ce: int, f: SpecFragment, h: Seq<u8>)
    requires
        0 <= ls <= ce <= b.len(),
        b.len() + 17 <= usize::MAX,
        spec_marker(c, b, ls, ce) == Ok::<Option<SpecMarker>, MarkerError>(
            Some(SpecMarker::Close { path: f.path, baseline: f.baseline, location: f.location }),
        ),
        h.len() == 8,
        f.baseline != Some(h),
    ensures
        ls + 2 <= recording_edit(f, h).start <= recording_edit(f, h).end <= ce,
        forall|k: int|
            0 <= k < recording_edit(f, h).text.len() ==> #[trigger] recording_edit(f, h).text[k] != CR
                && recording_edit(f, h).text[k] != LF,
{
    let q = close_positions(c, b, ls, ce);
    lemma_close_positions_bounds(c, b, ls, ce);
    let e = recording_edit(f, h);
    if f.location is Present {
        lemma_token_end_bound(b, q.p6, ce);
        assert(e.text == hex_of(h));
    } else {
        assert(e.text == seq![SPACE] + hex_of(h));
    }
    assert forall|k: int| 0 <= k < e.text.len() implies #[trigger] e.text[k] != CR && e.text[k] != LF by {
        if f.location is Present {
            lemma_hex_not_space(h, k);
            assert(h[k / 2] / 16 < 16 && h[k / 2] % 16 < 16);
        } else if k > 0 {
            assert(e.text[k] == hex_of(h)[k - 1]);
            assert(h[(k - 1) / 2] / 16 < 16 && h[(k - 1) / 2] % 16 < 16);
        }
    }
}

/// Recording a baseline hash on a parsed fragment's closing marker reads
/// back: after the edit (the present token replaced, or a space and the hash
/// inserted after the path), the closing line spans the same bytes but for
/// the edit, and reads as the closing marker of the same path with the hash
/// in a present token.
pub proof fn lemma_recorded_hash_reads_back(kind: NodeKind, b: Seq<u8>, i: int, h: Seq<u8>)
    requires
        spec_parse(kind, b) is Ok,
        0 <= i < spec_parse(kind, b)->Ok_0.len(),
        h.len() == 8,
        spec_parse(kind, b)->Ok_0[i].baseline != Some(h),
        b.len() + 17 <= usize::MAX,
    ensures
        ({
            let f = spec_parse(kind, b)->Ok_0[i];
            let e = recording_edit(f, h);
            let ce2 = content_end(b, f.end) + e.text.len() - (e.end - e.start);
            &&& hash_edit(f, h).len() == 1
            &&& content_end(edited(b, e), f.end) == ce2
            &&& spec_marker(comment_of(kind), edited(b, e), f.end, ce2) == recorded_close(
                f.path,
                h,
                e.start + e.text.len() - 16,
            )
        }),
{
    let c = comment_of(kind);
    let frags = spec_parse(kind, b)->Ok_0;
    lemma_parsed_closings(c, b, 0, 1, Seq::empty(), None);
    let f = frags[i];
    assert(closes_at(c, b, f));
    let ce = content_end(b, f.end);
    lemma_content_end(b, f.end);
    lemma_recorded_close(c, b, f.end, ce, f, h);
    lemma_recording_edit_in_line(c, b, f.end, ce, f, h);
    let e = recording_edit(f, h);
    let b2 = edited(b, e);
    let ce2 = ce + e.text.len() - (e.end - e.start);
    lemma_edited_bytes(b, e);
    lemma_content_end_at(b, f.end, ce);
    assert forall|k: int| f.end <= k < ce2 implies #[trigger] b2[k] != CR && b2[k] != LF by {
        if k < e.start {
        } else if k < e.start + e.text.len() {
            assert(b2[e.start + (k - e.start)] == e.text[k - e.start]);
        } else {
            assert(b2[e.start + e.text.len() + (k - e.start - e.text.len())] == b[e.end + (k - e.start - e.text.len())]);
        }
    }
    if ce < b.len() {
        assert(b2[e.start + e.text.len() + (ce - e.end)] == b[e.end + (ce - e.end)]);
    }
    lemma_content_end_at(b2, f.end, ce2);
}

} // verus!
