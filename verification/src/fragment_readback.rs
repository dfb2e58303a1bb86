//! Marker structure as a sequence of frames, and what a rewrite reads back.
//!
//! A successful parse splits the source into lines without markers, and for
//! each fragment its opening line, content lines, and closing line.

use vstd::prelude::*;

use crate::adls::NodeKind;
use crate::fragment::{
    apply_edits, baseline_of, canonical_bytes, comment_of, content_end, edits_for, fragment_edits,
    hash_edit, is_hspace, lemma_content_end, lemma_line_advances, line_end, requested_index, skip_h,
    spec_marker, spec_parse, spec_parse_from, spec_rewrite, starts_with_bom, token_end, match_count,
    any_failing, is_failing, update_paths, first_duplicate, update_path,
    HashLocation, MarkerError, SpecEdit, SpecFragment, SpecMarker, SpecOpen, SpecParseError,
    SpecRewriteError, SpecUpdate, CR, LF,
};
use crate::fragment_laws::{
    edited, lemma_close_positions_bounds, lemma_content_end_at, lemma_edited_bytes,
    lemma_recorded_close, lemma_recording_edit_in_line, lemma_skip_h_at, lemma_skip_h_bound,
    lemma_token_end_at, lemma_token_end_bound, recorded_close, recording_edit,
};

verus! {

/// Where the physical line after the one starting at `p` starts.
pub open spec fn next_line(b: Seq<u8>, p: int) -> int {
    line_end(b, content_end(b, p))
}

/// The physical lines from `p` on hold no marker and end exactly at `q`.
#[verifier::opaque]
pub open spec fn unmarked(c: u8, b: Seq<u8>, p: int, q: int) -> bool
    decreases q - p,
{
    if p == q {
        true
    } else if p > q || p < 0 || p >= b.len() {
        false
    } else {
        proof {
            lemma_line_advances(b, p);
        }
        &&& spec_marker(c, b, p, content_end(b, p)) == Ok::<Option<SpecMarker>, MarkerError>(None)
        &&& next_line(b, p) <= q
        &&& unmarked(c, b, next_line(b, p), q)
    }
}

/// Unmarked lines pass through the parser unchanged but for line numbers.
proof fn lemma_skip_unmarked(
    c: u8,
    b: Seq<u8>,
    p: int,
    q: int,
    n: int,
    acc: Seq<SpecFragment>,
    open: Option<SpecOpen>,
) -> (m: int)
    requires
        unmarked(c, b, p, q),
    ensures
        spec_parse_from(c, b, p, n, acc, open) == spec_parse_from(c, b, q, m, acc, open),
    decreases q - p,
{
    reveal(unmarked);
    if p == q {
        n
    } else {
        lemma_line_advances(b, p);
        lemma_skip_unmarked(c, b, next_line(b, p), q, n + 1, acc, open)
    }
}

/// One fragment's lines: its opening line at `open_at`, content lines from
/// `start` to `end`, and closing line from `end` to `after`.
pub struct Frame {
    pub open_at: int,
    pub start: int,
    pub end: int,
    pub after: int,
}

/// Frame `i` holds fragment `f`, after the unmarked lines from `prev`.
pub open spec fn frame_holds(c: u8, b: Seq<u8>, prev: int, fr: Frame, f: SpecFragment) -> bool {
    &&& unmarked(c, b, prev, fr.open_at)
    &&& 0 <= fr.open_at < b.len()
    &&& spec_marker(c, b, fr.open_at, content_end(b, fr.open_at)) == Ok::<Option<SpecMarker>, MarkerError>(
        Some(SpecMarker::Open { path: f.path }),
    )
    &&& next_line(b, fr.open_at) == fr.start
    &&& fr.start == f.start
    &&& unmarked(c, b, fr.start, fr.end)
    &&& fr.end == f.end
    &&& 0 <= fr.end < b.len()
    &&& spec_marker(c, b, fr.end, content_end(b, fr.end)) == Ok::<Option<SpecMarker>, MarkerError>(
        Some(SpecMarker::Close { path: f.path, baseline: f.baseline, location: f.location }),
    )
    &&& next_line(b, fr.end) == fr.after
    &&& !starts_with_bom(b.subrange(fr.start, fr.end))
}

/// The start of the lines before frame `i`.
pub open spec fn frame_prev(frs: Seq<Frame>, from: int, i: int) -> int {
    if i == 0 {
        from
    } else {
        frs[i - 1].after
    }
}

/// The lines of `b` from `from` on are the frames of `fs`, then unmarked
/// lines to the end.
#[verifier::opaque]
pub open spec fn frames_of(c: u8, b: Seq<u8>, from: int, fs: Seq<SpecFragment>, frs: Seq<Frame>) -> bool {
    &&& frs.len() == fs.len()
    &&& forall|i: int| 0 <= i < fs.len() ==> frame_holds(c, b, frame_prev(frs, from, i), #[trigger] frs[i], fs[i])
    &&& unmarked(c, b, frame_prev(frs, from, fs.len() as int), b.len() as int)
}

/// An opening marker line opens a fragment whose content starts on the next
/// line.
proof fn lemma_open_step(c: u8, b: Seq<u8>, p: int, n: int, acc: Seq<SpecFragment>, path: Seq<u8>)
    requires
        0 <= p < b.len(),
        spec_marker(c, b, p, content_end(b, p)) == Ok::<Option<SpecMarker>, MarkerError>(
            Some(SpecMarker::Open { path }),
        ),
    ensures
        spec_parse_from(c, b, p, n, acc, None) == spec_parse_from(
            c,
            b,
            next_line(b, p),
            n + 1,
            acc,
            Some(SpecOpen { path, line: n, start: next_line(b, p) }),
        ),
{
    lemma_line_advances(b, p);
}

/// A closing marker line for the open fragment, with content not starting
/// with a byte-order mark, closes it.
proof fn lemma_close_step(c: u8, b: Seq<u8>, p: int, n: int, acc: Seq<SpecFragment>, o: SpecOpen, f: SpecFragment)
    requires
        0 <= p < b.len(),
        spec_marker(c, b, p, content_end(b, p)) == Ok::<Option<SpecMarker>, MarkerError>(
            Some(SpecMarker::Close { path: f.path, baseline: f.baseline, location: f.location }),
        ),
        o.path == f.path,
        o.start == f.start,
        p == f.end,
        !starts_with_bom(b.subrange(o.start, p)),
    ensures
        spec_parse_from(c, b, p, n, acc, Some(o)) == spec_parse_from(c, b, next_line(b, p), n + 1, acc.push(f), None),
{
    lemma_line_advances(b, p);
    assert(f == SpecFragment { path: f.path, baseline: f.baseline, start: o.start, end: p, location: f.location });
}

/// The lines of one frame parse to its fragment.
proof fn lemma_frame_step(c: u8, b: Seq<u8>, prev: int, fr: Frame, f: SpecFragment, n: int, acc: Seq<SpecFragment>) -> (m: int)
    requires
        frame_holds(c, b, prev, fr, f),
    ensures
        spec_parse_from(c, b, prev, n, acc, None) == spec_parse_from(c, b, fr.after, m, acc.push(f), None),
{
    let m1 = lemma_skip_unmarked(c, b, prev, fr.open_at, n, acc, None);
    lemma_open_step(c, b, fr.open_at, m1, acc, f.path);
    let o = SpecOpen { path: f.path, line: m1, start: fr.start };
    let m2 = lemma_skip_unmarked(c, b, fr.start, fr.end, m1 + 1, acc, Some(o));
    lemma_close_step(c, b, fr.end, m2, acc, o, f);
    m2 + 1
}

proof fn lemma_frame_at(c: u8, b: Seq<u8>, from: int, fs: Seq<SpecFragment>, frs: Seq<Frame>, k: int)
    requires
        frames_of(c, b, from, fs, frs),
        0 <= k < fs.len(),
    ensures
        frame_holds(c, b, frame_prev(frs, from, k), frs[k], fs[k]),
        frame_prev(frs, from, k + 1) == frs[k].after,
{
    reveal(frames_of);
}

proof fn lemma_frames_tail(c: u8, b: Seq<u8>, from: int, fs: Seq<SpecFragment>, frs: Seq<Frame>)
    requires
        frames_of(c, b, from, fs, frs),
    ensures
        unmarked(c, b, frame_prev(frs, from, fs.len() as int), b.len() as int),
{
    reveal(frames_of);
}

/// Lines laid out as frames parse to the frames' fragments.
proof fn lemma_frames_parse(
    c: u8,
    b: Seq<u8>,
    from: int,
    fs: Seq<SpecFragment>,
    frs: Seq<Frame>,
    k: int,
    n: int,
    acc: Seq<SpecFragment>,
)
    requires
        frames_of(c, b, from, fs, frs),
        0 <= k <= fs.len(),
    ensures
        spec_parse_from(c, b, frame_prev(frs, from, k), n, acc, None) == Ok::<
            Seq<SpecFragment>,
            SpecParseError,
        >(acc + fs.subrange(k, fs.len() as int)),
    decreases fs.len() - k,
{
    if k == fs.len() {
        lemma_frames_tail(c, b, from, fs, frs);
        let m = lemma_skip_unmarked(c, b, frame_prev(frs, from, k), b.len() as int, n, acc, None);
        assert(acc + fs.subrange(k, fs.len() as int) =~= acc);
    } else {
        lemma_frame_at(c, b, from, fs, frs, k);
        let m = lemma_frame_step(c, b, frame_prev(frs, from, k), frs[k], fs[k], n, acc);
        lemma_frames_parse(c, b, from, fs, frs, k + 1, m, acc.push(fs[k]));
        assert(acc.push(fs[k]) + fs.subrange(k + 1, fs.len() as int) =~= acc + fs.subrange(k, fs.len() as int));
    }
}

proof fn lemma_unmarked_step(c: u8, b: Seq<u8>, p: int, q: int)
    requires
        0 <= p < b.len(),
        spec_marker(c, b, p, content_end(b, p)) == Ok::<Option<SpecMarker>, MarkerError>(None),
        next_line(b, p) <= q,
        unmarked(c, b, next_line(b, p), q),
    ensures
        unmarked(c, b, p, q),
{
    reveal(unmarked);
    lemma_line_advances(b, p);
}

proof fn lemma_unmarked_empty(c: u8, b: Seq<u8>, p: int)
    ensures
        unmarked(c, b, p, p),
{
    reveal(unmarked);
}

/// Parsing with no fragment open finds the next opening marker after
/// unmarked lines, or only unmarked lines to the end.
proof fn lemma_scan_open(c: u8, b: Seq<u8>, p: int, n: int, acc: Seq<SpecFragment>, fs: Seq<SpecFragment>) -> (r: (int, int, Seq<u8>))
    requires
        0 <= p <= b.len(),
        spec_parse_from(c, b, p, n, acc, None) == Ok::<Seq<SpecFragment>, SpecParseError>(fs),
    ensures
        r.0 == -1 ==> unmarked(c, b, p, b.len() as int) && fs == acc,
        r.0 != -1 ==> {
            &&& p <= r.0 < b.len()
            &&& unmarked(c, b, p, r.0)
            &&& spec_marker(c, b, r.0, content_end(b, r.0)) == Ok::<Option<SpecMarker>, MarkerError>(
                Some(SpecMarker::Open { path: r.2 }),
            )
            &&& spec_parse_from(
                c,
                b,
                next_line(b, r.0),
                r.1 + 1,
                acc,
                Some(SpecOpen { path: r.2, line: r.1, start: next_line(b, r.0) }),
            ) == Ok::<Seq<SpecFragment>, SpecParseError>(fs)
        },
    decreases b.len() - p,
{
    if p == b.len() {
        lemma_unmarked_empty(c, b, p);
        (-1, n, Seq::empty())
    } else {
        lemma_line_advances(b, p);
        lemma_content_end(b, p);
        let ce = content_end(b, p);
        match spec_marker(c, b, p, ce) {
            Ok(None) => {
                let r = lemma_scan_open(c, b, next_line(b, p), n + 1, acc, fs);
                if r.0 == -1 {
                    lemma_unmarked_step(c, b, p, b.len() as int);
                } else {
                    lemma_unmarked_step(c, b, p, r.0);
                }
                r
            },
            Ok(Some(SpecMarker::Open { path })) => {
                lemma_unmarked_empty(c, b, p);
                (p, n, path)
            },
            _ => {
                assert(false);
                (-1, n, Seq::empty())
            },
        }
    }
}

/// Parsing with a fragment open finds its closing marker after unmarked
/// content lines.
proof fn lemma_scan_close(
    c: u8,
    b: Seq<u8>,
    p: int,
    n: int,
    acc: Seq<SpecFragment>,
    o: SpecOpen,
    fs: Seq<SpecFragment>,
) -> (r: (int, int, SpecFragment))
    requires
        0 <= p <= b.len(),
        o.start <= p,
        spec_parse_from(c, b, p, n, acc, Some(o)) == Ok::<Seq<SpecFragment>, SpecParseError>(fs),
    ensures
        p <= r.0 < b.len(),
        unmarked(c, b, p, r.0),
        r.2.path == o.path,
        r.2.start == o.start,
        r.2.end == r.0,
        spec_marker(c, b, r.0, content_end(b, r.0)) == Ok::<Option<SpecMarker>, MarkerError>(
            Some(SpecMarker::Close { path: r.2.path, baseline: r.2.baseline, location: r.2.location }),
        ),
        !starts_with_bom(b.subrange(o.start, r.0)),
        spec_parse_from(c, b, next_line(b, r.0), r.1 + 1, acc.push(r.2), None) == Ok::<
            Seq<SpecFragment>,
            SpecParseError,
        >(fs),
    decreases b.len() - p,
{
    if p == b.len() {
        assert(false);
        (p, n, SpecFragment { path: o.path, baseline: None, start: o.start, end: p, location: crate::fragment::HashLocation::Missing { insertion: 0 } })
    } else {
        lemma_line_advances(b, p);
        lemma_content_end(b, p);
        let ce = content_end(b, p);
        match spec_marker(c, b, p, ce) {
            Ok(None) => {
                let r = lemma_scan_close(c, b, next_line(b, p), n + 1, acc, o, fs);
                lemma_unmarked_step(c, b, p, r.0);
                r
            },
            Ok(Some(SpecMarker::Close { path, baseline, location })) => {
                lemma_unmarked_empty(c, b, p);
                let f = SpecFragment { path, baseline, start: o.start, end: p, location };
                (p, n, f)
            },
            _ => {
                assert(false);
                (p, n, SpecFragment { path: o.path, baseline: None, start: o.start, end: p, location: crate::fragment::HashLocation::Missing { insertion: 0 } })
            },
        }
    }
}

proof fn lemma_frames_cons(c: u8, b: Seq<u8>, p: int, fr: Frame, f: SpecFragment, fs: Seq<SpecFragment>, frs: Seq<Frame>)
    requires
        frame_holds(c, b, p, fr, f),
        frames_of(c, b, fr.after, fs, frs),
    ensures
        frames_of(c, b, p, seq![f] + fs, seq![fr] + frs),
{
    reveal(frames_of);
    let all_f = seq![f] + fs;
    let all_r = seq![fr] + frs;
    assert forall|i: int| 0 <= i < all_f.len() implies frame_holds(c, b, frame_prev(all_r, p, i), #[trigger] all_r[i], all_f[i]) by {
        if i > 0 {
            assert(all_r[i] == frs[i - 1]);
            assert(all_f[i] == fs[i - 1]);
            assert(frame_prev(all_r, p, i) == frame_prev(frs, fr.after, i - 1));
        }
    }
    assert(frame_prev(all_r, p, all_f.len() as int) == frame_prev(frs, fr.after, fs.len() as int));
}

/// A successful parse lays the source out as frames of its fragments.
proof fn lemma_parse_frames(c: u8, b: Seq<u8>, p: int, n: int, acc: Seq<SpecFragment>, fs: Seq<SpecFragment>) -> (frs: Seq<Frame>)
    requires
        0 <= p <= b.len(),
        spec_parse_from(c, b, p, n, acc, None) == Ok::<Seq<SpecFragment>, SpecParseError>(fs),
    ensures
        acc.len() <= fs.len(),
        fs.subrange(0, acc.len() as int) == acc,
        frames_of(c, b, p, fs.subrange(acc.len() as int, fs.len() as int), frs),
    decreases b.len() - p,
{
    let r = lemma_scan_open(c, b, p, n, acc, fs);
    if r.0 == -1 {
        reveal(frames_of);
        assert(fs.subrange(acc.len() as int, fs.len() as int) =~= Seq::<SpecFragment>::empty());
        assert(fs.subrange(0, acc.len() as int) =~= acc);
        Seq::empty()
    } else {
        let oa = r.0;
        let start = next_line(b, oa);
        lemma_line_advances(b, oa);
        let o = SpecOpen { path: r.2, line: r.1, start };
        let q = lemma_scan_close(c, b, start, r.1 + 1, acc, o, fs);
        let f = q.2;
        let end = q.0;
        lemma_line_advances(b, end);
        let fr = Frame { open_at: oa, start, end, after: next_line(b, end) };
        let rest = lemma_parse_frames(c, b, fr.after, q.1 + 1, acc.push(f), fs);
        assert(frame_holds(c, b, p, fr, f));
        let tail = fs.subrange(acc.len() as int + 1, fs.len() as int);
        lemma_frames_cons(c, b, p, fr, f, tail, rest);
        assert(fs.subrange(0, acc.len() as int) =~= acc) by {
            assert(fs.subrange(0, acc.len() as int) =~= fs.subrange(0, acc.len() as int + 1).subrange(0, acc.len() as int));
        }
        assert(fs[acc.len() as int] == f) by {
            assert(fs.subrange(0, acc.len() as int + 1)[acc.len() as int] == acc.push(f)[acc.len() as int]);
        }
        assert(seq![f] + tail =~= fs.subrange(acc.len() as int, fs.len() as int));
        seq![fr] + rest
    }
}

// ---------------------------------------------------------------------------
// The grammar reads only the line's own bytes
// ---------------------------------------------------------------------------

/// The bytes `b[x..lim)` appear in `b2` shifted by `d`.
pub open spec fn same_bytes(b: Seq<u8>, x: int, lim: int, b2: Seq<u8>, d: int) -> bool {
    forall|k: int| x <= k < lim ==> #[trigger] b2[k + d] == b[k]
}

proof fn lemma_skip_h_shift(b: Seq<u8>, b2: Seq<u8>, x: int, lim: int, d: int)
    requires
        0 <= x <= lim <= b.len(),
        0 <= x + d,
        lim + d <= b2.len(),
        same_bytes(b, x, lim, b2, d),
    ensures
        skip_h(b2, x + d, lim + d) == skip_h(b, x, lim) + d,
{
    lemma_skip_h_bound(b, x, lim);
    let r = skip_h(b, x, lim);
    lemma_skip_h_at(b, x, lim, r);
    assert forall|k: int| x + d <= k < r + d implies is_hspace(#[trigger] b2[k]) by {
        assert(b2[(k - d) + d] == b[k - d]);
    }
    if r < lim {
        assert(b2[r + d] == b[r]);
    }
    lemma_skip_h_at(b2, x + d, lim + d, r + d);
}

proof fn lemma_token_end_shift(b: Seq<u8>, b2: Seq<u8>, x: int, lim: int, d: int)
    requires
        0 <= x <= lim <= b.len(),
        0 <= x + d,
        lim + d <= b2.len(),
        same_bytes(b, x, lim, b2, d),
    ensures
        token_end(b2, x + d, lim + d) == token_end(b, x, lim) + d,
{
    lemma_token_end_bound(b, x, lim);
    let r = token_end(b, x, lim);
    lemma_token_end_at(b, x, lim, r);
    assert forall|k: int| x + d <= k < r + d implies !is_hspace(#[trigger] b2[k]) by {
        assert(b2[(k - d) + d] == b[k - d]);
    }
    if r < lim {
        assert(b2[r + d] == b[r]);
    }
    lemma_token_end_at(b2, x + d, lim + d, r + d);
}

/// A hash location moved by `d`.
pub open spec fn location_shift(l: HashLocation, d: int) -> HashLocation {
    match l {
        HashLocation::Present { start, end } => HashLocation::Present {
            start: (start + d) as usize,
            end: (end + d) as usize,
        },
        HashLocation::Missing { insertion } => HashLocation::Missing { insertion: (insertion + d) as usize },
    }
}

/// A marker reading moved by `d`.
pub open spec fn marker_shift(r: Result<Option<SpecMarker>, MarkerError>, d: int) -> Result<Option<SpecMarker>, MarkerError> {
    match r {
        Ok(Some(SpecMarker::Close { path, baseline, location })) => Ok(
            Some(SpecMarker::Close { path, baseline, location: location_shift(location, d) }),
        ),
        _ => r,
    }
}

/// The marker grammar reads a line the same wherever its bytes stand: only
/// the hash location moves with the line.
#[verifier::spinoff_prover]
#[verifier::rlimit(40)]
proof fn lemma_marker_shift(c: u8, b: Seq<u8>, p: int, ce: int, b2: Seq<u8>, d: int)
    requires
        0 <= p <= ce <= b.len(),
        0 <= p + d,
        ce + d <= b2.len(),
        same_bytes(b, p, ce, b2, d),
        b.len() <= usize::MAX,
        b2.len() <= usize::MAX,
    ensures
        spec_marker(c, b2, p + d, ce + d) == marker_shift(spec_marker(c, b, p, ce), d),
{
    let ce2 = ce + d;
    lemma_skip_h_shift(b, b2, p, ce, d);
    let p0 = skip_h(b, p, ce);
    lemma_skip_h_bound(b, p, ce);
    if p0 + 2 <= ce {
        assert(b2[p0 + d] == b[p0] && b2[p0 + 1 + d] == b[p0 + 1]);
        let p1 = p0 + 2;
        lemma_skip_h_shift(b, b2, p1, ce, d);
        let p2 = skip_h(b, p1, ce);
        lemma_skip_h_bound(b, p1, ce);
        lemma_token_end_shift(b, b2, p2, ce, d);
        let p3 = token_end(b, p2, ce);
        lemma_token_end_bound(b, p2, ce);
        assert(b2.subrange(p2 + d, p3 + d) =~= b.subrange(p2, p3)) by {
            assert forall|k: int| 0 <= k < p3 - p2 implies b2.subrange(p2 + d, p3 + d)[k] == b.subrange(p2, p3)[k] by {
                assert(b2[(p2 + k) + d] == b[p2 + k]);
            }
        }
        lemma_skip_h_shift(b, b2, p3, ce, d);
        let p4 = skip_h(b, p3, ce);
        lemma_skip_h_bound(b, p3, ce);
        lemma_token_end_shift(b, b2, p4, ce, d);
        let p5 = token_end(b, p4, ce);
        lemma_token_end_bound(b, p4, ce);
        assert(b2.subrange(p4 + d, p5 + d) =~= b.subrange(p4, p5)) by {
            assert forall|k: int| 0 <= k < p5 - p4 implies b2.subrange(p4 + d, p5 + d)[k] == b.subrange(p4, p5)[k] by {
                assert(b2[(p4 + k) + d] == b[p4 + k]);
            }
        }
        lemma_skip_h_shift(b, b2, p5, ce, d);
        let p6 = skip_h(b, p5, ce);
        lemma_skip_h_bound(b, p5, ce);
        lemma_token_end_shift(b, b2, p6, ce, d);
        let p7 = token_end(b, p6, ce);
        lemma_token_end_bound(b, p6, ce);
        assert(b2.subrange(p6 + d, p7 + d) =~= b.subrange(p6, p7)) by {
            assert forall|k: int| 0 <= k < p7 - p6 implies b2.subrange(p6 + d, p7 + d)[k] == b.subrange(p6, p7)[k] by {
                assert(b2[(p6 + k) + d] == b[p6 + k]);
            }
        }
        lemma_skip_h_shift(b, b2, p7, ce, d);
    }
}

/// A line's end does not depend on what follows it: it ends with `LF`, or
/// the byte after it in `b2` matches, or both buffers end there.
pub open spec fn end_kept(b: Seq<u8>, p: int, q: int, b2: Seq<u8>, d: int) -> bool {
    ||| (q < b.len() && q + d < b2.len() && (b2[q + d] == LF ==> b[q] == LF))
    ||| (q == b.len() && q + d == b2.len())
    ||| (p < q && b[q - 1] == LF)
}

/// A line whose bytes, and whatever its end depends on, stand shifted in
/// `b2` reads the same there.
proof fn lemma_line_shift(c: u8, b: Seq<u8>, p: int, q: int, b2: Seq<u8>, d: int)
    requires
        0 <= p < b.len(),
        next_line(b, p) <= q <= b.len(),
        0 <= p + d,
        q + d <= b2.len(),
        same_bytes(b, p, q, b2, d),
        next_line(b, p) == q ==> end_kept(b, p, q, b2, d),
        b.len() <= usize::MAX,
        b2.len() <= usize::MAX,
    ensures
        content_end(b2, p + d) == content_end(b, p) + d,
        next_line(b2, p + d) == next_line(b, p) + d,
        spec_marker(c, b2, p + d, content_end(b2, p + d)) == marker_shift(spec_marker(c, b, p, content_end(b, p)), d),
{
    let ce = content_end(b, p);
    let e = next_line(b, p);
    lemma_content_end(b, p);
    lemma_line_advances(b, p);
    lemma_content_end_at(b, p, ce);
    assert forall|k: int| p + d <= k < ce + d implies #[trigger] b2[k] != CR && b2[k] != LF by {
        assert(b2[(k - d) + d] == b[k - d]);
    }
    if ce < b.len() {
        assert(b2[ce + d] == b[ce]);
    } else {
        assert(e == ce);
        if p < q && b[q - 1] == LF {
            assert(b[ce - 1] != LF);
        }
    }
    lemma_content_end_at(b2, p + d, ce + d);
    if ce < b.len() && b[ce] == CR {
        if ce + 1 < b.len() && b[ce + 1] == LF {
            assert(b2[ce + 1 + d] == b[ce + 1]);
        } else if ce + 1 < q {
            assert(b2[ce + 1 + d] == b[ce + 1]);
        } else {
            assert(e == q);
            if p < q && b[q - 1] == LF {
                assert(b[q - 1] == b[ce]);
            }
        }
    }
    lemma_marker_shift(c, b, p, ce, b2, d);
}

/// Unmarked lines stay unmarked wherever their bytes stand.
proof fn lemma_unmarked_shift(c: u8, b: Seq<u8>, p: int, q: int, b2: Seq<u8>, d: int)
    requires
        unmarked(c, b, p, q),
        0 <= p + d,
        q <= b.len(),
        q + d <= b2.len(),
        same_bytes(b, p, q, b2, d),
        end_kept(b, p, q, b2, d),
        b.len() <= usize::MAX,
        b2.len() <= usize::MAX,
    ensures
        unmarked(c, b2, p + d, q + d),
    decreases q - p,
{
    reveal(unmarked);
    if p < q {
        assert(0 <= p < b.len());
        lemma_line_advances(b, p);
        let e = next_line(b, p);
        assert(e <= q && unmarked(c, b, e, q));
        lemma_line_shift(c, b, p, q, b2, d);
        assert(same_bytes(b, e, q, b2, d));
        if e < q {
            assert(end_kept(b, e, q, b2, d));
            lemma_unmarked_shift(c, b, e, q, b2, d);
        } else {
            lemma_unmarked_empty(c, b2, q + d);
        }
        lemma_unmarked_step(c, b2, p + d, q + d);
    } else {
        lemma_unmarked_empty(c, b2, q + d);
    }
}

// ---------------------------------------------------------------------------
// The rewritten source, fragment by fragment
// ---------------------------------------------------------------------------

/// The update a batch asks of fragment `f`, if any.
pub open spec fn update_of(us: Seq<SpecUpdate>, f: SpecFragment) -> Option<SpecUpdate> {
    let k = requested_index(us, f.path);
    if k < us.len() {
        Some(us[k])
    } else {
        None
    }
}

/// The edits a batch makes to fragment `f`.
pub open spec fn edits_of(b: Seq<u8>, us: Seq<SpecUpdate>, f: SpecFragment) -> Seq<SpecEdit> {
    match update_of(us, f) {
        Some(u) => fragment_edits(b, f, u),
        None => Seq::empty(),
    }
}

/// The edits of fragments `i` onward, in order.
pub open spec fn edits_after(b: Seq<u8>, fs: Seq<SpecFragment>, us: Seq<SpecUpdate>, i: int) -> Seq<SpecEdit>
    decreases fs.len() - i,
{
    if i < 0 || i >= fs.len() {
        Seq::empty()
    } else {
        edits_of(b, us, fs[i]) + edits_after(b, fs, us, i + 1)
    }
}

proof fn lemma_edits_for_split(b: Seq<u8>, fs: Seq<SpecFragment>, us: Seq<SpecUpdate>, n: int)
    requires
        0 <= n <= fs.len(),
    ensures
        edits_for(b, fs.subrange(0, n), us) + edits_after(b, fs, us, n) == edits_after(b, fs, us, 0),
    decreases n,
{
    if n == 0 {
        assert(edits_for(b, fs.subrange(0, 0), us) =~= Seq::<SpecEdit>::empty());
        assert(Seq::<SpecEdit>::empty() + edits_after(b, fs, us, 0) =~= edits_after(b, fs, us, 0));
    } else {
        lemma_edits_for_split(b, fs, us, n - 1);
        let pre = fs.subrange(0, n);
        assert(pre.drop_last() =~= fs.subrange(0, n - 1));
        assert(pre.last() == fs[n - 1]);
        assert(edits_for(b, pre, us) == edits_for(b, fs.subrange(0, n - 1), us) + edits_of(b, us, fs[n - 1]));
        assert(edits_after(b, fs, us, n - 1) == edits_of(b, us, fs[n - 1]) + edits_after(b, fs, us, n));
        assert(edits_for(b, pre, us) + edits_after(b, fs, us, n) =~= edits_for(b, fs.subrange(0, n - 1), us)
            + edits_after(b, fs, us, n - 1));
    }
}

/// A batch's edits, taken fragment by fragment.
proof fn lemma_edits_for_fragments(b: Seq<u8>, fs: Seq<SpecFragment>, us: Seq<SpecUpdate>)
    ensures
        edits_for(b, fs, us) == edits_after(b, fs, us, 0),
{
    lemma_edits_for_split(b, fs, us, fs.len() as int);
    assert(fs.subrange(0, fs.len() as int) =~= fs);
    assert(edits_after(b, fs, us, fs.len() as int) =~= Seq::<SpecEdit>::empty());
    assert(edits_for(b, fs, us) + Seq::<SpecEdit>::empty() =~= edits_for(b, fs, us));
}

/// The content fragment `f` holds after its update.
pub open spec fn new_content(b: Seq<u8>, us: Seq<SpecUpdate>, f: SpecFragment) -> Seq<u8> {
    match update_of(us, f) {
        Some(SpecUpdate::Replace { source, .. }) => source,
        _ => b.subrange(f.start, f.end),
    }
}

/// The baseline fragment `f` records under update `u`.
pub open spec fn recorded_baseline(b: Seq<u8>, f: SpecFragment, u: SpecUpdate) -> Seq<u8> {
    match u {
        SpecUpdate::Record { .. } => baseline_of(canonical_bytes(b.subrange(f.start, f.end))),
        SpecUpdate::Replace { source, .. } => baseline_of(source),
    }
}

/// The hash edits of fragment `f` under its update.
pub open spec fn hash_edits_of(b: Seq<u8>, us: Seq<SpecUpdate>, f: SpecFragment) -> Seq<SpecEdit> {
    match update_of(us, f) {
        Some(u) => hash_edit(f, recorded_baseline(b, f, u)),
        None => Seq::empty(),
    }
}

/// Fragment `f`'s closing line `[f.end, after)` after its hash edit.
pub open spec fn new_closing(b: Seq<u8>, us: Seq<SpecUpdate>, f: SpecFragment, after: int) -> Seq<u8> {
    let hs = hash_edits_of(b, us, f);
    if hs.len() == 0 {
        b.subrange(f.end, after)
    } else {
        b.subrange(f.end, hs[0].start) + hs[0].text + b.subrange(hs[0].end, after)
    }
}

/// The rewritten source from frame `i` on.
pub open spec fn rebuilt_from(b: Seq<u8>, fs: Seq<SpecFragment>, frs: Seq<Frame>, us: Seq<SpecUpdate>, i: int) -> Seq<u8>
    decreases fs.len() - i,
{
    if i >= fs.len() {
        b.subrange(frame_prev(frs, 0, i), b.len() as int)
    } else {
        b.subrange(frame_prev(frs, 0, i), fs[i].start) + new_content(b, us, fs[i]) + new_closing(
            b,
            us,
            fs[i],
            frs[i].after,
        ) + rebuilt_from(b, fs, frs, us, i + 1)
    }
}

proof fn lemma_apply_one(b: Seq<u8>, e: SpecEdit, rest: Seq<SpecEdit>, cur: int)
    ensures
        apply_edits(b, seq![e] + rest, cur) == b.subrange(cur, e.start) + e.text + apply_edits(b, rest, e.end),
{
    assert((seq![e] + rest).drop_first() =~= rest);
    assert((seq![e] + rest)[0] == e);
}

proof fn lemma_apply_skip(b: Seq<u8>, rest: Seq<SpecEdit>, c1: int, c2: int)
    requires
        0 <= c1 <= c2 <= b.len(),
        rest.len() > 0 ==> c2 <= rest[0].start,
        rest.len() > 0 ==> rest[0].start <= b.len(),
    ensures
        apply_edits(b, rest, c1) == b.subrange(c1, c2) + apply_edits(b, rest, c2),
{
    if rest.len() == 0 {
        assert(b.subrange(c1, b.len() as int) =~= b.subrange(c1, c2) + b.subrange(c2, b.len() as int));
    } else {
        let s0 = rest[0].start;
        assert(b.subrange(c1, s0) =~= b.subrange(c1, c2) + b.subrange(c2, s0));
        assert(b.subrange(c1, s0) + rest[0].text + apply_edits(b, rest.drop_first(), rest[0].end) =~= b.subrange(c1, c2)
            + (b.subrange(c2, s0) + rest[0].text + apply_edits(b, rest.drop_first(), rest[0].end)));
    }
}

proof fn lemma_unmarked_order(c: u8, b: Seq<u8>, p: int, q: int)
    requires
        unmarked(c, b, p, q),
    ensures
        p <= q,
        q <= b.len() || p == q,
        0 <= p || p == q,
    decreases q - p,
{
    reveal(unmarked);
    if p != q {
        lemma_line_advances(b, p);
        lemma_unmarked_order(c, b, next_line(b, p), q);
    }
}

/// Frame `i` of a parsed source lies after the lines before it, in order.
proof fn lemma_frame_positions(c: u8, b: Seq<u8>, fs: Seq<SpecFragment>, frs: Seq<Frame>, i: int)
    requires
        frames_of(c, b, 0, fs, frs),
        0 <= i < fs.len(),
    ensures
        0 <= frame_prev(frs, 0, i) <= frs[i].open_at < fs[i].start <= fs[i].end,
        fs[i].end <= content_end(b, fs[i].end) <= frs[i].after,
        fs[i].end < frs[i].after <= b.len(),
        frame_prev(frs, 0, i + 1) == frs[i].after,
    decreases i,
{
    lemma_frame_at(c, b, 0, fs, frs, i);
    let fr = frs[i];
    lemma_unmarked_order(c, b, frame_prev(frs, 0, i), fr.open_at);
    lemma_line_advances(b, fr.open_at);
    lemma_unmarked_order(c, b, fr.start, fr.end);
    lemma_line_advances(b, fr.end);
    lemma_content_end(b, fr.end);
    if i > 0 {
        lemma_frame_positions(c, b, fs, frs, i - 1);
    }
}

/// The content edit of fragment `f` under its update, if any.
pub open spec fn content_edits_of(b: Seq<u8>, us: Seq<SpecUpdate>, f: SpecFragment) -> Seq<SpecEdit> {
    match update_of(us, f) {
        Some(SpecUpdate::Replace { source, .. }) => if b.subrange(f.start, f.end) != source {
            seq![SpecEdit { start: f.start, end: f.end, text: source }]
        } else {
            Seq::empty()
        },
        _ => Seq::empty(),
    }
}

proof fn lemma_edits_of_parts(b: Seq<u8>, us: Seq<SpecUpdate>, f: SpecFragment)
    ensures
        edits_of(b, us, f) == content_edits_of(b, us, f) + hash_edits_of(b, us, f),
{
    match update_of(us, f) {
        Some(SpecUpdate::Record { .. }) => {
            assert(Seq::<SpecEdit>::empty() + hash_edits_of(b, us, f) =~= hash_edits_of(b, us, f));
        },
        Some(SpecUpdate::Replace { .. }) => {},
        None => {
            assert(Seq::<SpecEdit>::empty() + Seq::<SpecEdit>::empty() =~= Seq::<SpecEdit>::empty());
        },
    }
}

/// Fragment `i`'s hash edit, if any, lies within its closing line.
proof fn lemma_hash_edit_placed(c: u8, b: Seq<u8>, fs: Seq<SpecFragment>, frs: Seq<Frame>, us: Seq<SpecUpdate>, i: int)
    requires
        frames_of(c, b, 0, fs, frs),
        0 <= i < fs.len(),
        b.len() + 17 <= usize::MAX,
    ensures
        hash_edits_of(b, us, fs[i]).len() <= 1,
        hash_edits_of(b, us, fs[i]).len() == 1 ==> {
            let e = hash_edits_of(b, us, fs[i])[0];
            let u = update_of(us, fs[i]).unwrap();
            &&& update_of(us, fs[i]) is Some
            &&& fs[i].baseline != Some(recorded_baseline(b, fs[i], u))
            &&& e == recording_edit(fs[i], recorded_baseline(b, fs[i], u))
            &&& fs[i].end + 2 <= e.start <= e.end <= content_end(b, fs[i].end)
        },
{
    lemma_frame_at(c, b, 0, fs, frs, i);
    lemma_frame_positions(c, b, fs, frs, i);
    let f = fs[i];
    if update_of(us, f) is Some {
        let u = update_of(us, f).unwrap();
        let h = recorded_baseline(b, f, u);
        assert(h.len() == 8);
        if f.baseline != Some(h) {
            lemma_content_end(b, f.end);
            lemma_recording_edit_in_line(c, b, f.end, content_end(b, f.end), f, h);
        }
    }
}

/// Every edit from fragment `i` on starts at or after the lines before
/// frame `i`, and lies in the source.
proof fn lemma_edits_after_start(c: u8, b: Seq<u8>, fs: Seq<SpecFragment>, frs: Seq<Frame>, us: Seq<SpecUpdate>, i: int)
    requires
        frames_of(c, b, 0, fs, frs),
        0 <= i <= fs.len(),
        b.len() + 17 <= usize::MAX,
    ensures
        forall|k: int|
            0 <= k < edits_after(b, fs, us, i).len() ==> frame_prev(frs, 0, i) <= (#[trigger] edits_after(b, fs, us, i)[k]).start
                && edits_after(b, fs, us, i)[k].start <= edits_after(b, fs, us, i)[k].end <= b.len(),
    decreases fs.len() - i,
{
    if i < fs.len() {
        lemma_edits_after_start(c, b, fs, frs, us, i + 1);
        lemma_frame_positions(c, b, fs, frs, i);
        lemma_hash_edit_placed(c, b, fs, frs, us, i);
        lemma_edits_of_parts(b, us, fs[i]);
        let own = edits_of(b, us, fs[i]);
        let rest = edits_after(b, fs, us, i + 1);
        let all = edits_after(b, fs, us, i);
        assert(all == own + rest);
        let ce = content_edits_of(b, us, fs[i]);
        let he = hash_edits_of(b, us, fs[i]);
        assert forall|k: int| 0 <= k < all.len() implies frame_prev(frs, 0, i) <= (#[trigger] all[k]).start
            && all[k].start <= all[k].end <= b.len() by {
            if k < own.len() {
                if k < ce.len() {
                    assert(own[k] == ce[k]);
                } else {
                    assert(own[k] == he[k - ce.len()]);
                }
            } else {
                assert(all[k] == rest[k - own.len()]);
            }
        }
    } else {
        assert(edits_after(b, fs, us, i).len() == 0);
    }
}

/// Applying a batch's edits gives the rewritten source, fragment by
/// fragment.
#[verifier::spinoff_prover]
#[verifier::rlimit(40)]
proof fn lemma_apply_rebuilt(c: u8, b: Seq<u8>, fs: Seq<SpecFragment>, frs: Seq<Frame>, us: Seq<SpecUpdate>, i: int)
    requires
        frames_of(c, b, 0, fs, frs),
        0 <= i <= fs.len(),
        b.len() + 17 <= usize::MAX,
    ensures
        apply_edits(b, edits_after(b, fs, us, i), frame_prev(frs, 0, i)) == rebuilt_from(b, fs, frs, us, i),
    decreases fs.len() - i,
{
    if i == fs.len() {
        assert(edits_after(b, fs, us, i).len() == 0);
    } else {
        lemma_apply_rebuilt(c, b, fs, frs, us, i + 1);
        lemma_frame_positions(c, b, fs, frs, i);
        lemma_hash_edit_placed(c, b, fs, frs, us, i);
        lemma_edits_of_parts(b, us, fs[i]);
        lemma_edits_after_start(c, b, fs, frs, us, i + 1);
        let prev = frame_prev(frs, 0, i);
        let f = fs[i];
        let after = frs[i].after;
        let rest = edits_after(b, fs, us, i + 1);
        let tail = apply_edits(b, rest, after);
        let ce = content_edits_of(b, us, f);
        let he = hash_edits_of(b, us, f);
        let all = edits_after(b, fs, us, i);
        assert(all == ce + he + rest);
        assert(rebuilt_from(b, fs, frs, us, i + 1) == tail);
        if rest.len() > 0 {
            assert(after <= rest[0].start);
        }
        let closing = new_closing(b, us, f, after);
        let content = new_content(b, us, f);
        assert(rebuilt_from(b, fs, frs, us, i) == b.subrange(prev, f.start) + content + closing + tail);
        if he.len() == 0 {
            assert(closing == b.subrange(f.end, after));
            if ce.len() == 0 {
                assert(content == b.subrange(f.start, f.end));
                assert(all =~= rest);
                lemma_apply_skip(b, rest, prev, after);
                assert(b.subrange(prev, after) =~= b.subrange(prev, f.start) + b.subrange(f.start, f.end) + b.subrange(f.end, after));
            } else {
                let ed = ce[0];
                assert(all =~= seq![ed] + rest);
                lemma_apply_one(b, ed, rest, prev);
                lemma_apply_skip(b, rest, f.end, after);
                assert(content == ed.text);
                assert(b.subrange(prev, f.start) + ed.text + (b.subrange(f.end, after) + tail) =~= b.subrange(prev, f.start) + content + closing + tail);
            }
        } else {
            let e = he[0];
            assert(he =~= seq![e]);
            assert(closing == b.subrange(f.end, e.start) + e.text + b.subrange(e.end, after));
            lemma_apply_skip(b, rest, e.end, after);
            if ce.len() == 0 {
                assert(content == b.subrange(f.start, f.end));
                assert(all =~= seq![e] + rest);
                lemma_apply_one(b, e, rest, prev);
                assert(b.subrange(prev, e.start) =~= b.subrange(prev, f.start) + b.subrange(f.start, f.end) + b.subrange(f.end, e.start));
                assert(b.subrange(prev, e.start) + e.text + (b.subrange(e.end, after) + tail) =~= b.subrange(prev, f.start) + content + closing + tail);
            } else {
                let ed = ce[0];
                assert(all =~= seq![ed] + (seq![e] + rest));
                lemma_apply_one(b, ed, seq![e] + rest, prev);
                lemma_apply_one(b, e, rest, ed.end);
                assert(content == ed.text);
                assert(b.subrange(prev, f.start) + ed.text + (b.subrange(f.end, e.start) + e.text + (b.subrange(e.end, after) + tail))
                    =~= b.subrange(prev, f.start) + content + closing + tail);
            }
        }
    }
}

/// Where the lines of frame `i` start in the rewritten source.
pub open spec fn region_at(b: Seq<u8>, fs: Seq<SpecFragment>, frs: Seq<Frame>, us: Seq<SpecUpdate>, i: int) -> int {
    rebuilt_from(b, fs, frs, us, 0).len() - rebuilt_from(b, fs, frs, us, i).len()
}

proof fn lemma_region_suffix(c: u8, b: Seq<u8>, fs: Seq<SpecFragment>, frs: Seq<Frame>, us: Seq<SpecUpdate>, i: int)
    requires
        frames_of(c, b, 0, fs, frs),
        0 <= i <= fs.len(),
    ensures
        0 <= region_at(b, fs, frs, us, i),
        forall|k: int|
            0 <= k < rebuilt_from(b, fs, frs, us, i).len() ==> rebuilt_from(b, fs, frs, us, 0)[region_at(b, fs, frs, us, i) + k]
                == #[trigger] rebuilt_from(b, fs, frs, us, i)[k],
    decreases i,
{
    if i > 0 {
        lemma_region_suffix(c, b, fs, frs, us, i - 1);
        let outer = rebuilt_from(b, fs, frs, us, i - 1);
        let inner = rebuilt_from(b, fs, frs, us, i);
        let f = fs[i - 1];
        let head = b.subrange(frame_prev(frs, 0, i - 1), f.start) + new_content(b, us, f) + new_closing(b, us, f, frs[i - 1].after);
        assert(outer == head + inner);
        assert forall|k: int| 0 <= k < inner.len() implies rebuilt_from(b, fs, frs, us, 0)[region_at(b, fs, frs, us, i) + k]
            == #[trigger] inner[k] by {
            assert(outer[head.len() + k] == inner[k]);
            assert(region_at(b, fs, frs, us, i) + k == region_at(b, fs, frs, us, i - 1) + (head.len() + k));
        }
    }
}

/// The rewritten source.
pub open spec fn rebuilt(b: Seq<u8>, fs: Seq<SpecFragment>, frs: Seq<Frame>, us: Seq<SpecUpdate>) -> Seq<u8> {
    rebuilt_from(b, fs, frs, us, 0)
}

/// Where fragment `i`'s content starts in the rewritten source.
pub open spec fn new_start(b: Seq<u8>, fs: Seq<SpecFragment>, frs: Seq<Frame>, us: Seq<SpecUpdate>, i: int) -> int {
    region_at(b, fs, frs, us, i) + (fs[i].start - frame_prev(frs, 0, i))
}

/// Where fragment `i`'s closing line starts in the rewritten source.
pub open spec fn new_end(b: Seq<u8>, fs: Seq<SpecFragment>, frs: Seq<Frame>, us: Seq<SpecUpdate>, i: int) -> int {
    new_start(b, fs, frs, us, i) + new_content(b, us, fs[i]).len()
}

/// The bytes of frame `i`'s part of the rewritten source.
proof fn lemma_region_bytes(c: u8, b: Seq<u8>, fs: Seq<SpecFragment>, frs: Seq<Frame>, us: Seq<SpecUpdate>, i: int)
    requires
        frames_of(c, b, 0, fs, frs),
        0 <= i < fs.len(),
    ensures
        ({
            let out = rebuilt(b, fs, frs, us);
            let prev = frame_prev(frs, 0, i);
            let q = region_at(b, fs, frs, us, i);
            let f = fs[i];
            let content = new_content(b, us, f);
            let closing = new_closing(b, us, f, frs[i].after);
            let s = new_start(b, fs, frs, us, i);
            let e = new_end(b, fs, frs, us, i);
            &&& same_bytes(b, prev, f.start, out, q - prev)
            &&& forall|k: int| 0 <= k < content.len() ==> out[s + k] == #[trigger] content[k]
            &&& forall|k: int| 0 <= k < closing.len() ==> out[e + k] == #[trigger] closing[k]
            &&& region_at(b, fs, frs, us, i + 1) == e + closing.len()
            &&& 0 <= q
            &&& region_at(b, fs, frs, us, i + 1) <= out.len()
        }),
{
    lemma_region_suffix(c, b, fs, frs, us, i);
    lemma_region_suffix(c, b, fs, frs, us, i + 1);
    lemma_frame_positions(c, b, fs, frs, i);
    let out = rebuilt(b, fs, frs, us);
    let prev = frame_prev(frs, 0, i);
    let q = region_at(b, fs, frs, us, i);
    let f = fs[i];
    let a = b.subrange(prev, f.start);
    let content = new_content(b, us, f);
    let closing = new_closing(b, us, f, frs[i].after);
    let inner = rebuilt_from(b, fs, frs, us, i + 1);
    let rest = rebuilt_from(b, fs, frs, us, i);
    assert(rest == a + content + closing + inner);
    assert forall|k: int| prev <= k < f.start implies #[trigger] out[k + (q - prev)] == b[k] by {
        assert(rest[k - prev] == a[k - prev]);
        assert(out[q + (k - prev)] == rest[k - prev]);
    }
    assert forall|k: int| 0 <= k < content.len() implies out[new_start(b, fs, frs, us, i) + k] == #[trigger] content[k] by {
        assert(rest[a.len() + k] == content[k]);
        assert(out[q + (a.len() + k)] == rest[a.len() + k]);
    }
    assert forall|k: int| 0 <= k < closing.len() implies out[new_end(b, fs, frs, us, i) + k] == #[trigger] closing[k] by {
        assert(rest[a.len() + content.len() + k] == closing[k]);
        assert(out[q + (a.len() + content.len() + k)] == rest[a.len() + content.len() + k]);
    }
}

/// What follows frame `i` in the rewritten source is what followed it in
/// the original: the same byte, or the end of both.
proof fn lemma_after_region(c: u8, b: Seq<u8>, fs: Seq<SpecFragment>, frs: Seq<Frame>, us: Seq<SpecUpdate>, i: int)
    requires
        frames_of(c, b, 0, fs, frs),
        0 <= i < fs.len(),
    ensures
        ({
            let out = rebuilt(b, fs, frs, us);
            let q = region_at(b, fs, frs, us, i + 1);
            let after = frs[i].after;
            ||| (q == out.len() && after == b.len())
            ||| (q < out.len() && after < b.len() && out[q] == b[after])
        }),
{
    lemma_region_suffix(c, b, fs, frs, us, i + 1);
    lemma_frame_positions(c, b, fs, frs, i);
    let inner = rebuilt_from(b, fs, frs, us, i + 1);
    let after = frs[i].after;
    assert(frame_prev(frs, 0, i + 1) == after);
    if i + 1 < fs.len() {
        lemma_frame_positions(c, b, fs, frs, i + 1);
        let a = b.subrange(after, fs[i + 1].start);
        assert(inner == a + new_content(b, us, fs[i + 1]) + new_closing(b, us, fs[i + 1], frs[i + 1].after)
            + rebuilt_from(b, fs, frs, us, i + 2));
        assert(inner[0] == a[0]);
    } else {
        assert(inner == b.subrange(after, b.len() as int));
        if after < b.len() {
            assert(inner[0] == b[after]);
        }
    }
}

/// A replacement source that reads back: no marker lines, empty or ending
/// with `LF`, and no byte-order mark.
pub open spec fn clean_source(c: u8, t: Seq<u8>) -> bool {
    &&& unmarked(c, t, 0, t.len() as int)
    &&& (t.len() > 0 ==> t.last() == LF)
    &&& !starts_with_bom(t)
}

/// Fragment `f`'s update reads back: a replacement is clean, and starts with
/// `LF` only after an opening line that ends with `LF`.
pub open spec fn update_reads_back(c: u8, b: Seq<u8>, us: Seq<SpecUpdate>, f: SpecFragment) -> bool {
    match update_of(us, f) {
        Some(SpecUpdate::Replace { source, .. }) => clean_source(c, source) && (source.len() > 0 && source[0]
            == LF ==> b[f.start - 1] == LF),
        _ => true,
    }
}

/// A closing line starts with a byte of its marker, which is no line break,
/// and its hash edit leaves that byte in place.
proof fn lemma_closing_first(c: u8, b: Seq<u8>, fs: Seq<SpecFragment>, frs: Seq<Frame>, us: Seq<SpecUpdate>, i: int)
    requires
        frames_of(c, b, 0, fs, frs),
        0 <= i < fs.len(),
        b.len() + 17 <= usize::MAX,
    ensures
        b[fs[i].end] != LF && b[fs[i].end] != CR,
        new_closing(b, us, fs[i], frs[i].after).len() > 0,
        new_closing(b, us, fs[i], frs[i].after)[0] == b[fs[i].end],
{
    lemma_frame_at(c, b, 0, fs, frs, i);
    lemma_frame_positions(c, b, fs, frs, i);
    lemma_hash_edit_placed(c, b, fs, frs, us, i);
    let f = fs[i];
    let ce = content_end(b, f.end);
    lemma_content_end(b, f.end);
    lemma_close_positions_bounds(c, b, f.end, ce);
    lemma_content_end_at(b, f.end, ce);
    assert(b[f.end] != LF && b[f.end] != CR);
}

/// The lines before fragment `i` and its opening line read the same in the
/// rewritten source.
proof fn lemma_new_opening(c: u8, b: Seq<u8>, fs: Seq<SpecFragment>, frs: Seq<Frame>, us: Seq<SpecUpdate>, i: int)
    requires
        frames_of(c, b, 0, fs, frs),
        0 <= i < fs.len(),
        update_reads_back(c, b, us, fs[i]),
        b.len() + 17 <= usize::MAX,
        rebuilt(b, fs, frs, us).len() <= usize::MAX,
    ensures
        ({
            let out = rebuilt(b, fs, frs, us);
            let d = region_at(b, fs, frs, us, i) - frame_prev(frs, 0, i);
            let oa = frs[i].open_at + d;
            &&& unmarked(c, out, region_at(b, fs, frs, us, i), oa)
            &&& 0 <= oa < out.len()
            &&& spec_marker(c, out, oa, content_end(out, oa)) == Ok::<Option<SpecMarker>, MarkerError>(
                Some(SpecMarker::Open { path: fs[i].path }),
            )
            &&& next_line(out, oa) == new_start(b, fs, frs, us, i)
        }),
{
    let out = rebuilt(b, fs, frs, us);
    let prev = frame_prev(frs, 0, i);
    let d = region_at(b, fs, frs, us, i) - prev;
    let f = fs[i];
    let fr = frs[i];
    lemma_frame_at(c, b, 0, fs, frs, i);
    lemma_frame_positions(c, b, fs, frs, i);
    lemma_region_bytes(c, b, fs, frs, us, i);
    lemma_closing_first(c, b, fs, frs, us, i);
    let content = new_content(b, us, f);
    let closing = new_closing(b, us, f, fr.after);
    let s = new_start(b, fs, frs, us, i);
    assert(s == f.start + d);
    // The byte the opening line's end may depend on.
    assert(f.start + d < out.len() && (out[f.start + d] == LF ==> b[f.start] == LF || b[f.start - 1] == LF)) by {
        lemma_region_bytes(c, b, fs, frs, us, i);
        if content.len() > 0 {
            assert(out[s + 0] == content[0]);
            if update_of(us, f) matches Some(SpecUpdate::Replace { .. }) {
            } else {
                assert(content[0] == b[f.start]);
            }
        } else {
            assert(out[new_end(b, fs, frs, us, i) + 0] == closing[0]);
        }
    }
    assert(same_bytes(b, prev, fr.open_at, out, d));
    assert(out[fr.open_at + d] == b[fr.open_at]);
    lemma_unmarked_shift(c, b, prev, fr.open_at, out, d);
    assert(same_bytes(b, fr.open_at, f.start, out, d));
    lemma_line_shift(c, b, fr.open_at, f.start, out, d);
}

/// Fragment `i`'s content in the rewritten source is its new content, with
/// no marker lines and no byte-order mark.
proof fn lemma_new_content(c: u8, b: Seq<u8>, fs: Seq<SpecFragment>, frs: Seq<Frame>, us: Seq<SpecUpdate>, i: int)
    requires
        frames_of(c, b, 0, fs, frs),
        0 <= i < fs.len(),
        update_reads_back(c, b, us, fs[i]),
        b.len() + 17 <= usize::MAX,
        rebuilt(b, fs, frs, us).len() <= usize::MAX,
    ensures
        ({
            let out = rebuilt(b, fs, frs, us);
            let s = new_start(b, fs, frs, us, i);
            let e = new_end(b, fs, frs, us, i);
            &&& unmarked(c, out, s, e)
            &&& out.subrange(s, e) == new_content(b, us, fs[i])
            &&& !starts_with_bom(out.subrange(s, e))
        }),
{
    let out = rebuilt(b, fs, frs, us);
    let prev = frame_prev(frs, 0, i);
    let d = region_at(b, fs, frs, us, i) - prev;
    let f = fs[i];
    let fr = frs[i];
    lemma_frame_at(c, b, 0, fs, frs, i);
    lemma_frame_positions(c, b, fs, frs, i);
    lemma_region_bytes(c, b, fs, frs, us, i);
    lemma_closing_first(c, b, fs, frs, us, i);
    let content = new_content(b, us, f);
    let closing = new_closing(b, us, f, fr.after);
    let s = new_start(b, fs, frs, us, i);
    let e = new_end(b, fs, frs, us, i);
    assert(out.subrange(s, e) =~= content) by {
        assert forall|k: int| 0 <= k < content.len() implies out.subrange(s, e)[k] == content[k] by {
            assert(out[s + k] == content[k]);
        }
    }
    assert(out[e + 0] == closing[0]);
    match update_of(us, f) {
        Some(SpecUpdate::Replace { source, .. }) => {
            if source.len() > 0 {
                assert(same_bytes(source, 0, source.len() as int, out, s)) by {
                    assert forall|k: int| 0 <= k < source.len() implies #[trigger] out[k + s] == source[k] by {
                        assert(out[s + k] == content[k]);
                    }
                }
                assert(source[source.len() - 1] == LF);
                lemma_unmarked_shift(c, source, 0, source.len() as int, out, s);
            } else {
                lemma_unmarked_empty(c, out, s);
            }
        },
        _ => {
            assert(content == b.subrange(f.start, f.end));
            assert(same_bytes(b, f.start, f.end, out, d)) by {
                assert forall|k: int| f.start <= k < f.end implies #[trigger] out[k + d] == b[k] by {
                    assert(out[s + (k - f.start)] == content[k - f.start]);
                }
            }
            lemma_unmarked_shift(c, b, f.start, f.end, out, d);
        },
    }
}

/// The closing line of `f` after recording `h` keeps its line break, moved
/// by the edit's change in length.
proof fn lemma_edited_line(c: u8, b: Seq<u8>, f: SpecFragment, h: Seq<u8>)
    requires
        0 <= f.end < b.len(),
        b.len() + 17 <= usize::MAX,
        spec_marker(c, b, f.end, content_end(b, f.end)) == Ok::<Option<SpecMarker>, MarkerError>(
            Some(SpecMarker::Close { path: f.path, baseline: f.baseline, location: f.location }),
        ),
        h.len() == 8,
        f.baseline != Some(h),
    ensures
        ({
            let e = recording_edit(f, h);
            let b2 = edited(b, e);
            let delta = e.text.len() - (e.end - e.start);
            &&& b2.len() == b.len() + delta
            &&& e.text.len() <= 17
            &&& content_end(b2, f.end) == content_end(b, f.end) + delta
            &&& next_line(b2, f.end) == next_line(b, f.end) + delta
            &&& spec_marker(c, b2, f.end, content_end(b2, f.end)) == recorded_close(
                f.path,
                h,
                e.start + e.text.len() - 16,
            )
        }),
{
    let ce = content_end(b, f.end);
    lemma_content_end(b, f.end);
    lemma_recorded_close(c, b, f.end, ce, f, h);
    lemma_recording_edit_in_line(c, b, f.end, ce, f, h);
    let e = recording_edit(f, h);
    let b2 = edited(b, e);
    let delta = e.text.len() - (e.end - e.start);
    let ce2 = ce + delta;
    lemma_edited_bytes(b, e);
    assert(e.text.len() == 16 || e.text.len() == 17);
    lemma_content_end_at(b, f.end, ce);
    assert forall|k: int| f.end <= k < ce2 implies #[trigger] b2[k] != CR && b2[k] != LF by {
        if k < e.start {
        } else if k < e.start + e.text.len() {
            assert(b2[e.start + (k - e.start)] == e.text[k - e.start]);
        } else {
            assert(b2[e.start + e.text.len() + (k - e.start - e.text.len())] == b[e.end + (k - e.start - e.text.len())]);
        }
    }
    if ce < b.len() {
        assert(b2[e.start + e.text.len() + (ce - e.end)] == b[e.end + (ce - e.end)]);
        if ce + 1 < b.len() {
            assert(b2[e.start + e.text.len() + (ce + 1 - e.end)] == b[e.end + (ce + 1 - e.end)]);
        }
    }
    lemma_content_end_at(b2, f.end, ce2);
}

/// Fragment `i` as the rewritten source holds it.
pub open spec fn new_fragment(b: Seq<u8>, fs: Seq<SpecFragment>, frs: Seq<Frame>, us: Seq<SpecUpdate>, i: int) -> SpecFragment {
    let f = fs[i];
    let he = hash_edits_of(b, us, f);
    let dd = new_end(b, fs, frs, us, i) - f.end;
    if he.len() == 0 {
        SpecFragment {
            path: f.path,
            baseline: f.baseline,
            start: new_start(b, fs, frs, us, i),
            end: new_end(b, fs, frs, us, i),
            location: location_shift(f.location, dd),
        }
    } else {
        let at = he[0].start + he[0].text.len() - 16;
        SpecFragment {
            path: f.path,
            baseline: Some(recorded_baseline(b, f, update_of(us, f).unwrap())),
            start: new_start(b, fs, frs, us, i),
            end: new_end(b, fs, frs, us, i),
            location: location_shift(HashLocation::Present { start: at as usize, end: (at + 16) as usize }, dd),
        }
    }
}


/// Fragment `i`'s closing line reads back in the rewritten source: the same
/// path, the recorded baseline where a hash was written, and the hash
/// location moved with the line.
#[verifier::spinoff_prover]
#[verifier::rlimit(60)]
proof fn lemma_new_closing(c: u8, b: Seq<u8>, fs: Seq<SpecFragment>, frs: Seq<Frame>, us: Seq<SpecUpdate>, i: int)
    requires
        frames_of(c, b, 0, fs, frs),
        0 <= i < fs.len(),
        b.len() + 17 <= usize::MAX,
        rebuilt(b, fs, frs, us).len() <= usize::MAX,
    ensures
        ({
            let out = rebuilt(b, fs, frs, us);
            let ne = new_end(b, fs, frs, us, i);
            let nf = new_fragment(b, fs, frs, us, i);
            &&& 0 <= ne < out.len()
            &&& spec_marker(c, out, ne, content_end(out, ne)) == Ok::<Option<SpecMarker>, MarkerError>(
                Some(SpecMarker::Close { path: nf.path, baseline: nf.baseline, location: nf.location }),
            )
            &&& next_line(out, ne) == region_at(b, fs, frs, us, i + 1)
        }),
{
    let out = rebuilt(b, fs, frs, us);
    let f = fs[i];
    let fr = frs[i];
    let after = fr.after;
    lemma_frame_at(c, b, 0, fs, frs, i);
    lemma_frame_positions(c, b, fs, frs, i);
    lemma_region_bytes(c, b, fs, frs, us, i);
    lemma_region_suffix(c, b, fs, frs, us, i);
    lemma_after_region(c, b, fs, frs, us, i);
    lemma_closing_first(c, b, fs, frs, us, i);
    lemma_hash_edit_placed(c, b, fs, frs, us, i);
    let closing = new_closing(b, us, f, after);
    let ne = new_end(b, fs, frs, us, i);
    let dd = ne - f.end;
    let q = region_at(b, fs, frs, us, i + 1);
    assert(q == ne + closing.len());
    assert(ne >= 0);
    assert(out[ne + 0] == closing[0]);
    let he = hash_edits_of(b, us, f);
    if he.len() == 0 {
        assert(closing == b.subrange(f.end, after));
        assert(same_bytes(b, f.end, after, out, dd)) by {
            assert forall|k: int| f.end <= k < after implies #[trigger] out[k + dd] == b[k] by {
                assert(out[ne + (k - f.end)] == closing[k - f.end]);
            }
        }
        lemma_line_shift(c, b, f.end, after, out, dd);
    } else {
        let u = update_of(us, f).unwrap();
        let h = recorded_baseline(b, f, u);
        let e = he[0];
        assert(e == recording_edit(f, h));
        lemma_edited_line(c, b, f, h);
        let b2 = edited(b, e);
        lemma_edited_bytes(b, e);
        let tl = e.text.len();
        let delta = tl - (e.end - e.start);
        assert(closing == b.subrange(f.end, e.start) + e.text + b.subrange(e.end, after));
        assert(closing.len() == after - f.end + delta);
        assert(same_bytes(b2, f.end, after + delta, out, dd)) by {
            assert forall|k: int| f.end <= k < after + delta implies #[trigger] out[k + dd] == b2[k] by {
                assert(out[ne + (k - f.end)] == closing[k - f.end]);
                if k < e.start {
                    assert(b2[k] == b[k]);
                } else if k < e.start + tl {
                    assert(b2[e.start + (k - e.start)] == e.text[k - e.start]);
                } else {
                    assert(b2[e.start + tl + (k - e.start - tl)] == b[e.end + (k - e.start - tl)]);
                }
            }
        }
        if after < b.len() {
            assert(b2[e.start + tl + (after - e.end)] == b[e.end + (after - e.end)]);
        }
        lemma_line_shift(c, b2, f.end, after + delta, out, dd);
    }
}

/// Frame `i` as it stands in the rewritten source.
pub open spec fn new_frame(b: Seq<u8>, fs: Seq<SpecFragment>, frs: Seq<Frame>, us: Seq<SpecUpdate>, i: int) -> Frame {
    Frame {
        open_at: frs[i].open_at + (region_at(b, fs, frs, us, i) - frame_prev(frs, 0, i)),
        start: new_start(b, fs, frs, us, i),
        end: new_end(b, fs, frs, us, i),
        after: region_at(b, fs, frs, us, i + 1),
    }
}

/// Frame `i` of the rewritten source holds fragment `i` as rewritten.
#[verifier::spinoff_prover]
proof fn lemma_new_frame_holds(c: u8, b: Seq<u8>, fs: Seq<SpecFragment>, frs: Seq<Frame>, us: Seq<SpecUpdate>, i: int)
    requires
        frames_of(c, b, 0, fs, frs),
        0 <= i < fs.len(),
        update_reads_back(c, b, us, fs[i]),
        b.len() + 17 <= usize::MAX,
        rebuilt(b, fs, frs, us).len() <= usize::MAX,
    ensures
        frame_holds(
            c,
            rebuilt(b, fs, frs, us),
            region_at(b, fs, frs, us, i),
            new_frame(b, fs, frs, us, i),
            new_fragment(b, fs, frs, us, i),
        ),
{
    lemma_new_opening(c, b, fs, frs, us, i);
    lemma_new_content(c, b, fs, frs, us, i);
    lemma_new_closing(c, b, fs, frs, us, i);
}

/// Lines that meet each part of `frames_of` are laid out as frames.
proof fn lemma_frames_intro(c: u8, b: Seq<u8>, from: int, fs: Seq<SpecFragment>, frs: Seq<Frame>)
    requires
        frs.len() == fs.len(),
        forall|i: int| 0 <= i < fs.len() ==> frame_holds(c, b, frame_prev(frs, from, i), #[trigger] frs[i], fs[i]),
        unmarked(c, b, frame_prev(frs, from, fs.len() as int), b.len() as int),
    ensures
        frames_of(c, b, from, fs, frs),
{
    reveal(frames_of);
}

/// The lines after the last frame stay unmarked in the rewritten source.
#[verifier::spinoff_prover]
proof fn lemma_rebuilt_tail(c: u8, b: Seq<u8>, fs: Seq<SpecFragment>, frs: Seq<Frame>, us: Seq<SpecUpdate>)
    requires
        frames_of(c, b, 0, fs, frs),
        b.len() + 17 <= usize::MAX,
        rebuilt(b, fs, frs, us).len() <= usize::MAX,
    ensures
        unmarked(c, rebuilt(b, fs, frs, us), region_at(b, fs, frs, us, fs.len() as int), rebuilt(b, fs, frs, us).len() as int),
{
    let out = rebuilt(b, fs, frs, us);
    let n = fs.len() as int;
    let p = frame_prev(frs, 0, n);
    lemma_frames_tail(c, b, 0, fs, frs);
    lemma_unmarked_order(c, b, p, b.len() as int);
    lemma_region_suffix(c, b, fs, frs, us, n);
    let tail = rebuilt_from(b, fs, frs, us, n);
    assert(tail == b.subrange(p, b.len() as int));
    let d = region_at(b, fs, frs, us, n) - p;
    assert(same_bytes(b, p, b.len() as int, out, d)) by {
        assert forall|k: int| p <= k < b.len() implies #[trigger] out[k + d] == b[k] by {
            assert(out[region_at(b, fs, frs, us, n) + (k - p)] == tail[k - p]);
        }
    }
    lemma_unmarked_shift(c, b, p, b.len() as int, out, d);
}

/// The rewritten source is laid out as frames of the rewritten fragments.
#[verifier::spinoff_prover]
proof fn lemma_rebuilt_frames(c: u8, b: Seq<u8>, fs: Seq<SpecFragment>, frs: Seq<Frame>, us: Seq<SpecUpdate>)
    requires
        frames_of(c, b, 0, fs, frs),
        forall|i: int| 0 <= i < fs.len() ==> update_reads_back(c, b, us, #[trigger] fs[i]),
        b.len() + 17 <= usize::MAX,
        rebuilt(b, fs, frs, us).len() <= usize::MAX,
    ensures
        frames_of(
            c,
            rebuilt(b, fs, frs, us),
            0,
            Seq::new(fs.len(), |i: int| new_fragment(b, fs, frs, us, i)),
            Seq::new(fs.len(), |i: int| new_frame(b, fs, frs, us, i)),
        ),
{
    let out = rebuilt(b, fs, frs, us);
    let gs = Seq::new(fs.len(), |i: int| new_fragment(b, fs, frs, us, i));
    let rs = Seq::new(fs.len(), |i: int| new_frame(b, fs, frs, us, i));
    assert forall|i: int| 0 <= i <= fs.len() implies #[trigger] frame_prev(rs, 0, i) == region_at(b, fs, frs, us, i) by {
        if i > 0 {
            assert(rs[i - 1] == new_frame(b, fs, frs, us, i - 1));
        }
    }
    assert forall|i: int| 0 <= i < gs.len() implies frame_holds(c, out, frame_prev(rs, 0, i), #[trigger] rs[i], gs[i]) by {
        assert(frame_prev(rs, 0, i) == region_at(b, fs, frs, us, i));
        assert(update_reads_back(c, b, us, fs[i]));
        lemma_new_frame_holds(c, b, fs, frs, us, i);
    }
    assert(frame_prev(rs, 0, fs.len() as int) == region_at(b, fs, frs, us, fs.len() as int));
    lemma_rebuilt_tail(c, b, fs, frs, us);
    lemma_frames_intro(c, out, 0, gs, rs);
}

/// The baseline fragment `f` carries after a batch: the one its update
/// records, or the one it had.
pub open spec fn baseline_after(b: Seq<u8>, us: Seq<SpecUpdate>, f: SpecFragment) -> Option<Seq<u8>> {
    match update_of(us, f) {
        Some(u) => Some(recorded_baseline(b, f, u)),
        None => f.baseline,
    }
}

/// Fragment `g` of the rewritten source `out` is fragment `f` after the
/// batch: the same path, its new baseline, and its new content.
pub open spec fn reads_back_as(b: Seq<u8>, us: Seq<SpecUpdate>, f: SpecFragment, out: Seq<u8>, g: SpecFragment) -> bool {
    &&& g.path == f.path
    &&& g.baseline == baseline_after(b, us, f)
    &&& 0 <= g.start <= g.end <= out.len()
    &&& out.subrange(g.start, g.end) == new_content(b, us, f)
}

/// A rewrite reads back: parsing the rewritten source finds the same
/// fragments in the same order, each with the baseline its update recorded
/// and the content its update wrote, wherever each replacement is a clean
/// source (no marker lines, a final line break, no byte-order mark) that
/// does not join its opening line's `CR` into a `CRLF`.
pub proof fn lemma_rewritten_fragments_read_back(
    kind: NodeKind,
    b: Seq<u8>,
    fs: Seq<SpecFragment>,
    us: Seq<SpecUpdate>,
    out: Seq<u8>,
)
    requires
        spec_parse(kind, b) == Ok::<Seq<SpecFragment>, SpecParseError>(fs),
        spec_rewrite(b, fs, us) == Ok::<Option<Seq<u8>>, SpecRewriteError>(Some(out)),
        forall|i: int| 0 <= i < fs.len() ==> update_reads_back(comment_of(kind), b, us, #[trigger] fs[i]),
        b.len() + 17 <= usize::MAX,
        out.len() <= usize::MAX,
    ensures
        spec_parse(kind, out) is Ok,
        spec_parse(kind, out)->Ok_0.len() == fs.len(),
        forall|i: int|
            0 <= i < fs.len() ==> reads_back_as(b, us, fs[i], out, #[trigger] spec_parse(kind, out)->Ok_0[i]),
{
    let c = comment_of(kind);
    let frs = lemma_parse_frames(c, b, 0, 1, Seq::empty(), fs);
    assert(fs.subrange(0, fs.len() as int) =~= fs);
    lemma_edits_for_fragments(b, fs, us);
    lemma_apply_rebuilt(c, b, fs, frs, us, 0);
    assert(out == rebuilt(b, fs, frs, us));
    lemma_rebuilt_frames(c, b, fs, frs, us);
    let gs = Seq::new(fs.len(), |i: int| new_fragment(b, fs, frs, us, i));
    let rs = Seq::new(fs.len(), |i: int| new_frame(b, fs, frs, us, i));
    lemma_frames_parse(c, out, 0, gs, rs, 0, 1, Seq::empty());
    assert(Seq::<SpecFragment>::empty() + gs.subrange(0, gs.len() as int) =~= gs);
    assert forall|i: int| 0 <= i < fs.len() implies reads_back_as(b, us, fs[i], out, #[trigger] spec_parse(kind, out)->Ok_0[i]) by {
        assert(spec_parse(kind, out)->Ok_0[i] == new_fragment(b, fs, frs, us, i));
        lemma_new_content(c, b, fs, frs, us, i);
        lemma_new_closing(c, b, fs, frs, us, i);
        lemma_frame_positions(c, b, fs, frs, i);
        lemma_region_bytes(c, b, fs, frs, us, i);
    }
}

/// A rewrite keeps all other text: the rewritten source is the original
/// line by line, but that each fragment's content is its new content and
/// each closing line carries the hash its update records (the old token
/// replaced, or one space and the hash inserted after the path).
pub proof fn lemma_rewrite_keeps_other_text(kind: NodeKind, b: Seq<u8>, fs: Seq<SpecFragment>, us: Seq<SpecUpdate>, out: Seq<u8>)
    requires
        spec_parse(kind, b) == Ok::<Seq<SpecFragment>, SpecParseError>(fs),
        spec_rewrite(b, fs, us) == Ok::<Option<Seq<u8>>, SpecRewriteError>(Some(out)),
        b.len() + 17 <= usize::MAX,
    ensures
        exists|frs: Seq<Frame>| frames_of(comment_of(kind), b, 0, fs, frs) && out == rebuilt(b, fs, frs, us),
{
    let c = comment_of(kind);
    let frs = lemma_parse_frames(c, b, 0, 1, Seq::empty(), fs);
    assert(fs.subrange(0, fs.len() as int) =~= fs);
    lemma_edits_for_fragments(b, fs, us);
    lemma_apply_rebuilt(c, b, fs, frs, us, 0);
    assert(frames_of(c, b, 0, fs, frs) && out == rebuilt(b, fs, frs, us));
}

proof fn lemma_requested_index_nonnegative(us: Seq<SpecUpdate>, p: Seq<u8>)
    ensures
        0 <= requested_index(us, p),
    decreases us.len(),
{
    if us.len() > 0 {
        lemma_requested_index_nonnegative(us.drop_first(), p);
    }
}

proof fn lemma_match_count_same_paths(a: Seq<SpecFragment>, c: Seq<SpecFragment>, p: Seq<u8>)
    requires
        a.len() == c.len(),
        forall|i: int| 0 <= i < a.len() ==> (#[trigger] a[i]).path == c[i].path,
    ensures
        match_count(a, p) == match_count(c, p),
    decreases a.len(),
{
    if a.len() > 0 {
        assert(a.last() == a[a.len() - 1]);
        assert(c.last() == c[c.len() - 1]);
        assert forall|i: int| 0 <= i < a.drop_last().len() implies (#[trigger] a.drop_last()[i]).path
            == c.drop_last()[i].path by {
            assert(a.drop_last()[i] == a[i]);
            assert(c.drop_last()[i] == c[i]);
        }
        lemma_match_count_same_paths(a.drop_last(), c.drop_last(), p);
    }
}

proof fn lemma_no_edits(b: Seq<u8>, gs: Seq<SpecFragment>, us: Seq<SpecUpdate>)
    requires
        forall|i: int|
            0 <= i < gs.len() && requested_index(us, (#[trigger] gs[i]).path) < us.len() ==> fragment_edits(
                b,
                gs[i],
                us[requested_index(us, gs[i].path)],
            ) == Seq::<SpecEdit>::empty(),
    ensures
        edits_for(b, gs, us) == Seq::<SpecEdit>::empty(),
    decreases gs.len(),
{
    if gs.len() > 0 {
        assert(gs.last() == gs[gs.len() - 1]);
        assert forall|i: int|
            0 <= i < gs.drop_last().len() && requested_index(us, (#[trigger] gs.drop_last()[i]).path) < us.len()
                implies fragment_edits(b, gs.drop_last()[i], us[requested_index(us, gs.drop_last()[i].path)])
            == Seq::<SpecEdit>::empty() by {
            assert(gs.drop_last()[i] == gs[i]);
        }
        lemma_no_edits(b, gs.drop_last(), us);
        let k = requested_index(us, gs.last().path);
        if k < us.len() {
            assert(edits_for(b, gs, us) =~= Seq::<SpecEdit>::empty() + Seq::<SpecEdit>::empty());
        } else {
            assert(edits_for(b, gs, us) =~= Seq::<SpecEdit>::empty() + Seq::<SpecEdit>::empty());
        }
    }
}

/// Recording twice changes nothing: once a batch of records has rewritten a
/// source, the same batch on the rewritten source finds every hash current
/// and leaves it as it is.
pub proof fn lemma_record_twice_changes_nothing(
    kind: NodeKind,
    b: Seq<u8>,
    fs: Seq<SpecFragment>,
    us: Seq<SpecUpdate>,
    out: Seq<u8>,
)
    requires
        spec_parse(kind, b) == Ok::<Seq<SpecFragment>, SpecParseError>(fs),
        spec_rewrite(b, fs, us) == Ok::<Option<Seq<u8>>, SpecRewriteError>(Some(out)),
        forall|j: int| 0 <= j < us.len() ==> (#[trigger] us[j]) is Record,
        b.len() + 17 <= usize::MAX,
        out.len() <= usize::MAX,
    ensures
        spec_parse(kind, out) is Ok,
        spec_rewrite(out, spec_parse(kind, out)->Ok_0, us) == Ok::<Option<Seq<u8>>, SpecRewriteError>(None),
{
    let c = comment_of(kind);
    assert forall|i: int| 0 <= i < fs.len() implies update_reads_back(c, b, us, #[trigger] fs[i]) by {
        let k = requested_index(us, fs[i].path);
        lemma_requested_index_nonnegative(us, fs[i].path);
        if k < us.len() {
            assert(us[k] is Record);
        }
    }
    lemma_rewritten_fragments_read_back(kind, b, fs, us, out);
    let gs = spec_parse(kind, out)->Ok_0;
    assert forall|i: int| 0 <= i < gs.len() implies (#[trigger] gs[i]).path == fs[i].path by {
        assert(reads_back_as(b, us, fs[i], out, gs[i]));
    }
    assert forall|i: int|
        0 <= i < gs.len() && requested_index(us, (#[trigger] gs[i]).path) < us.len() implies fragment_edits(
            out,
            gs[i],
            us[requested_index(us, gs[i].path)],
        ) == Seq::<SpecEdit>::empty() by {
        let f = fs[i];
        let g = gs[i];
        assert(reads_back_as(b, us, f, out, g));
        let k = requested_index(us, f.path);
        lemma_requested_index_nonnegative(us, f.path);
        assert(us[k] is Record);
        assert(update_of(us, f) == Some(us[k]));
        assert(out.subrange(g.start, g.end) == b.subrange(f.start, f.end));
    }
    lemma_no_edits(out, gs, us);
    let ps = update_paths(us);
    assert forall|j: int| 0 <= j < ps.len() implies is_failing(gs, #[trigger] ps[j]) == is_failing(fs, ps[j]) by {
        lemma_match_count_same_paths(gs, fs, ps[j]);
    }
    assert(any_failing(gs, ps) == any_failing(fs, ps));
}

/// A record of each path a batch updates, in the batch's order.
pub open spec fn records_of(us: Seq<SpecUpdate>) -> Seq<SpecUpdate> {
    us.map_values(|u: SpecUpdate| SpecUpdate::Record { path: update_path(u) })
}

proof fn lemma_records_index(us: Seq<SpecUpdate>, p: Seq<u8>)
    ensures
        requested_index(records_of(us), p) == requested_index(us, p),
    decreases us.len(),
{
    if us.len() > 0 {
        assert(records_of(us).drop_first() =~= records_of(us.drop_first()));
        lemma_records_index(us.drop_first(), p);
    }
}

/// Recording after a rewrite changes nothing: once a batch of records and
/// canonical replacements has rewritten a source, recording the same paths
/// on the rewritten source finds every hash current and leaves it as it is,
/// wherever each replacement reads back.
pub proof fn lemma_recording_after_rewrite_changes_nothing(
    kind: NodeKind,
    b: Seq<u8>,
    fs: Seq<SpecFragment>,
    us: Seq<SpecUpdate>,
    out: Seq<u8>,
)
    requires
        spec_parse(kind, b) == Ok::<Seq<SpecFragment>, SpecParseError>(fs),
        spec_rewrite(b, fs, us) == Ok::<Option<Seq<u8>>, SpecRewriteError>(Some(out)),
        forall|j: int| 0 <= j < us.len() ==> ((#[trigger] us[j]) matches SpecUpdate::Replace { source, .. }
            ==> canonical_bytes(source) == source),
        forall|i: int| 0 <= i < fs.len() ==> update_reads_back(comment_of(kind), b, us, #[trigger] fs[i]),
        b.len() + 17 <= usize::MAX,
        out.len() <= usize::MAX,
    ensures
        spec_parse(kind, out) is Ok,
        spec_rewrite(out, spec_parse(kind, out)->Ok_0, records_of(us)) == Ok::<Option<Seq<u8>>, SpecRewriteError>(
            None,
        ),
{
    let rs = records_of(us);
    lemma_rewritten_fragments_read_back(kind, b, fs, us, out);
    let gs = spec_parse(kind, out)->Ok_0;
    assert forall|i: int| 0 <= i < gs.len() implies (#[trigger] gs[i]).path == fs[i].path by {
        assert(reads_back_as(b, us, fs[i], out, gs[i]));
    }
    assert forall|i: int|
        0 <= i < gs.len() && requested_index(rs, (#[trigger] gs[i]).path) < rs.len() implies fragment_edits(
            out,
            gs[i],
            rs[requested_index(rs, gs[i].path)],
        ) == Seq::<SpecEdit>::empty() by {
        let f = fs[i];
        let g = gs[i];
        assert(reads_back_as(b, us, f, out, g));
        lemma_records_index(us, f.path);
        let k = requested_index(us, f.path);
        lemma_requested_index_nonnegative(us, f.path);
        assert(update_of(us, f) == Some(us[k]));
        assert(rs[k] == SpecUpdate::Record { path: update_path(us[k]) });
        match us[k] {
            SpecUpdate::Record { .. } => {
                assert(out.subrange(g.start, g.end) == b.subrange(f.start, f.end));
            },
            SpecUpdate::Replace { source, .. } => {
                assert(out.subrange(g.start, g.end) == source);
            },
        }
    }
    lemma_no_edits(out, gs, rs);
    assert(update_paths(rs) =~= update_paths(us));
    let ps = update_paths(us);
    assert forall|j: int| 0 <= j < ps.len() implies is_failing(gs, #[trigger] ps[j]) == is_failing(fs, ps[j]) by {
        lemma_match_count_same_paths(gs, fs, ps[j]);
    }
    assert(any_failing(gs, ps) == any_failing(fs, ps));
}

} // verus!
