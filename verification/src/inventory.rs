//! Owned fragment discovery: every fragment of a document, in canonical
//! path order, with its validated filesystem input.
//!
//! Discovery reads the document once, then the target of each fragment in
//! path order. The reads are the caller's; every decision on what was read
//! is made here.

use vstd::prelude::*;
use vstd::string::*;
use vstd::utf8::*;

use crate::adls::{
    document_sources, well_formed_document, Document, Error as DocumentError, NodeKind, SpecSource,
};
use crate::fragment::{
    canonical_bytes, hash_opt_view, is_canonical_path, spec_parse, starts_with_bom, BaselineHash,
    CanonicalSource, CanonicalSourceError, FragmentPath, ParseError, ParsedSource, SpecFragment,
    SpecParseError,
};
use crate::engine::{resolve_from, spec_resolve_from};
use crate::text::{bytes_eq, bytes_lt, seq_lt, str_from_utf8, string_bytes};

verus! {

broadcast use {vstd::utf8::encode_utf8_valid_utf8, vstd::utf8::encode_utf8_decode_utf8};

// ---------------------------------------------------------------------------
// Discovery from the document
// ---------------------------------------------------------------------------

/// One fragment found in the document, before its target is validated.
#[derive(Debug)]
pub struct DiscoveredFragment {
    pub node_index: u32,
    pub path: FragmentPath,
    pub embedded: CanonicalSource,
    pub baseline: Option<BaselineHash>,
}

pub struct SpecDiscovered {
    pub node_index: int,
    pub path: Seq<u8>,
    pub embedded: Seq<u8>,
    pub baseline: Option<Seq<u8>>,
}

impl View for DiscoveredFragment {
    type V = SpecDiscovered;

    open spec fn view(&self) -> SpecDiscovered {
        SpecDiscovered {
            node_index: self.node_index as int,
            path: self.path@,
            embedded: self.embedded@,
            baseline: hash_opt_view(self.baseline),
        }
    }
}

pub open spec fn discovered_views(d: Seq<DiscoveredFragment>) -> Seq<SpecDiscovered> {
    d.map_values(|f: DiscoveredFragment| f@)
}

/// Why the fragments of a document cannot be discovered.
pub enum SpecDiscoveryError {
    /// The document is not well formed.
    Document,
    /// The markers of this source node do not parse.
    Markers(int, SpecParseError),
    /// This fragment of this source node starts with a byte-order mark.
    Embedded(int, Seq<u8>),
    /// Two fragments share this path: the nodes of its first two occurrences.
    Duplicate(Seq<u8>, int, int),
    /// The first path is a strict component ancestor of the second.
    PrefixConflict(Seq<u8>, Seq<u8>),
}

/// The fragments among the first `n` of one source node's markers.
pub open spec fn embedded_upto(index: int, source: Seq<u8>, frags: Seq<SpecFragment>, n: int) -> Result<
    Seq<SpecDiscovered>,
    SpecDiscoveryError,
>
    decreases n,
{
    if n <= 0 {
        Ok(Seq::empty())
    } else {
        match embedded_upto(index, source, frags, n - 1) {
            Err(e) => Err(e),
            Ok(prev) => {
                let f = frags[n - 1];
                let text = source.subrange(f.start, f.end);
                if starts_with_bom(text) {
                    Err(SpecDiscoveryError::Embedded(index, f.path))
                } else {
                    Ok(
                        prev.push(
                            SpecDiscovered {
                                node_index: index,
                                path: f.path,
                                embedded: canonical_bytes(text),
                                baseline: f.baseline,
                            },
                        ),
                    )
                }
            },
        }
    }
}

/// The fragments of one source node, in marker order.
pub open spec fn node_fragments(index: int, kind: NodeKind, source: Seq<u8>) -> Result<
    Seq<SpecDiscovered>,
    SpecDiscoveryError,
> {
    match spec_parse(kind, source) {
        Err(e) => Err(SpecDiscoveryError::Markers(index, e)),
        Ok(frags) => embedded_upto(index, source, frags, frags.len() as int),
    }
}

/// The fragments of the first `n` source nodes, in document order.
pub open spec fn discovered_upto(srcs: Seq<SpecSource>, n: int) -> Result<
    Seq<SpecDiscovered>,
    SpecDiscoveryError,
>
    decreases n,
{
    if n <= 0 {
        Ok(Seq::empty())
    } else {
        match discovered_upto(srcs, n - 1) {
            Err(e) => Err(e),
            Ok(prev) => match node_fragments(srcs[n - 1].index, srcs[n - 1].kind, srcs[n - 1].source) {
                Err(e) => Err(e),
                Ok(fs) => Ok(prev + fs),
            },
        }
    }
}

/// Where `x` goes in `s` to keep equal paths in arrival order: before the
/// first element whose path is greater.
pub open spec fn insert_pos(s: Seq<SpecDiscovered>, x: Seq<u8>) -> int
    decreases s.len(),
{
    if s.len() == 0 {
        0
    } else if seq_lt(x, s[0].path) {
        0
    } else {
        1 + insert_pos(s.drop_first(), x)
    }
}

pub open spec fn insert_sorted(s: Seq<SpecDiscovered>, x: SpecDiscovered) -> Seq<SpecDiscovered> {
    let p = insert_pos(s, x.path);
    s.subrange(0, p).push(x) + s.subrange(p, s.len() as int)
}

/// The first `n` fragments stably sorted by path.
pub open spec fn sorted_upto(d: Seq<SpecDiscovered>, n: int) -> Seq<SpecDiscovered>
    decreases n,
{
    if n <= 0 {
        Seq::empty()
    } else {
        insert_sorted(sorted_upto(d, n - 1), d[n - 1])
    }
}

pub open spec fn path_sorted(d: Seq<SpecDiscovered>) -> Seq<SpecDiscovered> {
    sorted_upto(d, d.len() as int)
}

/// The first position whose path equals the next one's, or `-1`.
pub open spec fn first_repeat_from(s: Seq<SpecDiscovered>, k: int) -> int
    decreases s.len() - k,
{
    if k < 0 || k + 1 >= s.len() {
        -1
    } else if s[k].path == s[k + 1].path {
        k
    } else {
        first_repeat_from(s, k + 1)
    }
}

pub open spec fn has_path(s: Seq<SpecDiscovered>, p: Seq<u8>) -> bool {
    exists|m: int| 0 <= m < s.len() && #[trigger] s[m].path == p
}

/// The first `/` in `p` at or after `j` whose prefix is a path in `s`.
pub open spec fn ancestor_end_from(s: Seq<SpecDiscovered>, p: Seq<u8>, j: int) -> int
    decreases p.len() - j,
{
    if j < 0 || j >= p.len() {
        -1
    } else if p[j] == 0x2f && has_path(s, p.subrange(0, j)) {
        j
    } else {
        ancestor_end_from(s, p, j + 1)
    }
}

/// The first fragment at or after `i` with an ancestor path in `s`.
pub open spec fn first_descendant_from(s: Seq<SpecDiscovered>, i: int) -> int
    decreases s.len() - i,
{
    if i < 0 || i >= s.len() {
        -1
    } else if ancestor_end_from(s, s[i].path, 0) >= 0 {
        i
    } else {
        first_descendant_from(s, i + 1)
    }
}

/// The fragments of a document in canonical path order, or why they cannot
/// be discovered.
pub open spec fn spec_discover(b: Seq<u8>) -> Result<Seq<SpecDiscovered>, SpecDiscoveryError> {
    if !well_formed_document(b) {
        Err(SpecDiscoveryError::Document)
    } else {
        let srcs = document_sources(b);
        match discovered_upto(srcs, srcs.len() as int) {
            Err(e) => Err(e),
            Ok(d) => {
                let s = path_sorted(d);
                let k = first_repeat_from(s, 0);
                if k >= 0 {
                    Err(SpecDiscoveryError::Duplicate(s[k].path, s[k].node_index, s[k + 1].node_index))
                } else {
                    let i = first_descendant_from(s, 0);
                    if i >= 0 {
                        let j = ancestor_end_from(s, s[i].path, 0);
                        Err(SpecDiscoveryError::PrefixConflict(s[i].path.subrange(0, j), s[i].path))
                    } else {
                        Ok(s)
                    }
                }
            },
        }
    }
}

/// A discovery or filesystem-validation failure. Failures of the reads
/// themselves carry the reader's message.
#[allow(inconsistent_fields)]
#[derive(Debug)]
pub enum InventoryError {
    DocumentInput { path: String, detail: String },
    SourceRoot { path: String, detail: String },
    InvalidDocument { source: DocumentError },
    InvalidMarkers { node_index: u32, source: ParseError },
    InvalidEmbeddedSource { node_index: u32, path: FragmentPath, source: CanonicalSourceError },
    DuplicateFragment { path: FragmentPath, first_node: u32, second_node: u32 },
    PathPrefixConflict { ancestor: FragmentPath, descendant: FragmentPath },
    DocumentTarget { path: FragmentPath, target: String },
    AliasedTargets { first_path: FragmentPath, second_path: FragmentPath },
    FragmentParent { path: FragmentPath, parent: String, detail: String },
    TargetAccess { path: FragmentPath, target: String, detail: String },
    TargetNotRegular { path: FragmentPath, target: String },
    TargetRead { path: FragmentPath, target: String, detail: String },
    InvalidTargetUtf8 { path: FragmentPath, target: String },
    InvalidTargetSource { path: FragmentPath, target: String, source: CanonicalSourceError },
}

pub open spec fn discovery_error_matches(e: InventoryError, s: SpecDiscoveryError) -> bool {
    match s {
        SpecDiscoveryError::Document => e is InvalidDocument,
        SpecDiscoveryError::Markers(i, pe) => e matches InventoryError::InvalidMarkers {
            node_index,
            source,
        } && node_index == i && source@ == pe,
        SpecDiscoveryError::Embedded(i, p) => e matches InventoryError::InvalidEmbeddedSource {
            node_index,
            path,
            source,
        } && node_index == i && path@ == p && source == CanonicalSourceError::ByteOrderMark,
        SpecDiscoveryError::Duplicate(p, a, b) => e matches InventoryError::DuplicateFragment {
            path,
            first_node,
            second_node,
        } && path@ == p && first_node == a && second_node == b,
        SpecDiscoveryError::PrefixConflict(a, d) => e matches InventoryError::PathPrefixConflict {
            ancestor,
            descendant,
        } && ancestor@ == a && descendant@ == d,
    }
}

proof fn lemma_discovered_err_stays(srcs: Seq<SpecSource>, m: int, n: int)
    requires
        0 <= m <= n,
        discovered_upto(srcs, m) is Err,
    ensures
        discovered_upto(srcs, n) == discovered_upto(srcs, m),
    decreases n - m,
{
    if m < n {
        lemma_discovered_err_stays(srcs, m, n - 1);
    }
}

proof fn lemma_embedded_err_stays(index: int, source: Seq<u8>, frags: Seq<SpecFragment>, m: int, n: int)
    requires
        0 <= m <= n,
        embedded_upto(index, source, frags, m) is Err,
    ensures
        embedded_upto(index, source, frags, n) == embedded_upto(index, source, frags, m),
    decreases n - m,
{
    if m < n {
        lemma_embedded_err_stays(index, source, frags, m, n - 1);
    }
}

/// Collects every fragment of one source node.
fn node_discovered(node_index: u32, kind: NodeKind, source: &str, out: &mut Vec<DiscoveredFragment>) -> (r: Result<(), InventoryError>)
    requires
        source.spec_bytes().len() < usize::MAX,
    ensures
        match node_fragments(node_index as int, kind, source.spec_bytes()) {
            Ok(fs) => r is Ok && discovered_views(final(out)@) == discovered_views(old(out)@) + fs,
            Err(se) => r matches Err(e) && discovery_error_matches(e, se),
        },
{
    let ghost start = discovered_views(out@);
    let parsed = match ParsedSource::parse(kind, source) {
        Ok(p) => p,
        Err(e) => {
            return Err(InventoryError::InvalidMarkers { node_index, source: e });
        },
    };
    let ghost frags = parsed@.fragments;
    let fragments = parsed.fragments();
    assert(discovered_views(out@).subrange(start.len() as int, start.len() as int) =~= Seq::<SpecDiscovered>::empty());
    assert(discovered_views(out@).subrange(0, start.len() as int) =~= start);
    let mut k: usize = 0;
    while k < fragments.len()
        invariant
            k <= fragments@.len(),
            spec_parse(kind, source.spec_bytes()) == Ok::<Seq<SpecFragment>, SpecParseError>(frags),
            fragments@.len() == frags.len(),
            frags == parsed@.fragments,
            parsed@.source == source.spec_bytes(),
            forall|i: int|
                0 <= i < fragments@.len() ==> {
                    let f = #[trigger] frags[i];
                    &&& fragments@[i].path@ == f.path
                    &&& hash_opt_view(fragments@[i].baseline) == f.baseline
                    &&& fragments@[i].source.spec_bytes() == parsed@.source.subrange(f.start, f.end)
                },
            embedded_upto(node_index as int, source.spec_bytes(), frags, k as int) == Ok::<Seq<SpecDiscovered>, SpecDiscoveryError>(
                discovered_views(out@).subrange(start.len() as int, discovered_views(out@).len() as int),
            ),
            discovered_views(out@).subrange(0, start.len() as int) == start,
            start.len() <= discovered_views(out@).len(),
        decreases fragments@.len() - k,
    {
        let fragment = &fragments[k];
        let ghost f = frags[k as int];
        let embedded = match CanonicalSource::new(fragment.source) {
            Ok(c) => c,
            Err(e) => {
                proof {
                    lemma_embedded_err_stays(node_index as int, source.spec_bytes(), frags, k + 1, frags.len() as int);
                }
                return Err(
                    InventoryError::InvalidEmbeddedSource {
                        node_index,
                        path: fragment.path.clone(),
                        source: e,
                    },
                );
            },
        };
        let ghost before = discovered_views(out@);
        out.push(
            DiscoveredFragment {
                node_index,
                path: fragment.path.clone(),
                embedded,
                baseline: fragment.baseline,
            },
        );
        proof {
            let d = SpecDiscovered {
                node_index: node_index as int,
                path: f.path,
                embedded: canonical_bytes(source.spec_bytes().subrange(f.start, f.end)),
                baseline: f.baseline,
            };
            assert(discovered_views(out@) =~= before.push(d));
            assert(discovered_views(out@).subrange(start.len() as int, discovered_views(out@).len() as int)
                =~= before.subrange(start.len() as int, before.len() as int).push(d));
            assert(discovered_views(out@).subrange(0, start.len() as int) =~= before.subrange(0, start.len() as int));
        }
        k = k + 1;
    }
    proof {
        assert(discovered_views(out@) =~= start + discovered_views(out@).subrange(start.len() as int, discovered_views(out@).len() as int));
    }
    Ok(())
}

/// The position at which `path` keeps `sorted` stably ordered.
fn insertion_point(sorted: &Vec<DiscoveredFragment>, path: &FragmentPath) -> (r: usize)
    ensures
        r == insert_pos(discovered_views(sorted@), path@),
        r <= sorted@.len(),
{
    let ghost s = discovered_views(sorted@);
    let key = path.as_str().as_bytes();
    let mut p: usize = 0;
    proof {
        assert(s.subrange(0, s.len() as int) =~= s);
        lemma_insert_pos_bound(s, path@);
    }
    while p < sorted.len()
        invariant
            p <= sorted@.len(),
            s == discovered_views(sorted@),
            key@ == path@,
            insert_pos(s, path@) == p + insert_pos(s.subrange(p as int, s.len() as int), path@),
        decreases sorted@.len() - p,
    {
        let ghost t = s.subrange(p as int, s.len() as int);
        assert(t[0] == s[p as int]);
        if bytes_lt(key, sorted[p].path.as_str().as_bytes()) {
            return p;
        }
        assert(t.drop_first() =~= s.subrange(p + 1, s.len() as int));
        p = p + 1;
    }
    p
}

proof fn lemma_insert_pos_bound(s: Seq<SpecDiscovered>, x: Seq<u8>)
    ensures
        0 <= insert_pos(s, x) <= s.len(),
    decreases s.len(),
{
    if s.len() > 0 {
        lemma_insert_pos_bound(s.drop_first(), x);
    }
}

/// Stably sorts fragments by path.
fn sort_by_path(mut discovered: Vec<DiscoveredFragment>) -> (r: Vec<DiscoveredFragment>)
    ensures
        discovered_views(r@) == path_sorted(discovered_views(discovered@)),
{
    let ghost d = discovered_views(discovered@);
    let n = discovered.len();
    let mut sorted: Vec<DiscoveredFragment> = Vec::new();
    let mut i: usize = 0;
    while i < n
        invariant
            i <= n,
            n == d.len(),
            discovered_views(discovered@) == d.subrange(i as int, n as int),
            discovered_views(sorted@) == sorted_upto(d, i as int),
        decreases n - i,
    {
        let ghost rest = discovered@;
        assert(discovered_views(discovered@).len() == discovered@.len());
        let x = discovered.remove(0);
        proof {
            assert(discovered_views(rest)[0] == x@);
            assert(d[i as int] == x@);
            assert(discovered@ =~= rest.subrange(1, rest.len() as int));
            assert forall|k: int| 0 <= k < discovered@.len() implies discovered_views(discovered@)[k]
                == d.subrange(i + 1, n as int)[k] by {
                assert(discovered@[k] == rest[k + 1]);
                assert(discovered_views(rest)[k + 1] == d.subrange(i as int, n as int)[k + 1]);
            }
            assert(discovered_views(discovered@) =~= d.subrange(i + 1, n as int));
        }
        let p = insertion_point(&sorted, &x.path);
        let ghost before = sorted@;
        sorted.insert(p, x);
        proof {
            assert(discovered_views(sorted@) =~= insert_sorted(discovered_views(before), d[i as int]));
        }
        i = i + 1;
    }
    sorted
}

/// The first repeated path, if any, as an error.
fn validate_uniqueness(sorted: &Vec<DiscoveredFragment>) -> (r: Result<(), InventoryError>)
    ensures
        ({
            let s = discovered_views(sorted@);
            let k = first_repeat_from(s, 0);
            &&& r is Ok <==> k < 0
            &&& r matches Err(e) ==> discovery_error_matches(
                e,
                SpecDiscoveryError::Duplicate(s[k].path, s[k].node_index, s[k + 1].node_index),
            )
        }),
{
    let ghost s = discovered_views(sorted@);
    let n = sorted.len();
    let mut k: usize = 0;
    while n > 0 && k < n - 1
        invariant
            n == sorted@.len(),
            s == discovered_views(sorted@),
            k + 1 <= n || n == 0,
            first_repeat_from(s, 0) == first_repeat_from(s, k as int),
        decreases n - k,
    {
        if bytes_eq(sorted[k].path.as_str().as_bytes(), sorted[k + 1].path.as_str().as_bytes()) {
            return Err(
                InventoryError::DuplicateFragment {
                    path: sorted[k].path.clone(),
                    first_node: sorted[k].node_index,
                    second_node: sorted[k + 1].node_index,
                },
            );
        }
        k = k + 1;
    }
    Ok(())
}

/// The position of a fragment whose path is exactly `p`.
fn find_path(sorted: &Vec<DiscoveredFragment>, p: &[u8]) -> (r: Option<usize>)
    ensures
        match r {
            Some(m) => m < sorted@.len() && discovered_views(sorted@)[m as int].path == p@,
            None => !has_path(discovered_views(sorted@), p@),
        },
{
    let ghost s = discovered_views(sorted@);
    let mut m: usize = 0;
    while m < sorted.len()
        invariant
            m <= sorted@.len(),
            s == discovered_views(sorted@),
            forall|k: int| 0 <= k < m ==> s[k].path != p@,
        decreases sorted@.len() - m,
    {
        if bytes_eq(sorted[m].path.as_str().as_bytes(), p) {
            return Some(m);
        }
        m = m + 1;
    }
    None
}

/// The first fragment with a strict component ancestor among the paths,
/// if any, as an error.
fn validate_path_prefixes(sorted: &Vec<DiscoveredFragment>) -> (r: Result<(), InventoryError>)
    ensures
        ({
            let s = discovered_views(sorted@);
            let i = first_descendant_from(s, 0);
            &&& r is Ok <==> i < 0
            &&& r matches Err(e) ==> discovery_error_matches(
                e,
                SpecDiscoveryError::PrefixConflict(
                    s[i].path.subrange(0, ancestor_end_from(s, s[i].path, 0)),
                    s[i].path,
                ),
            )
        }),
{
    let ghost s = discovered_views(sorted@);
    let n = sorted.len();
    assert(s.len() == n);
    let mut i: usize = 0;
    while i < n
        invariant
            n == sorted@.len(),
            s.len() == n,
            s == discovered_views(sorted@),
            i <= n,
            first_descendant_from(s, 0) == first_descendant_from(s, i as int),
        decreases n - i,
    {
        let path = sorted[i].path.as_str();
        let bytes = path.as_bytes();
        let ghost p = s[i as int].path;
        assert(bytes@ == p);
        let mut j: usize = 0;
        while j < bytes.len()
            invariant
                j <= bytes@.len(),
                bytes@ == p,
                p == s[i as int].path,
                path.spec_bytes() == p,
                is_canonical_path(p),
                s == discovered_views(sorted@),
                i < n == sorted@.len(),
                s.len() == n,
                first_descendant_from(s, 0) == first_descendant_from(s, i as int),
                ancestor_end_from(s, p, 0) == ancestor_end_from(s, p, j as int),
            decreases bytes@.len() - j,
        {
            if bytes[j] == 0x2f {
                let ancestor = &bytes[0..j];
                assert(ancestor@ == p.subrange(0, j as int));
                if let Some(m) = find_path(sorted, ancestor) {
                    assert(s[m as int].path == p.subrange(0, j as int));
                    assert(has_path(s, p.subrange(0, j as int)));
                    return Err(
                        InventoryError::PathPrefixConflict {
                            ancestor: sorted[m].path.clone(),
                            descendant: sorted[i].path.clone(),
                        },
                    );
                }
            }
            j = j + 1;
        }
        i = i + 1;
    }
    Ok(())
}

/// Every fragment of a document, validated and sorted by canonical path.
pub fn discover_fragments(document_bytes: &[u8]) -> (r: Result<Vec<DiscoveredFragment>, InventoryError>)
    ensures
        match spec_discover(document_bytes@) {
            Ok(s) => r matches Ok(v) && discovered_views(v@) == s,
            Err(se) => r matches Err(e) && discovery_error_matches(e, se),
        },
{
    let document = match Document::parse(document_bytes) {
        Ok(d) => d,
        Err(source) => {
            return Err(InventoryError::InvalidDocument { source });
        },
    };
    let nodes = document.sources();
    let ghost srcs = document_sources(document_bytes@);
    let mut discovered: Vec<DiscoveredFragment> = Vec::new();
    assert(discovered_views(discovered@) =~= Seq::<SpecDiscovered>::empty());
    let mut i: usize = 0;
    while i < nodes.len()
        invariant
            i <= nodes@.len(),
            nodes@.len() == srcs.len(),
            srcs == document@.sources,
            srcs == document_sources(document_bytes@),
            well_formed_document(document_bytes@),
            document@.bytes == document_bytes@,
            document@.bytes.len() <= usize::MAX,
            forall|k: int|
                0 <= k < nodes@.len() ==> {
                    &&& (#[trigger] nodes@[k]).handle@.index == srcs[k].index
                    &&& nodes@[k].kind == srcs[k].kind
                    &&& nodes@[k].source.spec_bytes() == srcs[k].source
                    &&& nodes@[k].source.spec_bytes().len() < document@.bytes.len()
                },
            discovered_upto(srcs, i as int) == Ok::<Seq<SpecDiscovered>, SpecDiscoveryError>(
                discovered_views(discovered@),
            ),
        decreases nodes@.len() - i,
    {
        let node = &nodes[i];
        let ghost sv = srcs[i as int];
        let node_index = node.handle.index();
        let ghost before = discovered_views(discovered@);
        assert(node_index as int == sv.index && node.kind == sv.kind && node.source.spec_bytes() == sv.source);
        match node_discovered(node_index, node.kind, node.source, &mut discovered) {
            Ok(()) => {},
            Err(e) => {
                proof {
                    assert(node_fragments(sv.index, sv.kind, sv.source) is Err);
                    assert(discovered_upto(srcs, i + 1) == node_fragments(sv.index, sv.kind, sv.source));
                    lemma_discovered_err_stays(srcs, i + 1, srcs.len() as int);
                    assert(well_formed_document(document_bytes@));
                }
                return Err(e);
            },
        }
        i = i + 1;
    }
    let sorted = sort_by_path(discovered);
    validate_uniqueness(&sorted)?;
    validate_path_prefixes(&sorted)?;
    Ok(sorted)
}

pub open spec fn path_le(a: Seq<u8>, b: Seq<u8>) -> bool {
    a == b || seq_lt(a, b)
}

pub open spec fn sorted_by_path(s: Seq<SpecDiscovered>) -> bool {
    forall|i: int, j: int| 0 <= i < j < s.len() ==> path_le(#[trigger] s[i].path, #[trigger] s[j].path)
}

proof fn lemma_path_le_trans(a: Seq<u8>, b: Seq<u8>, c: Seq<u8>)
    requires
        path_le(a, b),
        path_le(b, c),
    ensures
        path_le(a, c),
        seq_lt(a, b) || seq_lt(b, c) ==> seq_lt(a, c),
{
    if seq_lt(a, b) && seq_lt(b, c) {
        crate::text::lemma_seq_lt_transitive(a, b, c);
    }
}

proof fn lemma_insert_pos_props(s: Seq<SpecDiscovered>, x: Seq<u8>)
    ensures
        0 <= insert_pos(s, x) <= s.len(),
        forall|i: int| 0 <= i < insert_pos(s, x) ==> !seq_lt(x, #[trigger] s[i].path),
        insert_pos(s, x) < s.len() ==> seq_lt(x, s[insert_pos(s, x)].path),
    decreases s.len(),
{
    if s.len() > 0 && !seq_lt(x, s[0].path) {
        let t = s.drop_first();
        lemma_insert_pos_props(t, x);
        assert forall|i: int| 0 <= i < insert_pos(s, x) implies !seq_lt(x, #[trigger] s[i].path) by {
            if i > 0 {
                assert(s[i] == t[i - 1]);
            }
        }
        if insert_pos(s, x) < s.len() {
            assert(s[insert_pos(s, x)] == t[insert_pos(t, x)]);
        }
    }
}

proof fn lemma_insert_keeps_sorted(s: Seq<SpecDiscovered>, x: SpecDiscovered)
    requires
        sorted_by_path(s),
    ensures
        sorted_by_path(insert_sorted(s, x)),
        insert_sorted(s, x).len() == s.len() + 1,
{
    lemma_insert_pos_props(s, x.path);
    let p = insert_pos(s, x.path);
    let r = insert_sorted(s, x);
    assert(r.len() == s.len() + 1);
    assert forall|i: int| 0 <= i < r.len() implies #[trigger] r[i] == (if i < p {
        s[i]
    } else if i == p {
        x
    } else {
        s[i - 1]
    }) by {}
    assert forall|i: int, j: int| 0 <= i < j < r.len() implies path_le(#[trigger] r[i].path, #[trigger] r[j].path) by {
        if j < p {
        } else if j == p {
            crate::fragment::lemma_seq_lt_total(x.path, s[i].path);
        } else if i < p {
            assert(path_le(s[i].path, s[j - 1].path));
        } else if i == p {
            assert(seq_lt(x.path, s[p].path));
            if j - 1 > p {
                assert(path_le(s[p].path, s[j - 1].path));
                lemma_path_le_trans(x.path, s[p].path, s[j - 1].path);
            }
        } else {
            assert(path_le(s[i - 1].path, s[j - 1].path));
        }
    }
}

proof fn lemma_sorted_upto(d: Seq<SpecDiscovered>, n: int)
    requires
        0 <= n <= d.len(),
    ensures
        sorted_by_path(sorted_upto(d, n)),
        sorted_upto(d, n).len() == n,
    decreases n,
{
    if n > 0 {
        lemma_sorted_upto(d, n - 1);
        lemma_insert_keeps_sorted(sorted_upto(d, n - 1), d[n - 1]);
    }
}

proof fn lemma_no_repeat(s: Seq<SpecDiscovered>, k: int)
    requires
        0 <= k,
        first_repeat_from(s, k) < 0,
    ensures
        forall|m: int| k <= m < s.len() - 1 ==> s[m].path != #[trigger] s[m + 1].path,
    decreases s.len() - k,
{
    if k + 1 < s.len() {
        lemma_no_repeat(s, k + 1);
    }
}

proof fn lemma_strict_chain(s: Seq<SpecDiscovered>, i: int, j: int)
    requires
        sorted_by_path(s),
        forall|m: int| 0 <= m < s.len() - 1 ==> s[m].path != #[trigger] s[m + 1].path,
        0 <= i < j < s.len(),
    ensures
        seq_lt(s[i].path, s[j].path),
    decreases j - i,
{
    assert(path_le(s[i].path, s[i + 1].path));
    assert(s[i].path != s[i + 1].path);
    if j > i + 1 {
        lemma_strict_chain(s, i + 1, j);
        crate::text::lemma_seq_lt_transitive(s[i].path, s[i + 1].path, s[j].path);
    }
}

/// The fragments of a discovered document are strictly ordered by path, so
/// no two share a path.
pub proof fn lemma_discovered_sorted(b: Seq<u8>)
    ensures
        spec_discover(b) matches Ok(s) ==> strictly_increasing_paths(
            s.map_values(|d: SpecDiscovered| d.path),
        ),
{
    if spec_discover(b) is Ok {
        let srcs = document_sources(b);
        let d = discovered_upto(srcs, srcs.len() as int)->Ok_0;
        let s = path_sorted(d);
        lemma_sorted_upto(d, d.len() as int);
        lemma_no_repeat(s, 0);
        let ps = s.map_values(|d: SpecDiscovered| d.path);
        assert forall|i: int, j: int| 0 <= i < j < ps.len() implies seq_lt(#[trigger] ps[i], #[trigger] ps[j]) by {
            lemma_strict_chain(s, i, j);
        }
    }
}

proof fn lemma_no_ancestor_from(s: Seq<SpecDiscovered>, p: Seq<u8>, j: int)
    requires
        0 <= j,
        ancestor_end_from(s, p, j) < 0,
    ensures
        forall|k: int| j <= k < p.len() && p[k] == 0x2f ==> !has_path(s, #[trigger] p.subrange(0, k)),
    decreases p.len() - j,
{
    if j < p.len() {
        lemma_no_ancestor_from(s, p, j + 1);
    }
}

proof fn lemma_no_descendant_from(s: Seq<SpecDiscovered>, i: int)
    requires
        0 <= i,
        first_descendant_from(s, i) < 0,
    ensures
        forall|l: int| i <= l < s.len() ==> ancestor_end_from(s, #[trigger] s[l].path, 0) < 0,
    decreases s.len() - i,
{
    if i < s.len() {
        lemma_no_descendant_from(s, i + 1);
    }
}

/// No fragment path of a discovered document is a strict component ancestor
/// of another: no prefix of a path that ends before one of its `/` is itself
/// a discovered path.
pub proof fn lemma_discovered_prefix_free(b: Seq<u8>)
    ensures
        spec_discover(b) matches Ok(s) ==> forall|i: int, k: int|
            0 <= i < s.len() && 0 <= k < s[i].path.len() && s[i].path[k] == 0x2f ==> !has_path(
                s,
                #[trigger] s[i].path.subrange(0, k),
            ),
{
    if spec_discover(b) is Ok {
        let s = spec_discover(b)->Ok_0;
        lemma_no_descendant_from(s, 0);
        assert forall|i: int, k: int|
            0 <= i < s.len() && 0 <= k < s[i].path.len() && s[i].path[k] == 0x2f implies !has_path(
            s,
            #[trigger] s[i].path.subrange(0, k),
        ) by {
            assert(ancestor_end_from(s, s[i].path, 0) < 0);
            lemma_no_ancestor_from(s, s[i].path, 0);
        }
    }
}

// ---------------------------------------------------------------------------
// Filesystem inputs
// ---------------------------------------------------------------------------

/// The identity of an existing file: its device and inode.
#[derive(Clone, Copy, Debug, PartialEq, Eq, Structural)]
pub struct FileIdentity {
    pub device: u64,
    pub inode: u64,
}

impl FileIdentity {
    pub fn new(device: u64, inode: u64) -> (r: Self)
        ensures
            r == (FileIdentity { device, inode }),
    {
        FileIdentity { device, inode }
    }
}

/// The bytes and identity of an existing target, read once.
pub struct TargetInput {
    pub bytes: Vec<u8>,
    pub identity: FileIdentity,
}

/// The named path and identity of the document being synchronized.
pub struct DocumentOrigin {
    pub path: String,
    pub identity: FileIdentity,
}

/// One fragment and its validated filesystem input.
#[derive(Debug)]
pub struct InventoryEntry {
    pub node_index: u32,
    pub path: FragmentPath,
    pub embedded: CanonicalSource,
    pub baseline: Option<BaselineHash>,
    pub target: String,
    pub filesystem: Option<CanonicalSource>,
}

pub open spec fn entry_paths(entries: Seq<InventoryEntry>) -> Seq<Seq<u8>> {
    entries.map_values(|e: InventoryEntry| e.path@)
}

pub open spec fn strictly_increasing_paths(paths: Seq<Seq<u8>>) -> bool {
    forall|i: int, j: int| 0 <= i < j < paths.len() ==> seq_lt(#[trigger] paths[i], #[trigger] paths[j])
}

/// What a target read decides for the fragment it belongs to.
pub enum SpecTarget {
    /// The target is the document itself.
    DocumentTarget,
    /// The target is the same existing file as this earlier fragment's.
    Aliased(Seq<u8>),
    /// The target's bytes are not UTF-8.
    InvalidUtf8,
    /// The target's text starts with a byte-order mark.
    ByteOrderMark,
    /// The target is absent, or holds this canonical source.
    Accepted(Option<Seq<u8>>),
}

/// The earlier fragment whose existing target has identity `id`.
pub open spec fn alias_of(identities: Seq<(FileIdentity, Seq<u8>)>, id: FileIdentity) -> Option<Seq<u8>>
    decreases identities.len(),
{
    if identities.len() == 0 {
        None
    } else if identities[0].0 == id {
        Some(identities[0].1)
    } else {
        alias_of(identities.drop_first(), id)
    }
}

pub open spec fn spec_target(
    origin: Option<(Seq<char>, FileIdentity)>,
    identities: Seq<(FileIdentity, Seq<u8>)>,
    target: Seq<char>,
    input: Option<(Seq<u8>, FileIdentity)>,
) -> SpecTarget {
    if origin matches Some(o) && o.0 == target {
        SpecTarget::DocumentTarget
    } else {
        match input {
            None => SpecTarget::Accepted(None),
            Some((bytes, id)) => if origin matches Some(o) && o.1 == id {
                SpecTarget::DocumentTarget
            } else if alias_of(identities, id) is Some {
                SpecTarget::Aliased(alias_of(identities, id).unwrap())
            } else if !valid_utf8(bytes) {
                SpecTarget::InvalidUtf8
            } else if starts_with_bom(bytes) {
                SpecTarget::ByteOrderMark
            } else {
                SpecTarget::Accepted(Some(canonical_bytes(bytes)))
            },
        }
    }
}

/// Fragment discovery in progress: the document's fragments in path order,
/// each waiting for its target to be read and accepted in turn.
pub struct Discovery {
    document_bytes: Vec<u8>,
    origin: Option<DocumentOrigin>,
    root: String,
    pending: Vec<DiscoveredFragment>,
    next: usize,
    entries: Vec<InventoryEntry>,
    identities: Vec<(FileIdentity, FragmentPath)>,
    entry_identities: Ghost<Seq<Option<FileIdentity>>>,
}

pub open spec fn origin_view(o: Option<DocumentOrigin>) -> Option<(Seq<char>, FileIdentity)> {
    match o {
        Some(o) => Some((o.path@, o.identity)),
        None => None,
    }
}

pub open spec fn input_view(i: Option<TargetInput>) -> Option<(Seq<u8>, FileIdentity)> {
    match i {
        Some(i) => Some((i.bytes@, i.identity)),
        None => None,
    }
}

pub open spec fn identity_views(ids: Seq<(FileIdentity, FragmentPath)>) -> Seq<(FileIdentity, Seq<u8>)> {
    ids.map_values(|p: (FileIdentity, FragmentPath)| (p.0, p.1@))
}

/// An inventory entry: its node, path, embedded source and baseline, the
/// named target, and the canonical source of the target's file, if any.
pub struct EntryView {
    pub node_index: int,
    pub path: Seq<u8>,
    pub embedded: Seq<u8>,
    pub baseline: Option<Seq<u8>>,
    pub target: Seq<char>,
    pub filesystem: Option<Seq<u8>>,
}

pub open spec fn source_opt_view(s: Option<CanonicalSource>) -> Option<Seq<u8>> {
    match s {
        Some(c) => Some(c@),
        None => None,
    }
}

pub open spec fn inventory_entry_view(e: InventoryEntry) -> EntryView {
    EntryView {
        node_index: e.node_index as int,
        path: e.path@,
        embedded: e.embedded@,
        baseline: hash_opt_view(e.baseline),
        target: e.target@,
        filesystem: source_opt_view(e.filesystem),
    }
}

pub open spec fn inventory_entry_views(es: Seq<InventoryEntry>) -> Seq<EntryView> {
    es.map_values(|e: InventoryEntry| inventory_entry_view(e))
}

/// The entry a fragment makes once its target is accepted.
pub open spec fn accepted_entry(f: SpecDiscovered, target: Seq<char>, filesystem: Option<Seq<u8>>) -> EntryView {
    EntryView {
        node_index: f.node_index,
        path: f.path,
        embedded: f.embedded,
        baseline: f.baseline,
        target,
        filesystem,
    }
}

/// The state of a discovery: the document, the sorted fragments, how many
/// were accepted, the entries made so far, and the identities of the
/// existing targets so far.
pub struct DiscoveryView {
    pub document: Seq<u8>,
    pub origin: Option<(Seq<char>, FileIdentity)>,
    pub root: Seq<u8>,
    pub fragments: Seq<SpecDiscovered>,
    pub next: int,
    pub entry_paths: Seq<Seq<u8>>,
    pub entries: Seq<EntryView>,
    pub identities: Seq<(FileIdentity, Seq<u8>)>,
    pub entry_identities: Seq<Option<FileIdentity>>,
}

impl View for Discovery {
    type V = DiscoveryView;

    closed spec fn view(&self) -> DiscoveryView {
        DiscoveryView {
            document: self.document_bytes@,
            origin: origin_view(self.origin),
            root: string_bytes(self.root),
            fragments: discovered_views(self.pending@),
            next: self.next as int,
            entry_paths: entry_paths(self.entries@),
            entries: inventory_entry_views(self.entries@),
            identities: identity_views(self.identities@),
            entry_identities: self.entry_identities@,
        }
    }
}

/// Entry `e` is the inventory entry of discovered fragment `d`.
pub open spec fn entry_of(e: InventoryEntry, d: SpecDiscovered) -> bool {
    &&& e.node_index as int == d.node_index
    &&& e.path@ == d.path
    &&& e.embedded@ == d.embedded
    &&& hash_opt_view(e.baseline) == d.baseline
}

/// The entries are those of the discovered fragments `s`, in order.
pub open spec fn entries_of(es: Seq<InventoryEntry>, s: Seq<SpecDiscovered>) -> bool {
    &&& es.len() == s.len()
    &&& forall|k: int| 0 <= k < es.len() ==> entry_of(#[trigger] es[k], s[k])
}

/// Each entry's target is its path under the source root `root`, and its
/// sources are canonical.
pub open spec fn entries_under(es: Seq<InventoryEntry>, root: Seq<u8>) -> bool {
    forall|k: int|
        0 <= k < es.len() ==> {
            &&& string_bytes((#[trigger] es[k]).target) == spec_resolve_from(root, es[k].path@)
            &&& CanonicalSource::wf_bytes(es[k].embedded@)
            &&& (es[k].filesystem matches Some(c) ==> CanonicalSource::wf_bytes(c@))
        }
}

/// The file identities of the entries' targets: one for each entry whose
/// target exists, and no two alike.
pub open spec fn distinct_identities(es: Seq<InventoryEntry>, ids: Seq<Option<FileIdentity>>) -> bool {
    &&& ids.len() == es.len()
    &&& forall|k: int| 0 <= k < es.len() ==> ((#[trigger] ids[k]) is Some <==> es[k].filesystem is Some)
    &&& forall|i: int, j: int| 0 <= i < j < ids.len() && ids[i] is Some ==> #[trigger] ids[i] != #[trigger] ids[j]
}

proof fn lemma_alias_of_push(s: Seq<(FileIdentity, Seq<u8>)>, x: (FileIdentity, Seq<u8>), id: FileIdentity)
    ensures
        alias_of(s.push(x), id) == if alias_of(s, id) is Some {
            alias_of(s, id)
        } else if x.0 == id {
            Some(x.1)
        } else {
            None
        },
    decreases s.len(),
{
    if s.len() == 0 {
        assert(s.push(x)[0] == x);
        assert(s.push(x).drop_first() =~= Seq::<(FileIdentity, Seq<u8>)>::empty());
    } else {
        assert(s.push(x)[0] == s[0]);
        assert(s.push(x).drop_first() =~= s.drop_first().push(x));
        lemma_alias_of_push(s.drop_first(), x, id);
    }
}

impl Discovery {
    #[verifier::type_invariant]
    closed spec fn wf(&self) -> bool {
        &&& self.next <= self.pending@.len()
        &&& self.entries@.len() == self.next
        &&& entry_paths(self.entries@) == discovered_views(self.pending@).subrange(0, self.next as int).map_values(|d: SpecDiscovered| d.path)
        &&& strictly_increasing_paths(discovered_views(self.pending@).map_values(|d: SpecDiscovered| d.path))
        &&& spec_discover(self.document_bytes@) == Ok::<Seq<SpecDiscovered>, SpecDiscoveryError>(discovered_views(self.pending@))
        &&& entries_of(self.entries@, discovered_views(self.pending@).subrange(0, self.next as int))
        &&& entries_under(self.entries@, string_bytes(self.root))
        &&& distinct_identities(self.entries@, self.entry_identities@)
        &&& forall|k: int|
            0 <= k < self.entry_identities@.len() && (#[trigger] self.entry_identities@[k]) is Some
                ==> alias_of(identity_views(self.identities@), self.entry_identities@[k]->Some_0) is Some
    }

    /// Discovers the document's fragments; their targets, under the source
    /// root `root`, are accepted next.
    pub fn start(document_bytes: Vec<u8>, origin: Option<DocumentOrigin>, root: String) -> (r: Result<Discovery, InventoryError>)
        ensures
            match spec_discover(document_bytes@) {
                Ok(s) => r matches Ok(d) && d@.fragments == s && d@.next == 0 && d@.document == document_bytes@
                    && d@.origin == origin_view(origin) && d@.root == string_bytes(root)
                    && d@.identities.len() == 0 && d@.entries.len() == 0 && d@.entry_identities.len() == 0,
                Err(se) => r matches Err(e) && discovery_error_matches(e, se),
            },
    {
        let pending = discover_fragments(document_bytes.as_slice())?;
        proof {
            lemma_discovered_sorted(document_bytes@);
        }
        let entries: Vec<InventoryEntry> = Vec::new();
        let identities: Vec<(FileIdentity, FragmentPath)> = Vec::new();
        assert(entry_paths(entries@) =~= discovered_views(pending@).subrange(0, 0).map_values(|d: SpecDiscovered| d.path));
        assert(entries_of(entries@, discovered_views(pending@).subrange(0, 0)));
        let d = Discovery {
            document_bytes,
            origin,
            root,
            pending,
            next: 0,
            entries,
            identities,
            entry_identities: Ghost(Seq::empty()),
        };
        assert(d@.identities =~= Seq::<(FileIdentity, Seq<u8>)>::empty());
        Ok(d)
    }

    /// The next fragment whose target is to be read.
    pub fn next_fragment(&self) -> (r: Option<&DiscoveredFragment>)
        ensures
            match r {
                Some(f) => self@.next < self@.fragments.len() && f@ == self@.fragments[self@.next],
                None => self@.next == self@.fragments.len(),
            },
    {
        proof {
            use_type_invariant(self);
        }
        if self.next < self.pending.len() {
            Some(&self.pending[self.next])
        } else {
            None
        }
    }

    /// The named target of the next fragment: its path under the source root.
    pub fn next_target(&self) -> (r: Option<String>)
        ensures
            match r {
                Some(t) => self@.next < self@.fragments.len() && string_bytes(t) == spec_resolve_from(
                    self@.root,
                    self@.fragments[self@.next].path,
                ),
                None => self@.next == self@.fragments.len(),
            },
    {
        proof {
            use_type_invariant(self);
        }
        if self.next < self.pending.len() {
            assert(self.pending@[self.next as int]@ == self@.fragments[self@.next]);
            Some(resolve_from(self.root.as_str(), self.pending[self.next].path.as_str()))
        } else {
            None
        }
    }

    /// Whether `target` names the document itself.
    pub fn targets_document(&self, target: &str) -> (r: bool)
        ensures
            r == (self@.origin matches Some(o) && o.0 == target@),
    {
        match &self.origin {
            Some(o) => {
                let r = bytes_eq(o.path.as_str().as_bytes(), target.as_bytes());
                proof {
                    if r {
                        assert(decode_utf8(encode_utf8(o.path@)) == decode_utf8(encode_utf8(target@)));
                    }
                }
                r
            },
            None => false,
        }
    }

    /// Accepts the next fragment with its named target, as `next_target`
    /// gives it, and what reading the target found: nothing, or its bytes
    /// and file identity.
    pub fn accept(self, target: String, input: Option<TargetInput>) -> (r: Result<Discovery, InventoryError>)
        requires
            self@.next < self@.fragments.len(),
            string_bytes(target) == spec_resolve_from(self@.root, self@.fragments[self@.next].path),
        ensures
            ({
                let f = self@.fragments[self@.next];
                match spec_target(self@.origin, self@.identities, target@, input_view(input)) {
                    SpecTarget::DocumentTarget => r matches Err(InventoryError::DocumentTarget { path, target: t })
                        && path@ == f.path && t@ == target@,
                    SpecTarget::Aliased(first) => r matches Err(InventoryError::AliasedTargets { first_path, second_path })
                        && first_path@ == first && second_path@ == f.path,
                    SpecTarget::InvalidUtf8 => r matches Err(InventoryError::InvalidTargetUtf8 { path, target: t })
                        && path@ == f.path && t@ == target@,
                    SpecTarget::ByteOrderMark => r matches Err(InventoryError::InvalidTargetSource { path, target: t, source })
                        && path@ == f.path && t@ == target@ && source == CanonicalSourceError::ByteOrderMark,
                    SpecTarget::Accepted(fs) => r matches Ok(d) && d@.document == self@.document
                        && d@.origin == self@.origin && d@.fragments == self@.fragments
                        && d@.next == self@.next + 1
                        && d@.root == self@.root
                        && d@.entries == self@.entries.push(accepted_entry(f, target@, fs))
                        && d@.entry_identities == self@.entry_identities.push(
                            match input_view(input) {
                                Some((_, id)) => Some(id),
                                None => None,
                            },
                        )
                        && d@.identities == match input_view(input) {
                            Some((_, id)) => self@.identities.push((id, f.path)),
                            None => self@.identities,
                        },
                }
            }),
    {
        proof {
            use_type_invariant(&self);
        }
        let ghost old_view = self@;
        let ghost f = self@.fragments[self@.next];
        assert(self.pending@[self.next as int]@ == f);
        if self.targets_document(target.as_str()) {
            let path = self.pending[self.next].path.clone();
            return Err(InventoryError::DocumentTarget { path, target });
        }
        let Discovery { document_bytes, origin, root, pending, next, mut entries, mut identities, entry_identities } = self;
        let ghost old_ids = identities@;
        let filesystem = match input {
            None => None,
            Some(input) => {
                let same_as_document = match &origin {
                    Some(o) => o.identity == input.identity,
                    None => false,
                };
                if same_as_document {
                    let path = pending[next].path.clone();
                    return Err(InventoryError::DocumentTarget { path, target });
                }
                match find_identity(&identities, input.identity) {
                    Some(k) => {
                        let first_path = identities[k].1.clone();
                        let second_path = pending[next].path.clone();
                        return Err(InventoryError::AliasedTargets { first_path, second_path });
                    },
                    None => {},
                }
                let path = pending[next].path.clone();
                let ghost ids = identities@;
                identities.push((input.identity, path));
                assert(identity_views(identities@) =~= identity_views(ids).push((input.identity, f.path)));
                proof {
                    assert forall|id: FileIdentity| alias_of(identity_views(ids), id) is Some implies alias_of(
                        identity_views(identities@),
                        id,
                    ) is Some by {
                        lemma_alias_of_push(identity_views(ids), (input.identity, f.path), id);
                    }
                    lemma_alias_of_push(identity_views(ids), (input.identity, f.path), input.identity);
                }
                let text = match str_from_utf8(input.bytes.as_slice()) {
                    Some(text) => text,
                    None => {
                        let path = pending[next].path.clone();
                        return Err(InventoryError::InvalidTargetUtf8 { path, target });
                    },
                };
                match CanonicalSource::new(text) {
                    Ok(c) => Some(c),
                    Err(source) => {
                        let path = pending[next].path.clone();
                        return Err(InventoryError::InvalidTargetSource { path, target, source });
                    },
                }
            },
        };
        let pending_len = pending.len();
        assert(next < pending_len);
        let fragment = &pending[next];
        let entry = InventoryEntry {
            node_index: fragment.node_index,
            path: fragment.path.clone(),
            embedded: fragment.embedded.clone(),
            baseline: fragment.baseline,
            target,
            filesystem,
        };
        let ghost new_id: Option<FileIdentity> = match input_view(input) {
            Some((_, id)) => Some(id),
            None => None,
        };
        let ghost before = entries@;
        entries.push(entry);
        let ghost ids_after = entry_identities@.push(new_id);
        proof {
            assert(entries_under(entries@, string_bytes(root))) by {
                assert forall|k: int| 0 <= k < entries@.len() implies #[trigger] entries@[k] == (if k < before.len() {
                    before[k]
                } else {
                    entry
                }) by {}
            }
            if let Some(id) = new_id {
                assert(alias_of(identity_views(old_ids), id) is None);
                assert forall|k: int| 0 <= k < before.len() && (#[trigger] entry_identities@[k]) is Some implies entry_identities@[k]
                    != new_id by {
                    assert(alias_of(identity_views(old_ids), entry_identities@[k]->Some_0) is Some);
                }
            }
            assert(distinct_identities(entries@, ids_after)) by {
                assert forall|i: int, j: int| 0 <= i < j < ids_after.len() && ids_after[i] is Some implies #[trigger] ids_after[i]
                    != #[trigger] ids_after[j] by {
                    if j == before.len() {
                        assert(ids_after[i] == entry_identities@[i]);
                    }
                }
                assert forall|k: int| 0 <= k < entries@.len() implies ((#[trigger] ids_after[k]) is Some <==> entries@[k].filesystem is Some) by {
                    if k < before.len() {
                        assert(entries@[k] == before[k]);
                    }
                }
            }
            assert forall|k: int|
                0 <= k < ids_after.len() && (#[trigger] ids_after[k]) is Some implies alias_of(
                identity_views(identities@),
                ids_after[k]->Some_0,
            ) is Some by {
                if k < before.len() {
                    assert(ids_after[k] == entry_identities@[k]);
                }
            }
            assert(inventory_entry_views(entries@) =~= inventory_entry_views(before).push(accepted_entry(f, target@, source_opt_view(filesystem))));
            let ds = discovered_views(pending@);
            assert forall|k: int| 0 <= k < entries@.len() implies entry_of(#[trigger] entries@[k], ds.subrange(0, next + 1)[k]) by {
                if k < before.len() {
                    assert(entries@[k] == before[k]);
                    assert(ds.subrange(0, next + 1)[k] == ds.subrange(0, next as int)[k]);
                } else {
                    assert(ds.subrange(0, next + 1)[k] == f);
                }
            }
            let ps = discovered_views(pending@);
            assert(entry_paths(entries@) =~= entry_paths(before).push(f.path));
            assert(ps.subrange(0, next + 1).map_values(|d: SpecDiscovered| d.path) =~= ps.subrange(
                0,
                next as int,
            ).map_values(|d: SpecDiscovered| d.path).push(f.path));
        }
        Ok(
            Discovery {
                document_bytes,
                origin,
                root,
                pending,
                next: next + 1,
                entries,
                identities,
                entry_identities: Ghost(ids_after),
            },
        )
    }

    /// The complete inventory, once every fragment was accepted.
    pub fn finish(self) -> (r: Inventory)
        requires
            self@.next == self@.fragments.len(),
        ensures
            r@.document == self@.document,
            r@.paths == self@.fragments.map_values(|d: SpecDiscovered| d.path),
            inventory_entry_views(r@.entries) == self@.entries,
            r@.root == self@.root,
            r@.identities == self@.entry_identities,
    {
        proof {
            use_type_invariant(&self);
        }
        let ps = Ghost(discovered_views(self.pending@));
        assert(ps@.subrange(0, self.next as int) =~= ps@);
        assert(entries_of(self.entries@, ps@));
        Inventory {
            document_bytes: self.document_bytes,
            root: self.root,
            entries: self.entries,
            identities: self.entry_identities,
        }
    }
}

fn find_identity(identities: &Vec<(FileIdentity, FragmentPath)>, id: FileIdentity) -> (r: Option<usize>)
    ensures
        match alias_of(identity_views(identities@), id) {
            Some(p) => r matches Some(k) && k < identities@.len() && identities@[k as int].1@ == p,
            None => r is None,
        },
{
    let ghost v = identity_views(identities@);
    assert(v.subrange(0, v.len() as int) =~= v);
    let mut k: usize = 0;
    while k < identities.len()
        invariant
            k <= identities@.len(),
            v == identity_views(identities@),
            alias_of(v, id) == alias_of(v.subrange(k as int, v.len() as int), id),
        decreases identities@.len() - k,
    {
        let ghost t = v.subrange(k as int, v.len() as int);
        assert(t[0] == v[k as int]);
        if identities[k].0 == id {
            return Some(k);
        }
        assert(t.drop_first() =~= v.subrange(k + 1, v.len() as int));
        k = k + 1;
    }
    assert(v.subrange(k as int, v.len() as int) =~= Seq::<(FileIdentity, Seq<u8>)>::empty());
    None
}

// ---------------------------------------------------------------------------
// The inventory
// ---------------------------------------------------------------------------

/// A path-sorted, owned view of every fragment and its filesystem input.
pub struct Inventory {
    document_bytes: Vec<u8>,
    root: String,
    entries: Vec<InventoryEntry>,
    identities: Ghost<Seq<Option<FileIdentity>>>,
}

/// The document, the source root, the entries with their paths, and the
/// file identity of each entry's existing target.
pub struct InventoryView {
    pub document: Seq<u8>,
    pub root: Seq<u8>,
    pub entries: Seq<InventoryEntry>,
    pub paths: Seq<Seq<u8>>,
    pub identities: Seq<Option<FileIdentity>>,
}

impl View for Inventory {
    type V = InventoryView;

    closed spec fn view(&self) -> InventoryView {
        InventoryView {
            document: self.document_bytes@,
            root: string_bytes(self.root),
            entries: self.entries@,
            paths: entry_paths(self.entries@),
            identities: self.identities@,
        }
    }
}

/// A selector that does not match the discovered inventory.
#[derive(Debug)]
pub enum SelectorError {
    UnknownPath { path: FragmentPath },
}

pub open spec fn selector_paths(selectors: Seq<FragmentPath>) -> Seq<Seq<u8>> {
    selectors.map_values(|p: FragmentPath| p@)
}

/// The selector does not name any entry.
pub open spec fn unknown_selector(paths: Seq<Seq<u8>>, p: Seq<u8>) -> bool {
    !paths.contains(p)
}

/// The positions of entries named by a selector, in path order.
pub open spec fn selected_upto(paths: Seq<Seq<u8>>, selectors: Seq<Seq<u8>>, n: int) -> Seq<int>
    decreases n,
{
    if n <= 0 {
        Seq::empty()
    } else if selectors.contains(paths[n - 1]) {
        selected_upto(paths, selectors, n - 1).push(n - 1)
    } else {
        selected_upto(paths, selectors, n - 1)
    }
}

/// The positions a selection chooses: every entry when no selector is given,
/// else those named by a selector, in path order.
pub open spec fn selection_of(paths: Seq<Seq<u8>>, selectors: Seq<Seq<u8>>) -> Seq<int> {
    if selectors.len() == 0 {
        Seq::new(paths.len(), |i: int| i)
    } else {
        selected_upto(paths, selectors, paths.len() as int)
    }
}

proof fn lemma_selected_upto_exact(paths: Seq<Seq<u8>>, selectors: Seq<Seq<u8>>, n: int)
    requires
        0 <= n <= paths.len(),
    ensures
        ({
            let s = selected_upto(paths, selectors, n);
            &&& forall|k: int| 0 <= k < s.len() ==> 0 <= #[trigger] s[k] < n && selectors.contains(paths[s[k]])
            &&& forall|k: int, m: int| 0 <= k < m < s.len() ==> #[trigger] s[k] < #[trigger] s[m]
            &&& forall|i: int| 0 <= i < n && #[trigger] selectors.contains(paths[i]) ==> exists|k: int|
                0 <= k < s.len() && s[k] == i
        }),
    decreases n,
{
    if n > 0 {
        lemma_selected_upto_exact(paths, selectors, n - 1);
        let prev = selected_upto(paths, selectors, n - 1);
        let s = selected_upto(paths, selectors, n);
        if selectors.contains(paths[n - 1]) {
            assert(s == prev.push(n - 1));
            assert forall|k: int| 0 <= k < s.len() implies 0 <= #[trigger] s[k] < n && selectors.contains(paths[s[k]]) by {
                if k < prev.len() {
                    assert(s[k] == prev[k]);
                }
            }
            assert forall|k: int, m: int| 0 <= k < m < s.len() implies #[trigger] s[k] < #[trigger] s[m] by {
                assert(s[k] == prev[k]);
                if m < prev.len() {
                    assert(s[m] == prev[m]);
                }
            }
            assert forall|i: int| 0 <= i < n && #[trigger] selectors.contains(paths[i]) implies exists|k: int|
                0 <= k < s.len() && s[k] == i by {
                if i == n - 1 {
                    assert(s[prev.len() as int] == i);
                } else {
                    let k = choose|k: int| 0 <= k < prev.len() && prev[k] == i;
                    assert(s[k] == prev[k]);
                }
            }
        } else {
            assert(s == prev);
        }
    }
}

/// A selection is exact: an empty selector list takes every entry, in path
/// order; a nonempty one takes exactly the entries whose paths it names,
/// each once, in path order, and no other.
pub proof fn lemma_selection_is_exact(paths: Seq<Seq<u8>>, selectors: Seq<Seq<u8>>)
    ensures
        ({
            let s = selection_of(paths, selectors);
            &&& forall|k: int| 0 <= k < s.len() ==> 0 <= #[trigger] s[k] < paths.len()
            &&& forall|k: int, m: int| 0 <= k < m < s.len() ==> #[trigger] s[k] < #[trigger] s[m]
            &&& selectors.len() == 0 ==> s.len() == paths.len()
            &&& selectors.len() > 0 ==> forall|k: int| 0 <= k < s.len() ==> #[trigger] selectors.contains(paths[s[k]])
            &&& selectors.len() > 0 ==> forall|i: int| 0 <= i < paths.len() && #[trigger] selectors.contains(paths[i])
                ==> exists|k: int| 0 <= k < s.len() && s[k] == i
        }),
{
    lemma_selected_upto_exact(paths, selectors, paths.len() as int);
    let s = selection_of(paths, selectors);
    if selectors.len() > 0 {
        assert forall|k: int| 0 <= k < s.len() implies #[trigger] selectors.contains(paths[s[k]]) by {}
    }
}

impl Inventory {
    #[verifier::type_invariant]
    closed spec fn wf(&self) -> bool {
        &&& strictly_increasing_paths(entry_paths(self.entries@))
        &&& spec_discover(self.document_bytes@) matches Ok(s) && entries_of(self.entries@, s)
        &&& entries_under(self.entries@, string_bytes(self.root))
        &&& distinct_identities(self.entries@, self.identities@)
    }

    pub fn document_bytes(&self) -> (r: &[u8])
        ensures
            r@ == self@.document,
            well_formed_document(r@),
    {
        proof {
            use_type_invariant(self);
        }
        self.document_bytes.as_slice()
    }

    pub fn entries(&self) -> (r: &[InventoryEntry])
        ensures
            r@ == self@.entries,
            strictly_increasing_paths(self@.paths),
            self@.paths == entry_paths(self@.entries),
            well_formed_document(self@.document),
            spec_discover(self@.document) matches Ok(s) && entries_of(self@.entries, s),
            entries_under(self@.entries, self@.root),
            distinct_identities(self@.entries, self@.identities),
            forall|i: int, k: int, m: int|
                0 <= i < self@.entries.len() && 0 <= k < self@.entries[i].path@.len() && self@.entries[i].path@[k]
                    == 0x2f && 0 <= m < self@.entries.len() ==> #[trigger] self@.entries[m].path@
                    != #[trigger] self@.entries[i].path@.subrange(0, k),
    {
        proof {
            use_type_invariant(self);
            lemma_discovered_prefix_free(self.document_bytes@);
            let s = spec_discover(self.document_bytes@)->Ok_0;
            assert forall|i: int, k: int, m: int|
                0 <= i < self@.entries.len() && 0 <= k < self@.entries[i].path@.len() && self@.entries[i].path@[k]
                    == 0x2f && 0 <= m < self@.entries.len() implies #[trigger] self@.entries[m].path@
                    != #[trigger] self@.entries[i].path@.subrange(0, k) by {
                assert(entry_of(self.entries@[i], s[i]));
                assert(entry_of(self.entries@[m], s[m]));
                if self@.entries[m].path@ == self@.entries[i].path@.subrange(0, k) {
                    assert(has_path(s, s[i].path.subrange(0, k)));
                }
            }
        }
        self.entries.as_slice()
    }

    /// Selects an exact, deduplicated subset in canonical path order.
    /// An empty selector list selects the complete inventory; the first
    /// unknown selector in path order is an error.
    pub fn select(&self, selectors: &[FragmentPath]) -> (r: Result<Vec<&InventoryEntry>, SelectorError>)
        ensures
            ({
                let paths = self@.paths;
                let sel = selector_paths(selectors@);
                let chosen = selection_of(paths, sel);
                &&& paths == entry_paths(self@.entries)
                &&& r is Ok <==> forall|k: int| 0 <= k < sel.len() ==> paths.contains(#[trigger] sel[k])
                &&& r matches Ok(v) ==> v@.len() == chosen.len() && forall|k: int|
                    0 <= k < v@.len() ==> *(#[trigger] v@[k]) == self@.entries[chosen[k]]
                &&& r matches Ok(v) ==> (sel.len() > 0 ==> forall|k: int|
                    0 <= k < v@.len() ==> sel.contains((#[trigger] v@[k]).path@))
                &&& r matches Ok(v) ==> forall|i: int|
                    0 <= i < self@.entries.len() && (sel.len() == 0 || sel.contains(
                        #[trigger] self@.entries[i].path@,
                    )) ==> exists|k: int| 0 <= k < v@.len() && *v@[k] == self@.entries[i]
                &&& r matches Err(SelectorError::UnknownPath { path }) ==> unknown_selector(paths, path@)
                    && sel.contains(path@) && forall|k: int|
                    0 <= k < sel.len() && unknown_selector(paths, #[trigger] sel[k]) ==> !seq_lt(sel[k], path@)
            }),
    {
        proof {
            use_type_invariant(self);
        }
        let ghost paths = self@.paths;
        let ghost sel = selector_paths(selectors@);
        let n = self.entries.len();
        // The least unknown selector, if any.
        let mut unknown: Option<usize> = None;
        let mut k: usize = 0;
        while k < selectors.len()
            invariant
                k <= selectors@.len(),
                n == self.entries@.len(),
                paths == entry_paths(self.entries@),
                sel == selector_paths(selectors@),
                match unknown {
                    Some(u) => u < k && unknown_selector(paths, sel[u as int]) && forall|m: int|
                        0 <= m < k && unknown_selector(paths, #[trigger] sel[m]) ==> !seq_lt(sel[m], sel[u as int]),
                    None => forall|m: int| 0 <= m < k ==> paths.contains(#[trigger] sel[m]),
                },
            decreases selectors@.len() - k,
        {
            let s = &selectors[k];
            assert(sel[k as int] == s@);
            let found = find_entry(&self.entries, s);
            if !found {
                let better = match unknown {
                    None => true,
                    Some(u) => bytes_lt(s.as_str().as_bytes(), selectors[u].as_str().as_bytes()),
                };
                if better {
                    proof {
                        if let Some(u) = unknown {
                            assert forall|m: int| 0 <= m < k + 1 && unknown_selector(paths, #[trigger] sel[m])
                                implies !seq_lt(sel[m], sel[k as int]) by {
                                crate::fragment::lemma_seq_lt_total(sel[m], sel[k as int]);
                                crate::fragment::lemma_seq_lt_total(sel[m], sel[u as int]);
                                crate::fragment::lemma_seq_lt_total(sel[u as int], sel[k as int]);
                                if m < k && seq_lt(sel[m], sel[k as int]) {
                                    crate::text::lemma_seq_lt_transitive(sel[m], sel[k as int], sel[u as int]);
                                }
                            }
                        } else {
                            assert forall|m: int| 0 <= m < k + 1 && unknown_selector(paths, #[trigger] sel[m])
                                implies !seq_lt(sel[m], sel[k as int]) by {
                                crate::fragment::lemma_seq_lt_total(sel[m], sel[k as int]);
                            }
                        }
                    }
                    unknown = Some(k);
                } else {
                    proof {
                        let u = unknown.unwrap();
                        crate::fragment::lemma_seq_lt_total(sel[u as int], sel[k as int]);
                    }
                }
            }
            k = k + 1;
        }
        if let Some(u) = unknown {
            return Err(SelectorError::UnknownPath { path: selectors[u].clone() });
        }
        let mut selected: Vec<&InventoryEntry> = Vec::new();
        let mut i: usize = 0;
        while i < n
            invariant
                i <= n,
                n == self.entries@.len(),
                paths == entry_paths(self.entries@),
                sel == selector_paths(selectors@),
                ({
                    let chosen = if sel.len() == 0 {
                        Seq::new(i as nat, |j: int| j)
                    } else {
                        selected_upto(paths, sel, i as int)
                    };
                    &&& selected@.len() == chosen.len()
                    &&& forall|k: int| 0 <= k < selected@.len() ==> *(#[trigger] selected@[k]) == self.entries@[chosen[k]]
                }),
            decreases n - i,
        {
            let entry = &self.entries[i];
            let wanted = selectors.len() == 0 || find_selector(selectors, &entry.path);
            if wanted {
                selected.push(entry);
            }
            proof {
                if sel.len() == 0 {
                    assert(Seq::new((i + 1) as nat, |j: int| j) =~= Seq::new(i as nat, |j: int| j).push(i as int));
                } else {
                    assert(entry.path@ == paths[i as int]);
                }
            }
            i = i + 1;
        }
        proof {
            let chosen = selection_of(paths, sel);
            lemma_selection_is_exact(paths, sel);
            if sel.len() == 0 {
                assert(chosen =~= Seq::new(n as nat, |j: int| j));
            }
            assert forall|k: int| 0 <= k < selected@.len() && sel.len() > 0 implies sel.contains(
                (#[trigger] selected@[k]).path@,
            ) by {
                assert(paths[chosen[k]] == self.entries@[chosen[k]].path@);
            }
            assert forall|j: int|
                0 <= j < self@.entries.len() && (sel.len() == 0 || sel.contains(
                    #[trigger] self@.entries[j].path@,
                )) implies exists|k: int| 0 <= k < selected@.len() && *selected@[k] == self@.entries[j] by {
                assert(paths[j] == self.entries@[j].path@);
                if sel.len() == 0 {
                    assert(chosen[j] == j);
                    assert(*selected@[j] == self@.entries[j]);
                } else {
                    assert(sel.contains(paths[j]));
                    let k = choose|k: int| 0 <= k < chosen.len() && chosen[k] == j;
                    assert(*selected@[k] == self@.entries[j]);
                }
            }
        }
        Ok(selected)
    }
}


/// Whether some entry has path `p`.
fn find_entry(entries: &Vec<InventoryEntry>, p: &FragmentPath) -> (r: bool)
    ensures
        r == entry_paths(entries@).contains(p@),
{
    let ghost paths = entry_paths(entries@);
    let key = p.as_str().as_bytes();
    let mut k: usize = 0;
    while k < entries.len()
        invariant
            k <= entries@.len(),
            paths == entry_paths(entries@),
            key@ == p@,
            forall|m: int| 0 <= m < k ==> paths[m] != p@,
        decreases entries@.len() - k,
    {
        if bytes_eq(entries[k].path.as_str().as_bytes(), key) {
            assert(paths[k as int] == p@);
            return true;
        }
        k = k + 1;
    }
    false
}

/// Whether some selector is `p`.
fn find_selector(selectors: &[FragmentPath], p: &FragmentPath) -> (r: bool)
    ensures
        r == selector_paths(selectors@).contains(p@),
{
    let ghost sel = selector_paths(selectors@);
    let key = p.as_str().as_bytes();
    let mut k: usize = 0;
    while k < selectors.len()
        invariant
            k <= selectors@.len(),
            sel == selector_paths(selectors@),
            key@ == p@,
            forall|m: int| 0 <= m < k ==> sel[m] != p@,
        decreases selectors@.len() - k,
    {
        if bytes_eq(selectors[k].as_str().as_bytes(), key) {
            assert(sel[k as int] == p@);
            return true;
        }
        k = k + 1;
    }
    false
}

} // verus!
