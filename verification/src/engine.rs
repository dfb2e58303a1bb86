//! Synchronization orchestration from inventory through ordered commit.
//!
//! The engine selects and classifies inventory entries, plans the requested
//! operation, prepares the rewritten document and external outputs, and
//! commits them in canonical order.

use vstd::prelude::*;
use vstd::string::*;
use vstd::utf8::*;
use std::borrow::Cow;

use crate::access::{AccessPolicy, PolicyFailure};
use crate::adls::{
    document_sources, well_formed_document, Document, DocumentView, Error as DocumentError,
    NodeHandle, NodeHandleView, SpecRewrite, spec_document_rewrite, replacement_views,
    source_handle, SpecSource,
};
use crate::adls_laws::view_of;
use crate::commit::{
    commit_effects, commit_ended, commit_using, document_output_view, output_views, path_ref_views, CommitAccessFailure,
    CommitError, CommitFilesystem, RecordingFilesystem, DocumentOutput, ExternalOutput, ExternalWrite, FsEffect, OutputView,
};
use crate::fragment::{
    spec_parse, spec_rewrite, update_views, CanonicalSource, FragmentPath, FragmentUpdate,
    ParseError, ParsedSource, RewriteError, SpecFragment, SpecParseError, SpecRewriteError,
    SpecUpdate,
};
use crate::inventory::{
    entry_paths, selected_upto, selection_of, selector_paths, strictly_increasing_paths, Inventory,
    InventoryEntry, InventoryError, SelectorError,
};
use crate::reconcile::{
    action_name, classify, plan, spec_classify, spec_plan, state_name, state_of, hash_view,
    source_view,
    Action, Classification, Decision, Operation, PlanError, SelectionKind, State,
};
use crate::text::{bytes_eq, push_all, seq_lt, string_bytes, string_from_utf8};

verus! {

broadcast use {vstd::utf8::encode_utf8_valid_utf8, vstd::utf8::valid_utf8_concat};

/// A read-only inspection or a mutating synchronization operation.
#[derive(Clone, Copy, Debug, PartialEq, Eq, Structural)]
pub enum Mode {
    Status,
    Mutate(Operation),
}

/// One resolved library request. Relative paths are interpreted from `cwd`.
#[derive(Clone, Copy, Debug)]
pub struct Request<'a> {
    pub cwd: &'a str,
    pub document: &'a str,
    pub source_root: Option<&'a str>,
    pub selectors: &'a [FragmentPath],
    pub mode: Mode,
}

/// One path-sorted observable command result.
#[derive(Debug)]
pub enum ReportEntry {
    State { path: FragmentPath, state: State },
    Action { path: FragmentPath, action: Action },
}

pub enum ReportEntryView {
    State(Seq<u8>, State),
    Action(Seq<u8>, Action),
}

impl View for ReportEntry {
    type V = ReportEntryView;

    open spec fn view(&self) -> ReportEntryView {
        match self {
            ReportEntry::State { path, state } => ReportEntryView::State(path@, *state),
            ReportEntry::Action { path, action } => ReportEntryView::Action(path@, *action),
        }
    }
}

pub open spec fn entry_views(entries: Seq<ReportEntry>) -> Seq<ReportEntryView> {
    entries.map_values(|e: ReportEntry| e@)
}

impl ReportEntry {
    pub fn path(&self) -> (r: &FragmentPath)
        ensures
            r@ == match self@ {
                ReportEntryView::State(p, _) => p,
                ReportEntryView::Action(p, _) => p,
            },
    {
        match self {
            ReportEntry::State { path, .. } => path,
            ReportEntry::Action { path, .. } => path,
        }
    }

    /// The reported state or action, as its command-line name.
    pub fn result(&self) -> (r: &'static str)
        ensures
            r@ == match self@ {
                ReportEntryView::State(_, s) => state_name(s),
                ReportEntryView::Action(_, a) => action_name(a),
            },
    {
        match self {
            ReportEntry::State { state, .. } => state.as_str(),
            ReportEntry::Action { action, .. } => action.as_str(),
        }
    }
}

/// Whether selected fragments need further attention after normal completion.
#[derive(Clone, Copy, Debug, PartialEq, Eq, Structural)]
pub enum ExitState {
    Synchronized,
    Attention,
}

impl ExitState {
    pub fn code(self) -> (r: u8)
        ensures
            r == (match self {
                ExitState::Synchronized => 0u8,
                ExitState::Attention => 1u8,
            }),
    {
        match self {
            ExitState::Synchronized => 0,
            ExitState::Attention => 1,
        }
    }
}

pub open spec fn spec_exit_state(attention: bool) -> ExitState {
    if attention {
        ExitState::Attention
    } else {
        ExitState::Synchronized
    }
}

pub fn exit_state(attention: bool) -> (r: ExitState)
    ensures
        r == spec_exit_state(attention),
{
    if attention {
        ExitState::Attention
    } else {
        ExitState::Synchronized
    }
}

/// A normally completed command result.
#[derive(Debug)]
pub struct Report {
    pub entries: Vec<ReportEntry>,
    pub exit: ExitState,
}

/// A validation, materialization, or operational failure.
#[allow(inconsistent_fields)]
#[derive(Debug)]
pub enum Error {
    InvalidDocumentExtension { path: String },
    Inventory(InventoryError),
    Selector(SelectorError),
    ForceRequiresExplicitSelection,
    InvalidForcedState { path: FragmentPath, state: State },
    InconsistentMaterializationNode { node_index: u32 },
    InconsistentMaterializationMarkers { node_index: u32, source: ParseError },
    FragmentRewrite { node_index: u32, source: RewriteError },
    InvalidPreparedMarkers { node_index: u32, source: ParseError },
    DuplicatePreparedFragment { path: FragmentPath },
    Document(DocumentError),
    Commit(CommitError),
    Coordination { completed: Vec<FragmentPath> },
    Allocation { operation: &'static str },
}

impl Error {
    /// External fragment paths fully written before an operational failure.
    pub fn committed_external(&self) -> (r: &[FragmentPath])
        ensures
            match self {
                Error::Commit(e) => crate::commit::path_views(r@) == e.completed_paths(),
                Error::Coordination { completed } => r@ == completed@,
                _ => r@.len() == 0,
            },
    {
        match self {
            Error::Commit(error) => error.completed(),
            Error::Coordination { completed } => completed.as_slice(),
            _ => &[],
        }
    }
}

/// `path` resolved from `cwd`, as bytes: an absolute path stands as it is,
/// a relative one is joined to `cwd` with one separator.
pub open spec fn spec_resolve_from(cwd: Seq<u8>, path: Seq<u8>) -> Seq<u8> {
    if path.len() > 0 && path[0] == 0x2f {
        path
    } else if cwd.len() == 0 || cwd.last() == 0x2f {
        cwd + path
    } else {
        cwd + seq![0x2fu8] + path
    }
}

pub fn resolve_from(cwd: &str, path: &str) -> (r: String)
    ensures
        string_bytes(r) == spec_resolve_from(cwd.spec_bytes(), path.spec_bytes()),
{
    let p = path.as_bytes();
    let c = cwd.as_bytes();
    let mut out: Vec<u8> = Vec::new();
    if !(p.len() > 0 && p[0] == 0x2f) {
        push_all(&mut out, c);
        if !(c.len() == 0 || c[c.len() - 1] == 0x2f) {
            out.push(0x2f);
        }
    }
    push_all(&mut out, p);
    proof {
        assert(valid_utf8(seq![0x2fu8])) by {
            crate::text::lemma_ascii_valid(seq![0x2fu8]);
        }
        assert(valid_utf8(c@) && valid_utf8(p@));
        if !(p@.len() > 0 && p@[0] == 0x2f) && !(c@.len() == 0 || c@.last() == 0x2f) {
            assert(out@ =~= c@ + seq![0x2fu8] + p@);
            assert(valid_utf8(c@ + seq![0x2fu8]));
            assert(valid_utf8(c@ + seq![0x2fu8] + p@));
        } else if !(p@.len() > 0 && p@[0] == 0x2f) {
            assert(out@ =~= c@ + p@);
            assert(valid_utf8(c@ + p@));
        } else {
            assert(out@ =~= p@);
        }
        assert(valid_utf8(out@));
    }
    match string_from_utf8(out) {
        Some(s) => s,
        None => String::new(),
    }
}

/// What `std::path::Path::extension` gives for `path`: the extension of its
/// final component, if it has one.
pub uninterp spec fn path_extension(path: Seq<char>) -> Option<Seq<char>>;

/// What `std::path::Path::parent` gives for `path`: the path without its
/// final component, if it has one.
pub uninterp spec fn path_parent(path: Seq<char>) -> Option<Seq<char>>;

/// `std::path::Path::extension` on a path given as text. The extension of
/// text is text, and is returned whole. The result is named, not stated:
/// the path grammar it follows is the platform's.
#[verifier::external_body]
fn extension_of(path: &str) -> (r: Option<String>)
    ensures
        match r {
            Some(e) => path_extension(path@) == Some(e@),
            None => path_extension(path@) is None,
        },
{
    match std::path::Path::new(path).extension() {
        Some(e) => Some(e.to_string_lossy().into_owned()),
        None => None,
    }
}

/// `std::path::Path::parent` on a path given as text. The parent of text is
/// text, and is returned whole. The result is named, not stated: the path
/// grammar it follows is the platform's.
#[verifier::external_body]
fn parent_of(path: &str) -> (r: Option<String>)
    ensures
        match r {
            Some(p) => path_parent(path@) == Some(p@),
            None => path_parent(path@) is None,
        },
{
    match std::path::Path::new(path).parent() {
        Some(p) => Some(p.to_string_lossy().into_owned()),
        None => None,
    }
}

/// The document and the source root that a request names, resolved from
/// `cwd`. The document must have the extension `audulus4`. The source root,
/// when none is named, is the resolved document's parent; a resolved path
/// without a parent has no final component and so no extension, and is
/// refused as the extension error.
pub fn resolve_request(cwd: &str, document: &str, source_root: Option<&str>) -> (r: Result<(String, String), Error>)
    ensures
        path_extension(document@) != Some("audulus4"@) ==> (r matches Err(Error::InvalidDocumentExtension { path })
            && path@ == document@),
        path_extension(document@) == Some("audulus4"@) ==> {
            let resolved = spec_resolve_from(cwd.spec_bytes(), document.spec_bytes());
            match source_root {
                Some(root) => r matches Ok((d, s)) && string_bytes(d) == resolved && string_bytes(s)
                    == spec_resolve_from(cwd.spec_bytes(), root.spec_bytes()),
                None => match path_parent(decode_utf8(resolved)) {
                    Some(parent) => r matches Ok((d, s)) && string_bytes(d) == resolved && s@ == parent,
                    None => r matches Err(Error::InvalidDocumentExtension { path }) && path@ == document@,
                },
            }
        },
{
    let extension = extension_of(document);
    let named = match &extension {
        Some(e) => bytes_eq(e.as_str().as_bytes(), "audulus4".as_bytes()),
        None => false,
    };
    proof {
        reveal_strlit("audulus4");
        if let Some(e) = extension {
            vstd::utf8::encode_utf8_decode_utf8(e@);
            vstd::utf8::encode_utf8_decode_utf8("audulus4"@);
            if named {
                assert(decode_utf8(encode_utf8(e@)) == decode_utf8(encode_utf8("audulus4"@)));
            } else {
                assert(encode_utf8(e@) != encode_utf8("audulus4"@));
            }
        }
    }
    if !named {
        return Err(Error::InvalidDocumentExtension { path: String::from_str(document) });
    }
    let resolved = resolve_from(cwd, document);
    proof {
        vstd::utf8::encode_utf8_decode_utf8(resolved@);
    }
    let root = match source_root {
        Some(root) => resolve_from(cwd, root),
        None => match parent_of(resolved.as_str()) {
            Some(parent) => parent,
            None => {
                return Err(Error::InvalidDocumentExtension { path: String::from_str(document) });
            },
        },
    };
    Ok((resolved, root))
}

// ---------------------------------------------------------------------------
// Classification and status
// ---------------------------------------------------------------------------

pub open spec fn fs_view(f: Option<CanonicalSource>) -> Option<Seq<u8>> {
    match f {
        Some(s) => Some(s@),
        None => None,
    }
}

/// The classification of an inventory entry.
pub open spec fn entry_classification(e: InventoryEntry) -> Classification {
    spec_classify(e.embedded@, hash_view(e.baseline), fs_view(e.filesystem))
}

/// Classifies each selected entry.
pub fn classify_entries<'a>(selected: &Vec<&'a InventoryEntry>) -> (r: Vec<(&'a InventoryEntry, Classification)>)
    ensures
        r@.len() == selected@.len(),
        forall|i: int| 0 <= i < r@.len() ==> (#[trigger] r@[i]).0 == selected@[i] && r@[i].1
            == entry_classification(*selected@[i]),
{
    let mut out: Vec<(&'a InventoryEntry, Classification)> = Vec::new();
    let mut i: usize = 0;
    while i < selected.len()
        invariant
            i <= selected@.len(),
            out@.len() == i,
            forall|k: int| 0 <= k < i ==> (#[trigger] out@[k]).0 == selected@[k] && out@[k].1
                == entry_classification(*selected@[k]),
        decreases selected@.len() - i,
    {
        let entry = selected[i];
        let fs = entry.filesystem.as_ref();
        let c = classify(&entry.embedded, entry.baseline, fs);
        assert(source_view(fs) == fs_view(entry.filesystem));
        out.push((entry, c));
        i = i + 1;
    }
    out
}

pub open spec fn any_attention(classified: Seq<(&InventoryEntry, Classification)>) -> bool {
    exists|i: int| 0 <= i < classified.len() && state_of(#[trigger] classified[i].1) != State::Synchronized
}

/// A status exits synchronized exactly when every fragment it reports is
/// synchronized; any other state asks for attention.
pub proof fn lemma_status_exit(classified: Seq<(&InventoryEntry, Classification)>)
    ensures
        (spec_exit_state(any_attention(classified)) == ExitState::Synchronized) <==> forall|i: int|
            0 <= i < classified.len() ==> state_of(#[trigger] classified[i].1) == State::Synchronized,
        (spec_exit_state(any_attention(classified)) == ExitState::Attention) <==> exists|i: int|
            0 <= i < classified.len() && state_of(#[trigger] classified[i].1) != State::Synchronized,
{
}

/// The observable state of each selected fragment, in order.
pub fn status_report(classified: &[(&InventoryEntry, Classification)]) -> (r: Report)
    ensures
        entry_views(r.entries@) == classified@.map_values(
            |p: (&InventoryEntry, Classification)| ReportEntryView::State(p.0.path@, state_of(p.1)),
        ),
        r.exit == spec_exit_state(any_attention(classified@)),
        r.exit == ExitState::Synchronized <==> forall|i: int|
            0 <= i < classified@.len() ==> state_of(#[trigger] classified@[i].1) == State::Synchronized,
{
    proof {
        lemma_status_exit(classified@);
    }
    let ghost want = classified@.map_values(
        |p: (&InventoryEntry, Classification)| ReportEntryView::State(p.0.path@, state_of(p.1)),
    );
    let mut entries: Vec<ReportEntry> = Vec::new();
    let mut attention = false;
    let mut i: usize = 0;
    while i < classified.len()
        invariant
            i <= classified@.len(),
            want == classified@.map_values(
                |p: (&InventoryEntry, Classification)| ReportEntryView::State(p.0.path@, state_of(p.1)),
            ),
            entry_views(entries@) == want.subrange(0, i as int),
            attention == exists|k: int| 0 <= k < i && state_of(#[trigger] classified@[k].1) != State::Synchronized,
        decreases classified@.len() - i,
    {
        let (entry, classification) = classified[i];
        let state = classification.state();
        if state != State::Synchronized {
            attention = true;
        }
        let ghost before = entries@;
        entries.push(ReportEntry::State { path: entry.path.clone(), state });
        proof {
            assert(entry_views(entries@) =~= entry_views(before).push(want[i as int]));
            assert(want.subrange(0, i + 1) =~= want.subrange(0, i as int).push(want[i as int]));
        }
        i = i + 1;
    }
    assert(want.subrange(0, i as int) =~= want);
    Report { entries, exit: exit_state(attention) }
}

// ---------------------------------------------------------------------------
// Planning a mutation
// ---------------------------------------------------------------------------

/// The report entries of the first `n` decisions.
pub open spec fn report_upto(classified: Seq<(&InventoryEntry, Classification)>, ds: Seq<Decision>, n: int) -> Seq<ReportEntryView>
    decreases n,
{
    if n <= 0 {
        Seq::empty()
    } else {
        let prev = report_upto(classified, ds, n - 1);
        let path = classified[n - 1].0.path@;
        match ds[n - 1] {
            Decision::Settled => prev,
            Decision::Unresolved(s) => prev.push(ReportEntryView::State(path, s)),
            Decision::Act(a) => prev.push(ReportEntryView::Action(path, a)),
        }
    }
}

pub open spec fn any_unresolved(ds: Seq<Decision>) -> bool {
    exists|i: int| 0 <= i < ds.len() && #[trigger] ds[i] is Unresolved
}

/// The fragment update an action asks for.
pub open spec fn update_for(e: InventoryEntry, a: Action) -> SpecUpdate {
    match a {
        Action::Embed => SpecUpdate::Replace { path: e.path@, source: fs_view(e.filesystem).unwrap() },
        _ => SpecUpdate::Record { path: e.path@ },
    }
}

/// What a mutation reports of one fragment and its decision: nothing when
/// it was settled, its state when it is left unresolved, its action else.
pub open spec fn reported(path: Seq<u8>, d: Decision) -> Option<ReportEntryView> {
    match d {
        Decision::Settled => None,
        Decision::Unresolved(s) => Some(ReportEntryView::State(path, s)),
        Decision::Act(a) => Some(ReportEntryView::Action(path, a)),
    }
}

proof fn lemma_report_upto(classified: Seq<(&InventoryEntry, Classification)>, ds: Seq<Decision>, n: int)
    requires
        0 <= n <= ds.len(),
        n <= classified.len(),
    ensures
        ({
            let r = report_upto(classified, ds, n);
            &&& r.len() <= n
            &&& forall|j: int| 0 <= j < r.len() ==> exists|k: int|
                0 <= k < n && reported(classified[k].0.path@, ds[k]) == Some(#[trigger] r[j])
            &&& forall|k: int| 0 <= k < n && !(#[trigger] ds[k] is Settled) ==> exists|j: int|
                0 <= j < r.len() && reported(classified[k].0.path@, ds[k]) == Some(r[j])
            &&& (forall|k: int| 0 <= k < n ==> #[trigger] ds[k] is Settled) ==> r.len() == 0
        }),
    decreases n,
{
    if n > 0 {
        lemma_report_upto(classified, ds, n - 1);
        let pr = report_upto(classified, ds, n - 1);
        let r = report_upto(classified, ds, n);
        let last = reported(classified[n - 1].0.path@, ds[n - 1]);
        if last is Some {
            assert(r == pr.push(last.unwrap()));
            assert forall|j: int| 0 <= j < r.len() implies exists|k: int|
                0 <= k < n && reported(classified[k].0.path@, ds[k]) == Some(#[trigger] r[j]) by {
                if j < pr.len() {
                    assert(r[j] == pr[j]);
                } else {
                    assert(reported(classified[n - 1].0.path@, ds[n - 1]) == Some(r[j]));
                }
            }
            assert forall|k: int| 0 <= k < n && !(#[trigger] ds[k] is Settled) implies exists|j: int|
                0 <= j < r.len() && reported(classified[k].0.path@, ds[k]) == Some(r[j]) by {
                if k < n - 1 {
                    let j = choose|j: int| 0 <= j < pr.len() && reported(classified[k].0.path@, ds[k]) == Some(pr[j]);
                    assert(r[j] == pr[j]);
                } else {
                    assert(r[pr.len() as int] == last.unwrap());
                }
            }
        } else {
            assert(r == pr);
        }
    }
}

/// Entry `e` is the file that fragment `c`, decided `d`, extracts.
pub open spec fn extracted_from(e: InventoryEntry, c: (&InventoryEntry, Classification), d: Decision) -> bool {
    d == Decision::Act(Action::Extract) && e == *c.0
}

#[verifier::spinoff_prover]
proof fn lemma_extracted_complete(classified: Seq<(&InventoryEntry, Classification)>, ds: Seq<Decision>, n: int)
    requires
        0 <= n <= ds.len(),
        n <= classified.len(),
    ensures
        forall|k: int| 0 <= k < n && #[trigger] ds[k] == Decision::Act(Action::Extract) ==> exists|j: int|
            0 <= j < extracted_upto(classified, ds, n).len() && #[trigger] extracted_from(
                extracted_upto(classified, ds, n)[j],
                classified[k],
                ds[k],
            ),
    decreases n,
{
    if n > 0 {
        lemma_extracted_complete(classified, ds, n - 1);
        let px = extracted_upto(classified, ds, n - 1);
        let x = extracted_upto(classified, ds, n);
        assert forall|k: int| 0 <= k < n && #[trigger] ds[k] == Decision::Act(Action::Extract) implies exists|j: int|
            0 <= j < x.len() && #[trigger] extracted_from(x[j], classified[k], ds[k]) by {
            if k < n - 1 {
                let j = choose|j: int| 0 <= j < px.len() && #[trigger] extracted_from(px[j], classified[k], ds[k]);
                assert(x[j] == px[j]);
                assert(extracted_from(x[j], classified[k], ds[k]));
            } else {
                assert(extracted_from(x[px.len() as int], classified[k], ds[k]));
            }
        }
    }
}

/// A mutation's report lists every fragment that was not settled, with its
/// action or its unresolved state, and nothing else; every fragment it
/// extracts is among the files it writes; and it exits
/// synchronized exactly when no fragment is left unresolved.
pub proof fn lemma_mutation_report(classified: Seq<(&InventoryEntry, Classification)>, ds: Seq<Decision>)
    requires
        ds.len() == classified.len(),
    ensures
        ({
            let n = ds.len() as int;
            let r = report_upto(classified, ds, n);
            let x = extracted_upto(classified, ds, n);
            &&& r.len() <= n
            &&& forall|j: int| 0 <= j < r.len() ==> exists|k: int|
                0 <= k < n && reported(classified[k].0.path@, ds[k]) == Some(#[trigger] r[j])
            &&& forall|k: int| 0 <= k < n && !(#[trigger] ds[k] is Settled) ==> exists|j: int|
                0 <= j < r.len() && reported(classified[k].0.path@, ds[k]) == Some(r[j])
            &&& (forall|k: int| 0 <= k < n ==> #[trigger] ds[k] is Settled) ==> r.len() == 0
            &&& forall|k: int| 0 <= k < n && #[trigger] ds[k] == Decision::Act(Action::Extract) ==> exists|j: int|
                0 <= j < x.len() && #[trigger] extracted_from(x[j], classified[k], ds[k])
        }),
        (spec_exit_state(any_unresolved(ds)) == ExitState::Synchronized) <==> forall|k: int|
            0 <= k < ds.len() ==> !(#[trigger] ds[k] is Unresolved),
{
    lemma_report_upto(classified, ds, ds.len() as int);
    lemma_extracted_complete(classified, ds, ds.len() as int);
}

/// The node and update of every action among the first `n` decisions.
pub open spec fn acts_upto(classified: Seq<(&InventoryEntry, Classification)>, ds: Seq<Decision>, n: int) -> Seq<(int, SpecUpdate)>
    decreases n,
{
    if n <= 0 {
        Seq::empty()
    } else {
        let prev = acts_upto(classified, ds, n - 1);
        let e = *classified[n - 1].0;
        match ds[n - 1] {
            Decision::Act(a) => prev.push((e.node_index as int, update_for(e, a))),
            _ => prev,
        }
    }
}

/// The updates of one node, in order.
pub open spec fn updates_for(acts: Seq<(int, SpecUpdate)>, node: int) -> Seq<SpecUpdate>
    decreases acts.len(),
{
    if acts.len() == 0 {
        Seq::empty()
    } else if acts.last().0 == node {
        updates_for(acts.drop_last(), node).push(acts.last().1)
    } else {
        updates_for(acts.drop_last(), node)
    }
}

pub open spec fn group_views(groups: Seq<(u32, Vec<FragmentUpdate>)>) -> Seq<(int, Seq<SpecUpdate>)> {
    groups.map_values(|g: (u32, Vec<FragmentUpdate>)| (g.0 as int, update_views(g.1@)))
}

/// Groups hold the updates of each node with an action, by ascending node.
pub open spec fn grouped(groups: Seq<(int, Seq<SpecUpdate>)>, acts: Seq<(int, SpecUpdate)>) -> bool {
    &&& forall|i: int, j: int| 0 <= i < j < groups.len() ==> (#[trigger] groups[i]).0 < (#[trigger] groups[j]).0
    &&& forall|i: int| 0 <= i < groups.len() ==> (#[trigger] groups[i]).1 == updates_for(acts, groups[i].0)
    &&& forall|k: int| 0 <= k < acts.len() ==> exists|i: int| 0 <= i < groups.len() && #[trigger] groups[i].0 == #[trigger] acts[k].0
    &&& forall|i: int| 0 <= i < groups.len() ==> (#[trigger] groups[i]).1.len() > 0
}

/// The report, attention, node updates and extractions of a plan.
pub struct MutationPlan<'a> {
    pub report: Vec<ReportEntry>,
    pub attention: bool,
    pub node_updates: Vec<(u32, Vec<FragmentUpdate<'a>>)>,
    pub extracted: Vec<&'a InventoryEntry>,
}

/// The entries with an extract action among the first `n` decisions.
pub open spec fn extracted_upto(classified: Seq<(&InventoryEntry, Classification)>, ds: Seq<Decision>, n: int) -> Seq<InventoryEntry>
    decreases n,
{
    if n <= 0 {
        Seq::empty()
    } else {
        let prev = extracted_upto(classified, ds, n - 1);
        if ds[n - 1] == Decision::Act(Action::Extract) {
            prev.push(*classified[n - 1].0)
        } else {
            prev
        }
    }
}

proof fn lemma_updates_for_push(acts: Seq<(int, SpecUpdate)>, a: (int, SpecUpdate), node: int)
    ensures
        updates_for(acts.push(a), node) == if a.0 == node {
            updates_for(acts, node).push(a.1)
        } else {
            updates_for(acts, node)
        },
{
    assert(acts.push(a).drop_last() =~= acts);
}

proof fn lemma_updates_for_absent(acts: Seq<(int, SpecUpdate)>, node: int)
    requires
        forall|k: int| 0 <= k < acts.len() ==> acts[k].0 != node,
    ensures
        updates_for(acts, node) == Seq::<SpecUpdate>::empty(),
    decreases acts.len(),
{
    if acts.len() > 0 {
        lemma_updates_for_absent(acts.drop_last(), node);
    }
}

/// Adds one update to its node's group, keeping groups ordered by node.
#[verifier::spinoff_prover]
#[verifier::rlimit(30)]
fn add_update<'a>(groups: &mut Vec<(u32, Vec<FragmentUpdate<'a>>)>, node: u32, update: FragmentUpdate<'a>, Ghost(acts): Ghost<Seq<(int, SpecUpdate)>>)
    requires
        grouped(group_views(old(groups)@), acts),
    ensures
        grouped(group_views(final(groups)@), acts.push((node as int, update@))),
{
    let ghost g0 = group_views(groups@);
    let ghost a = (node as int, update@);
    let ghost acts2 = acts.push(a);
    let n = groups.len();
    let mut k: usize = 0;
    while k < n && groups[k].0 < node
        invariant
            k <= n,
            n == groups@.len(),
            g0 == group_views(groups@),
            grouped(g0, acts),
            forall|m: int| 0 <= m < k ==> g0[m].0 < node,
        decreases n - k,
    {
        k = k + 1;
    }
    assert(k < n ==> g0[k as int].0 >= node);
    if k < n && groups[k].0 == node {
        let ghost gs0 = groups@;
        let (gnode, mut updates) = groups.remove(k);
        let ghost us = updates@;
        assert(gnode == gs0[k as int].0 && us == gs0[k as int].1@);
        updates.push(update);
        let ghost new_us = updates@;
        groups.insert(k, (gnode, updates));
        proof {
            let gs2 = groups@;
            assert forall|i: int| 0 <= i < gs2.len() implies #[trigger] gs2[i] == (if i == k { (gnode, gs2[k as int].1) } else { gs0[i] }) by {
                if i < k {
                } else if i > k {
                }
            }
            assert(gs2[k as int].1@ == new_us);
            let g1 = group_views(groups@);
            assert(update_views(new_us) =~= update_views(us).push(update@));
            assert(g1 =~= g0.update(k as int, (node as int, update_views(us).push(update@))));
            assert forall|i: int| #![trigger g1[i]] #![trigger g0[i]] 0 <= i < g1.len() implies g1[i].0 == g0[i].0 by {}
            assert forall|i: int, j: int| 0 <= i < j < g1.len() implies (#[trigger] g1[i]).0 < (#[trigger] g1[j]).0 by {
                assert(g1[i].0 == g0[i].0 && g1[j].0 == g0[j].0);
            }
            assert forall|i: int| 0 <= i < g1.len() implies (#[trigger] g1[i]).1 == updates_for(acts2, g1[i].0) by {
                lemma_updates_for_push(acts, a, g1[i].0);
                assert(g0[i].1 == updates_for(acts, g0[i].0));
                if i != k {
                    assert(g1[i] == g0[i]);
                    assert(g0[i].0 != g0[k as int].0) by {
                        if i < k {
                            assert(g0[i].0 < g0[k as int].0);
                        } else {
                            assert(g0[k as int].0 < g0[i].0);
                        }
                    }
                }
            }
            assert forall|j: int| 0 <= j < acts2.len() implies exists|i: int| 0 <= i < g1.len() && #[trigger] g1[i].0 == #[trigger] acts2[j].0 by {
                if j < acts.len() {
                    assert(acts2[j] == acts[j]);
                    assert(acts[j].0 == acts[j].0);
                } else {
                    assert(acts2[j] == a);
                    assert(g1[k as int].0 == node);
                }
            }
            assert forall|i: int| 0 <= i < g1.len() implies (#[trigger] g1[i]).1.len() > 0 by {
                if i != k {
                    assert(g1[i] == g0[i]);
                }
            }
        }
    } else {
        let mut updates: Vec<FragmentUpdate<'a>> = Vec::new();
        updates.push(update);
        groups.insert(k, (node, updates));
        proof {
            let g1 = group_views(groups@);
            assert forall|j: int| 0 <= j < acts.len() implies acts[j].0 != node by {
                let i = choose|i: int| 0 <= i < g0.len() && #[trigger] g0[i].0 == #[trigger] acts[j].0;
                if i < k {
                } else if i == k {
                } else {
                    assert(g0[k as int].0 < g0[i].0);
                }
            }
            lemma_updates_for_absent(acts, node as int);
            lemma_updates_for_push(acts, a, node as int);
            assert(update_views(updates@) =~= seq![update@]);
            assert(g1 =~= g0.insert(k as int, (node as int, seq![update@])));
            assert forall|i: int| 0 <= i < g1.len() implies (#[trigger] g1[i]).1.len() > 0 by {
                if i < k {
                    assert(g1[i] == g0[i]);
                } else if i > k {
                    assert(g1[i] == g0[i - 1]);
                }
            }
            assert forall|i: int| 0 <= i < g1.len() implies (#[trigger] g1[i]).1 == updates_for(acts2, g1[i].0) by {
                lemma_updates_for_push(acts, a, g1[i].0);
                if i < k {
                    assert(g1[i] == g0[i]);
                } else if i > k {
                    assert(g1[i] == g0[i - 1]);
                }
            }
            assert forall|i: int, j: int| 0 <= i < j < g1.len() implies (#[trigger] g1[i]).0 < (#[trigger] g1[j]).0 by {
                if j < k {
                    assert(g1[i] == g0[i] && g1[j] == g0[j]);
                } else if j == k {
                    assert(g1[i] == g0[i]);
                } else if i < k {
                    assert(g1[i] == g0[i] && g1[j] == g0[j - 1]);
                    assert(g0[k as int].0 > node || g0[k as int].0 == node || k == n);
                    if j - 1 > k {
                        assert(g0[k as int].0 < g0[j - 1].0);
                    }
                } else if i == k {
                    assert(g1[j] == g0[j - 1]);
                    if j - 1 > k {
                        assert(g0[k as int].0 < g0[j - 1].0);
                    }
                } else {
                    assert(g1[i] == g0[i - 1] && g1[j] == g0[j - 1]);
                }
            }
            assert forall|j: int| 0 <= j < acts2.len() implies exists|i: int| 0 <= i < g1.len() && #[trigger] g1[i].0 == #[trigger] acts2[j].0 by {
                if j < acts.len() {
                    assert(acts2[j] == acts[j]);
                    let i = choose|i: int| 0 <= i < g0.len() && #[trigger] g0[i].0 == acts[j].0;
                    if i < k {
                        assert(g1[i] == g0[i]);
                    } else {
                        assert(g1[i + 1] == g0[i]);
                    }
                } else {
                    assert(g1[k as int].0 == node);
                }
            }
        }
    }
}

/// Turns decisions into report entries, grouped node updates, and the
/// entries to extract.
pub fn plan_mutation<'a>(classified: &[(&'a InventoryEntry, Classification)], decisions: &[Decision]) -> (r: MutationPlan<'a>)
    requires
        decisions@.len() == classified@.len(),
        forall|i: int| 0 <= i < decisions@.len() && #[trigger] decisions@[i] == Decision::Act(Action::Embed)
            ==> classified@[i].0.filesystem is Some,
    ensures
        entry_views(r.report@) == report_upto(classified@, decisions@, classified@.len() as int),
        r.attention == any_unresolved(decisions@),
        grouped(group_views(r.node_updates@), acts_upto(classified@, decisions@, classified@.len() as int)),
        r.extracted@.map_values(|e: &InventoryEntry| *e) == extracted_upto(classified@, decisions@, classified@.len() as int),
{
    let mut report: Vec<ReportEntry> = Vec::new();
    let mut attention = false;
    let mut node_updates: Vec<(u32, Vec<FragmentUpdate<'a>>)> = Vec::new();
    let mut extracted: Vec<&'a InventoryEntry> = Vec::new();
    let n = classified.len();
    proof {
        assert(group_views(node_updates@) =~= Seq::<(int, Seq<SpecUpdate>)>::empty());
        assert(extracted@.map_values(|e: &InventoryEntry| *e) =~= Seq::<InventoryEntry>::empty());
    }
    let mut i: usize = 0;
    while i < n
        invariant
            i <= n,
            n == classified@.len(),
            decisions@.len() == n,
            forall|k: int| 0 <= k < decisions@.len() && #[trigger] decisions@[k] == Decision::Act(Action::Embed)
                ==> classified@[k].0.filesystem is Some,
            entry_views(report@) == report_upto(classified@, decisions@, i as int),
            attention == exists|k: int| 0 <= k < i && #[trigger] decisions@[k] is Unresolved,
            grouped(group_views(node_updates@), acts_upto(classified@, decisions@, i as int)),
            extracted@.map_values(|e: &InventoryEntry| *e) == extracted_upto(classified@, decisions@, i as int),
        decreases n - i,
    {
        let entry = classified[i].0;
        let ghost before_report = report@;
        let ghost before_extracted = extracted@;
        match decisions[i] {
            Decision::Settled => {},
            Decision::Unresolved(state) => {
                attention = true;
                report.push(ReportEntry::State { path: entry.path.clone(), state });
                assert(entry_views(report@) =~= entry_views(before_report).push(ReportEntryView::State(entry.path@, state)));
            },
            Decision::Act(action) => {
                let update = match action {
                    Action::Embed => {
                        let source = match &entry.filesystem {
                            Some(source) => source,
                            None => {
                                proof {
                                    assert(decisions@[i as int] == Decision::Act(Action::Embed));
                                }
                                vstd::pervasive::unreached()
                            },
                        };
                        FragmentUpdate::Replace { path: &entry.path, source }
                    },
                    _ => FragmentUpdate::Record { path: &entry.path },
                };
                assert(update@ == update_for(*entry, action));
                add_update(&mut node_updates, entry.node_index, update, Ghost(acts_upto(classified@, decisions@, i as int)));
                if action == Action::Extract {
                    extracted.push(entry);
                    assert(extracted@.map_values(|e: &InventoryEntry| *e) =~= before_extracted.map_values(|e: &InventoryEntry| *e).push(*entry));
                }
                report.push(ReportEntry::Action { path: entry.path.clone(), action });
                assert(entry_views(report@) =~= entry_views(before_report).push(ReportEntryView::Action(entry.path@, action)));
            },
        }
        i = i + 1;
    }
    MutationPlan { report, attention, node_updates, extracted }
}

// ---------------------------------------------------------------------------
// Materializing the document
// ---------------------------------------------------------------------------

/// The position of the source of patch object `node`, searching from `k`.
pub open spec fn slot_from(srcs: Seq<SpecSource>, node: int, k: int) -> Option<int>
    decreases srcs.len() - k,
{
    if k < 0 || k >= srcs.len() {
        None
    } else if srcs[k].index == node {
        Some(k)
    } else {
        slot_from(srcs, node, k + 1)
    }
}

/// Why a group of node updates cannot be materialized.
pub enum SpecMaterializeError {
    /// No source node has this index.
    Node(int),
    /// The source of this node does not parse.
    Markers(int, SpecParseError),
    /// The updates of this node cannot be applied.
    Rewrite(int, SpecRewriteError),
}

/// The rewritten sources of the first `n` groups of node updates.
pub open spec fn replacements_upto(v: DocumentView, groups: Seq<(int, Seq<SpecUpdate>)>, n: int) -> Result<
    Seq<(NodeHandleView, Seq<u8>)>,
    SpecMaterializeError,
>
    decreases n,
{
    if n <= 0 {
        Ok(Seq::empty())
    } else {
        match replacements_upto(v, groups, n - 1) {
            Err(e) => Err(e),
            Ok(prev) => {
                let node = groups[n - 1].0;
                match slot_from(v.sources, node, 0) {
                    None => Err(SpecMaterializeError::Node(node)),
                    Some(k) => {
                        let s = v.sources[k];
                        match spec_parse(s.kind, s.source) {
                            Err(e) => Err(SpecMaterializeError::Markers(node, e)),
                            Ok(frags) => match spec_rewrite(s.source, frags, groups[n - 1].1) {
                                Err(e) => Err(SpecMaterializeError::Rewrite(node, e)),
                                Ok(None) => Ok(prev),
                                Ok(Some(text)) => Ok(prev.push((source_handle(v, k), text))),
                            },
                        }
                    },
                }
            },
        }
    }
}

pub open spec fn materialize_error_matches(e: Error, s: SpecMaterializeError) -> bool {
    match s {
        SpecMaterializeError::Node(n) => e matches Error::InconsistentMaterializationNode { node_index } && node_index == n,
        SpecMaterializeError::Markers(n, pe) => e matches Error::InconsistentMaterializationMarkers { node_index, source } && node_index == n && source@ == pe,
        SpecMaterializeError::Rewrite(n, re) => e matches Error::FragmentRewrite { node_index, source } && node_index == n && source@ == re,
    }
}

/// Why a prepared document is refused.
pub enum SpecPreparedError {
    /// The markers of this source node do not parse.
    Markers(int, SpecParseError),
    /// This fragment path occurs twice.
    Duplicate(Seq<u8>),
}

/// The paths seen after the first `m` fragments of one node, or the first
/// repeated path.
pub open spec fn prepared_fragments(seen: Seq<Seq<u8>>, frags: Seq<SpecFragment>, m: int) -> Result<Seq<Seq<u8>>, Seq<u8>>
    decreases m,
{
    if m <= 0 {
        Ok(seen)
    } else {
        match prepared_fragments(seen, frags, m - 1) {
            Err(p) => Err(p),
            Ok(s) => if s.contains(frags[m - 1].path) {
                Err(frags[m - 1].path)
            } else {
                Ok(s.push(frags[m - 1].path))
            },
        }
    }
}

/// The paths of the first `n` source nodes, or why they are refused.
pub open spec fn prepared_upto(srcs: Seq<SpecSource>, n: int) -> Result<Seq<Seq<u8>>, SpecPreparedError>
    decreases n,
{
    if n <= 0 {
        Ok(Seq::empty())
    } else {
        match prepared_upto(srcs, n - 1) {
            Err(e) => Err(e),
            Ok(seen) => match spec_parse(srcs[n - 1].kind, srcs[n - 1].source) {
                Err(e) => Err(SpecPreparedError::Markers(srcs[n - 1].index, e)),
                Ok(frags) => match prepared_fragments(seen, frags, frags.len() as int) {
                    Err(p) => Err(SpecPreparedError::Duplicate(p)),
                    Ok(s) => Ok(s),
                },
            },
        }
    }
}

pub open spec fn prepared_error_matches(e: Error, s: SpecPreparedError) -> bool {
    match s {
        SpecPreparedError::Markers(n, pe) => e matches Error::InvalidPreparedMarkers { node_index, source } && node_index == n && source@ == pe,
        SpecPreparedError::Duplicate(p) => e matches Error::DuplicatePreparedFragment { path } && path@ == p,
    }
}

proof fn lemma_prepared_err_stays(srcs: Seq<SpecSource>, m: int, n: int)
    requires
        0 <= m <= n,
        prepared_upto(srcs, m) is Err,
    ensures
        prepared_upto(srcs, n) == prepared_upto(srcs, m),
    decreases n - m,
{
    if m < n {
        lemma_prepared_err_stays(srcs, m, n - 1);
    }
}

proof fn lemma_prepared_fragments_err_stays(seen: Seq<Seq<u8>>, frags: Seq<SpecFragment>, m: int, n: int)
    requires
        0 <= m <= n,
        prepared_fragments(seen, frags, m) is Err,
    ensures
        prepared_fragments(seen, frags, n) == prepared_fragments(seen, frags, m),
    decreases n - m,
{
    if m < n {
        lemma_prepared_fragments_err_stays(seen, frags, m, n - 1);
    }
}

fn contains_path(seen: &Vec<FragmentPath>, p: &FragmentPath) -> (r: bool)
    ensures
        r == crate::commit::path_views(seen@).contains(p@),
{
    let ghost v = crate::commit::path_views(seen@);
    let key = p.as_str().as_bytes();
    let mut k: usize = 0;
    while k < seen.len()
        invariant
            k <= seen@.len(),
            v == crate::commit::path_views(seen@),
            key@ == p@,
            forall|m: int| 0 <= m < k ==> v[m] != p@,
        decreases seen@.len() - k,
    {
        if bytes_eq(seen[k].as_str().as_bytes(), key) {
            assert(v[k as int] == p@);
            return true;
        }
        k = k + 1;
    }
    false
}

/// Checks that a prepared document parses and its fragment paths are unique.
pub fn validate_prepared_document(bytes: &[u8]) -> (r: Result<(), Error>)
    ensures
        !well_formed_document(bytes@) ==> r matches Err(Error::Document(_)),
        well_formed_document(bytes@) ==> match prepared_upto(document_sources(bytes@), document_sources(bytes@).len() as int) {
            Ok(_) => r is Ok,
            Err(e) => r matches Err(x) && prepared_error_matches(x, e),
        },
{
    let document = match Document::parse(bytes) {
        Ok(d) => d,
        Err(e) => {
            return Err(Error::Document(e));
        },
    };
    let nodes = document.sources();
    let ghost srcs = document_sources(bytes@);
    let mut seen: Vec<FragmentPath> = Vec::new();
    assert(crate::commit::path_views(seen@) =~= Seq::<Seq<u8>>::empty());
    let mut i: usize = 0;
    while i < nodes.len()
        invariant
            i <= nodes@.len(),
            nodes@.len() == srcs.len(),
            srcs == document_sources(bytes@),
            srcs == document@.sources,
            well_formed_document(bytes@),
            document@.bytes == bytes@,
            forall|k: int|
                0 <= k < nodes@.len() ==> {
                    &&& (#[trigger] nodes@[k]).handle@.index == srcs[k].index
                    &&& nodes@[k].kind == srcs[k].kind
                    &&& nodes@[k].source.spec_bytes() == srcs[k].source
                    &&& nodes@[k].source.spec_bytes().len() < document@.bytes.len()
                },
            document@.bytes.len() <= usize::MAX,
            prepared_upto(srcs, i as int) == Ok::<Seq<Seq<u8>>, SpecPreparedError>(crate::commit::path_views(seen@)),
        decreases nodes@.len() - i,
    {
        let node = &nodes[i];
        let ghost sv = srcs[i as int];
        let parsed = match ParsedSource::parse(node.kind, node.source) {
            Ok(p) => p,
            Err(e) => {
                proof {
                    lemma_prepared_err_stays(srcs, i + 1, srcs.len() as int);
                }
                return Err(Error::InvalidPreparedMarkers { node_index: node.handle.index(), source: e });
            },
        };
        let fragments = parsed.fragments();
        let ghost frags = parsed@.fragments;
        let ghost start = crate::commit::path_views(seen@);
        let mut k: usize = 0;
        while k < fragments.len()
            invariant
                k <= fragments@.len(),
                i < srcs.len(),
                srcs == document_sources(bytes@),
                well_formed_document(bytes@),
                prepared_upto(srcs, i as int) == Ok::<Seq<Seq<u8>>, SpecPreparedError>(start),
                spec_parse(sv.kind, sv.source) == Ok::<Seq<SpecFragment>, SpecParseError>(frags),
                sv == srcs[i as int],
                fragments@.len() == frags.len(),
                forall|m: int| 0 <= m < fragments@.len() ==> (#[trigger] fragments@[m]).path@ == frags[m].path,
                prepared_fragments(start, frags, k as int) == Ok::<Seq<Seq<u8>>, Seq<u8>>(crate::commit::path_views(seen@)),
            decreases fragments@.len() - k,
        {
            let path = fragments[k].path;
            if contains_path(&seen, path) {
                proof {
                    lemma_prepared_fragments_err_stays(start, frags, k + 1, frags.len() as int);
                    lemma_prepared_err_stays(srcs, i + 1, srcs.len() as int);
                }
                return Err(Error::DuplicatePreparedFragment { path: path.clone() });
            }
            let ghost before = seen@;
            seen.push(path.clone());
            assert(crate::commit::path_views(seen@) =~= crate::commit::path_views(before).push(path@));
            k = k + 1;
        }
        i = i + 1;
    }
    Ok(())
}

/// What applying the grouped node updates `gv` to the document held in
/// `bytes` gives: the rewritten and checked document, `None` where it stays
/// as it is, or the error that stops it.
pub open spec fn materialized(bytes: Seq<u8>, gv: Seq<(int, Seq<SpecUpdate>)>, r: Result<Option<Vec<u8>>, Error>) -> bool {
    if !well_formed_document(bytes) {
        r matches Err(Error::Document(_))
    } else {
        let v = view_of(bytes);
        match replacements_upto(v, gv, gv.len() as int) {
            Err(e) => r matches Err(x) && materialize_error_matches(x, e),
            Ok(reps) => rewrite_outcome(v, reps, r),
        }
    }
}

/// Replacing present sources with valid strings keeps a document well formed.
proof fn lemma_materialized_well_formed(b: Seq<u8>, reps: Seq<(NodeHandleView, Seq<u8>)>)
    requires
        well_formed_document(b),
        crate::adls_valid::texts_valid(reps),
    ensures
        spec_document_rewrite(view_of(b), reps) matches SpecRewrite::Rewritten(out) ==> well_formed_document(out),
{
    if let SpecRewrite::Rewritten(out) = spec_document_rewrite(view_of(b), reps) {
        crate::adls_valid::lemma_rewrite_stays_well_formed(b, reps, out);
    }
}

/// Applies each node's fragment updates and rewrites the document. `None`
/// means the document bytes stay as they are.
#[verifier::rlimit(60)]
pub fn materialize_document(document_bytes: &[u8], node_updates: &Vec<(u32, Vec<FragmentUpdate>)>) -> (r: Result<Option<Vec<u8>>, Error>)
    ensures
        materialized(document_bytes@, group_views(node_updates@), r),
{
    let document = match Document::parse(document_bytes) {
        Ok(d) => d,
        Err(e) => {
            return Err(Error::Document(e));
        },
    };
    let ghost v = view_of(document_bytes@);
    assert(document@ == v);
    let ghost gv = group_views(node_updates@);
    let nodes = document.sources();
    let mut rewritten: Vec<(NodeHandle, String)> = Vec::new();
    assert(rewritten@.map_values(|p: (NodeHandle, String)| (p.0@, string_bytes(p.1))) =~= Seq::<(NodeHandleView, Seq<u8>)>::empty());
    let mut i: usize = 0;
    while i < node_updates.len()
        invariant
            i <= node_updates@.len(),
            well_formed_document(document_bytes@),
            v == view_of(document_bytes@),
            gv == group_views(node_updates@),
            document@ == v,
            nodes@.len() == v.sources.len(),
            forall|k: int|
                0 <= k < nodes@.len() ==> {
                    &&& (#[trigger] nodes@[k]).handle@.index == v.sources[k].index
                    &&& nodes@[k].handle@.document == v.id
                    &&& nodes@[k].kind == v.sources[k].kind
                    &&& nodes@[k].source.spec_bytes() == v.sources[k].source
                    &&& nodes@[k].source.spec_bytes().len() < v.bytes.len()
                },
            v.bytes.len() <= usize::MAX,
            replacements_upto(v, gv, i as int) == Ok::<Seq<(NodeHandleView, Seq<u8>)>, SpecMaterializeError>(
                rewritten@.map_values(|p: (NodeHandle, String)| (p.0@, string_bytes(p.1))),
            ),
        decreases node_updates@.len() - i,
    {
        let node_index = node_updates[i].0;
        let ghost before = rewritten@.map_values(|p: (NodeHandle, String)| (p.0@, string_bytes(p.1)));
        let mut slot: usize = 0;
        while slot < nodes.len() && nodes[slot].handle.index() != node_index
            invariant
                slot <= nodes@.len(),
                nodes@.len() == v.sources.len(),
                forall|k: int| 0 <= k < nodes@.len() ==> (#[trigger] nodes@[k]).handle@.index == v.sources[k].index,
                slot_from(v.sources, node_index as int, 0) == slot_from(v.sources, node_index as int, slot as int),
            decreases nodes@.len() - slot,
        {
            slot = slot + 1;
        }
        if slot == nodes.len() {
            proof {
                lemma_replacements_err_stays(v, gv, i + 1, gv.len() as int);
            }
            return Err(Error::InconsistentMaterializationNode { node_index });
        }
        let node = &nodes[slot];
        let parsed = match ParsedSource::parse(node.kind, node.source) {
            Ok(p) => p,
            Err(e) => {
                proof {
                    lemma_replacements_err_stays(v, gv, i + 1, gv.len() as int);
                }
                return Err(Error::InconsistentMaterializationMarkers { node_index, source: e });
            },
        };
        match parsed.rewrite(node_updates[i].1.as_slice()) {
            Err(e) => {
                proof {
                    lemma_replacements_err_stays(v, gv, i + 1, gv.len() as int);
                }
                return Err(Error::FragmentRewrite { node_index, source: e });
            },
            Ok(Cow::Borrowed(_)) => {},
            Ok(Cow::Owned(text)) => {
                rewritten.push((node.handle, text));
                assert(rewritten@.map_values(|p: (NodeHandle, String)| (p.0@, string_bytes(p.1))) =~= before.push(
                    (source_handle(v, slot as int), string_bytes(text)),
                ));
            },
        }
        i = i + 1;
    }
    let ghost reps = rewritten@.map_values(|p: (NodeHandle, String)| (p.0@, string_bytes(p.1)));
    let mut replacements: Vec<(NodeHandle, &str)> = Vec::new();
    let mut k: usize = 0;
    while k < rewritten.len()
        invariant
            k <= rewritten@.len(),
            reps == rewritten@.map_values(|p: (NodeHandle, String)| (p.0@, string_bytes(p.1))),
            replacement_views(replacements@) == reps.subrange(0, k as int),
        decreases rewritten@.len() - k,
    {
        let ghost before = replacements@;
        replacements.push((rewritten[k].0, rewritten[k].1.as_str()));
        assert(replacement_views(replacements@) =~= replacement_views(before).push(reps[k as int]));
        k = k + 1;
    }
    assert(reps.subrange(0, k as int) =~= reps);
    assert(crate::adls_valid::texts_valid(reps)) by {
        assert forall|m: int| 0 <= m < reps.len() implies valid_utf8(#[trigger] reps[m].1) by {
            assert(reps[m].1 == string_bytes(rewritten@[m].1));
        }
    }
    rewrite_materialized(&document, document_bytes, &replacements)
}

/// What rewriting document `v` with `reps` gives: the checked bytes, or the
/// error that stops it.
pub open spec fn rewrite_outcome(
    v: DocumentView,
    reps: Seq<(NodeHandleView, Seq<u8>)>,
    r: Result<Option<Vec<u8>>, Error>,
) -> bool {
    match spec_document_rewrite(v, reps) {
        SpecRewrite::Unchanged => r matches Ok(None),
        SpecRewrite::TooLarge => r matches Err(Error::Document(DocumentError::SizeLimitExceeded)),
        SpecRewrite::Rewritten(out) => match prepared_upto(document_sources(out), document_sources(out).len() as int) {
            Ok(_) => r matches Ok(Some(bytes)) && bytes@ == out,
            Err(e) => r matches Err(x) && prepared_error_matches(x, e),
        },
        SpecRewrite::UnknownHandle(j) => r matches Err(Error::Document(DocumentError::UnknownNodeHandle { node }))
            && node@ == reps[j].0,
        SpecRewrite::DuplicateHandle(j) => r matches Err(Error::Document(DocumentError::DuplicateReplacement { node }))
            && node@ == reps[j].0,
    }
}

/// Rewrites the document with the prepared node sources and checks the
/// result.
fn rewrite_materialized(document: &Document, document_bytes: &[u8], replacements: &Vec<(NodeHandle, &str)>) -> (r: Result<
    Option<Vec<u8>>,
    Error,
>)
    requires
        well_formed_document(document_bytes@),
        document@ == view_of(document_bytes@),
        crate::adls_valid::texts_valid(replacement_views(replacements@)),
    ensures
        rewrite_outcome(document@, replacement_views(replacements@), r),
{
    proof {
        let reps = replacement_views(replacements@);
        lemma_materialized_well_formed(document_bytes@, reps);
        crate::adls::lemma_refused_pair_bound(document@, reps, reps.len() as int);
    }
    match document.rewrite(replacements.as_slice()) {
        Err(e) => Err(Error::Document(e)),
        Ok(Cow::Borrowed(_)) => Ok(None),
        Ok(Cow::Owned(bytes)) => match validate_prepared_document(bytes.as_slice()) {
            Ok(()) => Ok(Some(bytes)),
            Err(e) => Err(e),
        },
    }
}

proof fn lemma_replacements_err_stays(v: DocumentView, groups: Seq<(int, Seq<SpecUpdate>)>, m: int, n: int)
    requires
        0 <= m <= n,
        replacements_upto(v, groups, m) is Err,
    ensures
        replacements_upto(v, groups, n) == replacements_upto(v, groups, m),
    decreases n - m,
{
    if m < n {
        lemma_replacements_err_stays(v, groups, m, n - 1);
    }
}

// ---------------------------------------------------------------------------
// Running a request
// ---------------------------------------------------------------------------

pub open spec fn plan_error_matches(e: Error, p: PlanError, classified: Seq<(&InventoryEntry, Classification)>) -> bool {
    match p {
        PlanError::ForceRequiresExplicitSelection => e is ForceRequiresExplicitSelection,
        PlanError::InvalidForcedState { index, state } => e matches Error::InvalidForcedState {
            path,
            state: s,
        } && path@ == classified[index as int].0.path@ && s == state,
        PlanError::AllocationFailed => e is Allocation,
    }
}

fn map_plan_error(error: PlanError, classified: &[(&InventoryEntry, Classification)]) -> (r: Error)
    requires
        error matches PlanError::InvalidForcedState { index, .. } ==> index < classified@.len(),
    ensures
        plan_error_matches(r, error, classified@),
{
    match error {
        PlanError::ForceRequiresExplicitSelection => Error::ForceRequiresExplicitSelection,
        PlanError::InvalidForcedState { index, state } => Error::InvalidForcedState {
            path: classified[index].0.path.clone(),
            state,
        },
        PlanError::AllocationFailed => Error::Allocation { operation: "plan synchronization actions" },
    }
}

pub open spec fn classifications_of(classified: Seq<(&InventoryEntry, Classification)>) -> Seq<Classification> {
    classified.map_values(|p: (&InventoryEntry, Classification)| p.1)
}

/// An embed action is only planned for a fragment with filesystem source.
proof fn lemma_embed_has_source(
    operation: Operation,
    selection: SelectionKind,
    classified: Seq<(&InventoryEntry, Classification)>,
    i: int,
)
    requires
        0 <= i < classified.len(),
        forall|k: int| 0 <= k < classified.len() ==> (#[trigger] classified[k]).1 == entry_classification(*classified[k].0),
        spec_plan(operation, selection, classifications_of(classified)) matches Ok(ds) && ds[i] == Decision::Act(Action::Embed),
    ensures
        classified[i].0.filesystem is Some,
{
    let cs = classifications_of(classified);
    assert(cs[i] == classified[i].1);
    let e = *classified[i].0;
    if e.filesystem is None {
        assert(fs_view(e.filesystem) is None);
        assert(!(cs[i] is Embed || cs[i] is Conflict || cs[i] is UnadoptedConflict));
        if crate::reconcile::spec_forced_action(operation) is Some {
            lemma_first_unforceable_bound(cs);
            assert(crate::reconcile::first_unforceable(cs) == cs.len());
            lemma_all_forceable(cs, i);
        }
    }
}

proof fn lemma_all_forceable(cs: Seq<Classification>, i: int)
    requires
        0 <= i < cs.len(),
        crate::reconcile::first_unforceable(cs) == cs.len(),
    ensures
        crate::reconcile::is_forceable(cs[i]),
    decreases cs.len(),
{
    if i > 0 {
        assert(crate::reconcile::is_forceable(cs[0]));
        assert(crate::reconcile::first_unforceable(cs.drop_first()) == cs.len() - 1);
        lemma_all_forceable(cs.drop_first(), i - 1);
    }
}

/// The outputs a mutation commits for the extracted entries, in order: each
/// entry's embedded source at its path, created new where no file exists.
pub open spec fn extraction_outputs(ext: Seq<InventoryEntry>) -> Seq<OutputView> {
    ext.map_values(
        |e: InventoryEntry|
            OutputView {
                path: e.path@,
                bytes: e.embedded@,
                write: if e.filesystem is None {
                    ExternalWrite::CreateNew
                } else {
                    ExternalWrite::CreateOrTruncate
                },
            },
    )
}

/// The paths of the entries that have no file, in order.
pub open spec fn absent_paths(entries: Seq<InventoryEntry>) -> Seq<Seq<u8>>
    decreases entries.len(),
{
    if entries.len() == 0 {
        Seq::empty()
    } else if entries.last().filesystem is None {
        absent_paths(entries.drop_last()).push(entries.last().path@)
    } else {
        absent_paths(entries.drop_last())
    }
}

/// What a mutation returns for how its commit ended: the planned report,
/// the commit's error, or a refused access with the files already written.
pub open spec fn commit_reported<A>(
    c: Result<(), PolicyFailure<CommitAccessFailure<A>, CommitError>>,
    r: Result<Report, Error>,
    report: Seq<ReportEntryView>,
    exit: ExitState,
) -> bool {
    match c {
        Ok(()) => r matches Ok(rep) && entry_views(rep.entries@) == report && rep.exit == exit,
        Err(PolicyFailure::Operation(e)) => r == Err::<Report, Error>(Error::Commit(e)),
        Err(PolicyFailure::Access(f)) => r matches Err(Error::Coordination { completed }) && completed@ == f.completed@,
    }
}

/// What a mutation of the document `bytes` at `document_path`, with
/// inventory `entries`, returns and writes for a classified selection: a
/// plan error exactly when planning fails, writing nothing; otherwise the
/// document materialized from the planned node updates, or its error,
/// writing nothing; nothing to write gives the planned report at once;
/// otherwise the commit of the extracted entries and the changed document,
/// whose effects the filesystem log gains and whose end decides the result.
pub open spec fn mutation_result<A>(
    r: Result<Report, Error>,
    operation: Operation,
    selection: SelectionKind,
    classified: Seq<(&InventoryEntry, Classification)>,
    entries: Seq<InventoryEntry>,
    bytes: Seq<u8>,
    document_path: Seq<u8>,
    before: Seq<FsEffect>,
    after: Seq<FsEffect>,
) -> bool {
    &&& match spec_plan(operation, selection, classifications_of(classified)) {
        Err(e) => r matches Err(x) && plan_error_matches(x, e, classified) && after == before,
        Ok(ds) => {
            let n = classified.len() as int;
            let report = report_upto(classified, ds, n);
            let exit = spec_exit_state(any_unresolved(ds));
            let ext = extracted_upto(classified, ds, n);
            exists|gv: Seq<(int, Seq<SpecUpdate>)>, m: Result<Option<Vec<u8>>, Error>|
                #![trigger grouped(gv, acts_upto(classified, ds, n)), materialized(bytes, gv, m)]
                {
                    &&& grouped(gv, acts_upto(classified, ds, n))
                    &&& materialized(bytes, gv, m)
                    &&& match m {
                        Err(x) => r == Err::<Report, Error>(x) && after == before,
                        Ok(doc) => {
                            let dv = match doc {
                                Some(d) => Some((document_path, d@)),
                                None => None,
                            };
                            if ext.len() == 0 && doc is None {
                                &&& r matches Ok(rep) && entry_views(rep.entries@) == report && rep.exit == exit
                                &&& after == before
                            } else {
                                exists|c: Result<(), PolicyFailure<CommitAccessFailure<A>, CommitError>>|
                                    #![trigger commit_reported(c, r, report, exit)]
                                    commit_ended(extraction_outputs(ext), dv, c) && commit_reported(c, r, report, exit)
                                        && after == before + commit_effects(
                                        extraction_outputs(ext),
                                        absent_paths(entries),
                                        dv,
                                        c,
                                    )
                            }
                        },
                    }
                }
        },
    }
    &&& r matches Err(x) ==> !(x is Selector || x is Inventory || x is InvalidDocumentExtension)
}

proof fn lemma_settled_plan_empty(classified: Seq<(&InventoryEntry, Classification)>, ds: Seq<Decision>, n: int)
    requires
        0 <= n <= ds.len(),
        forall|k: int| 0 <= k < ds.len() ==> #[trigger] ds[k] == Decision::Settled,
    ensures
        report_upto(classified, ds, n) == Seq::<ReportEntryView>::empty(),
        acts_upto(classified, ds, n) == Seq::<(int, SpecUpdate)>::empty(),
        extracted_upto(classified, ds, n) == Seq::<InventoryEntry>::empty(),
    decreases n,
{
    if n > 0 {
        assert(ds[n - 1] == Decision::Settled);
        lemma_settled_plan_empty(classified, ds, n - 1);
    }
}

/// Syncing fragments that are all synchronized is idle: it takes no action,
/// reports nothing, exits synchronized, and writes nothing.
pub proof fn lemma_sync_of_synchronized_is_idle<A>(
    r: Result<Report, Error>,
    selection: SelectionKind,
    classified: Seq<(&InventoryEntry, Classification)>,
    entries: Seq<InventoryEntry>,
    bytes: Seq<u8>,
    document_path: Seq<u8>,
    before: Seq<FsEffect>,
    after: Seq<FsEffect>,
)
    requires
        forall|k: int| 0 <= k < classified.len() ==> (#[trigger] classified[k]).1 == Classification::Synchronized,
        well_formed_document(bytes),
        mutation_result::<A>(r, Operation::Sync, selection, classified, entries, bytes, document_path, before, after),
    ensures
        r matches Ok(report) && report.entries@.len() == 0 && report.exit == ExitState::Synchronized,
        after == before,
{
    let cs = classifications_of(classified);
    crate::reconcile::lemma_synchronized_is_settled(Operation::Sync, selection);
    let ds = spec_plan(Operation::Sync, selection, cs).unwrap();
    assert(spec_plan(Operation::Sync, selection, cs) == Ok::<Seq<Decision>, PlanError>(ds));
    assert forall|k: int| 0 <= k < ds.len() implies #[trigger] ds[k] == Decision::Settled by {
        assert(cs[k] == classified[k].1);
    }
    let n = classified.len() as int;
    lemma_settled_plan_empty(classified, ds, n);
    assert(!any_unresolved(ds));
    let acts = acts_upto(classified, ds, n);
    let (gv, m) = choose|gv: Seq<(int, Seq<SpecUpdate>)>, m: Result<Option<Vec<u8>>, Error>|
        grouped(gv, acts) && materialized(bytes, gv, m) && match m {
            Err(x) => r == Err::<Report, Error>(x) && after == before,
            Ok(doc) => {
                let dv = match doc {
                    Some(d) => Some((document_path, d@)),
                    None => None,
                };
                if extracted_upto(classified, ds, n).len() == 0 && doc is None {
                    &&& r matches Ok(rep) && entry_views(rep.entries@) == report_upto(classified, ds, n)
                        && rep.exit == spec_exit_state(any_unresolved(ds))
                    &&& after == before
                } else {
                    exists|c: Result<(), PolicyFailure<CommitAccessFailure<A>, CommitError>>|
                        #![trigger commit_reported(c, r, report_upto(classified, ds, n), spec_exit_state(any_unresolved(ds)))]
                        commit_ended(extraction_outputs(extracted_upto(classified, ds, n)), dv, c) && commit_reported(
                            c,
                            r,
                            report_upto(classified, ds, n),
                            spec_exit_state(any_unresolved(ds)),
                        ) && after == before + commit_effects(
                            extraction_outputs(extracted_upto(classified, ds, n)),
                            absent_paths(entries),
                            dv,
                            c,
                        )
                }
            },
        };
    if gv.len() > 0 {
        assert(gv[0].1 == updates_for(acts, gv[0].0));
        assert(gv[0].1.len() > 0);
    }
    assert(gv.len() == 0);
    assert(replacements_upto(view_of(bytes), gv, 0) == Ok::<Seq<(NodeHandleView, Seq<u8>)>, SpecMaterializeError>(Seq::empty()));
    assert(spec_document_rewrite(view_of(bytes), Seq::empty()) == SpecRewrite::Unchanged);
    assert(m matches Ok(None));
    if let Ok(report) = r {
        assert(entry_views(report.entries@).len() == report.entries@.len());
    }
}

/// Plans, materializes, and commits one mutating operation on the classified
/// selection, in canonical path order.
///
/// A sync of a selection that is all synchronized makes no effect and
/// reports no entry.
pub fn mutate<P: AccessPolicy, F: CommitFilesystem>(
    access: &mut P,
    filesystem: &mut RecordingFilesystem<F>,
    document_path: &str,
    inventory: &Inventory,
    classified: &[(&InventoryEntry, Classification)],
    selection: SelectionKind,
    operation: Operation,
) -> (r: Result<Report, Error>)
    requires
        forall|k: int| 0 <= k < classified@.len() ==> (#[trigger] classified@[k]).1 == entry_classification(*classified@[k].0),
    ensures
        mutation_result::<P::Error>(
            r,
            operation,
            selection,
            classified@,
            inventory@.entries,
            inventory@.document,
            document_path.spec_bytes(),
            old(filesystem).effects(),
            final(filesystem).effects(),
        ),
        operation == Operation::Sync && (forall|k: int|
            0 <= k < classified@.len() ==> (#[trigger] classified@[k]).1 == Classification::Synchronized)
            ==> (r matches Ok(report) && report.entries@.len() == 0 && report.exit == ExitState::Synchronized)
            && final(filesystem).effects() == old(filesystem).effects(),
{
    let bytes = inventory.document_bytes();
    let r = mutate_planned(access, filesystem, document_path, inventory, classified, selection, operation);
    proof {
        if operation == Operation::Sync && (forall|k: int|
            0 <= k < classified@.len() ==> (#[trigger] classified@[k]).1 == Classification::Synchronized) {
            lemma_sync_of_synchronized_is_idle::<P::Error>(
                r,
                selection,
                classified@,
                inventory@.entries,
                bytes@,
                document_path.spec_bytes(),
                old(filesystem).effects(),
                filesystem.effects(),
            );
        }
    }
    r
}

fn mutate_planned<P: AccessPolicy, F: CommitFilesystem>(
    access: &mut P,
    filesystem: &mut RecordingFilesystem<F>,
    document_path: &str,
    inventory: &Inventory,
    classified: &[(&InventoryEntry, Classification)],
    selection: SelectionKind,
    operation: Operation,
) -> (r: Result<Report, Error>)
    requires
        forall|k: int| 0 <= k < classified@.len() ==> (#[trigger] classified@[k]).1 == entry_classification(*classified@[k].0),
    ensures
        mutation_result::<P::Error>(
            r,
            operation,
            selection,
            classified@,
            inventory@.entries,
            inventory@.document,
            document_path.spec_bytes(),
            old(filesystem).effects(),
            final(filesystem).effects(),
        ),
{
    let mut classifications: Vec<Classification> = Vec::new();
    let mut i: usize = 0;
    while i < classified.len()
        invariant
            i <= classified@.len(),
            classifications@ == classifications_of(classified@).subrange(0, i as int),
        decreases classified@.len() - i,
    {
        classifications.push(classified[i].1);
        assert(classifications@ =~= classifications_of(classified@).subrange(0, i + 1));
        i = i + 1;
    }
    assert(classifications@ =~= classifications_of(classified@));
    let decisions = match plan(operation, selection, classifications.as_slice()) {
        Ok(d) => d,
        Err(e) => {
            proof {
                lemma_first_unforceable_bound(classifications@);
            }
            return Err(map_plan_error(e, classified));
        },
    };
    proof {
        assert forall|k: int| 0 <= k < decisions@.len() && #[trigger] decisions@[k] == Decision::Act(Action::Embed)
            implies classified@[k].0.filesystem is Some by {
            lemma_embed_has_source(operation, selection, classified@, k);
        }
    }
    let plan = plan_mutation(classified, decisions.as_slice());
    let ghost n = classified@.len() as int;
    let ghost acts = acts_upto(classified@, decisions@, n);
    let ghost ext = extracted_upto(classified@, decisions@, n);
    let ghost gv = group_views(plan.node_updates@);
    let bytes = inventory.document_bytes();
    let document_output = materialize_document(bytes, &plan.node_updates);
    let ghost m = document_output;
    let document_output = match document_output {
        Ok(d) => d,
        Err(x) => {
            let r = Err(x);
            assert(grouped(gv, acts) && materialized(inventory@.document, gv, m));
            return r;
        },
    };
    if plan.extracted.len() == 0 && document_output.is_none() {
        assert(grouped(gv, acts) && materialized(inventory@.document, gv, m));
        return Ok(Report { entries: plan.report, exit: exit_state(plan.attention) });
    }
    let ghost outs = extraction_outputs(ext);
    let mut external: Vec<ExternalOutput> = Vec::new();
    let mut k: usize = 0;
    assert(output_views(external@) =~= outs.subrange(0, 0));
    while k < plan.extracted.len()
        invariant
            k <= plan.extracted@.len(),
            plan.extracted@.map_values(|e: &InventoryEntry| *e) == ext,
            outs == extraction_outputs(ext),
            output_views(external@) == outs.subrange(0, k as int),
        decreases plan.extracted@.len() - k,
    {
        let entry = plan.extracted[k];
        assert(*entry == ext[k as int]);
        let write = if entry.filesystem.is_none() {
            ExternalWrite::CreateNew
        } else {
            ExternalWrite::CreateOrTruncate
        };
        let ghost before = external@;
        external.push(ExternalOutput { path: &entry.path, bytes: entry.embedded.as_str().as_bytes(), write });
        assert(output_views(external@) =~= output_views(before).push(outs[k as int]));
        assert(outs.subrange(0, k + 1) =~= outs.subrange(0, k as int).push(outs[k as int]));
        k = k + 1;
    }
    assert(outs.subrange(0, k as int) =~= outs);
    let entries = inventory.entries();
    let mut absent_targets: Vec<&FragmentPath> = Vec::new();
    let mut j: usize = 0;
    assert(path_ref_views(absent_targets@) =~= absent_paths(entries@.subrange(0, 0)));
    while j < entries.len()
        invariant
            j <= entries@.len(),
            path_ref_views(absent_targets@) == absent_paths(entries@.subrange(0, j as int)),
        decreases entries@.len() - j,
    {
        let ghost before = absent_targets@;
        let ghost next = entries@.subrange(0, j + 1);
        assert(next.drop_last() =~= entries@.subrange(0, j as int));
        assert(next.last() == entries@[j as int]);
        if entries[j].filesystem.is_none() {
            absent_targets.push(&entries[j].path);
            assert(path_ref_views(absent_targets@) =~= path_ref_views(before).push(entries@[j as int].path@));
        }
        j = j + 1;
    }
    assert(entries@.subrange(0, j as int) =~= entries@);
    let document = match &document_output {
        Some(bytes) => Some(DocumentOutput { destination: document_path, bytes: bytes.as_slice() }),
        None => None,
    };
    let ghost dv = match &document_output {
        Some(d) => Some((document_path.spec_bytes(), d@)),
        None => None,
    };
    assert(document_output_view(document) == dv);
    let committed = commit_using(access, filesystem, external.as_slice(), absent_targets.as_slice(), document);
    let ghost c = committed;
    let r = match committed {
        Ok(()) => Ok(Report { entries: plan.report, exit: exit_state(plan.attention) }),
        Err(PolicyFailure::Operation(e)) => Err(Error::Commit(e)),
        Err(PolicyFailure::Access(f)) => Err(Error::Coordination { completed: f.completed }),
    };
    assert(commit_reported(c, r, report_upto(classified@, decisions@, n), spec_exit_state(any_unresolved(decisions@))));
    assert(grouped(gv, acts) && materialized(inventory@.document, gv, m));
    r
}

proof fn lemma_first_unforceable_bound(s: Seq<Classification>)
    ensures
        0 <= crate::reconcile::first_unforceable(s) <= s.len(),
    decreases s.len(),
{
    if s.len() > 0 {
        lemma_first_unforceable_bound(s.drop_first());
    }
}

/// `classified` holds the chosen entries of an inventory, each with its
/// classification.
pub open spec fn classifies_selection(
    classified: Seq<(&InventoryEntry, Classification)>,
    entries: Seq<InventoryEntry>,
    chosen: Seq<int>,
) -> bool {
    &&& classified.len() == chosen.len()
    &&& forall|k: int|
        0 <= k < chosen.len() ==> *(#[trigger] classified[k]).0 == entries[chosen[k]] && classified[k].1
            == entry_classification(entries[chosen[k]])
}

/// The state report of a classified selection.
pub open spec fn status_views(classified: Seq<(&InventoryEntry, Classification)>) -> Seq<ReportEntryView> {
    classified.map_values(|p: (&InventoryEntry, Classification)| ReportEntryView::State(p.0.path@, state_of(p.1)))
}

proof fn lemma_selected_in_range(paths: Seq<Seq<u8>>, selectors: Seq<Seq<u8>>, n: int)
    requires
        0 <= n <= paths.len(),
    ensures
        forall|k: int|
            0 <= k < selected_upto(paths, selectors, n).len() ==> 0 <= #[trigger] selected_upto(paths, selectors, n)[k] < n,
    decreases n,
{
    if n > 0 {
        lemma_selected_in_range(paths, selectors, n - 1);
        let prev = selected_upto(paths, selectors, n - 1);
        if selectors.contains(paths[n - 1]) {
            assert forall|k: int| 0 <= k < prev.push(n - 1).len() implies 0 <= #[trigger] prev.push(n - 1)[k] < n by {
                if k < prev.len() {
                    assert(prev.push(n - 1)[k] == prev[k]);
                }
            }
        }
    }
}

proof fn lemma_selection_in_range(paths: Seq<Seq<u8>>, selectors: Seq<Seq<u8>>)
    ensures
        forall|k: int|
            0 <= k < selection_of(paths, selectors).len() ==> 0 <= #[trigger] selection_of(paths, selectors)[k] < paths.len(),
{
    lemma_selected_in_range(paths, selectors, paths.len() as int);
}

/// Selects, classifies, and reports or synchronizes the selected fragments
/// of a discovered inventory.
///
/// A sync of an inventory that is all synchronized makes no effect and
/// reports no entry: a second sync, on what a first one left in step,
/// changes nothing.
pub fn execute_with<P: AccessPolicy, F: CommitFilesystem>(
    access: &mut P,
    filesystem: &mut RecordingFilesystem<F>,
    document_path: &str,
    inventory: &Inventory,
    selectors: &[FragmentPath],
    mode: Mode,
) -> (r: Result<Report, Error>)
    ensures
        (exists|k: int| 0 <= k < selectors@.len() && !inventory@.paths.contains(#[trigger] selector_paths(selectors@)[k]))
            <==> r matches Err(Error::Selector(_)),
        forall|classified: Seq<(&InventoryEntry, Classification)>|
            #![trigger classifies_selection(classified, inventory@.entries, selection_of(inventory@.paths, selector_paths(selectors@)))]
            !(r matches Err(Error::Selector(_))) && classifies_selection(
                classified,
                inventory@.entries,
                selection_of(inventory@.paths, selector_paths(selectors@)),
            ) ==> match mode {
                Mode::Status => r matches Ok(report) && entry_views(report.entries@) == status_views(classified)
                    && report.exit == spec_exit_state(any_attention(classified)),
                Mode::Mutate(operation) => mutation_result::<P::Error>(
                    r,
                    operation,
                    if selectors@.len() == 0 {
                        SelectionKind::All
                    } else {
                        SelectionKind::Explicit
                    },
                    classified,
                    inventory@.entries,
                    inventory@.document,
                    document_path.spec_bytes(),
                    old(filesystem).effects(),
                    final(filesystem).effects(),
                ),
            },
        (r matches Err(Error::Selector(_)) || mode is Status) ==> final(filesystem).effects() == old(
            filesystem,
        ).effects(),
        mode == Mode::Mutate(Operation::Sync) && (forall|k: int|
            0 <= k < selectors@.len() ==> inventory@.paths.contains(#[trigger] selector_paths(selectors@)[k])) && (forall|k: int|
            0 <= k < inventory@.entries.len() ==> entry_classification(#[trigger] inventory@.entries[k])
                == Classification::Synchronized) ==> (r matches Ok(report) && report.entries@.len() == 0 && report.exit
            == ExitState::Synchronized) && final(filesystem).effects() == old(filesystem).effects(),
{
    let selection = if selectors.len() == 0 {
        SelectionKind::All
    } else {
        SelectionKind::Explicit
    };
    let selected = match inventory.select(selectors) {
        Ok(s) => s,
        Err(e) => {
            return Err(Error::Selector(e));
        },
    };
    let classified = classify_entries(&selected);
    let ghost chosen = selection_of(inventory@.paths, selector_paths(selectors@));
    proof {
        assert forall|other: Seq<(&InventoryEntry, Classification)>|
            classifies_selection(other, inventory@.entries, chosen) implies other == classified@ by {
            assert(other =~= classified@);
        }
    }
    match mode {
        Mode::Status => Ok(status_report(classified.as_slice())),
        Mode::Mutate(operation) => {
            proof {
                lemma_selection_in_range(inventory@.paths, selector_paths(selectors@));
                if forall|k: int|
                    0 <= k < inventory@.entries.len() ==> entry_classification(#[trigger] inventory@.entries[k])
                        == Classification::Synchronized {
                    assert forall|k: int| 0 <= k < classified@.len() implies (#[trigger] classified@[k]).1
                        == Classification::Synchronized by {
                        assert(classified@[k].0 == selected@[k]);
                        assert(inventory@.paths.len() == inventory@.entries.len());
                        assert(*selected@[k] == inventory@.entries[chosen[k]]);
                    }
                }
            }
            let r = mutate(access, filesystem, document_path, inventory, classified.as_slice(), selection, operation);
            match r {
                Err(Error::Selector(e)) => {
                    proof {
                        assert(false);
                    }
                    Err(Error::Selector(e))
                },
                other => other,
            }
        },
    }
}

// ---------------------------------------------------------------------------
// Report order
// ---------------------------------------------------------------------------

/// The fragment path a report entry is about.
pub open spec fn entry_path(e: ReportEntryView) -> Seq<u8> {
    match e {
        ReportEntryView::State(p, _) => p,
        ReportEntryView::Action(p, _) => p,
    }
}

/// Report entries strictly ascend in canonical path order.
pub open spec fn entries_in_path_order(r: Seq<ReportEntryView>) -> bool {
    forall|i: int, j: int| 0 <= i < j < r.len() ==> seq_lt(entry_path(#[trigger] r[i]), entry_path(#[trigger] r[j]))
}

/// Classified entries strictly ascend in canonical path order.
pub open spec fn classified_in_path_order(c: Seq<(&InventoryEntry, Classification)>) -> bool {
    forall|i: int, j: int| 0 <= i < j < c.len() ==> seq_lt((#[trigger] c[i]).0.path@, (#[trigger] c[j]).0.path@)
}

proof fn lemma_selected_upto_ascends(paths: Seq<Seq<u8>>, selectors: Seq<Seq<u8>>, n: int)
    requires
        0 <= n <= paths.len(),
    ensures
        forall|k: int| 0 <= k < selected_upto(paths, selectors, n).len() ==> 0 <= #[trigger] selected_upto(paths, selectors, n)[k] < n,
        forall|k: int, l: int|
            0 <= k < l < selected_upto(paths, selectors, n).len() ==> #[trigger] selected_upto(paths, selectors, n)[k]
                < #[trigger] selected_upto(paths, selectors, n)[l],
    decreases n,
{
    if n > 0 {
        lemma_selected_upto_ascends(paths, selectors, n - 1);
        let prev = selected_upto(paths, selectors, n - 1);
        let cur = selected_upto(paths, selectors, n);
        assert forall|k: int| 0 <= k < cur.len() implies 0 <= #[trigger] cur[k] < n by {
            if k < prev.len() {
                assert(cur[k] == prev[k]);
            }
        }
        assert forall|k: int, l: int| 0 <= k < l < cur.len() implies #[trigger] cur[k] < #[trigger] cur[l] by {
            assert(cur[k] == prev[k]);
            if l < prev.len() {
                assert(cur[l] == prev[l]);
            }
        }
    }
}

/// A selection keeps the inventory's canonical path order.
pub proof fn lemma_selection_in_path_order(
    entries: Seq<InventoryEntry>,
    selectors: Seq<Seq<u8>>,
    classified: Seq<(&InventoryEntry, Classification)>,
)
    requires
        strictly_increasing_paths(entry_paths(entries)),
        classifies_selection(classified, entries, selection_of(entry_paths(entries), selectors)),
    ensures
        classified_in_path_order(classified),
{
    let paths = entry_paths(entries);
    let chosen = selection_of(paths, selectors);
    if selectors.len() > 0 {
        lemma_selected_upto_ascends(paths, selectors, paths.len() as int);
    }
    assert forall|i: int, j: int| 0 <= i < j < classified.len() implies seq_lt(
        (#[trigger] classified[i]).0.path@,
        (#[trigger] classified[j]).0.path@,
    ) by {
        assert(paths[chosen[i]] == entries[chosen[i]].path@);
        assert(paths[chosen[j]] == entries[chosen[j]].path@);
    }
}

proof fn lemma_report_upto_in_order(classified: Seq<(&InventoryEntry, Classification)>, ds: Seq<Decision>, n: int)
    requires
        classified_in_path_order(classified),
        0 <= n <= classified.len(),
        ds.len() == classified.len(),
    ensures
        entries_in_path_order(report_upto(classified, ds, n)),
        forall|k: int|
            0 <= k < report_upto(classified, ds, n).len() ==> exists|m: int|
                0 <= m < n && entry_path(#[trigger] report_upto(classified, ds, n)[k]) == classified[m].0.path@,
    decreases n,
{
    if n > 0 {
        lemma_report_upto_in_order(classified, ds, n - 1);
        let prev = report_upto(classified, ds, n - 1);
        let cur = report_upto(classified, ds, n);
        let p = classified[n - 1].0.path@;
        assert forall|k: int| 0 <= k < cur.len() implies exists|m: int|
            0 <= m < n && entry_path(#[trigger] cur[k]) == classified[m].0.path@ by {
            if k < prev.len() {
                assert(cur[k] == prev[k]);
                let m = choose|m: int| 0 <= m < n - 1 && entry_path(#[trigger] prev[k]) == classified[m].0.path@;
                assert(0 <= m < n && entry_path(cur[k]) == classified[m].0.path@);
            } else {
                assert(entry_path(cur[k]) == classified[n - 1].0.path@);
            }
        }
        assert forall|i: int, j: int| 0 <= i < j < cur.len() implies seq_lt(
            entry_path(#[trigger] cur[i]),
            entry_path(#[trigger] cur[j]),
        ) by {
            assert(cur[i] == prev[i]);
            if j < prev.len() {
                assert(cur[j] == prev[j]);
            } else {
                let m = choose|m: int| 0 <= m < n - 1 && entry_path(#[trigger] prev[i]) == classified[m].0.path@;
                assert(entry_path(cur[j]) == p);
                assert(seq_lt(classified[m].0.path@, classified[n - 1].0.path@));
            }
        }
    }
}

/// Reports list their fragments in canonical path order: a status report
/// and a mutation report of a classified selection in path order ascend by
/// path.
pub proof fn lemma_reports_in_path_order(classified: Seq<(&InventoryEntry, Classification)>, ds: Seq<Decision>)
    requires
        classified_in_path_order(classified),
        ds.len() == classified.len(),
    ensures
        entries_in_path_order(status_views(classified)),
        entries_in_path_order(report_upto(classified, ds, classified.len() as int)),
{
    let sv = status_views(classified);
    assert forall|i: int, j: int| 0 <= i < j < sv.len() implies seq_lt(entry_path(#[trigger] sv[i]), entry_path(#[trigger] sv[j])) by {
        assert(entry_path(sv[i]) == classified[i].0.path@);
        assert(entry_path(sv[j]) == classified[j].0.path@);
    }
    lemma_report_upto_in_order(classified, ds, classified.len() as int);
}

} // verus!
