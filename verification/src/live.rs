//! Deterministic decisions of a foreground live session.
//!
//! The session loop itself (signals, filesystem monitoring, and the calls
//! into the synchronization engine) performs effects; what it does next at
//! each synchronous boundary, and the diagnostic lines each reconciliation
//! prints, are decided here.

use vstd::prelude::*;
use vstd::string::*;
use vstd::utf8::decode_utf8;

use crate::engine::{entry_views, Report, ReportEntry, ReportEntryView};
use crate::fragment::FragmentPath;
use crate::reconcile::{action_name, state_name};

verus! {

broadcast use vstd::utf8::encode_utf8_decode_utf8;

/// One bounded prompt for the foreground driver to inspect boundary state.
#[derive(Clone, Copy, Debug, PartialEq, Eq, Structural)]
pub enum Wake {
    Filesystem,
    Control,
}

/// What the driver does next at a synchronous boundary.
#[derive(Clone, Copy, Debug, PartialEq, Eq, Structural)]
pub enum Next {
    Reconcile,
    Wait,
    Stop,
}

/// Shutdown wins over everything; a filesystem hint is needed to run again.
pub open spec fn spec_boundary_next(shutdown: bool, wake: Option<Wake>) -> Next {
    if shutdown || wake == Some(Wake::Control) {
        Next::Stop
    } else if wake == Some(Wake::Filesystem) {
        Next::Reconcile
    } else {
        Next::Wait
    }
}

pub fn boundary_next(shutdown: bool, wake: Option<Wake>) -> (r: Next)
    ensures
        r == spec_boundary_next(shutdown, wake),
{
    if shutdown {
        return Next::Stop;
    }
    match wake {
        Some(Wake::Control) => Next::Stop,
        Some(Wake::Filesystem) => Next::Reconcile,
        None => Next::Wait,
    }
}

/// Why the last reconciliation needs attention: fragments in states other
/// than synchronized, or a failure.
#[derive(Debug)]
pub enum Blocker {
    States(Vec<String>),
    Failure(String),
}

pub enum BlockerView {
    States(Seq<Seq<char>>),
    Failure(Seq<char>),
}

impl View for Blocker {
    type V = BlockerView;

    open spec fn view(&self) -> BlockerView {
        match self {
            Blocker::States(states) => BlockerView::States(states@.map_values(|s: String| s@)),
            Blocker::Failure(f) => BlockerView::Failure(f@),
        }
    }
}

pub open spec fn blocker_view(b: Option<&Blocker>) -> Option<BlockerView> {
    match b {
        Some(b) => Some(b@),
        None => None,
    }
}

/// What to report when the blocker changes from one reconciliation to the next.
#[derive(Clone, Copy, Debug, PartialEq, Eq, Structural)]
pub enum BlockerTransition {
    Unchanged,
    Report,
    Recovered,
    RecoveredAndReport,
}

/// An unchanged blocker is not repeated; clearing one is a recovery; a
/// failure that gives way to attention states is a recovery with a report;
/// any other change is reported.
pub open spec fn spec_blocker_transition(previous: Option<BlockerView>, current: Option<BlockerView>) -> BlockerTransition {
    if previous == current {
        BlockerTransition::Unchanged
    } else if previous is Some && current is None {
        BlockerTransition::Recovered
    } else if previous matches Some(BlockerView::Failure(_)) && current matches Some(
        BlockerView::States(_),
    ) {
        BlockerTransition::RecoveredAndReport
    } else {
        BlockerTransition::Report
    }
}

fn same_strings(a: &Vec<String>, b: &Vec<String>) -> (r: bool)
    ensures
        r == (a@.map_values(|s: String| s@) == b@.map_values(|s: String| s@)),
{
    let ghost va = a@.map_values(|s: String| s@);
    let ghost vb = b@.map_values(|s: String| s@);
    if a.len() != b.len() {
        assert(va.len() != vb.len());
        return false;
    }
    let mut i: usize = 0;
    while i < a.len()
        invariant
            i <= a@.len(),
            a@.len() == b@.len(),
            va == a@.map_values(|s: String| s@),
            vb == b@.map_values(|s: String| s@),
            forall|k: int| 0 <= k < i ==> va[k] == vb[k],
        decreases a@.len() - i,
    {
        if a[i] != b[i] {
            assert(va[i as int] != vb[i as int]);
            return false;
        }
        i = i + 1;
    }
    assert(va =~= vb);
    true
}

fn same_blocker(a: Option<&Blocker>, b: Option<&Blocker>) -> (r: bool)
    ensures
        r == (blocker_view(a) == blocker_view(b)),
{
    match (a, b) {
        (None, None) => true,
        (Some(Blocker::States(x)), Some(Blocker::States(y))) => same_strings(x, y),
        (Some(Blocker::Failure(x)), Some(Blocker::Failure(y))) => {
            let r = *x == *y;
            r
        },
        _ => false,
    }
}

pub fn blocker_transition(previous: Option<&Blocker>, current: Option<&Blocker>) -> (r:
    BlockerTransition)
    ensures
        r == spec_blocker_transition(blocker_view(previous), blocker_view(current)),
{
    if same_blocker(previous, current) {
        return BlockerTransition::Unchanged;
    }
    match (previous, current) {
        (Some(_), None) => BlockerTransition::Recovered,
        (Some(Blocker::Failure(_)), Some(Blocker::States(_))) => BlockerTransition::RecoveredAndReport,
        _ => BlockerTransition::Report,
    }
}

// ---------------------------------------------------------------------------
// Diagnostics of a reconciliation
// ---------------------------------------------------------------------------

/// A diagnostic line of the live session.
pub open spec fn live_line(text: Seq<char>) -> Seq<char> {
    "zwirn live: "@ + text
}

/// A report entry as one line: its path, a tab, and its result.
pub open spec fn spec_entry_line(e: ReportEntryView) -> Seq<char> {
    match e {
        ReportEntryView::State(p, s) => decode_utf8(p) + "\t"@ + state_name(s),
        ReportEntryView::Action(p, a) => decode_utf8(p) + "\t"@ + action_name(a),
    }
}

/// The views of strings.
pub open spec fn string_views(v: Seq<String>) -> Seq<Seq<char>> {
    v.map_values(|s: String| s@)
}

/// The lines printed for the actions a reconciliation took, in report order.
pub open spec fn action_lines(es: Seq<ReportEntryView>) -> Seq<Seq<char>>
    decreases es.len(),
{
    if es.len() == 0 {
        Seq::empty()
    } else if es.last() is Action {
        action_lines(es.drop_last()).push(live_line(spec_entry_line(es.last())))
    } else {
        action_lines(es.drop_last())
    }
}

/// The entries of the fragments that still need attention, as lines.
pub open spec fn attention_entries(es: Seq<ReportEntryView>) -> Seq<Seq<char>>
    decreases es.len(),
{
    if es.len() == 0 {
        Seq::empty()
    } else if es.last() is State {
        attention_entries(es.drop_last()).push(spec_entry_line(es.last()))
    } else {
        attention_entries(es.drop_last())
    }
}

/// What blocks after a completed reconciliation: the fragments that still
/// need attention, if any.
pub open spec fn spec_report_blocker(es: Seq<ReportEntryView>) -> Option<BlockerView> {
    if attention_entries(es).len() == 0 {
        None
    } else {
        Some(BlockerView::States(attention_entries(es)))
    }
}

pub open spec fn owned_blocker_view(b: Option<Blocker>) -> Option<BlockerView> {
    match b {
        Some(b) => Some(b@),
        None => None,
    }
}

/// The line a report prints for `entry`.
pub fn entry_line(entry: &ReportEntry) -> (r: String)
    ensures
        r@ == spec_entry_line(entry@),
{
    let path = entry.path().as_str();
    let mut line = String::from_str(path);
    line.append("\t");
    line.append(entry.result());
    line
}

/// The action lines of a completed reconciliation and what blocks after it.
pub fn report_lines(report: &Report) -> (r: (Vec<String>, Option<Blocker>))
    ensures
        string_views(r.0@) == action_lines(entry_views(report.entries@)),
        owned_blocker_view(r.1) == spec_report_blocker(entry_views(report.entries@)),
{
    let ghost es = entry_views(report.entries@);
    let mut lines: Vec<String> = Vec::new();
    let mut states: Vec<String> = Vec::new();
    let mut i: usize = 0;
    assert(es.subrange(0, 0) =~= Seq::<ReportEntryView>::empty());
    while i < report.entries.len()
        invariant
            i <= report.entries@.len(),
            es == entry_views(report.entries@),
            string_views(lines@) == action_lines(es.subrange(0, i as int)),
            string_views(states@) == attention_entries(es.subrange(0, i as int)),
        decreases report.entries@.len() - i,
    {
        let entry = &report.entries[i];
        let text = entry_line(entry);
        let ghost pre = es.subrange(0, i as int);
        let ghost next = es.subrange(0, i + 1);
        assert(next.drop_last() =~= pre);
        assert(next.last() == entry@);
        let ghost before_lines = lines@;
        let ghost before_states = states@;
        match entry {
            ReportEntry::Action { .. } => {
                let mut line = String::from_str("zwirn live: ");
                line.append(text.as_str());
                lines.push(line);
                assert(string_views(lines@) =~= string_views(before_lines).push(live_line(spec_entry_line(entry@))));
                assert(string_views(states@) =~= string_views(before_states));
            },
            ReportEntry::State { .. } => {
                states.push(text);
                assert(string_views(states@) =~= string_views(before_states).push(spec_entry_line(entry@)));
                assert(string_views(lines@) =~= string_views(before_lines));
            },
        }
        i = i + 1;
    }
    assert(es.subrange(0, i as int) =~= es);
    if states.len() == 0 {
        (lines, None)
    } else {
        (lines, Some(Blocker::States(states)))
    }
}

/// The lines that report blocker `b`.
pub open spec fn blocker_lines(b: Option<BlockerView>) -> Seq<Seq<char>> {
    match b {
        Some(BlockerView::States(ss)) => ss.map_values(|s: Seq<char>| live_line("attention: "@ + s)),
        Some(BlockerView::Failure(f)) => seq![live_line("blocked: "@ + f)],
        None => Seq::empty(),
    }
}

/// The lines printed when the blocker changes from `previous` to `current`.
pub open spec fn spec_transition_lines(previous: Option<BlockerView>, current: Option<BlockerView>) -> Seq<Seq<char>> {
    match spec_blocker_transition(previous, current) {
        BlockerTransition::Unchanged => Seq::empty(),
        BlockerTransition::Recovered => seq![live_line("reconciliation recovered"@)],
        BlockerTransition::RecoveredAndReport => seq![live_line("reconciliation recovered"@)] + blocker_lines(current),
        BlockerTransition::Report => blocker_lines(current),
    }
}

fn push_blocker_lines(lines: &mut Vec<String>, blocker: Option<&Blocker>)
    ensures
        string_views(final(lines)@) == string_views(old(lines)@) + blocker_lines(blocker_view(blocker)),
{
    let ghost start = string_views(lines@);
    match blocker {
        Some(Blocker::States(states)) => {
            let ghost ss = states@.map_values(|s: String| s@);
            let ghost target = ss.map_values(|s: Seq<char>| live_line("attention: "@ + s));
            let mut k: usize = 0;
            while k < states.len()
                invariant
                    k <= states@.len(),
                    ss == states@.map_values(|s: String| s@),
                    target == ss.map_values(|s: Seq<char>| live_line("attention: "@ + s)),
                    string_views(lines@) == start + target.subrange(0, k as int),
                decreases states@.len() - k,
            {
                let ghost before = lines@;
                let mut line = String::from_str("zwirn live: ");
                line.append("attention: ");
                line.append(states[k].as_str());
                assert(line@ =~= live_line("attention: "@ + states@[k as int]@));
                lines.push(line);
                assert(target[k as int] == live_line("attention: "@ + states@[k as int]@));
                assert(string_views(lines@) =~= string_views(before).push(target[k as int]));
                assert(target.subrange(0, k + 1) =~= target.subrange(0, k as int).push(target[k as int]));
                k = k + 1;
            }
            assert(target.subrange(0, k as int) =~= target);
        },
        Some(Blocker::Failure(failure)) => {
            let ghost before = lines@;
            let mut line = String::from_str("zwirn live: ");
            line.append("blocked: ");
            line.append(failure.as_str());
            assert(line@ =~= live_line("blocked: "@ + failure@));
            lines.push(line);
            assert(string_views(lines@) =~= string_views(before).push(live_line("blocked: "@ + failure@)));
        },
        None => {
            assert(start + Seq::<Seq<char>>::empty() =~= start);
        },
    }
}

fn recovered_line() -> (r: String)
    ensures
        r@ == live_line("reconciliation recovered"@),
{
    let mut line = String::from_str("zwirn live: ");
    line.append("reconciliation recovered");
    line
}

/// The lines a reconciliation prints when its blocker replaces `previous`.
pub fn transition_lines(previous: Option<&Blocker>, current: Option<&Blocker>) -> (r: Vec<String>)
    ensures
        string_views(r@) == spec_transition_lines(blocker_view(previous), blocker_view(current)),
{
    let mut lines: Vec<String> = Vec::new();
    assert(string_views(lines@) =~= Seq::<Seq<char>>::empty());
    match blocker_transition(previous, current) {
        BlockerTransition::Unchanged => {},
        BlockerTransition::Recovered => {
            lines.push(recovered_line());
            assert(string_views(lines@) =~= seq![live_line("reconciliation recovered"@)]);
        },
        BlockerTransition::RecoveredAndReport => {
            lines.push(recovered_line());
            assert(string_views(lines@) =~= seq![live_line("reconciliation recovered"@)]);
            push_blocker_lines(&mut lines, current);
        },
        BlockerTransition::Report => {
            push_blocker_lines(&mut lines, current);
            assert(Seq::<Seq<char>>::empty() + blocker_lines(blocker_view(current)) =~= blocker_lines(blocker_view(current)));
        },
    }
    lines
}

/// The lines a failed reconciliation prints for the external files it had
/// already written.
pub fn written_before_failure_lines(committed: &[FragmentPath]) -> (r: Vec<String>)
    ensures
        string_views(r@) == committed@.map_values(
            |p: FragmentPath| live_line("external file already written for `"@ + decode_utf8(p@) + "`"@),
        ),
{
    let ghost target = committed@.map_values(
        |p: FragmentPath| live_line("external file already written for `"@ + decode_utf8(p@) + "`"@),
    );
    let mut lines: Vec<String> = Vec::new();
    let mut k: usize = 0;
    while k < committed.len()
        invariant
            k <= committed@.len(),
            target == committed@.map_values(
                |p: FragmentPath| live_line("external file already written for `"@ + decode_utf8(p@) + "`"@),
            ),
            string_views(lines@) == target.subrange(0, k as int),
        decreases committed@.len() - k,
    {
        let ghost before = lines@;
        let mut line = String::from_str("zwirn live: ");
        line.append("external file already written for `");
        line.append(committed[k].as_str());
        line.append("`");
        assert(line@ =~= target[k as int]);
        lines.push(line);
        assert(string_views(lines@) =~= string_views(before).push(target[k as int]));
        assert(target.subrange(0, k + 1) =~= target.subrange(0, k as int).push(target[k as int]));
        k = k + 1;
    }
    assert(target.subrange(0, k as int) =~= target);
    lines
}

/// How one reconciliation ended: with a report, or with a failure whose
/// message the caller formats, after the external files it had already
/// written.
pub enum Outcome<'a> {
    Completed(&'a Report),
    Failed { committed: &'a [FragmentPath], failure: String },
}

/// The blocker an outcome leaves.
pub open spec fn outcome_blocker(outcome: Outcome) -> Option<BlockerView> {
    match outcome {
        Outcome::Completed(report) => spec_report_blocker(entry_views(report.entries@)),
        Outcome::Failed { failure, .. } => Some(BlockerView::Failure(failure@)),
    }
}

/// The lines an outcome prints before any change of blocker is reported.
pub open spec fn outcome_lines(outcome: Outcome) -> Seq<Seq<char>> {
    match outcome {
        Outcome::Completed(report) => action_lines(entry_views(report.entries@)),
        Outcome::Failed { committed, .. } => committed@.map_values(
            |p: FragmentPath| live_line("external file already written for `"@ + decode_utf8(p@) + "`"@),
        ),
    }
}

/// The diagnostics of a live session: it remembers the last blocker so that
/// an unchanged one is not repeated.
pub struct Diagnostics {
    pub blocker: Option<Blocker>,
}

impl Diagnostics {
    pub fn new() -> (r: Diagnostics)
        ensures
            r.blocker is None,
    {
        Diagnostics { blocker: None }
    }

    /// The line printed when monitoring starts.
    pub fn started(document: &str) -> (r: String)
        ensures
            r@ == live_line("monitoring `"@ + document@ + "`"@),
    {
        let mut line = String::from_str("zwirn live: ");
        line.append("monitoring `");
        line.append(document);
        line.append("`");
        assert(line@ =~= live_line("monitoring `"@ + document@ + "`"@));
        line
    }

    /// The line printed when the session stops.
    pub fn stopped() -> (r: String)
        ensures
            r@ == live_line("stopped"@),
    {
        let mut line = String::from_str("zwirn live: ");
        line.append("stopped");
        line
    }

    /// The lines one reconciliation prints: its actions or the files written
    /// before its failure, then the change of blocker, if any. The outcome's
    /// blocker is remembered.
    pub fn reconciliation(&mut self, outcome: Outcome) -> (r: Vec<String>)
        ensures
            owned_blocker_view(final(self).blocker) == outcome_blocker(outcome),
            string_views(r@) == outcome_lines(outcome) + spec_transition_lines(
                owned_blocker_view(old(self).blocker),
                outcome_blocker(outcome),
            ),
    {
        let ghost previous = owned_blocker_view(self.blocker);
        let (mut lines, current) = match outcome {
            Outcome::Completed(report) => report_lines(report),
            Outcome::Failed { committed, failure } => (
                written_before_failure_lines(committed),
                Some(Blocker::Failure(failure)),
            ),
        };
        let ghost head = string_views(lines@);
        let previous_ref = self.blocker.as_ref();
        let current_ref = current.as_ref();
        assert(blocker_view(previous_ref) == previous);
        assert(blocker_view(current_ref) == owned_blocker_view(current));
        let mut changes = transition_lines(previous_ref, current_ref);
        let ghost tail = string_views(changes@);
        let ghost l0 = lines@;
        let ghost c0 = changes@;
        lines.append(&mut changes);
        assert(lines@ == l0 + c0);
        assert(string_views(lines@) =~= head + tail);
        self.blocker = current;
        lines
    }
}

/// An unchanged blocker is not reported again.
pub proof fn lemma_unchanged_blocker_is_silent(b: Option<BlockerView>)
    ensures
        spec_transition_lines(b, b) == Seq::<Seq<char>>::empty(),
{
}

proof fn lemma_no_action_lines(es: Seq<ReportEntryView>)
    requires
        forall|i: int| 0 <= i < es.len() ==> (#[trigger] es[i]) is State,
    ensures
        action_lines(es) == Seq::<Seq<char>>::empty(),
    decreases es.len(),
{
    if es.len() > 0 {
        assert(es.last() == es[es.len() - 1]);
        assert forall|i: int| 0 <= i < es.drop_last().len() implies (#[trigger] es.drop_last()[i]) is State by {
            assert(es.drop_last()[i] == es[i]);
        }
        lemma_no_action_lines(es.drop_last());
    }
}

/// A reconciliation that takes no action and leaves the reported state as
/// it was prints nothing.
pub proof fn lemma_idle_reconciliation_is_silent(previous: Option<BlockerView>, es: Seq<ReportEntryView>)
    requires
        forall|i: int| 0 <= i < es.len() ==> (#[trigger] es[i]) is State,
        spec_report_blocker(es) == previous,
    ensures
        action_lines(es) + spec_transition_lines(previous, spec_report_blocker(es)) == Seq::<Seq<char>>::empty(),
{
    lemma_no_action_lines(es);
    lemma_unchanged_blocker_is_silent(previous);
    assert(Seq::<Seq<char>>::empty() + Seq::<Seq<char>>::empty() =~= Seq::<Seq<char>>::empty());
}

} // verus!
