//! Pure synchronization classification and command planning.

use vstd::prelude::*;

use crate::fragment::{baseline_of, BaselineHash, CanonicalSource};

verus! {

/// A synchronization state reported at the command-line interface.
#[derive(Clone, Copy, Debug, PartialEq, Eq, Structural, Hash)]
pub enum State {
    Unadopted,
    UnadoptedConflict,
    Missing,
    Synchronized,
    Embed,
    Extract,
    Converged,
    Conflict,
}

pub open spec fn state_name(state: State) -> Seq<char> {
    match state {
        State::Unadopted => "unadopted"@,
        State::UnadoptedConflict => "unadopted conflict"@,
        State::Missing => "missing"@,
        State::Synchronized => "synchronized"@,
        State::Embed => "embed"@,
        State::Extract => "extract"@,
        State::Converged => "converged"@,
        State::Conflict => "conflict"@,
    }
}

impl State {
    /// The state's name as reported by `status`.
    pub fn as_str(self) -> (r: &'static str)
        ensures
            r@ == state_name(self),
    {
        match self {
            Self::Unadopted => "unadopted",
            Self::UnadoptedConflict => "unadopted conflict",
            Self::Missing => "missing",
            Self::Synchronized => "synchronized",
            Self::Embed => "embed",
            Self::Extract => "extract",
            Self::Converged => "converged",
            Self::Conflict => "conflict",
        }
    }
}

/// Filesystem detail hidden by the observable `unadopted` state.
#[derive(Clone, Copy, Debug, PartialEq, Eq, Structural)]
pub enum UnadoptedFile {
    Absent,
    Matching,
}

/// A classified fragment, including the hidden distinction needed for adoption.
#[derive(Clone, Copy, Debug, PartialEq, Eq, Structural)]
pub enum Classification {
    Unadopted(UnadoptedFile),
    UnadoptedConflict,
    Missing,
    Synchronized,
    Embed,
    Extract,
    Converged,
    Conflict,
}

pub open spec fn state_of(c: Classification) -> State {
    match c {
        Classification::Unadopted(_) => State::Unadopted,
        Classification::UnadoptedConflict => State::UnadoptedConflict,
        Classification::Missing => State::Missing,
        Classification::Synchronized => State::Synchronized,
        Classification::Embed => State::Embed,
        Classification::Extract => State::Extract,
        Classification::Converged => State::Converged,
        Classification::Conflict => State::Conflict,
    }
}

impl Classification {
    /// The observable state.
    pub fn state(self) -> (r: State)
        ensures
            r == state_of(self),
    {
        match self {
            Self::Unadopted(_) => State::Unadopted,
            Self::UnadoptedConflict => State::UnadoptedConflict,
            Self::Missing => State::Missing,
            Self::Synchronized => State::Synchronized,
            Self::Embed => State::Embed,
            Self::Extract => State::Extract,
            Self::Converged => State::Converged,
            Self::Conflict => State::Conflict,
        }
    }
}

/// The design's state table over canonical embedded source `e`, the stored
/// baseline `h`, and canonical filesystem source `f`. Unequal sources that
/// both match the 64-bit baseline (a prefix collision) are a conflict.
pub open spec fn spec_classify(e: Seq<u8>, h: Option<Seq<u8>>, f: Option<Seq<u8>>) -> Classification {
    match h {
        None => match f {
            None => Classification::Unadopted(UnadoptedFile::Absent),
            Some(f) => if f == e {
                Classification::Unadopted(UnadoptedFile::Matching)
            } else {
                Classification::UnadoptedConflict
            },
        },
        Some(h) => match f {
            None => Classification::Missing,
            Some(f) => {
                let filesystem_matches = baseline_of(f) == h;
                let embedded_matches = baseline_of(e) == h;
                if f == e {
                    if filesystem_matches {
                        Classification::Synchronized
                    } else {
                        Classification::Converged
                    }
                } else if !filesystem_matches && embedded_matches {
                    Classification::Embed
                } else if filesystem_matches && !embedded_matches {
                    Classification::Extract
                } else {
                    Classification::Conflict
                }
            },
        },
    }
}

pub open spec fn hash_view(h: Option<BaselineHash>) -> Option<Seq<u8>> {
    match h {
        Some(h) => Some(h@),
        None => None,
    }
}

pub open spec fn source_view(s: Option<&CanonicalSource>) -> Option<Seq<u8>> {
    match s {
        Some(s) => Some(s@),
        None => None,
    }
}

/// Classifies validated canonical embedded and filesystem sources.
pub fn classify(
    embedded: &CanonicalSource,
    baseline: Option<BaselineHash>,
    filesystem: Option<&CanonicalSource>,
) -> (r: Classification)
    ensures
        r == spec_classify(embedded@, hash_view(baseline), source_view(filesystem)),
{
    let baseline = match baseline {
        None => {
            return match filesystem {
                None => Classification::Unadopted(UnadoptedFile::Absent),
                Some(filesystem) => if filesystem == embedded {
                    Classification::Unadopted(UnadoptedFile::Matching)
                } else {
                    Classification::UnadoptedConflict
                },
            };
        },
        Some(baseline) => baseline,
    };
    let filesystem = match filesystem {
        None => {
            return Classification::Missing;
        },
        Some(filesystem) => filesystem,
    };
    let filesystem_matches = BaselineHash::from_source(filesystem) == baseline;
    let embedded_matches = BaselineHash::from_source(embedded) == baseline;
    if filesystem == embedded {
        if filesystem_matches {
            Classification::Synchronized
        } else {
            Classification::Converged
        }
    } else if !filesystem_matches && embedded_matches {
        Classification::Embed
    } else if filesystem_matches && !embedded_matches {
        Classification::Extract
    } else {
        Classification::Conflict
    }
}

/// A mutating synchronization operation.
#[derive(Clone, Copy, Debug, PartialEq, Eq, Structural)]
pub enum Operation {
    Embed { force: bool },
    Extract { force: bool },
    Sync,
}

/// Whether selectors named exact paths or selected the complete inventory.
#[derive(Clone, Copy, Debug, PartialEq, Eq, Structural)]
pub enum SelectionKind {
    All,
    Explicit,
}

/// A source or baseline mutation selected by the planner.
#[derive(Clone, Copy, Debug, PartialEq, Eq, Structural, Hash)]
pub enum Action {
    Record,
    Embed,
    Extract,
}

pub open spec fn action_name(action: Action) -> Seq<char> {
    match action {
        Action::Record => "record"@,
        Action::Embed => "embed"@,
        Action::Extract => "extract"@,
    }
}

impl Action {
    /// The action's name as reported by mutating commands.
    pub fn as_str(self) -> (r: &'static str)
        ensures
            r@ == action_name(self),
    {
        match self {
            Self::Record => "record",
            Self::Embed => "embed",
            Self::Extract => "extract",
        }
    }
}

/// What a mutating command should do with one selected fragment.
#[derive(Clone, Copy, Debug, PartialEq, Eq, Structural)]
pub enum Decision {
    Settled,
    Act(Action),
    Unresolved(State),
}

/// A command-planning validation failure.
#[derive(Clone, Copy, Debug, PartialEq, Eq, Structural)]
pub enum PlanError {
    ForceRequiresExplicitSelection,
    InvalidForcedState { index: usize, state: State },
    /// Kept for callers that match on every planning failure; the verified
    /// planner never reports it.
    AllocationFailed,
}

pub open spec fn spec_forced_action(operation: Operation) -> Option<Action> {
    match operation {
        Operation::Embed { force: true } => Some(Action::Embed),
        Operation::Extract { force: true } => Some(Action::Extract),
        _ => None,
    }
}

fn forced_action(operation: Operation) -> (r: Option<Action>)
    ensures
        r == spec_forced_action(operation),
{
    match operation {
        Operation::Embed { force: true } => Some(Action::Embed),
        Operation::Extract { force: true } => Some(Action::Extract),
        _ => None,
    }
}

pub open spec fn is_forceable(c: Classification) -> bool {
    c is Conflict || c is UnadoptedConflict
}

/// The index of the first classification that cannot be forced, or the
/// length when every one can.
pub open spec fn first_unforceable(s: Seq<Classification>) -> int
    decreases s.len(),
{
    if s.len() == 0 {
        0
    } else if !is_forceable(s[0]) {
        0
    } else {
        1 + first_unforceable(s.drop_first())
    }
}

/// The decision of an unforced command for one classified fragment.
pub open spec fn spec_plan_one(
    operation: Operation,
    selection: SelectionKind,
    c: Classification,
) -> Decision {
    let extracting = operation == (Operation::Extract { force: false }) || operation
        == Operation::Sync;
    let embedding = operation == (Operation::Embed { force: false }) || operation
        == Operation::Sync;
    match c {
        Classification::Synchronized => Decision::Settled,
        Classification::Unadopted(UnadoptedFile::Matching) | Classification::Converged => {
            Decision::Act(Action::Record)
        },
        Classification::Unadopted(UnadoptedFile::Absent) | Classification::Extract => {
            if extracting {
                Decision::Act(Action::Extract)
            } else {
                Decision::Unresolved(state_of(c))
            }
        },
        Classification::Missing => {
            if operation == (Operation::Extract { force: false }) && selection
                == SelectionKind::Explicit {
                Decision::Act(Action::Extract)
            } else {
                Decision::Unresolved(state_of(c))
            }
        },
        Classification::Embed => {
            if embedding {
                Decision::Act(Action::Embed)
            } else {
                Decision::Unresolved(state_of(c))
            }
        },
        _ => Decision::Unresolved(state_of(c)),
    }
}

/// The planner's complete result for a selected batch.
pub open spec fn spec_plan(
    operation: Operation,
    selection: SelectionKind,
    selected: Seq<Classification>,
) -> Result<Seq<Decision>, PlanError> {
    match spec_forced_action(operation) {
        Some(action) => {
            if selection != SelectionKind::Explicit || selected.len() == 0 {
                Err(PlanError::ForceRequiresExplicitSelection)
            } else if first_unforceable(selected) < selected.len() {
                let index = first_unforceable(selected);
                Err(
                    PlanError::InvalidForcedState {
                        index: index as usize,
                        state: state_of(selected[index]),
                    },
                )
            } else {
                Ok(Seq::new(selected.len(), |i: int| Decision::Act(action)))
            }
        },
        None => Ok(selected.map_values(|c: Classification| spec_plan_one(operation, selection, c))),
    }
}

fn plan_one(operation: Operation, selection: SelectionKind, classification: Classification) -> (r:
    Decision)
    requires
        spec_forced_action(operation) is None,
    ensures
        r == spec_plan_one(operation, selection, classification),
{
    let extracting = match operation {
        Operation::Extract { force: false } | Operation::Sync => true,
        _ => false,
    };
    let embedding = match operation {
        Operation::Embed { force: false } | Operation::Sync => true,
        _ => false,
    };
    let explicit_extract = match operation {
        Operation::Extract { force: false } => selection == SelectionKind::Explicit,
        _ => false,
    };
    match classification {
        Classification::Synchronized => Decision::Settled,
        Classification::Unadopted(UnadoptedFile::Matching) | Classification::Converged => {
            Decision::Act(Action::Record)
        },
        Classification::Unadopted(UnadoptedFile::Absent) | Classification::Extract => {
            if extracting {
                Decision::Act(Action::Extract)
            } else {
                Decision::Unresolved(classification.state())
            }
        },
        Classification::Missing => {
            if explicit_extract {
                Decision::Act(Action::Extract)
            } else {
                Decision::Unresolved(classification.state())
            }
        },
        Classification::Embed => {
            if embedding {
                Decision::Act(Action::Embed)
            } else {
                Decision::Unresolved(classification.state())
            }
        },
        _ => Decision::Unresolved(classification.state()),
    }
}

proof fn lemma_first_unforceable(s: Seq<Classification>, k: int)
    requires
        0 <= k <= s.len(),
        forall|j: int| 0 <= j < k ==> is_forceable(s[j]),
        k == s.len() || !is_forceable(s[k]),
    ensures
        first_unforceable(s) == k,
    decreases s.len(),
{
    if s.len() > 0 && k > 0 {
        lemma_first_unforceable(s.drop_first(), k - 1);
    }
}

/// Plans a selected batch without performing effects.
///
/// A forced batch is validated in full before any actions are returned.
pub fn plan(operation: Operation, selection: SelectionKind, selected: &[Classification]) -> (r:
    Result<Vec<Decision>, PlanError>)
    ensures
        match r {
            Ok(v) => spec_plan(operation, selection, selected@) == Ok::<
                Seq<Decision>,
                PlanError,
            >(v@),
            Err(e) => spec_plan(operation, selection, selected@) == Err::<Seq<Decision>, PlanError>(
                e,
            ),
        },
{
    let n = selected.len();
    if let Some(action) = forced_action(operation) {
        if selection != SelectionKind::Explicit || n == 0 {
            return Err(PlanError::ForceRequiresExplicitSelection);
        }
        let mut index: usize = 0;
        while index < n
            invariant
                index <= n,
                n == selected@.len(),
                n > 0,
                selection == SelectionKind::Explicit,
                spec_forced_action(operation) == Some(action),
                forall|j: int| 0 <= j < index ==> is_forceable(selected@[j]),
            decreases n - index,
        {
            let classification = selected[index];
            match classification {
                Classification::Conflict | Classification::UnadoptedConflict => {},
                _ => {
                    proof {
                        lemma_first_unforceable(selected@, index as int);
                    }
                    return Err(
                        PlanError::InvalidForcedState { index, state: classification.state() },
                    );
                },
            }
            index = index + 1;
        }
        proof {
            lemma_first_unforceable(selected@, n as int);
        }
        let mut decisions: Vec<Decision> = Vec::new();
        let mut i: usize = 0;
        while i < n
            invariant
                i <= n,
                decisions@ == Seq::new(i as nat, |k: int| Decision::Act(action)),
            decreases n - i,
        {
            decisions.push(Decision::Act(action));
            proof {
                assert(decisions@ =~= Seq::new((i + 1) as nat, |k: int| Decision::Act(action)));
            }
            i = i + 1;
        }
        return Ok(decisions);
    }
    let mut decisions: Vec<Decision> = Vec::new();
    let mut i: usize = 0;
    while i < n
        invariant
            i <= n,
            n == selected@.len(),
            spec_forced_action(operation) is None,
            decisions@ == selected@.subrange(0, i as int).map_values(
                |c: Classification| spec_plan_one(operation, selection, c),
            ),
        decreases n - i,
    {
        decisions.push(plan_one(operation, selection, selected[i]));
        proof {
            assert(selected@.subrange(0, i + 1) =~= selected@.subrange(0, i as int).push(
                selected@[i as int],
            ));
            assert(decisions@ =~= selected@.subrange(0, i + 1).map_values(
                |c: Classification| spec_plan_one(operation, selection, c),
            ));
        }
        i = i + 1;
    }
    assert(selected@.subrange(0, n as int) =~= selected@);
    Ok(decisions)
}

// ---------------------------------------------------------------------------
// Laws of the state table
// ---------------------------------------------------------------------------

/// The source and baseline that a fragment holds after `action`: record keeps
/// embedded source, embed takes the filesystem source, extract writes the
/// embedded source to the filesystem; each stores the hash of the result.
pub open spec fn after_action(action: Action, e: Seq<u8>, f: Option<Seq<u8>>) -> (
    Seq<u8>,
    Option<Seq<u8>>,
    Option<Seq<u8>>,
) {
    match action {
        Action::Record => (e, Some(baseline_of(e)), f),
        Action::Embed => {
            let source = f.unwrap();
            (source, Some(baseline_of(source)), f)
        },
        Action::Extract => (e, Some(baseline_of(e)), Some(e)),
    }
}

/// Every action that an unforced command plans leaves its fragment
/// synchronized: the embedded and filesystem copies agree and the recorded
/// baseline is their hash.
pub proof fn lemma_planned_action_synchronizes(
    operation: Operation,
    selection: SelectionKind,
    e: Seq<u8>,
    h: Option<Seq<u8>>,
    f: Option<Seq<u8>>,
    action: Action,
)
    requires
        spec_forced_action(operation) is None,
        spec_plan_one(operation, selection, spec_classify(e, h, f)) == Decision::Act(action),
    ensures
        ({
            let (e2, h2, f2) = after_action(action, e, f);
            spec_classify(e2, h2, f2) == Classification::Synchronized
        }),
{
}

/// A forced action on a conflict also leaves the fragment synchronized: the
/// selected side wins on both sides.
pub proof fn lemma_forced_action_synchronizes(
    e: Seq<u8>,
    h: Option<Seq<u8>>,
    f: Option<Seq<u8>>,
    action: Action,
)
    requires
        is_forceable(spec_classify(e, h, f)),
        action == Action::Embed || action == Action::Extract,
    ensures
        ({
            let (e2, h2, f2) = after_action(action, e, f);
            spec_classify(e2, h2, f2) == Classification::Synchronized
        }),
{
}

/// Unforced commands never resolve a conflict: divergent changes remain
/// unresolved.
pub proof fn lemma_unforced_conflicts_stay_unresolved(
    operation: Operation,
    selection: SelectionKind,
    c: Classification,
)
    requires
        spec_forced_action(operation) is None,
        is_forceable(c),
    ensures
        spec_plan_one(operation, selection, c) == Decision::Unresolved(state_of(c)),
{
}

/// A synchronized fragment is settled by every unforced command.
pub proof fn lemma_synchronized_is_settled(operation: Operation, selection: SelectionKind)
    requires
        spec_forced_action(operation) is None,
    ensures
        spec_plan_one(operation, selection, Classification::Synchronized) == Decision::Settled,
{
}

/// A second sync takes no action: after a sync, each fragment it acted on
/// is settled, and each it did not act on plans the same decision again.
pub proof fn lemma_second_sync_is_idle(selection: SelectionKind, e: Seq<u8>, h: Option<Seq<u8>>, f: Option<Seq<u8>>)
    ensures
        ({
            let first = spec_plan_one(Operation::Sync, selection, spec_classify(e, h, f));
            let (e2, h2, f2) = match first {
                Decision::Act(a) => after_action(a, e, f),
                _ => (e, h, f),
            };
            let second = spec_plan_one(Operation::Sync, selection, spec_classify(e2, h2, f2));
            &&& !(second is Act)
            &&& first is Act ==> second == Decision::Settled
            &&& !(first is Act) ==> second == first
        }),
{
    let first = spec_plan_one(Operation::Sync, selection, spec_classify(e, h, f));
    if let Decision::Act(a) = first {
        lemma_planned_action_synchronizes(Operation::Sync, selection, e, h, f, a);
        lemma_synchronized_is_settled(Operation::Sync, selection);
    }
}

/// Directional commands act only in their own direction: `embed` never
/// extracts and `extract` never embeds.
pub proof fn lemma_directional_commands(selection: SelectionKind, c: Classification)
    ensures
        spec_plan_one(Operation::Embed { force: false }, selection, c) != Decision::Act(
            Action::Extract,
        ),
        spec_plan_one(Operation::Extract { force: false }, selection, c) != Decision::Act(
            Action::Embed,
        ),
{
}

/// Paths only select: apart from a missing fragment, which an explicit
/// extract recreates, an unforced command decides the same for the
/// fragments it is given whether they were named or the whole document was
/// taken.
pub proof fn lemma_selection_only_selects(operation: Operation, selected: Seq<Classification>)
    requires
        spec_forced_action(operation) is None,
        forall|k: int| 0 <= k < selected.len() ==> #[trigger] selected[k] != Classification::Missing,
    ensures
        spec_plan(operation, SelectionKind::Explicit, selected) == spec_plan(operation, SelectionKind::All, selected),
{
    let explicit = selected.map_values(|c: Classification| spec_plan_one(operation, SelectionKind::Explicit, c));
    let all = selected.map_values(|c: Classification| spec_plan_one(operation, SelectionKind::All, c));
    assert forall|k: int| 0 <= k < selected.len() implies explicit[k] == all[k] by {
        assert(selected[k] != Classification::Missing);
    }
    assert(explicit =~= all);
}

/// An unforced command plans one decision for each fragment, in order, and
/// acts in the directions it goes: a synchronized fragment is settled; one
/// whose copies agree is recorded; one changed only in the document, or a
/// new fragment without a file, is extracted by `extract` and `sync`; one
/// changed only in its file is embedded by `embed` and `sync`; a missing
/// file is recreated exactly by an explicit `extract`. Whatever is not acted
/// on or settled is left unresolved in its own state, conflicts always.
pub proof fn lemma_unforced_plan_acts_by_direction(
    operation: Operation,
    selection: SelectionKind,
    selected: Seq<Classification>,
)
    requires
        spec_forced_action(operation) is None,
    ensures
        spec_plan(operation, selection, selected) matches Ok(ds) && ds.len() == selected.len() && forall|k: int|
            0 <= k < selected.len() ==> {
                let c = #[trigger] selected[k];
                let d = ds[k];
                let extracting = operation == (Operation::Extract { force: false }) || operation
                    == Operation::Sync;
                let embedding = operation == (Operation::Embed { force: false }) || operation
                    == Operation::Sync;
                &&& (c == Classification::Synchronized <==> d == Decision::Settled)
                &&& (c == Classification::Converged || c == Classification::Unadopted(UnadoptedFile::Matching))
                    ==> d == Decision::Act(Action::Record)
                &&& extracting && (c == Classification::Extract || c == Classification::Unadopted(
                    UnadoptedFile::Absent,
                )) ==> d == Decision::Act(Action::Extract)
                &&& embedding && c == Classification::Embed ==> d == Decision::Act(Action::Embed)
                &&& c == Classification::Missing ==> (d == Decision::Act(Action::Extract) <==> (operation
                    == (Operation::Extract { force: false }) && selection == SelectionKind::Explicit))
                &&& (c == Classification::Conflict || c == Classification::UnadoptedConflict) ==> d
                    == Decision::Unresolved(state_of(c))
                &&& d is Act || d == Decision::Settled || d == Decision::Unresolved(state_of(c))
            },
{
}

proof fn lemma_first_unforceable_bounds(s: Seq<Classification>)
    ensures
        0 <= first_unforceable(s) <= s.len(),
        forall|j: int| 0 <= j < first_unforceable(s) ==> is_forceable(#[trigger] s[j]),
        first_unforceable(s) < s.len() ==> !is_forceable(s[first_unforceable(s)]),
    decreases s.len(),
{
    if s.len() > 0 && is_forceable(s[0]) {
        let t = s.drop_first();
        lemma_first_unforceable_bounds(t);
        assert forall|j: int| 0 <= j < first_unforceable(s) implies is_forceable(#[trigger] s[j]) by {
            if j > 0 {
                assert(s[j] == t[j - 1]);
            }
        }
        if first_unforceable(s) < s.len() {
            assert(s[first_unforceable(s)] == t[first_unforceable(t)]);
        }
    }
}

/// `--force` takes one side for an explicit, nonempty selection of
/// conflicts, and for every one of them; any other selection is refused
/// before anything is planned, and a selected fragment that is not a
/// conflict is refused by the first such fragment and its state.
pub proof fn lemma_forced_plan(operation: Operation, action: Action, selection: SelectionKind, selected: Seq<Classification>)
    requires
        spec_forced_action(operation) == Some(action),
    ensures
        (selection != SelectionKind::Explicit || selected.len() == 0) <==> spec_plan(operation, selection, selected)
            == Err::<Seq<Decision>, PlanError>(PlanError::ForceRequiresExplicitSelection),
        selection == SelectionKind::Explicit && selected.len() > 0 ==> ((forall|k: int|
            0 <= k < selected.len() ==> #[trigger] is_forceable(selected[k])) <==> spec_plan(
            operation,
            selection,
            selected,
        ) is Ok),
        spec_plan(operation, selection, selected) matches Ok(ds) ==> ds.len() == selected.len() && forall|k: int|
            0 <= k < ds.len() ==> #[trigger] ds[k] == Decision::Act(action),
        selected.len() <= usize::MAX ==> (spec_plan(operation, selection, selected) matches Err(
            PlanError::InvalidForcedState { index, state },
        ) ==> index < selected.len() && !is_forceable(selected[index as int]) && state == state_of(
            selected[index as int],
        ) && forall|k: int| 0 <= k < index ==> #[trigger] is_forceable(selected[k])),
        action == Action::Embed <==> operation == (Operation::Embed { force: true }),
{
    lemma_first_unforceable_bounds(selected);
    let f = first_unforceable(selected);
    if f < selected.len() {
        assert(!is_forceable(selected[f]));
    }
}

/// What each classification says of the embedded source `e`, the recorded
/// baseline `h`, and the file's source `f`: synchronized exactly when both
/// copies are equal and recorded; missing exactly when a recorded fragment
/// has no file; unadopted exactly when nothing is recorded and the file is
/// absent or equal; `extract` when only the document changed since the
/// baseline, `embed` when only the file did; converged when both changed
/// alike; and a conflict when they differ and neither or both still hold the
/// baseline.
pub proof fn lemma_classification_meaning(e: Seq<u8>, h: Option<Seq<u8>>, f: Option<Seq<u8>>)
    ensures
        ({
            let c = spec_classify(e, h, f);
            &&& c == Classification::Synchronized <==> (f == Some(e) && h == Some(baseline_of(e)))
            &&& c == Classification::Missing <==> (h is Some && f is None)
            &&& c is Unadopted <==> (h is None && (f is None || f == Some(e)))
            &&& c == Classification::UnadoptedConflict <==> (h is None && f is Some && f != Some(e))
            &&& c == Classification::Converged <==> (f == Some(e) && h is Some && h != Some(baseline_of(e)))
            &&& c == Classification::Extract ==> (f matches Some(fs) && fs != e && h == Some(baseline_of(fs)) && h
                != Some(baseline_of(e)))
            &&& c == Classification::Embed ==> (f matches Some(fs) && fs != e && h == Some(baseline_of(e)) && h
                != Some(baseline_of(fs)))
            &&& (h matches Some(b) && f matches Some(fs) && fs != e && (b == baseline_of(fs)) != (b == baseline_of(e)))
                ==> (c == Classification::Extract || c == Classification::Embed)
            &&& c == Classification::Conflict <==> (h matches Some(b) && f matches Some(fs) && fs != e && (b
                == baseline_of(fs)) == (b == baseline_of(e)))
        }),
{
}

/// Identical canonical sources with the baseline of their content classify as
/// synchronized, whatever else is true.
pub proof fn lemma_equal_sources_with_their_hash_are_synchronized(e: Seq<u8>)
    ensures
        spec_classify(e, Some(baseline_of(e)), Some(e)) == Classification::Synchronized,
{
}

} // verus!
