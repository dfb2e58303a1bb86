#![allow(dead_code)]

use zwirn::engine::{ExitState, Report, ReportEntry};
use zwirn::fragment::FragmentPath;
use zwirn::live::{
    blocker_transition, boundary_next, Blocker, BlockerTransition, Diagnostics, Next, Outcome, Wake,
};
use zwirn::reconcile::{Action, State};

#[test]
fn diagnostics_report_changed_blockers_and_full_recovery_only() {
    let first = Blocker::Failure("first".to_owned());
    let second = Blocker::Failure("second".to_owned());

    assert_eq!(
        blocker_transition(None, Some(&first)),
        BlockerTransition::Report
    );
    assert_eq!(
        blocker_transition(Some(&first), Some(&first)),
        BlockerTransition::Unchanged
    );
    assert_eq!(
        blocker_transition(Some(&first), Some(&second)),
        BlockerTransition::Report
    );
    let attention = Blocker::States(vec!["path\tmissing".to_owned()]);
    assert_eq!(
        blocker_transition(Some(&second), Some(&attention)),
        BlockerTransition::RecoveredAndReport
    );
    assert_eq!(
        blocker_transition(Some(&attention), None),
        BlockerTransition::Recovered
    );
    assert_eq!(blocker_transition(None, None), BlockerTransition::Unchanged);
}

#[test]
fn synchronous_boundaries_prioritize_shutdown_and_require_a_dirty_hint_to_run() {
    assert_eq!(boundary_next(false, None), Next::Wait);
    assert_eq!(
        boundary_next(false, Some(Wake::Filesystem)),
        Next::Reconcile
    );
    assert_eq!(boundary_next(false, Some(Wake::Control)), Next::Stop);
    assert_eq!(boundary_next(true, None), Next::Stop);
    assert_eq!(boundary_next(true, Some(Wake::Filesystem)), Next::Stop);
}

#[test]
fn equal_attention_states_are_not_reported_again() {
    let a = Blocker::States(vec!["x\tconflict".to_owned(), "y\tembed".to_owned()]);
    let b = Blocker::States(vec!["x\tconflict".to_owned(), "y\tembed".to_owned()]);
    let c = Blocker::States(vec!["x\tconflict".to_owned()]);
    assert_eq!(blocker_transition(Some(&a), Some(&b)), BlockerTransition::Unchanged);
    assert_eq!(blocker_transition(Some(&a), Some(&c)), BlockerTransition::Report);
    assert_eq!(
        blocker_transition(Some(&c), Some(&Blocker::Failure("f".to_owned()))),
        BlockerTransition::Report
    );
}

#[test]
fn a_session_reports_actions_blockers_and_recovery_once() {
    let a = FragmentPath::try_from("a.lua").unwrap();
    let b = FragmentPath::try_from("src/b.lua").unwrap();
    let mut diagnostics = Diagnostics::new();
    assert_eq!(Diagnostics::started("patch.audulus4"), "zwirn live: monitoring `patch.audulus4`");

    let committed = [a.clone()];
    let failed = diagnostics.reconciliation(Outcome::Failed {
        committed: &committed,
        failure: "cannot write document".to_owned(),
    });
    assert_eq!(
        failed,
        [
            "zwirn live: external file already written for `a.lua`",
            "zwirn live: blocked: cannot write document",
        ]
    );

    let attention = Report {
        entries: vec![
            ReportEntry::Action { path: a.clone(), action: Action::Embed },
            ReportEntry::State { path: b.clone(), state: State::Conflict },
        ],
        exit: ExitState::Attention,
    };
    assert_eq!(
        diagnostics.reconciliation(Outcome::Completed(&attention)),
        [
            "zwirn live: a.lua\tembed",
            "zwirn live: reconciliation recovered",
            "zwirn live: attention: src/b.lua\tconflict",
        ]
    );

    let still = Report {
        entries: vec![ReportEntry::State { path: b.clone(), state: State::Conflict }],
        exit: ExitState::Attention,
    };
    assert!(diagnostics.reconciliation(Outcome::Completed(&still)).is_empty());

    let settled = Report { entries: vec![], exit: ExitState::Synchronized };
    assert_eq!(
        diagnostics.reconciliation(Outcome::Completed(&settled)),
        ["zwirn live: reconciliation recovered"]
    );
    assert!(diagnostics.blocker.is_none());
    assert_eq!(Diagnostics::stopped(), "zwirn live: stopped");
}
