#![allow(dead_code)]

use zwirn::access::{direct_result, AccessPolicy, DirectAccess, PolicyFailure};
use zwirn::commit::{
    commit_using, nonempty_parent, validate_order, CommitAccessFailure, CommitError,
    CommitFailure, CommitFilesystem, DocumentOutput, ExternalOutput, ExternalWrite,
    RecordingFilesystem,
};
use zwirn::fragment::FragmentPath;

#[derive(Debug, Eq, PartialEq)]
struct AccessRefused;

struct RefuseAccessTo {
    path: String,
}

impl AccessPolicy for RefuseAccessTo {
    type Error = AccessRefused;

    fn read<S, R, B: FnOnce(&mut S) -> R>(
        &mut self,
        _named_path: &str,
        state: &mut S,
        body: B,
    ) -> Result<R, Self::Error> {
        Ok(body(state))
    }

    fn write<S, R, B: FnOnce(&mut S) -> R>(
        &mut self,
        named_path: &str,
        state: &mut S,
        body: B,
    ) -> Result<R, Self::Error> {
        if named_path == self.path {
            Err(AccessRefused)
        } else {
            Ok(body(state))
        }
    }
}

struct EventFilesystem {
    events: Vec<String>,
    fail_write: Option<String>,
}

impl EventFilesystem {
    fn record(&mut self, operation: &str, path: &str) {
        self.events.push(format!("{operation}:{path}"));
    }

    fn write_path(&mut self, path: &str) -> Result<(), String> {
        self.record("write", path);
        if self.fail_write.as_deref() == Some(path) {
            return Err("injected failure".to_owned());
        }
        Ok(())
    }
}

impl CommitFilesystem for EventFilesystem {
    fn external_destination(&self, path: &FragmentPath) -> String {
        path.as_str().to_owned()
    }

    fn create_dir_all(&mut self, path: &str) -> Result<(), String> {
        self.record("mkdir", path);
        Ok(())
    }

    fn write_external(
        &mut self,
        path: &FragmentPath,
        _bytes: &[u8],
        _write: ExternalWrite,
        _absent_targets: &[&FragmentPath],
    ) -> Result<Option<FragmentPath>, String> {
        self.write_path(path.as_str())?;
        Ok(None)
    }

    fn write_document(&mut self, path: &str, _bytes: &[u8]) -> Result<(), String> {
        self.write_path(path)
    }
}

fn commit_with<F: CommitFilesystem>(
    filesystem: &mut F,
    external: &[ExternalOutput<'_>],
    absent_targets: &[&FragmentPath],
    document: Option<DocumentOutput<'_>>,
) -> Result<(), CommitError> {
    let mut access = DirectAccess;
    direct_result(
        commit_using(&mut access, &mut RecordingFilesystem::new(filesystem), external, absent_targets, document).map_err(
            |error| match error {
                PolicyFailure::Operation(error) => PolicyFailure::Operation(error),
                PolicyFailure::Access(CommitAccessFailure { source, .. }) => {
                    PolicyFailure::Access(source)
                }
            },
        ),
    )
}

#[test]
fn stops_in_canonical_order_and_reports_only_completed_external_writes() {
    let b_destination = "out/b";
    let a = FragmentPath::try_from("out/a").unwrap();
    let b = FragmentPath::try_from("out/b").unwrap();
    let c = FragmentPath::try_from("out/c").unwrap();
    let external = [
        ExternalOutput {
            path: &a,
            bytes: b"a",
            write: ExternalWrite::CreateOrTruncate,
        },
        ExternalOutput {
            path: &b,
            bytes: b"b",
            write: ExternalWrite::CreateOrTruncate,
        },
        ExternalOutput {
            path: &c,
            bytes: b"c",
            write: ExternalWrite::CreateOrTruncate,
        },
    ];
    let mut filesystem = EventFilesystem {
        events: Vec::new(),
        fail_write: Some(b_destination.to_owned()),
    };

    let error = commit_with(&mut filesystem, &external, &[], None).unwrap_err();

    assert_eq!(error.completed(), std::slice::from_ref(&a));
    assert!(matches!(
        error.failure(),
        CommitFailure::WriteExternal { path, .. } if path == &b
    ));
    assert_eq!(
        filesystem.events,
        ["mkdir:out", "write:out/a", "mkdir:out", "write:out/b",]
    );
    assert!(
        error
            .to_string()
            .contains("after writing external fragment `out/a`")
    );
}

#[test]
fn rejects_noncanonical_output_order_before_filesystem_effects() {
    let a = FragmentPath::try_from("a").unwrap();
    let b = FragmentPath::try_from("b").unwrap();
    let external = [
        ExternalOutput {
            path: &b,
            bytes: b"b",
            write: ExternalWrite::CreateOrTruncate,
        },
        ExternalOutput {
            path: &a,
            bytes: b"a",
            write: ExternalWrite::CreateOrTruncate,
        },
    ];
    let mut filesystem = EventFilesystem {
        events: Vec::new(),
        fail_write: None,
    };

    let error = commit_with(&mut filesystem, &external, &[], None).unwrap_err();

    assert!(matches!(
        error.failure(),
        CommitFailure::ExternalOrder { previous, next }
            if previous == &b && next == &a
    ));
    assert!(filesystem.events.is_empty());
}

#[test]
fn a_document_write_failure_leaves_all_completed_external_outputs_reported() {
    let document = "patch.audulus4".to_owned();
    let a = FragmentPath::try_from("a").unwrap();
    let b = FragmentPath::try_from("b").unwrap();
    let external = [
        ExternalOutput {
            path: &a,
            bytes: b"a",
            write: ExternalWrite::CreateOrTruncate,
        },
        ExternalOutput {
            path: &b,
            bytes: b"b",
            write: ExternalWrite::CreateOrTruncate,
        },
    ];
    let mut filesystem = EventFilesystem {
        events: Vec::new(),
        fail_write: Some(document.clone()),
    };

    let error = commit_with(
        &mut filesystem,
        &external,
        &[],
        Some(DocumentOutput {
            destination: &document,
            bytes: b"new document",
        }),
    )
    .unwrap_err();

    assert_eq!(error.completed(), &[a, b]);
    assert!(matches!(
        error.failure(),
        CommitFailure::WriteDocument { destination, .. } if destination == &document
    ));
    assert_eq!(
        filesystem.events.last(),
        Some(&format!("write:{}", document))
    );
}

#[test]
fn document_policy_refusal_retains_completed_external_outputs_without_running_its_body() {
    let document = "patch.audulus4".to_owned();
    let fragment = FragmentPath::try_from("fragment.lua").unwrap();
    let external = [ExternalOutput {
        path: &fragment,
        bytes: b"fragment",
        write: ExternalWrite::CreateOrTruncate,
    }];
    let mut filesystem = EventFilesystem {
        events: Vec::new(),
        fail_write: None,
    };
    let mut access = RefuseAccessTo {
        path: document.clone(),
    };

    let error = commit_using(
        &mut access,
        &mut RecordingFilesystem::new(&mut filesystem),
        &external,
        &[],
        Some(DocumentOutput {
            destination: &document,
            bytes: b"document",
        }),
    )
    .unwrap_err();

    let PolicyFailure::Access(CommitAccessFailure { source, completed }) = error else {
        panic!("expected policy-access refusal");
    };
    assert_eq!(source, AccessRefused);
    assert_eq!(completed, vec![fragment]);
    assert_eq!(
        filesystem.events,
        ["write:fragment.lua"],
        "the refused document-write body must not run"
    );
}

#[test]
fn parents_are_the_path_before_the_last_separator() {
    let nested = FragmentPath::try_from("a/b/c.lua").unwrap();
    assert_eq!(nested_parent(&nested), Some("a/b"));
    let flat = FragmentPath::try_from("c.lua").unwrap();
    assert_eq!(nested_parent(&flat), None);
}

fn nested_parent(path: &FragmentPath) -> Option<&str> {
    nonempty_parent(path)
}

#[test]
fn ordered_outputs_validate_and_equal_paths_do_not() {
    let a = FragmentPath::try_from("a").unwrap();
    let a2 = FragmentPath::try_from("a").unwrap();
    let ab = FragmentPath::try_from("a/b").unwrap();
    let ordered = [
        ExternalOutput { path: &a, bytes: b"", write: ExternalWrite::CreateNew },
        ExternalOutput { path: &ab, bytes: b"", write: ExternalWrite::CreateNew },
    ];
    assert!(validate_order(&ordered).is_ok());
    let repeated = [
        ExternalOutput { path: &a, bytes: b"", write: ExternalWrite::CreateNew },
        ExternalOutput { path: &a2, bytes: b"", write: ExternalWrite::CreateNew },
    ];
    let error = validate_order(&repeated).unwrap_err();
    assert!(error.completed().is_empty());
    assert!(matches!(error.failure(), CommitFailure::ExternalOrder { .. }));
}

#[test]
fn a_created_alias_stops_after_reporting_the_created_file() {
    struct Aliasing;
    impl CommitFilesystem for Aliasing {
        fn external_destination(&self, path: &FragmentPath) -> String {
            path.as_str().to_owned()
        }
        fn create_dir_all(&mut self, _path: &str) -> Result<(), String> {
            Ok(())
        }
        fn write_external(
            &mut self,
            _path: &FragmentPath,
            _bytes: &[u8],
            _write: ExternalWrite,
            absent_targets: &[&FragmentPath],
        ) -> Result<Option<FragmentPath>, String> {
            Ok(absent_targets.last().map(|p| (*p).clone()))
        }
        fn write_document(&mut self, _path: &str, _bytes: &[u8]) -> Result<(), String> {
            panic!("the document must not be written after an alias");
        }
    }
    let created = FragmentPath::try_from("new.lua").unwrap();
    let other = FragmentPath::try_from("other.lua").unwrap();
    let external = [ExternalOutput { path: &created, bytes: b"x", write: ExternalWrite::CreateNew }];
    let error = commit_with(
        &mut Aliasing,
        &external,
        &[&created, &other],
        Some(DocumentOutput { destination: "doc.audulus4", bytes: b"d" }),
    )
    .unwrap_err();
    assert_eq!(error.completed(), std::slice::from_ref(&created));
    assert!(matches!(
        error.failure(),
        CommitFailure::CreatedTargetAlias { created_path, other_path }
            if created_path == &created && other_path == &other
    ));
}

struct NoDirectories;

impl CommitFilesystem for NoDirectories {
    fn external_destination(&self, path: &FragmentPath) -> String {
        path.as_str().to_owned()
    }

    fn create_dir_all(&mut self, _path: &str) -> Result<(), String> {
        Err("read-only".to_owned())
    }

    fn write_external(
        &mut self,
        _path: &FragmentPath,
        _bytes: &[u8],
        _write: ExternalWrite,
        _absent_targets: &[&FragmentPath],
    ) -> Result<Option<FragmentPath>, String> {
        Ok(None)
    }

    fn write_document(&mut self, _path: &str, _bytes: &[u8]) -> Result<(), String> {
        Ok(())
    }
}

#[test]
fn a_parent_that_cannot_be_created_stops_before_its_fragment() {
    let top = FragmentPath::try_from("a.lua").unwrap();
    let nested = FragmentPath::try_from("dir/b.lua").unwrap();
    let external = [
        ExternalOutput { path: &top, bytes: b"a", write: ExternalWrite::CreateOrTruncate },
        ExternalOutput { path: &nested, bytes: b"b", write: ExternalWrite::CreateOrTruncate },
    ];
    let error = commit_with(&mut NoDirectories, &external, &[], None).unwrap_err();
    assert_eq!(error.completed(), std::slice::from_ref(&top));
    assert!(matches!(
        error.failure(),
        CommitFailure::CreateExternalParent { path, destination, source }
            if path == &nested && destination == "dir/b.lua" && source == "read-only"
    ));
}

#[test]
fn a_document_write_failure_message_names_every_completed_fragment() {
    let document = "patch.audulus4".to_owned();
    let a = FragmentPath::try_from("a.lua").unwrap();
    let b = FragmentPath::try_from("src/b.lua").unwrap();
    let external = [
        ExternalOutput {
            path: &a,
            bytes: b"a",
            write: ExternalWrite::CreateNew,
        },
        ExternalOutput {
            path: &b,
            bytes: b"b",
            write: ExternalWrite::CreateOrTruncate,
        },
    ];
    let mut filesystem = EventFilesystem {
        events: Vec::new(),
        fail_write: Some(document.clone()),
    };
    let error = commit_with(
        &mut filesystem,
        &external,
        &[],
        Some(DocumentOutput {
            destination: &document,
            bytes: b"new document",
        }),
    )
    .unwrap_err();
    assert_eq!(
        error.to_string(),
        "cannot write document `patch.audulus4`: injected failure after writing external fragments `a.lua`, `src/b.lua`"
    );
    assert_eq!(
        error.failure().to_string(),
        "cannot write document `patch.audulus4`: injected failure"
    );
}
