#![allow(dead_code)]

use std::collections::BTreeMap;

use zwirn::access::DirectAccess;
use zwirn::adls::Document;
use zwirn::commit::{CommitFilesystem, ExternalWrite, RecordingFilesystem};
use zwirn::engine::{
    execute_with, exit_state, materialize_document, resolve_from, resolve_request, status_report, Error,
    ExitState,
    Mode, ReportEntry,
};
use zwirn::fragment::{BaselineHash, CanonicalSource, FragmentPath, FragmentUpdate, ParsedSource};
use zwirn::inventory::{Discovery, FileIdentity, Inventory, TargetInput};
use zwirn::reconcile::{Action, Operation, State};

const MODULE: u32 = 0;
const SHADER: u32 = 74;
const CANVAS: u32 = 78;
const DSP: u32 = 79;
const LYTE_DSP: u32 = 82;

#[derive(Default)]
struct MemoryFilesystem {
    files: BTreeMap<String, Vec<u8>>,
    events: Vec<String>,
}

impl CommitFilesystem for MemoryFilesystem {
    fn external_destination(&self, path: &FragmentPath) -> String {
        format!("root/{}", path.as_str())
    }

    fn create_dir_all(&mut self, path: &str) -> Result<(), String> {
        self.events.push(format!("mkdir:{path}"));
        Ok(())
    }

    fn write_external(
        &mut self,
        path: &FragmentPath,
        bytes: &[u8],
        write: ExternalWrite,
        _absent_targets: &[&FragmentPath],
    ) -> Result<Option<FragmentPath>, String> {
        let name = format!("root/{}", path.as_str());
        if write == ExternalWrite::CreateNew && self.files.contains_key(&name) {
            return Err("file exists".to_owned());
        }
        self.events.push(format!("write:{name}"));
        self.files.insert(name, bytes.to_vec());
        Ok(None)
    }

    fn write_document(&mut self, path: &str, bytes: &[u8]) -> Result<(), String> {
        self.events.push(format!("write:{path}"));
        self.files.insert(path.to_owned(), bytes.to_vec());
        Ok(())
    }
}

/// Discovers the inventory of `document`, reading targets from `files`.
fn inventory(document: Vec<u8>, files: &BTreeMap<String, Vec<u8>>) -> Inventory {
    let mut discovery = Discovery::start(document, None, "root".to_owned()).unwrap();
    let mut inode = 1;
    while let Some(target) = discovery.next_target() {
        let input = files.get(&target).map(|bytes| {
            inode += 1;
            TargetInput { bytes: bytes.clone(), identity: FileIdentity::new(1, inode) }
        });
        discovery = discovery.accept(target, input).unwrap();
    }
    discovery.finish()
}

fn document() -> Vec<u8> {
    build(&[
        (MODULE, None),
        (DSP, Some("-- @{ b.lua\nembedded b\n-- @} b.lua\n-- @{ a.lua\nembedded a\n-- @} a.lua\n")),
    ])
    .bytes
}

#[test]
fn status_reports_each_selected_state_in_path_order() {
    let inventory = inventory(document(), &BTreeMap::new());
    let selected = inventory.select(&[]).unwrap();
    let classified = zwirn::engine::classify_entries(&selected);
    let report = status_report(&classified);
    assert_eq!(
        report
            .entries
            .iter()
            .map(|entry| (entry.path().as_str().to_owned(), entry.result()))
            .collect::<Vec<_>>(),
        [("a.lua".to_owned(), "unadopted"), ("b.lua".to_owned(), "unadopted")]
    );
    assert_eq!(report.exit, ExitState::Attention);
    assert_eq!(report.exit.code(), 1);
}

#[test]
fn sync_extracts_records_and_then_reports_synchronized() {
    let mut filesystem = MemoryFilesystem::default();
    let first = inventory(document(), &filesystem.files);
    let report = execute_with(
        &mut DirectAccess,
        &mut RecordingFilesystem::new(&mut filesystem),
        "doc.audulus4",
        &first,
        &[],
        Mode::Mutate(Operation::Sync),
    )
    .unwrap();
    assert!(matches!(
        &report.entries[..],
        [ReportEntry::Action { action: Action::Extract, .. }, ReportEntry::Action { action: Action::Extract, .. }]
    ));
    assert_eq!(report.exit, ExitState::Synchronized);
    assert_eq!(
        filesystem.events,
        ["write:root/a.lua", "write:root/b.lua", "write:doc.audulus4"]
    );
    assert_eq!(filesystem.files["root/a.lua"], b"embedded a\n");

    // The rewritten document records baselines; a second status settles.
    let rewritten = filesystem.files["doc.audulus4"].clone();
    let parsed = Document::parse(&rewritten).unwrap();
    let node = parsed.sources()[0];
    let fragments = ParsedSource::parse(node.kind, node.source).unwrap();
    assert!(fragments.fragments().iter().all(|f| f.baseline.is_some()));

    let second = inventory(rewritten, &filesystem.files);
    let report = execute_with(
        &mut DirectAccess,
        &mut RecordingFilesystem::new(&mut filesystem),
        "doc.audulus4",
        &second,
        &[],
        Mode::Status,
    )
    .unwrap();
    assert!(report.entries.iter().all(|entry| matches!(
        entry,
        ReportEntry::State { state: State::Synchronized, .. }
    )));
    assert_eq!(report.exit, ExitState::Synchronized);
}

#[test]
fn force_requires_an_explicit_selection() {
    let mut filesystem = MemoryFilesystem::default();
    let inventory = inventory(document(), &filesystem.files);
    assert!(matches!(
        execute_with(
            &mut DirectAccess,
            &mut RecordingFilesystem::new(&mut filesystem),
            "doc.audulus4",
            &inventory,
            &[],
            Mode::Mutate(Operation::Embed { force: true }),
        ),
        Err(Error::ForceRequiresExplicitSelection)
    ));
    let a = FragmentPath::try_from("a.lua").unwrap();
    assert!(matches!(
        execute_with(
            &mut DirectAccess,
            &mut RecordingFilesystem::new(&mut filesystem),
            "doc.audulus4",
            &inventory,
            &[a],
            Mode::Mutate(Operation::Embed { force: true }),
        ),
        Err(Error::InvalidForcedState { state: State::Unadopted, .. })
    ));
    let unknown = FragmentPath::try_from("zzz.lua").unwrap();
    assert!(matches!(
        execute_with(&mut DirectAccess, &mut RecordingFilesystem::new(&mut filesystem), "doc.audulus4", &inventory, &[unknown], Mode::Status),
        Err(Error::Selector(_))
    ));
    assert!(filesystem.events.is_empty());
}

#[test]
fn exit_states_and_resolved_paths() {
    assert_eq!(exit_state(false), ExitState::Synchronized);
    assert_eq!(exit_state(true).code(), 1);
    assert_eq!(resolve_from("/work", "doc.audulus4"), "/work/doc.audulus4");
    assert_eq!(resolve_from("/work/", "doc.audulus4"), "/work/doc.audulus4");
    assert_eq!(resolve_from("/work", "/abs/doc.audulus4"), "/abs/doc.audulus4");
}

// A small FlatBuffer writer for `.audulus4` documents: a root table whose
// `f0` points at the patch-object vector, and one table per patch object
// holding its node type in `f0` and, where given, a string in `f10`.

struct Built {
    bytes: Vec<u8>,
    /// Location of each object's `f10` field, where present.
    f10_slots: Vec<Option<usize>>,
    /// Location of each object's string (its length word), where present.
    strings: Vec<Option<usize>>,
    /// Location of each object's table.
    tables: Vec<usize>,
    /// Location of the root table's vtable.
    root_vtable: usize,
    /// Location of the patch-object vector.
    pool: usize,
}

fn put_u16(bytes: &mut [u8], at: usize, value: u16) {
    bytes[at..at + 2].copy_from_slice(&value.to_le_bytes());
}

fn put_u32(bytes: &mut [u8], at: usize, value: u32) {
    bytes[at..at + 4].copy_from_slice(&value.to_le_bytes());
}

fn align(bytes: &mut Vec<u8>, to: usize) {
    while bytes.len() % to != 0 {
        bytes.push(0);
    }
}

fn build(objects: &[(u32, Option<&str>)]) -> Built {
    let mut bytes = vec![0u8; 8];
    bytes[4..8].copy_from_slice(b"ADLS");
    // Root vtable: one entry (f0 at offset 4); table of eight bytes.
    let root_vtable = bytes.len();
    bytes.extend_from_slice(&[0; 6]);
    put_u16(&mut bytes, root_vtable, 6);
    put_u16(&mut bytes, root_vtable + 2, 8);
    put_u16(&mut bytes, root_vtable + 4, 4);
    align(&mut bytes, 4);
    let root = bytes.len();
    bytes.extend_from_slice(&[0; 8]);
    put_u32(&mut bytes, root, (root - root_vtable) as u32);
    put_u32(&mut bytes, 0, root as u32);
    // The patch-object vector.
    let pool = bytes.len();
    bytes.extend_from_slice(&vec![0; 4 + 4 * objects.len()]);
    put_u32(&mut bytes, pool, objects.len() as u32);
    put_u32(&mut bytes, root + 4, (pool - (root + 4)) as u32);
    // Object tables.
    let mut tables = Vec::new();
    let mut f10_slots = Vec::new();
    for (type_id, text) in objects {
        let entries = if text.is_some() { 11 } else if *type_id != 0 { 1 } else { 0 };
        let vtable = bytes.len();
        bytes.extend_from_slice(&vec![0; 4 + 2 * entries]);
        let object_length = if text.is_some() { 12 } else if *type_id != 0 { 8 } else { 4 };
        put_u16(&mut bytes, vtable, (4 + 2 * entries) as u16);
        put_u16(&mut bytes, vtable + 2, object_length as u16);
        if entries > 0 {
            put_u16(&mut bytes, vtable + 4, 4);
        }
        if text.is_some() {
            put_u16(&mut bytes, vtable + 4 + 2 * 10, 8);
        }
        align(&mut bytes, 4);
        let table = bytes.len();
        bytes.extend_from_slice(&vec![0; object_length]);
        put_u32(&mut bytes, table, (table - vtable) as u32);
        if entries > 0 {
            put_u32(&mut bytes, table + 4, *type_id);
        }
        tables.push(table);
        f10_slots.push(if text.is_some() { Some(table + 8) } else { None });
    }
    for (index, table) in tables.iter().enumerate() {
        let element = pool + 4 + 4 * index;
        put_u32(&mut bytes, element, (table - element) as u32);
    }
    // Strings.
    let mut strings = Vec::new();
    for ((_, text), slot) in objects.iter().zip(&f10_slots) {
        match (text, slot) {
            (Some(text), Some(slot)) => {
                align(&mut bytes, 4);
                let at = bytes.len();
                bytes.extend_from_slice(&(text.len() as u32).to_le_bytes());
                bytes.extend_from_slice(text.as_bytes());
                bytes.push(0);
                put_u32(&mut bytes, *slot, (at - slot) as u32);
                strings.push(Some(at));
            }
            _ => strings.push(None),
        }
    }
    align(&mut bytes, 4);
    Built { bytes, f10_slots, strings, tables, root_vtable, pool }
}

#[test]
fn materialization_reports_inconsistent_nodes_markers_and_updates() {
    let a = FragmentPath::try_from("a.lua").unwrap();
    let unknown = FragmentPath::try_from("unknown.lua").unwrap();
    let built = build(&[
        (MODULE, None),
        (DSP, Some("-- @{ a.lua\nold\n-- @} a.lua\n")),
        (DSP, Some("-- @} orphan.lua\n")),
    ]);

    let no_source = vec![(0u32, vec![FragmentUpdate::Record { path: &a }])];
    assert!(matches!(
        materialize_document(&built.bytes, &no_source),
        Err(Error::InconsistentMaterializationNode { node_index: 0 })
    ));

    let broken_markers = vec![(2u32, vec![FragmentUpdate::Record { path: &a }])];
    assert!(matches!(
        materialize_document(&built.bytes, &broken_markers),
        Err(Error::InconsistentMaterializationMarkers { node_index: 2, .. })
    ));

    let unknown_path = vec![(1u32, vec![FragmentUpdate::Record { path: &unknown }])];
    assert!(matches!(
        materialize_document(&built.bytes, &unknown_path),
        Err(Error::FragmentRewrite { node_index: 1, .. })
    ));

    // A replacement that carries a marker line of its own does not survive
    // the prepared document's marker check.
    let marked = CanonicalSource::new("-- @{ inner.lua\n").unwrap();
    let nested = vec![(1u32, vec![FragmentUpdate::Replace { path: &a, source: &marked }])];
    assert!(matches!(
        materialize_document(&built.bytes, &nested),
        Err(Error::InvalidPreparedMarkers { node_index: 1, .. })
    ));
}

#[test]
fn materialization_refuses_a_prepared_document_with_a_repeated_path() {
    let a = FragmentPath::try_from("a.lua").unwrap();
    let built = build(&[
        (MODULE, None),
        (DSP, Some("-- @{ a.lua\nold\n-- @} a.lua\n")),
        (DSP, Some("-- @{ a.lua\nother\n-- @} a.lua\n")),
    ]);
    let record = vec![(1u32, vec![FragmentUpdate::Record { path: &a }])];
    assert!(matches!(
        materialize_document(&built.bytes, &record),
        Err(Error::DuplicatePreparedFragment { path }) if path == a
    ));
}

fn source(value: &str) -> CanonicalSource {
    CanonicalSource::new(value).unwrap()
}

fn path(value: &str) -> FragmentPath {
    FragmentPath::try_from(value).unwrap()
}

#[test]
fn sync_applies_both_safe_directions_alongside_a_conflict() {
    let baseline = source("baseline");
    let baseline_hash = BaselineHash::from_source(&baseline);
    let hash = baseline_hash.to_string();
    let embedded_extract = source("embedded extract");
    let embedded_conflict = source("embedded conflict");
    let filesystem_embed = source("filesystem embed");
    let filesystem_conflict = source("filesystem conflict");

    // Node order deliberately differs from canonical fragment-path order.
    let dsp = format!(
        "-- @{{ c-conflict.lua\n{}-- @}} c-conflict.lua {hash}\n",
        embedded_conflict.as_str()
    );
    let lyte = format!(
        "// @{{ a-embed.lyte\n{}// @}} a-embed.lyte {hash}\n",
        baseline.as_str()
    );
    let canvas = format!(
        "-- @{{ b-extract.lua\n{}-- @}} b-extract.lua {hash}\n",
        embedded_extract.as_str()
    );
    let document_bytes = build(&[
        (MODULE, None),
        (DSP, Some(&dsp)),
        (LYTE_DSP, Some(&lyte)),
        (CANVAS, Some(&canvas)),
        (SHADER, Some("")),
    ])
    .bytes;
    let mut filesystem = MemoryFilesystem::default();
    filesystem.files.insert("root/a-embed.lyte".to_owned(), b"filesystem embed\r\n".to_vec());
    filesystem.files.insert("root/b-extract.lua".to_owned(), baseline.as_str().as_bytes().to_vec());
    filesystem
        .files
        .insert("root/c-conflict.lua".to_owned(), filesystem_conflict.as_str().as_bytes().to_vec());
    let first = inventory(document_bytes, &filesystem.files);

    let report = execute_with(
        &mut DirectAccess,
        &mut RecordingFilesystem::new(&mut filesystem),
        "patch.audulus4",
        &first,
        &[],
        Mode::Mutate(Operation::Sync),
    )
    .unwrap();

    let entries = report
        .entries
        .iter()
        .map(|entry| match entry {
            ReportEntry::Action { path, action } => (path.clone(), Some(*action), None),
            ReportEntry::State { path, state } => (path.clone(), None, Some(*state)),
        })
        .collect::<Vec<_>>();
    assert_eq!(
        entries,
        [
            (path("a-embed.lyte"), Some(Action::Embed), None),
            (path("b-extract.lua"), Some(Action::Extract), None),
            (path("c-conflict.lua"), None, Some(State::Conflict)),
        ]
    );
    assert_eq!(report.exit, ExitState::Attention);
    assert_eq!(filesystem.files["root/a-embed.lyte"], b"filesystem embed\r\n");
    assert_eq!(filesystem.files["root/b-extract.lua"], embedded_extract.as_str().as_bytes());
    assert_eq!(filesystem.files["root/c-conflict.lua"], filesystem_conflict.as_str().as_bytes());

    let rewritten = filesystem.files["patch.audulus4"].clone();
    let final_inventory = inventory(rewritten, &filesystem.files);
    let [embed, extract, conflict] = final_inventory.entries() else {
        panic!("expected exactly three fragments");
    };
    assert_eq!(embed.embedded, filesystem_embed);
    assert_eq!(embed.baseline, Some(BaselineHash::from_source(&filesystem_embed)));
    assert_eq!(extract.embedded, embedded_extract);
    assert_eq!(extract.baseline, Some(BaselineHash::from_source(&embedded_extract)));
    assert_eq!(conflict.embedded, embedded_conflict);
    assert_eq!(conflict.baseline, Some(baseline_hash));
}

#[test]
fn explicit_extract_recreates_missing_source_without_touching_the_document() {
    let embedded = source("first line\r\nsecond line");
    let baseline = BaselineHash::from_source(&embedded).to_string();
    let dsp = format!(
        "-- @{{ nested/missing.lua\r\nfirst line\r\nsecond line\r\n-- @}} nested/missing.lua {baseline}\r\n"
    );
    let document_bytes = build(&[(MODULE, None), (DSP, Some(&dsp))]).bytes;
    let mut filesystem = MemoryFilesystem::default();
    let inventory = inventory(document_bytes, &filesystem.files);
    let selected = path("nested/missing.lua");

    let report = execute_with(
        &mut DirectAccess,
        &mut RecordingFilesystem::new(&mut filesystem),
        "patch.audulus4",
        &inventory,
        std::slice::from_ref(&selected),
        Mode::Mutate(Operation::Extract { force: false }),
    )
    .unwrap();

    assert!(matches!(
        &report.entries[..],
        [ReportEntry::Action { path, action: Action::Extract }] if path == &selected
    ));
    assert_eq!(report.exit, ExitState::Synchronized);
    assert_eq!(filesystem.files["root/nested/missing.lua"], embedded.as_str().as_bytes());
    assert_eq!(filesystem.events, ["mkdir:nested", "write:root/nested/missing.lua"]);
    assert!(!filesystem.files.contains_key("patch.audulus4"));
}

#[test]
fn invalid_prepared_markers_abort_before_any_output_is_written() {
    let baseline = source("baseline");
    let baseline_hash = BaselineHash::from_source(&baseline).to_string();
    let embedded_extract = source("embedded change");
    let dsp = format!(
        "-- @{{ a-extract.lua\n{}-- @}} a-extract.lua {}\n-- @{{ b-embed.lua\n{}-- @}} b-embed.lua {}\n",
        embedded_extract.as_str(),
        baseline_hash,
        baseline.as_str(),
        baseline_hash,
    );
    let document_bytes = build(&[(MODULE, None), (DSP, Some(&dsp))]).bytes;
    let mut filesystem = MemoryFilesystem::default();
    filesystem.files.insert("root/a-extract.lua".to_owned(), baseline.as_str().as_bytes().to_vec());
    let invalid_replacement = b"-- @{ nested.lua\nsource\n";
    filesystem.files.insert("root/b-embed.lua".to_owned(), invalid_replacement.to_vec());
    let inventory = inventory(document_bytes, &filesystem.files);

    let error = execute_with(
        &mut DirectAccess,
        &mut RecordingFilesystem::new(&mut filesystem),
        "patch.audulus4",
        &inventory,
        &[],
        Mode::Mutate(Operation::Sync),
    )
    .unwrap_err();

    assert!(matches!(error, Error::InvalidPreparedMarkers { .. }));
    assert!(filesystem.events.is_empty());
    assert_eq!(filesystem.files["root/a-extract.lua"], baseline.as_str().as_bytes());
    assert_eq!(filesystem.files["root/b-embed.lua"], invalid_replacement);
}

#[test]
fn a_second_sync_writes_nothing() {
    let mut filesystem = MemoryFilesystem::default();
    let first = inventory(document(), &filesystem.files);
    execute_with(&mut DirectAccess, &mut RecordingFilesystem::new(&mut filesystem), "doc.audulus4", &first, &[], Mode::Mutate(Operation::Sync))
        .unwrap();
    let events = filesystem.events.len();
    let rewritten = filesystem.files["doc.audulus4"].clone();
    let second = inventory(rewritten, &filesystem.files);
    let report = execute_with(
        &mut DirectAccess,
        &mut RecordingFilesystem::new(&mut filesystem),
        "doc.audulus4",
        &second,
        &[],
        Mode::Mutate(Operation::Sync),
    )
    .unwrap();
    assert!(report.entries.iter().all(|entry| !matches!(entry, ReportEntry::Action { .. })));
    assert_eq!(report.exit, ExitState::Synchronized);
    assert_eq!(filesystem.events.len(), events);
}

#[test]
fn a_request_resolves_its_document_and_defaults_the_root_to_its_parent() {
    let (document, root) = resolve_request("/work", "song.audulus4", None).unwrap();
    assert_eq!(document, "/work/song.audulus4");
    assert_eq!(root, "/work");
    let (document, root) = resolve_request("/work", "/songs/a/song.audulus4", None).unwrap();
    assert_eq!(document, "/songs/a/song.audulus4");
    assert_eq!(root, "/songs/a");
    let (document, root) = resolve_request("/work", "nested/song.audulus4", Some("src")).unwrap();
    assert_eq!(document, "/work/nested/song.audulus4");
    assert_eq!(root, "/work/src");
    for refused in ["song.txt", "song", ".audulus4", "song.audulus4.bak"] {
        assert!(matches!(
            resolve_request("/work", refused, None),
            Err(Error::InvalidDocumentExtension { path }) if path == refused
        ));
    }
}
