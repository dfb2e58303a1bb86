#![allow(dead_code)]

use zwirn::fragment::{CanonicalSource, FragmentPath};
use zwirn::inventory::{
    discover_fragments, Discovery, DocumentOrigin, FileIdentity, InventoryError, SelectorError,
    TargetInput,
};

const MODULE: u32 = 0;
const SHADER: u32 = 74;
const CANVAS: u32 = 78;
const DSP: u32 = 79;
const LYTE_DSP: u32 = 82;

/// A document whose DSP, Lyte DSP, Canvas and Shader nodes hold `sources`.
fn document_with_sources(sources: [&str; 4]) -> Vec<u8> {
    build(&[
        (MODULE, None),
        (DSP, Some(sources[0])),
        (LYTE_DSP, Some(sources[1])),
        (CANVAS, Some(sources[2])),
        (SHADER, Some(sources[3])),
    ])
    .bytes
}

fn identity(inode: u64) -> FileIdentity {
    FileIdentity::new(1, inode)
}

#[test]
fn rejects_global_duplicates() {
    let duplicate = document_with_sources([
        "-- @{ same.code\none\n-- @} same.code\n",
        "// @{ same.code\ntwo\n// @} same.code\n",
        "",
        "",
    ]);
    assert!(matches!(
        Discovery::start(duplicate, None, "root".to_owned()),
        Err(InventoryError::DuplicateFragment { path, first_node: 1, second_node: 2 }) if path.as_str() == "same.code"
    ));
}

#[test]
fn discovers_fragments_in_path_order_and_selects_exact_paths() {
    let document = document_with_sources([
        "-- @{ z.lua\r\nembedded z\r\n-- @} z.lua\r\n",
        "// @{ a.lyte\nembedded a\n// @} a.lyte\n",
        "",
        "",
    ]);

    let mut discovery = Discovery::start(document, None, "root".to_owned()).unwrap();
    assert_eq!(discovery.next_fragment().unwrap().path.as_str(), "a.lyte");
    assert_eq!(discovery.next_target().unwrap(), "root/a.lyte");
    discovery = discovery
        .accept(
            "root/a.lyte".to_owned(),
            Some(TargetInput { bytes: b"embedded a\r\n".to_vec(), identity: identity(1) }),
        )
        .unwrap();
    assert_eq!(discovery.next_fragment().unwrap().path.as_str(), "z.lua");
    assert_eq!(discovery.next_target().unwrap(), "root/z.lua");
    discovery = discovery.accept("root/z.lua".to_owned(), None).unwrap();
    assert!(discovery.next_fragment().is_none());
    assert!(discovery.next_target().is_none());
    let inventory = discovery.finish();

    assert_eq!(
        inventory
            .entries()
            .iter()
            .map(|entry| entry.path.as_str())
            .collect::<Vec<_>>(),
        ["a.lyte", "z.lua"]
    );
    assert_eq!(
        inventory.entries()[0].embedded,
        CanonicalSource::try_from("embedded a").unwrap()
    );
    assert_eq!(
        inventory.entries()[0].filesystem.as_ref().unwrap(),
        &CanonicalSource::try_from("embedded a").unwrap()
    );
    assert!(inventory.entries()[1].filesystem.is_none());
    assert_eq!(inventory.entries()[1].target, "root/z.lua");

    let z = FragmentPath::try_from("z.lua").unwrap();
    let a = FragmentPath::try_from("a.lyte").unwrap();
    let selected = inventory.select(&[z.clone(), a, z]).unwrap();
    assert_eq!(
        selected
            .iter()
            .map(|entry| entry.path.as_str())
            .collect::<Vec<_>>(),
        ["a.lyte", "z.lua"]
    );
    assert_eq!(inventory.select(&[]).unwrap().len(), 2);

    let unknown = FragmentPath::try_from("unknown.lua").unwrap();
    let other = FragmentPath::try_from("b-unknown.lua").unwrap();
    assert!(matches!(
        inventory.select(&[unknown, other]),
        Err(SelectorError::UnknownPath { path }) if path.as_str() == "b-unknown.lua"
    ));
}

#[test]
fn rejects_strict_component_ancestors() {
    let document = document_with_sources([
        "-- @{ src/a.lua\none\n-- @} src/a.lua\n",
        "// @{ src\ntwo\n// @} src\n",
        "",
        "",
    ]);
    assert!(matches!(
        discover_fragments(&document),
        Err(InventoryError::PathPrefixConflict { ancestor, descendant })
            if ancestor.as_str() == "src" && descendant.as_str() == "src/a.lua"
    ));
    // A shared name prefix that is not a whole component is no conflict.
    let document = document_with_sources([
        "-- @{ srcx/a.lua\none\n-- @} srcx/a.lua\n",
        "// @{ src\ntwo\n// @} src\n",
        "",
        "",
    ]);
    assert_eq!(discover_fragments(&document).unwrap().len(), 2);
}

#[test]
fn reports_marker_embedded_and_document_errors() {
    assert!(matches!(
        discover_fragments(b"not a document"),
        Err(InventoryError::InvalidDocument { .. })
    ));
    let document = document_with_sources(["-- @} orphan.lua\n", "", "", ""]);
    assert!(matches!(
        discover_fragments(&document),
        Err(InventoryError::InvalidMarkers { node_index: 1, .. })
    ));
}

#[test]
fn target_inputs_are_validated_in_order() {
    let document = document_with_sources([
        "-- @{ a.lua\none\n-- @} a.lua\n-- @{ b.lua\ntwo\n-- @} b.lua\n",
        "",
        "",
        "",
    ]);
    let origin = || Some(DocumentOrigin { path: "doc.audulus4".to_owned(), identity: identity(9) });

    // A target that names the document.
    let named = Some(DocumentOrigin { path: "a.lua".to_owned(), identity: identity(9) });
    let d = Discovery::start(document.clone(), named, String::new()).unwrap();
    assert!(d.targets_document("a.lua"));
    assert!(!d.targets_document("doc.audulus4"));
    assert!(matches!(
        d.accept("a.lua".to_owned(), None),
        Err(InventoryError::DocumentTarget { path, .. }) if path.as_str() == "a.lua"
    ));

    // A target that is the document file under another name.
    let d = Discovery::start(document.clone(), origin(), String::new()).unwrap();
    assert!(matches!(
        d.accept("a.lua".to_owned(), Some(TargetInput { bytes: b"one\n".to_vec(), identity: identity(9) })),
        Err(InventoryError::DocumentTarget { .. })
    ));

    // Two targets that are one file.
    let d = Discovery::start(document.clone(), origin(), String::new()).unwrap();
    let d = d
        .accept("a.lua".to_owned(), Some(TargetInput { bytes: b"one\n".to_vec(), identity: identity(3) }))
        .unwrap();
    assert!(matches!(
        d.accept("b.lua".to_owned(), Some(TargetInput { bytes: b"two\n".to_vec(), identity: identity(3) })),
        Err(InventoryError::AliasedTargets { first_path, second_path })
            if first_path.as_str() == "a.lua" && second_path.as_str() == "b.lua"
    ));

    // Non-UTF-8 and byte-order-marked targets.
    let d = Discovery::start(document.clone(), None, String::new()).unwrap();
    assert!(matches!(
        d.accept("a.lua".to_owned(), Some(TargetInput { bytes: vec![0xff], identity: identity(4) })),
        Err(InventoryError::InvalidTargetUtf8 { path, .. }) if path.as_str() == "a.lua"
    ));
    let d = Discovery::start(document, None, String::new()).unwrap();
    assert!(matches!(
        d.accept("a.lua".to_owned(), Some(TargetInput { bytes: "\u{feff}x".as_bytes().to_vec(), identity: identity(4) })),
        Err(InventoryError::InvalidTargetSource { .. })
    ));
}

// A small FlatBuffer writer for `.audulus4` documents: a root table whose
// `f0` points at the patch-object vector, and one table per patch object
// holding its node type in `f0` and, where given, a string in `f10`.

struct Built {
    bytes: Vec<u8>,
    /// Location of each object's `f10` field, where present.
    f10_slots: Vec<Option<usize>>,
    /// Location of each object's string (its length word), where present.
    strings: Vec<Option<usize>>,
    /// Location of each object's table.
    tables: Vec<usize>,
    /// Location of the root table's vtable.
    root_vtable: usize,
    /// Location of the patch-object vector.
    pool: usize,
}

fn put_u16(bytes: &mut [u8], at: usize, value: u16) {
    bytes[at..at + 2].copy_from_slice(&value.to_le_bytes());
}

fn put_u32(bytes: &mut [u8], at: usize, value: u32) {
    bytes[at..at + 4].copy_from_slice(&value.to_le_bytes());
}

fn align(bytes: &mut Vec<u8>, to: usize) {
    while bytes.len() % to != 0 {
        bytes.push(0);
    }
}

fn build(objects: &[(u32, Option<&str>)]) -> Built {
    let mut bytes = vec![0u8; 8];
    bytes[4..8].copy_from_slice(b"ADLS");
    // Root vtable: one entry (f0 at offset 4); table of eight bytes.
    let root_vtable = bytes.len();
    bytes.extend_from_slice(&[0; 6]);
    put_u16(&mut bytes, root_vtable, 6);
    put_u16(&mut bytes, root_vtable + 2, 8);
    put_u16(&mut bytes, root_vtable + 4, 4);
    align(&mut bytes, 4);
    let root = bytes.len();
    bytes.extend_from_slice(&[0; 8]);
    put_u32(&mut bytes, root, (root - root_vtable) as u32);
    put_u32(&mut bytes, 0, root as u32);
    // The patch-object vector.
    let pool = bytes.len();
    bytes.extend_from_slice(&vec![0; 4 + 4 * objects.len()]);
    put_u32(&mut bytes, pool, objects.len() as u32);
    put_u32(&mut bytes, root + 4, (pool - (root + 4)) as u32);
    // Object tables.
    let mut tables = Vec::new();
    let mut f10_slots = Vec::new();
    for (type_id, text) in objects {
        let entries = if text.is_some() { 11 } else if *type_id != 0 { 1 } else { 0 };
        let vtable = bytes.len();
        bytes.extend_from_slice(&vec![0; 4 + 2 * entries]);
        let object_length = if text.is_some() { 12 } else if *type_id != 0 { 8 } else { 4 };
        put_u16(&mut bytes, vtable, (4 + 2 * entries) as u16);
        put_u16(&mut bytes, vtable + 2, object_length as u16);
        if entries > 0 {
            put_u16(&mut bytes, vtable + 4, 4);
        }
        if text.is_some() {
            put_u16(&mut bytes, vtable + 4 + 2 * 10, 8);
        }
        align(&mut bytes, 4);
        let table = bytes.len();
        bytes.extend_from_slice(&vec![0; object_length]);
        put_u32(&mut bytes, table, (table - vtable) as u32);
        if entries > 0 {
            put_u32(&mut bytes, table + 4, *type_id);
        }
        tables.push(table);
        f10_slots.push(if text.is_some() { Some(table + 8) } else { None });
    }
    for (index, table) in tables.iter().enumerate() {
        let element = pool + 4 + 4 * index;
        put_u32(&mut bytes, element, (table - element) as u32);
    }
    // Strings.
    let mut strings = Vec::new();
    for ((_, text), slot) in objects.iter().zip(&f10_slots) {
        match (text, slot) {
            (Some(text), Some(slot)) => {
                align(&mut bytes, 4);
                let at = bytes.len();
                bytes.extend_from_slice(&(text.len() as u32).to_le_bytes());
                bytes.extend_from_slice(text.as_bytes());
                bytes.push(0);
                put_u32(&mut bytes, *slot, (at - slot) as u32);
                strings.push(Some(at));
            }
            _ => strings.push(None),
        }
    }
    align(&mut bytes, 4);
    Built { bytes, f10_slots, strings, tables, root_vtable, pool }
}
