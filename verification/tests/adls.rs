#![allow(dead_code)]

use std::borrow::Cow;

use zwirn::adls::{plan_rewrite_size, Document, Error, NodeKind, MAX_REWRITTEN_ADLS_SIZE};

// Node type identifiers of the source-bearing kinds, and of other nodes.
const MODULE: u32 = 0;
const KNOB: u32 = 3;
const TEXT: u32 = 40;
const SHADER: u32 = 74;
const CANVAS: u32 = 78;
const DSP: u32 = 79;
const LYTE_DSP: u32 = 82;

fn sized(prefix: &str, len: usize) -> String {
    let mut text = String::from(prefix);
    while text.len() < len {
        text.push('x');
    }
    text
}

/// Populated and empty DSP and Lyte DSP nodes, populated Shader and Canvas
/// nodes, and a Text node whose `f10` is not source.
fn source_types() -> Built {
    let dsp = sized("function process(frames)\n", 122);
    let lyte = sized("process {\n", 120);
    let canvas = sized("fill_circle(0, 0, 1)\n", 153);
    let shader = sized("outColor = vec4(1.0);\n", 232);
    build(&[
        (MODULE, None),
        (KNOB, None),
        (DSP, Some(&dsp)),
        (LYTE_DSP, Some(&lyte)),
        (DSP, None),
        (CANVAS, Some(&canvas)),
        (SHADER, Some(&shader)),
        (LYTE_DSP, None),
        (TEXT, Some("a text node")),
    ])
}

fn empty() -> Built {
    build(&[(MODULE, None)])
}

fn representative() -> Built {
    build(&[
        (MODULE, None),
        (KNOB, None),
        (DSP, Some("-- @{ angular_smoother.lua\nreturn 1\n-- @} angular_smoother.lua\n")),
        (LYTE_DSP, Some("// @{ angular_smoother.lyte\nout = 1\n// @} angular_smoother.lyte\n")),
        (DSP, Some("-- unmarked\n")),
        (CANVAS, Some("-- canvas\n")),
    ])
}

#[test]
fn plans_the_rewrite_size_at_the_limit_without_allocating_the_buffer() {
    let aligned_initial_size = MAX_REWRITTEN_ADLS_SIZE - 8;

    assert_eq!(
        plan_rewrite_size(aligned_initial_size, &[3]).unwrap(),
        MAX_REWRITTEN_ADLS_SIZE
    );
    assert!(matches!(
        plan_rewrite_size(aligned_initial_size, &[4]),
        Err(Error::SizeLimitExceeded)
    ));
}

#[test]
fn reads_present_source_fields_in_document_order() {
    let built = source_types();
    let document = Document::parse(&built.bytes).expect("authored fixture should parse");
    let summary = document
        .sources()
        .iter()
        .map(|node| (node.handle.index(), node.kind, node.source.len()))
        .collect::<Vec<_>>();

    assert_eq!(
        summary,
        [
            (2, NodeKind::Dsp, 122),
            (3, NodeKind::LyteDsp, 120),
            (5, NodeKind::Canvas, 153),
            (6, NodeKind::Shader, 232),
        ]
    );
    assert!(document.sources()[0].source.contains("function process"));
    assert!(document.sources()[1].source.contains("process {"));
    assert!(document.sources()[2].source.contains("fill_circle"));
    assert!(document.sources()[3].source.contains("outColor"));

    // The source-types document also contains a Text f10 and supported nodes
    // with absent f10 fields; neither belongs to this view.
    let empty = empty();
    assert!(Document::parse(&empty.bytes).unwrap().sources().is_empty());
}

#[test]
fn node_kind_keeps_non_source_f10_outside_the_view() {
    let built = source_types();
    let mut invalid_text = built.bytes.clone();
    invalid_text[built.strings[8].unwrap() + 4] = 0xff;

    let document = Document::parse(&invalid_text).expect("Text f10 is not a source field");
    assert_eq!(
        document
            .sources()
            .iter()
            .map(|node| node.handle.index())
            .collect::<Vec<_>>(),
        [2, 3, 5, 6]
    );
}

#[test]
fn yields_a_present_zero_length_source_field() {
    let built = source_types();
    let string = built.strings[2].unwrap();
    let mut present_empty = built.bytes.clone();
    present_empty[string..string + 4].copy_from_slice(&0_u32.to_le_bytes());
    present_empty[string + 4] = 0;

    let document = Document::parse(&present_empty).expect("empty string remains present");
    assert_eq!(document.sources()[0].handle.index(), 2);
    assert_eq!(document.sources()[0].kind, NodeKind::Dsp);
    assert_eq!(document.sources()[0].source, "");
    assert_eq!(document.sources().len(), 4);
}

#[test]
fn rewrites_empty_shorter_and_longer_utf8_sources_as_one_batch() {
    let built = source_types();
    let document = Document::parse(&built.bytes).unwrap();
    let original_shader = document.sources()[3].source;
    let long_canvas = "-- arbitrary UTF-8, including NUL: 雪 😀\0\n".repeat(6);
    assert!(long_canvas.len() > document.sources()[2].source.len());

    let replacements = [
        (document.sources()[0].handle, ""),
        (document.sources()[1].handle, "λ"),
        (document.sources()[2].handle, long_canvas.as_str()),
    ];
    let rewritten = document.rewrite(&replacements).unwrap();
    let Cow::Owned(rewritten) = rewritten else {
        panic!("an effective replacement must produce owned bytes");
    };

    // Appending new strings preserves every original byte except the selected
    // inline f10 offset words, including all unknown serialized fields.
    let changed_slots = [
        built.f10_slots[5].unwrap(),
        built.f10_slots[3].unwrap(),
        built.f10_slots[2].unwrap(),
    ];
    for (offset, (&before, &after)) in built.bytes.iter().zip(&rewritten).enumerate() {
        if !changed_slots
            .iter()
            .any(|slot| (*slot..*slot + 4).contains(&offset))
        {
            assert_eq!(before, after, "unexpected prefix change at {offset:#x}");
        }
    }
    for slot in changed_slots {
        assert_ne!(&built.bytes[slot..slot + 4], &rewritten[slot..slot + 4]);
    }

    let reparsed = Document::parse(&rewritten).expect("rewritten bytes should parse");
    assert_eq!(reparsed.sources().len(), 4);
    assert_eq!(reparsed.sources()[0].source, "");
    assert_eq!(reparsed.sources()[1].source, "λ");
    assert_eq!(reparsed.sources()[2].source, long_canvas);
    assert_eq!(reparsed.sources()[3].source, original_shader);
    assert_eq!(
        reparsed
            .sources()
            .iter()
            .map(|node| node.kind)
            .collect::<Vec<_>>(),
        [
            NodeKind::Dsp,
            NodeKind::LyteDsp,
            NodeKind::Canvas,
            NodeKind::Shader,
        ]
    );
}

#[test]
fn rewriting_one_shared_string_reference_leaves_the_other_unchanged() {
    let built = source_types();
    let mut shared_string = built.bytes.clone();
    // Point object 3's f10 at object 2's string.
    let slot = built.f10_slots[3].unwrap();
    let target = built.strings[2].unwrap();
    shared_string[slot..slot + 4].copy_from_slice(&((target - slot) as u32).to_le_bytes());
    let document = Document::parse(&shared_string).expect("shared strings are valid");
    assert_eq!(document.sources()[0].source, document.sources()[1].source);

    let original_shared_source = document.sources()[1].source;
    let rewritten = document
        .rewrite(&[(document.sources()[0].handle, "selected only")])
        .unwrap();
    let reparsed = Document::parse(rewritten.as_ref()).unwrap();

    assert_eq!(reparsed.sources()[0].source, "selected only");
    assert_eq!(reparsed.sources()[1].source, original_shared_source);
}

#[test]
fn preserves_input_bytes_for_empty_and_unchanged_batches() {
    let built = representative();
    let document = Document::parse(&built.bytes).unwrap();

    let untouched = document.rewrite(&[]).unwrap();
    assert!(matches!(untouched, Cow::Borrowed(_)));
    assert_eq!(untouched.as_ref(), built.bytes.as_slice());

    let unchanged = document
        .sources()
        .iter()
        .map(|node| (node.handle, node.source))
        .collect::<Vec<_>>();
    let untouched = document.rewrite(&unchanged).unwrap();
    assert!(matches!(untouched, Cow::Borrowed(_)));
    assert_eq!(untouched.as_ref(), built.bytes.as_slice());
}

#[test]
fn rejects_malformed_reached_structures_and_invalid_source_utf8() {
    let built = source_types();
    let dsp_table = built.tables[2];
    let dsp_vtable = dsp_table - (u32::from_le_bytes(built.bytes[dsp_table..dsp_table + 4].try_into().unwrap()) as usize);
    let malformed_cases: Vec<(usize, Vec<u8>)> = vec![
        // The root offset leaves the buffer.
        (0, u32::MAX.to_le_bytes().to_vec()),
        // The patch-object count exceeds the buffer.
        (built.pool, u32::MAX.to_le_bytes().to_vec()),
        // An empty patch-object vector.
        (built.pool, 0_u32.to_le_bytes().to_vec()),
        // A patch-object reference leaves the buffer.
        (built.pool + 4 + 4 * 2, u32::MAX.to_le_bytes().to_vec()),
        // A patch-object reference that is not aligned.
        (built.pool + 4 + 4 * 2, 0x86_u32.to_le_bytes().to_vec()),
        // A table whose vtable offset is zero.
        (dsp_table, 0_u32.to_le_bytes().to_vec()),
        // A vtable longer than the buffer.
        (dsp_vtable, u16::MAX.to_le_bytes().to_vec()),
        // A field entry past the end of its table.
        (dsp_vtable + 4 + 2 * 10, 0x24_u16.to_le_bytes().to_vec()),
        // A source length past the end of the buffer.
        (built.strings[2].unwrap(), u32::MAX.to_le_bytes().to_vec()),
        // A source string without its terminating NUL.
        (built.strings[2].unwrap() + 4 + 122, vec![1]),
    ];

    for (offset, replacement) in &malformed_cases {
        let mut malformed = built.bytes.clone();
        malformed[*offset..*offset + replacement.len()].copy_from_slice(replacement);
        let error = Document::parse(&malformed).expect_err("mutation should be rejected");
        assert!(
            matches!(error, Error::Malformed { .. }),
            "unexpected error for {offset:#x}: {error:?}"
        );
    }

    // A second table nested inside object 2's inline span would let its
    // fields alias source storage even though the table and vtable are
    // individually readable.
    let mut overlapping_tables = built.bytes.clone();
    let element = built.pool + 4 + 4 * 1;
    let inside = dsp_table + 4;
    overlapping_tables[element..element + 4].copy_from_slice(&((inside - element) as u32).to_le_bytes());
    assert!(matches!(
        Document::parse(&overlapping_tables),
        Err(Error::Malformed { .. })
    ));

    let mut invalid_utf8 = built.bytes.clone();
    invalid_utf8[built.strings[2].unwrap() + 4] = 0xff;
    assert!(matches!(
        Document::parse(&invalid_utf8),
        Err(Error::InvalidSourceUtf8 { node, .. }) if node.index() == 2
    ));

    assert!(matches!(
        Document::parse(&built.bytes[..7]),
        Err(Error::InvalidHeader)
    ));
    let mut bad_identifier = built.bytes.clone();
    bad_identifier[4] = b'X';
    assert!(matches!(
        Document::parse(&bad_identifier),
        Err(Error::InvalidIdentifier)
    ));

    let mut missing_pool = built.bytes.clone();
    let entry = built.root_vtable + 4;
    missing_pool[entry..entry + 2].copy_from_slice(&0_u16.to_le_bytes());
    assert!(matches!(
        Document::parse(&missing_pool),
        Err(Error::MissingPatchObjectPool)
    ));
}

#[test]
fn validates_replacement_handles_before_building_output() {
    let built = source_types();
    let document = Document::parse(&built.bytes).unwrap();
    let handle = document.sources()[0].handle;
    assert!(matches!(
        document.rewrite(&[(handle, "first"), (handle, "second")]),
        Err(Error::DuplicateReplacement { node }) if node == handle
    ));

    let other = build(&[
        (MODULE, None),
        (KNOB, None),
        (DSP, Some("-- another document\n")),
    ]);
    let other_document = Document::parse(&other.bytes).unwrap();
    let other_handle = other_document.sources()[0].handle;
    assert_eq!(other_handle.index(), handle.index());
    assert!(matches!(
        document.rewrite(&[(other_handle, "source")]),
        Err(Error::UnknownNodeHandle { node }) if node == other_handle
    ));
}

#[test]
fn a_rewrite_appends_each_string_aligned_after_the_original_bytes() {
    let built = build(&[(MODULE, None), (DSP, Some("old"))]);
    let document = Document::parse(&built.bytes).unwrap();
    let rewritten = document
        .rewrite(&[(document.sources()[0].handle, "new text")])
        .unwrap()
        .into_owned();
    let start = built.bytes.len();
    assert_eq!(start % 4, 0);
    assert_eq!(rewritten.len(), start + 4 + 8 + 1);
    assert_eq!(&rewritten[start..start + 4], &8_u32.to_le_bytes());
    assert_eq!(&rewritten[start + 4..start + 12], b"new text");
    assert_eq!(rewritten[start + 12], 0);
    let slot = built.f10_slots[1].unwrap();
    assert_eq!(&rewritten[slot..slot + 4], &((start - slot) as u32).to_le_bytes());
}

#[test]
fn an_oversized_input_is_refused_before_planning() {
    assert!(matches!(
        plan_rewrite_size(MAX_REWRITTEN_ADLS_SIZE + 1, &[]),
        Err(Error::SizeLimitExceeded)
    ));
    assert_eq!(plan_rewrite_size(5, &[0]).unwrap(), 8 + 4 + 0 + 1);
    assert_eq!(plan_rewrite_size(8, &[1, 2]).unwrap(), 23);
}

#[test]
fn parsing_identical_bytes_gives_interchangeable_handles() {
    let built = source_types();
    let first = Document::parse(&built.bytes).unwrap();
    let second = Document::parse(&built.bytes).unwrap();
    assert_eq!(first.sources()[0].handle, second.sources()[0].handle);
    assert!(first.rewrite(&[(second.sources()[0].handle, "x")]).is_ok());
}

// A small FlatBuffer writer for `.audulus4` documents: a root table whose
// `f0` points at the patch-object vector, and one table per patch object
// holding its node type in `f0` and, where given, a string in `f10`.

struct Built {
    bytes: Vec<u8>,
    /// Location of each object's `f10` field, where present.
    f10_slots: Vec<Option<usize>>,
    /// Location of each object's string (its length word), where present.
    strings: Vec<Option<usize>>,
    /// Location of each object's table.
    tables: Vec<usize>,
    /// Location of the root table's vtable.
    root_vtable: usize,
    /// Location of the patch-object vector.
    pool: usize,
}

fn put_u16(bytes: &mut [u8], at: usize, value: u16) {
    bytes[at..at + 2].copy_from_slice(&value.to_le_bytes());
}

fn put_u32(bytes: &mut [u8], at: usize, value: u32) {
    bytes[at..at + 4].copy_from_slice(&value.to_le_bytes());
}

fn align(bytes: &mut Vec<u8>, to: usize) {
    while bytes.len() % to != 0 {
        bytes.push(0);
    }
}

fn build(objects: &[(u32, Option<&str>)]) -> Built {
    let mut bytes = vec![0u8; 8];
    bytes[4..8].copy_from_slice(b"ADLS");
    // Root vtable: one entry (f0 at offset 4); table of eight bytes.
    let root_vtable = bytes.len();
    bytes.extend_from_slice(&[0; 6]);
    put_u16(&mut bytes, root_vtable, 6);
    put_u16(&mut bytes, root_vtable + 2, 8);
    put_u16(&mut bytes, root_vtable + 4, 4);
    align(&mut bytes, 4);
    let root = bytes.len();
    bytes.extend_from_slice(&[0; 8]);
    put_u32(&mut bytes, root, (root - root_vtable) as u32);
    put_u32(&mut bytes, 0, root as u32);
    // The patch-object vector.
    let pool = bytes.len();
    bytes.extend_from_slice(&vec![0; 4 + 4 * objects.len()]);
    put_u32(&mut bytes, pool, objects.len() as u32);
    put_u32(&mut bytes, root + 4, (pool - (root + 4)) as u32);
    // Object tables.
    let mut tables = Vec::new();
    let mut f10_slots = Vec::new();
    for (type_id, text) in objects {
        let entries = if text.is_some() { 11 } else if *type_id != 0 { 1 } else { 0 };
        let vtable = bytes.len();
        bytes.extend_from_slice(&vec![0; 4 + 2 * entries]);
        let object_length = if text.is_some() { 12 } else if *type_id != 0 { 8 } else { 4 };
        put_u16(&mut bytes, vtable, (4 + 2 * entries) as u16);
        put_u16(&mut bytes, vtable + 2, object_length as u16);
        if entries > 0 {
            put_u16(&mut bytes, vtable + 4, 4);
        }
        if text.is_some() {
            put_u16(&mut bytes, vtable + 4 + 2 * 10, 8);
        }
        align(&mut bytes, 4);
        let table = bytes.len();
        bytes.extend_from_slice(&vec![0; object_length]);
        put_u32(&mut bytes, table, (table - vtable) as u32);
        if entries > 0 {
            put_u32(&mut bytes, table + 4, *type_id);
        }
        tables.push(table);
        f10_slots.push(if text.is_some() { Some(table + 8) } else { None });
    }
    for (index, table) in tables.iter().enumerate() {
        let element = pool + 4 + 4 * index;
        put_u32(&mut bytes, element, (table - element) as u32);
    }
    // Strings.
    let mut strings = Vec::new();
    for ((_, text), slot) in objects.iter().zip(&f10_slots) {
        match (text, slot) {
            (Some(text), Some(slot)) => {
                align(&mut bytes, 4);
                let at = bytes.len();
                bytes.extend_from_slice(&(text.len() as u32).to_le_bytes());
                bytes.extend_from_slice(text.as_bytes());
                bytes.push(0);
                put_u32(&mut bytes, *slot, (at - slot) as u32);
                strings.push(Some(at));
            }
            _ => strings.push(None),
        }
    }
    align(&mut bytes, 4);
    Built { bytes, f10_slots, strings, tables, root_vtable, pool }
}

#[test]
fn a_repeated_patch_object_reference_names_both_indexes() {
    let built = build(&[(0, None), (79, Some("a")), (79, Some("b"))]);
    let mut repeated = built.bytes.clone();
    let element = built.pool + 4 + 4 * 2;
    put_u32(&mut repeated, element, (built.tables[1] - element) as u32);
    assert!(matches!(
        Document::parse(&repeated),
        Err(Error::DuplicatePatchObjectTable { first_index: 1, second_index: 2 })
    ));
}
