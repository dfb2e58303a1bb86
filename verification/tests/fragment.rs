#![allow(dead_code)]

use std::borrow::Cow;

use zwirn::adls::{Document, NodeKind};
use zwirn::fragment::{
    BaselineHash, BaselineHashError, CanonicalSource, CanonicalSourceError, FragmentPath,
    FragmentPathError, FragmentUpdate, ParseError, ParsedSource, RewriteError,
};

const MODULE: u32 = 0;
const KNOB: u32 = 3;
const CANVAS: u32 = 78;
const DSP: u32 = 79;
const LYTE_DSP: u32 = 82;

const ANGULAR_SMOOTHER_LUA: &str = "local angle = 0\nfunction process(frames)\n  return angle\nend\n";
const ANGULAR_SMOOTHER_LYTE: &str = "var angle: f32\nprocess {\n  out = angle\n}\n";

/// A working patch with marked DSP and Lyte DSP nodes, and unmarked DSP and
/// Canvas nodes.
fn representative() -> Vec<u8> {
    let lua = format!("-- header\n-- @{{ angular_smoother.lua\n{ANGULAR_SMOOTHER_LUA}-- @}} angular_smoother.lua\n");
    let lyte = format!("// @{{ angular_smoother.lyte\n{ANGULAR_SMOOTHER_LYTE}// @}} angular_smoother.lyte\n");
    build(&[
        (MODULE, None),
        (KNOB, None),
        (LYTE_DSP, Some(&lyte)),
        (DSP, Some(&lua)),
        (DSP, Some("-- unmarked dsp\n")),
        (CANVAS, Some("-- unmarked canvas\n")),
    ])
    .bytes
}

#[test]
fn fragment_paths_accept_only_canonical_identity_strings() {
    for valid in ["source.lua", "src/filter/svf.lua", "λ/雪.lyte", "a:b"] {
        let path = FragmentPath::try_from(valid).unwrap();
        assert_eq!(path.as_str(), valid);
        assert_eq!(path.to_string(), valid);
    }

    let invalid = [
        ("", FragmentPathError::Empty),
        ("/source.lua", FragmentPathError::LeadingSlash),
        ("source/", FragmentPathError::TrailingSlash),
        ("source\\file.lua", FragmentPathError::Backslash),
        ("source file.lua", FragmentPathError::Whitespace),
        ("source\u{2003}file.lua", FragmentPathError::Whitespace),
        ("source//file.lua", FragmentPathError::EmptySegment),
        (
            "source/./file.lua",
            FragmentPathError::CurrentDirectorySegment,
        ),
        (
            "source/../file.lua",
            FragmentPathError::ParentDirectorySegment,
        ),
    ];
    for (source, expected) in invalid {
        assert_eq!(FragmentPath::try_from(source), Err(expected), "{source:?}");
    }
}

#[test]
fn canonical_source_normalizes_only_bom_and_line_representation() {
    let cases = [
        ("", ""),
        ("one", "one\n"),
        ("one\n", "one\n"),
        ("one\r\ntwo\rthree", "one\ntwo\nthree\n"),
        ("\r\r\n", "\n\n"),
        ("雪  \t\n\n", "雪  \t\n\n"),
        ("a\0b", "a\0b\n"),
        ("a\u{feff}b", "a\u{feff}b\n"),
    ];
    for (source, expected) in cases {
        let canonical = CanonicalSource::try_from(source).unwrap();
        assert_eq!(canonical.as_str(), expected, "{source:?}");
        assert_eq!(
            CanonicalSource::try_from(canonical.as_str()).unwrap(),
            canonical,
            "canonicalization should be idempotent"
        );
    }

    assert_eq!(
        CanonicalSource::try_from("\u{feff}source"),
        Err(CanonicalSourceError::ByteOrderMark)
    );
    assert_eq!(
        CanonicalSource::try_from(String::from("owned"))
            .unwrap()
            .as_str(),
        "owned\n"
    );
}

#[test]
fn baseline_hash_parses_formats_and_hashes_canonical_bytes() {
    let expected: BaselineHash = "e3b0c44298fc1c14".parse().unwrap();
    let empty = CanonicalSource::try_from("").unwrap();
    assert_eq!(BaselineHash::from_source(&empty), expected);
    assert_eq!(expected.to_string(), "e3b0c44298fc1c14");
    assert_eq!(
        expected.as_bytes(),
        &[0xe3, 0xb0, 0xc4, 0x42, 0x98, 0xfc, 0x1c, 0x14]
    );

    assert_eq!(
        BaselineHash::try_from("e3b0"),
        Err(BaselineHashError::InvalidLength { actual: 4 })
    );
    assert_eq!(
        BaselineHash::try_from("E3b0c44298fc1c14"),
        Err(BaselineHashError::InvalidCharacter { index: 0 })
    );
    assert_eq!(
        BaselineHash::try_from("g3b0c44298fc1c14"),
        Err(BaselineHashError::InvalidCharacter { index: 0 })
    );
}

#[test]
fn parses_each_node_comment_syntax_and_exact_physical_lines() {
    for (kind, comment) in [
        (NodeKind::Canvas, "--"),
        (NodeKind::Dsp, "--"),
        (NodeKind::Shader, "//"),
        (NodeKind::LyteDsp, "//"),
    ] {
        let source = format!(
            "wrong comment // @{{ ignored\n\t{comment}\t@{{\t src/雪.code  \r\nfirst\rsecond\n  {comment}  @}}  src/雪.code\t0123456789abcdef\t"
        );
        let parsed = ParsedSource::parse(kind, &source).unwrap();
        let fragments = parsed.fragments();
        assert_eq!(fragments.len(), 1);
        assert_eq!(fragments[0].path.as_str(), "src/雪.code");
        assert_eq!(fragments[0].source, "first\rsecond\n");
        assert_eq!(
            fragments[0].baseline.unwrap().to_string(),
            "0123456789abcdef"
        );
    }

    let lookalikes = "--@{ joined\n-- @{joined\n// @{ wrong\n-- ordinary @} text\n";
    assert!(
        ParsedSource::parse(NodeKind::Dsp, lookalikes)
            .unwrap()
            .fragments()
            .first()
            .is_none()
    );

    let empty = ParsedSource::parse(NodeKind::Dsp, "-- @{ empty.lua\r-- @} empty.lua").unwrap();
    assert_eq!(empty.fragments().first().unwrap().source, "");
}

#[test]
fn reports_the_first_structural_marker_error_with_line_context() {
    let cases = [
        ("-- @} path.lua", ParseError::OrphanedClosing { line: 1 }),
        (
            "-- @{ first.lua\n-- @{ second.lua\n-- @} second.lua",
            ParseError::NestedOpening {
                line: 2,
                opening_line: 1,
            },
        ),
        (
            "-- @{ first.lua\n-- @} second.lua",
            ParseError::MismatchedClosingPath {
                line: 2,
                opening_line: 1,
                expected: FragmentPath::try_from("first.lua").unwrap(),
                found: FragmentPath::try_from("second.lua").unwrap(),
            },
        ),
        (
            "line one\n-- @{ path.lua",
            ParseError::Unterminated {
                line: 2,
                path: FragmentPath::try_from("path.lua").unwrap(),
            },
        ),
        ("-- @{", ParseError::MissingPath { line: 1 }),
        (
            "-- @{ ../path.lua",
            ParseError::InvalidPath {
                line: 1,
                source: FragmentPathError::ParentDirectorySegment,
            },
        ),
        (
            "-- @{ path.lua hash",
            ParseError::UnexpectedTokens { line: 1 },
        ),
        (
            "-- @{ path.lua\n-- @} path.lua ABCDEF0123456789",
            ParseError::InvalidHash {
                line: 2,
                source: BaselineHashError::InvalidCharacter { index: 0 },
            },
        ),
    ];

    for (source, expected) in cases {
        assert_eq!(
            ParsedSource::parse(NodeKind::Dsp, source).unwrap_err(),
            expected
        );
    }

    let bom = "-- @{ path.lua\n\u{feff}source\n-- @} path.lua";
    assert!(matches!(
        ParsedSource::parse(NodeKind::Dsp, bom),
        Err(ParseError::InvalidFragmentSource {
            line: 2,
            source: CanonicalSourceError::ByteOrderMark,
            ..
        })
    ));
}

#[test]
fn rewrites_multiple_fragments_surgically_in_source_order() {
    let source = [
        "prefix\r\n",
        "  --  @{  first.lua\t\r\n",
        "old first\r\n",
        "  --\t@}\tfirst.lua\t  \r\n",
        "middle\n",
        "-- @{ second.lua\n",
        "old second\n",
        "-- @} second.lua  0000000000000000\t\n",
        "between\n",
        "-- @{ third.lua\n",
        "long old third\n",
        "-- @} third.lua  1111111111111111\n",
        "-- @{ fourth.lua\n",
        "not empty\n",
        "-- @} fourth.lua\n",
        "suffix",
    ]
    .concat();
    let source = source.as_str();
    let parsed = ParsedSource::parse(NodeKind::Dsp, source).unwrap();
    let fragments = parsed.fragments();
    let first = fragments[0].path;
    let second = fragments[1].path;
    let third = fragments[2].path;
    let fourth = fragments[3].path;
    let longer = CanonicalSource::try_from("new second\rline").unwrap();
    let shorter_multibyte = CanonicalSource::try_from("雪").unwrap();
    let empty = CanonicalSource::try_from("").unwrap();

    let rewritten = parsed
        .rewrite(&[
            FragmentUpdate::Replace {
                path: fourth,
                source: &empty,
            },
            FragmentUpdate::Replace {
                path: second,
                source: &longer,
            },
            FragmentUpdate::Record { path: first },
            FragmentUpdate::Replace {
                path: third,
                source: &shorter_multibyte,
            },
        ])
        .unwrap();
    let Cow::Owned(rewritten) = rewritten else {
        panic!("effective updates should produce owned source");
    };
    let first_hash =
        BaselineHash::from_source(&CanonicalSource::try_from("old first\r\n").unwrap());
    let second_hash = BaselineHash::from_source(&longer);
    let third_hash = BaselineHash::from_source(&shorter_multibyte);
    let fourth_hash = BaselineHash::from_source(&empty);
    let expected = [
        "prefix\r\n",
        "  --  @{  first.lua\t\r\n",
        "old first\r\n",
        "  --\t@}\tfirst.lua ",
        &first_hash.to_string(),
        "\t  \r\n",
        "middle\n",
        "-- @{ second.lua\n",
        "new second\nline\n",
        "-- @} second.lua  ",
        &second_hash.to_string(),
        "\t\n",
        "between\n",
        "-- @{ third.lua\n",
        "雪\n",
        "-- @} third.lua  ",
        &third_hash.to_string(),
        "\n",
        "-- @{ fourth.lua\n",
        "-- @} fourth.lua ",
        &fourth_hash.to_string(),
        "\n",
        "suffix",
    ]
    .concat();
    assert_eq!(rewritten, expected);

    let reparsed = ParsedSource::parse(NodeKind::Dsp, &rewritten).unwrap();
    let reparsed_fragments = reparsed.fragments();
    let no_change = reparsed
        .rewrite(&[
            FragmentUpdate::Record {
                path: reparsed_fragments[1].path,
            },
            FragmentUpdate::Record {
                path: reparsed_fragments[0].path,
            },
        ])
        .unwrap();
    assert!(matches!(no_change, Cow::Borrowed(_)));
}

#[test]
fn rewrite_rejects_duplicate_unknown_and_ambiguous_paths() {
    let source = "-- @{ same.lua\none\n-- @} same.lua\n-- @{ same.lua\ntwo\n-- @} same.lua";
    let parsed = ParsedSource::parse(NodeKind::Dsp, source).unwrap();
    let same = FragmentPath::try_from("same.lua").unwrap();
    let unknown = FragmentPath::try_from("unknown.lua").unwrap();

    assert_eq!(
        parsed.rewrite(&[
            FragmentUpdate::Record { path: &same },
            FragmentUpdate::Record { path: &same },
        ]),
        Err(RewriteError::DuplicateUpdate { path: same.clone() })
    );
    assert_eq!(
        parsed.rewrite(&[FragmentUpdate::Record { path: &unknown }]),
        Err(RewriteError::UnknownPath {
            path: unknown.clone(),
        })
    );
    assert_eq!(
        parsed.rewrite(&[FragmentUpdate::Record { path: &same }]),
        Err(RewriteError::AmbiguousPath { path: same })
    );
}

#[test]
fn representative_document_composes_adls_and_fragment_discovery() {
    let bytes = representative();
    let document = Document::parse(&bytes).unwrap();
    let mut discovered = Vec::new();

    for node in document.sources() {
        let parsed = ParsedSource::parse(node.kind, node.source).unwrap();
        for fragment in parsed.fragments() {
            discovered.push((
                fragment.path.as_str().to_owned(),
                node.kind,
                fragment.baseline,
                fragment.source.to_owned(),
            ));
        }
    }
    discovered.sort_by(|left, right| left.0.cmp(&right.0));

    assert_eq!(
        discovered,
        [
            (
                "angular_smoother.lua".to_owned(),
                NodeKind::Dsp,
                None,
                ANGULAR_SMOOTHER_LUA.to_owned(),
            ),
            (
                "angular_smoother.lyte".to_owned(),
                NodeKind::LyteDsp,
                None,
                ANGULAR_SMOOTHER_LYTE.to_owned(),
            ),
        ]
    );
}

#[test]
fn canonicalization_is_idempotent_on_every_line_ending_mix() {
    for source in ["a\r\r\nb", "\r", "x\ny\r", "雪\r\n\r"] {
        let once = CanonicalSource::try_from(source).unwrap();
        let twice = CanonicalSource::try_from(once.as_str()).unwrap();
        assert_eq!(once, twice);
        assert!(!once.as_str().contains('\r'));
        assert!(once.as_str().ends_with('\n'));
    }
}

#[test]
fn hashes_differ_for_different_canonical_sources() {
    let a = BaselineHash::from_source(&CanonicalSource::try_from("a").unwrap());
    let b = BaselineHash::from_source(&CanonicalSource::try_from("b").unwrap());
    assert_ne!(a, b);
    // Canonically equal text hashes equally.
    let crlf = BaselineHash::from_source(&CanonicalSource::try_from("a\r\n").unwrap());
    assert_eq!(a, crlf);
}

// A small FlatBuffer writer for `.audulus4` documents: a root table whose
// `f0` points at the patch-object vector, and one table per patch object
// holding its node type in `f0` and, where given, a string in `f10`.

struct Built {
    bytes: Vec<u8>,
    /// Location of each object's `f10` field, where present.
    f10_slots: Vec<Option<usize>>,
    /// Location of each object's string (its length word), where present.
    strings: Vec<Option<usize>>,
    /// Location of each object's table.
    tables: Vec<usize>,
    /// Location of the root table's vtable.
    root_vtable: usize,
    /// Location of the patch-object vector.
    pool: usize,
}

fn put_u16(bytes: &mut [u8], at: usize, value: u16) {
    bytes[at..at + 2].copy_from_slice(&value.to_le_bytes());
}

fn put_u32(bytes: &mut [u8], at: usize, value: u32) {
    bytes[at..at + 4].copy_from_slice(&value.to_le_bytes());
}

fn align(bytes: &mut Vec<u8>, to: usize) {
    while bytes.len() % to != 0 {
        bytes.push(0);
    }
}

fn build(objects: &[(u32, Option<&str>)]) -> Built {
    let mut bytes = vec![0u8; 8];
    bytes[4..8].copy_from_slice(b"ADLS");
    // Root vtable: one entry (f0 at offset 4); table of eight bytes.
    let root_vtable = bytes.len();
    bytes.extend_from_slice(&[0; 6]);
    put_u16(&mut bytes, root_vtable, 6);
    put_u16(&mut bytes, root_vtable + 2, 8);
    put_u16(&mut bytes, root_vtable + 4, 4);
    align(&mut bytes, 4);
    let root = bytes.len();
    bytes.extend_from_slice(&[0; 8]);
    put_u32(&mut bytes, root, (root - root_vtable) as u32);
    put_u32(&mut bytes, 0, root as u32);
    // The patch-object vector.
    let pool = bytes.len();
    bytes.extend_from_slice(&vec![0; 4 + 4 * objects.len()]);
    put_u32(&mut bytes, pool, objects.len() as u32);
    put_u32(&mut bytes, root + 4, (pool - (root + 4)) as u32);
    // Object tables.
    let mut tables = Vec::new();
    let mut f10_slots = Vec::new();
    for (type_id, text) in objects {
        let entries = if text.is_some() { 11 } else if *type_id != 0 { 1 } else { 0 };
        let vtable = bytes.len();
        bytes.extend_from_slice(&vec![0; 4 + 2 * entries]);
        let object_length = if text.is_some() { 12 } else if *type_id != 0 { 8 } else { 4 };
        put_u16(&mut bytes, vtable, (4 + 2 * entries) as u16);
        put_u16(&mut bytes, vtable + 2, object_length as u16);
        if entries > 0 {
            put_u16(&mut bytes, vtable + 4, 4);
        }
        if text.is_some() {
            put_u16(&mut bytes, vtable + 4 + 2 * 10, 8);
        }
        align(&mut bytes, 4);
        let table = bytes.len();
        bytes.extend_from_slice(&vec![0; object_length]);
        put_u32(&mut bytes, table, (table - vtable) as u32);
        if entries > 0 {
            put_u32(&mut bytes, table + 4, *type_id);
        }
        tables.push(table);
        f10_slots.push(if text.is_some() { Some(table + 8) } else { None });
    }
    for (index, table) in tables.iter().enumerate() {
        let element = pool + 4 + 4 * index;
        put_u32(&mut bytes, element, (table - element) as u32);
    }
    // Strings.
    let mut strings = Vec::new();
    for ((_, text), slot) in objects.iter().zip(&f10_slots) {
        match (text, slot) {
            (Some(text), Some(slot)) => {
                align(&mut bytes, 4);
                let at = bytes.len();
                bytes.extend_from_slice(&(text.len() as u32).to_le_bytes());
                bytes.extend_from_slice(text.as_bytes());
                bytes.push(0);
                put_u32(&mut bytes, *slot, (at - slot) as u32);
                strings.push(Some(at));
            }
            _ => strings.push(None),
        }
    }
    align(&mut bytes, 4);
    Built { bytes, f10_slots, strings, tables, root_vtable, pool }
}

#[test]
fn a_recorded_hash_reads_back_on_the_same_closing_marker() {
    let source = "  //\t@{ a.lyte\nbody\n  //\t@} a.lyte \t\n// @{ b.lyte\nother\n// @} b.lyte 0000000000000000  \n";
    let parsed = ParsedSource::parse(NodeKind::LyteDsp, source).unwrap();
    let fragments = parsed.fragments();
    let a = fragments[0].path.clone();
    let b = fragments[1].path.clone();
    let rewritten = parsed
        .rewrite(&[FragmentUpdate::Record { path: &a }, FragmentUpdate::Record { path: &b }])
        .unwrap();
    let body_hash = BaselineHash::from_source(&CanonicalSource::new("body\n").unwrap());
    let other_hash = BaselineHash::from_source(&CanonicalSource::new("other\n").unwrap());
    let expected = [
        "  //\t@{ a.lyte\nbody\n  //\t@} a.lyte ",
        &body_hash.to_string(),
        " \t\n// @{ b.lyte\nother\n// @} b.lyte ",
        &other_hash.to_string(),
        "  \n",
    ]
    .concat();
    assert_eq!(rewritten, expected);
    let reparsed = ParsedSource::parse(NodeKind::LyteDsp, &rewritten).unwrap();
    let reread = reparsed.fragments();
    assert_eq!(reread.len(), 2);
    assert_eq!(reread[0].path, &a);
    assert_eq!(reread[0].baseline, Some(body_hash));
    assert_eq!(reread[1].path, &b);
    assert_eq!(reread[1].baseline, Some(other_hash));
}

#[test]
fn a_replacement_reads_back_with_its_content_and_hash() {
    let source = "-- top\r\n-- @{ a.lua\r\nold\r\n-- @} a.lua\r\n-- @{ b.lua\nkeep\n-- @} b.lua 0000000000000000\n";
    let parsed = ParsedSource::parse(NodeKind::Dsp, source).unwrap();
    let fragments = parsed.fragments();
    let a = fragments[0].path.clone();
    let b = fragments[1].path.clone();
    let replacement = CanonicalSource::new("new\nlines\n").unwrap();
    let rewritten = parsed
        .rewrite(&[FragmentUpdate::Replace { path: &a, source: &replacement }])
        .unwrap();
    let new_hash = BaselineHash::from_source(&replacement);
    let expected = [
        "-- top\r\n-- @{ a.lua\r\nnew\nlines\n-- @} a.lua ",
        &new_hash.to_string(),
        "\r\n-- @{ b.lua\nkeep\n-- @} b.lua 0000000000000000\n",
    ]
    .concat();
    assert_eq!(rewritten, expected);
    let reparsed = ParsedSource::parse(NodeKind::Dsp, &rewritten).unwrap();
    let reread = reparsed.fragments();
    assert_eq!(reread.len(), 2);
    assert_eq!(reread[0].path, &a);
    assert_eq!(reread[0].baseline, Some(new_hash));
    assert_eq!(reread[0].source, "new\nlines\n");
    assert_eq!(reread[1].path, &b);
    assert_eq!(reread[1].baseline, fragments[1].baseline);
    assert_eq!(reread[1].source, "keep\n");
}

#[test]
fn recording_twice_changes_nothing() {
    let source = "-- @{ a.lua\nbody\r\n-- @} a.lua\n-- @{ b.lua\nother\n-- @} b.lua 0000000000000000\n";
    let parsed = ParsedSource::parse(NodeKind::Dsp, source).unwrap();
    let paths: Vec<FragmentPath> = parsed.fragments().iter().map(|f| f.path.clone()).collect();
    let records: Vec<FragmentUpdate> = paths.iter().map(|path| FragmentUpdate::Record { path }).collect();
    let first = parsed.rewrite(&records).unwrap();
    assert!(matches!(first, Cow::Owned(_)));
    let reparsed = ParsedSource::parse(NodeKind::Dsp, &first).unwrap();
    let second = reparsed.rewrite(&records).unwrap();
    assert!(matches!(second, Cow::Borrowed(s) if s == first.as_ref()));
}

#[test]
fn recording_what_a_rewrite_replaced_changes_nothing() {
    let source = "-- @{ a.lua\nold a\n-- @} a.lua\n-- @{ b.lua\nold b\n-- @} b.lua\n";
    let parsed = ParsedSource::parse(NodeKind::Dsp, source).unwrap();
    let a = FragmentPath::try_from("a.lua").unwrap();
    let b = FragmentPath::try_from("b.lua").unwrap();
    let new_a = CanonicalSource::new("new a\n").unwrap();
    let first = parsed
        .rewrite(&[
            FragmentUpdate::Replace { path: &a, source: &new_a },
            FragmentUpdate::Record { path: &b },
        ])
        .unwrap();
    let reparsed = ParsedSource::parse(NodeKind::Dsp, &first).unwrap();
    let second = reparsed
        .rewrite(&[FragmentUpdate::Record { path: &a }, FragmentUpdate::Record { path: &b }])
        .unwrap();
    assert!(matches!(second, Cow::Borrowed(s) if s == first.as_ref()));
    assert!(matches!(parsed.rewrite(&[]).unwrap(), Cow::Borrowed(s) if s == source));
}
