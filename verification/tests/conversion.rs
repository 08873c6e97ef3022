use std::collections::HashMap;

use zim2waj::assemble::{ConcatMode, Container};
use zim2waj::convert::Converter;
use zim2waj::content::CompHint;
use zim2waj::entry::ZimEntryKind;
use zim2waj::record::{Item, Record, RecordKind, Source};

fn content_record(path: &str, mime: &str, direct_access: bool, data: Vec<u8>) -> Record {
    Record {
        path: path.to_string(),
        kind: RecordKind::Item {
            item: Item {
                size: data.len() as u64,
                mime_type: mime.to_string(),
                direct_access,
                data,
            },
        },
    }
}

fn redirect_record(path: &str, target: &str) -> Record {
    Record {
        path: path.to_string(),
        kind: RecordKind::Redirect {
            target: target.to_string(),
        },
    }
}

fn convert(source: &Source, mode: ConcatMode) -> Container {
    Converter::new(mode).run(source, "out")
}

/// The logical view of a container: path -> content bytes and mime, or
/// redirect target.
#[derive(PartialEq, Eq, Debug)]
enum Logical {
    Content(Vec<u8>, String),
    Redirect(String),
}

fn logical_map(c: &Container) -> HashMap<String, Logical> {
    let mut m = HashMap::new();
    for e in &c.entries {
        let v = match &e.data {
            ZimEntryKind::Content { address, mime_type } => Logical::Content(
                c.contents[address.content_id as usize].clone(),
                mime_type.clone(),
            ),
            ZimEntryKind::Redirect { target } => Logical::Redirect(target.clone()),
        };
        let old = m.insert(e.path.clone(), v);
        assert!(old.is_none(), "duplicate path in output");
    }
    m
}

#[test]
fn scenario_three_items_one_file() {
    let big = vec![7u8; 5_000_000];
    let source = Source {
        records: vec![
            content_record("A/x.html", "text/html", false, b"0123456789".to_vec()),
            content_record("A/y.png", "image/png", true, big.clone()),
            redirect_record("-/welcome", "A/x.html"),
        ],
        main_entry_path: "A/x.html".to_string(),
        new_namespace_scheme: false,
    };
    let c = convert(&source, ConcatMode::OneFile);

    assert_eq!(c.entries.len(), 4);
    let m = logical_map(&c);
    assert_eq!(
        m.get("A/x.html"),
        Some(&Logical::Content(
            b"0123456789".to_vec(),
            "text/html".to_string()
        ))
    );
    assert_eq!(
        m.get("A/y.png"),
        Some(&Logical::Content(big, "image/png".to_string()))
    );
    assert_eq!(
        m.get("-/welcome"),
        Some(&Logical::Redirect("A/x.html".to_string()))
    );
    // no record carried the empty path, so the root redirect is synthesized
    assert_eq!(m.get(""), Some(&Logical::Redirect("A/x.html".to_string())));

    // the 5 MB direct-access item is marked "do not recompress"
    for e in &c.entries {
        if e.path == "A/y.png" {
            match &e.data {
                ZimEntryKind::Content { address, .. } => {
                    assert_eq!(c.hints[address.content_id as usize], CompHint::No);
                }
                _ => panic!("expected a content entry"),
            }
        }
        if e.path == "A/x.html" {
            match &e.data {
                ZimEntryKind::Content { address, .. } => {
                    assert_eq!(c.hints[address.content_id as usize], CompHint::Yes);
                }
                _ => panic!("expected a content entry"),
            }
        }
    }
}

#[test]
fn invalid_mime_falls_back_to_octet_stream() {
    let source = Source {
        records: vec![content_record("A/blob", "???", false, vec![1, 2, 3])],
        main_entry_path: "A/blob".to_string(),
        new_namespace_scheme: false,
    };
    let c = convert(&source, ConcatMode::OneFile);
    let m = logical_map(&c);
    assert_eq!(
        m.get("A/blob"),
        Some(&Logical::Content(
            vec![1, 2, 3],
            "application/octet-stream".to_string()
        ))
    );
}

#[test]
fn exactly_four_mib_is_buffered_and_compressed() {
    let data = vec![9u8; 4 * 1024 * 1024];
    let source = Source {
        records: vec![content_record("A/edge.bin", "application/zip", true, data)],
        main_entry_path: "A/edge.bin".to_string(),
        new_namespace_scheme: false,
    };
    let c = convert(&source, ConcatMode::OneFile);
    assert_eq!(c.hints.len(), 1);
    // the size must exceed, not merely reach, the threshold to skip compression
    assert_eq!(c.hints[0], CompHint::Yes);
}

#[test]
fn one_mib_over_threshold_with_direct_access_skips_compression() {
    let data = vec![9u8; 4 * 1024 * 1024 + 1];
    let source = Source {
        records: vec![content_record("A/over.bin", "application/zip", true, data)],
        main_entry_path: "A/over.bin".to_string(),
        new_namespace_scheme: false,
    };
    let c = convert(&source, ConcatMode::OneFile);
    assert_eq!(c.hints, vec![CompHint::No]);
}

#[test]
fn exactly_one_root_when_source_has_root_entry() {
    let source = Source {
        records: vec![
            redirect_record("", "doc/home.html"),
            content_record("doc/home.html", "text/html", false, b"<html>".to_vec()),
        ],
        main_entry_path: "doc/home.html".to_string(),
        new_namespace_scheme: true,
    };
    let c = convert(&source, ConcatMode::OneFile);
    let roots: Vec<_> = c.entries.iter().filter(|e| e.path.is_empty()).collect();
    assert_eq!(roots.len(), 1);
    let m = logical_map(&c);
    assert_eq!(
        m.get(""),
        Some(&Logical::Redirect("doc/home.html".to_string()))
    );
}

#[test]
fn leading_separator_is_stripped_from_path_and_target() {
    let source = Source {
        records: vec![
            content_record("/doc/a", "text/plain", false, b"a".to_vec()),
            redirect_record("/doc/b", "/doc/a"),
        ],
        main_entry_path: "doc/a".to_string(),
        new_namespace_scheme: true,
    };
    let c = convert(&source, ConcatMode::OneFile);
    let m = logical_map(&c);
    assert!(m.contains_key("doc/a"));
    assert_eq!(m.get("doc/b"), Some(&Logical::Redirect("doc/a".to_string())));
}

#[test]
fn namespace_filter_drops_foreign_namespaces() {
    let source = Source {
        records: vec![
            content_record("A/page", "text/html", false, b"p".to_vec()),
            content_record("M/meta", "text/plain", false, b"m".to_vec()),
            content_record("X/other", "text/plain", false, b"x".to_vec()),
            redirect_record("-/hi", "A/page"),
        ],
        main_entry_path: "A/page".to_string(),
        new_namespace_scheme: false,
    };
    let c = convert(&source, ConcatMode::OneFile);
    let m = logical_map(&c);
    assert!(m.contains_key("A/page"));
    assert!(m.contains_key("-/hi"));
    assert!(!m.contains_key("M/meta"));
    assert!(!m.contains_key("X/other"));
    // root synthesized on top of the two accepted records
    assert_eq!(c.entries.len(), 3);
}

#[test]
fn unified_namespace_accepts_everything() {
    let source = Source {
        records: vec![
            content_record("M/meta", "text/plain", false, b"m".to_vec()),
            content_record("anything", "text/plain", false, b"x".to_vec()),
        ],
        main_entry_path: "anything".to_string(),
        new_namespace_scheme: true,
    };
    let c = convert(&source, ConcatMode::OneFile);
    let m = logical_map(&c);
    assert!(m.contains_key("M/meta"));
    assert!(m.contains_key("anything"));
}

#[test]
fn content_entries_precede_redirect_entries() {
    let source = Source {
        records: vec![
            redirect_record("-/first", "A/a"),
            content_record("A/a", "text/plain", false, b"a".to_vec()),
            redirect_record("-/second", "A/b"),
            content_record("A/b", "text/plain", false, b"b".to_vec()),
            content_record("A/c", "text/plain", false, b"c".to_vec()),
        ],
        main_entry_path: "A/a".to_string(),
        new_namespace_scheme: false,
    };
    let c = convert(&source, ConcatMode::OneFile);
    let first_redirect = c
        .entries
        .iter()
        .position(|e| matches!(e.data, ZimEntryKind::Redirect { .. }))
        .unwrap();
    for (k, e) in c.entries.iter().enumerate() {
        match e.data {
            ZimEntryKind::Content { .. } => assert!(k < first_redirect),
            ZimEntryKind::Redirect { .. } => assert!(k >= first_redirect),
        }
    }
    // the backlogged redirects keep their discovery order
    let redirect_paths: Vec<_> = c
        .entries
        .iter()
        .filter(|e| matches!(e.data, ZimEntryKind::Redirect { .. }))
        .map(|e| e.path.clone())
        .collect();
    assert_eq!(redirect_paths, vec!["-/first", "-/second", ""]);
}

#[test]
fn converting_twice_gives_the_same_logical_map() {
    let source = Source {
        records: vec![
            content_record("A/a", "text/plain", false, b"alpha".to_vec()),
            content_record("A/b", "text/html", false, b"beta".to_vec()),
            content_record("A/c", "image/png", true, vec![1u8; 64]),
            redirect_record("-/r", "A/a"),
            content_record("C/d", "text/css", false, b"delta".to_vec()),
        ],
        main_entry_path: "A/a".to_string(),
        new_namespace_scheme: false,
    };
    let c1 = convert(&source, ConcatMode::OneFile);
    let c2 = convert(&source, ConcatMode::OneFile);
    assert_eq!(logical_map(&c1), logical_map(&c2));
}

#[test]
fn identical_payloads_are_not_deduplicated() {
    let source = Source {
        records: vec![
            content_record("A/one", "text/plain", false, b"same".to_vec()),
            content_record("A/two", "text/plain", false, b"same".to_vec()),
        ],
        main_entry_path: "A/one".to_string(),
        new_namespace_scheme: false,
    };
    let c = convert(&source, ConcatMode::OneFile);
    // every registration yields a fresh address: two payloads stored
    assert_eq!(c.contents.len(), 2);
    let mut ids = vec![];
    for e in &c.entries {
        if let ZimEntryKind::Content { address, .. } = &e.data {
            ids.push(address.content_id);
        }
    }
    ids.sort();
    assert_eq!(ids, vec![0, 1]);
}

#[test]
fn layout_one_file_embeds_every_pack() {
    let source = Source {
        records: vec![content_record("A/a", "text/plain", false, b"a".to_vec())],
        main_entry_path: "A/a".to_string(),
        new_namespace_scheme: false,
    };
    let c = convert(&source, ConcatMode::OneFile);
    assert_eq!(c.content_pack.locator, "");
    assert_eq!(c.directory_pack.locator, "");
    assert_eq!(c.manifest_pack.locator, "");
}

#[test]
fn layout_two_files_puts_content_beside() {
    let source = Source {
        records: vec![content_record("A/a", "text/plain", false, b"a".to_vec())],
        main_entry_path: "A/a".to_string(),
        new_namespace_scheme: false,
    };
    let c = convert(&source, ConcatMode::TwoFiles);
    assert_eq!(c.content_pack.locator, "out.jbkc");
    assert_eq!(c.directory_pack.locator, "");
    assert_eq!(c.manifest_pack.locator, "");
}

#[test]
fn layout_no_concat_names_every_sibling() {
    let source = Source {
        records: vec![content_record("A/a", "text/plain", false, b"a".to_vec())],
        main_entry_path: "A/a".to_string(),
        new_namespace_scheme: false,
    };
    let c = convert(&source, ConcatMode::NoConcat);
    assert_eq!(c.content_pack.locator, "out.jbkc");
    assert_eq!(c.directory_pack.locator, "out.jbkd");
    assert_eq!(c.manifest_pack.locator, "");
}

#[test]
fn pack_ids_are_distinct_and_addresses_point_at_the_content_pack() {
    let source = Source {
        records: vec![content_record("A/a", "text/plain", false, b"a".to_vec())],
        main_entry_path: "A/a".to_string(),
        new_namespace_scheme: false,
    };
    let c = convert(&source, ConcatMode::OneFile);
    assert_ne!(c.content_pack.pack_id, c.directory_pack.pack_id);
    assert_ne!(c.content_pack.pack_id, c.manifest_pack.pack_id);
    assert_ne!(c.directory_pack.pack_id, c.manifest_pack.pack_id);
    for e in &c.entries {
        if let ZimEntryKind::Content { address, .. } = &e.data {
            assert_eq!(address.pack_id, c.content_pack.pack_id);
        }
    }
}

#[test]
fn empty_source_still_gets_a_root() {
    let source = Source {
        records: vec![],
        main_entry_path: "A/home".to_string(),
        new_namespace_scheme: false,
    };
    let c = convert(&source, ConcatMode::OneFile);
    assert_eq!(c.entries.len(), 1);
    let m = logical_map(&c);
    assert_eq!(m.get(""), Some(&Logical::Redirect("A/home".to_string())));
    assert_eq!(c.contents.len(), 0);
}
