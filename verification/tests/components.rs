use zim2waj::content::{compression_hint, read_plan, CompHint, ContentPack, ReadPlan};
use zim2waj::dropper::{DropQueue, Droppable};
use zim2waj::entry::{ZimEntry, ZimEntryKind};
use zim2waj::mime::mime_or_fallback;
use zim2waj::pipeline::{classify, plan_emission, probe_last_byte, warm_up};
use zim2waj::record::{accept_path, strip_leading_separator, Item, Record, RecordKind, Source};

fn item(mime: &str, direct_access: bool, data: Vec<u8>) -> Item {
    Item {
        size: data.len() as u64,
        mime_type: mime.to_string(),
        direct_access,
        data,
    }
}

fn content_record(path: &str, data: Vec<u8>) -> Record {
    Record {
        path: path.to_string(),
        kind: RecordKind::Item {
            item: item("text/plain", false, data),
        },
    }
}

fn redirect_record(path: &str, target: &str) -> Record {
    Record {
        path: path.to_string(),
        kind: RecordKind::Redirect {
            target: target.to_string(),
        },
    }
}

#[test]
fn filter_accepts_the_namespace_markers() {
    for p in ["-/x", "A/x", "C/x", "J/x", "I/x"] {
        assert!(accept_path(p, false), "{p} should pass the filter");
    }
    for p in ["M/x", "X/x", "W/x", "", "a/x"] {
        assert!(!accept_path(p, false), "{p} should not pass the filter");
    }
    for p in ["M/x", "", "anything"] {
        assert!(accept_path(p, true), "{p} should pass with the unified scheme");
    }
}

#[test]
fn filter_and_strip_handle_multibyte_paths() {
    assert!(!accept_path("Ä/x", false));
    assert!(accept_path("Ä/x", true));
    assert_eq!(strip_leading_separator("/é/ü"), "é/ü");
}

#[test]
fn strip_removes_one_leading_separator() {
    assert_eq!(strip_leading_separator("/a/b"), "a/b");
    assert_eq!(strip_leading_separator("a/b"), "a/b");
    assert_eq!(strip_leading_separator("//a"), "/a");
    assert_eq!(strip_leading_separator(""), "");
    assert_eq!(strip_leading_separator("/"), "");
}

#[test]
fn mime_parses_or_falls_back() {
    assert_eq!(mime_or_fallback("text/html"), "text/html");
    assert_eq!(mime_or_fallback("image/png"), "image/png");
    // a declared type that does not parse is coerced, not fatal
    assert_eq!(mime_or_fallback("???"), "application/octet-stream");
    assert_eq!(mime_or_fallback(""), "application/octet-stream");
    assert_eq!(mime_or_fallback("no-slash"), "application/octet-stream");
}

#[test]
fn hint_and_plan_follow_the_threshold() {
    let mib4 = 4 * 1024 * 1024;
    assert_eq!(compression_hint(false, 10), CompHint::Yes);
    assert_eq!(compression_hint(false, mib4 + 1), CompHint::Yes);
    assert_eq!(compression_hint(true, mib4), CompHint::Yes);
    assert_eq!(compression_hint(true, mib4 + 1), CompHint::No);
    assert_eq!(read_plan(true, mib4), ReadPlan::Buffer);
    assert_eq!(read_plan(true, mib4 + 1), ReadPlan::DirectRange);
    assert_eq!(read_plan(false, mib4 + 1), ReadPlan::Buffer);
}

#[test]
fn content_pack_hands_out_monotonic_addresses() {
    let mut pack = ContentPack::new(7);
    let a = pack.add_content(b"one".to_vec(), CompHint::Yes);
    let b = pack.add_content(b"one".to_vec(), CompHint::No);
    assert_eq!(a.pack_id, 7);
    assert_eq!(b.pack_id, 7);
    assert_eq!(a.content_id, 0);
    assert_eq!(b.content_id, 1);
    assert_eq!(pack.contents[0], b"one".to_vec());
    assert_eq!(pack.contents[1], b"one".to_vec());
    assert_eq!(pack.hints, vec![CompHint::Yes, CompHint::No]);
}

#[test]
fn drop_queue_releases_in_submission_order() {
    let mut q = DropQueue::new();
    q.submit(Droppable::Blob(0));
    q.submit(Droppable::Item(0));
    q.submit(Droppable::Entry(1));
    q.submit(Droppable::Item(1));
    assert!(q.released.is_empty());
    q.drain();
    assert!(q.pending.is_empty());
    assert_eq!(
        q.released,
        vec![
            Droppable::Blob(0),
            Droppable::Item(0),
            Droppable::Entry(1),
            Droppable::Item(1)
        ]
    );
}

#[test]
fn warm_up_queues_blob_then_item_for_content_only() {
    let mut q = DropQueue::new();
    let r = content_record("A/a", b"abc".to_vec());
    warm_up(&r, 5, &mut q);
    assert_eq!(q.pending, vec![Droppable::Blob(5), Droppable::Item(5)]);
    let red = redirect_record("A/r", "A/a");
    warm_up(&red, 6, &mut q);
    assert_eq!(q.pending.len(), 2);
}

#[test]
fn probe_touches_the_last_byte() {
    assert_eq!(probe_last_byte(&item("text/plain", false, vec![3, 9])), Some(9));
    assert_eq!(probe_last_byte(&item("text/plain", false, vec![])), None);
}

#[test]
fn entry_conversion_registers_and_queues_parent_first() {
    let mut q = DropQueue::new();
    let mut pack = ContentPack::new(1);
    let r = content_record("/A/a", b"abc".to_vec());
    let e = ZimEntry::new(&r, 9, &mut q, &mut pack);
    assert_eq!(e.path, "A/a");
    assert!(!e.is_main);
    match &e.data {
        ZimEntryKind::Content { address, mime_type } => {
            assert_eq!(address.content_id, 0);
            assert_eq!(mime_type, "text/plain");
        }
        _ => panic!("expected a content entry"),
    }
    assert_eq!(pack.contents[0], b"abc".to_vec());
    // the entry handle is queued before the item handle it owns
    assert_eq!(q.pending, vec![Droppable::Entry(9), Droppable::Item(9)]);
}

#[test]
fn redirect_conversion_strips_the_target() {
    let mut q = DropQueue::new();
    let mut pack = ContentPack::new(1);
    let r = redirect_record("", "/A/main");
    let e = ZimEntry::new(&r, 0, &mut q, &mut pack);
    assert_eq!(e.path, "");
    assert!(e.is_main);
    match &e.data {
        ZimEntryKind::Redirect { target } => assert_eq!(target, "A/main"),
        _ => panic!("expected a redirect entry"),
    }
    assert!(q.pending.is_empty());
    assert!(pack.contents.is_empty());
}

#[test]
fn new_redirect_keeps_its_arguments() {
    let e = ZimEntry::new_redirect("".to_string(), "A/home".to_string(), true);
    assert_eq!(e.path, "");
    assert!(e.is_main);
    match &e.data {
        ZimEntryKind::Redirect { target } => assert_eq!(target, "A/home"),
        _ => panic!("expected a redirect entry"),
    }
}

#[test]
fn kind_and_name_report_the_entry() {
    let e = ZimEntry::new_redirect("A/p".to_string(), "A/q".to_string(), false);
    assert_eq!(e.name(), "A/p");
    match e.kind() {
        ZimEntryKind::Redirect { target } => assert_eq!(target, "A/q"),
        _ => panic!("expected a redirect kind"),
    }
}

#[test]
fn classify_splits_and_keeps_discovery_order() {
    let source = Source {
        records: vec![
            redirect_record("-/r1", "A/a"),
            content_record("A/a", b"a".to_vec()),
            content_record("M/skip", b"m".to_vec()),
            redirect_record("-/r2", "A/a"),
            content_record("C/b", b"b".to_vec()),
        ],
        main_entry_path: "A/a".to_string(),
        new_namespace_scheme: false,
    };
    let (content, redirects) = classify(&source);
    assert_eq!(content, vec![1, 4]);
    assert_eq!(redirects, vec![0, 3]);
}

#[test]
fn emission_plan_covers_content_then_redirects() {
    let mut records = vec![];
    for i in 0..300 {
        records.push(content_record(&format!("A/c{i}"), vec![i as u8]));
    }
    records.push(redirect_record("-/r1", "A/c0"));
    records.push(redirect_record("-/r2", "A/c1"));
    let source = Source {
        records,
        main_entry_path: "A/c0".to_string(),
        new_namespace_scheme: false,
    };
    let plan = plan_emission(&source);
    assert_eq!(plan.len(), 302);
    // the content part is a permutation of the content records
    let mut content_part: Vec<usize> = plan[..300].to_vec();
    content_part.sort();
    let expected: Vec<usize> = (0..300).collect();
    assert_eq!(content_part, expected);
    // the redirect backlog follows, in discovery order
    assert_eq!(&plan[300..], &[300, 301]);
}
