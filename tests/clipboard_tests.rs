use zlaunch::clipboard::content::{hash_of, ClipboardContent};
use zlaunch::clipboard::history::{ClipboardHistory, HistoryFilter};
use zlaunch::text::bytes_occur;
use zlaunch::clipboard::monitor::{pick, to_content, ClipboardMonitor, RawKind, RawPayload, TickOutcome};
use zlaunch::clipboard::persist::{
    capped_content, decode_file, encode_file, load, save, PersistedItem, SCHEMA_VERSION,
};

fn text(s: &str) -> ClipboardContent {
    ClipboardContent::Text(s.to_string())
}

fn image(bytes: Vec<u8>) -> ClipboardContent {
    ClipboardContent::Image { bytes, width: 2, height: 3, format: "png".to_string() }
}

fn files(paths: &[&str]) -> ClipboardContent {
    ClipboardContent::Files(paths.iter().map(|p| p.to_string()).collect())
}

fn texts(h: &ClipboardHistory) -> Vec<String> {
    (0..h.len())
        .map(|i| match &h.get(i).content {
            ClipboardContent::Text(s) => s.clone(),
            other => format!("{:?}", other),
        })
        .collect()
}

#[test]
fn scenario_hello_world_third() {
    let mut h = ClipboardHistory::new(50);
    assert_eq!(h.insert_or_touch(text("hello"), 100), 1);
    assert_eq!(h.len(), 1);
    assert_eq!(h.insert_or_touch(text("hello"), 200), 1);
    assert_eq!(h.len(), 1);
    assert_eq!(h.get(0).created_at, 100);
    assert_eq!(h.get(0).last_seen_at, 200);
    assert_eq!(h.insert_or_touch(text("world"), 300), 2);
    assert_eq!(texts(&h), vec!["world", "hello"]);
    h.set_capacity(1);
    assert_eq!(h.insert_or_touch(text("third"), 400), 3);
    assert_eq!(texts(&h), vec!["third"]);
}

#[test]
fn eviction_removes_least_recently_used_first() {
    let mut h = ClipboardHistory::new(2);
    h.insert_or_touch(text("a"), 1);
    h.insert_or_touch(text("b"), 2);
    h.insert_or_touch(text("a"), 3);
    h.insert_or_touch(text("c"), 4);
    assert_eq!(texts(&h), vec!["c", "a"]);
}

#[test]
fn scenario_pinned_survives_zero_capacity() {
    let mut h = ClipboardHistory::new(1);
    let id = h.insert_or_touch(text("keep"), 1);
    assert!(h.pin(id));
    h.set_capacity(0);
    let new_id = h.insert_or_touch(text("new"), 2);
    assert_eq!(new_id, 2);
    assert_eq!(h.len(), 1);
    assert_eq!(h.get(0).id, id);
    assert!(h.get(0).pinned);
}

#[test]
fn pinned_entries_exempt_from_capacity() {
    let mut h = ClipboardHistory::new(1);
    let a = h.insert_or_touch(text("a"), 1);
    assert!(h.pin(a));
    h.insert_or_touch(text("b"), 2);
    h.insert_or_touch(text("c"), 3);
    assert_eq!(texts(&h), vec!["c", "a"]);
    assert!(h.unpin(a));
    h.insert_or_touch(text("d"), 4);
    assert_eq!(texts(&h), vec!["d"]);
}

#[test]
fn touching_front_keeps_length() {
    let mut h = ClipboardHistory::new(10);
    h.insert_or_touch(text("x"), 1);
    h.insert_or_touch(text("y"), 2);
    assert_eq!(h.insert_or_touch(text("y"), 3), 2);
    assert_eq!(h.len(), 2);
    assert_eq!(h.get(0).last_seen_at, 3);
    assert_eq!(h.get(1).last_seen_at, 1);
}

#[test]
fn kinds_with_same_bytes_are_distinct() {
    let mut h = ClipboardHistory::new(10);
    h.insert_or_touch(text("/tmp/a"), 1);
    h.insert_or_touch(files(&["/tmp/a"]), 2);
    assert_eq!(h.len(), 2);
    assert_ne!(hash_of(&text("/tmp/a")), hash_of(&files(&["/tmp/a"])));
    assert_ne!(hash_of(&files(&["ab"])), hash_of(&files(&["a", "b"])));
    assert_eq!(hash_of(&image(vec![1, 2])), hash_of(&image(vec![1, 2])));
}

#[test]
fn pin_unpin_remove_unknown_ids() {
    let mut h = ClipboardHistory::new(10);
    let a = h.insert_or_touch(text("a"), 1);
    assert!(!h.pin(99));
    assert!(!h.unpin(99));
    assert!(!h.remove(99));
    assert!(h.pin(a));
    assert!(h.remove(a));
    assert_eq!(h.len(), 0);
}

#[test]
fn clear_unpinned_keeps_pinned_in_order() {
    let mut h = ClipboardHistory::new(10);
    let a = h.insert_or_touch(text("a"), 1);
    h.insert_or_touch(text("b"), 2);
    let c = h.insert_or_touch(text("c"), 3);
    h.pin(a);
    h.pin(c);
    h.clear_unpinned();
    assert_eq!(texts(&h), vec!["c", "a"]);
}

#[test]
fn snapshot_filters() {
    let mut h = ClipboardHistory::new(10);
    h.insert_or_touch(text("hello world"), 1);
    h.insert_or_touch(image(vec![9]), 2);
    h.insert_or_touch(text("goodbye"), 3);
    let id = h.insert_or_touch(files(&["/x"]), 4);
    h.pin(id);
    assert_eq!(h.snapshot(&HistoryFilter::All).len(), 4);
    assert_eq!(h.snapshot(&HistoryFilter::Text).len(), 2);
    assert_eq!(h.snapshot(&HistoryFilter::Images).len(), 1);
    assert_eq!(h.snapshot(&HistoryFilter::Files).len(), 1);
    assert_eq!(h.snapshot(&HistoryFilter::Pinned)[0].id, id);
    let found = h.snapshot(&HistoryFilter::TextContains("wor".to_string()));
    assert_eq!(found.len(), 1);
    assert_eq!(found[0].content, text("hello world"));
    assert!(h.snapshot(&HistoryFilter::TextContains("xyz".to_string())).is_empty());
}

#[test]
fn byte_runs() {
    assert!(bytes_occur(b"abcdef", b"cde"));
    assert!(bytes_occur(b"abc", b""));
    assert!(!bytes_occur(b"abc", b"abcd"));
    assert!(!bytes_occur(b"abcabd", b"abe"));
}

#[test]
fn save_load_round_trip() {
    let mut h = ClipboardHistory::new(10);
    let a = h.insert_or_touch(text("héllo"), 5);
    h.insert_or_touch(image(vec![1, 2, 3]), 6);
    h.insert_or_touch(files(&["/a", "/b c"]), 7);
    h.pin(a);
    let bytes = save(&h, 1000);
    let back = load(&bytes, 10);
    assert_eq!(back.len(), 3);
    for i in 0..3 {
        assert_eq!(back.get(i).content, h.get(i).content);
        assert_eq!(back.get(i).pinned, h.get(i).pinned);
        assert_eq!(back.get(i).created_at, h.get(i).created_at);
        assert_eq!(back.get(i).last_seen_at, h.get(i).last_seen_at);
    }
    assert_eq!(back.get(0).id, 3);
    assert_eq!(back.get(2).id, 1);
    assert_eq!(back.next_id(), 4);
}

#[test]
fn save_caps_oversized_payloads() {
    assert_eq!(capped_content(&text("abcdef"), 3), text("abc"));
    assert_eq!(capped_content(&text("abc"), 3), text("abc"));
    assert_eq!(capped_content(&image(vec![1, 2, 3, 4]), 3), image(vec![]));
    assert_eq!(capped_content(&files(&["/ab", "/cd"]), 5), files(&[]));
    assert_eq!(capped_content(&files(&["/ab", "/cd"]), 6), files(&["/ab", "/cd"]));
}

#[test]
fn load_newer_schema_is_empty() {
    let mut h = ClipboardHistory::new(10);
    h.insert_or_touch(text("a"), 1);
    let mut bytes = save(&h, 100);
    let next = (SCHEMA_VERSION + 1).to_le_bytes();
    bytes[..4].copy_from_slice(&next);
    assert_eq!(load(&bytes, 10).len(), 0);
    assert_eq!(load(&[], 10).len(), 0);
}

#[test]
fn load_skips_corrupt_and_stops_at_truncated() {
    let good = PersistedItem { content: text("ok"), created_at: 1, last_seen_at: 2, pinned: true };
    let bad = PersistedItem { content: text("zz"), created_at: 1, last_seen_at: 2, pinned: false };
    let mut bytes = encode_file(&vec![bad, good]);
    // The first record's body starts after the version (4) and its length (8);
    // an unknown kind makes it corrupt.
    bytes[12] = 7;
    let recs = decode_file(&bytes);
    assert_eq!(recs.len(), 1);
    assert_eq!(recs[0].content, text("ok"));
    assert!(recs[0].pinned);
    let cut = &bytes[..bytes.len() - 1];
    assert_eq!(decode_file(cut).len(), 0);
}

#[test]
fn load_keeps_first_of_duplicates() {
    let a = PersistedItem { content: text("same"), created_at: 1, last_seen_at: 9, pinned: false };
    let b = PersistedItem { content: text("same"), created_at: 2, last_seen_at: 3, pinned: true };
    let bytes = encode_file(&vec![a, b]);
    let h = load(&bytes, 10);
    assert_eq!(h.len(), 1);
    assert_eq!(h.get(0).last_seen_at, 9);
}

fn raw(kind: RawKind, bytes: &[u8]) -> RawPayload {
    RawPayload { kind, bytes: bytes.to_vec() }
}

#[test]
fn raw_payload_conversion() {
    assert_eq!(to_content(&raw(RawKind::Text, b"hi")), Some(text("hi")));
    assert_eq!(to_content(&raw(RawKind::Text, b"")), None);
    assert_eq!(to_content(&raw(RawKind::Text, &[0xff, 0xfe])), None);
    assert_eq!(to_content(&raw(RawKind::Other, b"hi")), None);
    assert_eq!(
        to_content(&raw(RawKind::FileList, b"file:///a/b\r\n\n/c d\n")),
        Some(files(&["/a/b", "/c d"]))
    );
    assert_eq!(to_content(&raw(RawKind::FileList, b"\n\r\n")), None);
    let img = RawKind::Image { width: 2, height: 3, format: "png".to_string() };
    assert_eq!(to_content(&raw(img, &[1, 2])), Some(image(vec![1, 2])));
}

#[test]
fn text_wins_over_other_representations() {
    let img = RawKind::Image { width: 2, height: 3, format: "png".to_string() };
    let reps = vec![raw(RawKind::FileList, b"/x"), raw(img, &[5]), raw(RawKind::Text, b"t")];
    assert_eq!(pick(&reps), Some(text("t")));
    let reps = vec![raw(RawKind::FileList, b"/x"), raw(RawKind::Text, b"")];
    assert_eq!(pick(&reps), Some(files(&["/x"])));
    assert_eq!(pick(&vec![]), None);
}

#[test]
fn monitor_ticks() {
    let mut m = ClipboardMonitor::new();
    let mut h = ClipboardHistory::new(10);
    let reading = vec![raw(RawKind::Text, b"one")];
    assert_eq!(m.on_tick(&mut h, &vec![], 1), TickOutcome::Skipped);
    assert_eq!(m.on_tick(&mut h, &reading, 2), TickOutcome::Ingested(1));
    assert_eq!(m.on_tick(&mut h, &reading, 3), TickOutcome::Unchanged);
    assert_eq!(h.len(), 1);
    m.note_self_write(&text("two"));
    assert_eq!(m.on_tick(&mut h, &vec![raw(RawKind::Text, b"two")], 4), TickOutcome::Unchanged);
    assert_eq!(h.len(), 1);
    assert_eq!(m.on_tick(&mut h, &vec![raw(RawKind::Text, b"three")], 5), TickOutcome::Ingested(2));
    m.cancel();
    assert_eq!(m.on_tick(&mut h, &reading, 6), TickOutcome::Stopped);
    assert_eq!(h.len(), 2);
}

#[test]
fn approximate_sizes() {
    assert_eq!(text("héllo").approx_size(), 6);
    assert_eq!(image(vec![1, 2, 3]).approx_size(), 6);
    assert_eq!(files(&["/a", "/bc"]).approx_size(), 5);
}
