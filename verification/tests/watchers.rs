use watchman::config::{Config, Ignore};
use watchman::fanotify::{decode_event, event_path, read_events, Order};
use watchman::fsevents::events_batch;
use watchman::tree::{Metadata, Tree};
use watchman::watcher::{batch, spawn, watcher_name, Backend, Batch, Platform, RootState};
use watchman::windows_watcher::{read_entries, read_outcome, ReadOutcome};

fn meta() -> Metadata {
    Metadata {
        is_dir: false,
        is_symlink: false,
        is_file: true,
        is_block_device: false,
        is_char_device: false,
        is_fifo: false,
        is_socket: false,
        len: 0,
        mtime: 0,
        mode: 0,
    }
}

fn changed(b: Batch) -> Option<Vec<Vec<u8>>> {
    match b {
        Batch::Recrawl => None,
        Batch::Changed(paths) => Some(paths),
    }
}

#[test]
fn platforms_have_their_backends() {
    assert_eq!(watcher_name(Platform::Linux), "inotify");
    assert_eq!(watcher_name(Platform::MacOs), "fsevents");
    assert_eq!(watcher_name(Platform::Windows), "win32");
    assert_eq!(watcher_name(Platform::Other), "poll");
    assert_eq!(spawn(Platform::Linux), Backend::Fanotify);
    assert_eq!(spawn(Platform::MacOs), Backend::FsEvents);
    assert_eq!(spawn(Platform::Windows), Backend::DirectoryChanges);
    assert_eq!(spawn(Platform::Other), Backend::Polling);
}

#[test]
fn batches_are_applied_without_what_is_ignored() {
    let ignore = Ignore::new(b"/r", &Config::default());
    let mut state = RootState::new(Tree::with_ignore(b"/r".to_vec(), ignore, 1));
    state.apply(&[
        (b"/r/a".to_vec(), Some(meta())),
        (b"/r/.git".to_vec(), Some(meta())),
        (b"/r/b".to_vec(), None),
        (b"/r/a".to_vec(), Some(meta())),
    ]);
    assert_eq!(state.tree().now(), 4);
    let all: Vec<(&str, u64, bool)> = state
        .tree()
        .files()
        .iter()
        .map(|f| (f.name.as_str(), f.ctick, f.exists))
        .collect();
    assert_eq!(all, [("a", 4, true), ("b", 3, false)]);
    state.tree_mut().record_change(b"/r/c", Some(meta()));
    assert_eq!(state.tree().now(), 5);
    state.apply(&[
        (b"/r/.hg".to_vec(), None),
        (b"/r/x/.svn".to_vec(), Some(meta())),
        (b"/r/.git/HEAD".to_vec(), Some(meta())),
        (b"/r/x/.git/refs/heads".to_vec(), Some(meta())),
    ]);
    assert_eq!(state.tree().now(), 5);
    assert_eq!(state.tree().files().len(), 3);
}

#[test]
fn lost_events_ask_for_a_crawl() {
    assert_eq!(changed(batch(true, vec![b"/x".to_vec()])), None);
    assert_eq!(
        changed(batch(false, vec![b"/x".to_vec()])),
        Some(vec![b"/x".to_vec()])
    );
}

fn event(mask: u64, records: &[u8]) -> Vec<u8> {
    let mut e = Vec::new();
    e.extend_from_slice(&(24 + records.len() as u32).to_le_bytes());
    e.push(3);
    e.push(0);
    e.extend_from_slice(&24u16.to_le_bytes());
    e.extend_from_slice(&mask.to_le_bytes());
    e.extend_from_slice(&(-1i32).to_le_bytes());
    e.extend_from_slice(&7i32.to_le_bytes());
    e.extend_from_slice(records);
    e
}

fn record(info_type: u8, handle: &[u8], name: &[u8]) -> Vec<u8> {
    let len = 4 + 8 + 8 + handle.len() + name.len();
    let mut r = vec![info_type, 0];
    r.extend_from_slice(&(len as u16).to_le_bytes());
    r.extend_from_slice(&[9; 8]);
    r.extend_from_slice(&(handle.len() as u32).to_le_bytes());
    r.extend_from_slice(&(-2i32).to_le_bytes());
    r.extend_from_slice(handle);
    r.extend_from_slice(name);
    r
}

#[test]
fn events_of_fanotify_are_read() {
    let mut buf = event(0x100, &record(2, &[1, 2, 3], b"file\0pad"));
    buf.extend(event(0x2, &[1, 0, 4, 0]));
    let mut two = vec![1, 0, 6, 0, 5, 5];
    two.extend(record(2, &[], b".\0"));
    buf.extend(event(0x2, &two));
    let (lost, handles) = read_events(&buf, Order::Little);
    assert!(!lost);
    assert_eq!(handles.len(), 2);
    assert_eq!(handles[0].handle_type, -2);
    assert_eq!(handles[0].bytes, [1, 2, 3]);
    assert_eq!(handles[0].name, "file");
    assert_eq!(handles[1].bytes, []);
    assert_eq!(handles[1].name, ".");

    buf.extend(event(0x4000, &[]));
    let (lost, handles) = read_events(&buf, Order::Little);
    assert!(lost);
    assert_eq!(handles.len(), 2);
}

#[test]
fn truncated_events_end_a_batch() {
    let good = event(0x100, &record(2, &[1], b"a\0"));
    let mut buf = good.clone();
    buf.extend_from_slice(&good[..30]);
    assert_eq!(read_events(&buf, Order::Little).1.len(), 1);
    let mut short = good.clone();
    short[0] = 23;
    assert_eq!(read_events(&short, Order::Little).1.len(), 0);
    assert_eq!(read_events(&[], Order::Little).1.len(), 0);
}

#[test]
fn records_of_fanotify_that_do_not_fit_are_dropped() {
    let e = event(0, &record(2, &[0; 129], b"a\0"));
    assert!(decode_event(&e, 24, Order::Little).is_none());
    let e = event(0, &record(2, &[0; 128], b"a\0"));
    assert_eq!(decode_event(&e, 24, Order::Little).unwrap().bytes.len(), 128);
    assert!(decode_event(&e, 5000, Order::Little).is_none());
    let mut e = event(0, &record(2, &[1], b"a\0"));
    e[26] = 0;
    assert!(decode_event(&e, 24, Order::Little).is_none());
    for name in [&b"open"[..], b""] {
        let e = event(0, &record(2, &[1], name));
        assert!(decode_event(&e, 24, Order::Little).is_none());
    }
    let e = event(0, &record(2, &[1], b"\0"));
    assert_eq!(decode_event(&e, 24, Order::Little).unwrap().name, "");
    let e = event(0, &record(2, &[1], b"bad\xff\0"));
    assert_eq!(
        decode_event(&e, 24, Order::Little).unwrap().name,
        "bad\u{fffd}"
    );
}

#[test]
fn numbers_of_fanotify_follow_the_order_of_bytes() {
    let mut e = vec![0; 24];
    e.extend_from_slice(&[2, 0, 0, 23]);
    e.extend_from_slice(&[0; 8]);
    e.extend_from_slice(&[0, 0, 0, 1]);
    e.extend_from_slice(&[0, 0, 1, 2]);
    e.extend_from_slice(&[7, b'x', 0]);
    let h = decode_event(&e, 24, Order::Big).unwrap();
    assert_eq!(h.handle_type, 0x102);
    assert_eq!(h.bytes, [7]);
    assert_eq!(h.name, "x");
}

#[test]
fn events_outside_the_root_are_dropped() {
    assert_eq!(event_path(b"/r/d", "f", b"/r"), Some(b"/r/d/f".to_vec()));
    assert_eq!(event_path(b"/r", "", b"/r"), Some(b"/r".to_vec()));
    assert_eq!(event_path(b"/r/d", ".", b"/r"), Some(b"/r/d".to_vec()));
    assert_eq!(event_path(b"/rx", "f", b"/r"), None);
    assert_eq!(event_path(b"/", "r", b"/r"), Some(b"/r".to_vec()));
}

#[test]
fn events_of_macos_are_batched() {
    let events = [
        (0x100, Some(b"/r/a".to_vec())),
        (0, None),
        (0x1000, Some(b"/r/\xff".to_vec())),
    ];
    assert_eq!(
        changed(events_batch(&events)),
        Some(vec![b"/r/a".to_vec(), "/r/\u{fffd}".as_bytes().to_vec()])
    );
    for flag in [1, 2, 4, 7, 0x101] {
        let lost = [(0, Some(b"/r/a".to_vec())), (flag, Some(b"/r".to_vec()))];
        assert_eq!(changed(events_batch(&lost)), None);
    }
    assert_eq!(changed(events_batch(&[])), Some(vec![]));
}

fn entry(next: u32, action: u32, name: &[u16]) -> Vec<u8> {
    let mut e = Vec::new();
    e.extend_from_slice(&next.to_le_bytes());
    e.extend_from_slice(&action.to_le_bytes());
    e.extend_from_slice(&(2 * name.len() as u32).to_le_bytes());
    for u in name {
        e.extend_from_slice(&u.to_le_bytes());
    }
    while e.len() % 4 != 0 || e.len() < 16 {
        e.push(0);
    }
    e
}

#[test]
fn entries_of_windows_are_read() {
    let a: Vec<u16> = "dir\\a".encode_utf16().collect();
    let b = vec![0xd800, 0x41];
    let mut buf = Vec::new();
    let first = entry(0, 1, &a).len() as u32;
    buf.extend(entry(first, 1, &a));
    buf.extend(entry(16, 9, &[0x42]));
    buf.extend(entry(0, 5, &b));
    buf.extend(entry(0, 1, &a));
    assert_eq!(read_entries(&buf), [a.clone(), b]);
    assert!(read_entries(&[]).is_empty());
    let mut long = entry(0, 1, &a);
    long[8] = 0xff;
    assert!(read_entries(&long).is_empty());
    assert_eq!(read_entries(&entry(9999, 3, &a)), [a]);
}

#[test]
fn reads_of_windows_end_in_three_ways() {
    assert_eq!(read_outcome(true, None, 8), ReadOutcome::Entries);
    assert_eq!(read_outcome(true, None, 0), ReadOutcome::Recrawl);
    assert_eq!(read_outcome(false, Some(1022), 8), ReadOutcome::Recrawl);
    assert_eq!(read_outcome(false, Some(5), 8), ReadOutcome::Stop);
    assert_eq!(read_outcome(false, None, 0), ReadOutcome::Stop);
}

#[test]
fn only_names_behind_the_root_are_passed_over() {
    let ignore = Ignore::new(b"/.git/r", &Config::default());
    assert!(!ignore.passes_over(b"/.git/r", b"/.git/r/a"));
    assert!(ignore.passes_over(b"/.git/r", b"/.git/r/.git/HEAD"));
    assert!(ignore.passes_over(b"/.git/r", b"/.git/r/.hg"));
    assert!(!ignore.passes_over(b"/.git/r", b"/elsewhere/.git/HEAD"));
    let mut state = RootState::new(Tree::with_ignore(b"/.git/r".to_vec(), ignore, 1));
    state.apply(&[
        (b"/.git/r/a".to_vec(), Some(meta())),
        (b"/.git/r/.svn/x".to_vec(), Some(meta())),
    ]);
    assert_eq!(state.tree().files().len(), 1);
    assert!(state.tree().passes_over(b"/.git/r/.svn/x"));
}

#[test]
fn what_changed_since_a_clock_is_what_a_batch_reports() {
    let ignore = Ignore::new(b"/r", &Config::default());
    let mut state = RootState::new(Tree::with_ignore(b"/r".to_vec(), ignore, 1));
    state.apply(&[
        (b"/r/a".to_vec(), Some(meta())),
        (b"/r/b".to_vec(), Some(meta())),
    ]);
    let clock = state.tree().now();
    assert!(state.tree().since(clock).is_empty());
    state.apply(&[
        (b"/r/c".to_vec(), Some(meta())),
        (b"/r/.git/index".to_vec(), Some(meta())),
        (b"/r/a".to_vec(), None),
        (b"/r/c".to_vec(), Some(meta())),
    ]);
    let found: Vec<&str> = state
        .tree()
        .since(clock)
        .iter()
        .map(|f| f.name.as_str())
        .collect();
    assert_eq!(found, ["a", "c"]);
}
