use watchman::config::{Config, Ignore};
use watchman::cookie::{cookie_file, cookie_path, sync_step, SyncStep};
use watchman::tree::{is_cookie, parse_clock_ticks, Clock, FileInfo, Kind, Metadata, Tree};

fn meta() -> Metadata {
    Metadata {
        is_dir: false,
        is_symlink: false,
        is_file: true,
        is_block_device: false,
        is_char_device: false,
        is_fifo: false,
        is_socket: false,
        len: 3,
        mtime: 77,
        mode: 0o100644,
    }
}

fn dir() -> Metadata {
    Metadata {
        is_dir: true,
        is_file: false,
        ..meta()
    }
}

fn tree() -> Tree {
    let ignore = Ignore::new(b"/r", &Config::default());
    Tree::with_ignore(b"/r".to_vec(), ignore, 42)
}

fn names(files: &[&FileInfo]) -> Vec<String> {
    files.iter().map(|f| f.name.clone()).collect()
}

#[test]
fn kinds_have_letters() {
    let none = Metadata {
        is_file: false,
        ..meta()
    };
    let all = [
        (dir(), Kind::Directory, "d"),
        (
            Metadata {
                is_symlink: true,
                ..none
            },
            Kind::Symlink,
            "l",
        ),
        (meta(), Kind::Regular, "f"),
        (
            Metadata {
                is_block_device: true,
                ..none
            },
            Kind::BlockSpecial,
            "b",
        ),
        (
            Metadata {
                is_char_device: true,
                ..none
            },
            Kind::CharSpecial,
            "c",
        ),
        (
            Metadata {
                is_fifo: true,
                ..none
            },
            Kind::Fifo,
            "p",
        ),
        (
            Metadata {
                is_socket: true,
                ..none
            },
            Kind::Socket,
            "s",
        ),
        (none, Kind::Unknown, "?"),
    ];
    for (m, kind, code) in all {
        assert_eq!(Kind::from_metadata(&m), kind);
        assert_eq!(kind.code(), code);
    }
}

#[test]
fn clocks_tick_and_are_read_back() {
    let mut clock = Clock::new(42);
    assert_eq!(clock.now(), 1);
    assert_eq!(clock.bump(), 2);
    assert_eq!(clock.now(), 2);
    let text = clock.format(2, 1700000000);
    assert_eq!(text, "c:1700000000:42:2");
    assert_eq!(parse_clock_ticks(&text), Some(2));
}

#[test]
fn other_clocks_are_read_or_count_as_none() {
    assert_eq!(parse_clock_ticks("c:1:7"), Some(7));
    assert_eq!(parse_clock_ticks("c:1:2:+9"), Some(9));
    assert_eq!(parse_clock_ticks("c:0:0:0"), Some(0));
    assert_eq!(parse_clock_ticks("c:0:00"), Some(0));
    for s in [
        "c:0:0", "", "c", "c:", "c:1", "d:1:2:3", "c:1:2:3:4", "c:1:2:x", "c:1:2:", "c:1:2:-1",
        "c:1:2:18446744073709551616",
    ] {
        assert_eq!(parse_clock_ticks(s), None, "{s}");
    }
    assert_eq!(
        parse_clock_ticks("c:1:2:18446744073709551615"),
        Some(u64::MAX)
    );
}

#[test]
fn changes_are_recorded_and_found_since() {
    let mut t = tree();
    let before = t.now();
    assert_eq!(t.record_change(b"/r/a", Some(meta())), 2);
    assert_eq!(names(&t.since(before)), ["a"]);
    assert_eq!(t.record_change(b"/r/b/c", Some(dir())), 3);
    assert_eq!(names(&t.since(2)), ["b/c"]);
    assert_eq!(names(&t.since(1)), ["a", "b/c"]);
    assert!(t.since(t.now()).is_empty());

    let a = t.get("a").unwrap();
    assert!(a.exists);
    assert_eq!((a.kind, a.size, a.mtime, a.mode), (Kind::Regular, 3, 77, 0o100644));
    assert_eq!((a.ctick, a.first_tick), (2, 2));

    assert_eq!(t.record_change(b"/r/a", None), 4);
    let a = t.get("a").unwrap();
    assert!(!a.exists);
    assert_eq!((a.kind, a.size), (Kind::Regular, 3));
    assert_eq!((a.ctick, a.first_tick), (4, 2));
    assert_eq!(names(&t.since(3)), ["a"]);

    assert_eq!(t.record_change(b"/r/ghost", None), 5);
    let g = t.get("ghost").unwrap();
    assert!(!g.exists);
    assert_eq!((g.kind, g.size, g.ctick, g.first_tick), (Kind::Unknown, 0, 5, 5));
    assert_eq!(t.files().len(), 3);
}

#[test]
fn names_are_relative_to_the_root() {
    let mut t = tree();
    t.record_change(b"/r//x/./y", Some(meta()));
    t.record_change(b"/elsewhere/z", Some(meta()));
    t.record_change(b"/r", Some(dir()));
    t.record_change(b"/r/back\\slash", Some(meta()));
    t.record_change(b"/r/bad\xff", Some(meta()));
    let all: Vec<&str> = t.files().iter().map(|f| f.name.as_str()).collect();
    assert_eq!(
        all,
        ["x/./y", "/elsewhere/z", "", "back/slash", "bad\u{fffd}"]
    );
}

#[test]
fn a_crawl_enters_what_is_listed() {
    let mut t = tree();
    t.record_change(b"/r/old", Some(meta()));
    let mut crawl = t.crawl();
    assert_eq!(t.now(), 3);
    assert_eq!(crawl.next_dir(), Some(b"/r".to_vec()));
    assert_eq!(crawl.next_dir(), None);
    t.crawl_dir(
        &mut crawl,
        &[
            (b"/r/.git".to_vec(), Some(dir())),
            (b"/r/sub".to_vec(), Some(dir())),
            (b"/r/gone".to_vec(), None),
            (b"/r/old".to_vec(), Some(meta())),
            (b"/r/more".to_vec(), Some(dir())),
        ],
    );
    assert_eq!(crawl.next_dir(), Some(b"/r/more".to_vec()));
    assert_eq!(crawl.next_dir(), Some(b"/r/sub".to_vec()));
    t.crawl_dir(&mut crawl, &[(b"/r/sub/f".to_vec(), Some(meta()))]);
    assert_eq!(crawl.next_dir(), None);
    assert_eq!(
        crawl.finish(),
        [b"/r".to_vec(), b"/r/sub".to_vec(), b"/r/more".to_vec()]
    );
    let all: Vec<&str> = t.files().iter().map(|f| f.name.as_str()).collect();
    assert_eq!(all, ["old", "sub", "more", "sub/f"]);
    assert!(t.files().iter().all(|f| f.ctick == 3));
    assert_eq!(t.get("old").unwrap().first_tick, 2);
    assert_eq!(t.get("sub/f").unwrap().first_tick, 3);
    assert!(t.get(".git").is_none());
}

#[test]
fn a_listing_of_ignored_paths_enters_nothing() {
    let mut t = tree();
    let mut crawl = t.crawl();
    crawl.next_dir();
    t.crawl_dir(&mut crawl, &[(b"/r/.hg".to_vec(), Some(dir()))]);
    assert!(t.files().is_empty());
    assert_eq!(crawl.next_dir(), None);
}

#[test]
fn cookies_are_known_by_name() {
    assert!(is_cookie(".watchman-cookie-1-2-3"));
    assert!(is_cookie("sub/.watchman-cookie-"));
    assert!(!is_cookie(".watchman-cookie"));
    assert!(!is_cookie("x.watchman-cookie-1"));
    assert!(!is_cookie(".watchman-cookie-1/file"));
}

#[test]
fn a_cookie_is_awaited_under_its_name() {
    let name = cookie_file(42, 123456789012345678901234567890, 7);
    assert_eq!(name, ".watchman-cookie-42-123456789012345678901234567890-7");
    assert!(is_cookie(&name));
    let path = cookie_path(b"/r", &name);
    assert_eq!(path, format!("/r/{name}").into_bytes());

    let mut t = tree();
    assert_eq!(sync_step(&t, &name, 10, 50), SyncStep::Wait(40));
    assert_eq!(sync_step(&t, &name, 50, 50), SyncStep::Stop);
    t.record_change(&path, Some(meta()));
    assert_eq!(sync_step(&t, &name, 10, 50), SyncStep::Stop);
    t.record_change(&path, None);
    assert_eq!(sync_step(&t, &name, 10, 50), SyncStep::Wait(40));
}

#[test]
fn a_full_crawl_goes_through_every_directory() {
    let disk = |d: &[u8]| -> Option<Vec<(Vec<u8>, Option<Metadata>)>> {
        let list: &[(&str, Option<Metadata>)] = match d {
            b"/r" => &[
                ("/r/a", Some(dir())),
                ("/r/.git", Some(dir())),
                ("/r/f", Some(meta())),
            ],
            b"/r/a" => &[("/r/a/b", Some(dir())), ("/r/a/g", Some(meta()))],
            b"/r/a/b" => return None,
            b"/r/.git" => &[("/r/.git/config", Some(meta()))],
            _ => &[],
        };
        Some(
            list.iter()
                .map(|(p, m)| (p.as_bytes().to_vec(), *m))
                .collect(),
        )
    };
    let mut t = tree();
    let mut crawl = t.crawl();
    while let Some(d) = crawl.next_dir() {
        if let Some(listing) = disk(&d) {
            t.crawl_dir(&mut crawl, &listing);
        }
    }
    let found = crawl.finish();
    assert_eq!(
        found,
        [b"/r".to_vec(), b"/r/a".to_vec(), b"/r/a/b".to_vec()]
    );
    let tick = t.now();
    for name in ["a", "f", "a/b", "a/g"] {
        let f = t.get(name).unwrap();
        assert!(f.exists);
        assert_eq!(f.ctick, tick);
    }
    assert_eq!(t.files().len(), 4);
}

#[test]
fn the_first_tick_is_that_of_the_first_observation() {
    let mut t = tree();
    let a = t.record_change(b"/r/late", None);
    assert_eq!(t.get("late").unwrap().first_tick, a);
    assert!(!t.get("late").unwrap().ever_seen);
    let b = t.record_change(b"/r/late", Some(meta()));
    assert_eq!(b, a + 1);
    assert_eq!(t.get("late").unwrap().first_tick, b);
    assert!(t.get("late").unwrap().ever_seen);
    t.record_change(b"/r/late", None);
    t.record_change(b"/r/late", Some(meta()));
    assert_eq!(t.get("late").unwrap().first_tick, b);
}

#[test]
fn a_second_crawl_drops_nothing_and_keeps_first_ticks() {
    let mut t = tree();
    let gone = t.record_change(b"/r/gone", Some(meta()));
    let late = t.record_change(b"/r/late", None);
    let before = t.get("gone").unwrap().clone();
    let listing = [
        (b"/r/late".to_vec(), Some(meta())),
        (b"/r/new".to_vec(), Some(meta())),
        (b"/r/unknown".to_vec(), None),
        (b"/r/.hg".to_vec(), Some(dir())),
    ];
    let mut firsts = Vec::new();
    for _ in 0..2 {
        let mut crawl = t.crawl();
        assert_eq!(crawl.next_dir(), Some(b"/r".to_vec()));
        t.crawl_dir(&mut crawl, &listing);
        assert_eq!(crawl.next_dir(), None);
        assert_eq!(crawl.finish(), [b"/r".to_vec()]);
        let all: Vec<&FileInfo> = t.files().iter().collect();
        assert_eq!(names(&all), ["gone", "late", "new"]);
        firsts.push(t.files().iter().map(|f| f.first_tick).collect::<Vec<_>>());
        assert_eq!(t.get("gone").unwrap().ctick, before.ctick);
        assert!(t.get("gone").unwrap().exists);
    }
    assert_eq!(firsts[0], [gone, late + 1, late + 1]);
    assert_eq!(firsts[1], firsts[0]);
}

#[test]
fn no_directory_is_found_twice() {
    let disk = |d: &[u8]| -> Vec<(Vec<u8>, Option<Metadata>)> {
        if d.len() > 8 {
            return Vec::new();
        }
        [&b"a"[..], b"b", b"c"]
            .iter()
            .map(|name| ([d, b"/", name].concat(), Some(dir())))
            .collect()
    };
    let mut t = tree();
    let mut crawl = t.crawl();
    while let Some(d) = crawl.next_dir() {
        let listing = disk(&d);
        t.crawl_dir(&mut crawl, &listing);
    }
    let mut found = crawl.finish();
    let n = found.len();
    assert_eq!(n, 1 + 3 + 9 + 27 + 81);
    assert_eq!(t.files().len(), n - 1);
    found.sort();
    found.dedup();
    assert_eq!(found.len(), n);
}
