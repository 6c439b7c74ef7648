use std::path::Path;

use watchman::paths::{
    file_name, is_absolute, join, parent, pid_path, sock_path, starts_with, state_dir,
    strip_prefix, temp_dir, user_name, Environment, System,
};

fn nothing_set(system: System) -> Environment {
    Environment {
        system,
        user: None,
        logname: None,
        username: None,
        tmpdir: None,
        temp: None,
        tmp: None,
    }
}

#[test]
fn paths_are_joined() {
    assert_eq!(join(b"/a", b"b"), b"/a/b");
    assert_eq!(join(b"/a/", b"b"), b"/a/b");
    assert_eq!(join(b"", b"b"), b"b");
    assert_eq!(join(b"/a", b"/b"), b"/b");
    assert_eq!(join(b"a", b""), b"a/");
    assert!(is_absolute(b"/"));
    assert!(!is_absolute(b"a/"));
    assert!(!is_absolute(b""));
}

#[test]
fn paths_are_split_as_the_standard_library_splits_them() {
    let samples = [
        "", "/", "//", ".", "./", "./a", "a/./b", "/a//b/./c/", "..", "../x", "/..", "a/.", "/a/.",
        "a", "a/", "/a", "//a", "a//b", "./.", "/./a",
    ];
    for s in samples {
        let p = Path::new(s);
        assert_eq!(
            file_name(s.as_bytes()),
            p.file_name().map(|n| n.as_encoded_bytes()),
            "{s:?}"
        );
        assert_eq!(
            parent(s.as_bytes()),
            p.parent().map(|n| n.as_os_str().as_encoded_bytes().to_vec()),
            "{s:?}"
        );
        for t in samples {
            let q = Path::new(t);
            assert_eq!(
                starts_with(s.as_bytes(), t.as_bytes()),
                p.starts_with(q),
                "{s:?} {t:?}"
            );
            assert_eq!(
                strip_prefix(s.as_bytes(), t.as_bytes()),
                p.strip_prefix(q)
                    .ok()
                    .map(|r| r.as_os_str().as_encoded_bytes().to_vec()),
                "{s:?} {t:?}"
            );
            assert_eq!(
                join(s.as_bytes(), t.as_bytes()),
                p.join(q).as_os_str().as_encoded_bytes(),
                "{s:?} {t:?}"
            );
        }
    }
}

#[test]
fn a_joined_name_is_left_behind_its_directory() {
    for dir in [&b"/r"[..], b"/", b"", b"a/b/", b"./x"] {
        let p = join(dir, b"name");
        assert!(starts_with(&p, dir));
        assert_eq!(strip_prefix(&p, dir), Some(b"name".to_vec()));
        assert_eq!(file_name(&p), Some(&b"name"[..]));
    }
}

#[test]
fn files_lie_in_a_directory_for_each_user() {
    let mut env = nothing_set(System::Unix);
    assert_eq!(user_name(&env), "unknown");
    assert_eq!(temp_dir(&env), "/tmp");
    assert_eq!(state_dir(&env), b"/tmp/watchman-rs-unknown");
    assert_eq!(sock_path(&env), b"/tmp/watchman-rs-unknown/sock");
    assert_eq!(pid_path(&env), b"/tmp/watchman-rs-unknown/pid");
    env.logname = Some("log".into());
    assert_eq!(state_dir(&env), b"/tmp/watchman-rs-log");
    env.user = Some("me".into());
    env.tmpdir = Some("/var/t/".into());
    assert_eq!(sock_path(&env), b"/var/t/watchman-rs-me/sock");
}

#[test]
fn windows_has_its_own_variables() {
    let mut env = nothing_set(System::Windows);
    env.user = Some("unix".into());
    env.tmpdir = Some("/unix".into());
    assert_eq!(
        sock_path(&env),
        b"C:\\Windows\\Temp\\watchman-rs-unknown\\sock"
    );
    env.username = Some("me".into());
    env.tmp = Some("D:\\t\\".into());
    assert_eq!(state_dir(&env), b"D:\\t\\watchman-rs-me");
    env.temp = Some("E:".into());
    assert_eq!(state_dir(&env), b"E:watchman-rs-me");
}

#[test]
fn what_is_left_of_a_path_leads_back_to_it() {
    let cases: [(&[u8], &[u8]); 9] = [
        (b"/a/b/c", b"/a"),
        (b"/a//b/./c/", b"/a/"),
        (b"/a/b", b"/"),
        (b"/a/b", b"/a/b"),
        (b"/a/b/.", b"/a/./b/"),
        (b"a/b", b""),
        (b"./a/b", b"."),
        (b"a/../b", b"a"),
        (b"", b""),
    ];
    for (path, base) in cases {
        let rest = strip_prefix(path, base).unwrap();
        let again = join(base, &rest);
        let split = |p: &[u8]| -> Vec<String> {
            Path::new(std::str::from_utf8(p).unwrap())
                .components()
                .map(|c| format!("{c:?}"))
                .collect()
        };
        assert_eq!(split(&again), split(path));
    }
}
