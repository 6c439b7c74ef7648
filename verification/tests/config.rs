use watchman::config::{config_path, Config, Ignore};
use watchman::json;
use watchman::json::JsonError;
use watchman::numbers::Numbers;
use watchman::value::Value;

#[test]
fn parses_ignore_dirs_and_vcs() {
    let cfg = Config::from_value(
        &json::decode(
            r#"{"ignore_dirs": ["build", "/node_modules/"], "ignore_vcs": []}"#,
            &Numbers::new(),
        )
        .unwrap(),
    );
    assert_eq!(
        cfg.ignore_dirs,
        vec!["build".to_string(), "node_modules".to_string()]
    );
    assert_eq!(cfg.ignore_vcs, Some(vec![]));

    let ignore = Ignore::new(b"/root", &cfg);
    assert!(ignore.is_ignored(b"/root/build"));
    assert!(ignore.is_ignored(b"/root/build/inner"));
    assert!(ignore.is_ignored(b"/root/node_modules"));
    assert!(!ignore.is_ignored(b"/root/.git")); // ignore_vcs: [] disables it
    assert!(!ignore.is_ignored(b"/root/src"));
}

#[test]
fn defaults_ignore_vcs_dirs() {
    let cfg = Config::default();
    let ignore = Ignore::new(b"/root", &cfg);
    assert!(ignore.is_ignored(b"/root/.git"));
    assert!(ignore.is_ignored(b"/root/.hg"));
    assert!(!ignore.is_ignored(b"/root/src"));
}

#[test]
fn missing_file_yields_defaults() {
    assert_eq!(
        config_path(b"/nonexistent-dir-xyz"),
        b"/nonexistent-dir-xyz/.watchmanconfig"
    );
    let cfg = Config::load(None, &Numbers::new()).unwrap();
    assert!(cfg.ignore_dirs.is_empty());
    assert!(cfg.ignore_vcs.is_none());
}

#[test]
fn texts_that_are_no_config_yield_defaults() {
    for text in ["", "{", "[1]", "null", "\"\\u12", r#"{"ignore_dirs": "build"}"#] {
        let cfg = Config::load(Some(text), &Numbers::new()).unwrap();
        assert!(cfg.ignore_dirs.is_empty());
        assert!(cfg.ignore_vcs.is_none());
    }
}

#[test]
fn unknown_keys_are_passed_over_and_later_ones_win() {
    let text = r#"{"ignore_dirs": ["a"], "x": 1, "ignore_dirs": ["b", 2, "/"], "ignore_dirs": 3,
                   "ignore_vcs": [".bzr", null]}"#;
    let cfg = Config::load(Some(text), &Numbers::new()).unwrap();
    assert_eq!(cfg.ignore_dirs, vec!["b".to_string()]);
    assert_eq!(cfg.ignore_vcs, Some(vec![".bzr".to_string()]));
}

#[test]
fn numbers_in_a_config_have_to_be_known() {
    let text = r#"{"settle": 2.5, "ignore_dirs": ["a"]}"#;
    let mut numbers = Numbers::new();
    match Config::load(Some(text), &numbers) {
        Err(JsonError::Unread { start, end }) => assert_eq!(&text[start..end], "2.5"),
        other => panic!("{other:?}"),
    }
    numbers.add_reading("2.5", Some(2.5f64.to_bits()));
    let cfg = Config::load(Some(text), &numbers).unwrap();
    assert_eq!(cfg.ignore_dirs, vec!["a".to_string()]);
}

#[test]
fn names_are_ignored_at_any_depth_but_only_as_last_component() {
    let ignore = Ignore::new(b"/root", &Config::default());
    assert!(ignore.is_ignored(b"/root/sub/.svn"));
    assert!(ignore.is_ignored(b"/root/.git/"));
    assert!(!ignore.is_ignored(b"/root/.git/config"));
    assert!(!ignore.is_ignored(b"/root/.gitignore"));
    assert!(!ignore.is_ignored(b"/"));
    assert!(!ignore.is_ignored(b"/root/.."));
}

#[test]
fn directories_are_ignored_by_components() {
    let cfg = Config::from_value(
        &Value::obj()
            .set("ignore_dirs", vec![Value::Str("out/gen".into())])
            .build(),
    );
    let ignore = Ignore::new(b"/r/", &cfg);
    assert!(ignore.is_ignored(b"/r/out/gen"));
    assert!(ignore.is_ignored(b"/r//out/./gen/x/y"));
    assert!(!ignore.is_ignored(b"/r/out/generated"));
    assert!(!ignore.is_ignored(b"/r/out"));
    assert!(!ignore.is_ignored(b"out/gen"));
}

#[test]
fn copies_ignore_the_same() {
    let cfg = Config {
        ignore_dirs: vec!["out".into()],
        ignore_vcs: Some(vec![".bzr".into()]),
    };
    let copy = cfg.clone();
    assert_eq!(copy.ignore_dirs, cfg.ignore_dirs);
    assert_eq!(copy.ignore_vcs, cfg.ignore_vcs);
    let ignore = Ignore::new(b"/r", &cfg).clone();
    assert!(ignore.is_ignored(b"/r/out/x"));
    assert!(ignore.is_ignored(b"/r/.bzr"));
    assert!(!ignore.is_ignored(b"/r/.git"));
}
