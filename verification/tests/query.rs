use watchman::json;
use watchman::numbers::Numbers;
use watchman::query::{glob_match, Expr};
use watchman::tree::{FileInfo, Kind};
use watchman::value::Value;

fn file(name: &str) -> FileInfo {
    FileInfo {
        name: name.to_string(),
        exists: true,
        kind: Kind::Regular,
        size: 10,
        mtime: 0,
        mode: 0,
        ctick: 1,
        first_tick: 1,
        ever_seen: true,
    }
}

fn parse(text: &str) -> Result<Expr, String> {
    Expr::parse(&json::decode(text, &Numbers::new()).unwrap())
}

fn holds(text: &str, f: &FileInfo) -> bool {
    parse(text).unwrap().eval(f)
}

fn complaint(text: &str) -> String {
    parse(text).err().unwrap()
}

#[test]
fn patterns_match() {
    assert!(glob_match("*.rs", "main.rs"));
    assert!(glob_match("**.rs", "main.rs"));
    assert!(!glob_match("*.rs", "main.rsx"));
    assert!(glob_match("m?in", "main"));
    assert!(!glob_match("m?in", "min"));
    assert!(glob_match("", ""));
    assert!(!glob_match("", "a"));
    assert!(glob_match("*", ""));
    assert!(glob_match("***", "anything at all"));
    assert!(glob_match("a*b*c", "aXbYbZc"));
    assert!(!glob_match("a*b*c", "aXbYbZ"));
    assert!(glob_match("?", "é"));
    assert!(!glob_match("?", ""));
}

#[test]
fn patterns_without_wildcards_match_themselves_alone() {
    for (p, t) in [("abc", "abc"), ("abc", "abd"), ("abc", "ab"), ("[a]", "[a]"), ("[a]", "a")] {
        assert_eq!(glob_match(p, t), p == t);
    }
}

#[test]
fn terms_hold_of_files() {
    let f = file("src/Main.RS");
    assert!(holds(r#""true""#, &f));
    assert!(!holds(r#""false""#, &f));
    assert!(holds(r#""exists""#, &f));
    assert!(!holds(r#""empty""#, &f));
    assert!(holds(r#"["true"]"#, &f));
    assert!(holds(r#"["match", "Main.*"]"#, &f));
    assert!(holds(r#"["glob", "Main.*"]"#, &f));
    assert!(!holds(r#"["match", "main.*"]"#, &f));
    assert!(!holds(r#"["match", "src/*"]"#, &f));
    assert!(holds(r#"["imatch", "MAIN.*"]"#, &f));
    assert!(holds(r#"["suffix", "rs"]"#, &f));
    assert!(holds(r#"["suffix", ["c", 1, "Rs"]]"#, &f));
    assert!(!holds(r#"["suffix", []]"#, &f));
    assert!(holds(r#"["suffix", "readme"]"#, &file("README")));
    assert!(holds(r#"["suffix", "d/x"]"#, &file("a.d/x")));
    assert!(holds(r#"["type", "f"]"#, &f));
    assert!(!holds(r#"["type", "d"]"#, &f));
    assert!(holds(r#"["name", "Main.RS"]"#, &f));
    assert!(!holds(r#"["name", ["main.rs", "src/Main.RS"]]"#, &f));
    assert!(holds(r#"["not", "false"]"#, &f));
    assert!(holds(r#"["allof"]"#, &f));
    assert!(!holds(r#"["anyof"]"#, &f));
    assert!(holds(r#"["allof", "exists", ["suffix", "rs"]]"#, &f));
    assert!(!holds(r#"["allof", "exists", "false"]"#, &f));
    assert!(holds(r#"["anyof", "false", ["type", "f"]]"#, &f));
}

#[test]
fn only_empty_files_and_directories_are_empty() {
    let mut f = file("x");
    f.size = 0;
    assert!(holds(r#""empty""#, &f));
    f.kind = Kind::Directory;
    assert!(holds(r#""empty""#, &f));
    f.kind = Kind::Symlink;
    assert!(!holds(r#""empty""#, &f));
    f.kind = Kind::Regular;
    f.exists = false;
    assert!(!holds(r#""empty""#, &f));
    assert!(!holds(r#""exists""#, &f));
}

#[test]
fn case_is_ignored_beyond_ascii() {
    assert!(holds(r#"["imatch", "ÉTÉ.*"]"#, &file("été.TXT")));
    assert!(holds(r#"["imatch", "été.*"]"#, &file("ÉTÉ.txt")));
    assert!(!holds(r#"["match", "été.*"]"#, &file("ÉTÉ.txt")));
    assert!(!holds(r#"["suffix", "É"]"#, &file("x.é")));
}

#[test]
fn complaints_say_what_is_wrong() {
    assert_eq!(
        complaint(r#""since""#),
        "unsupported bare expression term: since"
    );
    assert_eq!(
        complaint("1"),
        "expression must be an array or bare term string"
    );
    assert_eq!(complaint("[]"), "expression missing op");
    assert_eq!(complaint("[1]"), "expression missing op");
    assert_eq!(complaint(r#"["match"]"#), "match needs a pattern");
    assert_eq!(complaint(r#"["glob", 1]"#), "match needs a pattern");
    assert_eq!(complaint(r#"["imatch"]"#), "imatch needs a pattern");
    assert_eq!(complaint(r#"["suffix"]"#), "suffix needs a value");
    assert_eq!(
        complaint(r#"["suffix", 1]"#),
        "expected a string or list of strings"
    );
    assert_eq!(complaint(r#"["type"]"#), "type needs a code");
    assert_eq!(complaint(r#"["name"]"#), "name needs a value");
    assert_eq!(
        complaint(r#"["name", null]"#),
        "expected a string or list of strings"
    );
    assert_eq!(complaint(r#"["not"]"#), "not needs an expression");
    assert_eq!(
        complaint(r#"["not", ["size"]]"#),
        "unsupported expression term: size"
    );
    assert_eq!(
        complaint(r#"["allof", "true", ["match"], ["type"]]"#),
        "match needs a pattern"
    );
    assert_eq!(
        complaint(r#"["anyof", "x", ["match"]]"#),
        "unsupported bare expression term: x"
    );
}

#[test]
fn the_expression_of_a_known_client_is_understood() {
    let v = Value::Array(vec![
        Value::Str("anyof".into()),
        Value::Array(vec![Value::Str("type".into()), Value::Str("f".into())]),
        Value::Array(vec![Value::Str("type".into()), Value::Str("d".into())]),
    ]);
    let e = Expr::parse(&v).unwrap();
    let mut f = file("x");
    assert!(e.eval(&f));
    f.kind = Kind::Directory;
    assert!(e.eval(&f));
    f.kind = Kind::Socket;
    assert!(!e.eval(&f));
}
