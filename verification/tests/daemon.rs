use std::cell::RefCell;
use std::rc::Rc;

use watchman::client::{
    ensure_daemon, exit_code, output_encoding, parse_global_opts, plan_request, print_response,
    role, sock_path, spawn_args, CliOptions, ClientError, Contact, Encoding, Role,
};
use watchman::config::{Config, Ignore};
use watchman::daemon::{
    answer_query, dispatch, err_resp, file_to_value, since_ticks_from, sync_timeout, Daemon, Goal,
    Job, Step, VERSION,
};
use watchman::json;
use watchman::json::JsonError;
use watchman::numbers::Numbers;
use watchman::paths::{Environment, System};
use watchman::tree::{Metadata, Tree};
use watchman::value::Value;
use watchman::watcher::{Platform, RootState};

fn env() -> Environment {
    Environment {
        system: System::Unix,
        user: Some("me".into()),
        logname: None,
        username: None,
        tmpdir: None,
        temp: None,
        tmp: None,
    }
}

fn value(text: &str) -> Value {
    json::decode(text, &Numbers::new()).unwrap()
}

fn text(v: &Value) -> String {
    json::encode(v, &Numbers::new()).unwrap()
}

fn answer(req: &str) -> String {
    match dispatch(&value(req), &env()) {
        Step::Answer(v) => text(&v),
        Step::Need(_) => panic!("{req} needs something"),
    }
}

fn job(req: &str) -> Job {
    match dispatch(&value(req), &env()) {
        Step::Need(job) => job,
        Step::Answer(v) => panic!("{}", text(&v)),
    }
}

fn need(step: Step) -> Job {
    match step {
        Step::Need(job) => job,
        Step::Answer(v) => panic!("{}", text(&v)),
    }
}

fn said(step: Step) -> String {
    match step {
        Step::Answer(v) => text(&v),
        Step::Need(_) => panic!(),
    }
}

fn refused(msg: &str) -> String {
    text(&err_resp(msg))
}

fn meta(is_dir: bool) -> Metadata {
    Metadata {
        is_dir,
        is_symlink: false,
        is_file: !is_dir,
        is_block_device: false,
        is_char_device: false,
        is_fifo: false,
        is_socket: false,
        len: 5,
        mtime: -9,
        mode: 0o644,
    }
}

fn tree() -> Tree {
    let ignore = Ignore::new(b"/r", &Config::default());
    let mut t = Tree::with_ignore(b"/r".to_vec(), ignore, 42);
    t.record_change(b"/r/a.rs", Some(meta(false)));
    t.record_change(b"/r/d", Some(meta(true)));
    t.record_change(b"/r/.watchman-cookie-1-2-3", Some(meta(false)));
    t
}

fn query(text_of_query: &str, t: &Tree) -> String {
    text(&answer_query(&value(text_of_query), t, 1000))
}

#[test]
fn plain_commands_are_answered_at_once() {
    assert_eq!(VERSION, "2024.01.01-rs");
    assert_eq!(
        answer(r#"["version"]"#),
        r#"{"version":"2024.01.01-rs","capabilities":{"relative_root":true,"bser-v2":true,"wildmatch":true}}"#
    );
    assert_eq!(
        answer(r#"["get-sockname"]"#),
        r#"{"version":"2024.01.01-rs","sockname":"/tmp/watchman-rs-me/sock"}"#
    );
    for cmd in ["flush-subscriptions", "subscribe", "unsubscribe"] {
        assert_eq!(
            answer(&format!("[\"{cmd}\", 1]")),
            r#"{"version":"2024.01.01-rs","synced":true}"#
        );
    }
    assert_eq!(
        answer(r#"["shutdown-server"]"#),
        r#"{"version":"2024.01.01-rs","shutdown-server":true}"#
    );
}

#[test]
fn requests_that_are_wrong_are_refused() {
    let malformed = r#"{"error":"request must be an array with a command name","version":"2024.01.01-rs"}"#;
    for req in ["null", "[]", "[1]", "{\"version\":1}", "\"version\""] {
        assert_eq!(answer(req), malformed);
    }
    assert_eq!(answer(r#"["nope", 1]"#), refused("unknown command: nope"));
    assert_eq!(
        answer(r#"["watch"]"#),
        refused("watch requires a path argument")
    );
    assert_eq!(
        answer(r#"["watch-project", 1]"#),
        refused("watch-project requires a path argument")
    );
    assert_eq!(
        answer(r#"["clock"]"#),
        refused("clock requires a path argument")
    );
    assert_eq!(
        answer(r#"["query"]"#),
        refused("query requires a path argument")
    );
    assert_eq!(
        answer(r#"["query", 1, {}]"#),
        refused("query requires a path argument")
    );
    assert_eq!(
        answer(r#"["query", "/r"]"#),
        refused("query requires a query object")
    );
    let refusal = err_resp("why");
    assert_eq!(refusal.get("error"), Some(&Value::Str("why".into())));
}

#[test]
fn a_root_is_watched() {
    let j = job(r#"["watch", "r"]"#);
    assert!(matches!(&j, Job::Resolving { path, .. } if path == "r"));
    let j = need(j.resolved(Ok(b"/r".to_vec())));
    assert!(matches!(&j, Job::Watching { goal: Goal::Watch, root, .. } if root == b"/r"));
    assert_eq!(
        said(j.watched(Ok(()), Platform::Linux)),
        r#"{"watch":"/r","watcher":"inotify","version":"2024.01.01-rs"}"#
    );

    let failed = job(r#"["watch", "r"]"#).resolved(Err("gone".into()));
    assert_eq!(said(failed), refused("failed to resolve r: gone"));
    let j = need(job(r#"["watch", "r"]"#).resolved(Ok(b"/r\xff".to_vec())));
    assert_eq!(
        said(j.watched(Err("no".into()), Platform::Other)),
        refused("failed to watch /r\u{fffd}: no")
    );
}

fn search(path: &[u8], marks: &[&[u8]]) -> (Job, Vec<String>) {
    let mut j = need(job(r#"["watch-project", "x"]"#).resolved(Ok(path.to_vec())));
    let mut asked = Vec::new();
    while matches!(j, Job::Searching { .. }) {
        let probe = j.probe();
        let exists = marks.contains(&&probe[..]);
        asked.push(String::from_utf8(probe).unwrap());
        j = j.probed(exists);
    }
    (j, asked)
}

#[test]
fn the_nearest_marked_directory_is_the_project() {
    let (j, asked) = search(b"/p/q/sub/dir", &[b"/p/.hg", b"/p/q/.git", b"/p/q/.svn"]);
    assert_eq!(
        asked,
        [
            "/p/q/sub/dir/.watchmanconfig",
            "/p/q/sub/dir/.git",
            "/p/q/sub/dir/.hg",
            "/p/q/sub/dir/.svn",
            "/p/q/sub/.watchmanconfig",
            "/p/q/sub/.git",
            "/p/q/sub/.hg",
            "/p/q/sub/.svn",
            "/p/q/.watchmanconfig",
            "/p/q/.git",
        ]
    );
    assert_eq!(
        said(j.watched(Ok(()), Platform::MacOs)),
        r#"{"version":"2024.01.01-rs","watch":"/p/q","watcher":"fsevents","relative_path":"sub/dir"}"#
    );
}

#[test]
fn a_marked_path_is_its_own_project() {
    let (j, _) = search(b"/p", &[b"/p/.watchmanconfig"]);
    assert_eq!(
        said(j.watched(Ok(()), Platform::Windows)),
        r#"{"version":"2024.01.01-rs","watch":"/p","watcher":"win32"}"#
    );
}

#[test]
fn a_path_without_marks_is_its_own_project() {
    let (j, asked) = search(b"/p/q", &[]);
    assert_eq!(asked.len(), 12);
    assert_eq!(asked[11], "/.svn");
    assert_eq!(
        said(j.watched(Ok(()), Platform::Other)),
        r#"{"version":"2024.01.01-rs","watch":"/p/q","watcher":"poll"}"#
    );
    let (j, _) = search(b"/p/q", &[]);
    assert_eq!(
        said(j.watched(Err("no".into()), Platform::Other)),
        refused("failed to watch /p/q: no")
    );
}

#[test]
fn the_clock_of_a_root_is_told() {
    let j = need(job(r#"["clock", "r"]"#).resolved(Ok(b"/r".to_vec())));
    let j = need(j.watched(Ok(()), Platform::Linux));
    assert!(matches!(&j, Job::Inspecting { root, .. } if root == b"/r"));
    assert_eq!(
        text(&j.inspected(&tree(), 1000)),
        r#"{"clock":"c:1000:42:4","version":"2024.01.01-rs"}"#
    );
    let j = need(job(r#"["clock", "r"]"#).resolved(Ok(b"/r".to_vec())));
    assert_eq!(
        said(j.watched(Err("no".into()), Platform::Linux)),
        refused("no")
    );
}

#[test]
fn queries_wait_for_the_watcher() {
    let j = need(job(r#"["query", "r", {}]"#).resolved(Ok(b"/r".to_vec())));
    let j = need(j.watched(Ok(()), Platform::Linux));
    assert!(matches!(&j, Job::Syncing { timeout: 1000, .. }));
    let j = j.synced();
    assert_eq!(
        text(&j.inspected(&tree(), 1000)),
        r#"{"version":"2024.01.01-rs","clock":"c:1000:42:4","is_fresh_instance":true,"files":[{"name":"a.rs"},{"name":"d"}]}"#
    );
    let j = need(
        job(r#"["query", "r", {"sync_timeout": 0}]"#).resolved(Ok(b"/r".to_vec())),
    );
    let j = need(j.watched(Ok(()), Platform::Linux));
    assert!(matches!(&j, Job::Inspecting { .. }));
    let j = need(job(r#"["query", "r", 5]"#).resolved(Ok(b"/r".to_vec())));
    assert_eq!(
        said(j.watched(Err("no".into()), Platform::Linux)),
        refused("no")
    );
}

#[test]
fn timeouts_of_queries() {
    assert_eq!(sync_timeout(&value("{}")), 1000);
    assert_eq!(sync_timeout(&value(r#"{"sync_timeout": -3}"#)), 0);
    assert_eq!(sync_timeout(&value(r#"{"sync_timeout": 60000}"#)), 60000);
    assert_eq!(sync_timeout(&value(r#"{"sync_timeout": "x"}"#)), 1000);
    let v = Value::obj()
        .set_value("sync_timeout", Value::Double(2.9f64.to_bits()))
        .build();
    assert_eq!(sync_timeout(&v), 2);
}

#[test]
fn queries_report_fields() {
    let t = tree();
    assert_eq!(
        query(
            r#"{"expression": ["suffix", "rs"], "fields":
                ["name", "exists", "new", "size", "mtime", "mode", "type", "other"]}"#,
            &t
        ),
        concat_answer(
            4,
            true,
            r#"{"name":"a.rs","exists":true,"new":true,"size":5,"mtime":-9,"mode":420,"type":"f","other":null}"#
        )
    );
    assert_eq!(
        query(r#"{"expression": ["type", "d"], "fields": []}"#, &t),
        concat_answer(4, true, r#"{"name":"d"}"#)
    );
    assert_eq!(
        query(r#"{"expression": ["type", "d"], "fields": [1, "type"]}"#, &t),
        concat_answer(4, true, r#"{"type":"d"}"#)
    );
    assert_eq!(
        query(r#"{"expression": ["size"]}"#, &t),
        refused("bad expression: unsupported expression term: size")
    );
}

fn concat_answer(ticks: u64, fresh: bool, files: &str) -> String {
    format!(
        "{{\"version\":\"2024.01.01-rs\",\"clock\":\"c:1000:42:{ticks}\",\"is_fresh_instance\":{fresh},\"files\":[{files}]}}"
    )
}

#[test]
fn queries_since_a_clock_report_what_changed() {
    let mut t = tree();
    let clock = t.clock(7);
    assert_eq!(clock, "c:7:42:4");
    let since = format!(r#"{{"since": "{clock}", "fields": ["name", "exists", "new"]}}"#);
    assert_eq!(query(&since, &t), concat_answer(4, false, ""));
    t.record_change(b"/r/a.rs", None);
    assert_eq!(
        query(&since, &t),
        concat_answer(5, false, r#"{"name":"a.rs","exists":false,"new":false}"#)
    );
    assert!(query(r#"{"since": "c:0:0"}"#, &t).contains(r#""is_fresh_instance":true"#));
    t.record_change(b"/r/b", Some(meta(false)));
    t.record_change(b"/r/.watchman-cookie-9", Some(meta(false)));
    assert_eq!(
        query(&since, &t),
        concat_answer(
            7,
            false,
            r#"{"name":"a.rs","exists":false,"new":false},{"name":"b","exists":true,"new":true}"#
        )
    );
}

#[test]
fn clocks_of_clients_come_in_several_forms() {
    assert_eq!(since_ticks_from(&value(r#""c:1:2:3""#)), Some(3));
    assert_eq!(
        since_ticks_from(&value(r#"{"scm": {}, "clock": "c:1:2:3"}"#)),
        Some(3)
    );
    assert_eq!(since_ticks_from(&value(r#"{"clock": 3}"#)), None);
    assert_eq!(since_ticks_from(&value("1700000000")), None);
    assert_eq!(since_ticks_from(&value(r#""c:0:0""#)), None);
    assert_eq!(since_ticks_from(&value(r#""c:0""#)), None);
}

#[test]
fn large_sizes_wrap_as_casts_do() {
    let mut t = tree();
    let mut m = meta(false);
    m.len = u64::MAX;
    t.record_change(b"/r/big", Some(m));
    let f = t.get("big").unwrap();
    assert_eq!(
        text(&file_to_value(f, &["size".to_string()], false)),
        r#"{"size":-1}"#
    );
}

#[test]
fn roots_are_shared() {
    let mut d = Daemon::new();
    assert_eq!(d.find(b"/r"), None);
    let k = d.watch(b"/r", RootState::new(tree()));
    assert_eq!(k, 0);
    assert_eq!(d.find(b"/r"), Some(0));
    let ignore = Ignore::new(b"/s", &Config::default());
    let other = Tree::with_ignore(b"/s".to_vec(), ignore, 42);
    assert_eq!(d.watch(b"/s", RootState::new(other)), 1);
    let ignore = Ignore::new(b"/r", &Config::default());
    let again = Tree::with_ignore(b"/r".to_vec(), ignore, 42);
    assert_eq!(d.watch(b"/r", RootState::new(again)), 0);
    assert_eq!(d.root(0).tree().files().len(), 3);
    assert_eq!(d.root(1).tree().root_path(), b"/s");
}

#[test]
fn what_one_client_changes_another_sees() {
    let mut d = Daemon::new();
    let mine = Rc::new(RefCell::new(RootState::new(tree())));
    let k = d.watch(b"/r", mine.clone());
    let n = d.watch(b"/r", Rc::new(RefCell::new(RootState::new(tree()))));
    assert_eq!(n, k);
    mine.borrow_mut()
        .apply(&[(b"/r/x".to_vec(), Some(meta(false)))]);
    assert_eq!(d.root(n).borrow().tree().files().len(), 4);
}

fn args(list: &[&str]) -> Vec<String> {
    list.iter().map(|s| s.to_string()).collect()
}

#[test]
fn options_come_before_the_command() {
    let (opts, rest) = parse_global_opts(&args(&["--output-encoding", "bser-v2", "get-sockname"]));
    assert_eq!(opts.output_encoding, Some(Encoding::BserV2));
    assert_eq!(output_encoding(&opts), Encoding::BserV2);
    assert_eq!(rest, ["get-sockname"]);

    let (opts, rest) = parse_global_opts(&args(&[
        "--output-encoding=bser",
        "--server-encoding=json",
        "-U",
        "/s",
        "--no-pretty",
        "-p",
        "--no-spawn",
        "--no-local",
        "-f",
        "-n",
        "--inetd",
        "--no-save-state",
        "--statefile",
        "x",
        "--logfile=y",
        "-o",
        "z",
        "--log-level=2",
        "watch",
        "--no-spawn",
    ]));
    assert_eq!(opts.output_encoding, Some(Encoding::Bser));
    assert_eq!(opts.server_encoding, Some(Encoding::Json));
    assert_eq!(opts.sockname.as_deref(), Some("/s"));
    assert!(opts.no_pretty && opts.persistent && opts.no_spawn);
    assert_eq!(rest, ["watch", "--no-spawn"]);
}

#[test]
fn options_at_the_edges() {
    let (opts, rest) = parse_global_opts(&args(&["--sockname=/a=b", "-j"]));
    assert_eq!(opts.sockname.as_deref(), Some("/a=b"));
    assert_eq!(opts.server_encoding, Some(Encoding::Json));
    assert!(rest.is_empty());
    let (opts, rest) = parse_global_opts(&args(&["--sockname=x", "--sockname"]));
    assert_eq!(opts.sockname, None);
    assert!(rest.is_empty());
    let (opts, _) = parse_global_opts(&args(&["--output-encoding=json", "--output-encoding"]));
    assert_eq!(opts.output_encoding, Some(Encoding::Json));
    let (opts, _) = parse_global_opts(&args(&["--output-encoding=xml"]));
    assert_eq!(opts.output_encoding, None);
    assert_eq!(output_encoding(&opts), Encoding::Json);
    let (_, rest) = parse_global_opts(&args(&["--unknown", "x"]));
    assert_eq!(rest, ["--unknown", "x"]);
    let (_, rest) = parse_global_opts(&args(&["--output-encodings", "x"]));
    assert_eq!(rest, ["--output-encodings", "x"]);
    assert_eq!(Encoding::parse("bser-v2"), Some(Encoding::BserV2));
    assert_eq!(Encoding::parse("BSER"), None);
}

#[test]
fn commands_become_requests() {
    let plan = |list: &[&str]| plan_request(&args(list), &Numbers::new()).map(|v| text(&v));
    assert_eq!(plan(&["version", "x"]).unwrap(), r#"["version"]"#);
    assert_eq!(plan(&["list-command"]).unwrap(), r#"["list-command"]"#);
    assert_eq!(plan(&["watch", "/r", "x"]).unwrap(), r#"["watch","/r"]"#);
    assert_eq!(plan(&["clock"]).unwrap(), r#"["clock"]"#);
    assert_eq!(
        plan(&["query", "/r", r#"{"fields":["name"]}"#]).unwrap(),
        r#"["query","/r",{"fields":["name"]}]"#
    );
    assert_eq!(plan(&["find", "a", "b"]).unwrap(), r#"["find","a","b"]"#);
    assert_eq!(plan(&[]), Err(ClientError::Usage));
    assert_eq!(plan(&["query", "/r"]), Err(ClientError::QueryUsage));
    assert_eq!(
        plan(&["query", "/r", "["]),
        Err(ClientError::BadQuery(JsonError::Unexpected {
            got: None,
            at: 1
        }))
    );
    assert_eq!(
        ClientError::Usage.message(),
        "usage: watchman [options] <command> [args...]"
    );
    assert_eq!(
        ClientError::QueryUsage.message(),
        "usage: watchman query <path> <query-json>"
    );
    assert_eq!(
        ClientError::BadQuery(JsonError::Unterminated).message(),
        "invalid query JSON: json: unterminated string"
    );
}

#[test]
fn answers_are_shown_in_an_encoding() {
    let v = Value::Bool(true);
    let numbers = Numbers::new();
    assert_eq!(
        print_response(&v, Encoding::Json, &numbers).unwrap(),
        b"true\n"
    );
    assert_eq!(
        print_response(&v, Encoding::Bser, &numbers).unwrap(),
        [0x00, 0x01, 0x03, 0x01, 0x08]
    );
    assert_eq!(
        print_response(&v, Encoding::BserV2, &numbers).unwrap(),
        [0x00, 0x02, 0, 0, 0, 0, 0x03, 0x01, 0x08]
    );
    assert_eq!(
        print_response(&Value::Double(3), Encoding::Json, &numbers),
        Err(3)
    );
}

#[test]
fn refusals_make_the_client_fail() {
    assert_eq!(exit_code(&err_resp("x")), 1);
    assert_eq!(exit_code(&value(r#"{"version":"1"}"#)), 0);
    assert_eq!(exit_code(&value(r#"{"error":null}"#)), 1);
    assert_eq!(exit_code(&value("[]")), 0);
}

#[test]
fn a_daemon_is_started_where_the_client_looks() {
    let plain = CliOptions::default();
    assert_eq!(spawn_args(&plain), ["--foreground"]);
    assert_eq!(sock_path(&plain, &env()), b"/tmp/watchman-rs-me/sock");
    let mut named = CliOptions::default();
    named.sockname = Some("/x/y".into());
    assert_eq!(spawn_args(&named), ["--foreground", "--sockname", "/x/y"]);
    assert_eq!(sock_path(&named, &env()), b"/x/y");
    for opts in [plain, named] {
        match role(&spawn_args(&opts), &env()) {
            Role::Serve(path) => assert_eq!(path, sock_path(&opts, &env())),
            Role::Ask => panic!(),
        }
    }
    assert!(matches!(role(&args(&["version"]), &env()), Role::Ask));
    assert!(matches!(role(&[], &env()), Role::Ask));
    match role(&args(&["--foreground", "--sockname"]), &env()) {
        Role::Serve(path) => assert_eq!(path, b"/tmp/watchman-rs-me/sock"),
        Role::Ask => panic!(),
    }
}

#[test]
fn a_daemon_is_tried_for_a_while() {
    let mut opts = CliOptions::default();
    assert_eq!(ensure_daemon(&opts, None), Contact::Start);
    assert_eq!(ensure_daemon(&opts, Some(1)), Contact::Retry);
    assert_eq!(ensure_daemon(&opts, Some(99)), Contact::Retry);
    assert_eq!(ensure_daemon(&opts, Some(100)), Contact::TimedOut);
    opts.no_spawn = true;
    assert_eq!(ensure_daemon(&opts, None), Contact::NotRunning);
    assert_eq!(
        Contact::NotRunning.message(),
        Some("daemon is not running and --no-spawn was given")
    );
    assert_eq!(
        Contact::TimedOut.message(),
        Some("daemon did not start in time")
    );
    assert_eq!(Contact::Start.message(), None);
}

#[test]
fn a_file_that_was_missing_at_first_is_new_once_it_is_there() {
    let mut t = tree();
    t.record_change(b"/r/late", None);
    let clock = t.clock(7);
    t.record_change(b"/r/late", Some(meta(false)));
    let since = format!(r#"{{"since": "{clock}", "fields": ["name", "new"]}}"#);
    assert_eq!(
        query(&since, &t),
        concat_answer(6, false, r#"{"name":"late","new":true}"#)
    );
}

#[test]
fn every_answer_tells_the_version() {
    let version = Value::Str(VERSION.to_string());
    let at_once = [
        "null",
        "[]",
        r#"["nonsense", 1]"#,
        r#"["version"]"#,
        r#"["get-sockname"]"#,
        r#"["watch"]"#,
        r#"["watch-project", 5]"#,
        r#"["clock"]"#,
        r#"["query"]"#,
        r#"["query", "/r"]"#,
        r#"["subscribe"]"#,
        r#"["shutdown-server"]"#,
    ];
    for req in at_once {
        match dispatch(&value(req), &env()) {
            Step::Answer(v) => assert_eq!(v.get("version"), Some(&version)),
            Step::Need(_) => panic!("{req} needs something"),
        }
    }
    for req in [r#"["watch", "r"]"#, r#"["clock", "r"]"#] {
        match job(req).resolved(Err("gone".into())) {
            Step::Answer(v) => assert_eq!(v.get("version"), Some(&version)),
            Step::Need(_) => panic!(),
        }
        let next = need(job(req).resolved(Ok(b"/r".to_vec())));
        match next.watched(Err("full".into()), Platform::Linux) {
            Step::Answer(v) => assert_eq!(v.get("version"), Some(&version)),
            Step::Need(_) => panic!(),
        }
    }
    for q in ["{}", r#"{"expression": 1}"#] {
        let v = answer_query(&value(q), &tree(), 1);
        assert_eq!(v.get("version"), Some(&version));
    }
    match err_resp("m") {
        Value::Object(pairs) => {
            let keys: Vec<&str> = pairs.iter().map(|(k, _)| k.as_str()).collect();
            assert_eq!(keys, ["error", "version"]);
        }
        _ => panic!(),
    }
}

#[test]
fn cookies_do_not_disturb_a_quiet_clock() {
    let mut state = RootState::new(tree());
    let clock = state.tree().clock(7);
    let q = value(&format!(r#"{{"since": "{clock}"}}"#));
    let quiet = |v: &Value| {
        assert_eq!(v.get("is_fresh_instance"), Some(&Value::Bool(false)));
        assert_eq!(v.get("files"), Some(&Value::Array(vec![])));
    };
    quiet(&answer_query(&q, state.tree(), 8));
    state.apply(&[
        (b"/r/.watchman-cookie-4-5-6".to_vec(), Some(meta(false))),
        (b"/r/.git/index".to_vec(), Some(meta(false))),
        (b"/r/.watchman-cookie-4-5-6".to_vec(), None),
    ]);
    assert_ne!(state.tree().clock(7), clock);
    quiet(&answer_query(&q, state.tree(), 9));
    state.apply(&[(b"/r/new".to_vec(), Some(meta(false)))]);
    let v = answer_query(&q, state.tree(), 9);
    assert_eq!(v.get("files").unwrap().as_array().unwrap().len(), 1);
}

#[test]
fn options_come_in_several_forms() {
    let tail = ["--no-spawn", "watch", "--sockname=late"];
    let parse = |front: &[&str]| {
        let mut all = vec!["-p"];
        all.extend_from_slice(front);
        all.extend_from_slice(&tail);
        let (opts, rest) = parse_global_opts(&args(&all));
        assert_eq!(rest, args(&["watch", "--sockname=late"]));
        format!("{opts:?}")
    };
    let socket = parse(&["--sockname=/s=1"]);
    assert!(socket.contains("/s=1"));
    assert_eq!(parse(&["--sockname", "/s=1"]), socket);
    assert_eq!(parse(&["-U", "/s=1"]), socket);
    for name in ["--output-encoding", "--server-encoding"] {
        let joined = parse(&[&format!("{name}=bser")]);
        assert!(joined.contains("Bser"));
        assert_eq!(parse(&[name, "bser"]), joined);
    }
    for name in ["--statefile", "--logfile", "--log-level"] {
        assert_eq!(parse(&[&format!("{name}=x")]), parse(&[name, "x"]));
        assert_eq!(parse(&[name, "x"]), parse(&[]));
    }
}
