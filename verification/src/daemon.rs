//! The daemon's side of the conversation: what each request asks for, what is
//! needed from the system on the way, and what is answered.

use vstd::hash_map::StringHashMap;
use vstd::prelude::*;
use vstd::string::StringExecFns;
use vstd::utf8::*;

use crate::config::{collect_strings, passed_over, strings, Ignore};
use crate::paths::{
    above, behind, components, filed, join, joined, law_components_above, law_joined_rest,
    lemma_spans, parent, sock_path, spans, strip_prefix, within, Environment,
};
use crate::query::{holds, parsed, Expr, Term};
use crate::text::{from_utf8_lossy, lossy, optional_text, str_eq, texts};
use crate::tree::{
    changed, clock_text, clock_ticks, cookie_name, distinct, entries, entries_of, is_cookie,
    law_clock_round_trip, law_known_files_are_not_new, law_since_finds_the_change, newer,
    parse_clock_ticks, place, relative, timely, was_seen, Entry, FileInfo, Metadata, Tree,
};
use crate::value::{
    data, find, lemma_data, lemma_data_push, lemma_members_push, members, Datum, Value,
};
use crate::watcher::{
    heeded, law_since_finds_the_batch, recorded, reports, watcher_name, Platform,
};

verus! {

/// The version that clients are told.
pub const VERSION: &'static str = "2024.01.01-rs";

/// What a request that is refused is answered.
pub open spec fn refusal(msg: Seq<char>) -> Datum {
    Datum::Object(seq![("error"@, Datum::Str(msg)), ("version"@, Datum::Str(VERSION@))])
}

/// Answers a request that is refused.
pub fn err_resp(msg: &str) -> (r: Value)
    ensures
        r@ == refusal(msg@),
{
    let r = Value::obj().set("error", msg).set("version", VERSION).build();
    assert(r@ =~= refusal(msg@)) by {
        assert(r@->Object_0 =~= refusal(msg@)->Object_0);
    }
    r
}

/// The ticks of a clock that a client gives: a clock's text, or an object that
/// holds one. Other clocks, such as times, count as none.
pub open spec fn since_datum(v: Datum) -> Option<u64> {
    match v {
        Datum::Str(s) => clock_ticks(s),
        Datum::Object(_) => match v.lookup("clock"@) {
            Some(Datum::Str(s)) => clock_ticks(s),
            _ => None,
        },
        _ => None,
    }
}

/// The ticks of a clock that a client gives.
pub fn since_ticks_from(v: &Value) -> (r: Option<u64>)
    ensures
        r == since_datum(v@),
{
    match v {
        Value::Str(s) => parse_clock_ticks(s.as_str()),
        Value::Object(_) => match v.get("clock") {
            Some(c) => match c.as_str() {
                Some(s) => parse_clock_ticks(s),
                None => None,
            },
            None => None,
        },
        _ => None,
    }
}

/// One field of a file.
pub open spec fn field_datum(f: Entry, field: Seq<char>, is_new: bool) -> Datum {
    if field == "name"@ {
        Datum::Str(f.name)
    } else if field == "exists"@ {
        Datum::Bool(f.exists)
    } else if field == "new"@ {
        Datum::Bool(is_new)
    } else if field == "size"@ {
        Datum::Int(f.size as i64)
    } else if field == "mtime"@ {
        Datum::Int(f.mtime)
    } else if field == "mode"@ {
        Datum::Int(f.mode as i64)
    } else if field == "type"@ {
        Datum::Str(f.kind.letter())
    } else {
        Datum::Null
    }
}

/// A file as a value: an object with the fields that are asked for, in order.
pub open spec fn file_datum(f: Entry, fields: Seq<Seq<char>>, is_new: bool) -> Datum {
    Datum::Object(
        fields.map_values(|field: Seq<char>| (field, field_datum(f, field, is_new))),
    )
}

/// One field of a file.
fn field_value(f: &FileInfo, field: &str, is_new: bool) -> (r: Value)
    ensures
        r@ == field_datum(f@, field@, is_new),
{
    if str_eq(field, "name") {
        Value::Str(f.name.clone())
    } else if str_eq(field, "exists") {
        Value::Bool(f.exists)
    } else if str_eq(field, "new") {
        Value::Bool(is_new)
    } else if str_eq(field, "size") {
        Value::Int(f.size as i64)
    } else if str_eq(field, "mtime") {
        Value::Int(f.mtime)
    } else if str_eq(field, "mode") {
        Value::Int(f.mode as i64)
    } else if str_eq(field, "type") {
        Value::Str(f.kind.code().to_string())
    } else {
        Value::Null
    }
}

/// A file as a value, with the fields that are asked for.
pub fn file_to_value(f: &FileInfo, fields: &[String], is_new: bool) -> (r: Value)
    ensures
        r@ == file_datum(f@, texts(fields@), is_new),
{
    let mut pairs: Vec<(String, Value)> = Vec::new();
    let mut i: usize = 0;
    let ghost shown = |field: Seq<char>| (field, field_datum(f@, field, is_new));
    let ghost all = texts(fields@);
    assert(members(pairs@) =~= all.take(0).map_values(shown));
    while i < fields.len()
        invariant
            i <= fields@.len(),
            all == texts(fields@),
            shown == (|field: Seq<char>| (field, field_datum(f@, field, is_new))),
            members(pairs@) == all.take(i as int).map_values(shown),
        decreases fields@.len() - i,
    {
        let field = fields[i].clone();
        let v = field_value(f, field.as_str(), is_new);
        proof {
            lemma_members_push(pairs@, field, v);
            assert(all[i as int] == field@);
            assert(all.take(i + 1).map_values(shown) =~= all.take(i as int).map_values(shown).push(
                shown(field@),
            ));
        }
        pairs.push((field, v));
        i += 1;
    }
    assert(all.take(i as int) =~= all);
    Value::Object(pairs)
}

/// The fields that a query asks for: the strings of a list, or else the name.
pub open spec fn query_fields(query: Datum) -> Seq<Seq<char>> {
    match query.lookup("fields"@) {
        Some(Datum::Array(items)) => if strings(items).len() > 0 {
            strings(items)
        } else {
            seq!["name"@]
        },
        _ => seq!["name"@],
    }
}

/// The ticks since when a query asks for changes, if it does.
pub open spec fn query_since(query: Datum) -> Option<u64> {
    match query.lookup("since"@) {
        Some(v) => since_datum(v),
        None => None,
    }
}

/// How many milliseconds a query allows for the watcher to catch up.
pub open spec fn query_timeout(query: Datum) -> u64 {
    match query.lookup("sync_timeout"@) {
        Some(v) => match v.integer() {
            Some(n) => if n < 0 {
                0
            } else {
                n as u64
            },
            None => 1000,
        },
        None => 1000,
    }
}

/// The expression of a query, if it has one, or what is said of one that is wrong.
pub open spec fn query_expression(query: Datum) -> Result<Option<Term>, Seq<char>> {
    match query.lookup("expression"@) {
        Some(v) => match parsed(v) {
            Ok(t) => Ok(Some(t)),
            Err(e) => Err(e),
        },
        None => Ok(None),
    }
}

/// The files that a query looks at: those that changed since, or all.
pub open spec fn candidates(rows: Seq<Entry>, since: Option<u64>) -> Seq<Entry> {
    match since {
        Some(ticks) => newer(rows, ticks),
        None => rows,
    }
}

/// Whether a query reports a file that it looks at: no cookie, and one of which
/// the expression holds.
pub open spec fn reported(f: Entry, expr: Option<Term>) -> bool {
    !cookie_name(f.name) && (match expr {
        Some(t) => holds(t, f),
        None => true,
    })
}

/// Whether a file is new: first seen since, or if all files are asked for.
pub open spec fn is_new_since(f: Entry, since: Option<u64>) -> bool {
    match since {
        Some(ticks) => f.first_tick > ticks,
        None => true,
    }
}

/// The files that a query reports, in order.
pub open spec fn matching(rows: Seq<Entry>, since: Option<u64>, expr: Option<Term>) -> Seq<Entry> {
    candidates(rows, since).filter(|f: Entry| reported(f, expr))
}

/// The files that a query reports, as values.
pub open spec fn file_data(
    files: Seq<Entry>,
    fields: Seq<Seq<char>>,
    since: Option<u64>,
) -> Seq<Datum> {
    files.map_values(|f: Entry| file_datum(f, fields, is_new_since(f, since)))
}

/// What a query is answered from the files known and the clock.
pub open spec fn query_answer(
    query: Datum,
    rows: Seq<Entry>,
    pid: u32,
    ticks: u64,
    now: u64,
) -> Datum {
    let since = query_since(query);
    match query_expression(query) {
        Err(msg) => refusal("bad expression: "@ + msg),
        Ok(expr) => Datum::Object(
            seq![
                ("version"@, Datum::Str(VERSION@)),
                ("clock"@, Datum::Str(clock_text(now, pid, ticks))),
                ("is_fresh_instance"@, Datum::Bool(since is None)),
                (
                    "files"@,
                    Datum::Array(
                        file_data(matching(rows, since, expr), query_fields(query), since),
                    ),
                ),
            ],
        ),
    }
}

/// What an optional expression stands for.
pub open spec fn term_of(e: Option<Expr>) -> Option<Term> {
    match e {
        Some(e) => Some(e@),
        None => None,
    }
}

/// The fields that a query asks for.
fn fields_of(query: &Value) -> (r: Vec<String>)
    ensures
        texts(r@) == query_fields(query@),
{
    match query.get("fields") {
        Some(v) => match v.as_array() {
            Some(items) => {
                let all = collect_strings(items);
                assert(texts(all@).len() == all@.len());
                if all.len() > 0 {
                    return all;
                }
            },
            None => {},
        },
        None => {},
    }
    let mut out: Vec<String> = Vec::new();
    out.push("name".to_string());
    assert(texts(out@) =~= seq!["name"@]);
    out
}

/// How many milliseconds a query allows for the watcher to catch up.
pub fn sync_timeout(query: &Value) -> (r: u64)
    ensures
        r == query_timeout(query@),
{
    match query.get("sync_timeout") {
        Some(v) => match v.as_i64() {
            Some(n) => if n < 0 {
                0
            } else {
                n as u64
            },
            None => 1000,
        },
        None => 1000,
    }
}

/// The files that a query looks at.
fn candidates_of(tree: &Tree, since: Option<u64>) -> (r: Vec<&FileInfo>)
    ensures
        entries_of(r@) == candidates(tree.rows(), since),
{
    match since {
        Some(ticks) => tree.since(ticks),
        None => {
            let files = tree.files();
            let mut out: Vec<&FileInfo> = Vec::new();
            let mut i: usize = 0;
            while i < files.len()
                invariant
                    i <= files@.len(),
                    out@.len() == i,
                    forall|k: int| 0 <= k < i ==> (#[trigger] out@[k])@ == files@[k]@,
                decreases files@.len() - i,
            {
                out.push(&files[i]);
                i += 1;
            }
            assert(entries_of(out@) =~= entries(files@));
            out
        },
    }
}

/// The files that a query reports, as values.
fn report(
    files: &[&FileInfo],
    expr: &Option<Expr>,
    fields: &[String],
    since: Option<u64>,
) -> (r: Vec<Value>)
    ensures
        data(r@) == file_data(
            entries_of(files@).filter(|f: Entry| reported(f, term_of(*expr))),
            texts(fields@),
            since,
        ),
{
    let mut out: Vec<Value> = Vec::new();
    let mut i: usize = 0;
    let ghost rows = entries_of(files@);
    let ghost keep = |f: Entry| reported(f, term_of(*expr));
    let ghost named = texts(fields@);
    assert(rows.take(0) =~= Seq::<Entry>::empty());
    assert(data(out@) =~= file_data(rows.take(0).filter(keep), named, since)) by {
        reveal(Seq::filter);
    }
    while i < files.len()
        invariant
            i <= files@.len(),
            rows == entries_of(files@),
            keep == (|f: Entry| reported(f, term_of(*expr))),
            named == texts(fields@),
            data(out@) == file_data(rows.take(i as int).filter(keep), named, since),
        decreases files@.len() - i,
    {
        let f: &FileInfo = files[i];
        let ghost before = rows.take(i as int).filter(keep);
        proof {
            reveal(Seq::filter);
            assert(rows.take(i + 1).drop_last() =~= rows.take(i as int));
            assert(rows.take(i + 1).last() == f@);
        }
        let wanted = !is_cookie(f.name.as_str()) && (match expr {
            Some(e) => e.eval(f),
            None => true,
        });
        if wanted {
            let is_new = match since {
                Some(ticks) => f.first_tick > ticks,
                None => true,
            };
            let v = file_to_value(f, fields, is_new);
            proof {
                lemma_data_push(out@, v);
                assert(file_data(before.push(f@), named, since) =~= file_data(before, named, since).push(
                    v@,
                ));
            }
            out.push(v);
        }
        i += 1;
    }
    assert(rows.take(i as int) =~= rows);
    out
}

/// Answers a query from what is known of a root, at a time in seconds.
pub fn answer_query(query: &Value, tree: &Tree, now: u64) -> (r: Value)
    ensures
        r@ == query_answer(query@, tree.rows(), tree.pid(), tree.ticks(), now),
{
    let since: Option<u64> = match query.get("since") {
        Some(v) => since_ticks_from(v),
        None => None,
    };
    let expr: Option<Expr> = match query.get("expression") {
        Some(v) => match Expr::parse(v) {
            Ok(e) => Some(e),
            Err(msg) => {
                let mut out = "bad expression: ".to_string();
                out.append(msg.as_str());
                return err_resp(out.as_str());
            },
        },
        None => None,
    };
    let fields = fields_of(query);
    let files = candidates_of(tree, since);
    let found = report(files.as_slice(), &expr, fields.as_slice(), since);
    let ghost shown = data(found@);
    let r = Value::obj().set("version", VERSION).set("clock", tree.clock(now)).set(
        "is_fresh_instance",
        since.is_none(),
    ).set("files", found).build();
    proof {
        assert(shown == file_data(
            matching(tree.rows(), since, term_of(expr)),
            query_fields(query@),
            since,
        ));
        assert(r@->Object_0 =~= query_answer(
            query@,
            tree.rows(),
            tree.pid(),
            tree.ticks(),
            now,
        )->Object_0);
    }
    r
}

/// What a request on a root is for.
pub enum Goal {
    /// To watch a root.
    Watch,
    /// To watch the project that a path belongs to.
    Project,
    /// To learn the clock of a root.
    Clock,
    /// To query a root.
    Query(Value),
}

/// What a `Goal` stands for.
pub enum Purpose {
    Watch,
    Project,
    Clock,
    Query(Datum),
}

impl View for Goal {
    type V = Purpose;

    open spec fn view(&self) -> Purpose {
        match self {
            Goal::Watch => Purpose::Watch,
            Goal::Project => Purpose::Project,
            Goal::Clock => Purpose::Clock,
            Goal::Query(q) => Purpose::Query(q@),
        }
    }
}

/// A request that is being served: what is needed from the system next.
pub enum Job {
    /// A path is to be resolved.
    Resolving { goal: Goal, path: String },
    /// It is to be found out whether a directory holds the marker with the given
    /// number, in search of the project of a path.
    Searching { origin: Vec<u8>, candidate: Vec<u8>, marker: usize },
    /// A root is to be watched.
    Watching { goal: Goal, root: Vec<u8>, relative: Option<String> },
    /// The watcher of a root is to catch up, in so many milliseconds at most.
    Syncing { goal: Goal, root: Vec<u8>, timeout: u64 },
    /// What is known of a root is to be looked at.
    Inspecting { goal: Goal, root: Vec<u8> },
}

/// What a `Job` stands for.
pub enum Stage {
    Resolving { goal: Purpose, path: Seq<char> },
    Searching { origin: Seq<u8>, candidate: Seq<u8>, marker: usize },
    Watching { goal: Purpose, root: Seq<u8>, relative: Option<Seq<char>> },
    Syncing { goal: Purpose, root: Seq<u8>, timeout: u64 },
    Inspecting { goal: Purpose, root: Seq<u8> },
}

impl View for Job {
    type V = Stage;

    open spec fn view(&self) -> Stage {
        match self {
            Job::Resolving { goal, path } => Stage::Resolving { goal: goal@, path: path@ },
            Job::Searching { origin, candidate, marker } => Stage::Searching {
                origin: origin@,
                candidate: candidate@,
                marker: *marker,
            },
            Job::Watching { goal, root, relative } => Stage::Watching {
                goal: goal@,
                root: root@,
                relative: optional_text(*relative),
            },
            Job::Syncing { goal, root, timeout } => Stage::Syncing {
                goal: goal@,
                root: root@,
                timeout: *timeout,
            },
            Job::Inspecting { goal, root } => Stage::Inspecting { goal: goal@, root: root@ },
        }
    }
}

/// What comes of a request so far.
pub enum Step {
    /// Something is needed from the system.
    Need(Job),
    /// This is the answer.
    Answer(Value),
}

/// What a `Step` stands for.
pub enum Outcome {
    Need(Stage),
    Answer(Datum),
}

impl View for Step {
    type V = Outcome;

    open spec fn view(&self) -> Outcome {
        match self {
            Step::Need(job) => Outcome::Need(job@),
            Step::Answer(v) => Outcome::Answer(v@),
        }
    }
}

/// The text of a request's argument.
pub open spec fn argument(args: Seq<Datum>, k: int) -> Option<Seq<char>> {
    if k < args.len() {
        args[k].text()
    } else {
        None
    }
}

/// The name of the command that a request gives.
pub open spec fn command(req: Datum) -> Option<Seq<char>> {
    match req {
        Datum::Array(args) => argument(args, 0),
        _ => None,
    }
}

/// What is answered to a request for the version.
pub open spec fn version_answer() -> Datum {
    Datum::Object(
        seq![
            ("version"@, Datum::Str(VERSION@)),
            (
                "capabilities"@,
                Datum::Object(
                    seq![
                        ("relative_root"@, Datum::Bool(true)),
                        ("bser-v2"@, Datum::Bool(true)),
                        ("wildmatch"@, Datum::Bool(true)),
                    ],
                ),
            ),
        ],
    )
}

/// What is answered to a request for the socket.
pub open spec fn sockname_answer(env: &Environment) -> Datum {
    Datum::Object(
        seq![
            ("version"@, Datum::Str(VERSION@)),
            (
                "sockname"@,
                Datum::Str(
                    lossy(filed(env.system, env.state_path(), encode_utf8("sock"@))),
                ),
            ),
        ],
    )
}

/// What is answered where a flag says all.
pub open spec fn flag_answer(flag: Seq<char>) -> Datum {
    Datum::Object(seq![("version"@, Datum::Str(VERSION@)), (flag, Datum::Bool(true))])
}

/// What comes of a request that needs a path: the path is to be resolved, or is
/// missing.
pub open spec fn with_path(
    args: Seq<Datum>,
    goal: Purpose,
    complaint: Seq<char>,
) -> Outcome {
    match argument(args, 1) {
        Some(path) => Outcome::Need(Stage::Resolving { goal, path }),
        None => Outcome::Answer(refusal(complaint)),
    }
}

/// What comes of a request at first.
pub open spec fn begun(req: Datum, env: &Environment) -> Outcome {
    match (req, command(req)) {
        (Datum::Array(args), Some(cmd)) => {
            if cmd == "version"@ {
                Outcome::Answer(version_answer())
            } else if cmd == "get-sockname"@ {
                Outcome::Answer(sockname_answer(env))
            } else if cmd == "watch"@ {
                with_path(args, Purpose::Watch, "watch requires a path argument"@)
            } else if cmd == "watch-project"@ {
                with_path(args, Purpose::Project, "watch-project requires a path argument"@)
            } else if cmd == "clock"@ {
                with_path(args, Purpose::Clock, "clock requires a path argument"@)
            } else if cmd == "query"@ {
                if argument(args, 1) is Some && args.len() <= 2 {
                    Outcome::Answer(refusal("query requires a query object"@))
                } else {
                    with_path(args, Purpose::Query(args[2]), "query requires a path argument"@)
                }
            } else if cmd == "flush-subscriptions"@ || cmd == "subscribe"@ || cmd
                == "unsubscribe"@ {
                Outcome::Answer(flag_answer("synced"@))
            } else if cmd == "shutdown-server"@ {
                Outcome::Answer(flag_answer("shutdown-server"@))
            } else {
                Outcome::Answer(refusal("unknown command: "@ + cmd))
            }
        },
        _ => Outcome::Answer(refusal("request must be an array with a command name"@)),
    }
}

/// The files and directories that mark a project's root.
pub open spec fn markers() -> Seq<Seq<char>> {
    seq![".watchmanconfig"@, ".git"@, ".hg"@, ".svn"@]
}

/// Where a directory holds the marker with a number.
pub open spec fn marker_path(dir: Seq<u8>, marker: usize) -> Seq<u8> {
    joined(dir, encode_utf8(markers()[marker as int]))
}

/// What is said of a path that cannot be resolved.
pub open spec fn unresolved(path: Seq<char>, e: Seq<char>) -> Seq<char> {
    "failed to resolve "@ + path + ": "@ + e
}

/// What is said of a root that cannot be watched.
pub open spec fn unwatched(root: Seq<u8>, e: Seq<char>) -> Seq<char> {
    "failed to watch "@ + lossy(root) + ": "@ + e
}

/// What comes of a request once its path is resolved, or is not.
pub open spec fn after_resolving(
    goal: Purpose,
    path: Seq<char>,
    resolved: Result<Seq<u8>, Seq<char>>,
) -> Outcome {
    match resolved {
        Err(e) => Outcome::Answer(refusal(unresolved(path, e))),
        Ok(root) => match goal {
            Purpose::Project => Outcome::Need(
                Stage::Searching { origin: root, candidate: root, marker: 0 },
            ),
            _ => Outcome::Need(Stage::Watching { goal, root, relative: None }),
        },
    }
}

/// What is left of a path within a project, if anything.
pub open spec fn within_project(path: Seq<u8>, root: Seq<u8>) -> Option<Seq<char>> {
    match behind(path, root) {
        Some(rest) => if rest.len() > 0 {
            Some(lossy(rest))
        } else {
            None
        },
        None => None,
    }
}

/// What comes of the search for a project once it is known whether a directory
/// holds a marker: the next marker is looked for, and then those of the
/// directory above; at the end the path itself is the root.
pub open spec fn after_searching(
    path: Seq<u8>,
    candidate: Seq<u8>,
    marker: usize,
    exists: bool,
) -> Stage {
    if exists {
        Stage::Watching {
            goal: Purpose::Project,
            root: candidate,
            relative: within_project(path, candidate),
        }
    } else if marker + 1 < markers().len() {
        Stage::Searching { origin: path, candidate, marker: (marker + 1) as usize }
    } else {
        match above(candidate) {
            Some(up) => Stage::Searching { origin: path, candidate: up, marker: 0 },
            None => Stage::Watching { goal: Purpose::Project, root: path, relative: None },
        }
    }
}

/// What is answered to a request to watch a root.
pub open spec fn watch_answer(root: Seq<u8>, platform: Platform) -> Datum {
    Datum::Object(
        seq![
            ("watch"@, Datum::Str(lossy(root))),
            ("watcher"@, Datum::Str(platform.reported())),
            ("version"@, Datum::Str(VERSION@)),
        ],
    )
}

/// What is answered to a request to watch a project.
pub open spec fn project_answer(
    root: Seq<u8>,
    relative: Option<Seq<char>>,
    platform: Platform,
) -> Datum {
    let pairs = seq![
        ("version"@, Datum::Str(VERSION@)),
        ("watch"@, Datum::Str(lossy(root))),
        ("watcher"@, Datum::Str(platform.reported())),
    ];
    match relative {
        Some(rel) => Datum::Object(pairs.push(("relative_path"@, Datum::Str(rel)))),
        None => Datum::Object(pairs),
    }
}

/// What comes of a request once its root is watched, or is not.
pub open spec fn after_watching(
    goal: Purpose,
    root: Seq<u8>,
    relative: Option<Seq<char>>,
    watched: Result<(), Seq<char>>,
    platform: Platform,
) -> Outcome {
    match (watched, goal) {
        (Err(e), Purpose::Watch) => Outcome::Answer(refusal(unwatched(root, e))),
        (Err(e), Purpose::Project) => Outcome::Answer(refusal(unwatched(root, e))),
        (Err(e), _) => Outcome::Answer(refusal(e)),
        (Ok(_), Purpose::Watch) => Outcome::Answer(watch_answer(root, platform)),
        (Ok(_), Purpose::Project) => Outcome::Answer(project_answer(root, relative, platform)),
        (Ok(_), Purpose::Clock) => Outcome::Need(Stage::Inspecting { goal, root }),
        (Ok(_), Purpose::Query(q)) => if query_timeout(q) > 0 {
            Outcome::Need(Stage::Syncing { goal, root, timeout: query_timeout(q) })
        } else {
            Outcome::Need(Stage::Inspecting { goal, root })
        },
    }
}

/// What is answered to a request for the clock of a root.
pub open spec fn clock_answer(pid: u32, ticks: u64, now: u64) -> Datum {
    Datum::Object(
        seq![
            ("clock"@, Datum::Str(clock_text(now, pid, ticks))),
            ("version"@, Datum::Str(VERSION@)),
        ],
    )
}

/// What is answered from what is known of a root.
pub open spec fn inspection_answer(
    goal: Purpose,
    rows: Seq<Entry>,
    pid: u32,
    ticks: u64,
    now: u64,
) -> Datum {
    match goal {
        Purpose::Query(q) => query_answer(q, rows, pid, ticks, now),
        _ => clock_answer(pid, ticks, now),
    }
}

/// What a result of the system stands for.
pub open spec fn resolution(r: Result<Vec<u8>, String>) -> Result<Seq<u8>, Seq<char>> {
    match r {
        Ok(p) => Ok(p@),
        Err(e) => Err(e@),
    }
}

/// What a result of the system stands for.
pub open spec fn achieved(r: Result<(), String>) -> Result<(), Seq<char>> {
    match r {
        Ok(_) => Ok(()),
        Err(e) => Err(e@),
    }
}

/// The text of a request's argument.
fn text_argument(args: &[Value], k: usize) -> (r: Option<&str>)
    ensures
        match r {
            Some(s) => argument(data(args@), k as int) == Some(s@),
            None => argument(data(args@), k as int) is None,
        },
{
    proof {
        lemma_data(args@);
    }
    if k < args.len() {
        assert(data(args@)[k as int] == args@[k as int]@);
        args[k].as_str()
    } else {
        None
    }
}

/// A request that needs a path.
fn need_path(args: &[Value], goal: Goal, complaint: &str) -> (r: Step)
    ensures
        r@ == with_path(data(args@), goal@, complaint@),
{
    match text_argument(args, 1) {
        Some(path) => Step::Need(Job::Resolving { goal, path: path.to_string() }),
        None => Step::Answer(err_resp(complaint)),
    }
}

/// Answers a request for the version.
fn version_response() -> (r: Value)
    ensures
        r@ == version_answer(),
{
    let capabilities = Value::obj().set("relative_root", true).set("bser-v2", true).set(
        "wildmatch",
        true,
    ).build();
    let ghost inner = capabilities@;
    let r = Value::obj().set("version", VERSION).set_value("capabilities", capabilities).build();
    proof {
        assert(inner->Object_0 =~= seq![
            ("relative_root"@, Datum::Bool(true)),
            ("bser-v2"@, Datum::Bool(true)),
            ("wildmatch"@, Datum::Bool(true)),
        ]);
        assert(r@->Object_0 =~= version_answer()->Object_0);
    }
    r
}

/// Answers a request for the socket.
fn sockname_response(env: &Environment) -> (r: Value)
    ensures
        r@ == sockname_answer(env),
{
    let path = from_utf8_lossy(sock_path(env).as_slice());
    let r = Value::obj().set("version", VERSION).set("sockname", path).build();
    assert(r@->Object_0 =~= sockname_answer(env)->Object_0);
    r
}

/// Answers where a flag says all.
fn flag_response(flag: &str) -> (r: Value)
    ensures
        r@ == flag_answer(flag@),
{
    let r = Value::obj().set("version", VERSION).set(flag, true).build();
    assert(r@->Object_0 =~= flag_answer(flag@)->Object_0);
    r
}

/// Starts to serve a request.
pub fn dispatch(req: &Value, env: &Environment) -> (r: Step)
    ensures
        r@ == begun(req@, env),
{
    let args = match req.as_array() {
        Some(args) => args,
        None => return Step::Answer(err_resp("request must be an array with a command name")),
    };
    let cmd = match text_argument(args, 0) {
        Some(c) => c,
        None => return Step::Answer(err_resp("request must be an array with a command name")),
    };
    if str_eq(cmd, "version") {
        Step::Answer(version_response())
    } else if str_eq(cmd, "get-sockname") {
        Step::Answer(sockname_response(env))
    } else if str_eq(cmd, "watch") {
        need_path(args, Goal::Watch, "watch requires a path argument")
    } else if str_eq(cmd, "watch-project") {
        need_path(args, Goal::Project, "watch-project requires a path argument")
    } else if str_eq(cmd, "clock") {
        need_path(args, Goal::Clock, "clock requires a path argument")
    } else if str_eq(cmd, "query") {
        proof {
            lemma_data(args@);
        }
        if text_argument(args, 1).is_none() {
            return Step::Answer(err_resp("query requires a path argument"));
        }
        if args.len() <= 2 {
            return Step::Answer(err_resp("query requires a query object"));
        }
        assert(data(args@)[2] == args@[2]@);
        need_path(args, Goal::Query(args[2].clone()), "query requires a path argument")
    } else if str_eq(cmd, "flush-subscriptions") || str_eq(cmd, "subscribe") || str_eq(
        cmd,
        "unsubscribe",
    ) {
        Step::Answer(flag_response("synced"))
    } else if str_eq(cmd, "shutdown-server") {
        Step::Answer(flag_response("shutdown-server"))
    } else {
        let mut msg = "unknown command: ".to_string();
        msg.append(cmd);
        Step::Answer(err_resp(msg.as_str()))
    }
}

/// The name of a marker.
fn marker_name(k: usize) -> (r: &'static str)
    requires
        k < markers().len(),
    ensures
        r@ == markers()[k as int],
{
    if k == 0 {
        ".watchmanconfig"
    } else if k == 1 {
        ".git"
    } else if k == 2 {
        ".hg"
    } else {
        ".svn"
    }
}

/// Copies bytes.
fn copy(b: &[u8]) -> (r: Vec<u8>)
    ensures
        r@ == b@,
{
    vstd::slice::slice_to_vec(b)
}

/// What is left of a path within a project.
fn project_relative(path: &[u8], root: &[u8]) -> (r: Option<String>)
    ensures
        optional_text(r) == within_project(path@, root@),
{
    match strip_prefix(path, root) {
        Some(rest) => if rest.len() > 0 {
            Some(from_utf8_lossy(rest.as_slice()))
        } else {
            None
        },
        None => None,
    }
}

/// Refuses a request on which something failed.
fn failed(front: &str, what: &str, e: &str) -> (r: Value)
    ensures
        r@ == refusal(front@ + what@ + ": "@ + e@),
{
    let mut msg = front.to_string();
    msg.append(what);
    msg.append(": ");
    msg.append(e);
    err_resp(msg.as_str())
}

/// Answers a request to watch a root.
fn watch_response(root: &[u8], platform: Platform) -> (r: Value)
    ensures
        r@ == watch_answer(root@, platform),
{
    let r = Value::obj().set("watch", from_utf8_lossy(root)).set(
        "watcher",
        watcher_name(platform),
    ).set("version", VERSION).build();
    assert(r@->Object_0 =~= watch_answer(root@, platform)->Object_0);
    r
}

/// Answers a request to watch a project.
fn project_response(root: &[u8], relative: Option<String>, platform: Platform) -> (r: Value)
    ensures
        r@ == project_answer(root@, optional_text(relative), platform),
{
    let obj = Value::obj().set("version", VERSION).set("watch", from_utf8_lossy(root)).set(
        "watcher",
        watcher_name(platform),
    );
    let ghost pairs = obj@;
    assert(pairs =~= seq![
        ("version"@, Datum::Str(VERSION@)),
        ("watch"@, Datum::Str(lossy(root@))),
        ("watcher"@, Datum::Str(platform.reported())),
    ]);
    match relative {
        Some(rel) => obj.set("relative_path", rel).build(),
        None => obj.build(),
    }
}

impl Job {
    /// The file to look for next in the search for a project.
    pub fn probe(&self) -> (r: Vec<u8>)
        requires
            self is Searching,
            self->marker < markers().len(),
        ensures
            r@ == marker_path(self->candidate@, self->marker),
    {
        match self {
            Job::Searching { origin: _, candidate, marker } => join(
                candidate.as_slice(),
                marker_name(*marker).as_bytes(),
            ),
            _ => Vec::new(),
        }
    }

    /// Goes on once the path is resolved, or is not.
    pub fn resolved(self, resolved: Result<Vec<u8>, String>) -> (r: Step)
        requires
            self is Resolving,
        ensures
            r@ == after_resolving(
                self@->Resolving_goal,
                self@->path,
                resolution(resolved),
            ),
    {
        match self {
            Job::Resolving { goal, path } => match resolved {
                Err(e) => Step::Answer(failed("failed to resolve ", path.as_str(), e.as_str())),
                Ok(root) => match goal {
                    Goal::Project => {
                        let origin = copy(root.as_slice());
                        Step::Need(Job::Searching { origin, candidate: root, marker: 0 })
                    },
                    _ => Step::Need(Job::Watching { goal, root, relative: None }),
                },
            },
            other => Step::Need(other),
        }
    }

    /// Goes on with the search for a project once it is known whether the file
    /// that was looked for exists.
    pub fn probed(self, exists: bool) -> (r: Job)
        requires
            self is Searching,
            self->marker < markers().len(),
        ensures
            r@ == after_searching(
                self@->origin,
                self@->candidate,
                self@->marker,
                exists,
            ),
            r is Searching ==> r->marker < markers().len(),
    {
        match self {
            Job::Searching { origin, candidate, marker } => {
                if exists {
                    let relative = project_relative(origin.as_slice(), candidate.as_slice());
                    Job::Watching { goal: Goal::Project, root: candidate, relative }
                } else if marker < 3 {
                    Job::Searching { origin, candidate, marker: marker + 1 }
                } else {
                    match parent(candidate.as_slice()) {
                        Some(up) => Job::Searching { origin, candidate: up, marker: 0 },
                        None => Job::Watching { goal: Goal::Project, root: origin, relative: None },
                    }
                }
            },
            other => other,
        }
    }

    /// Goes on once the root is watched, or is not.
    pub fn watched(self, watched: Result<(), String>, platform: Platform) -> (r: Step)
        requires
            self is Watching,
        ensures
            r@ == after_watching(
                self@->Watching_goal,
                self@->Watching_root,
                self@->relative,
                achieved(watched),
                platform,
            ),
    {
        match self {
            Job::Watching { goal, root, relative } => match watched {
                Err(e) => match goal {
                    Goal::Watch | Goal::Project => {
                        let shown = from_utf8_lossy(root.as_slice());
                        Step::Answer(failed("failed to watch ", shown.as_str(), e.as_str()))
                    },
                    _ => Step::Answer(err_resp(e.as_str())),
                },
                Ok(_) => match goal {
                    Goal::Watch => Step::Answer(watch_response(root.as_slice(), platform)),
                    Goal::Project => Step::Answer(
                        project_response(root.as_slice(), relative, platform),
                    ),
                    Goal::Clock => Step::Need(Job::Inspecting { goal: Goal::Clock, root }),
                    Goal::Query(q) => {
                        let timeout: u64 = sync_timeout(&q);
                        if timeout > 0 {
                            Step::Need(Job::Syncing { goal: Goal::Query(q), root, timeout })
                        } else {
                            Step::Need(Job::Inspecting { goal: Goal::Query(q), root })
                        }
                    },
                },
            },
            other => Step::Need(other),
        }
    }

    /// Goes on once the watcher has caught up, or has had its time.
    pub fn synced(self) -> (r: Job)
        requires
            self is Syncing,
        ensures
            r@ == (Stage::Inspecting { goal: self@->Syncing_goal, root: self@->Syncing_root }),
    {
        match self {
            Job::Syncing { goal, root, timeout: _ } => Job::Inspecting { goal, root },
            other => other,
        }
    }

    /// Answers from what is known of the root, at a time in seconds.
    pub fn inspected(self, tree: &Tree, now: u64) -> (r: Value)
        requires
            self is Inspecting,
        ensures
            r@ == inspection_answer(
                self@->Inspecting_goal,
                tree.rows(),
                tree.pid(),
                tree.ticks(),
                now,
            ),
    {
        match self {
            Job::Inspecting { goal: Goal::Query(q), root: _ } => answer_query(&q, tree, now),
            _ => {
                let r = Value::obj().set("clock", tree.clock(now)).set("version", VERSION).build();
                assert(r@->Object_0 =~= clock_answer(tree.pid(), tree.ticks(), now)->Object_0);
                r
            },
        }
    }
}

/// The roots that are watched, for all clients together: each by its text, with what
/// the clients share of it.
pub struct Daemon<R> {
    index: StringHashMap<usize>,
    roots: Vec<R>,
}

impl<R> Daemon<R> {
    /// The number that each root has under its text.
    pub closed spec fn numbers(&self) -> Map<Seq<char>, usize> {
        self.index@
    }

    /// What is shared of the roots, by number.
    pub closed spec fn roots(&self) -> Seq<R> {
        self.roots@
    }

    /// Every number is that of a root, and no two texts have the same.
    pub open spec fn wf(&self) -> bool {
        &&& forall|t: Seq<char>| #[trigger]
            self.numbers().contains_key(t) ==> self.numbers()[t] < self.roots().len()
        &&& forall|s: Seq<char>, t: Seq<char>|
            #![trigger self.numbers().contains_key(s), self.numbers().contains_key(t)]
            self.numbers().contains_key(s) && self.numbers().contains_key(t) && self.numbers()[s]
                == self.numbers()[t] ==> s == t
    }

    /// Nothing is watched yet.
    pub fn new() -> (r: Self)
        ensures
            r.wf(),
            r.numbers() == Map::<Seq<char>, usize>::empty(),
            r.roots() == Seq::<R>::empty(),
    {
        Daemon { index: StringHashMap::new(), roots: Vec::new() }
    }

    /// The number of a root that is watched already.
    pub fn find(&self, root: &[u8]) -> (r: Option<usize>)
        ensures
            match r {
                Some(k) => self.numbers().contains_pair(lossy(root@), k),
                None => !self.numbers().contains_key(lossy(root@)),
            },
    {
        let key = from_utf8_lossy(root);
        match self.index.get(key.as_str()) {
            Some(k) => Some(*k),
            None => None,
        }
    }

    /// Takes note of a root that is watched from now on, and numbers it. A root
    /// that was watched already keeps its number, and what is shared of it.
    pub fn watch(&mut self, root: &[u8], state: R) -> (r: usize)
        requires
            old(self).wf(),
        ensures
            final(self).wf(),
            final(self).numbers().contains_pair(lossy(root@), r),
            r < final(self).roots().len(),
            if old(self).numbers().contains_key(lossy(root@)) {
                &&& final(self).numbers() == old(self).numbers()
                &&& final(self).roots() == old(self).roots()
            } else {
                &&& r == old(self).roots().len()
                &&& final(self).numbers() == old(self).numbers().insert(lossy(root@), r)
                &&& final(self).roots() == old(self).roots().push(state)
            },
    {
        match self.find(root) {
            Some(k) => k,
            None => {
                let k: usize = self.roots.len();
                self.index.insert(from_utf8_lossy(root), k);
                self.roots.push(state);
                assert forall|t: Seq<char>| #[trigger]
                    self.numbers().contains_key(t) implies self.numbers()[t]
                    < self.roots().len() by {
                    if t != lossy(root@) {
                        assert(old(self).numbers().contains_key(t));
                    }
                }
                assert forall|s: Seq<char>, t: Seq<char>|
                    #![trigger self.numbers().contains_key(s), self.numbers().contains_key(t)]
                    self.numbers().contains_key(s) && self.numbers().contains_key(t)
                        && self.numbers()[s] == self.numbers()[t] implies s == t by {
                    if s != lossy(root@) {
                        assert(old(self).numbers().contains_key(s));
                    }
                    if t != lossy(root@) {
                        assert(old(self).numbers().contains_key(t));
                    }
                }
                k
            },
        }
    }

    /// What is shared of the root with a number.
    pub fn root(&self, k: usize) -> (r: &R)
        requires
            k < self.roots().len(),
        ensures
            *r == self.roots()[k as int],
    {
        &self.roots[k]
    }
}

/// The value under a key is that of the first member with it.
proof fn lemma_lookup(pairs: Seq<(Seq<char>, Datum)>, key: Seq<char>, n: int)
    requires
        0 <= n < pairs.len(),
        pairs[n].0 == key,
        forall|k: int| 0 <= k < n ==> (#[trigger] pairs[k]).0 != key,
    ensures
        find(pairs, key) == Some(pairs[n].1),
    decreases pairs.len(),
{
    let front = pairs.drop_last();
    if n < front.len() {
        assert(front[n] == pairs[n]);
        assert forall|k: int| 0 <= k < n implies (#[trigger] front[k]).0 != key by {
            assert(front[k] == pairs[k]);
        }
        lemma_lookup(front, key, n);
    } else {
        assert forall|k: int| 0 <= k < front.len() implies (#[trigger] front[k]).0 != key by {
            assert(front[k] == pairs[k]);
        }
        lemma_lookup_none(front, key);
    }
}

/// No value is under a key that no member has.
proof fn lemma_lookup_none(pairs: Seq<(Seq<char>, Datum)>, key: Seq<char>)
    requires
        forall|k: int| 0 <= k < pairs.len() ==> (#[trigger] pairs[k]).0 != key,
    ensures
        find(pairs, key) is None,
    decreases pairs.len(),
{
    if pairs.len() > 0 {
        let front = pairs.drop_last();
        assert forall|k: int| 0 <= k < front.len() implies (#[trigger] front[k]).0 != key by {
            assert(front[k] == pairs[k]);
        }
        lemma_lookup_none(front, key);
        assert(pairs.last() == pairs[pairs.len() - 1]);
    }
}

/// The keys that may stand before the version are other than its own.
proof fn lemma_version_key()
    ensures
        "error"@ != "version"@,
        "watch"@ != "version"@,
        "watcher"@ != "version"@,
        "clock"@ != "version"@,
{
    reveal_strlit("error");
    reveal_strlit("version");
    reveal_strlit("watch");
    reveal_strlit("watcher");
    reveal_strlit("clock");
    assert("watcher"@[0] == 'w');
    assert("version"@[0] == 'v');
}

/// Whether an answer is an object that tells the version.
pub open spec fn tells_version(v: Datum) -> bool {
    v is Object && v.lookup("version"@) == Some(Datum::Str(VERSION@))
}

/// A request that is refused is answered with what is wrong and with the version,
/// and with nothing else.
pub proof fn law_refusals_say_why(msg: Seq<char>)
    ensures
        refusal(msg).lookup("error"@) == Some(Datum::Str(msg)),
        tells_version(refusal(msg)),
        forall|key: Seq<char>|
            key != "error"@ && key != "version"@ ==> #[trigger] refusal(msg).lookup(key) is None,
        refusal(msg)->Object_0.len() == 2,
{
    let pairs = refusal(msg)->Object_0;
    lemma_version_key();
    assert(pairs[0].0 == "error"@ && pairs[1].0 == "version"@);
    lemma_lookup(pairs, "error"@, 0);
    lemma_lookup(pairs, "version"@, 1);
    assert forall|key: Seq<char>| key != "error"@ && key != "version"@ implies #[trigger] refusal(
        msg,
    ).lookup(key) is None by {
        lemma_lookup_none(pairs, key);
    }
}

/// The answers to a query, and to a request for a clock, tell the version.
proof fn lemma_inspections_tell(
    goal: Purpose,
    rows: Seq<Entry>,
    pid: u32,
    ticks: u64,
    now: u64,
)
    ensures
        tells_version(inspection_answer(goal, rows, pid, ticks, now)),
{
    lemma_version_key();
    let pairs = inspection_answer(goal, rows, pid, ticks, now)->Object_0;
    match goal {
        Purpose::Query(q) => match query_expression(q) {
            Err(msg) => law_refusals_say_why("bad expression: "@ + msg),
            Ok(_) => {
                assert(pairs[0] == ("version"@, Datum::Str(VERSION@)));
                lemma_lookup(pairs, "version"@, 0);
            },
        },
        _ => {
            assert(pairs[0].0 == "clock"@);
            assert(pairs[1] == ("version"@, Datum::Str(VERSION@)));
            lemma_lookup(pairs, "version"@, 1);
        },
    }
}

/// The answers to requests to watch tell the version.
proof fn lemma_watches_tell(root: Seq<u8>, relative: Option<Seq<char>>, platform: Platform)
    ensures
        tells_version(watch_answer(root, platform)),
        tells_version(project_answer(root, relative, platform)),
{
    lemma_version_key();
    let one = watch_answer(root, platform)->Object_0;
    assert(one[0].0 == "watch"@ && one[1].0 == "watcher"@);
    assert(one[2] == ("version"@, Datum::Str(VERSION@)));
    lemma_lookup(one, "version"@, 2);
    let other = project_answer(root, relative, platform)->Object_0;
    assert(other[0] == ("version"@, Datum::Str(VERSION@)));
    lemma_lookup(other, "version"@, 0);
}

/// Every answer is an object that tells the version, whatever was asked and at
/// whichever step it is given: at once, once the path is resolved or is not, once
/// the root is watched or is not, and once what is known of it is looked at.
pub proof fn law_answers_tell_the_version(
    req: Datum,
    env: &Environment,
    goal: Purpose,
    path: Seq<char>,
    resolved: Result<Seq<u8>, Seq<char>>,
    root: Seq<u8>,
    relative: Option<Seq<char>>,
    watched: Result<(), Seq<char>>,
    platform: Platform,
    rows: Seq<Entry>,
    pid: u32,
    ticks: u64,
    now: u64,
)
    ensures
        match begun(req, env) {
            Outcome::Answer(v) => tells_version(v),
            Outcome::Need(_) => true,
        },
        match after_resolving(goal, path, resolved) {
            Outcome::Answer(v) => tells_version(v),
            Outcome::Need(_) => true,
        },
        match after_watching(goal, root, relative, watched, platform) {
            Outcome::Answer(v) => tells_version(v),
            Outcome::Need(_) => true,
        },
        tells_version(inspection_answer(goal, rows, pid, ticks, now)),
{
    lemma_first_answers_tell(req, env);
    if resolved is Err {
        law_refusals_say_why(unresolved(path, resolved->Err_0));
    }
    lemma_watches_tell(root, relative, platform);
    if watched is Err {
        law_refusals_say_why(unwatched(root, watched->Err_0));
        law_refusals_say_why(watched->Err_0);
    }
    lemma_inspections_tell(goal, rows, pid, ticks, now);
}

/// The answers that need nothing from the system tell the version.
proof fn lemma_first_answers_tell(req: Datum, env: &Environment)
    ensures
        match begun(req, env) {
            Outcome::Answer(v) => tells_version(v),
            Outcome::Need(_) => true,
        },
{
    match begun(req, env) {
        Outcome::Answer(v) => {
            if v is Object && v->Object_0.len() > 0 && v->Object_0[0] == (
                "version"@,
                Datum::Str(VERSION@),
            ) {
                lemma_lookup(v->Object_0, "version"@, 0);
            } else {
                match command(req) {
                    Some(cmd) => {
                        law_refusals_say_why("unknown command: "@ + cmd);
                    },
                    None => {},
                }
                law_refusals_say_why("request must be an array with a command name"@);
                law_refusals_say_why("watch requires a path argument"@);
                law_refusals_say_why("watch-project requires a path argument"@);
                law_refusals_say_why("clock requires a path argument"@);
                law_refusals_say_why("query requires a path argument"@);
                law_refusals_say_why("query requires a query object"@);
            }
        },
        Outcome::Need(_) => {},
    }
}

/// What is no array with a command name at its front is refused, whatever it is.
pub proof fn law_malformed_requests_are_refused(req: Datum, env: &Environment)
    requires
        command(req) is None,
    ensures
        begun(req, env) == Outcome::Answer(
            refusal("request must be an array with a command name"@),
        ),
{
}

/// Whether a command is one of those that are known.
pub open spec fn is_known(cmd: Seq<char>) -> bool {
    ||| cmd == "version"@
    ||| cmd == "get-sockname"@
    ||| cmd == "watch"@
    ||| cmd == "watch-project"@
    ||| cmd == "clock"@
    ||| cmd == "query"@
    ||| cmd == "flush-subscriptions"@
    ||| cmd == "subscribe"@
    ||| cmd == "unsubscribe"@
    ||| cmd == "shutdown-server"@
}

/// A command that is not known is refused by its name, whatever its arguments.
pub proof fn law_unknown_commands_are_refused(req: Datum, cmd: Seq<char>, env: &Environment)
    requires
        command(req) == Some(cmd),
        !is_known(cmd),
    ensures
        begun(req, env) == Outcome::Answer(refusal("unknown command: "@ + cmd)),
{
}

/// Whether a directory holds one of the markers of a project.
pub open spec fn marked(dir: Seq<u8>, disk: spec_fn(Seq<u8>) -> bool) -> bool {
    exists|k: int|
        0 <= k < markers().len() && disk(joined(dir, encode_utf8(#[trigger] markers()[k])))
}

/// The project of a path, as looked for from a directory upwards: the nearest
/// directory that holds a marker, with what is left of the path in it; else the
/// path itself.
pub open spec fn project(
    path: Seq<u8>,
    candidate: Seq<u8>,
    disk: spec_fn(Seq<u8>) -> bool,
) -> (Seq<u8>, Option<Seq<char>>)
    decreases candidate.len(),
{
    if marked(candidate, disk) {
        (candidate, within_project(path, candidate))
    } else {
        match above(candidate) {
            Some(up) => if up.len() < candidate.len() {
                project(path, up, disk)
            } else {
                (path, None)
            },
            None => (path, None),
        }
    }
}

/// Where the search for a project ends, if the disk answers each question.
pub open spec fn searched(
    path: Seq<u8>,
    candidate: Seq<u8>,
    marker: usize,
    disk: spec_fn(Seq<u8>) -> bool,
) -> Stage
    decreases candidate.len(), markers().len() - marker,
{
    let exists = disk(marker_path(candidate, marker));
    match after_searching(path, candidate, marker, exists) {
        Stage::Searching { origin: p, candidate: c, marker: m } => if marker < markers().len() && (
        c.len() < candidate.len() || (c.len() == candidate.len() && marker < m <= markers().len())) {
            searched(p, c, m, disk)
        } else {
            after_searching(path, candidate, marker, exists)
        },
        other => other,
    }
}

/// A path without its last component is shorter.
proof fn lemma_above_shorter(p: Seq<u8>)
    ensures
        match above(p) {
            Some(up) => up.len() < p.len(),
            None => true,
        },
{
    lemma_spans(p);
    let all = spans(p);
    if all.len() >= 2 {
        assert(all[all.len() - 2].1 <= all[all.len() - 1].0);
        assert(all[all.len() - 1].0 < all[all.len() - 1].1 <= p.len());
        assert(0 <= all[all.len() - 2].0 < all[all.len() - 2].1);
    } else if all.len() == 1 {
        assert(all[0].0 < all[0].1 <= p.len());
    }
}

/// The search for a project that starts at a marker, of which those before are
/// known to be missing, ends at the nearest directory that holds one.
proof fn lemma_search(
    path: Seq<u8>,
    candidate: Seq<u8>,
    marker: usize,
    disk: spec_fn(Seq<u8>) -> bool,
)
    requires
        marker < markers().len(),
        forall|k: int|
            0 <= k < marker ==> !disk(joined(candidate, encode_utf8(#[trigger] markers()[k]))),
    ensures
        ({
            let (root, relative) = project(path, candidate, disk);
            searched(path, candidate, marker, disk) == (Stage::Watching {
                goal: Purpose::Project,
                root,
                relative,
            })
        }),
    decreases candidate.len(), markers().len() - marker,
{
    let exists = disk(marker_path(candidate, marker));
    lemma_above_shorter(candidate);
    if exists {
        assert(marked(candidate, disk));
    } else if marker + 1 < markers().len() {
        lemma_search(path, candidate, (marker + 1) as usize, disk);
    } else {
        assert(!marked(candidate, disk));
        match above(candidate) {
            Some(up) => lemma_search(path, up, 0, disk),
            None => {},
        }
    }
}

/// The search for the project of a path finds the nearest directory, from the
/// path upwards, that holds a marker; and where none does, the path itself.
pub proof fn law_nearest_marked_directory(path: Seq<u8>, disk: spec_fn(Seq<u8>) -> bool)
    ensures
        ({
            let (root, relative) = project(path, path, disk);
            searched(path, path, 0, disk) == (Stage::Watching {
                goal: Purpose::Project,
                root,
                relative,
            })
        }),
{
    lemma_search(path, path, 0, disk);
}

/// Where a path stands within a root: the root and what is left of the path, joined,
/// have the components of the path; and where nothing is left, the root has.
pub open spec fn locates(root: Seq<u8>, left: Option<Seq<char>>, path: Seq<u8>) -> bool {
    match left {
        Some(text) => exists|rest: Seq<u8>|
            behind(path, root) == Some(rest) && text == lossy(rest) && components(
                #[trigger] joined(root, rest),
            ) == components(path),
        None => components(root) == components(path),
    }
}

/// What is left of a path within a root that it lies in tells where it stands.
proof fn lemma_within_project(path: Seq<u8>, root: Seq<u8>)
    requires
        within(path, root),
    ensures
        locates(root, within_project(path, root), path),
{
    law_joined_rest(path, root);
    let rest = behind(path, root)->0;
    if rest.len() > 0 {
        assert(components(joined(root, rest)) == components(path));
    }
}

/// What lies in a path lies in the path above it.
proof fn lemma_within_above(path: Seq<u8>, candidate: Seq<u8>)
    requires
        within(path, candidate),
        above(candidate) is Some,
    ensures
        within(path, above(candidate)->0),
{
    law_components_above(candidate);
    let up = components(above(candidate)->0);
    let all = components(path);
    assert(components(candidate) =~= all.take(components(candidate).len() as int));
    assert(up =~= all.take(up.len() as int));
}

/// A project that is looked for from a directory that a path lies in holds the path.
proof fn lemma_project_holds(path: Seq<u8>, candidate: Seq<u8>, disk: spec_fn(Seq<u8>) -> bool)
    requires
        within(path, candidate),
    ensures
        ({
            let (root, left) = project(path, candidate, disk);
            within(path, root) && locates(root, left, path)
        }),
    decreases candidate.len(),
{
    lemma_within_project(path, candidate);
    assert(components(path) =~= components(path).take(components(path).len() as int));
    if !marked(candidate, disk) {
        match above(candidate) {
            Some(up) => {
                lemma_within_above(path, candidate);
                if up.len() < candidate.len() {
                    lemma_project_holds(path, up, disk);
                }
            },
            None => {},
        }
    }
}

/// The project of a path holds the path: its root, joined with what a client is told
/// is left of the path, has the components of the path.
pub proof fn law_project_holds_the_path(path: Seq<u8>, disk: spec_fn(Seq<u8>) -> bool)
    ensures
        ({
            let (root, left) = project(path, path, disk);
            within(path, root) && locates(root, left, path)
        }),
{
    assert(components(path) =~= components(path).take(components(path).len() as int));
    lemma_project_holds(path, path, disk);
}

/// Whether a query asks about a file: it changed since, if that is asked, it is no
/// cookie, and the expression holds of it, if there is one.
pub open spec fn asked_for(f: Entry, since: Option<u64>, expr: Option<Term>) -> bool {
    (match since {
        Some(ticks) => f.ctick > ticks,
        None => true,
    }) && reported(f, expr)
}

/// A query reports every file that it asks about, and no other. No cookie is ever
/// reported.
pub proof fn law_query_reports_what_it_asks_for(
    rows: Seq<Entry>,
    since: Option<u64>,
    expr: Option<Term>,
)
    ensures
        forall|k: int|
            0 <= k < matching(rows, since, expr).len() ==> asked_for(
                #[trigger] matching(rows, since, expr)[k],
                since,
                expr,
            ) && rows.contains(matching(rows, since, expr)[k]) && !cookie_name(
                matching(rows, since, expr)[k].name,
            ),
        forall|k: int|
            0 <= k < rows.len() && asked_for(#[trigger] rows[k], since, expr) ==> matching(
                rows,
                since,
                expr,
            ).contains(rows[k]),
{
    let keep = |f: Entry| reported(f, expr);
    let looked = candidates(rows, since);
    let found = matching(rows, since, expr);
    lemma_candidates(rows, since);
    assert forall|k: int| 0 <= k < found.len() implies asked_for(
        #[trigger] found[k],
        since,
        expr,
    ) && rows.contains(found[k]) && !cookie_name(found[k].name) by {
        looked.lemma_filter_pred(keep, k);
        lemma_filter_from(looked, keep, k);
        let j = choose|j: int| 0 <= j < looked.len() && looked[j] == found[k];
        assert(rows.contains(looked[j]));
    }
    assert forall|k: int|
        0 <= k < rows.len() && asked_for(#[trigger] rows[k], since, expr) implies found.contains(
        rows[k],
    ) by {
        assert(looked.contains(rows[k]));
        let j = choose|j: int| 0 <= j < looked.len() && looked[j] == rows[k];
        looked.lemma_filter_contains(keep, j);
    }
}

/// What is left of a row stood in it.
proof fn lemma_filter_from(rows: Seq<Entry>, keep: spec_fn(Entry) -> bool, k: int)
    requires
        0 <= k < rows.filter(keep).len(),
    ensures
        rows.contains(rows.filter(keep)[k]),
    decreases rows.len(),
{
    reveal(Seq::filter);
    if rows.len() > 0 {
        let front = rows.drop_last();
        if k < front.filter(keep).len() {
            lemma_filter_from(front, keep, k);
            let j = choose|j: int| 0 <= j < front.len() && front[j] == front.filter(keep)[k];
            assert(rows[j] == rows.filter(keep)[k]);
        } else {
            assert(rows[rows.len() - 1] == rows.filter(keep)[k]);
        }
    }
}

/// The files that a query looks at are those that changed since.
proof fn lemma_candidates(rows: Seq<Entry>, since: Option<u64>)
    ensures
        forall|k: int|
            0 <= k < candidates(rows, since).len() ==> rows.contains(
                #[trigger] candidates(rows, since)[k],
            ) && (since is Some ==> candidates(rows, since)[k].ctick > since->0),
        forall|k: int|
            0 <= k < rows.len() && (since is Some ==> (#[trigger] rows[k]).ctick > since->0)
                ==> candidates(rows, since).contains(rows[k]),
{
    match since {
        Some(ticks) => {
            let later = |e: Entry| e.ctick > ticks;
            let looked = candidates(rows, since);
            assert forall|k: int| 0 <= k < looked.len() implies rows.contains(#[trigger] looked[k])
                && looked[k].ctick > ticks by {
                rows.lemma_filter_pred(later, k);
                lemma_filter_from(rows, later, k);
            }
            assert forall|k: int|
                0 <= k < rows.len() && (#[trigger] rows[k]).ctick > ticks implies looked.contains(
                rows[k],
            ) by {
                rows.lemma_filter_contains(later, k);
            }
        },
        None => {},
    }
}

/// A query since a clock that was taken before a file changed reports that file
/// and nothing else: one that exists as new if and only if it was never observed
/// to exist before, and one that is gone if it was not known at all.
pub proof fn law_query_since_a_clock(
    query: Datum,
    rows: Seq<Entry>,
    name: Seq<char>,
    meta: Option<Metadata>,
    pid: u32,
    ticks: u64,
    then: u64,
    now: u64,
)
    requires
        distinct(rows),
        timely(rows, ticks),
        ticks < u64::MAX,
        !cookie_name(name),
        query.lookup("since"@) == Some(Datum::Str(clock_text(then, pid, ticks))),
        query.lookup("expression"@) is None,
    ensures
        ({
            let after = changed(rows, name, meta, (ticks + 1) as u64);
            let f = after[place(after, name)->0];
            &&& f.name == name
            &&& f.exists == (meta is Some)
            &&& query_answer(query, after, pid, (ticks + 1) as u64, now) == Datum::Object(
                seq![
                    ("version"@, Datum::Str(VERSION@)),
                    ("clock"@, Datum::Str(clock_text(now, pid, (ticks + 1) as u64))),
                    ("is_fresh_instance"@, Datum::Bool(false)),
                    (
                        "files"@,
                        Datum::Array(
                            seq![
                                file_datum(
                                    f,
                                    query_fields(query),
                                    if meta is Some {
                                        !was_seen(rows, name)
                                    } else {
                                        place(rows, name) is None
                                    },
                                ),
                            ],
                        ),
                    ),
                ],
            )
        }),
{
    let after = changed(rows, name, meta, (ticks + 1) as u64);
    let f = after[place(after, name)->0];
    law_clock_round_trip(then, pid, ticks);
    law_since_finds_the_change(rows, name, meta, ticks);
    law_known_files_are_not_new(rows, name, meta, ticks);
    let since = query_since(query);
    assert(since == Some(ticks));
    let keep = |e: Entry| reported(e, None);
    assert(candidates(after, since) == seq![f]);
    assert(matching(after, since, None) =~= seq![f]) by {
        reveal(Seq::filter);
        assert(seq![f].drop_last() =~= Seq::<Entry>::empty());
        assert(Seq::<Entry>::empty().filter(keep) =~= Seq::<Entry>::empty());
        assert(seq![f].filter(keep) =~= seq![f]);
    }
    assert(file_data(seq![f], query_fields(query), since) =~= seq![
        file_datum(f, query_fields(query), f.first_tick > ticks),
    ]);
}

/// What a query is answered that asks for changes and finds none.
pub open spec fn nothing_changed(pid: u32, ticks: u64, now: u64) -> Datum {
    Datum::Object(
        seq![
            ("version"@, Datum::Str(VERSION@)),
            ("clock"@, Datum::Str(clock_text(now, pid, ticks))),
            ("is_fresh_instance"@, Datum::Bool(false)),
            ("files"@, Datum::Array(Seq::empty())),
        ],
    )
}

/// A query since a clock after which nothing but cookies has changed is answered
/// with no files, and not as if all had to be told anew.
pub proof fn law_query_since_a_quiet_clock(
    query: Datum,
    rows: Seq<Entry>,
    since: u64,
    pid: u32,
    ticks: u64,
    now: u64,
)
    requires
        query_since(query) == Some(since),
        query_expression(query) is Ok,
        forall|k: int|
            0 <= k < rows.len() && (#[trigger] rows[k]).ctick > since ==> cookie_name(rows[k].name),
    ensures
        query_answer(query, rows, pid, ticks, now) == nothing_changed(pid, ticks, now),
{
    let expr = query_expression(query)->Ok_0;
    let found = matching(rows, Some(since), expr);
    law_query_reports_what_it_asks_for(rows, Some(since), expr);
    if found.len() > 0 {
        let k = choose|k: int| 0 <= k < rows.len() && rows[k] == found[0];
        assert(rows[k].ctick > since);
    }
    assert(file_data(found, query_fields(query), Some(since)) =~= Seq::<Datum>::empty());
}

/// A query since the clock that a client was told, as long as nothing but cookies has
/// changed after it, is answered with no files, and not as if all had to be told
/// anew. That clock may be the one of this very moment.
pub proof fn law_query_since_now(
    query: Datum,
    rows: Seq<Entry>,
    root: Seq<u8>,
    ignore: Ignore,
    batch: Seq<(Seq<u8>, Option<Metadata>)>,
    pid: u32,
    ticks: u64,
    then: u64,
    now: u64,
)
    requires
        distinct(rows),
        timely(rows, ticks),
        ticks + heeded(root, ignore, batch) <= u64::MAX,
        forall|i: int|
            0 <= i < batch.len() && !passed_over(
                root,
                ignore.dirs(),
                ignore.names(),
                (#[trigger] batch[i]).0,
            ) ==> cookie_name(relative(root, batch[i].0)),
        query.lookup("since"@) == Some(Datum::Str(clock_text(then, pid, ticks))),
        query_expression(query) is Ok,
    ensures
        query_answer(query, rows, pid, ticks, now) == nothing_changed(pid, ticks, now),
        ({
            let after = recorded(rows, root, ignore, batch, ticks);
            let later = (ticks + heeded(root, ignore, batch)) as u64;
            query_answer(query, after, pid, later, now) == nothing_changed(pid, later, now)
        }),
{
    law_clock_round_trip(then, pid, ticks);
    law_query_since_a_quiet_clock(query, rows, ticks, pid, ticks, now);
    let after = recorded(rows, root, ignore, batch, ticks);
    let later = (ticks + heeded(root, ignore, batch)) as u64;
    let found = newer(after, ticks);
    law_since_finds_the_batch(rows, root, ignore, batch, ticks);
    assert forall|k: int|
        0 <= k < after.len() && (#[trigger] after[k]).ctick > ticks implies cookie_name(
        after[k].name,
    ) by {
        after.lemma_filter_contains(|e: Entry| e.ctick > ticks, k);
        let j = choose|j: int| 0 <= j < found.len() && found[j] == after[k];
        assert(reports(root, ignore, batch, found[j].name));
        let i = choose|i: int|
            0 <= i < batch.len() && found[j].name == relative(root, (#[trigger] batch[i]).0)
                && !passed_over(root, ignore.dirs(), ignore.names(), batch[i].0);
        assert(cookie_name(relative(root, batch[i].0)));
    }
    law_query_since_a_quiet_clock(query, after, ticks, pid, later, now);
}

/// What the system does for a request: how it resolves paths, which files exist,
/// which roots can be watched, what is then known of each, and the time.
pub struct World {
    pub resolve: spec_fn(Seq<char>) -> Result<Seq<u8>, Seq<char>>,
    pub exists: spec_fn(Seq<u8>) -> bool,
    pub watch: spec_fn(Seq<u8>) -> Result<(), Seq<char>>,
    pub rows: spec_fn(Seq<u8>) -> Seq<Entry>,
    pub pid: u32,
    pub ticks: spec_fn(Seq<u8>) -> u64,
    pub now: u64,
    pub platform: Platform,
}

/// What a request is answered in the end, once its path is resolved.
pub open spec fn settled(stage: Stage, world: World) -> Datum {
    match stage {
        Stage::Searching { origin, candidate, marker } => match searched(
            origin,
            candidate,
            marker,
            world.exists,
        ) {
            Stage::Watching { goal, root, relative } => watched_answer(
                goal,
                root,
                relative,
                world,
            ),
            _ => arbitrary(),
        },
        Stage::Watching { goal, root, relative } => watched_answer(goal, root, relative, world),
        Stage::Syncing { goal, root, timeout: _ } => inspected_answer(goal, root, world),
        Stage::Inspecting { goal, root } => inspected_answer(goal, root, world),
        Stage::Resolving { .. } => arbitrary(),
    }
}

/// What a request is answered in the end, once what is known of its root is to be
/// looked at.
pub open spec fn inspected_answer(goal: Purpose, root: Seq<u8>, world: World) -> Datum {
    inspection_answer(goal, (world.rows)(root), world.pid, (world.ticks)(root), world.now)
}

/// What a request is answered in the end, once its root is to be watched.
pub open spec fn watched_answer(
    goal: Purpose,
    root: Seq<u8>,
    relative: Option<Seq<char>>,
    world: World,
) -> Datum {
    match after_watching(goal, root, relative, (world.watch)(root), world.platform) {
        Outcome::Answer(v) => v,
        Outcome::Need(_) => inspected_answer(goal, root, world),
    }
}

/// What a request is answered in the end.
pub open spec fn served(req: Datum, env: &Environment, world: World) -> Datum {
    match begun(req, env) {
        Outcome::Answer(v) => v,
        Outcome::Need(Stage::Resolving { goal, path }) => match after_resolving(
            goal,
            path,
            (world.resolve)(path),
        ) {
            Outcome::Answer(v) => v,
            Outcome::Need(stage) => settled(stage, world),
        },
        Outcome::Need(_) => arbitrary(),
    }
}

/// The names of the commands that need a path are told apart.
proof fn lemma_commands()
    ensures
        "query"@ != "version"@,
        "query"@ != "get-sockname"@,
        "query"@ != "watch"@,
        "query"@ != "watch-project"@,
        "query"@ != "clock"@,
        "clock"@ != "version"@,
        "clock"@ != "get-sockname"@,
        "clock"@ != "watch"@,
        "clock"@ != "watch-project"@,
        "watch-project"@ != "version"@,
        "watch-project"@ != "get-sockname"@,
        "watch-project"@ != "watch"@,
{
    reveal_strlit("query");
    reveal_strlit("version");
    reveal_strlit("get-sockname");
    reveal_strlit("watch");
    reveal_strlit("watch-project");
    reveal_strlit("clock");
    assert("query"@[0] == 'q');
    assert("watch"@[0] == 'w');
    assert("clock"@[0] == 'c');
    assert("watch-project"@.len() == 13);
    assert("version"@.len() == 7);
    assert("get-sockname"@.len() == 12);
}

/// A query on a path that can be resolved, to a root that can be watched, is
/// answered from what is known of that root.
pub proof fn law_queries_are_answered(
    args: Seq<Datum>,
    path: Seq<char>,
    env: &Environment,
    world: World,
)
    requires
        args.len() >= 3,
        args[0] == Datum::Str("query"@),
        args[1] == Datum::Str(path),
        (world.resolve)(path) is Ok,
        (world.watch)((world.resolve)(path)->Ok_0) is Ok,
    ensures
        ({
            let root = (world.resolve)(path)->Ok_0;
            served(Datum::Array(args), env, world) == query_answer(
                args[2],
                (world.rows)(root),
                world.pid,
                (world.ticks)(root),
                world.now,
            )
        }),
{
    lemma_commands();
}

/// A request to watch the project of a path that can be resolved watches the
/// nearest directory that holds a marker, and tells where in it the path lies.
pub proof fn law_projects_are_watched(
    args: Seq<Datum>,
    path: Seq<char>,
    env: &Environment,
    world: World,
)
    requires
        args.len() >= 2,
        args[0] == Datum::Str("watch-project"@),
        args[1] == Datum::Str(path),
        (world.resolve)(path) is Ok,
    ensures
        ({
            let resolved = (world.resolve)(path)->Ok_0;
            let (root, relative) = project(resolved, resolved, world.exists);
            served(Datum::Array(args), env, world) == (match (world.watch)(root) {
                Ok(_) => project_answer(root, relative, world.platform),
                Err(e) => refusal(unwatched(root, e)),
            })
        }),
{
    lemma_commands();
    let resolved = (world.resolve)(path)->Ok_0;
    law_nearest_marked_directory(resolved, world.exists);
}

/// A request for a path that cannot be resolved is refused, and told why.
pub proof fn law_unresolved_paths_are_refused(
    args: Seq<Datum>,
    path: Seq<char>,
    env: &Environment,
    world: World,
)
    requires
        args.len() >= 2,
        args[0] == Datum::Str("watch"@) || args[0] == Datum::Str("watch-project"@) || args[0]
            == Datum::Str("clock"@) || (args[0] == Datum::Str("query"@) && args.len() >= 3),
        args[1] == Datum::Str(path),
        (world.resolve)(path) is Err,
    ensures
        served(Datum::Array(args), env, world) == refusal(
            unresolved(path, (world.resolve)(path)->Err_0),
        ),
{
    lemma_commands();
    reveal_strlit("watch");
    reveal_strlit("version");
    reveal_strlit("get-sockname");
    assert("watch"@.len() != "version"@.len());
    assert("watch"@.len() != "get-sockname"@.len());
}

/// A request for the clock of a path that can be resolved, to a root that can be
/// watched, is answered with the clock of that root.
pub proof fn law_clocks_are_told(
    args: Seq<Datum>,
    path: Seq<char>,
    env: &Environment,
    world: World,
)
    requires
        args.len() >= 2,
        args[0] == Datum::Str("clock"@),
        args[1] == Datum::Str(path),
        (world.resolve)(path) is Ok,
        (world.watch)((world.resolve)(path)->Ok_0) is Ok,
    ensures
        served(Datum::Array(args), env, world) == clock_answer(
            world.pid,
            (world.ticks)((world.resolve)(path)->Ok_0),
            world.now,
        ),
{
    lemma_commands();
}

/// Whatever is asked, and whatever the system does, the answer is an object that
/// tells the version.
pub proof fn law_served_answers_tell_the_version(req: Datum, env: &Environment, world: World)
    ensures
        tells_version(served(req, env, world)),
{
    lemma_first_answers_tell(req, env);
    match begun(req, env) {
        Outcome::Answer(_) => {},
        Outcome::Need(Stage::Resolving { goal, path }) => {
            let resolved = (world.resolve)(path);
            match resolved {
                Err(e) => law_refusals_say_why(unresolved(path, e)),
                Ok(root) => match goal {
                    Purpose::Project => {
                        law_nearest_marked_directory(root, world.exists);
                        let (found, relative) = project(root, root, world.exists);
                        lemma_watched_tells(goal, found, relative, world);
                    },
                    _ => lemma_watched_tells(goal, root, None, world),
                },
            }
        },
        Outcome::Need(_) => {},
    }
}

/// What is answered once a root is to be watched tells the version.
proof fn lemma_watched_tells(
    goal: Purpose,
    root: Seq<u8>,
    relative: Option<Seq<char>>,
    world: World,
)
    ensures
        tells_version(watched_answer(goal, root, relative, world)),
{
    let watched = (world.watch)(root);
    lemma_watches_tell(root, relative, world.platform);
    if watched is Err {
        law_refusals_say_why(unwatched(root, watched->Err_0));
        law_refusals_say_why(watched->Err_0);
    }
    lemma_inspections_tell(
        goal,
        (world.rows)(root),
        world.pid,
        (world.ticks)(root),
        world.now,
    );
}

/// The names of the fields are told apart.
proof fn lemma_field_names()
    ensures
        "name"@.len() == 4 && "name"@[0] == 'n',
        "exists"@.len() == 6,
        "new"@.len() == 3,
        "size"@.len() == 4 && "size"@[0] == 's',
        "mtime"@.len() == 5,
        "mode"@.len() == 4 && "mode"@[0] == 'm',
        "type"@.len() == 4 && "type"@[0] == 't',
{
    reveal_strlit("name");
    reveal_strlit("exists");
    reveal_strlit("new");
    reveal_strlit("size");
    reveal_strlit("mtime");
    reveal_strlit("mode");
    reveal_strlit("type");
}

/// A file is told by one member for each field that is asked for, in the order in which
/// they are asked for, under the field's name: its name, whether it exists, whether it is
/// new, its size, the time of its last change, its whole mode, and the letter of its kind,
/// each as it is known. What is no field is null. A size that no signed integer holds is
/// told as the integer with the same bits.
pub proof fn law_fields_of_a_file(f: Entry, fields: Seq<Seq<char>>, is_new: bool, k: int)
    requires
        0 <= k < fields.len(),
    ensures
        ({
            let shown = file_datum(f, fields, is_new);
            let field = fields[k];
            let v = shown->Object_0[k].1;
            &&& shown is Object
            &&& shown->Object_0.len() == fields.len()
            &&& shown->Object_0[k].0 == field
            &&& field == "name"@ ==> v == Datum::Str(f.name)
            &&& field == "exists"@ ==> v == Datum::Bool(f.exists)
            &&& field == "new"@ ==> v == Datum::Bool(is_new)
            &&& field == "size"@ ==> v is Int && v->Int_0 as int == (if f.size
                <= 0x7fff_ffff_ffff_ffff {
                f.size as int
            } else {
                f.size - 0x1_0000_0000_0000_0000
            })
            &&& field == "mtime"@ ==> v == Datum::Int(f.mtime)
            &&& field == "mode"@ ==> v is Int && v->Int_0 as int == f.mode as int
            &&& field == "type"@ ==> v == Datum::Str(f.kind.letter())
            &&& !(field == "name"@ || field == "exists"@ || field == "new"@ || field == "size"@
                || field == "mtime"@ || field == "mode"@ || field == "type"@) ==> v
                == Datum::Null
        }),
{
    lemma_field_names();
    let size = f.size;
    if size > 0x7fff_ffff_ffff_ffff {
        assert((size as i64) as int == size - 0x1_0000_0000_0000_0000) by (bit_vector)
            requires
                size > 0x7fff_ffff_ffff_ffffu64,
        ;
    }
}

/// A field that is asked for first is found under its name.
pub proof fn law_fields_are_found(f: Entry, fields: Seq<Seq<char>>, is_new: bool, k: int)
    requires
        0 <= k < fields.len(),
        forall|j: int| 0 <= j < k ==> fields[j] != fields[k],
    ensures
        file_datum(f, fields, is_new).lookup(fields[k]) == Some(
            file_datum(f, fields, is_new)->Object_0[k].1,
        ),
{
    let pairs = file_datum(f, fields, is_new)->Object_0;
    assert forall|j: int| 0 <= j < k implies (#[trigger] pairs[j]).0 != fields[k] by {
        assert(pairs[j].0 == fields[j]);
    }
    assert(pairs[k].0 == fields[k]);
    lemma_lookup(pairs, fields[k], k);
}

/// A query asks for the strings of the list under its fields; where there is no list, or
/// no string in it, it asks for the name alone.
pub proof fn law_fields_of_a_query(query: Datum)
    ensures
        query_fields(query).len() > 0,
        match query.lookup("fields"@) {
            Some(Datum::Array(items)) => strings(items).len() > 0 ==> query_fields(query)
                == strings(items),
            _ => query_fields(query) == seq!["name"@],
        },
        match query.lookup("fields"@) {
            Some(Datum::Array(items)) => strings(items).len() == 0 ==> query_fields(query)
                == seq!["name"@],
            _ => true,
        },
{
}

/// The clock that a query gives counts whether it stands there as a text or within an
/// object; any other clock, and none, makes the query ask for all files.
pub proof fn law_clocks_of_a_query(query: Datum, clock: Seq<char>, v: Datum)
    ensures
        query.lookup("since"@) is None ==> query_since(query) is None,
        query.lookup("since"@) == Some(Datum::Str(clock)) ==> query_since(query) == clock_ticks(
            clock,
        ),
        query.lookup("since"@) == Some(v) && v is Object && v.lookup("clock"@) == Some(
            Datum::Str(clock),
        ) ==> query_since(query) == clock_ticks(clock),
        query.lookup("since"@) == Some(v) && !(v is Str) && !(v.lookup("clock"@) is Some
            && v.lookup("clock"@)->0 is Str) ==> query_since(query) is None,
        since_datum(Datum::Str(clock)) == clock_ticks(clock),
        v is Object && v.lookup("clock"@) == Some(Datum::Str(clock)) ==> since_datum(v)
            == clock_ticks(clock),
        !(v is Str) && !(v.lookup("clock"@) is Some && v.lookup("clock"@)->0 is Str)
            ==> since_datum(v) is None,
{
}

/// A query allows for as many milliseconds as it says, none where it says fewer, and a
/// second where it gives no number.
pub proof fn law_timeouts_of_a_query(query: Datum, n: i64, v: Datum)
    ensures
        query.lookup("sync_timeout"@) is None ==> query_timeout(query) == 1000,
        query.lookup("sync_timeout"@) == Some(v) && !(v is Int) && !(v is Double)
            ==> query_timeout(query) == 1000,
        query.lookup("sync_timeout"@) == Some(v) && v.integer() == Some(n) && n >= 0
            ==> query_timeout(query) == n,
        query.lookup("sync_timeout"@) == Some(v) && v.integer() == Some(n) && n < 0
            ==> query_timeout(query) == 0,
{
}

/// A file is reported if and only if it is no cookie and the expression, if there is one,
/// holds of it.
pub proof fn law_what_is_reported(f: Entry, t: Term)
    ensures
        reported(f, None) <==> !cookie_name(f.name),
        reported(f, Some(t)) <==> !cookie_name(f.name) && holds(t, f),
{
}

/// The files that a query reports are told in the order in which they are known, each
/// once: one more file that is known is told behind the others, if the query asks about
/// it, and otherwise changes nothing.
pub proof fn law_files_are_told_in_order(
    rows: Seq<Entry>,
    f: Entry,
    since: Option<u64>,
    expr: Option<Term>,
)
    ensures
        matching(Seq::empty(), since, expr) == Seq::<Entry>::empty(),
        ({
            let changed = match since {
                Some(ticks) => f.ctick > ticks,
                None => true,
            };
            let wanted = match expr {
                Some(t) => holds(t, f),
                None => true,
            };
            matching(rows.push(f), since, expr) == (if changed && wanted && !cookie_name(f.name) {
                matching(rows, since, expr).push(f)
            } else {
                matching(rows, since, expr)
            })
        }),
{
    reveal(Seq::filter);
    let keep = |e: Entry| reported(e, expr);
    assert(rows.push(f).drop_last() =~= rows);
    match since {
        Some(ticks) => {
            let front = newer(rows, ticks);
            let all = newer(rows.push(f), ticks);
            if f.ctick > ticks {
                assert(all == front.push(f));
                assert(all.drop_last() =~= front);
                assert(all.last() == f);
                assert(all.filter(keep) == (if keep(f) {
                    front.filter(keep).push(f)
                } else {
                    front.filter(keep)
                }));
            } else {
                assert(all == front);
            }
            assert(newer(Seq::empty(), ticks) =~= Seq::<Entry>::empty());
        },
        None => {},
    }
}

/// The keys of an answer are told apart.
proof fn lemma_answer_keys()
    ensures
        "version"@.len() == 7 && "version"@[0] == 'v',
        "clock"@.len() == 5 && "clock"@[0] == 'c',
        "is_fresh_instance"@.len() == 17,
        "files"@.len() == 5 && "files"@[0] == 'f',
        "watch"@.len() == 5 && "watch"@[0] == 'w',
        "watcher"@.len() == 7 && "watcher"@[0] == 'w',
        "relative_path"@.len() == 13,
        "sockname"@.len() == 8,
        "capabilities"@.len() == 12,
        "synced"@.len() == 6,
        "shutdown-server"@.len() == 15,
        "error"@.len() == 5 && "error"@[0] == 'e',
{
    reveal_strlit("version");
    reveal_strlit("clock");
    reveal_strlit("is_fresh_instance");
    reveal_strlit("files");
    reveal_strlit("watch");
    reveal_strlit("watcher");
    reveal_strlit("relative_path");
    reveal_strlit("sockname");
    reveal_strlit("capabilities");
    reveal_strlit("synced");
    reveal_strlit("shutdown-server");
    reveal_strlit("error");
}

/// The answer to a query tells the clock of the moment, that it is fresh where the query
/// gives no clock, and each file that it reports with the fields that are asked for. A
/// file is told as new where all are asked for, and where it was first seen after the
/// clock.
pub proof fn law_members_of_an_answer(
    query: Datum,
    expr: Option<Term>,
    rows: Seq<Entry>,
    pid: u32,
    ticks: u64,
    now: u64,
)
    requires
        match query.lookup("expression"@) {
            Some(v) => expr is Some && parsed(v) == Ok::<Term, Seq<char>>(expr->0),
            None => expr is None,
        },
    ensures
        ({
            let answer = query_answer(query, rows, pid, ticks, now);
            let since = query_since(query);
            let files = matching(rows, since, expr);
            let told = answer.lookup("files"@)->0->Array_0;
            &&& answer.lookup("clock"@) == Some(Datum::Str(clock_text(now, pid, ticks)))
            &&& answer.lookup("is_fresh_instance"@) == Some(Datum::Bool(since is None))
            &&& answer.lookup("error"@) is None
            &&& answer.lookup("files"@) is Some
            &&& answer.lookup("files"@)->0 is Array
            &&& told.len() == files.len()
            &&& forall|k: int|
                0 <= k < files.len() ==> #[trigger] told[k] == file_datum(
                    files[k],
                    query_fields(query),
                    since is None || files[k].first_tick > since->0,
                )
        }),
{
    lemma_answer_keys();
    let pairs = query_answer(query, rows, pid, ticks, now)->Object_0;
    assert(pairs[0].0 == "version"@ && pairs[1].0 == "clock"@ && pairs[2].0
        == "is_fresh_instance"@ && pairs[3].0 == "files"@);
    lemma_lookup(pairs, "clock"@, 1);
    lemma_lookup(pairs, "is_fresh_instance"@, 2);
    lemma_lookup(pairs, "files"@, 3);
    lemma_lookup_none(pairs, "error"@);
}

/// A query whose expression is wrong is refused, and told what is wrong with it.
pub proof fn law_wrong_expressions_are_refused(
    query: Datum,
    v: Datum,
    msg: Seq<char>,
    rows: Seq<Entry>,
    pid: u32,
    ticks: u64,
    now: u64,
)
    requires
        query.lookup("expression"@) == Some(v),
        parsed(v) == Err::<Term, Seq<char>>(msg),
    ensures
        query_answer(query, rows, pid, ticks, now).lookup("error"@) == Some(
            Datum::Str("bad expression: "@ + msg),
        ),
        query_answer(query, rows, pid, ticks, now).lookup("files"@) is None,
{
    law_refusals_say_why("bad expression: "@ + msg);
    lemma_answer_keys();
}

/// The names of all commands are told apart.
proof fn lemma_all_commands()
    ensures
        "version"@.len() == 7,
        "get-sockname"@.len() == 12,
        "watch"@.len() == 5 && "watch"@[0] == 'w',
        "watch-project"@.len() == 13,
        "clock"@.len() == 5 && "clock"@[0] == 'c',
        "query"@.len() == 5 && "query"@[0] == 'q',
        "flush-subscriptions"@.len() == 19,
        "subscribe"@.len() == 9,
        "unsubscribe"@.len() == 11,
        "shutdown-server"@.len() == 15,
        "synced"@.len() == 6,
{
    lemma_answer_keys();
    reveal_strlit("get-sockname");
    reveal_strlit("watch-project");
    reveal_strlit("query");
    reveal_strlit("flush-subscriptions");
    reveal_strlit("subscribe");
    reveal_strlit("unsubscribe");
}

/// A request to watch, to watch a project, for a clock or for a query has the path that
/// it gives resolved, and keeps what it is for, a query its query object too.
pub proof fn law_paths_are_resolved(args: Seq<Datum>, path: Seq<char>, env: &Environment)
    requires
        args.len() >= 2,
        args[1] == Datum::Str(path),
    ensures
        args[0] == Datum::Str("watch"@) ==> begun(Datum::Array(args), env) == Outcome::Need(
            (Stage::Resolving { goal: Purpose::Watch, path }),
        ),
        args[0] == Datum::Str("watch-project"@) ==> begun(Datum::Array(args), env)
            == Outcome::Need((Stage::Resolving { goal: Purpose::Project, path })),
        args[0] == Datum::Str("clock"@) ==> begun(Datum::Array(args), env) == Outcome::Need(
            (Stage::Resolving { goal: Purpose::Clock, path }),
        ),
        args[0] == Datum::Str("query"@) && args.len() > 2 ==> begun(Datum::Array(args), env)
            == Outcome::Need((Stage::Resolving { goal: Purpose::Query(args[2]), path })),
        args[0] == Datum::Str("query"@) && args.len() == 2 ==> begun(Datum::Array(args), env)
            == Outcome::Answer(refusal("query requires a query object"@)),
{
    lemma_all_commands();
}

/// A request that needs a path and gives none, or gives something else in its place, is
/// refused, and told that the path is missing.
pub proof fn law_missing_paths_are_refused(args: Seq<Datum>, env: &Environment)
    requires
        args.len() >= 1,
        args.len() >= 2 ==> !(args[1] is Str),
    ensures
        args[0] == Datum::Str("watch"@) ==> begun(Datum::Array(args), env) == Outcome::Answer(
            refusal("watch requires a path argument"@),
        ),
        args[0] == Datum::Str("watch-project"@) ==> begun(Datum::Array(args), env)
            == Outcome::Answer(refusal("watch-project requires a path argument"@)),
        args[0] == Datum::Str("clock"@) ==> begun(Datum::Array(args), env) == Outcome::Answer(
            refusal("clock requires a path argument"@),
        ),
        args[0] == Datum::Str("query"@) ==> begun(Datum::Array(args), env) == Outcome::Answer(
            refusal("query requires a path argument"@),
        ),
{
    lemma_all_commands();
}

/// Requests without a path are answered at once, whatever else they give: with the version
/// and what the daemon is capable of, with the socket, or with a flag that is set.
pub proof fn law_answers_at_once(cmd: Seq<char>, more: Seq<Datum>, env: &Environment)
    ensures
        ({
            let outcome = begun(Datum::Array(seq![Datum::Str(cmd)] + more), env);
            let answer = outcome->Answer_0;
            let able = answer.lookup("capabilities"@)->0;
            &&& cmd == "version"@ ==> outcome is Answer && answer is Object && answer.lookup(
                "version"@,
            ) == Some(Datum::Str("2024.01.01-rs"@)) && able is Object && able.lookup(
                "relative_root"@,
            ) == Some(Datum::Bool(true)) && able.lookup("bser-v2"@) == Some(Datum::Bool(true))
                && able.lookup("wildmatch"@) == Some(Datum::Bool(true))
            &&& cmd == "get-sockname"@ ==> outcome is Answer && answer is Object && answer.lookup(
                "sockname"@,
            ) == Some(
                Datum::Str(lossy(filed(env.system, env.state_path(), encode_utf8("sock"@)))),
            )
            &&& cmd == "flush-subscriptions"@ || cmd == "subscribe"@ || cmd == "unsubscribe"@
                ==> outcome is Answer && answer is Object && answer.lookup("synced"@) == Some(
                Datum::Bool(true),
            ) && answer.lookup("error"@) is None
            &&& cmd == "shutdown-server"@ ==> outcome is Answer && answer is Object
                && answer.lookup("shutdown-server"@) == Some(Datum::Bool(true)) && answer.lookup(
                "error"@,
            ) is None
        }),
{
    lemma_all_commands();
    lemma_answer_keys();
    let args = seq![Datum::Str(cmd)] + more;
    assert(args[0] == Datum::Str(cmd));
    let outcome = begun(Datum::Array(args), env);
    let pairs = outcome->Answer_0->Object_0;
    if cmd == "version"@ {
        assert(outcome == Outcome::Answer(version_answer()));
        assert(pairs[0].0 == "version"@ && pairs[1].0 == "capabilities"@);
        lemma_lookup(pairs, "version"@, 0);
        lemma_lookup(pairs, "capabilities"@, 1);
        let able = pairs[1].1->Object_0;
        reveal_strlit("relative_root");
        reveal_strlit("bser-v2");
        reveal_strlit("wildmatch");
        assert(able[0].0 == "relative_root"@ && able[1].0 == "bser-v2"@ && able[2].0
            == "wildmatch"@);
        lemma_lookup(able, "relative_root"@, 0);
        lemma_lookup(able, "bser-v2"@, 1);
        lemma_lookup(able, "wildmatch"@, 2);
    } else if cmd == "get-sockname"@ {
        assert(outcome == Outcome::Answer(sockname_answer(env)));
        assert(pairs[0].0 == "version"@ && pairs[1].0 == "sockname"@);
        lemma_lookup(pairs, "sockname"@, 1);
    } else if cmd == "flush-subscriptions"@ || cmd == "subscribe"@ || cmd == "unsubscribe"@ {
        assert(outcome == Outcome::Answer(flag_answer("synced"@)));
        assert(pairs[0].0 == "version"@ && pairs[1].0 == "synced"@);
        lemma_lookup(pairs, "synced"@, 1);
        lemma_lookup_none(pairs, "error"@);
    } else if cmd == "shutdown-server"@ {
        assert(outcome == Outcome::Answer(flag_answer("shutdown-server"@)));
        assert(pairs[0].0 == "version"@ && pairs[1].0 == "shutdown-server"@);
        lemma_lookup(pairs, "shutdown-server"@, 1);
        lemma_lookup_none(pairs, "error"@);
    }
}

/// A command by any other name is refused by that name, whatever else is given.
pub proof fn law_other_commands_are_refused(cmd: Seq<char>, more: Seq<Datum>, env: &Environment)
    requires
        cmd != "version"@,
        cmd != "get-sockname"@,
        cmd != "watch"@,
        cmd != "watch-project"@,
        cmd != "clock"@,
        cmd != "query"@,
        cmd != "flush-subscriptions"@,
        cmd != "subscribe"@,
        cmd != "unsubscribe"@,
        cmd != "shutdown-server"@,
    ensures
        begun(Datum::Array(seq![Datum::Str(cmd)] + more), env) == Outcome::Answer(
            refusal("unknown command: "@ + cmd),
        ),
{
    let args = seq![Datum::Str(cmd)] + more;
    assert(args[0] == Datum::Str(cmd));
}

/// What is no list, an empty list, and a list that does not start with a text are no
/// requests.
pub proof fn law_what_is_no_request(req: Datum, env: &Environment)
    requires
        match req {
            Datum::Array(args) => args.len() == 0 || !(args[0] is Str),
            _ => true,
        },
    ensures
        begun(req, env) == Outcome::Answer(
            refusal("request must be an array with a command name"@),
        ),
{
}

/// Once the path of a request is resolved, its root is watched; that of a project is
/// first looked for, from the path upwards. A path that cannot be resolved is told, with
/// the reason.
pub proof fn law_resolved_paths_are_watched(
    goal: Purpose,
    path: Seq<char>,
    root: Seq<u8>,
    e: Seq<char>,
)
    ensures
        !(goal is Project) ==> after_resolving(goal, path, Ok(root)) == Outcome::Need(
            (Stage::Watching { goal, root, relative: None }),
        ),
        after_resolving(Purpose::Project, path, Ok(root)) == Outcome::Need(
            (Stage::Searching { origin: root, candidate: root, marker: 0 }),
        ),
        after_resolving(goal, path, Err(e)) == Outcome::Answer(
            refusal("failed to resolve "@ + path + ": "@ + e),
        ),
{
}

/// A directory is that of a project if and only if one of the four markers is in it.
pub proof fn law_markers_of_a_project(dir: Seq<u8>, disk: spec_fn(Seq<u8>) -> bool)
    ensures
        marked(dir, disk) <==> {
            ||| disk(joined(dir, encode_utf8(".watchmanconfig"@)))
            ||| disk(joined(dir, encode_utf8(".git"@)))
            ||| disk(joined(dir, encode_utf8(".hg"@)))
            ||| disk(joined(dir, encode_utf8(".svn"@)))
        },
{
    let all = markers();
    assert(all[0] == ".watchmanconfig"@ && all[1] == ".git"@ && all[2] == ".hg"@ && all[3]
        == ".svn"@);
}

/// The directory so many steps above a path, if there is one.
pub open spec fn steps_above(path: Seq<u8>, n: nat) -> Option<Seq<u8>>
    decreases n,
{
    if n == 0 {
        Some(path)
    } else {
        match steps_above(path, (n - 1) as nat) {
            Some(p) => above(p),
            None => None,
        }
    }
}

/// Whether a directory holds a `.watchmanconfig` or the directory of a version control.
pub open spec fn holds_marker(dir: Seq<u8>, disk: spec_fn(Seq<u8>) -> bool) -> bool {
    ||| disk(joined(dir, encode_utf8(".watchmanconfig"@)))
    ||| disk(joined(dir, encode_utf8(".git"@)))
    ||| disk(joined(dir, encode_utf8(".hg"@)))
    ||| disk(joined(dir, encode_utf8(".svn"@)))
}

/// One step of the search for a project that starts at a directory without a marker.
proof fn lemma_project_above(path: Seq<u8>, disk: spec_fn(Seq<u8>) -> bool, n: nat)
    requires
        forall|m: nat|
            m < n ==> (#[trigger] steps_above(path, m)) is Some && !holds_marker(
                steps_above(path, m)->0,
                disk,
            ),
        steps_above(path, n) is Some,
    ensures
        project(path, path, disk) == project(path, steps_above(path, n)->0, disk),
    decreases n,
{
    if n > 0 {
        let m = (n - 1) as nat;
        assert(steps_above(path, m) is Some);
        let p = steps_above(path, m)->0;
        lemma_project_above(path, disk, m);
        law_markers_of_a_project(p, disk);
        lemma_above_shorter(p);
    }
}

/// The project of a path is the first directory with a marker, counted from the path
/// upwards; what is told is what is left of the path in it. Where there is none up to the
/// top, the path itself is the root, and nothing is left.
pub proof fn law_first_marked_directory_is_found(
    path: Seq<u8>,
    disk: spec_fn(Seq<u8>) -> bool,
    n: nat,
)
    requires
        forall|m: nat|
            m < n ==> (#[trigger] steps_above(path, m)) is Some && !holds_marker(
                steps_above(path, m)->0,
                disk,
            ),
        steps_above(path, n) is Some ==> holds_marker(steps_above(path, n)->0, disk),
    ensures
        ({
            let end = searched(path, path, 0, disk);
            let dir = steps_above(path, n)->0;
            let rest = behind(path, dir);
            if steps_above(path, n) is Some {
                end == (Stage::Watching {
                    goal: Purpose::Project,
                    root: dir,
                    relative: if rest is Some && rest->0.len() > 0 {
                        Some(lossy(rest->0))
                    } else {
                        None
                    },
                })
            } else {
                end == (Stage::Watching { goal: Purpose::Project, root: path, relative: None })
            }
        }),
{
    law_nearest_marked_directory(path, disk);
    match steps_above(path, n) {
        Some(dir) => {
            lemma_project_above(path, disk, n);
            law_markers_of_a_project(dir, disk);
        },
        None => {
            let m = (n - 1) as nat;
            assert(steps_above(path, m) is Some);
            lemma_project_above(path, disk, m);
            law_markers_of_a_project(steps_above(path, m)->0, disk);
        },
    }
}

/// Once its root is watched, a request to watch is answered with the root and with how it
/// is watched, that of a project with what is left of the path too, if anything is. A
/// clock is then read, and a query waits for the watcher, if it allows for that.
pub proof fn law_watched_roots_are_told(
    root: Seq<u8>,
    relative: Option<Seq<char>>,
    platform: Platform,
    query: Datum,
)
    ensures
        ({
            let one = after_watching(Purpose::Watch, root, relative, Ok(()), platform);
            let answer = one->Answer_0;
            &&& one is Answer
            &&& answer.lookup("watch"@) == Some(Datum::Str(lossy(root)))
            &&& answer.lookup("watcher"@) == Some(Datum::Str(platform.reported()))
            &&& answer.lookup("relative_path"@) is None
            &&& answer.lookup("error"@) is None
        }),
        ({
            let one = after_watching(Purpose::Project, root, relative, Ok(()), platform);
            let answer = one->Answer_0;
            &&& one is Answer
            &&& answer.lookup("watch"@) == Some(Datum::Str(lossy(root)))
            &&& answer.lookup("watcher"@) == Some(Datum::Str(platform.reported()))
            &&& relative is Some ==> answer.lookup("relative_path"@) == Some(
                Datum::Str(relative->0),
            )
            &&& relative is None ==> answer.lookup("relative_path"@) is None
            &&& answer.lookup("error"@) is None
        }),
        after_watching(Purpose::Clock, root, relative, Ok(()), platform) == Outcome::Need(
            (Stage::Inspecting { goal: Purpose::Clock, root }),
        ),
        query_timeout(query) == 0 ==> after_watching(
            Purpose::Query(query),
            root,
            relative,
            Ok(()),
            platform,
        ) == Outcome::Need((Stage::Inspecting { goal: Purpose::Query(query), root })),
        query_timeout(query) > 0 ==> after_watching(
            Purpose::Query(query),
            root,
            relative,
            Ok(()),
            platform,
        ) == Outcome::Need(
            (Stage::Syncing { goal: Purpose::Query(query), root, timeout: query_timeout(query) }),
        ),
{
    lemma_answer_keys();
    let one = watch_answer(root, platform)->Object_0;
    assert(one[0].0 == "watch"@ && one[1].0 == "watcher"@ && one[2].0 == "version"@);
    lemma_lookup(one, "watch"@, 0);
    lemma_lookup(one, "watcher"@, 1);
    lemma_lookup_none(one, "relative_path"@);
    lemma_lookup_none(one, "error"@);
    let other = project_answer(root, relative, platform)->Object_0;
    assert(other[0].0 == "version"@ && other[1].0 == "watch"@ && other[2].0 == "watcher"@);
    lemma_lookup(other, "watch"@, 1);
    lemma_lookup(other, "watcher"@, 2);
    lemma_lookup_none(other, "error"@);
    if relative is Some {
        assert(other[3].0 == "relative_path"@);
        lemma_lookup(other, "relative_path"@, 3);
    } else {
        lemma_lookup_none(other, "relative_path"@);
    }
}

/// A root that cannot be watched is told, with the reason.
pub proof fn law_unwatched_roots_are_refused(
    root: Seq<u8>,
    relative: Option<Seq<char>>,
    platform: Platform,
    query: Datum,
    e: Seq<char>,
)
    ensures
        after_watching(Purpose::Watch, root, relative, Err(e), platform) == Outcome::Answer(
            refusal("failed to watch "@ + lossy(root) + ": "@ + e),
        ),
        after_watching(Purpose::Project, root, relative, Err(e), platform) == Outcome::Answer(
            refusal("failed to watch "@ + lossy(root) + ": "@ + e),
        ),
        after_watching(Purpose::Clock, root, relative, Err(e), platform) == Outcome::Answer(
            refusal(e),
        ),
        after_watching(Purpose::Query(query), root, relative, Err(e), platform)
            == Outcome::Answer(refusal(e)),
{
}

/// The answer to a request for a clock is the clock of the root at the moment, and the
/// answer to a query is that of the query.
pub proof fn law_inspections(
    query: Datum,
    rows: Seq<Entry>,
    pid: u32,
    ticks: u64,
    now: u64,
)
    ensures
        inspection_answer(Purpose::Clock, rows, pid, ticks, now).lookup("clock"@) == Some(
            Datum::Str(clock_text(now, pid, ticks)),
        ),
        inspection_answer(Purpose::Clock, rows, pid, ticks, now).lookup("error"@) is None,
        inspection_answer(Purpose::Query(query), rows, pid, ticks, now) == query_answer(
            query,
            rows,
            pid,
            ticks,
            now,
        ),
{
    lemma_answer_keys();
    let pairs = clock_answer(pid, ticks, now)->Object_0;
    assert(pairs[0].0 == "clock"@ && pairs[1].0 == "version"@);
    lemma_lookup(pairs, "clock"@, 0);
    lemma_lookup_none(pairs, "error"@);
}

/// What the system says stands for itself, and so do the steps of a request.
pub proof fn law_what_steps_stand_for(
    path: Vec<u8>,
    e: String,
    query: Value,
    text: String,
    root: Vec<u8>,
    marker: usize,
    timeout: u64,
    goal: Goal,
)
    ensures
        resolution(Ok(path)) == Ok::<Seq<u8>, Seq<char>>(path@),
        resolution(Err(e)) == Err::<Seq<u8>, Seq<char>>(e@),
        achieved(Ok(())) == Ok::<(), Seq<char>>(()),
        achieved(Err(e)) == Err::<(), Seq<char>>(e@),
        Goal::Watch@ == Purpose::Watch,
        Goal::Project@ == Purpose::Project,
        Goal::Clock@ == Purpose::Clock,
        Goal::Query(query)@ == Purpose::Query(query@),
        (Job::Resolving { goal, path: text })@ == (Stage::Resolving {
            goal: goal@,
            path: text@,
        }),
        (Job::Searching { origin: path, candidate: root, marker })@ == (Stage::Searching {
            origin: path@,
            candidate: root@,
            marker,
        }),
        (Job::Watching { goal, root, relative: None })@ == (Stage::Watching {
            goal: goal@,
            root: root@,
            relative: None,
        }),
        (Job::Watching { goal, root, relative: Some(text) })@ == (Stage::Watching {
            goal: goal@,
            root: root@,
            relative: Some(text@),
        }),
        (Job::Syncing { goal, root, timeout })@ == (Stage::Syncing {
            goal: goal@,
            root: root@,
            timeout,
        }),
        (Job::Inspecting { goal, root })@ == (Stage::Inspecting { goal: goal@, root: root@ }),
        Step::Answer(query)@ == Outcome::Answer(query@),
{
}

} // verus!
