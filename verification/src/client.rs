//! The client's side of the conversation: what the command line asks for, how a
//! daemon is reached, and how its answer is shown.

use vstd::prelude::*;
use vstd::string::StringExecFns;
use vstd::utf8::*;

use crate::bser::PduVersion;
use crate::daemon::{
    begun, law_paths_are_resolved, law_refusals_say_why, refusal, Outcome, Purpose, Stage,
};
use crate::json;
use crate::json::{text_value, JsonError};
use crate::numbers::Numbers;
use crate::paths;
use crate::paths::{filed, Environment};
use crate::protocol::{response_bytes, response_missing, write_response, Framing};
use crate::text::{
    chars_of, copy_strings, optional_text, starts_with_chars, str_eq, string_of, texts,
};
use crate::value::{data, lemma_data_push, Datum, Value};

verus! {

/// How answers are shown.
#[derive(Debug, Clone, Copy, PartialEq, Eq, Structural)]
pub enum Encoding {
    Json,
    Bser,
    BserV2,
}

impl Encoding {
    /// The encoding with a name.
    pub open spec fn named(s: Seq<char>) -> Option<Encoding> {
        if s == "json"@ {
            Some(Encoding::Json)
        } else if s == "bser"@ {
            Some(Encoding::Bser)
        } else if s == "bser-v2"@ {
            Some(Encoding::BserV2)
        } else {
            None
        }
    }

    /// The encoding with a name.
    pub fn parse(s: &str) -> (r: Option<Encoding>)
        ensures
            r == Encoding::named(s@),
    {
        if str_eq(s, "json") {
            Some(Encoding::Json)
        } else if str_eq(s, "bser") {
            Some(Encoding::Bser)
        } else if str_eq(s, "bser-v2") {
            Some(Encoding::BserV2)
        } else {
            None
        }
    }
}

/// What the options before the command say.
#[derive(Debug)]
pub struct CliOptions {
    pub output_encoding: Option<Encoding>,
    pub sockname: Option<String>,
    pub no_spawn: bool,
    /// Taken, but without effect.
    pub no_pretty: bool,
    /// Taken, but without effect.
    pub persistent: bool,
    /// Taken, but without effect.
    pub server_encoding: Option<Encoding>,
}

/// What a `CliOptions` stands for.
#[verifier::ext_equal]
pub struct Options {
    pub output_encoding: Option<Encoding>,
    pub sockname: Option<Seq<char>>,
    pub no_spawn: bool,
    pub no_pretty: bool,
    pub persistent: bool,
    pub server_encoding: Option<Encoding>,
}

impl View for CliOptions {
    type V = Options;

    open spec fn view(&self) -> Options {
        Options {
            output_encoding: self.output_encoding,
            sockname: optional_text(self.sockname),
            no_spawn: self.no_spawn,
            no_pretty: self.no_pretty,
            persistent: self.persistent,
            server_encoding: self.server_encoding,
        }
    }
}

/// No option is set.
pub open spec fn no_options() -> Options {
    Options {
        output_encoding: None,
        sockname: None,
        no_spawn: false,
        no_pretty: false,
        persistent: false,
        server_encoding: None,
    }
}

impl Default for CliOptions {
    fn default() -> (r: Self)
        ensures
            r@ == no_options(),
    {
        CliOptions {
            output_encoding: None,
            sockname: None,
            no_spawn: false,
            no_pretty: false,
            persistent: false,
            server_encoding: None,
        }
    }
}

/// How an argument gives an option with a value.
pub enum Given {
    /// It does not.
    Not,
    /// By its name alone: the value is the next argument.
    Bare,
    /// By its name, an equals sign and the value.
    With(Seq<char>),
}

/// How an argument gives an option.
pub open spec fn given(arg: Seq<char>, name: Seq<char>) -> Given {
    if arg == name {
        Given::Bare
    } else if (name + "="@).is_prefix_of(arg) {
        Given::With(arg.skip(name.len() as int + 1))
    } else {
        Given::Not
    }
}

/// The options that take a value.
#[derive(Debug, Clone, Copy, PartialEq, Eq, Structural)]
pub enum Valued {
    OutputEncoding,
    ServerEncoding,
    Sockname,
    /// An option whose value does not matter to a client.
    Passed,
}

/// What an argument before the command says.
pub enum Flag {
    /// An option with a value, which may be the next argument.
    Takes(Valued, Option<Seq<char>>),
    NoPretty,
    Persistent,
    NoSpawn,
    JsonCommand,
    /// An option that does not matter to a client.
    Nothing,
    /// No option: the command.
    Command,
}

/// An option with a value, if an argument gives it under a name.
pub open spec fn flag_if(arg: Seq<char>, name: Seq<char>, what: Valued) -> Option<Flag> {
    match given(arg, name) {
        Given::Bare => Some(Flag::Takes(what, None)),
        Given::With(v) => Some(Flag::Takes(what, Some(v))),
        Given::Not => None,
    }
}

/// What an argument before the command says.
pub open spec fn flag_of(arg: Seq<char>) -> Flag {
    if let Some(f) = flag_if(arg, "--output-encoding"@, Valued::OutputEncoding) {
        f
    } else if let Some(f) = flag_if(arg, "--server-encoding"@, Valued::ServerEncoding) {
        f
    } else if arg == "-U"@ {
        Flag::Takes(Valued::Sockname, None)
    } else if let Some(f) = flag_if(arg, "--sockname"@, Valued::Sockname) {
        f
    } else if arg == "--no-pretty"@ {
        Flag::NoPretty
    } else if arg == "-p"@ || arg == "--persistent"@ {
        Flag::Persistent
    } else if arg == "--no-spawn"@ {
        Flag::NoSpawn
    } else if arg == "--no-local"@ {
        Flag::Nothing
    } else if arg == "-j"@ || arg == "--json-command"@ {
        Flag::JsonCommand
    } else if arg == "-f"@ || arg == "--foreground"@ || arg == "-n"@ || arg == "--no-save-state"@
        || arg == "--inetd"@ {
        Flag::Nothing
    } else if arg == "-o"@ {
        Flag::Takes(Valued::Passed, None)
    } else if let Some(f) = flag_if(arg, "--statefile"@, Valued::Passed) {
        f
    } else if let Some(f) = flag_if(arg, "--logfile"@, Valued::Passed) {
        f
    } else if let Some(f) = flag_if(arg, "--log-level"@, Valued::Passed) {
        f
    } else {
        Flag::Command
    }
}

/// The options once one with a value is given. Where the value is missing, an
/// encoding stays as it was, and there is no socket.
pub open spec fn with_value(opts: Options, what: Valued, value: Option<Seq<char>>) -> Options {
    match what {
        Valued::OutputEncoding => match value {
            Some(v) => Options { output_encoding: Encoding::named(v), ..opts },
            None => opts,
        },
        Valued::ServerEncoding => match value {
            Some(v) => Options { server_encoding: Encoding::named(v), ..opts },
            None => opts,
        },
        Valued::Sockname => Options { sockname: value, ..opts },
        Valued::Passed => opts,
    }
}

/// The options from an argument on, and the command with its arguments.
pub open spec fn options_from(argv: Seq<Seq<char>>, i: int, opts: Options) -> (
    Options,
    Seq<Seq<char>>,
)
    decreases argv.len() - i,
{
    if !(0 <= i < argv.len()) {
        (opts, Seq::empty())
    } else {
        match flag_of(argv[i]) {
            Flag::Takes(what, Some(v)) => options_from(
                argv,
                i + 1,
                with_value(opts, what, Some(v)),
            ),
            Flag::Takes(what, None) => if i + 1 < argv.len() {
                options_from(argv, i + 2, with_value(opts, what, Some(argv[i + 1])))
            } else {
                (with_value(opts, what, None), Seq::empty())
            },
            Flag::NoPretty => options_from(argv, i + 1, Options { no_pretty: true, ..opts }),
            Flag::Persistent => options_from(argv, i + 1, Options { persistent: true, ..opts }),
            Flag::NoSpawn => options_from(argv, i + 1, Options { no_spawn: true, ..opts }),
            Flag::JsonCommand => options_from(
                argv,
                i + 1,
                Options { server_encoding: Some(Encoding::Json), ..opts },
            ),
            Flag::Nothing => options_from(argv, i + 1, opts),
            Flag::Command => (opts, argv.skip(i)),
        }
    }
}

/// The name and value that an argument is split into.
enum Split {
    Not,
    Bare,
    With(String),
}

/// Splits an argument if it gives an option.
fn split_option(arg: &str, name: &str) -> (r: Split)
    ensures
        match (given(arg@, name@), r) {
            (Given::Not, Split::Not) => true,
            (Given::Bare, Split::Bare) => true,
            (Given::With(v), Split::With(s)) => s@ == v,
            _ => false,
        },
{
    if str_eq(arg, name) {
        return Split::Bare;
    }
    let mut front = name.to_string();
    front.append("=");
    let cs = chars_of(arg);
    if starts_with_chars(cs.as_slice(), front.as_str()) {
        let n: usize = chars_of(front.as_str()).len();
        proof {
            reveal_strlit("=");
        }
        let rest = vstd::slice::slice_subrange(cs.as_slice(), n, cs.len());
        assert(rest@ =~= arg@.skip(name@.len() as int + 1));
        Split::With(string_of(rest))
    } else {
        Split::Not
    }
}

/// An option with a value, as far as the argument itself gives it.
enum Found {
    /// An option with its value.
    With(Valued, String),
    /// An option whose value is the next argument.
    Bare(Valued),
    /// Something else.
    Other,
}

/// Whether what was found is what an argument says.
spec fn is_found(r: Found, f: Flag) -> bool {
    match r {
        Found::With(what, v) => f == Flag::Takes(what, Some(v@)),
        Found::Bare(what) => f == Flag::Takes(what, None),
        Found::Other => !(f is Takes),
    }
}

/// Looks for an option under a name.
fn look_for(arg: &str, name: &str, what: Valued) -> (r: Option<Found>)
    ensures
        match r {
            Some(found) => flag_if(arg@, name@, what) is Some && is_found(
                found,
                flag_if(arg@, name@, what)->0,
            ) && !(found is Other),
            None => flag_if(arg@, name@, what) is None,
        },
{
    match split_option(arg, name) {
        Split::Bare => Some(Found::Bare(what)),
        Split::With(v) => Some(Found::With(what, v)),
        Split::Not => None,
    }
}

/// Looks for the options that take a value.
fn find_valued(arg: &str) -> (r: Found)
    ensures
        is_found(r, flag_of(arg@)),
{
    if let Some(f) = look_for(arg, "--output-encoding", Valued::OutputEncoding) {
        return f;
    }
    if let Some(f) = look_for(arg, "--server-encoding", Valued::ServerEncoding) {
        return f;
    }
    if str_eq(arg, "-U") {
        return Found::Bare(Valued::Sockname);
    }
    if let Some(f) = look_for(arg, "--sockname", Valued::Sockname) {
        return f;
    }
    if str_eq(arg, "--no-pretty") || str_eq(arg, "-p") || str_eq(arg, "--persistent") || str_eq(
        arg,
        "--no-spawn",
    ) || str_eq(arg, "--no-local") || str_eq(arg, "-j") || str_eq(arg, "--json-command") || str_eq(
        arg,
        "-f",
    ) || str_eq(arg, "--foreground") || str_eq(arg, "-n") || str_eq(arg, "--no-save-state")
        || str_eq(arg, "--inetd") {
        return Found::Other;
    }
    if str_eq(arg, "-o") {
        return Found::Bare(Valued::Passed);
    }
    if let Some(f) = look_for(arg, "--statefile", Valued::Passed) {
        return f;
    }
    if let Some(f) = look_for(arg, "--logfile", Valued::Passed) {
        return f;
    }
    if let Some(f) = look_for(arg, "--log-level", Valued::Passed) {
        return f;
    }
    Found::Other
}

/// Takes the value of an option.
fn take_value(opts: CliOptions, what: Valued, value: Option<String>) -> (r: CliOptions)
    ensures
        r@ == with_value(opts@, what, optional_text(value)),
{
    let mut opts = opts;
    match what {
        Valued::OutputEncoding => match &value {
            Some(v) => {
                opts.output_encoding = Encoding::parse(v.as_str());
            },
            None => {},
        },
        Valued::ServerEncoding => match &value {
            Some(v) => {
                opts.server_encoding = Encoding::parse(v.as_str());
            },
            None => {},
        },
        Valued::Sockname => {
            opts.sockname = value;
        },
        Valued::Passed => {},
    }
    opts
}

/// Splits the command line into the options before the command, and the command
/// with its arguments.
pub fn parse_global_opts(argv: &[String]) -> (r: (CliOptions, Vec<String>))
    ensures
        (r.0@, texts(r.1@)) == options_from(texts(argv@), 0, no_options()),
{
    let mut opts = CliOptions::default();
    let mut i: usize = 0;
    let ghost all = texts(argv@);
    while i < argv.len()
        invariant
            all == texts(argv@),
            options_from(all, i as int, opts@) == options_from(all, 0, no_options()),
        decreases argv@.len() - i,
    {
        assert(all[i as int] == argv@[i as int]@);
        let arg = argv[i].as_str();
        match find_valued(arg) {
            Found::With(what, v) => {
                opts = take_value(opts, what, Some(v));
                i += 1;
            },
            Found::Bare(what) => {
                if argv.len() - i > 1 {
                    assert(all[i + 1] == argv@[i + 1]@);
                    opts = take_value(opts, what, Some(argv[i + 1].clone()));
                    i += 2;
                } else {
                    opts = take_value(opts, what, None);
                    i = argv.len();
                }
            },
            Found::Other => {
                if str_eq(arg, "--no-pretty") {
                    opts.no_pretty = true;
                } else if str_eq(arg, "-p") || str_eq(arg, "--persistent") {
                    opts.persistent = true;
                } else if str_eq(arg, "--no-spawn") {
                    opts.no_spawn = true;
                } else if str_eq(arg, "--no-local") {
                } else if str_eq(arg, "-j") || str_eq(arg, "--json-command") {
                    opts.server_encoding = Some(Encoding::Json);
                } else if str_eq(arg, "-f") || str_eq(arg, "--foreground") || str_eq(arg, "-n")
                    || str_eq(arg, "--no-save-state") || str_eq(arg, "--inetd") {
                } else {
                    let rest = vstd::slice::slice_subrange(argv, i, argv.len());
                    let rest = copy_strings(rest);
                    assert(texts(rest@) =~= all.skip(i as int));
                    return (opts, rest);
                }
                i += 1;
            },
        }
    }
    let rest: Vec<String> = Vec::new();
    assert(texts(rest@) =~= Seq::<Seq<char>>::empty());
    (opts, rest)
}

/// Why a command line is not sent to the daemon.
#[derive(Debug, Clone, Copy, PartialEq, Eq, Structural)]
pub enum ClientError {
    /// There is no command.
    Usage,
    /// A query without a path or without a query object.
    QueryUsage,
    /// A query object that is no JSON.
    BadQuery(JsonError),
}

impl ClientError {
    /// What is said of the error.
    pub open spec fn text(self) -> Seq<char> {
        match self {
            ClientError::Usage => "usage: watchman [options] <command> [args...]"@,
            ClientError::QueryUsage => "usage: watchman query <path> <query-json>"@,
            ClientError::BadQuery(e) => "invalid query JSON: "@ + e.text(),
        }
    }

    /// Says what is wrong.
    pub fn message(&self) -> (r: String)
        ensures
            r@ == self.text(),
    {
        match self {
            ClientError::Usage => "usage: watchman [options] <command> [args...]".to_string(),
            ClientError::QueryUsage => "usage: watchman query <path> <query-json>".to_string(),
            ClientError::BadQuery(e) => {
                let mut out = "invalid query JSON: ".to_string();
                let m = e.message();
                out.append(m.as_str());
                out
            },
        }
    }
}

/// Whether a command takes no arguments.
pub open spec fn is_plain(cmd: Seq<char>) -> bool {
    cmd == "version"@ || cmd == "get-sockname"@ || cmd == "shutdown-server"@ || cmd
        == "list-command"@
}

/// Whether a command takes at most a path.
pub open spec fn takes_path(cmd: Seq<char>) -> bool {
    cmd == "watch"@ || cmd == "watch-project"@ || cmd == "clock"@ || cmd == "watch-del"@ || cmd
        == "watch-list"@
}

/// Texts as values.
pub open spec fn string_data(all: Seq<Seq<char>>) -> Seq<Datum> {
    all.map_values(|s: Seq<char>| Datum::Str(s))
}

/// The request that a command with its arguments makes.
pub open spec fn planned(
    rest: Seq<Seq<char>>,
    readings: Map<Seq<char>, Option<u64>>,
) -> Result<Datum, ClientError> {
    if rest.len() == 0 {
        Err(ClientError::Usage)
    } else if is_plain(rest[0]) {
        Ok(Datum::Array(string_data(rest.take(1))))
    } else if takes_path(rest[0]) {
        if rest.len() > 1 {
            Ok(Datum::Array(string_data(rest.take(2))))
        } else {
            Ok(Datum::Array(string_data(rest.take(1))))
        }
    } else if rest[0] == "query"@ {
        if rest.len() < 3 {
            Err(ClientError::QueryUsage)
        } else {
            match text_value(rest[2], readings) {
                Ok(v) => Ok(Datum::Array(string_data(rest.take(2)).push(v))),
                Err(e) => Err(ClientError::BadQuery(e)),
            }
        }
    } else {
        Ok(Datum::Array(string_data(rest)))
    }
}

/// What a result stands for.
pub open spec fn plan_outcome(r: Result<Value, ClientError>) -> Result<Datum, ClientError> {
    match r {
        Ok(v) => Ok(v@),
        Err(e) => Err(e),
    }
}

/// The first strings of a row, as values.
fn string_values(all: &[String], n: usize) -> (r: Vec<Value>)
    requires
        n <= all@.len(),
    ensures
        data(r@) == string_data(texts(all@).take(n as int)),
{
    let mut out: Vec<Value> = Vec::new();
    let mut i: usize = 0;
    let ghost named = texts(all@);
    assert(data(out@) =~= string_data(named.take(0)));
    while i < n
        invariant
            i <= n <= all@.len(),
            named == texts(all@),
            data(out@) == string_data(named.take(i as int)),
        decreases n - i,
    {
        let v = Value::Str(all[i].clone());
        proof {
            lemma_data_push(out@, v);
            assert(named[i as int] == all@[i as int]@);
            assert(string_data(named.take(i + 1)) =~= string_data(named.take(i as int)).push(v@));
        }
        out.push(v);
        i += 1;
    }
    out
}

/// The request that a command with its arguments makes. (A query object in which
/// fewer than four bytes stand behind a `\u` is not for this function.)
pub fn plan_request(rest: &[String], numbers: &Numbers) -> (r: Result<Value, ClientError>)
    requires
        planned(texts(rest@), numbers.readings()) != Err::<Datum, ClientError>(
            ClientError::BadQuery(JsonError::CutEscape),
        ),
    ensures
        plan_outcome(r) == planned(texts(rest@), numbers.readings()),
{
    let ghost all = texts(rest@);
    if rest.len() == 0 {
        return Err(ClientError::Usage);
    }
    assert(all[0] == rest@[0]@);
    let cmd = rest[0].as_str();
    if str_eq(cmd, "version") || str_eq(cmd, "get-sockname") || str_eq(cmd, "shutdown-server")
        || str_eq(cmd, "list-command") {
        Ok(Value::Array(string_values(rest, 1)))
    } else if str_eq(cmd, "watch") || str_eq(cmd, "watch-project") || str_eq(cmd, "clock")
        || str_eq(cmd, "watch-del") || str_eq(cmd, "watch-list") {
        if rest.len() > 1 {
            Ok(Value::Array(string_values(rest, 2)))
        } else {
            Ok(Value::Array(string_values(rest, 1)))
        }
    } else if str_eq(cmd, "query") {
        if rest.len() < 3 {
            return Err(ClientError::QueryUsage);
        }
        assert(all[2] == rest@[2]@);
        match json::decode(rest[2].as_str(), numbers) {
            Ok(v) => {
                let mut items = string_values(rest, 2);
                proof {
                    lemma_data_push(items@, v);
                }
                items.push(v);
                Ok(Value::Array(items))
            },
            Err(e) => Err(ClientError::BadQuery(e)),
        }
    } else {
        assert(all.take(all.len() as int) =~= all);
        Ok(Value::Array(string_values(rest, rest.len())))
    }
}

/// The encoding that answers are shown in.
pub open spec fn shown_in(opts: Options) -> Encoding {
    match opts.output_encoding {
        Some(e) => e,
        None => Encoding::Json,
    }
}

/// The encoding that answers are shown in: JSON unless another is asked for.
pub fn output_encoding(opts: &CliOptions) -> (r: Encoding)
    ensures
        r == shown_in(opts@),
{
    match opts.output_encoding {
        Some(e) => e,
        None => Encoding::Json,
    }
}

/// The framing that shows an answer in an encoding.
pub open spec fn framing_of(encoding: Encoding) -> Framing {
    match encoding {
        Encoding::Json => Framing::Json,
        Encoding::Bser => Framing::Bser(PduVersion::V1),
        Encoding::BserV2 => Framing::Bser(PduVersion::V2),
    }
}

/// What is printed of an answer; fails with the first double that has no
/// notation, if the encoding is JSON.
pub fn print_response(resp: &Value, encoding: Encoding, numbers: &Numbers) -> (r: Result<
    Vec<u8>,
    u64,
>)
    ensures
        match response_missing(resp@, framing_of(encoding), numbers.notations()) {
            None => r is Ok && r->Ok_0@ == response_bytes(
                resp@,
                framing_of(encoding),
                numbers.notations(),
            ),
            Some(d) => r == Err::<Vec<u8>, u64>(d),
        },
{
    let framing = match encoding {
        Encoding::Json => Framing::Json,
        Encoding::Bser => Framing::Bser(PduVersion::V1),
        Encoding::BserV2 => Framing::Bser(PduVersion::V2),
    };
    let mut out: Vec<u8> = Vec::new();
    match write_response(&mut out, resp, &framing, numbers) {
        Ok(_) => {
            assert(out@ =~= response_bytes(resp@, framing, numbers.notations()));
            Ok(out)
        },
        Err(d) => Err(d),
    }
}

/// Whether an answer says that something is wrong.
pub open spec fn is_refusal(resp: Datum) -> bool {
    resp.lookup("error"@) is Some
}

/// The exit code that an answer leads to.
pub open spec fn status(resp: Datum) -> i32 {
    if is_refusal(resp) {
        1
    } else {
        0
    }
}

/// The exit code that an answer leads to.
pub fn exit_code(resp: &Value) -> (r: i32)
    ensures
        r == status(resp@),
{
    match resp.get("error") {
        Some(_) => 1,
        None => 0,
    }
}

/// A request that the daemon refuses makes the client fail.
pub proof fn law_refusals_fail(msg: Seq<char>)
    ensures
        is_refusal(refusal(msg)),
{
    law_refusals_say_why(msg);
}

/// The socket that a client talks to.
pub open spec fn socket(opts: Options, env: &Environment) -> Seq<u8> {
    match opts.sockname {
        Some(s) => encode_utf8(s),
        None => filed(env.system, env.state_path(), encode_utf8("sock"@)),
    }
}

/// The socket that a client talks to: the one that is named, or the usual one.
pub fn sock_path(opts: &CliOptions, env: &Environment) -> (r: Vec<u8>)
    ensures
        r@ == socket(opts@, env),
{
    match &opts.sockname {
        Some(s) => vstd::slice::slice_to_vec(s.as_str().as_bytes()),
        None => paths::sock_path(env),
    }
}

/// The arguments that a daemon is started with.
pub open spec fn daemon_args(opts: Options) -> Seq<Seq<char>> {
    match opts.sockname {
        Some(s) => seq!["--foreground"@, "--sockname"@, s],
        None => seq!["--foreground"@],
    }
}

/// The arguments that a daemon is started with.
pub fn spawn_args(opts: &CliOptions) -> (r: Vec<String>)
    ensures
        texts(r@) == daemon_args(opts@),
{
    let mut out: Vec<String> = Vec::new();
    out.push("--foreground".to_string());
    match &opts.sockname {
        Some(s) => {
            out.push("--sockname".to_string());
            out.push(s.clone());
        },
        None => {},
    }
    assert(texts(out@) =~= daemon_args(opts@));
    out
}

/// How many times a daemon that was started is tried.
pub const START_ATTEMPTS: u32 = 100;

/// How many milliseconds lie before each try.
pub const START_PAUSE: u64 = 50;

/// What to do after the daemon could not be reached.
#[derive(Debug, Clone, Copy, PartialEq, Eq, Structural)]
pub enum Contact {
    /// Start a daemon, pause and try again.
    Start,
    /// Pause and try again.
    Retry,
    /// No daemon runs, and none is to be started.
    NotRunning,
    /// The daemon that was started does not answer.
    TimedOut,
}

impl Contact {
    /// What is said where no daemon is reached.
    pub open spec fn text(self) -> Option<Seq<char>> {
        match self {
            Contact::NotRunning => Some("daemon is not running and --no-spawn was given"@),
            Contact::TimedOut => Some("daemon did not start in time"@),
            _ => None,
        }
    }

    /// Says why no daemon is reached.
    pub fn message(&self) -> (r: Option<&'static str>)
        ensures
            match r {
                Some(s) => self.text() == Some(s@),
                None => self.text() is None,
            },
    {
        match self {
            Contact::NotRunning => Some("daemon is not running and --no-spawn was given"),
            Contact::TimedOut => Some("daemon did not start in time"),
            _ => None,
        }
    }
}

/// What to do after the daemon could not be reached, after so many tries since it
/// was started, or before it was.
pub open spec fn after_failing(opts: Options, tries: Option<u32>) -> Contact {
    match tries {
        None => if opts.no_spawn {
            Contact::NotRunning
        } else {
            Contact::Start
        },
        Some(n) => if n < START_ATTEMPTS {
            Contact::Retry
        } else {
            Contact::TimedOut
        },
    }
}

/// What to do after the daemon could not be reached, after so many tries since it
/// was started, or before it was.
pub fn ensure_daemon(opts: &CliOptions, tries: Option<u32>) -> (r: Contact)
    ensures
        r == after_failing(opts@, tries),
{
    match tries {
        None => if opts.no_spawn {
            Contact::NotRunning
        } else {
            Contact::Start
        },
        Some(n) => if n < START_ATTEMPTS {
            Contact::Retry
        } else {
            Contact::TimedOut
        },
    }
}

/// What the program is started for.
#[derive(Debug)]
pub enum Role {
    /// To serve as the daemon, on a socket.
    Serve(Vec<u8>),
    /// To serve as a client.
    Ask,
}

/// The socket to serve on, where the program is started to serve: with the word
/// for it first, and the socket behind the option that names it.
pub open spec fn serving(args: Seq<Seq<char>>, env: &Environment) -> Option<Seq<u8>> {
    if args.len() == 0 || args[0] != "--foreground"@ {
        None
    } else if args.len() > 2 && args[1] == "--sockname"@ {
        Some(encode_utf8(args[2]))
    } else {
        Some(filed(env.system, env.state_path(), encode_utf8("sock"@)))
    }
}

/// What the program is started for.
pub fn role(args: &[String], env: &Environment) -> (r: Role)
    ensures
        match r {
            Role::Serve(path) => serving(texts(args@), env) == Some(path@),
            Role::Ask => serving(texts(args@), env) is None,
        },
{
    let ghost all = texts(args@);
    if args.len() == 0 {
        return Role::Ask;
    }
    assert(all[0] == args@[0]@);
    if !str_eq(args[0].as_str(), "--foreground") {
        return Role::Ask;
    }
    if args.len() > 2 {
        assert(all[1] == args@[1]@);
        assert(all[2] == args@[2]@);
        if str_eq(args[1].as_str(), "--sockname") {
            return Role::Serve(vstd::slice::slice_to_vec(args[2].as_str().as_bytes()));
        }
    }
    Role::Serve(paths::sock_path(env))
}

/// A daemon that a client starts serves on the socket that the client talks to.
pub proof fn law_started_daemon_is_found(opts: Options, env: &Environment)
    ensures
        serving(daemon_args(opts), env) == Some(socket(opts, env)),
{
    let args = daemon_args(opts);
    assert(args[0] == "--foreground"@);
    match opts.sockname {
        Some(s) => {
            assert(args[1] == "--sockname"@);
            assert(args[2] == s);
        },
        None => {},
    }
}

/// Where the command stands, the options end: what follows it is left as it is,
/// even where it looks like an option.
pub proof fn law_command_ends_options(argv: Seq<Seq<char>>, i: int, opts: Options)
    requires
        0 <= i < argv.len(),
        flag_of(argv[i]) is Command,
    ensures
        options_from(argv, i, opts) == (opts, argv.skip(i)),
{
}

/// The options that take a value, by their long names.
pub open spec fn valued(name: Seq<char>) -> Option<Valued> {
    if name == "--output-encoding"@ {
        Some(Valued::OutputEncoding)
    } else if name == "--server-encoding"@ {
        Some(Valued::ServerEncoding)
    } else if name == "--sockname"@ {
        Some(Valued::Sockname)
    } else if name == "--statefile"@ || name == "--logfile"@ || name == "--log-level"@ {
        Some(Valued::Passed)
    } else {
        None
    }
}

/// An argument that differs from a name somewhere does not give the option.
proof fn lemma_not_given(arg: Seq<char>, name: Seq<char>, j: int)
    requires
        0 <= j < arg.len(),
        j < name.len(),
        arg[j] != name[j],
    ensures
        given(arg, name) is Not,
{
    if (name + "="@).is_prefix_of(arg) {
        assert((name + "="@)[j] == name[j]);
    }
}

/// How the two forms of an option are given.
proof fn lemma_given(name: Seq<char>, x: Seq<char>)
    ensures
        given(name, name) is Bare,
        given(name + "="@ + x, name) == Given::With(x),
{
    reveal_strlit("=");
    let arg = name + "="@ + x;
    assert(arg.len() > name.len());
    assert((name + "="@).is_prefix_of(arg));
    assert(arg.skip(name.len() as int + 1) =~= x);
}

/// What an argument that starts with `--output-encoding` says depends on that option alone.
proof fn lemma_flag_output_encoding(arg: Seq<char>)
    requires
        "--output-encoding"@.is_prefix_of(arg),
        given(arg, "--output-encoding"@) !is Not,
    ensures
        Some(flag_of(arg)) == flag_if(arg, "--output-encoding"@, Valued::OutputEncoding),
{
    reveal_strlit("--output-encoding");
}

/// What an argument that starts with `--server-encoding` says depends on that option alone.
proof fn lemma_flag_server_encoding(arg: Seq<char>)
    requires
        "--server-encoding"@.is_prefix_of(arg),
        given(arg, "--server-encoding"@) !is Not,
    ensures
        Some(flag_of(arg)) == flag_if(arg, "--server-encoding"@, Valued::ServerEncoding),
{
    let name = "--server-encoding"@;
    reveal_strlit("--server-encoding");
    reveal_strlit("--output-encoding");
    assert(arg.subrange(0, name.len() as int)[2] == 's');
    lemma_not_given(arg, "--output-encoding"@, 2);
}

/// What an argument that starts with `--sockname` says depends on that option alone.
proof fn lemma_flag_sockname(arg: Seq<char>)
    requires
        "--sockname"@.is_prefix_of(arg),
        given(arg, "--sockname"@) !is Not,
    ensures
        Some(flag_of(arg)) == flag_if(arg, "--sockname"@, Valued::Sockname),
{
    let name = "--sockname"@;
    reveal_strlit("--sockname");
    reveal_strlit("--output-encoding");
    reveal_strlit("--server-encoding");
    reveal_strlit("-U");
    assert(arg.subrange(0, name.len() as int)[1] == '-');
    assert(arg.subrange(0, name.len() as int)[2] == 's');
    assert(arg.subrange(0, name.len() as int)[3] == 'o');
    lemma_not_given(arg, "--output-encoding"@, 2);
    lemma_not_given(arg, "--server-encoding"@, 3);
    assert("-U"@[1] == 'U');
}

/// What an argument that starts with `--statefile` says depends on that option alone.
proof fn lemma_flag_statefile(arg: Seq<char>)
    requires
        "--statefile"@.is_prefix_of(arg),
        given(arg, "--statefile"@) !is Not,
    ensures
        Some(flag_of(arg)) == flag_if(arg, "--statefile"@, Valued::Passed),
{
    let name = "--statefile"@;
    reveal_strlit("--statefile");
    reveal_strlit("--output-encoding");
    reveal_strlit("--server-encoding");
    reveal_strlit("-U");
    reveal_strlit("--sockname");
    reveal_strlit("--no-pretty");
    reveal_strlit("-p");
    reveal_strlit("--persistent");
    reveal_strlit("--no-spawn");
    reveal_strlit("--no-local");
    reveal_strlit("-j");
    reveal_strlit("--json-command");
    reveal_strlit("-f");
    reveal_strlit("--foreground");
    reveal_strlit("-n");
    reveal_strlit("--no-save-state");
    reveal_strlit("--inetd");
    reveal_strlit("-o");
    assert(arg.subrange(0, name.len() as int)[1] == '-');
    assert(arg.subrange(0, name.len() as int)[2] == 's');
    assert(arg.subrange(0, name.len() as int)[3] == 't');
    lemma_not_given(arg, "--output-encoding"@, 2);
    lemma_not_given(arg, "--server-encoding"@, 3);
    assert("-U"@[1] == 'U');
    lemma_not_given(arg, "--sockname"@, 3);
    assert("--no-pretty"@[2] == 'n');
    assert("-p"@[1] == 'p');
    assert("--persistent"@[2] == 'p');
    assert("--no-spawn"@[2] == 'n');
    assert("--no-local"@[2] == 'n');
    assert("-j"@[1] == 'j');
    assert("--json-command"@[2] == 'j');
    assert("-f"@[1] == 'f');
    assert("--foreground"@[2] == 'f');
    assert("-n"@[1] == 'n');
    assert("--no-save-state"@[2] == 'n');
    assert("--inetd"@[2] == 'i');
    assert("-o"@[1] == 'o');
}

/// What an argument that starts with `--logfile` says depends on that option alone.
proof fn lemma_flag_logfile(arg: Seq<char>)
    requires
        "--logfile"@.is_prefix_of(arg),
        given(arg, "--logfile"@) !is Not,
    ensures
        Some(flag_of(arg)) == flag_if(arg, "--logfile"@, Valued::Passed),
{
    let name = "--logfile"@;
    reveal_strlit("--logfile");
    reveal_strlit("--output-encoding");
    reveal_strlit("--server-encoding");
    reveal_strlit("-U");
    reveal_strlit("--sockname");
    reveal_strlit("--no-pretty");
    reveal_strlit("-p");
    reveal_strlit("--persistent");
    reveal_strlit("--no-spawn");
    reveal_strlit("--no-local");
    reveal_strlit("-j");
    reveal_strlit("--json-command");
    reveal_strlit("-f");
    reveal_strlit("--foreground");
    reveal_strlit("-n");
    reveal_strlit("--no-save-state");
    reveal_strlit("--inetd");
    reveal_strlit("-o");
    reveal_strlit("--statefile");
    assert(arg.subrange(0, name.len() as int)[1] == '-');
    assert(arg.subrange(0, name.len() as int)[2] == 'l');
    lemma_not_given(arg, "--output-encoding"@, 2);
    lemma_not_given(arg, "--server-encoding"@, 2);
    assert("-U"@[1] == 'U');
    lemma_not_given(arg, "--sockname"@, 2);
    assert("--no-pretty"@[2] == 'n');
    assert("-p"@[1] == 'p');
    assert("--persistent"@[2] == 'p');
    assert("--no-spawn"@[2] == 'n');
    assert("--no-local"@[2] == 'n');
    assert("-j"@[1] == 'j');
    assert("--json-command"@[2] == 'j');
    assert("-f"@[1] == 'f');
    assert("--foreground"@[2] == 'f');
    assert("-n"@[1] == 'n');
    assert("--no-save-state"@[2] == 'n');
    assert("--inetd"@[2] == 'i');
    assert("-o"@[1] == 'o');
    lemma_not_given(arg, "--statefile"@, 2);
}

/// What an argument that starts with `--log-level` says depends on that option alone.
proof fn lemma_flag_log_level(arg: Seq<char>)
    requires
        "--log-level"@.is_prefix_of(arg),
        given(arg, "--log-level"@) !is Not,
    ensures
        Some(flag_of(arg)) == flag_if(arg, "--log-level"@, Valued::Passed),
{
    let name = "--log-level"@;
    reveal_strlit("--log-level");
    reveal_strlit("--output-encoding");
    reveal_strlit("--server-encoding");
    reveal_strlit("-U");
    reveal_strlit("--sockname");
    reveal_strlit("--no-pretty");
    reveal_strlit("-p");
    reveal_strlit("--persistent");
    reveal_strlit("--no-spawn");
    reveal_strlit("--no-local");
    reveal_strlit("-j");
    reveal_strlit("--json-command");
    reveal_strlit("-f");
    reveal_strlit("--foreground");
    reveal_strlit("-n");
    reveal_strlit("--no-save-state");
    reveal_strlit("--inetd");
    reveal_strlit("-o");
    reveal_strlit("--statefile");
    reveal_strlit("--logfile");
    assert(arg.subrange(0, name.len() as int)[1] == '-');
    assert(arg.subrange(0, name.len() as int)[2] == 'l');
    assert(arg.subrange(0, name.len() as int)[5] == '-');
    lemma_not_given(arg, "--output-encoding"@, 2);
    lemma_not_given(arg, "--server-encoding"@, 2);
    assert("-U"@[1] == 'U');
    lemma_not_given(arg, "--sockname"@, 2);
    assert("--no-pretty"@[2] == 'n');
    assert("-p"@[1] == 'p');
    assert("--persistent"@[2] == 'p');
    assert("--no-spawn"@[2] == 'n');
    assert("--no-local"@[2] == 'n');
    assert("-j"@[1] == 'j');
    assert("--json-command"@[2] == 'j');
    assert("-f"@[1] == 'f');
    assert("--foreground"@[2] == 'f');
    assert("-n"@[1] == 'n');
    assert("--no-save-state"@[2] == 'n');
    assert("--inetd"@[2] == 'i');
    assert("-o"@[1] == 'o');
    lemma_not_given(arg, "--statefile"@, 2);
    lemma_not_given(arg, "--logfile"@, 5);
}

/// An option that takes a value is known by its long name, with the value behind an
/// equals sign or without.
proof fn lemma_flag_forms(name: Seq<char>, x: Seq<char>)
    requires
        valued(name) is Some,
    ensures
        flag_of(name) == Flag::Takes(valued(name)->0, None),
        flag_of(name + "="@ + x) == Flag::Takes(valued(name)->0, Some(x)),
{
    let arg = name + "="@ + x;
    lemma_given(name, x);
    assert(name.is_prefix_of(name));
    assert(name.is_prefix_of(arg));
    if name == "--output-encoding"@ {
        lemma_flag_output_encoding(name);
        lemma_flag_output_encoding(arg);
    } else if name == "--server-encoding"@ {
        lemma_flag_server_encoding(name);
        lemma_flag_server_encoding(arg);
    } else if name == "--sockname"@ {
        lemma_flag_sockname(name);
        lemma_flag_sockname(arg);
    } else if name == "--statefile"@ {
        lemma_flag_statefile(name);
        lemma_flag_statefile(arg);
    } else if name == "--logfile"@ {
        lemma_flag_logfile(name);
        lemma_flag_logfile(arg);
    } else {
        lemma_flag_log_level(name);
        lemma_flag_log_level(arg);
    }
}

/// The short name of the socket's option says what its long name does.
proof fn lemma_flag_u()
    ensures
        flag_of("-U"@) == Flag::Takes(Valued::Sockname, None),
{
    reveal_strlit("-U");
    reveal_strlit("--output-encoding");
    reveal_strlit("--server-encoding");
    assert("-U"@[1] == 'U');
    lemma_not_given("-U"@, "--output-encoding"@, 1);
    lemma_not_given("-U"@, "--server-encoding"@, 1);
}

/// Whether arguments from one on are options only, each with the value that it
/// takes.
pub open spec fn only_options(argv: Seq<Seq<char>>, i: int) -> bool
    decreases argv.len() - i,
{
    if !(0 <= i < argv.len()) {
        i == argv.len()
    } else {
        match flag_of(argv[i]) {
            Flag::Takes(_, None) => i + 1 < argv.len() && only_options(argv, i + 2),
            Flag::Command => false,
            _ => only_options(argv, i + 1),
        }
    }
}

/// What options say is taken over where more follows them.
proof fn lemma_options_on(front: Seq<Seq<char>>, back: Seq<Seq<char>>, i: int, opts: Options)
    requires
        0 <= i <= front.len(),
        only_options(front, i),
    ensures
        options_from(front + back, i, opts) == options_from(
            front + back,
            front.len() as int,
            options_from(front, i, opts).0,
        ),
    decreases front.len() - i,
{
    if i < front.len() {
        let argv = front + back;
        assert(argv[i] == front[i]);
        match flag_of(front[i]) {
            Flag::Takes(what, Some(v)) => lemma_options_on(
                front,
                back,
                i + 1,
                with_value(opts, what, Some(v)),
            ),
            Flag::Takes(what, None) => {
                assert(argv[i + 1] == front[i + 1]);
                lemma_options_on(front, back, i + 2, with_value(opts, what, Some(front[i + 1])));
            },
            Flag::NoPretty => lemma_options_on(
                front,
                back,
                i + 1,
                Options { no_pretty: true, ..opts },
            ),
            Flag::Persistent => lemma_options_on(
                front,
                back,
                i + 1,
                Options { persistent: true, ..opts },
            ),
            Flag::NoSpawn => lemma_options_on(front, back, i + 1, Options { no_spawn: true, ..opts }),
            Flag::JsonCommand => lemma_options_on(
                front,
                back,
                i + 1,
                Options { server_encoding: Some(Encoding::Json), ..opts },
            ),
            Flag::Nothing => lemma_options_on(front, back, i + 1, opts),
            Flag::Command => {},
        }
    }
}

/// What arguments say does not depend on what stood before them.
proof fn lemma_options_shift(front: Seq<Seq<char>>, back: Seq<Seq<char>>, i: int, opts: Options)
    requires
        0 <= i <= back.len(),
    ensures
        options_from(front + back, front.len() + i, opts) == options_from(back, i, opts),
    decreases back.len() - i,
{
    if i < back.len() {
        let argv = front + back;
        let at = front.len() + i;
        assert(argv[at] == back[i]);
        match flag_of(back[i]) {
            Flag::Takes(what, Some(v)) => lemma_options_shift(
                front,
                back,
                i + 1,
                with_value(opts, what, Some(v)),
            ),
            Flag::Takes(what, None) => {
                if i + 1 < back.len() {
                    assert(argv[at + 1] == back[i + 1]);
                    lemma_options_shift(
                        front,
                        back,
                        i + 2,
                        with_value(opts, what, Some(back[i + 1])),
                    );
                }
            },
            Flag::NoPretty => lemma_options_shift(
                front,
                back,
                i + 1,
                Options { no_pretty: true, ..opts },
            ),
            Flag::Persistent => lemma_options_shift(
                front,
                back,
                i + 1,
                Options { persistent: true, ..opts },
            ),
            Flag::NoSpawn => lemma_options_shift(
                front,
                back,
                i + 1,
                Options { no_spawn: true, ..opts },
            ),
            Flag::JsonCommand => lemma_options_shift(
                front,
                back,
                i + 1,
                Options { server_encoding: Some(Encoding::Json), ..opts },
            ),
            Flag::Nothing => lemma_options_shift(front, back, i + 1, opts),
            Flag::Command => {
                assert(argv.skip(at) =~= back.skip(i));
            },
        }
    }
}

/// Where two command lines differ only in how the option behind their first options
/// is written, they say the same.
proof fn lemma_same_option(
    front: Seq<Seq<char>>,
    one: Seq<Seq<char>>,
    other: Seq<Seq<char>>,
    back: Seq<Seq<char>>,
    what: Valued,
    x: Seq<char>,
    opts: Options,
)
    requires
        only_options(front, 0),
        gives(one, what, x),
        gives(other, what, x),
    ensures
        options_from(front + one + back, 0, opts) == options_from(front + other + back, 0, opts),
{
    let then = options_from(front, 0, opts).0;
    assert(front + one + back =~= front + (one + back));
    assert(front + other + back =~= front + (other + back));
    lemma_options_on(front, one + back, 0, opts);
    lemma_options_on(front, other + back, 0, opts);
    lemma_options_shift(front, one + back, 0, then);
    lemma_options_shift(front, other + back, 0, then);
    lemma_gives(one, back, what, x, then);
    lemma_gives(other, back, what, x, then);
}

/// Whether some arguments give an option with a value, and nothing else.
pub open spec fn gives(args: Seq<Seq<char>>, what: Valued, x: Seq<char>) -> bool {
    ||| args.len() == 1 && flag_of(args[0]) == Flag::Takes(what, Some(x))
    ||| args.len() == 2 && flag_of(args[0]) == Flag::Takes(what, None) && args[1] == x
}

/// An option with a value is taken over, and what follows is read on.
proof fn lemma_gives(
    args: Seq<Seq<char>>,
    back: Seq<Seq<char>>,
    what: Valued,
    x: Seq<char>,
    opts: Options,
)
    requires
        gives(args, what, x),
    ensures
        options_from(args + back, 0, opts) == options_from(
            back,
            0,
            with_value(opts, what, Some(x)),
        ),
{
    let argv = args + back;
    assert(argv[0] == args[0]);
    if args.len() == 2 {
        assert(argv[1] == args[1]);
    }
    lemma_options_shift(args, back, 0, with_value(opts, what, Some(x)));
}

/// Before the command, an option that takes a value says the same in either form:
/// with the value behind an equals sign, and as the next argument.
pub proof fn law_forms_of_an_option(
    front: Seq<Seq<char>>,
    name: Seq<char>,
    x: Seq<char>,
    back: Seq<Seq<char>>,
)
    requires
        only_options(front, 0),
        valued(name) is Some,
    ensures
        options_from(front + seq![name + "="@ + x] + back, 0, no_options()) == options_from(
            front + seq![name, x] + back,
            0,
            no_options(),
        ),
{
    lemma_flag_forms(name, x);
    let one = seq![name + "="@ + x];
    let other = seq![name, x];
    assert(one[0] == name + "="@ + x);
    assert(other[0] == name && other[1] == x);
    lemma_same_option(front, one, other, back, valued(name)->0, x, no_options());
}

/// Before the command, the short name of the socket's option says what the long one
/// does.
pub proof fn law_short_name_of_the_socket(
    front: Seq<Seq<char>>,
    x: Seq<char>,
    back: Seq<Seq<char>>,
)
    requires
        only_options(front, 0),
    ensures
        options_from(front + seq!["-U"@, x] + back, 0, no_options()) == options_from(
            front + seq!["--sockname"@, x] + back,
            0,
            no_options(),
        ),
{
    let one = seq!["-U"@, x];
    let other = seq!["--sockname"@, x];
    lemma_flag_u();
    reveal_strlit("--output-encoding");
    reveal_strlit("--server-encoding");
    reveal_strlit("--sockname");
    assert("--sockname"@[3] == 'o');
    assert("--output-encoding"@[3] == 'u');
    assert("--server-encoding"@[3] == 'e');
    assert(valued("--sockname"@) == Some(Valued::Sockname));
    lemma_flag_forms("--sockname"@, x);
    assert(one[0] == "-U"@ && one[1] == x);
    assert(other[0] == "--sockname"@ && other[1] == x);
    lemma_same_option(front, one, other, back, Valued::Sockname, x, no_options());
}

/// What is left of a command line is the end of it, as it stands; it is empty, or
/// starts with the command.
pub proof fn law_rest_is_the_end(argv: Seq<Seq<char>>, i: int, opts: Options)
    ensures
        options_from(argv, i, opts).1.is_suffix_of(argv),
        options_from(argv, i, opts).1.len() > 0 ==> flag_of(options_from(argv, i, opts).1[0])
            is Command,
    decreases argv.len() - i,
{
    if 0 <= i < argv.len() {
        match flag_of(argv[i]) {
            Flag::Takes(what, Some(v)) => law_rest_is_the_end(
                argv,
                i + 1,
                with_value(opts, what, Some(v)),
            ),
            Flag::Takes(what, None) => {
                if i + 1 < argv.len() {
                    law_rest_is_the_end(argv, i + 2, with_value(opts, what, Some(argv[i + 1])));
                }
            },
            Flag::NoPretty => law_rest_is_the_end(argv, i + 1, Options { no_pretty: true, ..opts }),
            Flag::Persistent => law_rest_is_the_end(
                argv,
                i + 1,
                Options { persistent: true, ..opts },
            ),
            Flag::NoSpawn => law_rest_is_the_end(argv, i + 1, Options { no_spawn: true, ..opts }),
            Flag::JsonCommand => law_rest_is_the_end(
                argv,
                i + 1,
                Options { server_encoding: Some(Encoding::Json), ..opts },
            ),
            Flag::Nothing => law_rest_is_the_end(argv, i + 1, opts),
            Flag::Command => {},
        }
    }
}

/// The names of the commands are told apart.
proof fn lemma_command_names()
    ensures
        "version"@.len() == 7,
        "get-sockname"@.len() == 12 && "get-sockname"@[0] == 'g',
        "shutdown-server"@.len() == 15,
        "list-command"@.len() == 12 && "list-command"@[0] == 'l',
        "watch"@.len() == 5 && "watch"@[0] == 'w',
        "watch-project"@.len() == 13,
        "clock"@.len() == 5 && "clock"@[0] == 'c',
        "watch-del"@.len() == 9,
        "watch-list"@.len() == 10,
        "query"@.len() == 5 && "query"@[0] == 'q',
{
    reveal_strlit("version");
    reveal_strlit("get-sockname");
    reveal_strlit("shutdown-server");
    reveal_strlit("list-command");
    reveal_strlit("watch");
    reveal_strlit("watch-project");
    reveal_strlit("clock");
    reveal_strlit("watch-del");
    reveal_strlit("watch-list");
    reveal_strlit("query");
}

/// A command to watch, to watch a project or for a clock makes a request of its name and
/// the path behind it, and of nothing that follows; the daemon then has that path
/// resolved.
pub proof fn law_paths_are_sent(
    cmd: Seq<char>,
    path: Seq<char>,
    more: Seq<Seq<char>>,
    readings: Map<Seq<char>, Option<u64>>,
    env: &Environment,
)
    ensures
        ({
            let plan = planned(seq![cmd, path] + more, readings);
            let sent = Ok::<Datum, ClientError>(
                Datum::Array(seq![Datum::Str(cmd), Datum::Str(path)]),
            );
            let needed = begun(plan->Ok_0, env);
            &&& cmd == "watch"@ ==> plan == sent && needed == Outcome::Need(
                (Stage::Resolving { goal: Purpose::Watch, path }),
            )
            &&& cmd == "watch-project"@ ==> plan == sent && needed == Outcome::Need(
                (Stage::Resolving { goal: Purpose::Project, path }),
            )
            &&& cmd == "clock"@ ==> plan == sent && needed == Outcome::Need(
                (Stage::Resolving { goal: Purpose::Clock, path }),
            )
            &&& cmd == "watch-del"@ || cmd == "watch-list"@ ==> plan == sent
        }),
{
    lemma_command_names();
    let rest = seq![cmd, path] + more;
    let args = seq![Datum::Str(cmd), Datum::Str(path)];
    assert(rest[0] == cmd && rest[1] == path);
    assert(string_data(rest.take(2)) =~= args);
    law_paths_are_resolved(args, path, env);
}

/// A query makes a request of its name, the path and the value of the query object; the
/// daemon then has that path resolved, to answer that query. A query object that is no
/// JSON is told.
pub proof fn law_queries_are_sent(
    path: Seq<char>,
    object: Seq<char>,
    more: Seq<Seq<char>>,
    readings: Map<Seq<char>, Option<u64>>,
    env: &Environment,
)
    ensures
        ({
            let plan = planned(seq!["query"@, path, object] + more, readings);
            match text_value(object, readings) {
                Ok(v) => plan == Ok::<Datum, ClientError>(
                    Datum::Array(seq![Datum::Str("query"@), Datum::Str(path), v]),
                ) && begun(plan->Ok_0, env) == Outcome::Need(
                    (Stage::Resolving { goal: Purpose::Query(v), path }),
                ),
                Err(e) => plan == Err::<Datum, ClientError>(ClientError::BadQuery(e)),
            }
        }),
{
    lemma_command_names();
    let rest = seq!["query"@, path, object] + more;
    assert(rest[0] == "query"@ && rest[1] == path && rest[2] == object);
    match text_value(object, readings) {
        Ok(v) => {
            let args = seq![Datum::Str("query"@), Datum::Str(path), v];
            assert(string_data(rest.take(2)).push(v) =~= args);
            law_paths_are_resolved(args, path, env);
        },
        Err(e) => {},
    }
}

/// A command that takes no arguments is sent alone, whatever follows, and so is one that
/// takes a path where nothing follows.
pub proof fn law_commands_are_sent_alone(
    cmd: Seq<char>,
    more: Seq<Seq<char>>,
    readings: Map<Seq<char>, Option<u64>>,
)
    requires
        ({
            ||| cmd == "version"@
            ||| cmd == "get-sockname"@
            ||| cmd == "shutdown-server"@
            ||| cmd == "list-command"@
            ||| more.len() == 0 && cmd != "query"@
        }),
    ensures
        planned(seq![cmd] + more, readings) == Ok::<Datum, ClientError>(
            Datum::Array(seq![Datum::Str(cmd)]),
        ),
{
    lemma_command_names();
    let rest = seq![cmd] + more;
    assert(rest[0] == cmd);
    assert(string_data(rest.take(1)) =~= seq![Datum::Str(cmd)]);
    if more.len() == 0 {
        assert(rest =~= rest.take(1));
    }
}

/// Any other command is sent with all of its arguments, in order.
pub proof fn law_other_commands_are_sent_whole(
    rest: Seq<Seq<char>>,
    readings: Map<Seq<char>, Option<u64>>,
    k: int,
)
    requires
        0 <= k < rest.len(),
        rest[0] != "version"@,
        rest[0] != "get-sockname"@,
        rest[0] != "shutdown-server"@,
        rest[0] != "list-command"@,
        rest[0] != "watch"@,
        rest[0] != "watch-project"@,
        rest[0] != "clock"@,
        rest[0] != "watch-del"@,
        rest[0] != "watch-list"@,
        rest[0] != "query"@,
    ensures
        planned(rest, readings) is Ok,
        planned(rest, readings)->Ok_0 is Array,
        planned(rest, readings)->Ok_0->Array_0.len() == rest.len(),
        planned(rest, readings)->Ok_0->Array_0[k] == Datum::Str(rest[k]),
{
}

/// Without a command nothing is sent, and no query without a path and a query object.
pub proof fn law_usage_is_told(path: Seq<char>, readings: Map<Seq<char>, Option<u64>>)
    ensures
        planned(Seq::empty(), readings) == Err::<Datum, ClientError>(ClientError::Usage),
        planned(seq!["query"@], readings) == Err::<Datum, ClientError>(ClientError::QueryUsage),
        planned(seq!["query"@, path], readings) == Err::<Datum, ClientError>(
            ClientError::QueryUsage,
        ),
        ClientError::Usage.text() == "usage: watchman [options] <command> [args...]"@,
        ClientError::QueryUsage.text() == "usage: watchman query <path> <query-json>"@,
{
    lemma_command_names();
}

/// What is sent starts with the command.
pub proof fn law_command_comes_first(
    rest: Seq<Seq<char>>,
    readings: Map<Seq<char>, Option<u64>>,
)
    requires
        planned(rest, readings) is Ok,
    ensures
        rest.len() > 0,
        planned(rest, readings)->Ok_0 is Array,
        planned(rest, readings)->Ok_0->Array_0.len() > 0,
        planned(rest, readings)->Ok_0->Array_0[0] == Datum::Str(rest[0]),
{
}

/// The names of the encodings are three.
pub proof fn law_names_of_encodings(s: Seq<char>)
    ensures
        Encoding::named(s) == Some(Encoding::Json) <==> s == "json"@,
        Encoding::named(s) == Some(Encoding::Bser) <==> s == "bser"@,
        Encoding::named(s) == Some(Encoding::BserV2) <==> s == "bser-v2"@,
        Encoding::named(s) is None <==> s != "json"@ && s != "bser"@ && s != "bser-v2"@,
{
    reveal_strlit("json");
    reveal_strlit("bser");
    reveal_strlit("bser-v2");
    assert("json"@[0] == 'j');
    assert("bser"@[0] == 'b');
    assert("bser-v2"@.len() == 7);
}

/// An answer is shown in the encoding that is asked for, and else in JSON; the two binary
/// encodings are the two versions of the frame.
pub proof fn law_answers_are_shown(opts: Options, e: Encoding)
    ensures
        opts.output_encoding is None ==> framing_of(shown_in(opts)) == Framing::Json,
        opts.output_encoding == Some(e) ==> shown_in(opts) == e,
        framing_of(e) == Framing::Json <==> e == Encoding::Json,
        framing_of(e) == Framing::Bser(PduVersion::V1) <==> e == Encoding::Bser,
        framing_of(e) == Framing::Bser(PduVersion::V2) <==> e == Encoding::BserV2,
{
}

/// An answer makes the client fail if and only if one of its members is an error.
pub proof fn law_only_errors_fail(pairs: Seq<(Seq<char>, Datum)>, v: Datum)
    ensures
        status(Datum::Object(pairs)) == 1 <==> exists|k: int|
            0 <= k < pairs.len() && (#[trigger] pairs[k]).0 == "error"@,
        status(v) == 0 || status(v) == 1,
        !(v is Object) ==> status(v) == 0,
        is_refusal(Datum::Object(pairs)) <==> exists|k: int|
            0 <= k < pairs.len() && (#[trigger] pairs[k]).0 == "error"@,
        is_refusal(v) ==> v is Object,
{
    lemma_error_member(pairs);
}

/// A member is found if and only if there is one.
proof fn lemma_error_member(pairs: Seq<(Seq<char>, Datum)>)
    ensures
        is_refusal(Datum::Object(pairs)) <==> exists|k: int|
            0 <= k < pairs.len() && (#[trigger] pairs[k]).0 == "error"@,
    decreases pairs.len(),
{
    if pairs.len() > 0 {
        let front = pairs.drop_last();
        lemma_error_member(front);
        if is_refusal(Datum::Object(front)) {
            let k = choose|k: int| 0 <= k < front.len() && (#[trigger] front[k]).0 == "error"@;
            assert(pairs[k].0 == "error"@);
        } else if pairs.last().0 == "error"@ {
            assert(pairs[pairs.len() - 1].0 == "error"@);
        } else if exists|k: int| 0 <= k < pairs.len() && (#[trigger] pairs[k]).0 == "error"@ {
            let k = choose|k: int| 0 <= k < pairs.len() && (#[trigger] pairs[k]).0 == "error"@;
            assert(front[k].0 == "error"@);
        }
    }
}

/// A client talks to the socket that is named, and else to the usual one; so does a daemon
/// serve, which is started by the word for it. A daemon that a client starts gets the
/// word, and the socket where one is named.
pub proof fn law_sockets(opts: Options, args: Seq<Seq<char>>, name: Seq<char>, env: &Environment)
    ensures
        ({
            let usual = filed(env.system, env.state_path(), encode_utf8("sock"@));
            &&& opts.sockname is None ==> socket(opts, env) == usual
            &&& opts.sockname == Some(name) ==> socket(opts, env) == encode_utf8(name)
            &&& serving(args, env) is Some <==> args.len() > 0 && args[0] == "--foreground"@
            &&& serving(seq!["--foreground"@, "--sockname"@, name] + args, env) == Some(
                encode_utf8(name),
            )
            &&& serving(seq!["--foreground"@], env) == Some(usual)
            &&& serving(seq!["--foreground"@, name], env) == Some(usual)
            &&& args.len() > 1 && args[0] == "--foreground"@ && args[1] != "--sockname"@
                ==> serving(args, env) == Some(usual)
            &&& opts.sockname is None ==> daemon_args(opts) == seq!["--foreground"@]
            &&& opts.sockname == Some(name) ==> daemon_args(opts) == seq![
                "--foreground"@,
                "--sockname"@,
                name,
            ]
        }),
{
    let named = seq!["--foreground"@, "--sockname"@, name] + args;
    assert(named[0] == "--foreground"@ && named[1] == "--sockname"@ && named[2] == name);
}

/// An argument that parts from the long names of the options with a value early gives
/// none of them.
proof fn lemma_gives_none(arg: Seq<char>)
    requires
        ({
            ||| arg.len() == 0
            ||| arg[0] != '-'
            ||| arg.len() == 1
            ||| arg[1] != '-'
            ||| arg.len() == 2
            ||| arg[2] != 'o' && arg[2] != 's' && arg[2] != 'l'
        }),
    ensures
        given(arg, "--output-encoding"@) is Not,
        given(arg, "--server-encoding"@) is Not,
        given(arg, "--sockname"@) is Not,
        given(arg, "--statefile"@) is Not,
        given(arg, "--logfile"@) is Not,
        given(arg, "--log-level"@) is Not,
{
    reveal_strlit("--output-encoding");
    reveal_strlit("--server-encoding");
    reveal_strlit("--sockname");
    reveal_strlit("--statefile");
    reveal_strlit("--logfile");
    reveal_strlit("--log-level");
    let j: int = if arg.len() == 0 || arg[0] != '-' {
        0
    } else if arg.len() == 1 || arg[1] != '-' {
        1
    } else {
        2
    };
    lemma_parts("--output-encoding"@, arg, j);
    lemma_parts("--server-encoding"@, arg, j);
    lemma_parts("--sockname"@, arg, j);
    lemma_parts("--statefile"@, arg, j);
    lemma_parts("--logfile"@, arg, j);
    lemma_parts("--log-level"@, arg, j);
}

/// An argument that parts from a name does not give it.
proof fn lemma_parts(name: Seq<char>, arg: Seq<char>, j: int)
    requires
        0 <= j < name.len(),
        arg.len() <= j || arg[j] != name[j],
    ensures
        given(arg, name) is Not,
{
    if (name + "="@).is_prefix_of(arg) {
        let front = name + "="@;
        assert(front[j] == name[j]);
        assert(arg.subrange(0, front.len() as int)[j] == arg[j]);
    }
}

/// What is read behind one argument, if it is no command and takes no value.
proof fn lemma_one_option(arg: Seq<char>, back: Seq<Seq<char>>, opts: Options)
    ensures
        options_from(seq![arg] + back, 1, opts) == options_from(back, 0, opts),
{
    lemma_options_shift(seq![arg], back, 0, opts);
}

/// The options without a value, before the command: two say that nothing is to be printed
/// prettily and that the client stays, one that no daemon is to be started, and one that
/// the server is spoken to in JSON. The others are passed over. Each leaves what the
/// others say.
pub proof fn law_options_without_a_value(arg: Seq<char>, back: Seq<Seq<char>>, opts: Options)
    ensures
        ({
            let read = options_from(seq![arg] + back, 0, opts);
            &&& arg == "--no-pretty"@ ==> read == options_from(
                back,
                0,
                Options { no_pretty: true, ..opts },
            )
            &&& arg == "-p"@ || arg == "--persistent"@ ==> read == options_from(
                back,
                0,
                Options { persistent: true, ..opts },
            )
            &&& arg == "--no-spawn"@ ==> read == options_from(
                back,
                0,
                Options { no_spawn: true, ..opts },
            )
            &&& arg == "-j"@ || arg == "--json-command"@ ==> read == options_from(
                back,
                0,
                Options { server_encoding: Some(Encoding::Json), ..opts },
            )
            &&& arg == "--no-local"@ || arg == "-f"@ || arg == "--foreground"@ || arg == "-n"@
                || arg == "--no-save-state"@ || arg == "--inetd"@ ==> read == options_from(
                back,
                0,
                opts,
            )
        }),
{
    lemma_option_names();
    let argv = seq![arg] + back;
    assert(argv[0] == arg);
    if arg == "--no-pretty"@ || arg == "-p"@ || arg == "--persistent"@ || arg == "--no-spawn"@
        || arg == "-j"@ || arg == "--json-command"@ || arg == "--no-local"@ || arg == "-f"@ || arg
        == "--foreground"@ || arg == "-n"@ || arg == "--no-save-state"@ || arg == "--inetd"@ {
        lemma_gives_none(arg);
        lemma_one_option(arg, back, opts);
        lemma_one_option(arg, back, Options { no_pretty: true, ..opts });
        lemma_one_option(arg, back, Options { persistent: true, ..opts });
        lemma_one_option(arg, back, Options { no_spawn: true, ..opts });
        lemma_one_option(arg, back, Options { server_encoding: Some(Encoding::Json), ..opts });
    }
}

/// The names of the options without a value are told apart.
proof fn lemma_option_names()
    ensures
        "-U"@.len() == 2 && "-U"@[0] == '-' && "-U"@[1] == 'U',
        "-p"@.len() == 2 && "-p"@[0] == '-' && "-p"@[1] == 'p',
        "-j"@.len() == 2 && "-j"@[0] == '-' && "-j"@[1] == 'j',
        "-f"@.len() == 2 && "-f"@[0] == '-' && "-f"@[1] == 'f',
        "-n"@.len() == 2 && "-n"@[0] == '-' && "-n"@[1] == 'n',
        "-o"@.len() == 2 && "-o"@[0] == '-' && "-o"@[1] == 'o',
        "--no-pretty"@.len() == 11 && "--no-pretty"@[2] == 'n',
        "--persistent"@.len() == 12 && "--persistent"@[2] == 'p',
        "--no-spawn"@.len() == 10 && "--no-spawn"@[2] == 'n' && "--no-spawn"@[5] == 's',
        "--no-local"@.len() == 10 && "--no-local"@[2] == 'n' && "--no-local"@[5] == 'l',
        "--json-command"@.len() == 14 && "--json-command"@[2] == 'j',
        "--foreground"@.len() == 12 && "--foreground"@[2] == 'f',
        "--no-save-state"@.len() == 15 && "--no-save-state"@[2] == 'n',
        "--inetd"@.len() == 7 && "--inetd"@[2] == 'i',
{
    reveal_strlit("-U");
    reveal_strlit("-p");
    reveal_strlit("-j");
    reveal_strlit("-f");
    reveal_strlit("-n");
    reveal_strlit("-o");
    reveal_strlit("--no-pretty");
    reveal_strlit("--persistent");
    reveal_strlit("--no-spawn");
    reveal_strlit("--no-local");
    reveal_strlit("--json-command");
    reveal_strlit("--foreground");
    reveal_strlit("--no-save-state");
    reveal_strlit("--inetd");
}

/// The options with a value, before the command: the encoding that answers are shown in,
/// the one that the server is spoken to in, and the socket. What files the daemon keeps,
/// and how much it logs, is passed over. Each leaves what the others say.
pub proof fn law_options_with_a_value(x: Seq<char>, back: Seq<Seq<char>>, opts: Options)
    ensures
        options_from(seq!["--output-encoding"@, x] + back, 0, opts) == options_from(
            back,
            0,
            Options { output_encoding: Encoding::named(x), ..opts },
        ),
        options_from(seq!["--server-encoding"@, x] + back, 0, opts) == options_from(
            back,
            0,
            Options { server_encoding: Encoding::named(x), ..opts },
        ),
        options_from(seq!["--sockname"@, x] + back, 0, opts) == options_from(
            back,
            0,
            Options { sockname: Some(x), ..opts },
        ),
        options_from(seq!["-U"@, x] + back, 0, opts) == options_from(
            back,
            0,
            Options { sockname: Some(x), ..opts },
        ),
        options_from(seq!["-o"@, x] + back, 0, opts) == options_from(back, 0, opts),
        options_from(seq!["--statefile"@, x] + back, 0, opts) == options_from(back, 0, opts),
        options_from(seq!["--logfile"@, x] + back, 0, opts) == options_from(back, 0, opts),
        options_from(seq!["--log-level"@, x] + back, 0, opts) == options_from(back, 0, opts),
{
    lemma_long_names();
    lemma_option_names();
    lemma_gives_none("-o"@);
    lemma_flag_u();
    lemma_named_option("--output-encoding"@, x, back, Valued::OutputEncoding, opts);
    lemma_named_option("--server-encoding"@, x, back, Valued::ServerEncoding, opts);
    lemma_named_option("--sockname"@, x, back, Valued::Sockname, opts);
    lemma_named_option("--statefile"@, x, back, Valued::Passed, opts);
    lemma_named_option("--logfile"@, x, back, Valued::Passed, opts);
    lemma_named_option("--log-level"@, x, back, Valued::Passed, opts);
    let u = seq!["-U"@, x];
    assert(u[0] == "-U"@ && u[1] == x);
    lemma_gives(u, back, Valued::Sockname, x, opts);
    let o = seq!["-o"@, x];
    assert(o[0] == "-o"@ && o[1] == x);
    lemma_gives(o, back, Valued::Passed, x, opts);
}

/// The long names of the options with a value are told apart.
proof fn lemma_long_names()
    ensures
        "--output-encoding"@.len() == 17 && "--output-encoding"@[2] == 'o',
        "--server-encoding"@.len() == 17 && "--server-encoding"@[2] == 's',
        "--sockname"@.len() == 10,
        "--statefile"@.len() == 11 && "--statefile"@[2] == 's',
        "--logfile"@.len() == 9,
        "--log-level"@.len() == 11 && "--log-level"@[2] == 'l',
{
    reveal_strlit("--output-encoding");
    reveal_strlit("--server-encoding");
    reveal_strlit("--sockname");
    reveal_strlit("--statefile");
    reveal_strlit("--logfile");
    reveal_strlit("--log-level");
}

/// An option under its long name, with the value as the next argument.
proof fn lemma_named_option(
    name: Seq<char>,
    x: Seq<char>,
    back: Seq<Seq<char>>,
    what: Valued,
    opts: Options,
)
    requires
        valued(name) == Some(what),
    ensures
        options_from(seq![name, x] + back, 0, opts) == options_from(
            back,
            0,
            with_value(opts, what, Some(x)),
        ),
{
    lemma_flag_forms(name, x);
    let args = seq![name, x];
    assert(args[0] == name && args[1] == x);
    lemma_gives(args, back, what, x, opts);
}

/// An option whose value is missing at the end of the command line leaves an encoding as it
/// was, and names no socket; there is no command then.
pub proof fn law_missing_values(opts: Options)
    ensures
        options_from(seq!["--output-encoding"@], 0, opts) == (opts, Seq::<Seq<char>>::empty()),
        options_from(seq!["--server-encoding"@], 0, opts) == (opts, Seq::<Seq<char>>::empty()),
        options_from(seq!["--sockname"@], 0, opts) == (
            Options { sockname: None, ..opts },
            Seq::<Seq<char>>::empty(),
        ),
        options_from(seq!["-U"@], 0, opts) == (
            Options { sockname: None, ..opts },
            Seq::<Seq<char>>::empty(),
        ),
        options_from(Seq::empty(), 0, opts) == (opts, Seq::<Seq<char>>::empty()),
{
    lemma_long_names();
    lemma_flag_u();
    lemma_flag_forms("--output-encoding"@, Seq::empty());
    lemma_flag_forms("--server-encoding"@, Seq::empty());
    lemma_flag_forms("--sockname"@, Seq::empty());
}

/// The first argument that is no option is the command, and nothing behind it is read as
/// an option. What does not start with a dash is none, nor what starts with one and is
/// not known.
pub proof fn law_where_options_end(arg: Seq<char>, back: Seq<Seq<char>>, opts: Options)
    requires
        ({
            ||| arg.len() == 0
            ||| arg[0] != '-'
            ||| arg.len() == 1
            ||| arg.len() == 2 && arg[1] != 'U' && arg[1] != 'p' && arg[1] != 'j' && arg[1] != 'f'
                && arg[1] != 'n' && arg[1] != 'o'
            ||| arg.len() > 2 && arg[1] != '-'
            ||| arg.len() > 2 && arg[2] != 'o' && arg[2] != 's' && arg[2] != 'l' && arg[2] != 'n'
                && arg[2] != 'p' && arg[2] != 'j' && arg[2] != 'f' && arg[2] != 'i'
        }),
    ensures
        options_from(seq![arg] + back, 0, opts) == (opts, seq![arg] + back),
{
    lemma_option_names();
    reveal_strlit("--no-pretty");
    reveal_strlit("--persistent");
    reveal_strlit("--no-spawn");
    reveal_strlit("--no-local");
    reveal_strlit("--json-command");
    reveal_strlit("--foreground");
    reveal_strlit("--no-save-state");
    reveal_strlit("--inetd");
    lemma_gives_none(arg);
    let argv = seq![arg] + back;
    assert(argv[0] == arg);
    assert(argv.skip(0) =~= argv);
}

/// An argument that is none of the options, and none of those with a value behind an equals
/// sign, is the command.
pub proof fn law_other_arguments_are_the_command(
    arg: Seq<char>,
    back: Seq<Seq<char>>,
    opts: Options,
)
    requires
        arg != "--output-encoding"@ && arg != "--server-encoding"@ && arg != "--sockname"@,
        arg != "--statefile"@ && arg != "--logfile"@ && arg != "--log-level"@,
        arg != "-U"@ && arg != "-p"@ && arg != "-j"@ && arg != "-f"@ && arg != "-n"@ && arg
            != "-o"@,
        arg != "--no-pretty"@ && arg != "--persistent"@ && arg != "--no-spawn"@,
        arg != "--no-local"@ && arg != "--json-command"@ && arg != "--foreground"@,
        arg != "--no-save-state"@ && arg != "--inetd"@,
        forall|x: Seq<char>| arg != #[trigger] ("--output-encoding"@ + "="@ + x),
        forall|x: Seq<char>| arg != #[trigger] ("--server-encoding"@ + "="@ + x),
        forall|x: Seq<char>| arg != #[trigger] ("--sockname"@ + "="@ + x),
        forall|x: Seq<char>| arg != #[trigger] ("--statefile"@ + "="@ + x),
        forall|x: Seq<char>| arg != #[trigger] ("--logfile"@ + "="@ + x),
        forall|x: Seq<char>| arg != #[trigger] ("--log-level"@ + "="@ + x),
    ensures
        options_from(seq![arg] + back, 0, opts) == (opts, seq![arg] + back),
{
    lemma_not_behind(arg, "--output-encoding"@);
    lemma_not_behind(arg, "--server-encoding"@);
    lemma_not_behind(arg, "--sockname"@);
    lemma_not_behind(arg, "--statefile"@);
    lemma_not_behind(arg, "--logfile"@);
    lemma_not_behind(arg, "--log-level"@);
    let argv = seq![arg] + back;
    assert(argv[0] == arg);
    assert(argv.skip(0) =~= argv);
}

/// An argument that is not a name, nor one with a value behind an equals sign, does not
/// give it.
proof fn lemma_not_behind(arg: Seq<char>, name: Seq<char>)
    requires
        arg != name,
        forall|x: Seq<char>| arg != #[trigger] (name + "="@ + x),
    ensures
        given(arg, name) is Not,
{
    if (name + "="@).is_prefix_of(arg) {
        reveal_strlit("=");
        let front = name + "="@;
        let x = arg.skip(front.len() as int);
        assert forall|j: int| 0 <= j < front.len() implies front[j] == arg[j] by {
            assert(arg.subrange(0, front.len() as int)[j] == arg[j]);
        }
        assert(arg =~= name + "="@ + x);
    }
}

/// What is said where no daemon is reached, and of a query object that is no JSON.
pub proof fn law_texts_of_errors(e: JsonError)
    ensures
        ClientError::BadQuery(e).text() == "invalid query JSON: "@ + e.text(),
        Contact::NotRunning.text() == Some("daemon is not running and --no-spawn was given"@),
        Contact::TimedOut.text() == Some("daemon did not start in time"@),
        Contact::Start.text() is None,
        Contact::Retry.text() is None,
{
}

/// Before the command line is read, no option is set.
pub proof fn law_options_at_first()
    ensures
        no_options().output_encoding is None,
        no_options().server_encoding is None,
        no_options().sockname is None,
        !no_options().no_spawn,
        !no_options().no_pretty,
        !no_options().persistent,
{
}

/// The options stand for what they say, and a plan for the request or for what is wrong.
pub proof fn law_what_options_and_plans_stand_for(
    opts: CliOptions,
    v: Value,
    e: ClientError,
)
    ensures
        opts@.output_encoding == opts.output_encoding,
        opts@.server_encoding == opts.server_encoding,
        opts.sockname is Some ==> opts@.sockname == Some(opts.sockname->0@),
        opts.sockname is None ==> opts@.sockname is None,
        opts@.no_spawn == opts.no_spawn,
        opts@.no_pretty == opts.no_pretty,
        opts@.persistent == opts.persistent,
        plan_outcome(Ok(v)) == Ok::<Datum, ClientError>(v@),
        plan_outcome(Err(e)) == Err::<Datum, ClientError>(e),
{
}

/// A daemon is started unless that is forbidden, and then tried a hundred times, and no
/// more.
pub proof fn law_how_a_daemon_is_reached(opts: Options, n: u32)
    ensures
        opts.no_spawn ==> after_failing(opts, None) == Contact::NotRunning,
        !opts.no_spawn ==> after_failing(opts, None) == Contact::Start,
        n < 100 ==> after_failing(opts, Some(n)) == Contact::Retry,
        n >= 100 ==> after_failing(opts, Some(n)) == Contact::TimedOut,
        START_PAUSE == 50,
{
}

} // verus!
