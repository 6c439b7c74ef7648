//! The file `.watchmanconfig` at the root of a project, which names directories
//! that are neither crawled nor watched nor reported.

use vstd::prelude::*;
use vstd::utf8::*;

use crate::json;
use crate::json::{text_value, JsonError};
use crate::numbers::Numbers;
use crate::paths::{
    components, file_name, is_name, join, joined, last_name, law_joined_name, path_rows,
    split_components, starts_with, within,
};
use crate::text::{
    bytes_eq, chars_of, copy_strings, law_slashes_are_trimmed, lemma_texts_push, row_of, str_eq,
    string_of, texts, trim_slashes, without_slashes,
};
use crate::value::{data, lemma_data_take, lemma_members_take, members, Datum, Value};

verus! {

/// What `.watchmanconfig` says. Keys that are not known are passed over, and
/// where there is no file, or none that can be read, the defaults hold.
#[derive(Debug)]
pub struct Config {
    /// Directories, relative to the root, that are ignored altogether.
    pub ignore_dirs: Vec<String>,
    /// The names of directories of version control that are ignored. `None`
    /// stands for the usual ones, and an empty list for none at all.
    pub ignore_vcs: Option<Vec<String>>,
}

/// What a `Config` stands for.
#[verifier::ext_equal]
pub struct Settings {
    pub ignore_dirs: Seq<Seq<char>>,
    pub ignore_vcs: Option<Seq<Seq<char>>>,
}

impl View for Config {
    type V = Settings;

    open spec fn view(&self) -> Settings {
        Settings {
            ignore_dirs: texts(self.ignore_dirs@),
            ignore_vcs: match self.ignore_vcs {
                Some(v) => Some(texts(v@)),
                None => None,
            },
        }
    }
}

/// What holds where nothing is set.
pub open spec fn defaults() -> Settings {
    Settings { ignore_dirs: Seq::empty(), ignore_vcs: None }
}

/// The strings among some values.
pub open spec fn strings(items: Seq<Datum>) -> Seq<Seq<char>>
    decreases items.len(),
{
    if items.len() == 0 {
        Seq::empty()
    } else {
        match items.last().text() {
            Some(s) => strings(items.drop_last()).push(s),
            None => strings(items.drop_last()),
        }
    }
}

/// The strings among some values, without slashes at either end, apart from
/// those of which nothing is left.
pub open spec fn dir_names(items: Seq<Datum>) -> Seq<Seq<char>>
    decreases items.len(),
{
    if items.len() == 0 {
        Seq::empty()
    } else {
        match items.last().text() {
            Some(s) => if without_slashes(s).len() > 0 {
                dir_names(items.drop_last()).push(without_slashes(s))
            } else {
                dir_names(items.drop_last())
            },
            None => dir_names(items.drop_last()),
        }
    }
}

/// The last array among the members with a given key.
pub open spec fn last_array(pairs: Seq<(Seq<char>, Datum)>, key: Seq<char>) -> Option<Seq<Datum>>
    decreases pairs.len(),
{
    if pairs.len() == 0 {
        None
    } else if pairs.last().0 == key && pairs.last().1.elements() is Some {
        pairs.last().1.elements()
    } else {
        last_array(pairs.drop_last(), key)
    }
}

/// What the members of an object set.
pub open spec fn members_settings(pairs: Seq<(Seq<char>, Datum)>) -> Settings {
    Settings {
        ignore_dirs: match last_array(pairs, "ignore_dirs"@) {
            Some(items) => dir_names(items),
            None => Seq::empty(),
        },
        ignore_vcs: match last_array(pairs, "ignore_vcs"@) {
            Some(items) => Some(strings(items)),
            None => None,
        },
    }
}

/// What a value sets.
pub open spec fn settings(v: Datum) -> Settings {
    match v {
        Datum::Object(pairs) => members_settings(pairs),
        _ => defaults(),
    }
}

/// What the text of a file sets, if there is a file; it is an error if it is not
/// known what a number in it reads as.
pub open spec fn loaded(text: Option<Seq<char>>, readings: Map<Seq<char>, Option<u64>>) -> Result<
    Settings,
    JsonError,
> {
    match text {
        None => Ok(defaults()),
        Some(t) => match text_value(t, readings) {
            Ok(v) => Ok(settings(v)),
            Err(JsonError::Unread { start, end }) => Err(JsonError::Unread { start, end }),
            Err(_) => Ok(defaults()),
        },
    }
}

/// The strings among some values.
pub(crate) fn collect_strings(items: &[Value]) -> (r: Vec<String>)
    ensures
        texts(r@) == strings(data(items@)),
{
    let mut out: Vec<String> = Vec::new();
    let mut i: usize = 0;
    assert(items@.take(0) =~= Seq::<Value>::empty());
    assert(texts(out@) =~= strings(data(items@.take(0))));
    while i < items.len()
        invariant
            i <= items@.len(),
            texts(out@) == strings(data(items@.take(i as int))),
        decreases items@.len() - i,
    {
        proof {
            lemma_data_take(items@, i as int);
            assert(data(items@.take(i + 1)).drop_last() =~= data(items@.take(i as int)));
        }
        match items[i].as_str() {
            Some(s) => {
                let s = s.to_string();
                proof {
                    lemma_texts_push(out@, s);
                }
                out.push(s);
            },
            None => {},
        }
        i += 1;
    }
    assert(items@.take(i as int) =~= items@);
    out
}

/// The names of directories among some values.
fn collect_dirs(items: &[Value]) -> (r: Vec<String>)
    ensures
        texts(r@) == dir_names(data(items@)),
{
    let mut out: Vec<String> = Vec::new();
    let mut i: usize = 0;
    assert(items@.take(0) =~= Seq::<Value>::empty());
    assert(texts(out@) =~= dir_names(data(items@.take(0))));
    while i < items.len()
        invariant
            i <= items@.len(),
            texts(out@) == dir_names(data(items@.take(i as int))),
        decreases items@.len() - i,
    {
        proof {
            lemma_data_take(items@, i as int);
            assert(data(items@.take(i + 1)).drop_last() =~= data(items@.take(i as int)));
        }
        match items[i].as_str() {
            Some(s) => {
                let name = trim_slashes(chars_of(s).as_slice());
                if name.len() > 0 {
                    let name = string_of(name.as_slice());
                    proof {
                        lemma_texts_push(out@, name);
                    }
                    out.push(name);
                }
            },
            None => {},
        }
        i += 1;
    }
    assert(items@.take(i as int) =~= items@);
    out
}

impl Clone for Config {
    fn clone(&self) -> (r: Self)
        ensures
            r@ == self@,
    {
        Config {
            ignore_dirs: copy_strings(self.ignore_dirs.as_slice()),
            ignore_vcs: match &self.ignore_vcs {
                Some(v) => Some(copy_strings(v.as_slice())),
                None => None,
            },
        }
    }
}

impl Default for Config {
    fn default() -> (r: Self)
        ensures
            r@ == defaults(),
    {
        let r = Config { ignore_dirs: Vec::new(), ignore_vcs: None };
        assert(r@ =~= defaults());
        r
    }
}

impl Config {
    /// Reads the text of a configuration file; without one, or where it is no
    /// value, the defaults hold.
    pub fn load(text: Option<&str>, numbers: &Numbers) -> (r: Result<Config, JsonError>)
        ensures
            match loaded(
                match text {
                    Some(t) => Some(t@),
                    None => None,
                },
                numbers.readings(),
            ) {
                Ok(s) => r is Ok && r->Ok_0@ == s,
                Err(e) => r == Err::<Config, JsonError>(e),
            },
    {
        match text {
            None => Ok(Config::default()),
            Some(t) => match json::try_decode(t, numbers) {
                Ok(v) => Ok(Config::from_value(&v)),
                Err(JsonError::Unread { start, end }) => Err(JsonError::Unread { start, end }),
                Err(_) => Ok(Config::default()),
            },
        }
    }

    /// What a value sets: of several arrays under one key, the last one counts.
    pub fn from_value(value: &Value) -> (r: Config)
        ensures
            r@ == settings(value@),
    {
        let mut cfg = Config::default();
        match value {
            Value::Object(pairs) => {
                let mut i: usize = 0;
                assert(pairs@.take(0) =~= Seq::<(String, Value)>::empty());
                assert(cfg@ =~= members_settings(members(pairs@.take(0))));
                while i < pairs.len()
                    invariant
                        i <= pairs@.len(),
                        cfg@ == members_settings(members(pairs@.take(i as int))),
                    decreases pairs@.len() - i,
                {
                    let ghost before = members(pairs@.take(i as int));
                    let ghost after = members(pairs@.take(i + 1));
                    proof {
                        lemma_members_take(pairs@, i as int);
                        assert(after.drop_last() =~= before);
                        reveal_strlit("ignore_dirs");
                        reveal_strlit("ignore_vcs");
                        assert("ignore_dirs"@.len() != "ignore_vcs"@.len());
                    }
                    let key = pairs[i].0.as_str();
                    if str_eq(key, "ignore_dirs") {
                        match pairs[i].1.as_array() {
                            Some(items) => {
                                cfg.ignore_dirs = collect_dirs(items);
                            },
                            None => {},
                        }
                    } else if str_eq(key, "ignore_vcs") {
                        match pairs[i].1.as_array() {
                            Some(items) => {
                                cfg.ignore_vcs = Some(collect_strings(items));
                            },
                            None => {},
                        }
                    }
                    assert(cfg@ =~= members_settings(after));
                    i += 1;
                }
                assert(pairs@.take(i as int) =~= pairs@);
            },
            _ => {},
        }
        cfg
    }
}

/// The directories of version control that are ignored unless others are named.
pub open spec fn usual_vcs() -> Seq<Seq<char>> {
    seq![".git"@, ".hg"@, ".svn"@]
}

/// The directories of version control that are ignored unless others are named.
fn usual_vcs_names() -> (r: Vec<String>)
    ensures
        texts(r@) == usual_vcs(),
{
    let mut out: Vec<String> = Vec::new();
    out.push(".git".to_string());
    out.push(".hg".to_string());
    out.push(".svn".to_string());
    assert(texts(out@) =~= usual_vcs());
    out
}

/// Whether a path is ignored: its last component is one of the names, or it lies
/// in one of the directories.
pub open spec fn ignored(dirs: Seq<Seq<u8>>, names: Seq<Seq<char>>, path: Seq<u8>) -> bool {
    ||| exists|k: int|
        0 <= k < names.len() && last_name(path) == Some(encode_utf8(#[trigger] names[k]))
    ||| exists|k: int| 0 <= k < dirs.len() && within(path, #[trigger] dirs[k])
}

/// Whether some bytes are one of some names.
pub open spec fn is_named(names: Seq<Seq<char>>, c: Seq<u8>) -> bool {
    exists|j: int| 0 <= j < names.len() && c == encode_utf8(#[trigger] names[j])
}

/// Whether one of the components of a path behind those of a root is one of some
/// names.
pub open spec fn named_below(root: Seq<u8>, names: Seq<Seq<char>>, path: Seq<u8>) -> bool {
    exists|k: int|
        components(root).len() <= k < components(path).len() && is_named(
            names,
            #[trigger] components(path)[k],
        )
}

/// Whether a change of a path under a root is passed over: the path is ignored, or
/// lies below a directory with one of the ignored names.
pub open spec fn passed_over(
    root: Seq<u8>,
    dirs: Seq<Seq<u8>>,
    names: Seq<Seq<char>>,
    path: Seq<u8>,
) -> bool {
    ignored(dirs, names, path) || (within(path, root) && named_below(root, names, path))
}

/// The directories that settings ignore under a root.
pub open spec fn ignored_dirs(root: Seq<u8>, set: Settings) -> Seq<Seq<u8>> {
    set.ignore_dirs.map_values(|d: Seq<char>| joined(root, encode_utf8(d)))
}

/// The names that settings ignore: those that they give, or else the usual ones.
pub open spec fn ignored_names(set: Settings) -> Seq<Seq<char>> {
    match set.ignore_vcs {
        Some(v) => v,
        None => usual_vcs(),
    }
}

/// What is ignored under one root.
#[derive(Debug)]
pub struct Ignore {
    dirs: Vec<Vec<u8>>,
    vcs_names: Vec<String>,
}

impl Ignore {
    /// The directories that are ignored.
    pub closed spec fn dirs(&self) -> Seq<Seq<u8>> {
        path_rows(self.dirs@)
    }

    /// The names that are ignored.
    pub closed spec fn names(&self) -> Seq<Seq<char>> {
        texts(self.vcs_names@)
    }

    /// What a configuration says is ignored under a root.
    pub fn new(root: &[u8], cfg: &Config) -> (r: Ignore)
        ensures
            r.dirs() == ignored_dirs(root@, cfg@),
            r.names() == ignored_names(cfg@),
    {
        let mut dirs: Vec<Vec<u8>> = Vec::new();
        let mut i: usize = 0;
        while i < cfg.ignore_dirs.len()
            invariant
                i <= cfg.ignore_dirs@.len(),
                dirs@.len() == i,
                forall|k: int|
                    0 <= k < i ==> (#[trigger] dirs@[k])@ == joined(
                        root@,
                        encode_utf8(cfg.ignore_dirs@[k]@),
                    ),
            decreases cfg.ignore_dirs@.len() - i,
        {
            dirs.push(join(root, cfg.ignore_dirs[i].as_str().as_bytes()));
            i += 1;
        }
        assert(path_rows(dirs@) =~= ignored_dirs(root@, cfg@));
        let vcs_names = match &cfg.ignore_vcs {
            Some(v) => copy_strings(v.as_slice()),
            None => usual_vcs_names(),
        };
        Ignore { dirs, vcs_names }
    }

    /// Whether a path is ignored.
    pub fn is_ignored(&self, path: &[u8]) -> (r: bool)
        ensures
            r == ignored(self.dirs(), self.names(), path@),
    {
        let mut i: usize = 0;
        match file_name(path) {
            Some(name) => {
                while i < self.vcs_names.len()
                    invariant
                        i <= self.vcs_names@.len(),
                        last_name(path@) == Some(name@),
                        forall|k: int|
                            0 <= k < i ==> last_name(path@) != Some(
                                encode_utf8(#[trigger] self.names()[k]),
                            ),
                    decreases self.vcs_names@.len() - i,
                {
                    assert(self.names()[i as int] == self.vcs_names@[i as int]@);
                    if bytes_eq(self.vcs_names[i].as_str().as_bytes(), name) {
                        return true;
                    }
                    i += 1;
                }
            },
            None => {},
        }
        let mut j: usize = 0;
        while j < self.dirs.len()
            invariant
                j <= self.dirs@.len(),
                forall|k: int|
                    0 <= k < self.names().len() ==> last_name(path@) != Some(
                        encode_utf8(#[trigger] self.names()[k]),
                    ),
                forall|k: int| 0 <= k < j ==> !within(path@, #[trigger] self.dirs()[k]),
            decreases self.dirs@.len() - j,
        {
            assert(self.dirs()[j as int] == self.dirs@[j as int]@);
            if starts_with(path, self.dirs[j].as_slice()) {
                return true;
            }
            j += 1;
        }
        false
    }
}

impl Ignore {
    /// Whether some bytes are one of the ignored names.
    fn names_it(&self, c: &[u8]) -> (r: bool)
        ensures
            r == is_named(self.names(), c@),
    {
        let mut j: usize = 0;
        while j < self.vcs_names.len()
            invariant
                j <= self.vcs_names@.len(),
                forall|m: int| 0 <= m < j ==> c@ != encode_utf8(#[trigger] self.names()[m]),
            decreases self.vcs_names@.len() - j,
        {
            assert(self.names()[j as int] == self.vcs_names@[j as int]@);
            if bytes_eq(c, self.vcs_names[j].as_str().as_bytes()) {
                return true;
            }
            j += 1;
        }
        false
    }

    /// Whether a change of a path under a root is passed over.
    pub fn passes_over(&self, root: &[u8], path: &[u8]) -> (r: bool)
        ensures
            r == passed_over(root@, self.dirs(), self.names(), path@),
    {
        if self.is_ignored(path) {
            return true;
        }
        if !starts_with(path, root) {
            return false;
        }
        let all = split_components(path);
        let above = split_components(root);
        assert(path_rows(all@).len() == all@.len());
        assert(path_rows(above@).len() == above@.len());
        let mut k: usize = above.len();
        while k < all.len()
            invariant
                above@.len() <= k,
                components(root@).len() == above@.len(),
                path_rows(all@) == components(path@),
                components(path@).len() == all@.len(),
                forall|m: int|
                    above@.len() <= m < k && m < all@.len() ==> !is_named(
                        self.names(),
                        #[trigger] components(path@)[m],
                    ),
                !ignored(self.dirs(), self.names(), path@),
                within(path@, root@),
            decreases all@.len() - k,
        {
            assert(components(path@)[k as int] == all@[k as int]@);
            if self.names_it(all[k].as_slice()) {
                return true;
            }
            k += 1;
        }
        false
    }
}

impl Clone for Ignore {
    fn clone(&self) -> (r: Self)
        ensures
            r.dirs() == self.dirs(),
            r.names() == self.names(),
    {
        let mut dirs: Vec<Vec<u8>> = Vec::new();
        let mut i: usize = 0;
        while i < self.dirs.len()
            invariant
                i <= self.dirs@.len(),
                dirs@.len() == i,
                forall|k: int| 0 <= k < i ==> (#[trigger] dirs@[k])@ == self.dirs@[k]@,
            decreases self.dirs@.len() - i,
        {
            dirs.push(vstd::slice::slice_to_vec(self.dirs[i].as_slice()));
            i += 1;
        }
        let r = Ignore { dirs, vcs_names: copy_strings(self.vcs_names.as_slice()) };
        assert(r.dirs() =~= self.dirs());
        r
    }
}

/// The configuration file of a root.
pub open spec fn config_file(root: Seq<u8>) -> Seq<u8> {
    joined(root, encode_utf8(".watchmanconfig"@))
}

/// The configuration file of a root.
pub fn config_path(root: &[u8]) -> (r: Vec<u8>)
    ensures
        r@ == config_file(root@),
{
    join(root, ".watchmanconfig".as_bytes())
}

/// What lies in a path that an ignored directory holds is ignored too.
pub proof fn law_inside_ignored_dir(
    dirs: Seq<Seq<u8>>,
    names: Seq<Seq<char>>,
    outer: Seq<u8>,
    inner: Seq<u8>,
)
    requires
        exists|k: int| 0 <= k < dirs.len() && within(outer, #[trigger] dirs[k]),
        within(inner, outer),
    ensures
        ignored(dirs, names, inner),
{
    let k = choose|k: int| 0 <= k < dirs.len() && within(outer, #[trigger] dirs[k]);
    let a = components(dirs[k]);
    let b = components(outer);
    let c = components(inner);
    assert(a =~= c.take(a.len() as int)) by {
        assert(b =~= c.take(b.len() as int));
        assert(a =~= b.take(a.len() as int));
    }
    assert(within(inner, dirs[k]));
}

/// Where no directory is named and an empty list of names is given, nothing is
/// ignored.
pub proof fn law_nothing_named_nothing_ignored(path: Seq<u8>)
    ensures
        !ignored(Seq::empty(), Seq::empty(), path),
{
}

/// A member with a key that is not known changes nothing, whatever it holds.
pub proof fn law_unknown_keys_are_passed_over(
    pairs: Seq<(Seq<char>, Datum)>,
    key: Seq<char>,
    v: Datum,
)
    requires
        key != "ignore_dirs"@,
        key != "ignore_vcs"@,
    ensures
        settings(Datum::Object(pairs.push((key, v)))) == settings(Datum::Object(pairs)),
{
    assert(pairs.push((key, v)).drop_last() =~= pairs);
}

/// A text that is no value, whatever is wrong with it, yields the defaults, and no
/// error; only what its numbers read as has to be known.
pub proof fn law_unreadable_texts_yield_defaults(
    text: Seq<char>,
    readings: Map<Seq<char>, Option<u64>>,
)
    requires
        text_value(text, readings) is Err,
        !(text_value(text, readings)->Err_0 is Unread),
    ensures
        loaded(Some(text), readings) == Ok::<Settings, JsonError>(defaults()),
{
}

/// The strings of a list are taken over one by one, in their order; what is no string
/// is passed over.
pub proof fn law_strings_of_a_list(items: Seq<Datum>, v: Datum, s: Seq<char>)
    ensures
        strings(Seq::empty()) == Seq::<Seq<char>>::empty(),
        strings(items.push(Datum::Str(s))) == strings(items).push(s),
        !(v is Str) ==> strings(items.push(v)) == strings(items),
{
    assert(items.push(v).drop_last() =~= items);
    assert(items.push(Datum::Str(s)).drop_last() =~= items);
}

/// The directories of a list are its strings without slashes at either end, in their
/// order; one of which nothing is left is passed over, and so is what is no string.
pub proof fn law_directories_of_a_list(items: Seq<Datum>, v: Datum, a: nat, s: Seq<char>, b: nat)
    requires
        s.len() > 0 ==> s[0] != '/' && s.last() != '/',
    ensures
        ({
            let around = Datum::Str(row_of('/', a) + s + row_of('/', b));
            &&& dir_names(Seq::empty()) == Seq::<Seq<char>>::empty()
            &&& s.len() > 0 ==> dir_names(items.push(around)) == dir_names(items).push(s)
            &&& s.len() == 0 ==> dir_names(items.push(around)) == dir_names(items)
            &&& !(v is Str) ==> dir_names(items.push(v)) == dir_names(items)
        }),
{
    let around = Datum::Str(row_of('/', a) + s + row_of('/', b));
    law_slashes_are_trimmed(a, s, b);
    assert(items.push(v).drop_last() =~= items);
    assert(items.push(around).drop_last() =~= items);
}

/// An array under a known key sets what the key is for and leaves the rest; it takes the
/// place of an earlier one. Anything else under the key changes nothing, and neither does
/// any other key, nor anything that is no object.
pub proof fn law_known_keys_are_heeded(
    pairs: Seq<(Seq<char>, Datum)>,
    items: Seq<Datum>,
    v: Datum,
    key: Seq<char>,
    any: Datum,
)
    requires
        !(v is Array),
        key != "ignore_dirs"@,
        key != "ignore_vcs"@,
    ensures
        settings(Datum::Object(pairs.push((key, any)))) == settings(Datum::Object(pairs)),
        ({
            let before = settings(Datum::Object(pairs));
            let dirs = settings(Datum::Object(pairs.push(("ignore_dirs"@, Datum::Array(items)))));
            let names = settings(Datum::Object(pairs.push(("ignore_vcs"@, Datum::Array(items)))));
            &&& dirs.ignore_dirs == dir_names(items)
            &&& dirs.ignore_vcs == before.ignore_vcs
            &&& names.ignore_vcs == Some(strings(items))
            &&& names.ignore_dirs == before.ignore_dirs
            &&& settings(Datum::Object(pairs.push(("ignore_dirs"@, v)))) == before
            &&& settings(Datum::Object(pairs.push(("ignore_vcs"@, v)))) == before
            &&& !(v is Object) ==> settings(v).ignore_dirs.len() == 0 && settings(v).ignore_vcs
                is None
            &&& settings(Datum::Object(Seq::empty())).ignore_dirs.len() == 0
            &&& settings(Datum::Object(Seq::empty())).ignore_vcs is None
        }),
{
    reveal_strlit("ignore_dirs");
    reveal_strlit("ignore_vcs");
    assert("ignore_dirs"@.len() != "ignore_vcs"@.len());
    assert(pairs.push(("ignore_dirs"@, Datum::Array(items))).drop_last() =~= pairs);
    assert(pairs.push(("ignore_vcs"@, Datum::Array(items))).drop_last() =~= pairs);
    assert(pairs.push(("ignore_dirs"@, v)).drop_last() =~= pairs);
    assert(pairs.push(("ignore_vcs"@, v)).drop_last() =~= pairs);
    assert(pairs.push((key, any)).drop_last() =~= pairs);
}

/// A readable text sets what its value sets; without a text, and with one that is no JSON,
/// nothing is set. Only a number of which it is not known what it reads as is told.
pub proof fn law_readable_texts_are_heeded(text: Seq<char>, readings: Map<Seq<char>, Option<u64>>)
    ensures
        text_value(text, readings) is Ok ==> loaded(Some(text), readings) == Ok::<
            Settings,
            JsonError,
        >(settings(text_value(text, readings)->Ok_0)),
        text_value(text, readings) is Err && !(text_value(text, readings)->Err_0 is Unread)
            ==> loaded(Some(text), readings) is Ok && loaded(
            Some(text),
            readings,
        )->Ok_0.ignore_dirs.len() == 0 && loaded(Some(text), readings)->Ok_0.ignore_vcs is None,
        text_value(text, readings) is Err && text_value(text, readings)->Err_0 is Unread ==> loaded(
            Some(text),
            readings,
        ) == Err::<Settings, JsonError>(text_value(text, readings)->Err_0),
        loaded(None, readings) is Ok,
        loaded(None, readings)->Ok_0.ignore_dirs.len() == 0,
        loaded(None, readings)->Ok_0.ignore_vcs is None,
{
}

/// The usual directories of version control are three.
pub proof fn law_usual_names(name: Seq<char>)
    ensures
        usual_vcs().contains(name) <==> name == ".git"@ || name == ".hg"@ || name == ".svn"@,
{
    let all = usual_vcs();
    assert(all[0] == ".git"@ && all[1] == ".hg"@ && all[2] == ".svn"@);
}

/// A path is ignored if and only if its last component is one of the names, or its first
/// components are those of one of the directories.
pub proof fn law_what_is_ignored(
    dirs: Seq<Seq<u8>>,
    names: Seq<Seq<char>>,
    dir: Seq<u8>,
    name: Seq<u8>,
)
    requires
        is_name(name),
        name != seq![0x2eu8, 0x2e],
    ensures
        ignored(dirs, names, joined(dir, name)) <==> {
            ||| exists|k: int| 0 <= k < names.len() && encode_utf8(#[trigger] names[k]) == name
            ||| exists|k: int|
                0 <= k < dirs.len() && components(#[trigger] dirs[k]).len() <= components(dir).len()
                    + 1 && components(dirs[k]) == components(dir).push(name).take(
                    components(dirs[k]).len() as int,
                )
        },
{
    law_joined_name(dir, name);
    let path = joined(dir, name);
    let all = components(dir).push(name);
    assert forall|k: int| 0 <= k < dirs.len() implies within(path, #[trigger] dirs[k]) == (
    components(dirs[k]).len() <= all.len() && components(dirs[k]) == all.take(
        components(dirs[k]).len() as int,
    )) by {
        let n = components(dirs[k]).len() as int;
        if n <= all.len() {
            assert(all.take(n) =~= all.subrange(0, n));
        }
    }
    if ignored(dirs, names, path) {
        if exists|k: int|
            0 <= k < names.len() && last_name(path) == Some(encode_utf8(#[trigger] names[k])) {
            let k = choose|k: int|
                0 <= k < names.len() && last_name(path) == Some(encode_utf8(#[trigger] names[k]));
            assert(encode_utf8(names[k]) == name);
        } else {
            let k = choose|k: int| 0 <= k < dirs.len() && within(path, #[trigger] dirs[k]);
            assert(within(path, dirs[k]));
        }
    }
}

/// Any path is ignored if and only if its name, where it has one, is one of the names, or it
/// lies in one of the directories.
pub proof fn law_any_path_is_ignored(
    dirs: Seq<Seq<u8>>,
    names: Seq<Seq<char>>,
    path: Seq<u8>,
    j: int,
)
    ensures
        0 <= j < names.len() && last_name(path) == Some(encode_utf8(names[j])) ==> ignored(
            dirs,
            names,
            path,
        ),
        0 <= j < dirs.len() && within(path, dirs[j]) ==> ignored(dirs, names, path),
        ignored(dirs, names, path) ==> (exists|k: int|
            0 <= k < names.len() && last_name(path) == Some(encode_utf8(#[trigger] names[k])))
            || (exists|k: int| 0 <= k < dirs.len() && within(path, #[trigger] dirs[k])),
{
}

/// A change of a path is passed over if and only if the path is ignored, or it lies under
/// the root and one of its components behind the root is one of the names.
pub proof fn law_what_is_passed_over(
    root: Seq<u8>,
    dirs: Seq<Seq<u8>>,
    names: Seq<Seq<char>>,
    path: Seq<u8>,
)
    ensures
        passed_over(root, dirs, names, path) <==> {
            ||| ignored(dirs, names, path)
            ||| within(path, root) && exists|k: int, j: int|
                components(root).len() <= k < components(path).len() && 0 <= j < names.len()
                    && #[trigger] components(path)[k] == encode_utf8(#[trigger] names[j])
        },
{
    if named_below(root, names, path) {
        let k = choose|k: int|
            components(root).len() <= k < components(path).len() && is_named(
                names,
                #[trigger] components(path)[k],
            );
        let j = choose|j: int|
            0 <= j < names.len() && components(path)[k] == encode_utf8(#[trigger] names[j]);
        assert(components(path)[k] == encode_utf8(names[j]));
    }
    if exists|k: int, j: int|
        components(root).len() <= k < components(path).len() && 0 <= j < names.len()
            && #[trigger] components(path)[k] == encode_utf8(#[trigger] names[j]) {
        let (k, j) = choose|k: int, j: int|
            components(root).len() <= k < components(path).len() && 0 <= j < names.len()
                && #[trigger] components(path)[k] == encode_utf8(#[trigger] names[j]);
        assert(is_named(names, components(path)[k]));
    }
}

/// The directories that are given are ignored below the root, each as it is given and in
/// order, and the names that are given by themselves; where none are given, those of the
/// usual version controls are.
pub proof fn law_what_settings_ignore(root: Seq<u8>, set: Settings, k: int, name: Seq<char>)
    ensures
        ignored_dirs(root, set).len() == set.ignore_dirs.len(),
        0 <= k < set.ignore_dirs.len() ==> ignored_dirs(root, set)[k] == joined(
            root,
            encode_utf8(set.ignore_dirs[k]),
        ),
        set.ignore_vcs is Some ==> ignored_names(set) == set.ignore_vcs->0,
        set.ignore_vcs is None ==> (ignored_names(set).contains(name) <==> name == ".git"@ || name
            == ".hg"@ || name == ".svn"@),
{
    law_usual_names(name);
}

/// The configuration file of a root is the one file of its name directly in it.
pub proof fn law_where_settings_are(root: Seq<u8>)
    ensures
        components(config_file(root)) == components(root).push(encode_utf8(".watchmanconfig"@)),
{
    let t = ".watchmanconfig"@;
    reveal_strlit(".watchmanconfig");
    assert(is_ascii_chars(t));
    is_ascii_chars_encode_utf8(t);
    let b = encode_utf8(t);
    assert forall|k: int| 0 <= k < b.len() implies (#[trigger] b[k]) != 0x2f by {
        assert(t[k] as u8 == b[k]);
        assert(t[k] != '/');
    }
    law_joined_name(root, b);
}

} // verus!
