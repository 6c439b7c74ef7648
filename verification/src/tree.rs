//! What is known of a watched root: its files, in the order in which they were
//! first seen, and a logical clock that ticks with every observed change.
//! Queries are answered from this alone.

use vstd::hash_map::StringHashMap;
use vstd::prelude::*;
use vstd::string::StringExecFns;
use vstd::utf8::*;

use crate::config::{ignored, is_named, named_below, passed_over, Ignore};
use crate::paths::{
    behind, components, ends_in_name, is_name, joined, last_name, law_joined_name, law_rest_grows,
    path_rows, strip_prefix, within,
};
use crate::text::{
    after_last, chars_of, digits, from_utf8_lossy, law_after_last, lemma_digits, lemma_split_some,
    lemma_unsigned_read, lemma_utf8_concat, lossy, parts, push_digits, read_unsigned, split, split_at_each,
    starts_with_chars, str_eq, tail_after, unsigned_read,
};

verus! {

/// The kinds of files.
#[derive(Debug, Clone, Copy, PartialEq, Eq, Structural)]
pub enum Kind {
    Regular,
    Directory,
    Symlink,
    BlockSpecial,
    CharSpecial,
    Fifo,
    Socket,
    Unknown,
}

/// What the file system says of a file.
#[derive(Debug, Clone, Copy, PartialEq, Eq, Structural)]
pub struct Metadata {
    pub is_dir: bool,
    pub is_symlink: bool,
    pub is_file: bool,
    pub is_block_device: bool,
    pub is_char_device: bool,
    pub is_fifo: bool,
    pub is_socket: bool,
    pub len: u64,
    pub mtime: i64,
    pub mode: u32,
}

impl Metadata {
    /// The kind of the file.
    pub open spec fn kind(self) -> Kind {
        if self.is_dir {
            Kind::Directory
        } else if self.is_symlink {
            Kind::Symlink
        } else if self.is_file {
            Kind::Regular
        } else if self.is_block_device {
            Kind::BlockSpecial
        } else if self.is_char_device {
            Kind::CharSpecial
        } else if self.is_fifo {
            Kind::Fifo
        } else if self.is_socket {
            Kind::Socket
        } else {
            Kind::Unknown
        }
    }
}

impl Kind {
    /// The letter that stands for a kind.
    pub open spec fn letter(self) -> Seq<char> {
        match self {
            Kind::BlockSpecial => "b"@,
            Kind::CharSpecial => "c"@,
            Kind::Directory => "d"@,
            Kind::Regular => "f"@,
            Kind::Fifo => "p"@,
            Kind::Symlink => "l"@,
            Kind::Socket => "s"@,
            Kind::Unknown => "?"@,
        }
    }

    /// The kind of a file.
    pub fn from_metadata(meta: &Metadata) -> (r: Kind)
        ensures
            r == meta.kind(),
    {
        if meta.is_dir {
            Kind::Directory
        } else if meta.is_symlink {
            Kind::Symlink
        } else if meta.is_file {
            Kind::Regular
        } else if meta.is_block_device {
            Kind::BlockSpecial
        } else if meta.is_char_device {
            Kind::CharSpecial
        } else if meta.is_fifo {
            Kind::Fifo
        } else if meta.is_socket {
            Kind::Socket
        } else {
            Kind::Unknown
        }
    }

    /// The letter that stands for the kind.
    pub fn code(&self) -> (r: &'static str)
        ensures
            r@ == self.letter(),
    {
        match self {
            Kind::BlockSpecial => "b",
            Kind::CharSpecial => "c",
            Kind::Directory => "d",
            Kind::Regular => "f",
            Kind::Fifo => "p",
            Kind::Symlink => "l",
            Kind::Socket => "s",
            Kind::Unknown => "?",
        }
    }
}

/// What is known of a file.
#[derive(Debug)]
pub struct FileInfo {
    /// The path relative to the root, with `/` between the components.
    pub name: String,
    pub exists: bool,
    pub kind: Kind,
    pub size: u64,
    pub mtime: i64,
    pub mode: u32,
    /// The tick at which the file last changed.
    pub ctick: u64,
    /// The tick at which the file was first observed to exist; where that never
    /// was, the tick at which it was first reported.
    pub first_tick: u64,
    /// Whether the file was ever observed to exist.
    pub ever_seen: bool,
}

/// What a `FileInfo` stands for.
#[verifier::ext_equal]
pub struct Entry {
    pub name: Seq<char>,
    pub exists: bool,
    pub kind: Kind,
    pub size: u64,
    pub mtime: i64,
    pub mode: u32,
    pub ctick: u64,
    pub first_tick: u64,
    pub ever_seen: bool,
}

impl View for FileInfo {
    type V = Entry;

    open spec fn view(&self) -> Entry {
        Entry {
            name: self.name@,
            exists: self.exists,
            kind: self.kind,
            size: self.size,
            mtime: self.mtime,
            mode: self.mode,
            ctick: self.ctick,
            first_tick: self.first_tick,
            ever_seen: self.ever_seen,
        }
    }
}

impl Clone for FileInfo {
    fn clone(&self) -> (r: Self)
        ensures
            r@ == self@,
    {
        FileInfo {
            name: self.name.clone(),
            exists: self.exists,
            kind: self.kind,
            size: self.size,
            mtime: self.mtime,
            mode: self.mode,
            ctick: self.ctick,
            first_tick: self.first_tick,
            ever_seen: self.ever_seen,
        }
    }
}

/// The text of a clock: when it was asked for, the process, and the ticks.
pub open spec fn clock_text(now: u64, pid: u32, ticks: u64) -> Seq<char> {
    "c:"@ + digits(now as nat) + ":"@ + digits(pid as nat) + ":"@ + digits(ticks as nat)
}

/// A logical clock.
pub struct Clock {
    pid: u32,
    ticks: u64,
}

impl Clock {
    /// The process that the clock belongs to.
    pub closed spec fn pid(&self) -> u32 {
        self.pid
    }

    /// How often the clock has ticked.
    pub closed spec fn ticks(&self) -> u64 {
        self.ticks
    }

    /// A new clock of the process with the given number.
    pub fn new(pid: u32) -> (r: Self)
        ensures
            r.pid() == pid,
            r.ticks() == 1,
    {
        Clock { pid, ticks: 1 }
    }

    /// One more tick.
    pub fn bump(&mut self) -> (r: u64)
        requires
            old(self).ticks() < u64::MAX,
        ensures
            r == old(self).ticks() + 1,
            final(self).ticks() == r,
            final(self).pid() == old(self).pid(),
    {
        self.ticks = self.ticks + 1;
        self.ticks
    }

    /// The ticks so far.
    pub fn now(&self) -> (r: u64)
        ensures
            r == self.ticks(),
    {
        self.ticks
    }

    /// The text of the clock at a tick, asked for at a time in seconds.
    pub fn format(&self, ticks: u64, now: u64) -> (r: String)
        ensures
            r@ == clock_text(now, self.pid(), ticks),
    {
        let mut out = "c:".to_string();
        push_digits(&mut out, now as u128);
        out.append(":");
        push_digits(&mut out, self.pid as u128);
        out.append(":");
        push_digits(&mut out, ticks as u128);
        out
    }
}

/// The ticks that the text of a clock holds: the last of three parts behind the
/// `c`, or of two. The null clock holds none.
pub open spec fn clock_ticks(s: Seq<char>) -> Option<u64> {
    let all = split(s, ':');
    if s == "c:0:0"@ {
        None
    } else if all[0] != "c"@ {
        None
    } else if all.len() == 4 {
        unsigned_read(all[3])
    } else if all.len() == 3 {
        unsigned_read(all[2])
    } else {
        None
    }
}

/// Reads the ticks off the text of a clock. The null clock `c:0:0`, and what is no
/// such text, count as no clock.
pub fn parse_clock_ticks(s: &str) -> (r: Option<u64>)
    ensures
        r == clock_ticks(s@),
{
    if str_eq(s, "c:0:0") {
        return None;
    }
    let cs = chars_of(s);
    let all = split_at_each(cs.as_slice(), ':');
    proof {
        lemma_split_some(s@, ':');
        assert(parts(all@).len() == all@.len());
        assert forall|k: int| 0 <= k < all@.len() implies parts(all@)[k] == (#[trigger] all@[k])@ by {}
        reveal_strlit("c");
    }
    let tagged = all[0].len() == 1 && all[0][0] == 'c';
    assert(tagged == (all@[0]@ =~= "c"@));
    assert(parts(all@)[0] == all@[0]@);
    if !tagged {
        None
    } else if all.len() == 4 {
        assert(parts(all@)[3] == all@[3]@);
        read_unsigned(all[3].as_slice())
    } else if all.len() == 3 {
        assert(parts(all@)[2] == all@[2]@);
        read_unsigned(all[2].as_slice())
    } else {
        None
    }
}

/// Text without the separator lengthens the last part.
proof fn lemma_split_extend(s: Seq<char>, t: Seq<char>, sep: char)
    requires
        forall|k: int| 0 <= k < t.len() ==> #[trigger] t[k] != sep,
    ensures
        split(s + t, sep) == split(s, sep).update(
            split(s, sep).len() - 1,
            split(s, sep).last() + t,
        ),
        split(s, sep).len() > 0,
    decreases t.len(),
{
    lemma_split_some(s, sep);
    let front = split(s, sep);
    if t.len() == 0 {
        assert(s + t =~= s);
        assert(front.last() + t =~= front.last());
        assert(front.update(front.len() - 1, front.last() + t) =~= front);
    } else {
        let u = t.drop_last();
        lemma_split_extend(s, u, sep);
        assert((s + t).drop_last() =~= s + u);
        let before = split(s + u, sep);
        assert((front.last() + u).push(t.last()) =~= front.last() + t);
        assert(before.update(before.len() - 1, before.last().push(t.last())) =~= front.update(
            front.len() - 1,
            front.last() + t,
        ));
    }
}

/// The separator starts a new part.
proof fn lemma_split_separate(s: Seq<char>, sep: char)
    ensures
        split(s.push(sep), sep) == split(s, sep).push(Seq::empty()),
{
    assert(s.push(sep).drop_last() =~= s);
}

/// The ticks that a clock's text was made with are read off it again.
pub proof fn law_clock_round_trip(now: u64, pid: u32, ticks: u64)
    ensures
        clock_ticks(clock_text(now, pid, ticks)) == Some(ticks),
{
    reveal_strlit("c:");
    reveal_strlit("c");
    reveal_strlit(":");
    let a = digits(now as nat);
    let b = digits(pid as nat);
    let c = digits(ticks as nat);
    lemma_digits(now as nat);
    lemma_digits(pid as nat);
    lemma_digits(ticks as nat);
    let none = Seq::<char>::empty();
    let s1 = none + seq!['c'];
    lemma_split_extend(none, seq!['c'], ':');
    assert(split(s1, ':') =~= seq![seq!['c']]) by {
        assert(none + seq!['c'] =~= seq!['c']);
    }
    lemma_split_separate(s1, ':');
    let s2 = s1.push(':');
    assert(split(s2, ':') =~= seq![seq!['c'], none]);
    lemma_split_extend(s2, a, ':');
    let s3 = s2 + a;
    assert(none + a =~= a);
    assert(split(s3, ':') =~= seq![seq!['c'], a]);
    lemma_split_separate(s3, ':');
    let s4 = s3.push(':');
    assert(split(s4, ':') =~= seq![seq!['c'], a, none]);
    lemma_split_extend(s4, b, ':');
    let s5 = s4 + b;
    assert(none + b =~= b);
    assert(split(s5, ':') =~= seq![seq!['c'], a, b]);
    lemma_split_separate(s5, ':');
    let s6 = s5.push(':');
    assert(split(s6, ':') =~= seq![seq!['c'], a, b, none]);
    lemma_split_extend(s6, c, ':');
    let s7 = s6 + c;
    assert(none + c =~= c);
    assert(split(s7, ':') =~= seq![seq!['c'], a, b, c]);
    assert(clock_text(now, pid, ticks) =~= s7);
    assert("c"@ =~= seq!['c']);
    assert(s7 != "c:0:0"@) by {
        reveal_strlit("c:0:0");
        assert(s7.len() >= 7);
    }
    lemma_unsigned_read(ticks);
}

/// What a row of files stands for.
pub open spec fn entries(files: Seq<FileInfo>) -> Seq<Entry> {
    files.map_values(|f: FileInfo| f@)
}

/// What a row of references to files stands for.
pub open spec fn entries_of(files: Seq<&FileInfo>) -> Seq<Entry> {
    files.map_values(|f: &FileInfo| f@)
}

/// The place of a name among the files.
pub open spec fn place(rows: Seq<Entry>, name: Seq<char>) -> Option<int>
    decreases rows.len(),
{
    if rows.len() == 0 {
        None
    } else {
        match place(rows.drop_last(), name) {
            Some(k) => Some(k),
            None => if rows.last().name == name {
                Some(rows.len() - 1)
            } else {
                None
            },
        }
    }
}

/// The name stands where `place` says, or nowhere.
pub proof fn lemma_place(rows: Seq<Entry>, name: Seq<char>)
    ensures
        match place(rows, name) {
            Some(k) => 0 <= k < rows.len() && rows[k].name == name,
            None => forall|k: int| 0 <= k < rows.len() ==> (#[trigger] rows[k]).name != name,
        },
    decreases rows.len(),
{
    if rows.len() > 0 {
        lemma_place(rows.drop_last(), name);
        assert forall|k: int|
            0 <= k < rows.len() && place(rows, name) is None implies (#[trigger] rows[k]).name
            != name by {
            if k < rows.len() - 1 {
                assert(rows.drop_last()[k] == rows[k]);
            }
        }
    }
}

/// No two files have the same name.
pub open spec fn distinct(rows: Seq<Entry>) -> bool {
    forall|j: int, k: int|
        0 <= j < k < rows.len() ==> (#[trigger] rows[j]).name != (#[trigger] rows[k]).name
}

/// Every file was first seen no later than it last changed, and changed no later
/// than now.
pub open spec fn timely(rows: Seq<Entry>, now: u64) -> bool {
    forall|k: int|
        0 <= k < rows.len() ==> (#[trigger] rows[k]).first_tick <= rows[k].ctick <= now
}

/// Every file that exists was observed to exist.
pub open spec fn observed(rows: Seq<Entry>) -> bool {
    forall|k: int| 0 <= k < rows.len() && (#[trigger] rows[k]).exists ==> rows[k].ever_seen
}

/// A file with the given metadata, which changed at a tick.
pub open spec fn seen_entry(name: Seq<char>, meta: Metadata, tick: u64, first_tick: u64) -> Entry {
    Entry {
        name,
        exists: true,
        kind: meta.kind(),
        size: meta.len,
        mtime: meta.mtime,
        mode: meta.mode,
        ctick: tick,
        first_tick,
        ever_seen: true,
    }
}

/// A file that is gone and was never seen.
pub open spec fn unseen_entry(name: Seq<char>, tick: u64) -> Entry {
    Entry {
        name,
        exists: false,
        kind: Kind::Unknown,
        size: 0,
        mtime: 0,
        mode: 0,
        ctick: tick,
        first_tick: tick,
        ever_seen: false,
    }
}

/// The files once one is seen at a tick: it keeps the tick at which it was first
/// observed to exist, if it ever was.
pub open spec fn upserted(rows: Seq<Entry>, name: Seq<char>, meta: Metadata, tick: u64) -> Seq<
    Entry,
> {
    match place(rows, name) {
        Some(k) => rows.update(
            k,
            seen_entry(
                name,
                meta,
                tick,
                if rows[k].ever_seen {
                    rows[k].first_tick
                } else {
                    tick
                },
            ),
        ),
        None => rows.push(seen_entry(name, meta, tick, tick)),
    }
}

/// The files once one is found to be gone at a tick: what was known of it stays.
pub open spec fn vanished(rows: Seq<Entry>, name: Seq<char>, tick: u64) -> Seq<Entry> {
    match place(rows, name) {
        Some(k) => rows.update(k, Entry { exists: false, ctick: tick, ..rows[k] }),
        None => rows.push(unseen_entry(name, tick)),
    }
}

/// The files once one has changed at a tick, given what the file system says.
pub open spec fn changed(
    rows: Seq<Entry>,
    name: Seq<char>,
    meta: Option<Metadata>,
    tick: u64,
) -> Seq<Entry> {
    match meta {
        Some(m) => upserted(rows, name, m, tick),
        None => vanished(rows, name, tick),
    }
}

/// A text with slashes for backslashes.
pub open spec fn slashed(s: Seq<char>) -> Seq<char> {
    s.map_values(|c: char| if c == '\\' { '/' } else { c })
}

/// The name of a path: what follows the root, as text, with slashes only.
pub open spec fn relative(root: Seq<u8>, path: Seq<u8>) -> Seq<char> {
    match behind(path, root) {
        Some(rest) => slashed(lossy(rest)),
        None => slashed(lossy(path)),
    }
}

/// The files that changed after a tick, in order.
pub open spec fn newer(rows: Seq<Entry>, ticks: u64) -> Seq<Entry> {
    rows.filter(|e: Entry| e.ctick > ticks)
}

/// A watched root.
pub struct Tree {
    root: Vec<u8>,
    files: Vec<FileInfo>,
    index: StringHashMap<usize>,
    clock: Clock,
    ignore: Ignore,
}

/// Replaces backslashes by slashes.
fn with_slashes(s: &str) -> (r: String)
    ensures
        r@ == slashed(s@),
{
    let cs = chars_of(s);
    let mut out = String::new();
    let mut i: usize = 0;
    while i < cs.len()
        invariant
            i <= cs@.len(),
            out@.len() == i,
            forall|k: int| 0 <= k < i ==> #[trigger] out@[k] == slashed(cs@)[k],
        decreases cs@.len() - i,
    {
        let c = cs[i];
        out.push(
            if c == '\\' {
                '/'
            } else {
                c
            },
        );
        i += 1;
    }
    assert(out@ =~= slashed(s@));
    out
}

impl Tree {
    /// The root.
    pub closed spec fn root(&self) -> Seq<u8> {
        self.root@
    }

    /// The files, in the order in which they were first seen.
    pub closed spec fn rows(&self) -> Seq<Entry> {
        entries(self.files@)
    }

    /// The process that the clock belongs to.
    pub closed spec fn pid(&self) -> u32 {
        self.clock.pid()
    }

    /// The ticks so far.
    pub closed spec fn ticks(&self) -> u64 {
        self.clock.ticks()
    }

    /// What is ignored.
    pub closed spec fn ignores(&self) -> Ignore {
        self.ignore
    }

    /// Whether a path is ignored.
    pub open spec fn ignores_path(&self, path: Seq<u8>) -> bool {
        ignored(self.ignores().dirs(), self.ignores().names(), path)
    }

    /// Names are unique and found through the index, and no tick lies ahead.
    pub closed spec fn wf(&self) -> bool {
        &&& distinct(self.rows())
        &&& timely(self.rows(), self.ticks())
        &&& observed(self.rows())
        &&& forall|k: int|
            0 <= k < self.files@.len() ==> self.index@.contains_pair(
                (#[trigger] self.files@[k]).name@,
                k as usize,
            )
        &&& forall|name: Seq<char>| #[trigger]
            self.index@.contains_key(name) ==> self.index@[name] < self.files@.len()
                && self.files@[self.index@[name] as int].name@ == name
    }

    /// No two files have the same name, every file was first seen no later than it
    /// last changed, no change lies ahead of the clock, and what exists was observed
    /// to exist.
    pub proof fn law_files_are_in_order(&self)
        requires
            self.wf(),
        ensures
            distinct(self.rows()),
            timely(self.rows(), self.ticks()),
            observed(self.rows()),
    {
    }

    /// A root of which nothing is known yet, watched by the process with the
    /// given number.
    pub fn with_ignore(root: Vec<u8>, ignore: Ignore, pid: u32) -> (r: Self)
        ensures
            r.wf(),
            r.root() == root@,
            r.rows() == Seq::<Entry>::empty(),
            r.pid() == pid,
            r.ticks() == 1,
            r.ignores() == ignore,
    {
        let r = Tree {
            root,
            files: Vec::new(),
            index: StringHashMap::new(),
            clock: Clock::new(pid),
            ignore,
        };
        assert(r.rows() =~= Seq::<Entry>::empty());
        r
    }

    /// The root.
    pub fn root_path(&self) -> (r: &[u8])
        ensures
            r@ == self.root(),
    {
        self.root.as_slice()
    }

    /// The files.
    pub fn files(&self) -> (r: &[FileInfo])
        ensures
            entries(r@) == self.rows(),
    {
        self.files.as_slice()
    }

    /// The ticks so far.
    pub fn now(&self) -> (r: u64)
        ensures
            r == self.ticks(),
    {
        self.clock.now()
    }

    /// The text of the clock, asked for at a time in seconds.
    pub fn clock(&self, now: u64) -> (r: String)
        ensures
            r@ == clock_text(now, self.pid(), self.ticks()),
    {
        self.clock.format(self.clock.now(), now)
    }

    /// Whether a path is ignored.
    pub fn is_ignored(&self, path: &[u8]) -> (r: bool)
        ensures
            r == self.ignores_path(path@),
    {
        self.ignore.is_ignored(path)
    }

    /// Whether a change of a path is passed over.
    pub fn passes_over(&self, path: &[u8]) -> (r: bool)
        ensures
            r == passed_over(
                self.root(),
                self.ignores().dirs(),
                self.ignores().names(),
                path@,
            ),
    {
        self.ignore.passes_over(self.root.as_slice(), path)
    }

    /// What is known of a file.
    pub fn get(&self, name: &str) -> (r: Option<&FileInfo>)
        requires
            self.wf(),
        ensures
            match place(self.rows(), name@) {
                Some(k) => r is Some && r->0@ == self.rows()[k],
                None => r is None,
            },
    {
        proof {
            lemma_place(self.rows(), name@);
        }
        match self.index.get(name) {
            Some(k) => {
                let k: usize = *k;
                proof {
                    self.lemma_indexed(name@);
                }
                Some(&self.files[k])
            },
            None => {
                proof {
                    self.lemma_indexed(name@);
                }
                None
            },
        }
    }

    /// The index knows where each name stands.
    proof fn lemma_indexed(&self, name: Seq<char>)
        requires
            self.wf(),
        ensures
            self.index@.contains_key(name) ==> place(self.rows(), name) == Some(
                self.index@[name] as int,
            ) && self.rows()[self.index@[name] as int].name == name,
            !self.index@.contains_key(name) ==> place(self.rows(), name) is None,
    {
        let rows = self.rows();
        lemma_place(rows, name);
        assert(rows.len() == self.files@.len());
        match place(rows, name) {
            Some(k) => {
                assert(rows[k] == self.files@[k]@);
                assert(self.index@.contains_pair(self.files@[k].name@, k as usize));
            },
            None => {
                if self.index@.contains_key(name) {
                    let k = self.index@[name] as int;
                    assert(rows[k] == self.files@[k]@);
                }
            },
        }
    }

    /// The name of a path.
    fn rel(&self, path: &[u8]) -> (r: String)
        ensures
            r@ == relative(self.root(), path@),
    {
        let text = match strip_prefix(path, self.root.as_slice()) {
            Some(rest) => from_utf8_lossy(rest.as_slice()),
            None => from_utf8_lossy(path),
        };
        with_slashes(text.as_str())
    }

    /// Puts a file in the place of the one with the same name, or behind all
    /// others.
    fn put(&mut self, info: FileInfo)
        requires
            old(self).wf(),
            info.first_tick <= info.ctick <= old(self).ticks(),
            info.exists ==> info.ever_seen,
        ensures
            final(self).wf(),
            final(self).root() == old(self).root(),
            final(self).pid() == old(self).pid(),
            final(self).ticks() == old(self).ticks(),
            final(self).ignores() == old(self).ignores(),
            final(self).rows() == (match place(old(self).rows(), info.name@) {
                Some(k) => old(self).rows().update(k, info@),
                None => old(self).rows().push(info@),
            }),
    {
        let ghost before = self.rows();
        let ghost name = info.name@;
        let ghost entry = info@;
        proof {
            self.lemma_indexed(name);
            lemma_place(before, name);
        }
        let found: Option<usize> = match self.index.get(info.name.as_str()) {
            Some(k) => Some(*k),
            None => None,
        };
        match found {
            Some(k) => {
                self.files.set(k, info);
                assert(self.rows() =~= before.update(k as int, entry));
                assert forall|i: int| 0 <= i < self.files@.len() implies self.index@.contains_pair(
                    (#[trigger] self.files@[i]).name@,
                    i as usize,
                ) by {
                    if i != k {
                        assert(self.files@[i] == old(self).files@[i]);
                    }
                    assert(old(self).index@.contains_pair(old(self).files@[i].name@, i as usize));
                }
                assert forall|j: int, i: int| 0 <= j < i < self.rows().len() implies (
                #[trigger] self.rows()[j]).name != (#[trigger] self.rows()[i]).name by {
                    assert(before[j].name != before[i].name);
                }
            },
            None => {
                let k: usize = self.files.len();
                self.index.insert(info.name.clone(), k);
                self.files.push(info);
                assert(self.rows() =~= before.push(entry));
                assert forall|i: int| 0 <= i < self.files@.len() implies self.index@.contains_pair(
                    (#[trigger] self.files@[i]).name@,
                    i as usize,
                ) by {
                    if i < k {
                        assert(self.files@[i] == old(self).files@[i]);
                        assert(old(self).index@.contains_pair(old(self).files@[i].name@, i as usize));
                        assert(before[i].name != name);
                    }
                }
                assert forall|n: Seq<char>| #[trigger]
                    self.index@.contains_key(n) implies self.index@[n] < self.files@.len()
                    && self.files@[self.index@[n] as int].name@ == n by {
                    if n != name {
                        assert(old(self).index@.contains_key(n));
                    }
                }
                assert forall|j: int, i: int| 0 <= j < i < self.rows().len() implies (
                #[trigger] self.rows()[j]).name != (#[trigger] self.rows()[i]).name by {
                    if i < before.len() {
                        assert(before[j].name != before[i].name);
                    } else {
                        assert(before[j].name != name);
                    }
                }
            },
        }
    }

    /// Enters a file that is there, as of the current tick.
    fn upsert(&mut self, rel: String, meta: &Metadata)
        requires
            old(self).wf(),
        ensures
            final(self).wf(),
            final(self).root() == old(self).root(),
            final(self).pid() == old(self).pid(),
            final(self).ticks() == old(self).ticks(),
            final(self).ignores() == old(self).ignores(),
            final(self).rows() == upserted(old(self).rows(), rel@, *meta, old(self).ticks()),
    {
        let tick: u64 = self.clock.now();
        proof {
            lemma_place(self.rows(), rel@);
        }
        let first_tick: u64 = match self.get(rel.as_str()) {
            Some(f) => if f.ever_seen {
                f.first_tick
            } else {
                tick
            },
            None => tick,
        };
        self.put(
            FileInfo {
                name: rel,
                exists: true,
                kind: Kind::from_metadata(meta),
                size: meta.len,
                mtime: meta.mtime,
                mode: meta.mode,
                ctick: tick,
                first_tick,
                ever_seen: true,
            },
        );
    }

    /// Records that a path has changed, given what the file system says of it:
    /// the clock ticks, and the file is entered as of that tick, or as gone.
    pub fn record_change(&mut self, path: &[u8], meta: Option<Metadata>) -> (r: u64)
        requires
            old(self).wf(),
            old(self).ticks() < u64::MAX,
        ensures
            final(self).wf(),
            r == old(self).ticks() + 1,
            final(self).root() == old(self).root(),
            final(self).pid() == old(self).pid(),
            final(self).ticks() == r,
            final(self).ignores() == old(self).ignores(),
            final(self).rows() == changed(
                old(self).rows(),
                relative(old(self).root(), path@),
                meta,
                r,
            ),
            forall|k: int|
                0 <= k < final(self).rows().len() && (#[trigger] final(self).rows()[k]).name
                    == relative(old(self).root(), path@) ==> final(self).rows()[k].exists == (
                meta is Some) && final(self).rows()[k].ctick == r && (match meta {
                    Some(m) => final(self).rows()[k].kind == m.kind()
                        && final(self).rows()[k].size == m.len && final(self).rows()[k].mtime
                        == m.mtime && final(self).rows()[k].mode == m.mode,
                    None => true,
                }),
    {
        proof {
            let name = relative(self.root(), path@);
            let next = (self.ticks() + 1) as u64;
            match meta {
                Some(m) => law_change_tells_what_is_there(self.rows(), name, m, next),
                None => law_change_tells_what_is_gone(self.rows(), name, next),
            }
        }
        let tick: u64 = self.clock.bump();
        let rel = self.rel(path);
        match meta {
            Some(m) => {
                self.upsert(rel, &m);
            },
            None => {
                proof {
                    lemma_place(self.rows(), rel@);
                }
                let gone = match self.get(rel.as_str()) {
                    Some(f) => FileInfo {
                        name: rel,
                        exists: false,
                        kind: f.kind,
                        size: f.size,
                        mtime: f.mtime,
                        mode: f.mode,
                        ctick: tick,
                        first_tick: f.first_tick,
                        ever_seen: f.ever_seen,
                    },
                    None => FileInfo {
                        name: rel,
                        exists: false,
                        kind: Kind::Unknown,
                        size: 0,
                        mtime: 0,
                        mode: 0,
                        ctick: tick,
                        first_tick: tick,
                        ever_seen: false,
                    },
                };
                self.put(gone);
            },
        }
        tick
    }

    /// The files that changed after a tick.
    pub fn since(&self, ticks: u64) -> (r: Vec<&FileInfo>)
        ensures
            entries_of(r@) == newer(self.rows(), ticks),
    {
        let mut out: Vec<&FileInfo> = Vec::new();
        let mut i: usize = 0;
        let ghost rows = self.rows();
        let ghost later = |e: Entry| e.ctick > ticks;
        assert(rows.take(0) =~= Seq::<Entry>::empty());
        assert(entries_of(out@) =~= rows.take(0).filter(later)) by {
            reveal(Seq::filter);
        }
        while i < self.files.len()
            invariant
                i <= self.files@.len(),
                rows == self.rows(),
                later == (|e: Entry| e.ctick > ticks),
                entries_of(out@) == rows.take(i as int).filter(later),
            decreases self.files@.len() - i,
        {
            let f = &self.files[i];
            let ghost before = out@;
            proof {
                reveal(Seq::filter);
                assert(rows.take(i + 1).drop_last() =~= rows.take(i as int));
                assert(rows.take(i + 1).last() == f@);
            }
            if f.ctick > ticks {
                out.push(f);
                assert(entries_of(out@) =~= entries_of(before).push(f@));
            }
            i += 1;
        }
        assert(rows.take(i as int) =~= rows);
        out
    }
}

/// What a directory's listing stands for: each path, with what the file system
/// says of it, if it says anything.
pub open spec fn listed(v: Seq<(Vec<u8>, Option<Metadata>)>) -> Seq<(Seq<u8>, Option<Metadata>)> {
    v.map_values(|e: (Vec<u8>, Option<Metadata>)| (e.0@, e.1))
}

/// The files once a listing is gone through at a tick: every path that is not
/// ignored and of which the file system says something is entered.
pub open spec fn crawled(
    rows: Seq<Entry>,
    root: Seq<u8>,
    ignore: Ignore,
    listing: Seq<(Seq<u8>, Option<Metadata>)>,
    tick: u64,
) -> Seq<Entry>
    decreases listing.len(),
{
    if listing.len() == 0 {
        rows
    } else {
        let front = crawled(rows, root, ignore, listing.drop_last(), tick);
        let (path, meta) = listing.last();
        if ignored(ignore.dirs(), ignore.names(), path) || meta is None {
            front
        } else {
            upserted(front, relative(root, path), meta->0, tick)
        }
    }
}

/// The directories of a listing that are not ignored.
pub open spec fn subdirs(ignore: Ignore, listing: Seq<(Seq<u8>, Option<Metadata>)>) -> Seq<Seq<u8>>
    decreases listing.len(),
{
    if listing.len() == 0 {
        Seq::empty()
    } else {
        let front = subdirs(ignore, listing.drop_last());
        let (path, meta) = listing.last();
        if ignored(ignore.dirs(), ignore.names(), path) || meta is None || !meta->0.is_dir {
            front
        } else {
            front.push(path)
        }
    }
}

/// A crawl that is under way: the directories found so far, and those that are
/// still to be listed.
pub struct Crawl {
    dirs: Vec<Vec<u8>>,
    stack: Vec<Vec<u8>>,
}

impl Crawl {
    /// The directories found so far.
    pub closed spec fn dirs(&self) -> Seq<Seq<u8>> {
        path_rows(self.dirs@)
    }

    /// The directories that are still to be listed, the next one last.
    pub closed spec fn stack(&self) -> Seq<Seq<u8>> {
        path_rows(self.stack@)
    }

    /// The directory to list next, if one is left.
    pub fn next_dir(&mut self) -> (r: Option<Vec<u8>>)
        ensures
            final(self).dirs() == old(self).dirs(),
            match r {
                Some(dir) => old(self).stack().len() > 0 && dir@ == old(self).stack().last()
                    && final(self).stack() == old(self).stack().drop_last(),
                None => old(self).stack().len() == 0 && final(self).stack() == old(self).stack(),
            },
    {
        let ghost before = self.stack@;
        let r = self.stack.pop();
        assert(r is Some ==> path_rows(self.stack@) =~= path_rows(before).drop_last());
        r
    }

    /// The directories that the crawl has found.
    pub fn finish(self) -> (r: Vec<Vec<u8>>)
        ensures
            path_rows(r@) == self.dirs(),
    {
        self.dirs
    }
}

impl Tree {
    /// Starts a full crawl of the root: the clock ticks, and everything that the
    /// crawl enters is entered as of that tick.
    pub fn crawl(&mut self) -> (r: Crawl)
        requires
            old(self).wf(),
            old(self).ticks() < u64::MAX,
        ensures
            final(self).wf(),
            final(self).ticks() == old(self).ticks() + 1,
            final(self).root() == old(self).root(),
            final(self).pid() == old(self).pid(),
            final(self).ignores() == old(self).ignores(),
            final(self).rows() == old(self).rows(),
            r.dirs() == seq![old(self).root()],
            r.stack() == seq![old(self).root()],
    {
        self.clock.bump();
        let mut dirs: Vec<Vec<u8>> = Vec::new();
        let mut stack: Vec<Vec<u8>> = Vec::new();
        dirs.push(vstd::slice::slice_to_vec(self.root.as_slice()));
        stack.push(vstd::slice::slice_to_vec(self.root.as_slice()));
        assert(path_rows(dirs@) =~= seq![self.root()]);
        assert(path_rows(stack@) =~= seq![self.root()]);
        Crawl { dirs, stack }
    }

    /// Goes on with a crawl, given the listing of the directory that was next.
    pub fn crawl_dir(&mut self, crawl: &mut Crawl, listing: &[(Vec<u8>, Option<Metadata>)])
        requires
            old(self).wf(),
        ensures
            final(self).wf(),
            final(self).ticks() == old(self).ticks(),
            final(self).root() == old(self).root(),
            final(self).pid() == old(self).pid(),
            final(self).ignores() == old(self).ignores(),
            final(self).rows() == crawled(
                old(self).rows(),
                old(self).root(),
                old(self).ignores(),
                listed(listing@),
                old(self).ticks(),
            ),
            final(crawl).dirs() == old(crawl).dirs() + subdirs(
                old(self).ignores(),
                listed(listing@),
            ),
            final(crawl).stack() == old(crawl).stack() + subdirs(
                old(self).ignores(),
                listed(listing@),
            ),
    {
        let ghost all = listed(listing@);
        let ghost ignore = self.ignore;
        let mut i: usize = 0;
        assert(all.take(0) =~= Seq::<(Seq<u8>, Option<Metadata>)>::empty());
        assert(crawl.dirs() =~= old(crawl).dirs() + subdirs(ignore, all.take(0)));
        assert(crawl.stack() =~= old(crawl).stack() + subdirs(ignore, all.take(0)));
        while i < listing.len()
            invariant
                i <= listing@.len(),
                all == listed(listing@),
                ignore == self.ignores(),
                self.wf(),
                self.ticks() == old(self).ticks(),
                self.root() == old(self).root(),
                self.pid() == old(self).pid(),
                self.ignores() == old(self).ignores(),
                self.rows() == crawled(
                    old(self).rows(),
                    old(self).root(),
                    ignore,
                    all.take(i as int),
                    old(self).ticks(),
                ),
                crawl.dirs() == old(crawl).dirs() + subdirs(ignore, all.take(i as int)),
                crawl.stack() == old(crawl).stack() + subdirs(ignore, all.take(i as int)),
            decreases listing@.len() - i,
        {
            let entry = &listing[i];
            let path = entry.0.as_slice();
            proof {
                assert(all.take(i + 1).drop_last() =~= all.take(i as int));
                assert(all.take(i + 1).last() == (entry.0@, entry.1));
            }
            let ghost found = subdirs(ignore, all.take(i as int));
            if !self.is_ignored(path) {
                match &entry.1 {
                    Some(meta) => {
                        let rel = self.rel(path);
                        self.upsert(rel, meta);
                        if meta.is_dir {
                            let ghost dirs = crawl.dirs@;
                            let ghost stack = crawl.stack@;
                            crawl.dirs.push(vstd::slice::slice_to_vec(path));
                            crawl.stack.push(vstd::slice::slice_to_vec(path));
                            assert(path_rows(crawl.dirs@) =~= path_rows(dirs).push(path@));
                            assert(path_rows(crawl.stack@) =~= path_rows(stack).push(path@));
                            assert(crawl.dirs() =~= old(crawl).dirs() + found.push(path@));
                            assert(crawl.stack() =~= old(crawl).stack() + found.push(path@));
                        }
                    },
                    None => {},
                }
            }
            i += 1;
        }
        assert(all.take(i as int) =~= all);
    }
}

/// Whether a file is a cookie: its last component starts as cookies do.
pub open spec fn cookie_name(name: Seq<char>) -> bool {
    ".watchman-cookie-"@.is_prefix_of(after_last(name, '/'))
}

/// Whether a file is a cookie.
pub fn is_cookie(name: &str) -> (r: bool)
    ensures
        r == cookie_name(name@),
{
    let base = tail_after(chars_of(name).as_slice(), '/');
    starts_with_chars(base.as_slice(), ".watchman-cookie-")
}

/// A file's entry, once entered, is where its name is; all other files stay as
/// they are, and names stay unique.
pub proof fn lemma_changed(rows: Seq<Entry>, name: Seq<char>, meta: Option<Metadata>, tick: u64)
    requires
        distinct(rows),
    ensures
        distinct(changed(rows, name, meta, tick)),
        place(changed(rows, name, meta, tick), name) is Some,
        ({
            let after = changed(rows, name, meta, tick);
            let k = place(after, name)->0;
            &&& 0 <= k < after.len()
            &&& after[k].name == name
            &&& after[k].ctick == tick
            &&& after[k].exists == (meta is Some)
            &&& place(rows, name) is Some ==> k == place(rows, name)->0 && after[k].first_tick
                == (if meta is Some && !rows[k].ever_seen {
                tick
            } else {
                rows[k].first_tick
            }) && after[k].ever_seen == (meta is Some || rows[k].ever_seen)
            &&& place(rows, name) is None ==> k == rows.len() && after[k].first_tick == tick
                && after[k].ever_seen == (meta is Some)
            &&& rows.len() <= after.len() <= rows.len() + 1
            &&& forall|j: int| 0 <= j < after.len() && j != k ==> j < rows.len() && after[j] == rows[j]
        }),
{
    let after = changed(rows, name, meta, tick);
    lemma_place(rows, name);
    lemma_place(after, name);
    let k = match place(rows, name) {
        Some(k) => k,
        None => rows.len() as int,
    };
    assert(after[k].name == name);
    assert forall|i: int, j: int| 0 <= i < j < after.len() implies (#[trigger] after[i]).name != (
    #[trigger] after[j]).name by {
        if j < rows.len() {
            assert(rows[i].name != rows[j].name);
        } else {
            assert(rows[i].name != name);
        }
    }
    let m = place(after, name)->0;
    if m < k {
        assert(after[m].name != after[k].name);
    } else if k < m {
        assert(after[k].name != after[m].name);
    }
}

/// Nothing changed after now.
pub proof fn law_nothing_newer_than_now(rows: Seq<Entry>, now: u64)
    requires
        timely(rows, now),
    ensures
        newer(rows, now) == Seq::<Entry>::empty(),
    decreases rows.len(),
{
    reveal(Seq::filter);
    if rows.len() > 0 {
        assert forall|k: int| 0 <= k < rows.drop_last().len() implies (
        #[trigger] rows.drop_last()[k]).first_tick <= rows.drop_last()[k].ctick <= now by {
            assert(rows.drop_last()[k] == rows[k]);
        }
        law_nothing_newer_than_now(rows.drop_last(), now);
        assert(rows[rows.len() - 1].ctick <= now);
    }
}

/// Of a row in which one element alone passes a test, that element is left.
proof fn lemma_filter_one(rows: Seq<Entry>, ticks: u64, k: int)
    requires
        0 <= k < rows.len(),
        rows[k].ctick > ticks,
        forall|j: int| 0 <= j < rows.len() && j != k ==> (#[trigger] rows[j]).ctick <= ticks,
    ensures
        newer(rows, ticks) == seq![rows[k]],
    decreases rows.len(),
{
    reveal(Seq::filter);
    let front = rows.drop_last();
    if k < rows.len() - 1 {
        lemma_filter_one(front, ticks, k);
        assert(rows[rows.len() - 1].ctick <= ticks);
    } else {
        assert forall|j: int| 0 <= j < front.len() implies (#[trigger] front[j]).ctick <= ticks by {
            assert(front[j] == rows[j]);
        }
        lemma_filter_none(front, ticks);
        assert(newer(rows, ticks) =~= seq![rows[k]]);
    }
}

/// Of a row in which no element passes a test, nothing is left.
proof fn lemma_filter_none(rows: Seq<Entry>, ticks: u64)
    requires
        forall|j: int| 0 <= j < rows.len() ==> (#[trigger] rows[j]).ctick <= ticks,
    ensures
        newer(rows, ticks) == Seq::<Entry>::empty(),
    decreases rows.len(),
{
    reveal(Seq::filter);
    if rows.len() > 0 {
        assert forall|j: int| 0 <= j < rows.drop_last().len() implies (
        #[trigger] rows.drop_last()[j]).ctick <= ticks by {
            assert(rows.drop_last()[j] == rows[j]);
        }
        lemma_filter_none(rows.drop_last(), ticks);
        assert(rows[rows.len() - 1].ctick <= ticks);
    }
}

/// What changed since a clock was taken, if one file changed, is that file alone.
pub proof fn law_since_finds_the_change(
    rows: Seq<Entry>,
    name: Seq<char>,
    meta: Option<Metadata>,
    now: u64,
)
    requires
        distinct(rows),
        timely(rows, now),
        now < u64::MAX,
    ensures
        ({
            let after = changed(rows, name, meta, (now + 1) as u64);
            &&& place(after, name) is Some
            &&& newer(after, now) == seq![after[place(after, name)->0]]
            &&& after[place(after, name)->0].name == name
            &&& after[place(after, name)->0].exists == (meta is Some)
        }),
{
    let after = changed(rows, name, meta, (now + 1) as u64);
    lemma_changed(rows, name, meta, (now + 1) as u64);
    let k = place(after, name)->0;
    assert forall|j: int| 0 <= j < after.len() && j != k implies (#[trigger] after[j]).ctick
        <= now by {
        assert(after[j] == rows[j]);
    }
    lemma_filter_one(after, now, k);
}

/// Whether a file was ever observed to exist.
pub open spec fn was_seen(rows: Seq<Entry>, name: Seq<char>) -> bool {
    match place(rows, name) {
        Some(k) => rows[k].ever_seen,
        None => false,
    }
}

/// A file that a change finds to exist counts as new since the tick before if and
/// only if it was never observed to exist before. One that a change finds gone
/// counts as new only if it was not known at all.
pub proof fn law_known_files_are_not_new(
    rows: Seq<Entry>,
    name: Seq<char>,
    meta: Option<Metadata>,
    now: u64,
)
    requires
        distinct(rows),
        timely(rows, now),
        now < u64::MAX,
    ensures
        ({
            let after = changed(rows, name, meta, (now + 1) as u64);
            let k = place(after, name)->0;
            &&& meta is Some ==> (after[k].first_tick > now <==> !was_seen(rows, name))
            &&& meta is None ==> (after[k].first_tick > now <==> place(rows, name) is None)
        }),
{
    lemma_changed(rows, name, meta, (now + 1) as u64);
    lemma_place(rows, name);
}

/// A file that was reported while it was missing has, once it is found to exist,
/// the tick of that as its first.
pub proof fn law_first_tick_is_that_of_the_first_observation(
    rows: Seq<Entry>,
    name: Seq<char>,
    meta: Metadata,
    missing: u64,
    found: u64,
)
    requires
        distinct(rows),
        !was_seen(rows, name),
    ensures
        ({
            let after = changed(changed(rows, name, None, missing), name, Some(meta), found);
            &&& place(after, name) is Some
            &&& after[place(after, name)->0].first_tick == found
            &&& after[place(after, name)->0].ever_seen
        }),
{
    lemma_place(rows, name);
    lemma_changed(rows, name, None, missing);
    lemma_changed(changed(rows, name, None, missing), name, Some(meta), found);
}

/// A crawl keeps names unique and enters each path of a listing that is not
/// ignored and of which the file system says something, as of its tick.
pub proof fn law_crawl_enters(
    rows: Seq<Entry>,
    root: Seq<u8>,
    ignore: Ignore,
    listing: Seq<(Seq<u8>, Option<Metadata>)>,
    tick: u64,
    i: int,
)
    requires
        distinct(rows),
        0 <= i < listing.len(),
        !ignored(ignore.dirs(), ignore.names(), listing[i].0),
        listing[i].1 is Some,
    ensures
        ({
            let after = crawled(rows, root, ignore, listing, tick);
            let at = place(after, relative(root, listing[i].0));
            &&& distinct(after)
            &&& at is Some
            &&& after[at->0].exists
            &&& after[at->0].ctick == tick
        }),
    decreases listing.len(),
{
    let front = listing.drop_last();
    let before = crawled(rows, root, ignore, front, tick);
    let after = crawled(rows, root, ignore, listing, tick);
    let (path, meta) = listing.last();
    let name = relative(root, listing[i].0);
    lemma_crawl_distinct(rows, root, ignore, front, tick);
    let skipped = ignored(ignore.dirs(), ignore.names(), path) || meta is None;
    if i < front.len() {
        assert(front[i] == listing[i]);
        law_crawl_enters(rows, root, ignore, front, tick, i);
        if !skipped {
            let other = relative(root, path);
            lemma_changed(before, other, meta, tick);
            lemma_place(before, name);
            lemma_place(after, name);
            let k = place(before, name)->0;
            let m = place(after, name);
            lemma_place(before, other);
            let n = place(after, other)->0;
            assert(after == changed(before, other, meta, tick));
            if k != n {
                assert(after[k] == before[k]);
            }
            assert(after[k].name == name);
            if m is Some {
                if m->0 < k {
                    assert(after[m->0].name != after[k].name);
                } else if k < m->0 {
                    assert(after[k].name != after[m->0].name);
                }
            }
        }
    } else {
        lemma_changed(before, name, meta, tick);
    }
}

/// A crawl keeps names unique.
proof fn lemma_crawl_distinct(
    rows: Seq<Entry>,
    root: Seq<u8>,
    ignore: Ignore,
    listing: Seq<(Seq<u8>, Option<Metadata>)>,
    tick: u64,
)
    requires
        distinct(rows),
    ensures
        distinct(crawled(rows, root, ignore, listing, tick)),
    decreases listing.len(),
{
    if listing.len() > 0 {
        let front = listing.drop_last();
        lemma_crawl_distinct(rows, root, ignore, front, tick);
        let (path, meta) = listing.last();
        if meta is Some {
            lemma_changed(
                crawled(rows, root, ignore, front, tick),
                relative(root, path),
                meta,
                tick,
            );
        }
    }
}

/// Where every path of a listing is ignored, a crawl of it enters nothing and
/// finds no directory.
pub proof fn law_crawl_passes_over_ignored(
    rows: Seq<Entry>,
    root: Seq<u8>,
    ignore: Ignore,
    listing: Seq<(Seq<u8>, Option<Metadata>)>,
    tick: u64,
)
    requires
        forall|i: int|
            0 <= i < listing.len() ==> ignored(
                ignore.dirs(),
                ignore.names(),
                (#[trigger] listing[i]).0,
            ),
    ensures
        crawled(rows, root, ignore, listing, tick) == rows,
        subdirs(ignore, listing) == Seq::<Seq<u8>>::empty(),
    decreases listing.len(),
{
    if listing.len() > 0 {
        let front = listing.drop_last();
        assert forall|i: int| 0 <= i < front.len() implies ignored(
            ignore.dirs(),
            ignore.names(),
            (#[trigger] front[i]).0,
        ) by {
            assert(front[i] == listing[i]);
        }
        law_crawl_passes_over_ignored(rows, root, ignore, front, tick);
        assert(listing.last() == listing[listing.len() - 1]);
    }
}

/// What a crawl comes to, given what each directory lists, if it can be listed:
/// the files, and the directories found. `None` where so many steps are not
/// enough.
pub open spec fn crawl_run(
    rows: Seq<Entry>,
    root: Seq<u8>,
    ignore: Ignore,
    disk: spec_fn(Seq<u8>) -> Option<Seq<(Seq<u8>, Option<Metadata>)>>,
    dirs: Seq<Seq<u8>>,
    stack: Seq<Seq<u8>>,
    tick: u64,
    steps: nat,
) -> Option<(Seq<Entry>, Seq<Seq<u8>>)>
    decreases steps,
{
    if stack.len() == 0 {
        Some((rows, dirs))
    } else if steps == 0 {
        None
    } else {
        match disk(stack.last()) {
            None => crawl_run(
                rows,
                root,
                ignore,
                disk,
                dirs,
                stack.drop_last(),
                tick,
                (steps - 1) as nat,
            ),
            Some(listing) => crawl_run(
                crawled(rows, root, ignore, listing, tick),
                root,
                ignore,
                disk,
                dirs + subdirs(ignore, listing),
                stack.drop_last() + subdirs(ignore, listing),
                tick,
                (steps - 1) as nat,
            ),
        }
    }
}

/// Whether a file is known to exist as of a tick.
pub open spec fn present(rows: Seq<Entry>, name: Seq<char>, tick: u64) -> bool {
    match place(rows, name) {
        Some(k) => rows[k].exists && rows[k].ctick == tick,
        None => false,
    }
}

/// Whether a listing was gone through: what it lists and is not ignored is known,
/// and the directories among it are found.
pub open spec fn gone_through(
    rows: Seq<Entry>,
    root: Seq<u8>,
    ignore: Ignore,
    dirs: Seq<Seq<u8>>,
    listing: Seq<(Seq<u8>, Option<Metadata>)>,
    tick: u64,
) -> bool {
    forall|i: int|
        0 <= i < listing.len() && (#[trigger] listing[i]).1 is Some && !ignored(
            ignore.dirs(),
            ignore.names(),
            listing[i].0,
        ) ==> present(rows, relative(root, listing[i].0), tick) && (listing[i].1->0.is_dir
            ==> dirs.contains(listing[i].0))
}

/// A file that is known as of a tick stays so when others are entered at that
/// tick.
proof fn lemma_present_kept(
    rows: Seq<Entry>,
    name: Seq<char>,
    other: Seq<char>,
    meta: Metadata,
    tick: u64,
)
    requires
        distinct(rows),
        present(rows, name, tick),
    ensures
        present(upserted(rows, other, meta, tick), name, tick),
{
    let after = upserted(rows, other, meta, tick);
    assert(after == changed(rows, other, Some(meta), tick));
    lemma_changed(rows, other, Some(meta), tick);
    lemma_place(rows, name);
    lemma_place(rows, other);
    lemma_place(after, name);
    let k = place(rows, name)->0;
    let n = place(after, other)->0;
    if k != n {
        assert(after[k] == rows[k]);
    }
    assert(after[k].name == name);
    let m = place(after, name)->0;
    if m < k {
        assert(after[m].name != after[k].name);
    } else if k < m {
        assert(after[k].name != after[m].name);
    }
}

/// A file that is known as of a tick stays so when a listing is gone through at
/// that tick.
proof fn lemma_present_crawled(
    rows: Seq<Entry>,
    root: Seq<u8>,
    ignore: Ignore,
    listing: Seq<(Seq<u8>, Option<Metadata>)>,
    tick: u64,
    name: Seq<char>,
)
    requires
        distinct(rows),
        present(rows, name, tick),
    ensures
        present(crawled(rows, root, ignore, listing, tick), name, tick),
    decreases listing.len(),
{
    if listing.len() > 0 {
        let front = listing.drop_last();
        let (path, meta) = listing.last();
        lemma_present_crawled(rows, root, ignore, front, tick, name);
        lemma_crawl_distinct(rows, root, ignore, front, tick);
        if meta is Some {
            lemma_present_kept(
                crawled(rows, root, ignore, front, tick),
                name,
                relative(root, path),
                meta->0,
                tick,
            );
        }
    }
}

/// The directories of a listing are found.
proof fn lemma_subdirs(
    ignore: Ignore,
    listing: Seq<(Seq<u8>, Option<Metadata>)>,
    i: int,
)
    requires
        0 <= i < listing.len(),
        listing[i].1 is Some,
        listing[i].1->0.is_dir,
        !ignored(ignore.dirs(), ignore.names(), listing[i].0),
    ensures
        subdirs(ignore, listing).contains(listing[i].0),
    decreases listing.len(),
{
    let front = listing.drop_last();
    let all = subdirs(ignore, listing);
    if i < front.len() {
        assert(front[i] == listing[i]);
        lemma_subdirs(ignore, front, i);
        let found = subdirs(ignore, front);
        let k = choose|k: int| 0 <= k < found.len() && found[k] == listing[i].0;
        assert(all[k] == found[k]);
    } else {
        assert(all[all.len() - 1] == listing[i].0);
    }
}

/// Where each directory found so far is either still to be listed or was gone
/// through, each is gone through in the end.
proof fn lemma_crawl_run(
    rows: Seq<Entry>,
    root: Seq<u8>,
    ignore: Ignore,
    disk: spec_fn(Seq<u8>) -> Option<Seq<(Seq<u8>, Option<Metadata>)>>,
    dirs: Seq<Seq<u8>>,
    stack: Seq<Seq<u8>>,
    tick: u64,
    steps: nat,
)
    requires
        distinct(rows),
        crawl_run(rows, root, ignore, disk, dirs, stack, tick, steps) is Some,
        forall|k: int|
            0 <= k < dirs.len() ==> stack.contains(#[trigger] dirs[k]) || disk(dirs[k]) is None
                || gone_through(rows, root, ignore, dirs, disk(dirs[k])->0, tick),
    ensures
        ({
            let (after, found) = crawl_run(
                rows,
                root,
                ignore,
                disk,
                dirs,
                stack,
                tick,
                steps,
            )->0;
            &&& distinct(after)
            &&& forall|k: int|
                0 <= k < found.len() ==> disk(#[trigger] found[k]) is None || gone_through(
                    after,
                    root,
                    ignore,
                    found,
                    disk(found[k])->0,
                    tick,
                )
        }),
    decreases steps,
{
    if stack.len() > 0 {
        let dir = stack.last();
        let rest = stack.drop_last();
        match disk(dir) {
            None => {
                assert forall|k: int| 0 <= k < dirs.len() implies rest.contains(#[trigger] dirs[k])
                    || disk(dirs[k]) is None || gone_through(
                    rows,
                    root,
                    ignore,
                    dirs,
                    disk(dirs[k])->0,
                    tick,
                ) by {
                    lemma_popped(stack, dirs[k]);
                }
                lemma_crawl_run(rows, root, ignore, disk, dirs, rest, tick, (steps - 1) as nat);
            },
            Some(listing) => {
                let more = subdirs(ignore, listing);
                let found = dirs + more;
                let left = rest + more;
                let after = crawled(rows, root, ignore, listing, tick);
                lemma_crawl_distinct(rows, root, ignore, listing, tick);
                lemma_gone_through_now(rows, root, ignore, dirs, listing, tick);
                assert forall|k: int| 0 <= k < found.len() implies left.contains(
                    #[trigger] found[k],
                ) || disk(found[k]) is None || gone_through(
                    after,
                    root,
                    ignore,
                    found,
                    disk(found[k])->0,
                    tick,
                ) by {
                    if k < dirs.len() {
                        assert(found[k] == dirs[k]);
                        if stack.contains(dirs[k]) {
                            lemma_popped(stack, dirs[k]);
                            if rest.contains(dirs[k]) {
                                let j = choose|j: int| 0 <= j < rest.len() && rest[j] == dirs[k];
                                assert(left[j] == dirs[k]);
                            }
                        } else if disk(dirs[k]) is Some {
                            lemma_gone_through_kept(
                                rows,
                                root,
                                ignore,
                                dirs,
                                disk(dirs[k])->0,
                                listing,
                                tick,
                            );
                        }
                    } else {
                        assert(left[rest.len() + (k - dirs.len())] == found[k]);
                    }
                }
                lemma_crawl_run(after, root, ignore, disk, found, left, tick, (steps - 1) as nat);
            },
        }
    }
}

/// What is on a stack is its last element or below it.
proof fn lemma_popped(stack: Seq<Seq<u8>>, dir: Seq<u8>)
    requires
        stack.len() > 0,
    ensures
        stack.contains(dir) ==> dir == stack.last() || stack.drop_last().contains(dir),
{
    if stack.contains(dir) {
        let j = choose|j: int| 0 <= j < stack.len() && stack[j] == dir;
        if j < stack.len() - 1 {
            assert(stack.drop_last()[j] == dir);
        }
    }
}

/// A listing that a crawl has just dealt with was gone through.
proof fn lemma_gone_through_now(
    rows: Seq<Entry>,
    root: Seq<u8>,
    ignore: Ignore,
    dirs: Seq<Seq<u8>>,
    listing: Seq<(Seq<u8>, Option<Metadata>)>,
    tick: u64,
)
    requires
        distinct(rows),
    ensures
        gone_through(
            crawled(rows, root, ignore, listing, tick),
            root,
            ignore,
            dirs + subdirs(ignore, listing),
            listing,
            tick,
        ),
{
    let after = crawled(rows, root, ignore, listing, tick);
    let more = subdirs(ignore, listing);
    let found = dirs + more;
    assert forall|i: int|
        0 <= i < listing.len() && (#[trigger] listing[i]).1 is Some && !ignored(
            ignore.dirs(),
            ignore.names(),
            listing[i].0,
        ) implies present(after, relative(root, listing[i].0), tick) && (listing[i].1->0.is_dir
        ==> found.contains(listing[i].0)) by {
        law_crawl_enters(rows, root, ignore, listing, tick, i);
        if listing[i].1->0.is_dir {
            lemma_subdirs(ignore, listing, i);
            let k = choose|k: int| 0 <= k < more.len() && more[k] == listing[i].0;
            assert(found[dirs.len() + k] == listing[i].0);
        }
    }
}

/// A listing that was gone through stays so when another one is dealt with.
proof fn lemma_gone_through_kept(
    rows: Seq<Entry>,
    root: Seq<u8>,
    ignore: Ignore,
    dirs: Seq<Seq<u8>>,
    listing: Seq<(Seq<u8>, Option<Metadata>)>,
    other: Seq<(Seq<u8>, Option<Metadata>)>,
    tick: u64,
)
    requires
        distinct(rows),
        gone_through(rows, root, ignore, dirs, listing, tick),
    ensures
        gone_through(
            crawled(rows, root, ignore, other, tick),
            root,
            ignore,
            dirs + subdirs(ignore, other),
            listing,
            tick,
        ),
{
    let after = crawled(rows, root, ignore, other, tick);
    let found = dirs + subdirs(ignore, other);
    assert forall|i: int|
        0 <= i < listing.len() && (#[trigger] listing[i]).1 is Some && !ignored(
            ignore.dirs(),
            ignore.names(),
            listing[i].0,
        ) implies present(after, relative(root, listing[i].0), tick) && (listing[i].1->0.is_dir
        ==> found.contains(listing[i].0)) by {
        lemma_present_crawled(rows, root, ignore, other, tick, relative(root, listing[i].0));
        if listing[i].1->0.is_dir {
            let k = choose|k: int| 0 <= k < dirs.len() && dirs[k] == listing[i].0;
            assert(found[k] == listing[i].0);
        }
    }
}

/// Whether a listing holds a directory that is not ignored.
pub open spec fn lists_dir(
    ignore: Ignore,
    listing: Seq<(Seq<u8>, Option<Metadata>)>,
    dir: Seq<u8>,
) -> bool {
    exists|i: int|
        0 <= i < listing.len() && (#[trigger] listing[i]).0 == dir && listing[i].1 is Some
            && listing[i].1->0.is_dir && !ignored(ignore.dirs(), ignore.names(), dir)
}

/// Whether a listing holds a path that is not ignored, and a file's entry is what
/// the listing says of it.
pub open spec fn lists_file(
    root: Seq<u8>,
    ignore: Ignore,
    listing: Seq<(Seq<u8>, Option<Metadata>)>,
    row: Entry,
    tick: u64,
) -> bool {
    exists|i: int|
        0 <= i < listing.len() && (#[trigger] listing[i]).1 is Some && !ignored(
            ignore.dirs(),
            ignore.names(),
            listing[i].0,
        ) && row == seen_entry(
            relative(root, listing[i].0),
            listing[i].1->0,
            tick,
            row.first_tick,
        )
}

/// Whether one of some directories lists a directory that is not ignored.
pub open spec fn dir_below(
    ignore: Ignore,
    disk: spec_fn(Seq<u8>) -> Option<Seq<(Seq<u8>, Option<Metadata>)>>,
    dirs: Seq<Seq<u8>>,
    dir: Seq<u8>,
) -> bool {
    exists|j: int|
        0 <= j < dirs.len() && disk(#[trigger] dirs[j]) is Some && lists_dir(
            ignore,
            disk(dirs[j])->0,
            dir,
        )
}

/// Whether a file's entry is what one of some directories lists of a path that is
/// not ignored.
pub open spec fn file_below(
    root: Seq<u8>,
    ignore: Ignore,
    disk: spec_fn(Seq<u8>) -> Option<Seq<(Seq<u8>, Option<Metadata>)>>,
    dirs: Seq<Seq<u8>>,
    row: Entry,
    tick: u64,
) -> bool {
    exists|j: int|
        0 <= j < dirs.len() && disk(#[trigger] dirs[j]) is Some && lists_file(
            root,
            ignore,
            disk(dirs[j])->0,
            row,
            tick,
        )
}

/// The first tick of a file that is seen at a tick, by its place among the files.
pub open spec fn first_seen(rows: Seq<Entry>, k: int, tick: u64) -> u64 {
    if k < rows.len() && rows[k].ever_seen {
        rows[k].first_tick
    } else {
        tick
    }
}

/// Whether files grew out of others by what some directories list: none is
/// dropped or renamed, and each entry that is new or not as before is what one of
/// the directories lists of a path that is not ignored, with the first tick that
/// it has from before.
pub open spec fn grown(
    rows: Seq<Entry>,
    after: Seq<Entry>,
    root: Seq<u8>,
    ignore: Ignore,
    disk: spec_fn(Seq<u8>) -> Option<Seq<(Seq<u8>, Option<Metadata>)>>,
    dirs: Seq<Seq<u8>>,
    tick: u64,
) -> bool {
    &&& rows.len() <= after.len()
    &&& forall|k: int| 0 <= k < rows.len() ==> (#[trigger] after[k]).name == rows[k].name
    &&& forall|k: int|
        0 <= k < after.len() ==> (k < rows.len() && (#[trigger] after[k]) == rows[k]) || (
        after[k].first_tick == first_seen(rows, k, tick) && file_below(
            root,
            ignore,
            disk,
            dirs,
            after[k],
            tick,
        ))
}

/// Whether the first of some directories is the root, and each other one is
/// listed by one before it and not ignored.
pub open spec fn reached(
    root: Seq<u8>,
    ignore: Ignore,
    disk: spec_fn(Seq<u8>) -> Option<Seq<(Seq<u8>, Option<Metadata>)>>,
    dirs: Seq<Seq<u8>>,
) -> bool {
    &&& dirs.len() > 0
    &&& dirs[0] == root
    &&& forall|k: int|
        1 <= k < dirs.len() ==> dir_below(ignore, disk, dirs.take(k), #[trigger] dirs[k])
}

/// A listed path that is entered makes the files grow.
proof fn lemma_grown_step(
    rows: Seq<Entry>,
    mid: Seq<Entry>,
    root: Seq<u8>,
    ignore: Ignore,
    disk: spec_fn(Seq<u8>) -> Option<Seq<(Seq<u8>, Option<Metadata>)>>,
    dirs: Seq<Seq<u8>>,
    tick: u64,
    j: int,
    i: int,
)
    requires
        grown(rows, mid, root, ignore, disk, dirs, tick),
        0 <= j < dirs.len(),
        disk(dirs[j]) is Some,
        0 <= i < (disk(dirs[j])->0).len(),
        (disk(dirs[j])->0)[i].1 is Some,
        !ignored(ignore.dirs(), ignore.names(), (disk(dirs[j])->0)[i].0),
    ensures
        grown(
            rows,
            upserted(
                mid,
                relative(root, (disk(dirs[j])->0)[i].0),
                (disk(dirs[j])->0)[i].1->0,
                tick,
            ),
            root,
            ignore,
            disk,
            dirs,
            tick,
        ),
{
    let listing = disk(dirs[j])->0;
    let name = relative(root, listing[i].0);
    let after = upserted(mid, name, listing[i].1->0, tick);
    lemma_place(mid, name);
    let n = match place(mid, name) {
        Some(k) => k,
        None => mid.len() as int,
    };
    assert(lists_file(root, ignore, listing, after[n], tick)) by {
        assert(listing[i].1 is Some);
    }
    assert(file_below(root, ignore, disk, dirs, after[n], tick));
    assert(after[n].first_tick == first_seen(rows, n, tick)) by {
        if n < mid.len() {
            assert(mid[n] == mid[n]);
        }
    }
    assert forall|k: int| 0 <= k < after.len() implies (k < rows.len() && (#[trigger] after[k])
        == rows[k]) || (after[k].first_tick == first_seen(rows, k, tick) && file_below(
        root,
        ignore,
        disk,
        dirs,
        after[k],
        tick,
    )) by {
        if k != n {
            assert(after[k] == mid[k]);
        }
    }
    assert forall|k: int| 0 <= k < rows.len() implies (#[trigger] after[k]).name
        == rows[k].name by {
        assert(mid[k].name == rows[k].name);
    }
}

/// A listing that is gone through makes the files grow.
proof fn lemma_grown_crawled(
    rows: Seq<Entry>,
    mid: Seq<Entry>,
    root: Seq<u8>,
    ignore: Ignore,
    disk: spec_fn(Seq<u8>) -> Option<Seq<(Seq<u8>, Option<Metadata>)>>,
    dirs: Seq<Seq<u8>>,
    tick: u64,
    j: int,
    n: int,
)
    requires
        grown(rows, mid, root, ignore, disk, dirs, tick),
        0 <= j < dirs.len(),
        disk(dirs[j]) is Some,
        0 <= n <= (disk(dirs[j])->0).len(),
    ensures
        grown(
            rows,
            crawled(mid, root, ignore, (disk(dirs[j])->0).take(n), tick),
            root,
            ignore,
            disk,
            dirs,
            tick,
        ),
    decreases n,
{
    let listing = disk(dirs[j])->0;
    if n > 0 {
        assert(listing.take(n).drop_last() =~= listing.take(n - 1));
        assert(listing.take(n).last() == listing[n - 1]);
        lemma_grown_crawled(rows, mid, root, ignore, disk, dirs, tick, j, n - 1);
        if !ignored(ignore.dirs(), ignore.names(), listing[n - 1].0) && listing[n - 1].1 is Some {
            lemma_grown_step(
                rows,
                crawled(mid, root, ignore, listing.take(n - 1), tick),
                root,
                ignore,
                disk,
                dirs,
                tick,
                j,
                n - 1,
            );
        }
    }
}

/// Files that grew out of others by what some directories list did so by what
/// more directories list.
proof fn lemma_grown_more(
    rows: Seq<Entry>,
    after: Seq<Entry>,
    root: Seq<u8>,
    ignore: Ignore,
    disk: spec_fn(Seq<u8>) -> Option<Seq<(Seq<u8>, Option<Metadata>)>>,
    dirs: Seq<Seq<u8>>,
    more: Seq<Seq<u8>>,
    tick: u64,
)
    requires
        grown(rows, after, root, ignore, disk, dirs, tick),
    ensures
        grown(rows, after, root, ignore, disk, dirs + more, tick),
{
    let all = dirs + more;
    assert forall|k: int| 0 <= k < after.len() implies (k < rows.len() && (#[trigger] after[k])
        == rows[k]) || (after[k].first_tick == first_seen(rows, k, tick) && file_below(
        root,
        ignore,
        disk,
        all,
        after[k],
        tick,
    )) by {
        if !(k < rows.len() && after[k] == rows[k]) {
            let j = choose|j: int|
                0 <= j < dirs.len() && disk(#[trigger] dirs[j]) is Some && lists_file(
                    root,
                    ignore,
                    disk(dirs[j])->0,
                    after[k],
                    tick,
                );
            assert(all[j] == dirs[j]);
        }
    }
}

/// What is found in a listing is listed and not ignored.
proof fn lemma_subdirs_listed(
    ignore: Ignore,
    listing: Seq<(Seq<u8>, Option<Metadata>)>,
    n: int,
    k: int,
)
    requires
        0 <= n <= listing.len(),
        0 <= k < subdirs(ignore, listing.take(n)).len(),
    ensures
        lists_dir(ignore, listing, subdirs(ignore, listing.take(n))[k]),
    decreases n,
{
    if n > 0 {
        assert(listing.take(n).drop_last() =~= listing.take(n - 1));
        assert(listing.take(n).last() == listing[n - 1]);
        if k < subdirs(ignore, listing.take(n - 1)).len() {
            lemma_subdirs_listed(ignore, listing, n - 1, k);
        } else {
            assert(listing[n - 1].0 == subdirs(ignore, listing.take(n))[k]);
        }
    }
}

/// The directories of a listing are reached, if the one that lists them is.
proof fn lemma_reached_more(
    root: Seq<u8>,
    ignore: Ignore,
    disk: spec_fn(Seq<u8>) -> Option<Seq<(Seq<u8>, Option<Metadata>)>>,
    dirs: Seq<Seq<u8>>,
    j: int,
)
    requires
        reached(root, ignore, disk, dirs),
        0 <= j < dirs.len(),
        disk(dirs[j]) is Some,
    ensures
        reached(root, ignore, disk, dirs + subdirs(ignore, disk(dirs[j])->0)),
{
    let listing = disk(dirs[j])->0;
    let more = subdirs(ignore, listing);
    let all = dirs + more;
    assert(listing.take(listing.len() as int) =~= listing);
    assert forall|k: int| 1 <= k < all.len() implies dir_below(
        ignore,
        disk,
        all.take(k),
        #[trigger] all[k],
    ) by {
        if k < dirs.len() {
            assert(all.take(k) =~= dirs.take(k));
            assert(all[k] == dirs[k]);
        } else {
            lemma_subdirs_listed(ignore, listing, listing.len() as int, k - dirs.len());
            assert(all.take(k)[j] == dirs[j]);
        }
    }
}

/// A crawl reaches all that it finds, and the files grow by what it finds.
proof fn lemma_crawl_grows(
    start: Seq<Entry>,
    rows: Seq<Entry>,
    root: Seq<u8>,
    ignore: Ignore,
    disk: spec_fn(Seq<u8>) -> Option<Seq<(Seq<u8>, Option<Metadata>)>>,
    dirs: Seq<Seq<u8>>,
    stack: Seq<Seq<u8>>,
    tick: u64,
    steps: nat,
)
    requires
        crawl_run(rows, root, ignore, disk, dirs, stack, tick, steps) is Some,
        grown(start, rows, root, ignore, disk, dirs, tick),
        reached(root, ignore, disk, dirs),
        forall|k: int| 0 <= k < stack.len() ==> dirs.contains(#[trigger] stack[k]),
    ensures
        ({
            let (after, found) = crawl_run(
                rows,
                root,
                ignore,
                disk,
                dirs,
                stack,
                tick,
                steps,
            )->0;
            &&& grown(start, after, root, ignore, disk, found, tick)
            &&& reached(root, ignore, disk, found)
        }),
    decreases steps,
{
    if stack.len() > 0 {
        let rest = stack.drop_last();
        let dir = stack.last();
        assert(dirs.contains(stack[stack.len() - 1]));
        assert forall|k: int| 0 <= k < rest.len() implies dirs.contains(#[trigger] rest[k]) by {
            assert(rest[k] == stack[k]);
        }
        match disk(dir) {
            None => {
                lemma_crawl_grows(
                    start,
                    rows,
                    root,
                    ignore,
                    disk,
                    dirs,
                    rest,
                    tick,
                    (steps - 1) as nat,
                );
            },
            Some(listing) => {
                let j = choose|j: int| 0 <= j < dirs.len() && dirs[j] == dir;
                let more = subdirs(ignore, listing);
                let left = rest + more;
                let all = dirs + more;
                assert(listing.take(listing.len() as int) =~= listing);
                lemma_grown_crawled(
                    start,
                    rows,
                    root,
                    ignore,
                    disk,
                    dirs,
                    tick,
                    j,
                    listing.len() as int,
                );
                let after = crawled(rows, root, ignore, listing, tick);
                lemma_grown_more(start, after, root, ignore, disk, dirs, more, tick);
                lemma_reached_more(root, ignore, disk, dirs, j);
                assert forall|k: int| 0 <= k < left.len() implies all.contains(
                    #[trigger] left[k],
                ) by {
                    if k < rest.len() {
                        assert(left[k] == rest[k]);
                        let m = choose|m: int| 0 <= m < dirs.len() && dirs[m] == rest[k];
                        assert(all[m] == left[k]);
                    } else {
                        assert(all[dirs.len() + (k - rest.len())] == left[k]);
                    }
                }
                lemma_crawl_grows(
                    start,
                    after,
                    root,
                    ignore,
                    disk,
                    all,
                    left,
                    tick,
                    (steps - 1) as nat,
                );
            },
        }
    }
}

/// Whether a path is that of a directory and a name in it.
pub open spec fn is_child(dir: Seq<u8>, path: Seq<u8>) -> bool {
    exists|name: Seq<u8>|
        path == #[trigger] joined(dir, name) && is_name(name) && name != seq![0x2eu8, 0x2e]
}

/// Whether every directory lists names in it, and nothing else.
pub open spec fn lists_names(
    disk: spec_fn(Seq<u8>) -> Option<Seq<(Seq<u8>, Option<Metadata>)>>,
) -> bool {
    forall|dir: Seq<u8>, i: int|
        disk(dir) is Some && 0 <= i < (disk(dir)->0).len() ==> is_child(
            dir,
            (#[trigger] (disk(dir)->0)[i]).0,
        )
}

/// Whether no directory lists anything twice.
pub open spec fn lists_once(
    disk: spec_fn(Seq<u8>) -> Option<Seq<(Seq<u8>, Option<Metadata>)>>,
) -> bool {
    forall|dir: Seq<u8>, i: int, j: int|
        disk(dir) is Some && 0 <= i < j < (disk(dir)->0).len() ==> (#[trigger] (disk(
            dir,
        )->0)[i]).0 != (#[trigger] (disk(dir)->0)[j]).0
}

/// Whether no two of some directories have the same components.
pub open spec fn found_once(dirs: Seq<Seq<u8>>) -> bool {
    forall|j: int, k: int|
        0 <= j < k < dirs.len() ==> components(#[trigger] dirs[j]) != components(
            #[trigger] dirs[k],
        )
}

/// Whether no directory is found twice so far, none is to be listed twice, and
/// nothing that lies in one that is still to be listed is found yet.
spec fn apart(dirs: Seq<Seq<u8>>, stack: Seq<Seq<u8>>) -> bool {
    &&& found_once(dirs)
    &&& found_once(stack)
    &&& forall|k: int| 0 <= k < stack.len() ==> dirs.contains(#[trigger] stack[k])
    &&& forall|k: int, d: int|
        0 <= k < stack.len() && 0 <= d < dirs.len() ==> !lies_in(
            #[trigger] stack[k],
            #[trigger] dirs[d],
        )
}

/// Whether a path has the components of a directory and one more.
#[verifier::opaque]
spec fn lies_in(dir: Seq<u8>, path: Seq<u8>) -> bool {
    components(path).len() > 0 && components(path).drop_last() == components(dir)
}

/// A path lies in one directory at most, and has one more component than that.
proof fn lemma_lies_in(dir: Seq<u8>, other: Seq<u8>, path: Seq<u8>)
    requires
        lies_in(dir, path),
    ensures
        components(path).len() == components(dir).len() + 1,
        lies_in(other, path) <==> components(other) == components(dir),
{
    reveal(lies_in);
}

/// A name in a directory lies in it.
proof fn lemma_child_lies_in(dir: Seq<u8>, path: Seq<u8>)
    requires
        is_child(dir, path),
    ensures
        lies_in(dir, path),
        components(path).len() == components(dir).len() + 1,
{
    let name = choose|name: Seq<u8>|
        path == #[trigger] joined(dir, name) && is_name(name) && name != seq![0x2eu8, 0x2e];
    law_joined_name(dir, name);
    reveal(lies_in);
    assert(components(path).drop_last() =~= components(dir));
}

/// Two names in a directory that differ have different components.
proof fn lemma_children_apart(dir: Seq<u8>, p: Seq<u8>, q: Seq<u8>)
    requires
        is_child(dir, p),
        is_child(dir, q),
        p != q,
    ensures
        components(p) != components(q),
{
    let a = choose|name: Seq<u8>|
        p == #[trigger] joined(dir, name) && is_name(name) && name != seq![0x2eu8, 0x2e];
    let b = choose|name: Seq<u8>|
        q == #[trigger] joined(dir, name) && is_name(name) && name != seq![0x2eu8, 0x2e];
    law_joined_name(dir, a);
    law_joined_name(dir, b);
    assert(components(p).last() == a);
    assert(components(q).last() == b);
}

/// What is found in a listing stands in it.
proof fn lemma_subdirs_from(ignore: Ignore, listing: Seq<(Seq<u8>, Option<Metadata>)>, k: int)
    requires
        0 <= k < subdirs(ignore, listing).len(),
    ensures
        exists|i: int|
            0 <= i < listing.len() && (#[trigger] listing[i]).0 == subdirs(ignore, listing)[k],
    decreases listing.len(),
{
    if listing.len() > 0 {
        let front = listing.drop_last();
        if k < subdirs(ignore, front).len() {
            lemma_subdirs_from(ignore, front, k);
            let i = choose|i: int|
                0 <= i < front.len() && (#[trigger] front[i]).0 == subdirs(ignore, front)[k];
            assert(listing[i] == front[i]);
        } else {
            assert(listing[listing.len() - 1].0 == subdirs(ignore, listing)[k]);
        }
    }
}

/// What a listing does not repeat is not found in it twice.
proof fn lemma_subdirs_once(
    ignore: Ignore,
    listing: Seq<(Seq<u8>, Option<Metadata>)>,
    a: int,
    b: int,
)
    requires
        forall|i: int, j: int|
            0 <= i < j < listing.len() ==> (#[trigger] listing[i]).0 != (#[trigger] listing[j]).0,
        0 <= a < b < subdirs(ignore, listing).len(),
    ensures
        subdirs(ignore, listing)[a] != subdirs(ignore, listing)[b],
    decreases listing.len(),
{
    if listing.len() > 0 {
        let front = listing.drop_last();
        assert forall|i: int, j: int| 0 <= i < j < front.len() implies (#[trigger] front[i]).0 != (
        #[trigger] front[j]).0 by {
            assert(listing[i].0 != listing[j].0);
        }
        if b < subdirs(ignore, front).len() {
            lemma_subdirs_once(ignore, front, a, b);
        } else {
            lemma_subdirs_from(ignore, front, a);
            let i = choose|i: int|
                0 <= i < front.len() && (#[trigger] front[i]).0 == subdirs(ignore, front)[a];
            assert(front[i] == listing[i]);
            assert(listing[i].0 != listing[listing.len() - 1].0);
        }
    }
}

/// What is found in a directory lies in it, and is found there once.
proof fn lemma_found_in(
    ignore: Ignore,
    disk: spec_fn(Seq<u8>) -> Option<Seq<(Seq<u8>, Option<Metadata>)>>,
    dir: Seq<u8>,
)
    requires
        lists_names(disk),
        lists_once(disk),
        disk(dir) is Some,
    ensures
        ({
            let more = subdirs(ignore, disk(dir)->0);
            &&& found_once(more)
            &&& forall|k: int|
                0 <= k < more.len() ==> lies_in(dir, #[trigger] more[k]) && components(
                    more[k],
                ).len() == components(dir).len() + 1
        }),
{
    let listing = disk(dir)->0;
    let more = subdirs(ignore, listing);
    assert forall|k: int| 0 <= k < more.len() implies is_child(dir, #[trigger] more[k]) by {
        lemma_subdirs_from(ignore, listing, k);
        let i = choose|i: int| 0 <= i < listing.len() && (#[trigger] listing[i]).0 == more[k];
        assert(is_child(dir, (disk(dir)->0)[i].0));
    }
    assert forall|k: int| 0 <= k < more.len() implies lies_in(dir, #[trigger] more[k])
        && components(more[k]).len() == components(dir).len() + 1 by {
        assert(is_child(dir, more[k]));
        lemma_child_lies_in(dir, more[k]);
    }
    assert forall|j: int, k: int| 0 <= j < k < more.len() implies components(#[trigger] more[j])
        != components(#[trigger] more[k]) by {
        lemma_subdirs_once(ignore, listing, j, k);
        assert(is_child(dir, more[j]) && is_child(dir, more[k]));
        lemma_children_apart(dir, more[j], more[k]);
    }
}

/// A directory that is reached lies in one that is reached before it, but for the
/// root; and none has fewer components than the root.
proof fn lemma_reached_in(
    root: Seq<u8>,
    ignore: Ignore,
    disk: spec_fn(Seq<u8>) -> Option<Seq<(Seq<u8>, Option<Metadata>)>>,
    dirs: Seq<Seq<u8>>,
    k: int,
)
    requires
        lists_names(disk),
        reached(root, ignore, disk, dirs),
        0 <= k < dirs.len(),
    ensures
        components(root).len() <= components(dirs[k]).len(),
        k > 0 ==> exists|j: int| 0 <= j < k && lies_in(#[trigger] dirs[j], dirs[k]),
    decreases k,
{
    if k > 0 {
        let before = dirs.take(k);
        let j = choose|j: int|
            0 <= j < before.len() && disk(#[trigger] before[j]) is Some && lists_dir(
                ignore,
                disk(before[j])->0,
                dirs[k],
            );
        assert(before[j] == dirs[j]);
        let listing = disk(dirs[j])->0;
        let i = choose|i: int|
            0 <= i < listing.len() && (#[trigger] listing[i]).0 == dirs[k] && listing[i].1 is Some
                && listing[i].1->0.is_dir && !ignored(ignore.dirs(), ignore.names(), dirs[k]);
        assert(is_child(dirs[j], (disk(dirs[j])->0)[i].0));
        lemma_child_lies_in(dirs[j], dirs[k]);
        lemma_reached_in(root, ignore, disk, dirs, j);
    }
}

/// What is found in a directory that was to be listed is found for the first time.
proof fn lemma_new_dirs(
    root: Seq<u8>,
    ignore: Ignore,
    disk: spec_fn(Seq<u8>) -> Option<Seq<(Seq<u8>, Option<Metadata>)>>,
    dirs: Seq<Seq<u8>>,
    stack: Seq<Seq<u8>>,
)
    requires
        lists_names(disk),
        lists_once(disk),
        reached(root, ignore, disk, dirs),
        apart(dirs, stack),
        stack.len() > 0,
        disk(stack.last()) is Some,
    ensures
        found_once(dirs + subdirs(ignore, disk(stack.last())->0)),
        ({
            let more = subdirs(ignore, disk(stack.last())->0);
            forall|m: int, d: int|
                0 <= m < more.len() && 0 <= d < dirs.len() ==> components(#[trigger] more[m])
                    != components(#[trigger] dirs[d]) && !lies_in(more[m], dirs[d])
        }),
{
    let dir = stack.last();
    let top = stack.len() - 1;
    assert(stack[top] == dir);
    let more = subdirs(ignore, disk(dir)->0);
    let all = dirs + more;
    lemma_found_in(ignore, disk, dir);
    assert forall|m: int, d: int| 0 <= m < more.len() && 0 <= d < dirs.len() implies components(
        #[trigger] more[m],
    ) != components(#[trigger] dirs[d]) by {
        assert(lies_in(dir, more[m]));
        assert(!lies_in(stack[top], dirs[d]));
        if components(more[m]) == components(dirs[d]) {
            reveal(lies_in);
        }
    }
    assert forall|m: int, d: int| 0 <= m < more.len() && 0 <= d < dirs.len() implies !lies_in(
        #[trigger] more[m],
        #[trigger] dirs[d],
    ) by {
        if lies_in(more[m], dirs[d]) {
            lemma_reached_in(root, ignore, disk, dirs, d);
            assert(dirs.contains(stack[top]));
            let at = choose|at: int| 0 <= at < dirs.len() && dirs[at] == dir;
            lemma_reached_in(root, ignore, disk, dirs, at);
            assert(lies_in(dir, more[m]));
            if d > 0 {
                let j = choose|j: int| 0 <= j < d && lies_in(#[trigger] dirs[j], dirs[d]);
                lemma_lies_in(dirs[j], more[m], dirs[d]);
                assert(components(more[m]) != components(dirs[j]));
            } else {
                lemma_lies_in(more[m], more[m], dirs[d]);
            }
        }
    }
    assert forall|j: int, k: int| 0 <= j < k < all.len() implies components(#[trigger] all[j])
        != components(#[trigger] all[k]) by {
        if k < dirs.len() {
            assert(all[j] == dirs[j] && all[k] == dirs[k]);
        } else if j < dirs.len() {
            assert(all[j] == dirs[j] && all[k] == more[k - dirs.len()]);
        } else {
            assert(all[j] == more[j - dirs.len()] && all[k] == more[k - dirs.len()]);
        }
    }
}

/// What is still to be listed is not to be listed twice, once one more directory is
/// gone through.
proof fn lemma_stack_apart(dirs: Seq<Seq<u8>>, stack: Seq<Seq<u8>>, more: Seq<Seq<u8>>)
    requires
        found_once(stack),
        found_once(more),
        forall|k: int| 0 <= k < stack.len() ==> dirs.contains(#[trigger] stack[k]),
        forall|m: int, d: int|
            0 <= m < more.len() && 0 <= d < dirs.len() ==> components(#[trigger] more[m])
                != components(#[trigger] dirs[d]),
        stack.len() > 0,
    ensures
        found_once(stack.drop_last() + more),
        forall|k: int|
            0 <= k < (stack.drop_last() + more).len() ==> (dirs + more).contains(
                #[trigger] (stack.drop_last() + more)[k],
            ),
{
    let rest = stack.drop_last();
    let all = dirs + more;
    let left = rest + more;
    assert forall|k: int| 0 <= k < left.len() implies all.contains(#[trigger] left[k]) by {
        if k < rest.len() {
            assert(left[k] == stack[k]);
            let m = choose|m: int| 0 <= m < dirs.len() && dirs[m] == stack[k];
            assert(all[m] == left[k]);
        } else {
            assert(all[dirs.len() + (k - rest.len())] == left[k]);
        }
    }
    assert forall|j: int, k: int| 0 <= j < k < left.len() implies components(#[trigger] left[j])
        != components(#[trigger] left[k]) by {
        if k < rest.len() {
            assert(left[j] == stack[j] && left[k] == stack[k]);
        } else if j < rest.len() {
            assert(left[j] == stack[j] && left[k] == more[k - rest.len()]);
            let m = choose|m: int| 0 <= m < dirs.len() && dirs[m] == stack[j];
            assert(components(more[k - rest.len()]) != components(dirs[m]));
        } else {
            assert(left[j] == more[j - rest.len()] && left[k] == more[k - rest.len()]);
        }
    }
}

/// Once one more directory is gone through, nothing that lies in one that is still to
/// be listed is found yet.
proof fn lemma_nothing_below(
    dirs: Seq<Seq<u8>>,
    stack: Seq<Seq<u8>>,
    more: Seq<Seq<u8>>,
    k: int,
    d: int,
)
    requires
        apart(dirs, stack),
        stack.len() > 0,
        forall|m: int| 0 <= m < more.len() ==> lies_in(stack.last(), #[trigger] more[m]),
        forall|m: int, d: int|
            0 <= m < more.len() && 0 <= d < dirs.len() ==> !lies_in(
                #[trigger] more[m],
                #[trigger] dirs[d],
            ),
        0 <= k < (stack.drop_last() + more).len(),
        0 <= d < (dirs + more).len(),
    ensures
        !lies_in((stack.drop_last() + more)[k], (dirs + more)[d]),
{
    let dir = stack.last();
    let top = stack.len() - 1;
    let rest = stack.drop_last();
    if d < dirs.len() {
        assert((dirs + more)[d] == dirs[d]);
        if k < rest.len() {
            assert((rest + more)[k] == stack[k]);
        } else {
            assert((rest + more)[k] == more[k - rest.len()]);
        }
    } else {
        let path = more[d - dirs.len()];
        assert((dirs + more)[d] == path);
        assert(lies_in(dir, path));
        if k < rest.len() {
            assert((rest + more)[k] == stack[k]);
            lemma_lies_in(dir, stack[k], path);
            assert(components(stack[k]) != components(stack[top]));
        } else {
            let other = more[k - rest.len()];
            assert((rest + more)[k] == other);
            assert(lies_in(dir, other));
            lemma_lies_in(dir, other, path);
            lemma_lies_in(dir, dir, other);
        }
    }
}

/// A crawl that goes through one more directory keeps all apart.
proof fn lemma_apart_step(
    root: Seq<u8>,
    ignore: Ignore,
    disk: spec_fn(Seq<u8>) -> Option<Seq<(Seq<u8>, Option<Metadata>)>>,
    dirs: Seq<Seq<u8>>,
    stack: Seq<Seq<u8>>,
)
    requires
        lists_names(disk),
        lists_once(disk),
        reached(root, ignore, disk, dirs),
        apart(dirs, stack),
        stack.len() > 0,
        disk(stack.last()) is Some,
    ensures
        ({
            let more = subdirs(ignore, disk(stack.last())->0);
            apart(dirs + more, stack.drop_last() + more)
        }),
{
    let more = subdirs(ignore, disk(stack.last())->0);
    let all = dirs + more;
    let left = stack.drop_last() + more;
    lemma_found_in(ignore, disk, stack.last());
    lemma_new_dirs(root, ignore, disk, dirs, stack);
    lemma_stack_apart(dirs, stack, more);
    assert forall|k: int, d: int| 0 <= k < left.len() && 0 <= d < all.len() implies !lies_in(
        #[trigger] left[k],
        #[trigger] all[d],
    ) by {
        lemma_nothing_below(dirs, stack, more, k, d);
    }
}

/// A crawl finds no directory twice.
proof fn lemma_crawl_apart(
    rows: Seq<Entry>,
    root: Seq<u8>,
    ignore: Ignore,
    disk: spec_fn(Seq<u8>) -> Option<Seq<(Seq<u8>, Option<Metadata>)>>,
    dirs: Seq<Seq<u8>>,
    stack: Seq<Seq<u8>>,
    tick: u64,
    steps: nat,
)
    requires
        lists_names(disk),
        lists_once(disk),
        reached(root, ignore, disk, dirs),
        apart(dirs, stack),
        crawl_run(rows, root, ignore, disk, dirs, stack, tick, steps) is Some,
    ensures
        found_once((crawl_run(rows, root, ignore, disk, dirs, stack, tick, steps)->0).1),
    decreases steps,
{
    if stack.len() > 0 {
        let dir = stack.last();
        let rest = stack.drop_last();
        match disk(dir) {
            None => {
                assert forall|k: int| 0 <= k < rest.len() implies dirs.contains(
                    #[trigger] rest[k],
                ) by {
                    assert(rest[k] == stack[k]);
                }
                lemma_crawl_apart(rows, root, ignore, disk, dirs, rest, tick, (steps - 1) as nat);
            },
            Some(listing) => {
                let more = subdirs(ignore, listing);
                let at = stack.len() - 1;
                assert(dirs.contains(stack[at]));
                let j = choose|j: int| 0 <= j < dirs.len() && dirs[j] == dir;
                lemma_apart_step(root, ignore, disk, dirs, stack);
                lemma_reached_more(root, ignore, disk, dirs, j);
                lemma_crawl_apart(
                    crawled(rows, root, ignore, listing, tick),
                    root,
                    ignore,
                    disk,
                    dirs + more,
                    rest + more,
                    tick,
                    (steps - 1) as nat,
                );
            },
        }
    }
}

/// A full crawl goes through every directory that it finds, the root first: in the
/// end, all that these directories list and that is not ignored is known to exist
/// as of the crawl's tick, and the directories among it were found too. Nothing
/// else is found: each other directory is listed by one before it and not ignored.
/// Nothing else changes: no file is dropped or renamed, each entry that is not as
/// before is what one of the directories lists of a path that is not ignored, and
/// a file that was ever seen keeps its first tick. Where every directory lists names
/// in it, and no name twice, no directory is found twice, nor the same one under two
/// spellings.
pub proof fn law_full_crawl(
    rows: Seq<Entry>,
    root: Seq<u8>,
    ignore: Ignore,
    disk: spec_fn(Seq<u8>) -> Option<Seq<(Seq<u8>, Option<Metadata>)>>,
    tick: u64,
    steps: nat,
)
    requires
        distinct(rows),
        crawl_run(rows, root, ignore, disk, seq![root], seq![root], tick, steps) is Some,
    ensures
        ({
            let (after, found) = crawl_run(
                rows,
                root,
                ignore,
                disk,
                seq![root],
                seq![root],
                tick,
                steps,
            )->0;
            &&& distinct(after)
            &&& reached(root, ignore, disk, found)
            &&& grown(rows, after, root, ignore, disk, found, tick)
            &&& lists_names(disk) && lists_once(disk) ==> found_once(found)
            &&& forall|k: int|
                0 <= k < rows.len() && rows[k].ever_seen ==> (#[trigger] after[k]).first_tick
                    == rows[k].first_tick
            &&& forall|k: int|
                0 <= k < found.len() ==> disk(#[trigger] found[k]) is None || gone_through(
                    after,
                    root,
                    ignore,
                    found,
                    disk(found[k])->0,
                    tick,
                )
        }),
{
    let start = seq![root];
    assert(start[0] == root);
    assert forall|k: int| 0 <= k < start.len() implies start.contains(#[trigger] start[k]) by {}
    lemma_crawl_run(rows, root, ignore, disk, start, start, tick, steps);
    lemma_crawl_grows(rows, rows, root, ignore, disk, start, start, tick, steps);
    if lists_names(disk) && lists_once(disk) {
        assert(!lies_in(root, root)) by {
            reveal(lies_in);
        }
        lemma_crawl_apart(rows, root, ignore, disk, start, start, tick, steps);
    }
}

/// Whether a file's name is that of a path that is not passed over.
pub open spec fn is_heeded(root: Seq<u8>, ignore: Ignore, name: Seq<char>) -> bool {
    exists|path: Seq<u8>|
        name == #[trigger] relative(root, path) && !passed_over(
            root,
            ignore.dirs(),
            ignore.names(),
            path,
        )
}

/// Whether nothing is known but files that are not passed over.
pub open spec fn clean(rows: Seq<Entry>, root: Seq<u8>, ignore: Ignore) -> bool {
    forall|k: int| 0 <= k < rows.len() ==> is_heeded(root, ignore, (#[trigger] rows[k]).name)
}

/// What is in a directory under the root, below no ignored name, and is not ignored
/// itself is not passed over.
proof fn lemma_child_is_heeded(root: Seq<u8>, ignore: Ignore, dir: Seq<u8>, path: Seq<u8>)
    requires
        within(dir, root),
        !named_below(root, ignore.names(), dir),
        is_child(dir, path),
        !ignored(ignore.dirs(), ignore.names(), path),
    ensures
        within(path, root),
        !named_below(root, ignore.names(), path),
{
    let name = choose|name: Seq<u8>|
        path == #[trigger] joined(dir, name) && is_name(name) && name != seq![0x2eu8, 0x2e];
    let names = ignore.names();
    law_joined_name(dir, name);
    let all = components(path);
    let front = components(dir);
    assert(last_name(path) == Some(name));
    assert(components(root) =~= all.take(components(root).len() as int));
    if named_below(root, names, path) {
        let k = choose|k: int|
            components(root).len() <= k < all.len() && is_named(names, #[trigger] all[k]);
        if k < front.len() {
            assert(front[k] == all[k]);
        } else {
            let j = choose|j: int| 0 <= j < names.len() && name == encode_utf8(#[trigger] names[j]);
            assert(last_name(path) == Some(encode_utf8(names[j])));
        }
    }
}

/// A directory that a crawl reaches lies under the root, below no ignored name.
proof fn lemma_reached_below(
    root: Seq<u8>,
    ignore: Ignore,
    disk: spec_fn(Seq<u8>) -> Option<Seq<(Seq<u8>, Option<Metadata>)>>,
    dirs: Seq<Seq<u8>>,
    k: int,
)
    requires
        lists_names(disk),
        reached(root, ignore, disk, dirs),
        0 <= k < dirs.len(),
    ensures
        within(dirs[k], root),
        !named_below(root, ignore.names(), dirs[k]),
    decreases k,
{
    if k == 0 {
        assert(components(root) =~= components(root).take(components(root).len() as int));
    } else {
        let before = dirs.take(k);
        let j = choose|j: int|
            0 <= j < before.len() && disk(#[trigger] before[j]) is Some && lists_dir(
                ignore,
                disk(before[j])->0,
                dirs[k],
            );
        assert(before[j] == dirs[j]);
        lemma_reached_below(root, ignore, disk, dirs, j);
        let listing = disk(dirs[j])->0;
        let i = choose|i: int|
            0 <= i < listing.len() && (#[trigger] listing[i]).0 == dirs[k] && listing[i].1 is Some
                && listing[i].1->0.is_dir && !ignored(ignore.dirs(), ignore.names(), dirs[k]);
        assert(is_child(dirs[j], listing[i].0));
        lemma_child_is_heeded(root, ignore, dirs[j], dirs[k]);
    }
}

/// A full crawl makes nothing known that is passed over: neither what is ignored
/// nor what lies anywhere below it.
pub proof fn law_crawl_stays_clean(
    rows: Seq<Entry>,
    root: Seq<u8>,
    ignore: Ignore,
    disk: spec_fn(Seq<u8>) -> Option<Seq<(Seq<u8>, Option<Metadata>)>>,
    tick: u64,
    steps: nat,
)
    requires
        distinct(rows),
        clean(rows, root, ignore),
        lists_names(disk),
        crawl_run(rows, root, ignore, disk, seq![root], seq![root], tick, steps) is Some,
    ensures
        clean(
            (crawl_run(rows, root, ignore, disk, seq![root], seq![root], tick, steps)->0).0,
            root,
            ignore,
        ),
{
    law_full_crawl(rows, root, ignore, disk, tick, steps);
    let (after, found) = crawl_run(
        rows,
        root,
        ignore,
        disk,
        seq![root],
        seq![root],
        tick,
        steps,
    )->0;
    assert forall|k: int| 0 <= k < after.len() implies is_heeded(
        root,
        ignore,
        (#[trigger] after[k]).name,
    ) by {
        if k < rows.len() && after[k] == rows[k] {
            assert(is_heeded(root, ignore, rows[k].name));
        } else {
            let j = choose|j: int|
                0 <= j < found.len() && disk(#[trigger] found[j]) is Some && lists_file(
                    root,
                    ignore,
                    disk(found[j])->0,
                    after[k],
                    tick,
                );
            let listing = disk(found[j])->0;
            let i = choose|i: int|
                0 <= i < listing.len() && (#[trigger] listing[i]).1 is Some && !ignored(
                    ignore.dirs(),
                    ignore.names(),
                    listing[i].0,
                ) && after[k] == seen_entry(
                    relative(root, listing[i].0),
                    listing[i].1->0,
                    tick,
                    after[k].first_tick,
                );
            lemma_reached_below(root, ignore, disk, found, j);
            assert(is_child(found[j], listing[i].0));
            lemma_child_is_heeded(root, ignore, found[j], listing[i].0);
            assert(after[k].name == relative(root, listing[i].0));
        }
    }
}

/// A change that finds a file leaves exactly what the file system says of it at that
/// moment, whatever was known before: one entry under the file's name, which exists,
/// with the kind, size, time and mode just read, as of the change's tick. A file that was
/// seen before stays first seen when it was; any other is first seen now. All other files
/// stay as they are.
pub proof fn law_change_tells_what_is_there(
    rows: Seq<Entry>,
    name: Seq<char>,
    meta: Metadata,
    tick: u64,
)
    requires
        distinct(rows),
    ensures
        ({
            let after = changed(rows, name, Some(meta), tick);
            &&& exists|k: int| 0 <= k < after.len() && (#[trigger] after[k]).name == name
            &&& forall|k: int|
                0 <= k < after.len() && (#[trigger] after[k]).name == name ==> {
                    &&& after[k].exists
                    &&& after[k].ever_seen
                    &&& after[k].kind == meta.kind()
                    &&& after[k].size == meta.len
                    &&& after[k].mtime == meta.mtime
                    &&& after[k].mode == meta.mode
                    &&& after[k].ctick == tick
                    &&& after[k].first_tick == (if k < rows.len() && rows[k].ever_seen {
                        rows[k].first_tick
                    } else {
                        tick
                    })
                }
            &&& forall|k: int|
                0 <= k < after.len() && (#[trigger] after[k]).name != name ==> k < rows.len()
                    && after[k] == rows[k]
            &&& forall|k: int|
                0 <= k < rows.len() ==> k < after.len() && (#[trigger] rows[k]).name
                    == after[k].name
        }),
{
    lemma_changed(rows, name, Some(meta), tick);
    let after = changed(rows, name, Some(meta), tick);
    let n = place(after, name)->0;
    lemma_place(rows, name);
    assert(after[n].name == name);
    assert forall|k: int| 0 <= k < after.len() && (#[trigger] after[k]).name == name implies k
        == n by {
        if k < n {
            assert(after[k].name != after[n].name);
        } else if n < k {
            assert(after[n].name != after[k].name);
        }
    }
}

/// A change that finds a file gone leaves what was known of it, and takes nothing over
/// but that it is gone as of the change's tick; of a file that was not known, nothing
/// is told. All other files stay as they are.
pub proof fn law_change_tells_what_is_gone(rows: Seq<Entry>, name: Seq<char>, tick: u64)
    requires
        distinct(rows),
    ensures
        ({
            let after = changed(rows, name, None, tick);
            &&& exists|k: int| 0 <= k < after.len() && (#[trigger] after[k]).name == name
            &&& forall|k: int|
                0 <= k < after.len() && (#[trigger] after[k]).name == name ==> !after[k].exists
                    && after[k].ctick == tick && (if k < rows.len() {
                    &&& after[k].kind == rows[k].kind
                    &&& after[k].size == rows[k].size
                    &&& after[k].mtime == rows[k].mtime
                    &&& after[k].mode == rows[k].mode
                    &&& after[k].first_tick == rows[k].first_tick
                    &&& after[k].ever_seen == rows[k].ever_seen
                } else {
                    &&& after[k].kind == Kind::Unknown
                    &&& after[k].size == 0
                    &&& after[k].mtime == 0
                    &&& after[k].mode == 0
                    &&& after[k].first_tick == tick
                    &&& !after[k].ever_seen
                })
            &&& forall|k: int|
                0 <= k < after.len() && (#[trigger] after[k]).name != name ==> k < rows.len()
                    && after[k] == rows[k]
            &&& forall|k: int|
                0 <= k < rows.len() ==> k < after.len() && (#[trigger] rows[k]).name
                    == after[k].name
        }),
{
    lemma_changed(rows, name, None, tick);
    let after = changed(rows, name, None, tick);
    let n = place(after, name)->0;
    lemma_place(rows, name);
    assert(after[n].name == name);
    assert forall|k: int| 0 <= k < after.len() && (#[trigger] after[k]).name == name implies k
        == n by {
        if k < n {
            assert(after[k].name != after[n].name);
        } else if n < k {
            assert(after[n].name != after[k].name);
        }
    }
}

/// The kind of a file is that of the first of its traits, in the order in which they
/// are asked for; a file without any is of no known kind.
pub proof fn law_kinds(m: Metadata)
    ensures
        m.kind() == Kind::Directory <==> m.is_dir,
        m.kind() == Kind::Symlink <==> !m.is_dir && m.is_symlink,
        m.kind() == Kind::Regular <==> !m.is_dir && !m.is_symlink && m.is_file,
        m.kind() == Kind::BlockSpecial <==> !m.is_dir && !m.is_symlink && !m.is_file
            && m.is_block_device,
        m.kind() == Kind::CharSpecial <==> !m.is_dir && !m.is_symlink && !m.is_file
            && !m.is_block_device && m.is_char_device,
        m.kind() == Kind::Fifo <==> !m.is_dir && !m.is_symlink && !m.is_file && !m.is_block_device
            && !m.is_char_device && m.is_fifo,
        m.kind() == Kind::Socket <==> !m.is_dir && !m.is_symlink && !m.is_file
            && !m.is_block_device && !m.is_char_device && !m.is_fifo && m.is_socket,
        m.kind() == Kind::Unknown <==> !m.is_dir && !m.is_symlink && !m.is_file
            && !m.is_block_device && !m.is_char_device && !m.is_fifo && !m.is_socket,
{
}

/// Each kind has one letter, and no two have the same.
pub proof fn law_letters(k: Kind)
    ensures
        k.letter().len() == 1,
        k.letter()[0] == 'b' <==> k == Kind::BlockSpecial,
        k.letter()[0] == 'c' <==> k == Kind::CharSpecial,
        k.letter()[0] == 'd' <==> k == Kind::Directory,
        k.letter()[0] == 'f' <==> k == Kind::Regular,
        k.letter()[0] == 'p' <==> k == Kind::Fifo,
        k.letter()[0] == 'l' <==> k == Kind::Symlink,
        k.letter()[0] == 's' <==> k == Kind::Socket,
        k.letter()[0] == '?' <==> k == Kind::Unknown,
{
    reveal_strlit("b");
    reveal_strlit("c");
    reveal_strlit("d");
    reveal_strlit("f");
    reveal_strlit("p");
    reveal_strlit("l");
    reveal_strlit("s");
    reveal_strlit("?");
}

/// The files that changed after a tick are those whose last change lies behind it: all
/// of them, no other, and none twice.
pub proof fn law_since_is_exact(rows: Seq<Entry>, ticks: u64)
    requires
        distinct(rows),
    ensures
        forall|e: Entry|
            #![trigger newer(rows, ticks).contains(e)]
            newer(rows, ticks).contains(e) <==> rows.contains(e) && e.ctick > ticks,
        distinct(newer(rows, ticks)),
{
    let later = |e: Entry| e.ctick > ticks;
    let found = newer(rows, ticks);
    assert forall|e: Entry| #![trigger found.contains(e)] found.contains(e) <==> rows.contains(e)
        && e.ctick > ticks by {
        if found.contains(e) {
            rows.lemma_filter_contains_rev(later, e);
            let j = choose|j: int| 0 <= j < found.len() && found[j] == e;
            rows.lemma_filter_pred(later, j);
        }
        if rows.contains(e) && e.ctick > ticks {
            let j = choose|j: int| 0 <= j < rows.len() && rows[j] == e;
            rows.lemma_filter_contains(later, j);
        }
    }
    lemma_filter_distinct(rows, later);
}

/// What is left of files with different names has different names.
pub proof fn lemma_filter_distinct(rows: Seq<Entry>, keep: spec_fn(Entry) -> bool)
    requires
        distinct(rows),
    ensures
        distinct(rows.filter(keep)),
        forall|k: int| 0 <= k < rows.filter(keep).len() ==> rows.contains(
            #[trigger] rows.filter(keep)[k],
        ),
    decreases rows.len(),
{
    reveal(Seq::filter);
    if rows.len() > 0 {
        let front = rows.drop_last();
        let left = front.filter(keep);
        let all = rows.filter(keep);
        assert forall|j: int, k: int| 0 <= j < k < front.len() implies (#[trigger] front[j]).name
            != (#[trigger] front[k]).name by {
            assert(rows[j].name != rows[k].name);
        }
        lemma_filter_distinct(front, keep);
        assert forall|k: int| 0 <= k < all.len() implies rows.contains(#[trigger] all[k]) by {
            if k < left.len() {
                assert(front.contains(left[k]));
                let j = choose|j: int| 0 <= j < front.len() && front[j] == left[k];
                assert(rows[j] == all[k]);
            } else {
                assert(rows[rows.len() - 1] == all[k]);
            }
        }
        assert forall|j: int, k: int| 0 <= j < k < all.len() implies (#[trigger] all[j]).name != (
        #[trigger] all[k]).name by {
            if k >= left.len() {
                assert(front.contains(left[j]));
                let m = choose|m: int| 0 <= m < front.len() && front[m] == left[j];
                assert(rows[m].name != rows[rows.len() - 1].name);
            }
        }
    }
}

/// A crawl leaves, of the last path with a name that a listing holds and that is not
/// ignored, exactly what the listing says of it.
pub proof fn law_crawl_tells_what_is_there(
    rows: Seq<Entry>,
    root: Seq<u8>,
    ignore: Ignore,
    listing: Seq<(Seq<u8>, Option<Metadata>)>,
    tick: u64,
    i: int,
)
    requires
        distinct(rows),
        0 <= i < listing.len(),
        !ignored(ignore.dirs(), ignore.names(), listing[i].0),
        listing[i].1 is Some,
        forall|j: int|
            i < j < listing.len() && (#[trigger] listing[j]).1 is Some && !ignored(
                ignore.dirs(),
                ignore.names(),
                listing[j].0,
            ) ==> relative(root, listing[j].0) != relative(root, listing[i].0),
    ensures
        ({
            let after = crawled(rows, root, ignore, listing, tick);
            let name = relative(root, listing[i].0);
            let meta = listing[i].1->0;
            &&& distinct(after)
            &&& exists|k: int| 0 <= k < after.len() && (#[trigger] after[k]).name == name
            &&& forall|k: int|
                0 <= k < after.len() && (#[trigger] after[k]).name == name ==> {
                    &&& after[k].exists
                    &&& after[k].ever_seen
                    &&& after[k].kind == meta.kind()
                    &&& after[k].size == meta.len
                    &&& after[k].mtime == meta.mtime
                    &&& after[k].mode == meta.mode
                    &&& after[k].ctick == tick
                }
        }),
    decreases listing.len(),
{
    let front = listing.drop_last();
    let before = crawled(rows, root, ignore, front, tick);
    let after = crawled(rows, root, ignore, listing, tick);
    let (path, meta) = listing.last();
    let name = relative(root, listing[i].0);
    lemma_crawl_distinct(rows, root, ignore, front, tick);
    lemma_crawl_distinct(rows, root, ignore, listing, tick);
    assert(listing.last() == listing[listing.len() - 1]);
    if i < front.len() {
        assert(front[i] == listing[i]);
        assert forall|j: int|
            i < j < front.len() && (#[trigger] front[j]).1 is Some && !ignored(
                ignore.dirs(),
                ignore.names(),
                front[j].0,
            ) implies relative(root, front[j].0) != relative(root, front[i].0) by {
            assert(front[j] == listing[j]);
        }
        law_crawl_tells_what_is_there(rows, root, ignore, front, tick, i);
        if !(ignored(ignore.dirs(), ignore.names(), path) || meta is None) {
            assert(listing[listing.len() - 1].1 is Some);
            law_change_tells_what_is_there(before, relative(root, path), meta->0, tick);
            assert(after == changed(before, relative(root, path), meta, tick));
            let k = choose|k: int| 0 <= k < before.len() && (#[trigger] before[k]).name == name;
            assert(after[k].name == before[k].name);
        }
    } else {
        law_change_tells_what_is_there(before, name, meta->0, tick);
        assert(after == changed(before, name, meta, tick));
    }
}

/// A crawl leaves all files alone of which the listing says nothing, or that are
/// ignored.
pub proof fn law_crawl_leaves_the_rest(
    rows: Seq<Entry>,
    root: Seq<u8>,
    ignore: Ignore,
    listing: Seq<(Seq<u8>, Option<Metadata>)>,
    tick: u64,
    k: int,
)
    requires
        distinct(rows),
        0 <= k < crawled(rows, root, ignore, listing, tick).len(),
        forall|i: int|
            0 <= i < listing.len() && (#[trigger] listing[i]).1 is Some && !ignored(
                ignore.dirs(),
                ignore.names(),
                listing[i].0,
            ) ==> relative(root, listing[i].0) != crawled(
                rows,
                root,
                ignore,
                listing,
                tick,
            )[k].name,
    ensures
        k < rows.len(),
        crawled(rows, root, ignore, listing, tick)[k] == rows[k],
    decreases listing.len(),
{
    if listing.len() > 0 {
        let front = listing.drop_last();
        let before = crawled(rows, root, ignore, front, tick);
        let after = crawled(rows, root, ignore, listing, tick);
        let (path, meta) = listing.last();
        lemma_crawl_distinct(rows, root, ignore, front, tick);
        assert(listing.last() == listing[listing.len() - 1]);
        if !(ignored(ignore.dirs(), ignore.names(), path) || meta is None) {
            assert(listing[listing.len() - 1].1 is Some);
            law_change_tells_what_is_there(before, relative(root, path), meta->0, tick);
            assert(after == changed(before, relative(root, path), meta, tick));
        }
        assert(k < before.len() && after[k] == before[k]);
        assert forall|i: int|
            0 <= i < front.len() && (#[trigger] front[i]).1 is Some && !ignored(
                ignore.dirs(),
                ignore.names(),
                front[i].0,
            ) implies relative(root, front[i].0) != before[k].name by {
            assert(front[i] == listing[i]);
        }
        law_crawl_leaves_the_rest(rows, root, ignore, front, tick, k);
    }
}

/// The name of a path that lies in the root is what follows the root; that of any
/// other path is the path. Backslashes are slashes in it, and nothing else differs.
pub proof fn law_names_of_paths(root: Seq<u8>, path: Seq<u8>)
    ensures
        ({
            let shown = lossy(
                if within(path, root) {
                    behind(path, root)->0
                } else {
                    path
                },
            );
            let name = relative(root, path);
            &&& name.len() == shown.len()
            &&& forall|k: int|
                0 <= k < name.len() ==> #[trigger] name[k] == (if shown[k] == '\\' {
                    '/'
                } else {
                    shown[k]
                })
        }),
{
}

/// A name in the root, or in a directory below it, is entered under the names on the
/// way to it, with slashes between them.
pub proof fn law_names_below_the_root(root: Seq<u8>, dir: Seq<u8>, name: Seq<char>)
    requires
        is_name(encode_utf8(name)),
        forall|k: int| 0 <= k < name.len() ==> (#[trigger] name[k]) != '\\',
    ensures
        relative(root, joined(root, encode_utf8(name))) == name,
        within(dir, root) && valid_utf8(behind(dir, root)->0) && ends_in_name(dir) && components(
            root,
        ).len() < components(dir).len() ==> relative(root, joined(dir, encode_utf8(name)))
            == relative(root, dir) + seq!['/'] + name,
{
    let b = encode_utf8(name);
    law_joined_name(root, b);
    encode_utf8_valid_utf8(name);
    encode_utf8_decode_utf8(name);
    assert(slashed(name) =~= name);
    if within(dir, root) && valid_utf8(behind(dir, root)->0) && ends_in_name(dir) && components(
        root,
    ).len() < components(dir).len() {
        law_rest_grows(root, dir, b);
        let rest = behind(dir, root)->0;
        let text = decode_utf8(rest);
        decode_utf8_encode_utf8(rest);
        let whole = text + seq!['/'] + name;
        lemma_utf8_concat(text, seq!['/']);
        lemma_utf8_concat(text + seq!['/'], name);
        is_ascii_chars_encode_utf8(seq!['/']);
        assert(seq!['/'][0] as u8 == encode_utf8(seq!['/'])[0]);
        assert(encode_utf8(seq!['/']) =~= seq![0x2fu8]);
        assert(encode_utf8(whole) =~= rest + seq![0x2fu8] + b);
        encode_utf8_valid_utf8(whole);
        encode_utf8_decode_utf8(whole);
        assert(slashed(whole) =~= slashed(text) + seq!['/'] + name);
    }
}

/// The text of a clock has four parts with colons between them: a `c`, the time, the
/// process and the ticks.
pub proof fn law_parts_of_a_clock(now: u64, pid: u32, ticks: u64)
    ensures
        clock_text(now, pid, ticks) == seq!['c', ':'] + digits(now as nat) + seq![':'] + digits(
            pid as nat,
        ) + seq![':'] + digits(ticks as nat),
{
    reveal_strlit("c:");
    reveal_strlit(":");
    assert("c:"@ =~= seq!['c', ':']);
    assert(":"@ =~= seq![':']);
}

/// What a clock's text says are the ticks: the number behind its last colon, where a
/// `c` and two or three colons stand before it. It has none otherwise, and the null
/// clock has none.
pub proof fn law_ticks_of_a_clock(a: Seq<char>, b: Seq<char>, c: Seq<char>, d: Seq<char>)
    requires
        no_colon(a),
        no_colon(b),
        no_colon(c),
        no_colon(d),
    ensures
        clock_ticks(a + seq![':'] + b + seq![':'] + c + seq![':'] + d) == (if a == seq!['c'] {
            unsigned_read(d)
        } else {
            None
        }),
        clock_ticks(a + seq![':'] + b + seq![':'] + c) == (if a == seq!['c'] && !(b == seq!['0']
            && c == seq!['0']) {
            unsigned_read(c)
        } else {
            None
        }),
        clock_ticks(a + seq![':'] + b) is None,
        clock_ticks(a) is None,
{
    reveal_strlit("c:0:0");
    reveal_strlit("c");
    assert("c"@ =~= seq!['c']);
    let null = "c:0:0"@;
    assert(null =~= seq!['c'] + seq![':'] + seq!['0'] + seq![':'] + seq!['0']);
    let one = a;
    let two = a + seq![':'] + b;
    let three = two + seq![':'] + c;
    let four = three + seq![':'] + d;
    lemma_split_parts(a, b, c, d);
    lemma_split_parts(seq!['c'], seq!['0'], seq!['0'], seq!['0']);
    assert(split(null, ':') =~= seq![seq!['c'], seq!['0'], seq!['0']]);
    assert(split(four, ':').len() == 4);
    assert(split(three, ':').len() == 3);
    assert(split(two, ':').len() == 2);
    assert(split(one, ':').len() == 1);
    if three == null {
        assert(split(three, ':')[0] == seq!['c'] && split(three, ':')[1] == seq!['0'] && split(
            three,
            ':',
        )[2] == seq!['0']);
    }
}

/// Whether a text holds no colon.
pub open spec fn no_colon(s: Seq<char>) -> bool {
    forall|k: int| 0 <= k < s.len() ==> (#[trigger] s[k]) != ':'
}

/// How texts with colons between them are split.
proof fn lemma_split_parts(a: Seq<char>, b: Seq<char>, c: Seq<char>, d: Seq<char>)
    requires
        no_colon(a),
        no_colon(b),
        no_colon(c),
        no_colon(d),
    ensures
        split(a, ':') == seq![a],
        split(a + seq![':'] + b, ':') == seq![a, b],
        split(a + seq![':'] + b + seq![':'] + c, ':') == seq![a, b, c],
        split(a + seq![':'] + b + seq![':'] + c + seq![':'] + d, ':') == seq![a, b, c, d],
{
    let none = Seq::<char>::empty();
    lemma_split_extend(none, a, ':');
    assert(none + a =~= a);
    assert(split(a, ':') =~= seq![a]);
    let s = a + seq![':'];
    assert(s =~= a.push(':'));
    lemma_split_separate(a, ':');
    lemma_split_extend(s, b, ':');
    assert(split(s + b, ':') =~= seq![a, b]);
    let t = s + b + seq![':'];
    assert(t =~= (s + b).push(':'));
    lemma_split_separate(s + b, ':');
    lemma_split_extend(t, c, ':');
    assert(split(t + c, ':') =~= seq![a, b, c]);
    let u = t + c + seq![':'];
    assert(u =~= (t + c).push(':'));
    lemma_split_separate(t + c, ':');
    lemma_split_extend(u, d, ':');
    assert(split(u + d, ':') =~= seq![a, b, c, d]);
}

/// A file is a cookie if and only if its last component starts as cookies do, in
/// whichever directory it lies.
pub proof fn law_cookies_by_their_last_component(dir: Seq<char>, last: Seq<char>)
    requires
        forall|k: int| 0 <= k < last.len() ==> (#[trigger] last[k]) != '/',
    ensures
        cookie_name(last) <==> (last.len() >= 17 && last.take(17) == ".watchman-cookie-"@),
        cookie_name(dir + seq!['/'] + last) <==> cookie_name(last),
{
    reveal_strlit(".watchman-cookie-");
    let front = ".watchman-cookie-"@;
    law_after_last(dir, last, '/');
    if front.is_prefix_of(last) {
        assert(last.take(17) =~= last.subrange(0, front.len() as int));
    } else if last.len() >= 17 {
        assert(last.take(17) =~= last.subrange(0, front.len() as int));
    }
}

/// A file stands for what is known of it.
pub proof fn law_what_files_stand_for(f: FileInfo)
    ensures
        f@.name == f.name@,
        f@.exists == f.exists,
        f@.kind == f.kind,
        f@.size == f.size,
        f@.mtime == f.mtime,
        f@.mode == f.mode,
        f@.ctick == f.ctick,
        f@.first_tick == f.first_tick,
        f@.ever_seen == f.ever_seen,
{
}

/// The directories of a listing are looked into in its order: those of which the file
/// system says that they are directories, and which are not ignored.
pub proof fn law_directories_of_a_listing(
    ignore: Ignore,
    listing: Seq<(Seq<u8>, Option<Metadata>)>,
    path: Seq<u8>,
    meta: Metadata,
)
    ensures
        subdirs(ignore, Seq::empty()) == Seq::<Seq<u8>>::empty(),
        subdirs(ignore, listing.push((path, None))) == subdirs(ignore, listing),
        subdirs(ignore, listing.push((path, Some(meta)))) == (if meta.is_dir && !ignored(
            ignore.dirs(),
            ignore.names(),
            path,
        ) {
            subdirs(ignore, listing).push(path)
        } else {
            subdirs(ignore, listing)
        }),
{
    assert(listing.push((path, None)).drop_last() =~= listing);
    assert(listing.push((path, Some(meta))).drop_last() =~= listing);
}

/// A listing enters each of its paths that is not ignored, and of which the file system says
/// something, as it is found; the others change nothing.
pub proof fn law_files_of_a_listing(
    rows: Seq<Entry>,
    root: Seq<u8>,
    ignore: Ignore,
    listing: Seq<(Seq<u8>, Option<Metadata>)>,
    path: Seq<u8>,
    meta: Metadata,
    tick: u64,
)
    ensures
        ({
            let before = crawled(rows, root, ignore, listing, tick);
            &&& crawled(rows, root, ignore, Seq::empty(), tick) == rows
            &&& crawled(rows, root, ignore, listing.push((path, None)), tick) == before
            &&& crawled(rows, root, ignore, listing.push((path, Some(meta))), tick) == (if ignored(
                ignore.dirs(),
                ignore.names(),
                path,
            ) {
                before
            } else {
                changed(before, relative(root, path), Some(meta), tick)
            })
        }),
{
    assert(listing.push((path, None)).drop_last() =~= listing);
    assert(listing.push((path, Some(meta))).drop_last() =~= listing);
}

/// Rows of files and listings stand for what they hold, in order.
pub proof fn law_rows_of_files(
    files: Seq<FileInfo>,
    some: Seq<&FileInfo>,
    listing: Seq<(Vec<u8>, Option<Metadata>)>,
    k: int,
)
    ensures
        entries(files).len() == files.len(),
        0 <= k < files.len() ==> entries(files)[k] == files[k]@,
        entries_of(some).len() == some.len(),
        0 <= k < some.len() ==> entries_of(some)[k] == some[k]@,
        listed(listing).len() == listing.len(),
        0 <= k < listing.len() ==> listed(listing)[k] == (listing[k].0@, listing[k].1),
{
}

/// A file is found where its name stands, and nowhere if no file has the name.
pub proof fn law_where_files_stand(rows: Seq<Entry>, name: Seq<char>, k: int)
    requires
        distinct(rows),
    ensures
        0 <= k < rows.len() && rows[k].name == name ==> place(rows, name) == Some(k),
        (forall|j: int| 0 <= j < rows.len() ==> (#[trigger] rows[j]).name != name) ==> place(
            rows,
            name,
        ) is None,
{
    lemma_place(rows, name);
    if 0 <= k < rows.len() && rows[k].name == name {
        let n = place(rows, name)->0;
        if n < k {
            assert(rows[n].name != rows[k].name);
        } else if k < n {
            assert(rows[k].name != rows[n].name);
        }
    }
}

/// A tree ignores the paths that its settings do.
pub proof fn law_paths_that_are_ignored(tree: &Tree, path: Seq<u8>)
    ensures
        tree.ignores_path(path) <==> ignored(
            tree.ignores().dirs(),
            tree.ignores().names(),
            path,
        ),
{
}

} // verus!
