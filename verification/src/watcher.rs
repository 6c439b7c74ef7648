//! What the backends that watch a root have in common: which one a platform
//! has, and what is done with a batch of reported changes.

use vstd::prelude::*;

use crate::config::{passed_over, Ignore};
use crate::paths::path_rows;
use crate::tree::{
    changed, clean, distinct, is_heeded, law_change_tells_what_is_gone,
    law_change_tells_what_is_there, lemma_changed, lemma_place, listed, newer, place, relative,
    timely, Entry, Metadata, Tree,
};

verus! {

/// The platforms that differ in how a root is watched.
#[derive(Debug, Clone, Copy, PartialEq, Eq, Structural)]
pub enum Platform {
    Linux,
    MacOs,
    Windows,
    Other,
}

/// The mechanisms that a root is watched by.
#[derive(Debug, Clone, Copy, PartialEq, Eq, Structural)]
pub enum Backend {
    /// A mark on the whole file system, as far as one can be had.
    Fanotify,
    /// A subscription to the whole tree.
    FsEvents,
    /// Changes read from one handle for the whole tree.
    DirectoryChanges,
    /// A crawl at regular intervals.
    Polling,
}

impl Platform {
    /// The name that clients are told.
    pub open spec fn reported(self) -> Seq<char> {
        match self {
            Platform::Linux => "inotify"@,
            Platform::MacOs => "fsevents"@,
            Platform::Windows => "win32"@,
            Platform::Other => "poll"@,
        }
    }

    /// The mechanism that the platform has.
    pub open spec fn backend(self) -> Backend {
        match self {
            Platform::Linux => Backend::Fanotify,
            Platform::MacOs => Backend::FsEvents,
            Platform::Windows => Backend::DirectoryChanges,
            Platform::Other => Backend::Polling,
        }
    }
}

/// The name that clients are told of how a root is watched. It goes by the
/// platform alone.
pub fn watcher_name(platform: Platform) -> (r: &'static str)
    ensures
        r@ == platform.reported(),
{
    match platform {
        Platform::Linux => "inotify",
        Platform::MacOs => "fsevents",
        Platform::Windows => "win32",
        Platform::Other => "poll",
    }
}

/// Picks the mechanism by which a root is watched on a platform.
pub fn spawn(platform: Platform) -> (r: Backend)
    ensures
        r == platform.backend(),
{
    match platform {
        Platform::Linux => Backend::Fanotify,
        Platform::MacOs => Backend::FsEvents,
        Platform::Windows => Backend::DirectoryChanges,
        Platform::Other => Backend::Polling,
    }
}

/// How many milliseconds lie between two crawls where a root is polled.
pub const POLL_INTERVAL: u64 = 1000;

/// What a batch of events asks for.
#[derive(Debug)]
pub enum Batch {
    /// Events were lost: the root is to be crawled again.
    Recrawl,
    /// These paths have changed.
    Changed(Vec<Vec<u8>>),
}

/// What a `Batch` stands for: nothing where events were lost, else the paths.
pub open spec fn batch_paths(b: Batch) -> Option<Seq<Seq<u8>>> {
    match b {
        Batch::Recrawl => None,
        Batch::Changed(paths) => Some(path_rows(paths@)),
    }
}

/// The paths that have changed, given whether events were lost, and the paths of the
/// others: nothing is known where events were lost.
pub open spec fn told_paths(lost: bool, paths: Seq<Seq<u8>>) -> Option<Seq<Seq<u8>>> {
    if lost {
        None
    } else {
        Some(paths)
    }
}

/// What a batch of events asks for, given whether events were lost, and the paths
/// of the others.
pub fn batch(lost: bool, paths: Vec<Vec<u8>>) -> (r: Batch)
    ensures
        batch_paths(r) == told_paths(lost, path_rows(paths@)),
{
    if lost {
        Batch::Recrawl
    } else {
        Batch::Changed(paths)
    }
}

/// How many of the paths of a batch are not passed over.
pub open spec fn heeded(
    root: Seq<u8>,
    ignore: Ignore,
    batch: Seq<(Seq<u8>, Option<Metadata>)>,
) -> nat
    decreases batch.len(),
{
    if batch.len() == 0 {
        0
    } else {
        heeded(root, ignore, batch.drop_last()) + (if passed_over(
            root,
            ignore.dirs(),
            ignore.names(),
            batch.last().0,
        ) {
            0nat
        } else {
            1nat
        })
    }
}

/// The files once the changes of a batch are recorded one by one, each at a tick
/// of its own. Ignored paths are passed over, and so is what lies below a directory
/// with an ignored name.
pub open spec fn recorded(
    rows: Seq<Entry>,
    root: Seq<u8>,
    ignore: Ignore,
    batch: Seq<(Seq<u8>, Option<Metadata>)>,
    ticks: u64,
) -> Seq<Entry>
    decreases batch.len(),
{
    if batch.len() == 0 {
        rows
    } else {
        let front = batch.drop_last();
        let before = recorded(rows, root, ignore, front, ticks);
        let (path, meta) = batch.last();
        if passed_over(root, ignore.dirs(), ignore.names(), path) {
            before
        } else {
            changed(
                before,
                relative(root, path),
                meta,
                (ticks + heeded(root, ignore, front) + 1) as u64,
            )
        }
    }
}

/// No more paths are heeded of the front of a batch than of all of it.
proof fn lemma_heeded(
    root: Seq<u8>,
    ignore: Ignore,
    batch: Seq<(Seq<u8>, Option<Metadata>)>,
    n: int,
)
    requires
        0 <= n <= batch.len(),
    ensures
        heeded(root, ignore, batch.take(n)) <= heeded(root, ignore, batch),
    decreases batch.len(),
{
    if n == batch.len() {
        assert(batch.take(n) =~= batch);
    } else {
        assert(batch.drop_last().take(n) =~= batch.take(n));
        lemma_heeded(root, ignore, batch.drop_last(), n);
    }
}

/// A root under watch.
pub struct RootState {
    tree: Tree,
}

impl RootState {
    /// What is known of the root.
    pub closed spec fn known(&self) -> Tree {
        self.tree
    }

    /// A root of which a tree is known.
    pub fn new(tree: Tree) -> (r: RootState)
        ensures
            r.known() == tree,
    {
        RootState { tree }
    }

    /// What is known of the root.
    pub fn tree(&self) -> (r: &Tree)
        ensures
            *r == self.known(),
    {
        &self.tree
    }

    /// What is known of the root, to be changed.
    pub fn tree_mut(&mut self) -> (r: &mut Tree)
        ensures
            *r == old(self).known(),
            final(self).known() == *final(r),
    {
        &mut self.tree
    }

    /// Records the changes of a batch, given what the file system says of each
    /// path; what is ignored, or lies below what is, is passed over.
    pub fn apply(&mut self, batch: &[(Vec<u8>, Option<Metadata>)])
        requires
            old(self).known().wf(),
            old(self).known().ticks() + heeded(
                old(self).known().root(),
                old(self).known().ignores(),
                listed(batch@),
            ) <= u64::MAX,
        ensures
            final(self).known().wf(),
            final(self).known().root() == old(self).known().root(),
            final(self).known().pid() == old(self).known().pid(),
            final(self).known().ignores() == old(self).known().ignores(),
            final(self).known().ticks() == old(self).known().ticks() + heeded(
                old(self).known().root(),
                old(self).known().ignores(),
                listed(batch@),
            ),
            final(self).known().rows() == recorded(
                old(self).known().rows(),
                old(self).known().root(),
                old(self).known().ignores(),
                listed(batch@),
                old(self).known().ticks(),
            ),
    {
        let ghost all = listed(batch@);
        let ghost ignore = self.tree.ignores();
        let ghost root = self.tree.root();
        let mut i: usize = 0;
        assert(all.take(0) =~= Seq::<(Seq<u8>, Option<Metadata>)>::empty());
        while i < batch.len()
            invariant
                i <= batch@.len(),
                all == listed(batch@),
                old(self).known().ticks() + heeded(root, ignore, all) <= u64::MAX,
                self.tree.wf(),
                self.tree.root() == old(self).known().root(),
                self.tree.pid() == old(self).known().pid(),
                self.tree.ignores() == old(self).known().ignores(),
                ignore == self.tree.ignores(),
                root == self.tree.root(),
                self.tree.ticks() == old(self).known().ticks() + heeded(
                    root,
                    ignore,
                    all.take(i as int),
                ),
                self.tree.rows() == recorded(
                    old(self).known().rows(),
                    old(self).known().root(),
                    ignore,
                    all.take(i as int),
                    old(self).known().ticks(),
                ),
            decreases batch@.len() - i,
        {
            let entry = &batch[i];
            proof {
                assert(all.take(i + 1).drop_last() =~= all.take(i as int));
                assert(all.take(i + 1).last() == (entry.0@, entry.1));
                lemma_heeded(root, ignore, all, i + 1);
            }
            if !self.tree.passes_over(entry.0.as_slice()) {
                self.tree.record_change(entry.0.as_slice(), entry.1);
            }
            i += 1;
        }
        assert(all.take(i as int) =~= all);
    }
}

/// A batch of paths that are all passed over changes nothing, and the clock does
/// not tick.
pub proof fn law_ignored_changes_leave_no_trace(
    rows: Seq<Entry>,
    root: Seq<u8>,
    ignore: Ignore,
    batch: Seq<(Seq<u8>, Option<Metadata>)>,
    ticks: u64,
)
    requires
        forall|k: int|
            0 <= k < batch.len() ==> passed_over(
                root,
                ignore.dirs(),
                ignore.names(),
                (#[trigger] batch[k]).0,
            ),
    ensures
        recorded(rows, root, ignore, batch, ticks) == rows,
        heeded(root, ignore, batch) == 0,
    decreases batch.len(),
{
    if batch.len() > 0 {
        let front = batch.drop_last();
        assert forall|k: int| 0 <= k < front.len() implies passed_over(
            root,
            ignore.dirs(),
            ignore.names(),
            (#[trigger] front[k]).0,
        ) by {
            assert(front[k] == batch[k]);
        }
        law_ignored_changes_leave_no_trace(rows, root, ignore, front, ticks);
        assert(batch.last() == batch[batch.len() - 1]);
    }
}

/// The changes of a batch make nothing known that is passed over.
pub proof fn law_batch_stays_clean(
    rows: Seq<Entry>,
    root: Seq<u8>,
    ignore: Ignore,
    batch: Seq<(Seq<u8>, Option<Metadata>)>,
    ticks: u64,
)
    requires
        distinct(rows),
        clean(rows, root, ignore),
    ensures
        distinct(recorded(rows, root, ignore, batch, ticks)),
        clean(recorded(rows, root, ignore, batch, ticks), root, ignore),
    decreases batch.len(),
{
    if batch.len() > 0 {
        let front = batch.drop_last();
        let (path, meta) = batch.last();
        let before = recorded(rows, root, ignore, front, ticks);
        let after = recorded(rows, root, ignore, batch, ticks);
        law_batch_stays_clean(rows, root, ignore, front, ticks);
        if !passed_over(root, ignore.dirs(), ignore.names(), path) {
            let name = relative(root, path);
            lemma_changed(
                before,
                name,
                meta,
                (ticks + heeded(root, ignore, front) + 1) as u64,
            );
            let n = place(after, name)->0;
            assert forall|k: int| 0 <= k < after.len() implies is_heeded(
                root,
                ignore,
                (#[trigger] after[k]).name,
            ) by {
                if k != n {
                    assert(after[k] == before[k]);
                }
            }
        }
    }
}

/// Whether a batch reports a file that is not passed over.
pub open spec fn reports(
    root: Seq<u8>,
    ignore: Ignore,
    batch: Seq<(Seq<u8>, Option<Metadata>)>,
    name: Seq<char>,
) -> bool {
    exists|i: int|
        0 <= i < batch.len() && name == relative(root, (#[trigger] batch[i]).0) && !passed_over(
            root,
            ignore.dirs(),
            ignore.names(),
            batch[i].0,
        )
}

/// Whether a file changed after a tick.
pub open spec fn changed_since(rows: Seq<Entry>, name: Seq<char>, ticks: u64) -> bool {
    exists|k: int| 0 <= k < rows.len() && (#[trigger] rows[k]).name == name && rows[k].ctick > ticks
}

/// After a batch, the files that changed since it came are those that it reports.
proof fn lemma_batch_ticks(
    rows: Seq<Entry>,
    root: Seq<u8>,
    ignore: Ignore,
    batch: Seq<(Seq<u8>, Option<Metadata>)>,
    ticks: u64,
    name: Seq<char>,
)
    requires
        distinct(rows),
        timely(rows, ticks),
        ticks + heeded(root, ignore, batch) <= u64::MAX,
    ensures
        distinct(recorded(rows, root, ignore, batch, ticks)),
        changed_since(recorded(rows, root, ignore, batch, ticks), name, ticks) <==> reports(
            root,
            ignore,
            batch,
            name,
        ),
    decreases batch.len(),
{
    let after = recorded(rows, root, ignore, batch, ticks);
    if batch.len() > 0 {
        let front = batch.drop_last();
        let (path, meta) = batch.last();
        let before = recorded(rows, root, ignore, front, ticks);
        lemma_batch_ticks(rows, root, ignore, front, ticks, name);
        assert(reports(root, ignore, front, name) ==> reports(root, ignore, batch, name)) by {
            if reports(root, ignore, front, name) {
                let i = choose|i: int|
                    0 <= i < front.len() && name == relative(root, (#[trigger] front[i]).0)
                        && !passed_over(root, ignore.dirs(), ignore.names(), front[i].0);
                assert(batch[i] == front[i]);
            }
        }
        let skipped = passed_over(root, ignore.dirs(), ignore.names(), path);
        assert(reports(root, ignore, batch, name) ==> reports(root, ignore, front, name) || (
        !skipped && name == relative(root, path))) by {
            if reports(root, ignore, batch, name) {
                let i = choose|i: int|
                    0 <= i < batch.len() && name == relative(root, (#[trigger] batch[i]).0)
                        && !passed_over(root, ignore.dirs(), ignore.names(), batch[i].0);
                if i < front.len() {
                    assert(front[i] == batch[i]);
                }
            }
        }
        if !skipped {
            let seen = relative(root, path);
            let tick = (ticks + heeded(root, ignore, front) + 1) as u64;
            lemma_changed(before, seen, meta, tick);
            lemma_place(before, seen);
            let n = place(after, seen)->0;
            assert(changed_since(after, seen, ticks)) by {
                assert(after[n].name == seen);
            }
            assert(reports(root, ignore, batch, seen)) by {
                assert(batch[batch.len() - 1].0 == path);
            }
            if changed_since(before, name, ticks) {
                let k = choose|k: int|
                    0 <= k < before.len() && (#[trigger] before[k]).name == name && before[k].ctick
                        > ticks;
                if k != n {
                    assert(after[k] == before[k]);
                }
                assert(after[k].name == name);
            }
            if changed_since(after, name, ticks) {
                let k = choose|k: int|
                    0 <= k < after.len() && (#[trigger] after[k]).name == name && after[k].ctick
                        > ticks;
                if k != n {
                    assert(before[k].name == name);
                }
            }
        }
    } else {
        assert(!changed_since(rows, name, ticks));
    }
}

/// What changed since a clock that was taken before a batch came is what the batch
/// reports and is not passed over: all of it, and nothing else.
pub proof fn law_since_finds_the_batch(
    rows: Seq<Entry>,
    root: Seq<u8>,
    ignore: Ignore,
    batch: Seq<(Seq<u8>, Option<Metadata>)>,
    ticks: u64,
)
    requires
        distinct(rows),
        timely(rows, ticks),
        ticks + heeded(root, ignore, batch) <= u64::MAX,
    ensures
        ({
            let found = newer(recorded(rows, root, ignore, batch, ticks), ticks);
            &&& forall|k: int|
                0 <= k < found.len() ==> reports(root, ignore, batch, (#[trigger] found[k]).name)
            &&& forall|i: int|
                0 <= i < batch.len() && !passed_over(
                    root,
                    ignore.dirs(),
                    ignore.names(),
                    (#[trigger] batch[i]).0,
                ) ==> changed_since(found, relative(root, batch[i].0), ticks)
        }),
{
    let after = recorded(rows, root, ignore, batch, ticks);
    let later = |e: Entry| e.ctick > ticks;
    let found = newer(after, ticks);
    assert forall|k: int| 0 <= k < found.len() implies reports(
        root,
        ignore,
        batch,
        (#[trigger] found[k]).name,
    ) by {
        assert(found.contains(found[k]));
        after.lemma_filter_contains_rev(later, found[k]);
        after.lemma_filter_pred(later, k);
        let j = choose|j: int| 0 <= j < after.len() && after[j] == found[k];
        assert(changed_since(after, after[j].name, ticks));
        lemma_batch_ticks(rows, root, ignore, batch, ticks, found[k].name);
    }
    assert forall|i: int|
        0 <= i < batch.len() && !passed_over(
            root,
            ignore.dirs(),
            ignore.names(),
            (#[trigger] batch[i]).0,
        ) implies changed_since(found, relative(root, batch[i].0), ticks) by {
        let name = relative(root, batch[i].0);
        lemma_batch_ticks(rows, root, ignore, batch, ticks, name);
        assert(reports(root, ignore, batch, name));
        let k = choose|k: int|
            0 <= k < after.len() && (#[trigger] after[k]).name == name && after[k].ctick > ticks;
        after.lemma_filter_contains(later, k);
        let j = choose|j: int| 0 <= j < found.len() && found[j] == after[k];
        assert(found[j].name == name);
    }
}

/// The names that clients are told, and the mechanisms, are those of the platforms.
pub proof fn law_platforms(p: Platform)
    ensures
        p == Platform::Linux ==> p.reported() == "inotify"@ && p.backend() == Backend::Fanotify,
        p == Platform::MacOs ==> p.reported() == "fsevents"@ && p.backend() == Backend::FsEvents,
        p == Platform::Windows ==> p.reported() == "win32"@ && p.backend()
            == Backend::DirectoryChanges,
        p == Platform::Other ==> p.reported() == "poll"@ && p.backend() == Backend::Polling,
{
}

/// Each path of a batch that is not passed over makes the clock tick once, and no other
/// does.
pub proof fn law_ticks_of_a_batch(
    root: Seq<u8>,
    ignore: Ignore,
    batch: Seq<(Seq<u8>, Option<Metadata>)>,
    path: Seq<u8>,
    meta: Option<Metadata>,
)
    ensures
        heeded(root, ignore, Seq::empty()) == 0,
        heeded(root, ignore, batch.push((path, meta))) == heeded(root, ignore, batch) + (
        if passed_over(root, ignore.dirs(), ignore.names(), path) {
            0nat
        } else {
            1nat
        }),
{
    assert(batch.push((path, meta)).drop_last() =~= batch);
}

/// Whether a batch has a path for a file, at a place or behind it, that is not passed over.
pub open spec fn reports_from(
    root: Seq<u8>,
    ignore: Ignore,
    batch: Seq<(Seq<u8>, Option<Metadata>)>,
    name: Seq<char>,
    i: int,
) -> bool {
    exists|j: int|
        i <= j < batch.len() && name == relative(root, (#[trigger] batch[j]).0) && !passed_over(
            root,
            ignore.dirs(),
            ignore.names(),
            batch[j].0,
        )
}

/// After a batch, each file that it reports is told as it was found last: it exists if it
/// was found, with the kind, size, time and mode that were read, as of the tick of that
/// report.
pub proof fn law_last_report_counts(
    rows: Seq<Entry>,
    root: Seq<u8>,
    ignore: Ignore,
    batch: Seq<(Seq<u8>, Option<Metadata>)>,
    ticks: u64,
    i: int,
)
    requires
        distinct(rows),
        ticks + heeded(root, ignore, batch) <= u64::MAX,
        0 <= i < batch.len(),
        !passed_over(root, ignore.dirs(), ignore.names(), batch[i].0),
        !reports_from(root, ignore, batch, relative(root, batch[i].0), i + 1),
    ensures
        ({
            let after = recorded(rows, root, ignore, batch, ticks);
            let name = relative(root, batch[i].0);
            let meta = batch[i].1;
            &&& exists|k: int| 0 <= k < after.len() && (#[trigger] after[k]).name == name
            &&& forall|k: int|
                0 <= k < after.len() && (#[trigger] after[k]).name == name ==> {
                    &&& after[k].exists == (meta is Some)
                    &&& after[k].ctick == ticks + heeded(root, ignore, batch.take(i)) + 1
                    &&& meta is Some ==> after[k].kind == meta->0.kind() && after[k].size
                        == meta->0.len && after[k].mtime == meta->0.mtime && after[k].mode
                        == meta->0.mode
                }
        }),
    decreases batch.len(),
{
    let front = batch.drop_last();
    let (path, meta) = batch.last();
    let before = recorded(rows, root, ignore, front, ticks);
    let after = recorded(rows, root, ignore, batch, ticks);
    let name = relative(root, batch[i].0);
    let skipped = passed_over(root, ignore.dirs(), ignore.names(), path);
    let tick = (ticks + heeded(root, ignore, front) + 1) as u64;
    lemma_recorded_distinct(rows, root, ignore, front, ticks);
    if i == batch.len() - 1 {
        assert(batch.take(i) =~= front);
        match meta {
            Some(m) => law_change_tells_what_is_there(before, name, m, tick),
            None => law_change_tells_what_is_gone(before, name, tick),
        }
    } else {
        assert(front[i] == batch[i]);
        assert(front.take(i) =~= batch.take(i));
        if reports_from(root, ignore, front, name, i + 1) {
            let j = choose|j: int|
                i + 1 <= j < front.len() && name == relative(root, (#[trigger] front[j]).0)
                    && !passed_over(root, ignore.dirs(), ignore.names(), front[j].0);
            assert(batch[j] == front[j]);
        }
        law_last_report_counts(rows, root, ignore, front, ticks, i);
        if !skipped {
            let seen = relative(root, path);
            assert(batch[batch.len() - 1].0 == path);
            assert(seen != name);
            lemma_changed(before, seen, meta, tick);
            lemma_place(before, seen);
            let n = place(after, seen)->0;
            let k = choose|k: int| 0 <= k < before.len() && (#[trigger] before[k]).name == name;
            assert(after[k].name == name) by {
                if k != n {
                    assert(after[k] == before[k]);
                }
            }
        }
    }
}

/// The names of files stay different.
proof fn lemma_recorded_distinct(
    rows: Seq<Entry>,
    root: Seq<u8>,
    ignore: Ignore,
    batch: Seq<(Seq<u8>, Option<Metadata>)>,
    ticks: u64,
)
    requires
        distinct(rows),
    ensures
        distinct(recorded(rows, root, ignore, batch, ticks)),
    decreases batch.len(),
{
    if batch.len() > 0 {
        let front = batch.drop_last();
        let (path, meta) = batch.last();
        lemma_recorded_distinct(rows, root, ignore, front, ticks);
        lemma_changed(
            recorded(rows, root, ignore, front, ticks),
            relative(root, path),
            meta,
            (ticks + heeded(root, ignore, front) + 1) as u64,
        );
    }
}

/// A batch leaves every file that it does not report as it was, and makes no other known.
pub proof fn law_batch_leaves_the_rest(
    rows: Seq<Entry>,
    root: Seq<u8>,
    ignore: Ignore,
    batch: Seq<(Seq<u8>, Option<Metadata>)>,
    ticks: u64,
    e: Entry,
)
    requires
        distinct(rows),
        !reports(root, ignore, batch, e.name),
    ensures
        recorded(rows, root, ignore, batch, ticks).contains(e) <==> rows.contains(e),
    decreases batch.len(),
{
    if batch.len() > 0 {
        let front = batch.drop_last();
        let (path, meta) = batch.last();
        let before = recorded(rows, root, ignore, front, ticks);
        let after = recorded(rows, root, ignore, batch, ticks);
        if reports(root, ignore, front, e.name) {
            let j = choose|j: int|
                0 <= j < front.len() && e.name == relative(root, (#[trigger] front[j]).0)
                    && !passed_over(root, ignore.dirs(), ignore.names(), front[j].0);
            assert(batch[j] == front[j]);
        }
        law_batch_leaves_the_rest(rows, root, ignore, front, ticks, e);
        lemma_recorded_distinct(rows, root, ignore, front, ticks);
        if !passed_over(root, ignore.dirs(), ignore.names(), path) {
            let seen = relative(root, path);
            assert(batch[batch.len() - 1].0 == path);
            assert(seen != e.name);
            lemma_changed(
                before,
                seen,
                meta,
                (ticks + heeded(root, ignore, front) + 1) as u64,
            );
            lemma_place(before, seen);
            let n = place(after, seen)->0;
            if after.contains(e) {
                let k = choose|k: int| 0 <= k < after.len() && after[k] == e;
                assert(k != n);
                assert(before[k] == e);
            }
            if before.contains(e) {
                let k = choose|k: int| 0 <= k < before.len() && before[k] == e;
                if k != n {
                    assert(after[k] == before[k]);
                } else {
                    assert(before[k].name == seen);
                }
                assert(after[k] == e);
            }
        }
    }
}

/// A batch stands for its paths, in order, or for nothing where events were lost.
pub proof fn law_what_batches_stand_for(paths: Vec<Vec<u8>>, k: int)
    ensures
        batch_paths(Batch::Recrawl) is None,
        batch_paths(Batch::Changed(paths)) is Some,
        batch_paths(Batch::Changed(paths))->0.len() == paths@.len(),
        0 <= k < paths@.len() ==> batch_paths(Batch::Changed(paths))->0[k] == paths@[k]@,
        told_paths(true, path_rows(paths@)) is None,
        told_paths(false, path_rows(paths@)) == Some(path_rows(paths@)),
{
}

} // verus!
