//! The events of a file system event stream on macOS.

use vstd::prelude::*;
use vstd::utf8::*;

use crate::paths::path_rows;
use crate::text::{from_utf8_lossy, law_lossy_text, lossy};
use crate::watcher::{told_paths, batch, batch_paths, Batch};

verus! {

/// The flag that says that the directories below have to be looked through.
pub const MUST_SCAN_SUB_DIRS: u32 = 0x1;

/// The flag that says that events were lost on the way.
pub const USER_DROPPED: u32 = 0x2;

/// The flag that says that the system lost events.
pub const KERNEL_DROPPED: u32 = 0x4;

/// Whether the flags of an event say that events were lost.
pub open spec fn says_lost(flags: u32) -> bool {
    flags & (MUST_SCAN_SUB_DIRS | USER_DROPPED | KERNEL_DROPPED) != 0
}

/// What a row of events stands for: the flags of each, and its path, if it has
/// one.
pub open spec fn events_seen(v: Seq<(u32, Option<Vec<u8>>)>) -> Seq<(u32, Option<Seq<u8>>)> {
    v.map_values(
        |e: (u32, Option<Vec<u8>>)|
            (
                e.0,
                match e.1 {
                    Some(p) => Some(p@),
                    None => None,
                },
            ),
    )
}

/// Whether one of some events says that events were lost.
pub open spec fn any_lost(events: Seq<(u32, Option<Seq<u8>>)>) -> bool {
    exists|k: int| 0 <= k < events.len() && says_lost((#[trigger] events[k]).0)
}

/// The paths of the events that have one and do not say that events were lost.
pub open spec fn event_paths(events: Seq<(u32, Option<Seq<u8>>)>) -> Seq<Seq<u8>>
    decreases events.len(),
{
    if events.len() == 0 {
        Seq::empty()
    } else {
        let front = event_paths(events.drop_last());
        match events.last() {
            (flags, Some(path)) => if says_lost(flags) {
                front
            } else {
                front.push(encode_utf8(lossy(path)))
            },
            _ => front,
        }
    }
}

/// What a delivery of events asks for.
pub fn events_batch(events: &[(u32, Option<Vec<u8>>)]) -> (r: Batch)
    ensures
        batch_paths(r) == told_paths(
            any_lost(events_seen(events@)),
            event_paths(events_seen(events@)),
        ),
{
    let ghost all = events_seen(events@);
    let mut lost = false;
    let mut paths: Vec<Vec<u8>> = Vec::new();
    let mut i: usize = 0;
    assert(all.take(0) =~= Seq::<(u32, Option<Seq<u8>>)>::empty());
    assert(path_rows(paths@) =~= event_paths(all.take(0)));
    while i < events.len()
        invariant
            i <= events@.len(),
            all == events_seen(events@),
            lost == (exists|k: int| 0 <= k < i && says_lost((#[trigger] all[k]).0)),
            path_rows(paths@) == event_paths(all.take(i as int)),
        decreases events@.len() - i,
    {
        let event = &events[i];
        proof {
            assert(all[i as int].0 == event.0);
            assert(all.take(i + 1).drop_last() =~= all.take(i as int));
            assert(all.take(i + 1).last() == all[i as int]);
        }
        if event.0 & (MUST_SCAN_SUB_DIRS | USER_DROPPED | KERNEL_DROPPED) != 0 {
            lost = true;
        } else {
            match &event.1 {
                Some(path) => {
                    let text = from_utf8_lossy(path.as_slice());
                    let bytes = vstd::slice::slice_to_vec(text.as_str().as_bytes());
                    let ghost before = paths@;
                    let ghost shown = bytes@;
                    paths.push(bytes);
                    assert(path_rows(paths@) =~= path_rows(before).push(shown));
                },
                None => {},
            }
        }
        i += 1;
    }
    assert(all.take(i as int) =~= all);
    batch(lost, paths)
}

/// The flags of an event say that events were lost if and only if one of the lowest three
/// is set.
pub proof fn law_flags_of_lost_events(flags: u32)
    ensures
        says_lost(flags) <==> flags % 8 != 0,
{
    assert((flags & (0x1u32 | 0x2u32 | 0x4u32) != 0) == (flags % 8 != 0)) by (bit_vector);
}

/// A delivery tells the path of each event that has one, in order, and of no other, as the
/// text that it is; one event whose flags say that events were lost makes it a loss, and otherwise it is none.
pub proof fn law_paths_of_events(
    events: Seq<(u32, Option<Seq<u8>>)>,
    flags: u32,
    path: Seq<u8>,
    text: Seq<char>,
    any: Seq<u8>,
)
    requires
        path == encode_utf8(text),
    ensures
        flags % 8 == 0 ==> event_paths(events.push((flags, Some(any)))) == event_paths(
            events,
        ).push(encode_utf8(lossy(any))),
        event_paths(Seq::empty()) == Seq::<Seq<u8>>::empty(),
        event_paths(events.push((flags, None))) == event_paths(events),
        flags % 8 == 0 ==> event_paths(events.push((flags, Some(path)))) == event_paths(
            events,
        ).push(path),
        flags % 8 != 0 ==> event_paths(events.push((flags, Some(path)))) == event_paths(events),
        any_lost(events.push((flags, Some(path)))) <==> any_lost(events) || flags % 8 != 0,
        any_lost(events.push((flags, None))) <==> any_lost(events) || flags % 8 != 0,
        !any_lost(Seq::empty()),
{
    law_flags_of_lost_events(flags);
    law_lossy_text(text);
    assert(events.push((flags, None)).drop_last() =~= events);
    assert(events.push((flags, Some(path))).drop_last() =~= events);
    assert(events.push((flags, Some(any))).drop_last() =~= events);
    lemma_lost_push(events, (flags, None));
    lemma_lost_push(events, (flags, Some(path)));
}

/// One more event makes a delivery a loss if it is one itself.
proof fn lemma_lost_push(events: Seq<(u32, Option<Seq<u8>>)>, e: (u32, Option<Seq<u8>>))
    ensures
        any_lost(events.push(e)) <==> any_lost(events) || says_lost(e.0),
{
    let all = events.push(e);
    if any_lost(events) {
        let k = choose|k: int| 0 <= k < events.len() && says_lost((#[trigger] events[k]).0);
        assert(all[k] == events[k]);
    }
    if says_lost(e.0) {
        assert(all[events.len() as int] == e);
    }
    if any_lost(all) && !says_lost(e.0) {
        let k = choose|k: int| 0 <= k < all.len() && says_lost((#[trigger] all[k]).0);
        assert(events[k] == all[k]);
    }
}

/// A row of events stands for their flags and paths, in order.
pub proof fn law_rows_of_events(v: Seq<(u32, Option<Vec<u8>>)>, k: int)
    ensures
        events_seen(v).len() == v.len(),
        0 <= k < v.len() ==> events_seen(v)[k].0 == v[k].0,
        0 <= k < v.len() && v[k].1 is None ==> events_seen(v)[k].1 is None,
        0 <= k < v.len() && v[k].1 is Some ==> events_seen(v)[k].1 == Some(v[k].1->0@),
{
}

} // verus!
