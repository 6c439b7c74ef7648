//! The records of the Linux fanotify interface, as a group of the class that
//! reports directory handles and names delivers them.

use vstd::prelude::*;
use vstd::utf8::*;

use crate::bser::{law_lowest_byte_first, le_value, read_le};
use crate::paths::{join, joined, starts_with, within};
use crate::text::{from_utf8_lossy, law_lossy_text, lossy, optional_text, str_eq};

verus! {

/// The size of an event's fixed part.
pub const METADATA_SIZE: usize = 24;

/// The size of the head of a record that follows the fixed part.
pub const HEADER_SIZE: usize = 4;

/// The bit of the mask that says that events were lost.
pub const Q_OVERFLOW: u64 = 0x4000;

/// The type of a record that holds a directory's handle and a name.
pub const DFID_NAME: u8 = 2;

/// The size of a file handle at most.
pub const MAX_HANDLE_SIZE: usize = 128;

/// The order of the bytes of a number.
#[derive(Debug, Clone, Copy, PartialEq, Eq, Structural)]
pub enum Order {
    Little,
    Big,
}

/// The number that bytes denote in an order.
pub open spec fn ordered_value(bytes: Seq<u8>, order: Order) -> nat {
    match order {
        Order::Little => le_value(bytes),
        Order::Big => le_value(bytes.reverse()),
    }
}

/// Reads the number that some bytes denote in an order.
fn read_ordered(b: &[u8], start: usize, n: usize, order: Order) -> (r: u64)
    requires
        n <= 8,
        start + n <= b@.len(),
    ensures
        r == ordered_value(b@.subrange(start as int, start + n), order),
{
    let all: usize = b.len();
    assert(start + n <= all);
    let part = vstd::slice::slice_subrange(b, start, start + n);
    match order {
        Order::Little => read_le(part),
        Order::Big => {
            let mut turned: Vec<u8> = Vec::new();
            let mut k: usize = n;
            while k > 0
                invariant
                    k <= n == part@.len(),
                    turned@.len() == n - k,
                    forall|j: int| 0 <= j < turned@.len() ==> turned@[j] == part@[n - 1 - j],
                decreases k,
            {
                turned.push(part[k - 1]);
                k -= 1;
            }
            assert(turned@ =~= part@.reverse());
            read_le(turned.as_slice())
        },
    }
}

/// What an event says of a file: the handle of its directory, and its name in it.
#[derive(Debug)]
pub struct Handle {
    pub handle_type: i32,
    pub bytes: Vec<u8>,
    pub name: String,
}

/// What a `Handle` stands for.
pub struct HandleRecord {
    pub handle_type: i32,
    pub bytes: Seq<u8>,
    pub name: Seq<char>,
}

impl View for Handle {
    type V = HandleRecord;

    open spec fn view(&self) -> HandleRecord {
        HandleRecord { handle_type: self.handle_type, bytes: self.bytes@, name: self.name@ }
    }
}

/// What stands before the first zero, if there is one.
pub open spec fn until_zero(b: Seq<u8>) -> Option<Seq<u8>>
    decreases b.len(),
{
    if b.len() == 0 {
        None
    } else if b[0] == 0 {
        Some(Seq::empty())
    } else {
        match until_zero(b.skip(1)) {
            Some(rest) => Some(seq![b[0]] + rest),
            None => None,
        }
    }
}

/// The text before the first zero, if there is one.
pub open spec fn zero_ended(b: Seq<u8>) -> Option<Seq<char>> {
    match until_zero(b) {
        Some(name) => Some(lossy(name)),
        None => None,
    }
}

/// The text before the first zero.
fn find_zero(b: &[u8]) -> (r: Option<String>)
    ensures
        optional_text(r) == zero_ended(b@),
{
    let mut i: usize = 0;
    assert(b@.skip(0) =~= b@);
    while i < b.len()
        invariant
            i <= b@.len(),
            until_zero(b@) == (match until_zero(b@.skip(i as int)) {
                Some(rest) => Some(b@.take(i as int) + rest),
                None => None,
            }),
        decreases b@.len() - i,
    {
        if b[i] == 0 {
            let name = vstd::slice::slice_subrange(b, 0, i);
            assert(name@ =~= b@.take(i as int) + Seq::<u8>::empty());
            return Some(from_utf8_lossy(name));
        }
        proof {
            let tail = b@.skip(i as int);
            assert(tail.skip(1) =~= b@.skip(i + 1));
            match until_zero(b@.skip(i + 1)) {
                Some(rest) => {
                    assert(b@.take(i as int) + (seq![b@[i as int]] + rest) =~= b@.take(i + 1)
                        + rest);
                },
                None => {},
            }
        }
        i += 1;
    }
    None
}

/// The handle and the name in a record that starts at a position and has a length;
/// a name has to end with a zero.
pub open spec fn record_handle(event: Seq<u8>, off: int, len: int, order: Order) -> Option<
    HandleRecord,
> {
    let at = off + HEADER_SIZE + 8;
    if at + 8 > event.len() {
        None
    } else {
        let size = ordered_value(event.subrange(at, at + 4), order);
        let handle_type = (ordered_value(event.subrange(at + 4, at + 8), order) as u32) as i32;
        if size > MAX_HANDLE_SIZE || at + 8 + size > event.len() {
            None
        } else {
            let name_at = if at + 8 + size <= off + len {
                at + 8 + size
            } else {
                off + len
            };
            match zero_ended(event.subrange(name_at, off + len)) {
                Some(name) => Some(
                    HandleRecord {
                        handle_type,
                        bytes: event.subrange(at + 8, at + 8 + size),
                        name,
                    },
                ),
                None => None,
            }
        }
    }
}

/// The handle in the first record, from a position on, that holds a directory's
/// handle and a name.
pub open spec fn handle_from(event: Seq<u8>, off: int, order: Order) -> Option<HandleRecord>
    decreases event.len() - off,
{
    if !(0 <= off && off + HEADER_SIZE <= event.len()) {
        None
    } else {
        let len = ordered_value(event.subrange(off + 2, off + 4), order) as int;
        if len == 0 || off + len > event.len() {
            None
        } else if event[off] == DFID_NAME {
            record_handle(event, off, len, order)
        } else {
            handle_from(event, off + len, order)
        }
    }
}

/// What an optional handle stands for.
pub open spec fn handle_seen(h: Option<Handle>) -> Option<HandleRecord> {
    match h {
        Some(h) => Some(h@),
        None => None,
    }
}

/// A number in so many bytes has a bound.
proof fn lemma_ordered_bound(b: Seq<u8>, order: Order)
    requires
        b.len() <= 4,
    ensures
        ordered_value(b, order) <= 0xffff_ffff,
        b.len() <= 2 ==> ordered_value(b, order) <= 0xffff,
{
    let s = match order {
        Order::Little => b,
        Order::Big => b.reverse(),
    };
    reveal_with_fuel(le_value, 5);
}

/// Finds the handle and the name in an event whose fixed part has a length.
pub fn decode_event(event: &[u8], metadata_len: usize, order: Order) -> (r: Option<Handle>)
    ensures
        handle_seen(r) == handle_from(event@, metadata_len as int, order),
{
    let n: usize = event.len();
    let mut off: usize = metadata_len;
    while off <= n && n - off >= HEADER_SIZE
        invariant
            n == event@.len(),
            handle_from(event@, off as int, order) == handle_from(
                event@,
                metadata_len as int,
                order,
            ),
        decreases n - off,
    {
        proof {
            lemma_ordered_bound(event@.subrange(off + 2, off + 4), order);
        }
        let len: usize = read_ordered(event, off + 2, 2, order) as usize;
        if len == 0 || len > n - off {
            return None;
        }
        if event[off] == DFID_NAME {
            if n - off < 20 {
                return None;
            }
            let at: usize = off + 12;
            proof {
                lemma_ordered_bound(event@.subrange(at as int, at + 4), order);
                lemma_ordered_bound(event@.subrange(at + 4, at + 8), order);
            }
            let size64: u64 = read_ordered(event, at, 4, order);
            let raw: u32 = read_ordered(event, at + 4, 4, order) as u32;
            let handle_type: i32 = raw as i32;
            if size64 > 128 {
                return None;
            }
            let size: usize = size64 as usize;
            if size > n - (at + 8) {
                return None;
            }
            let bytes = vstd::slice::slice_to_vec(
                vstd::slice::slice_subrange(event, at + 8, at + 8 + size),
            );
            let end: usize = off + len;
            let name_at: usize = if at + 8 + size <= end {
                at + 8 + size
            } else {
                end
            };
            return match find_zero(vstd::slice::slice_subrange(event, name_at, end)) {
                Some(name) => Some(Handle { handle_type, bytes, name }),
                None => None,
            };
        }
        off = off + len;
    }
    None
}

/// The handles in the events of a buffer from a position on, and whether events
/// were lost.
pub open spec fn events_from(
    buf: Seq<u8>,
    off: int,
    order: Order,
    lost: bool,
    handles: Seq<HandleRecord>,
) -> (bool, Seq<HandleRecord>)
    decreases buf.len() - off,
{
    if !(0 <= off && off + METADATA_SIZE <= buf.len()) {
        (lost, handles)
    } else {
        let len = ordered_value(buf.subrange(off, off + 4), order) as int;
        if len < METADATA_SIZE || off + len > buf.len() {
            (lost, handles)
        } else {
            let metadata_len = ordered_value(buf.subrange(off + 6, off + 8), order) as int;
            let mask = ordered_value(buf.subrange(off + 8, off + 16), order) as u64;
            if mask & Q_OVERFLOW != 0 {
                events_from(buf, off + len, order, true, handles)
            } else {
                match handle_from(buf.subrange(off, off + len), metadata_len, order) {
                    Some(h) => events_from(buf, off + len, order, lost, handles.push(h)),
                    None => events_from(buf, off + len, order, lost, handles),
                }
            }
        }
    }
}

/// What a row of handles stands for.
pub open spec fn records(v: Seq<Handle>) -> Seq<HandleRecord> {
    v.map_values(|h: Handle| h@)
}

/// A number in eight bytes has a bound.
proof fn lemma_ordered_bound_8(b: Seq<u8>, order: Order)
    requires
        b.len() == 8,
    ensures
        ordered_value(b, order) <= u64::MAX,
{
    let s = match order {
        Order::Little => b,
        Order::Big => b.reverse(),
    };
    reveal_with_fuel(le_value, 9);
}

/// Goes through the events that one read delivered: whether events were lost, and
/// the handles and names of what has changed.
pub fn read_events(buf: &[u8], order: Order) -> (r: (bool, Vec<Handle>))
    ensures
        (r.0, records(r.1@)) == events_from(buf@, 0, order, false, Seq::empty()),
{
    let n: usize = buf.len();
    let mut off: usize = 0;
    let mut lost = false;
    let mut handles: Vec<Handle> = Vec::new();
    assert(records(handles@) =~= Seq::<HandleRecord>::empty());
    while off <= n && n - off >= METADATA_SIZE
        invariant
            n == buf@.len(),
            events_from(buf@, off as int, order, lost, records(handles@)) == events_from(
                buf@,
                0,
                order,
                false,
                Seq::empty(),
            ),
        decreases n - off,
    {
        proof {
            lemma_ordered_bound(buf@.subrange(off as int, off + 4), order);
            lemma_ordered_bound(buf@.subrange(off + 6, off + 8), order);
            lemma_ordered_bound_8(buf@.subrange(off + 8, off + 16), order);
        }
        let len: usize = read_ordered(buf, off, 4, order) as usize;
        if len < METADATA_SIZE || len > n - off {
            return (lost, handles);
        }
        let metadata_len: usize = read_ordered(buf, off + 6, 2, order) as usize;
        let mask: u64 = read_ordered(buf, off + 8, 8, order);
        if mask & Q_OVERFLOW != 0 {
            lost = true;
        } else {
            let event = vstd::slice::slice_subrange(buf, off, off + len);
            match decode_event(event, metadata_len, order) {
                Some(h) => {
                    let ghost before = handles@;
                    let ghost shown = h@;
                    handles.push(h);
                    assert(records(handles@) =~= records(before).push(shown));
                },
                None => {},
            }
        }
        off = off + len;
    }
    (lost, handles)
}

/// The path of a file, given that of its directory: the directory itself where
/// there is no name, or a dot.
pub open spec fn event_full(dir: Seq<u8>, name: Seq<char>) -> Seq<u8> {
    if name.len() == 0 || name == "."@ {
        dir
    } else {
        joined(dir, encode_utf8(name))
    }
}

/// The path that an event is about, given that of the directory, if it lies in
/// the root.
pub fn event_path(dir: &[u8], name: &str, root: &[u8]) -> (r: Option<Vec<u8>>)
    ensures
        match r {
            Some(p) => p@ == event_full(dir@, name@) && within(p@, root@),
            None => !within(event_full(dir@, name@), root@),
        },
{
    proof {
        reveal_strlit("");
    }
    let full = if str_eq(name, "") || str_eq(name, ".") {
        vstd::slice::slice_to_vec(dir)
    } else {
        join(dir, name.as_bytes())
    };
    assert(full@ == event_full(dir@, name@)) by {
        if name@.len() == 0 {
            assert(name@ =~= ""@);
        }
    }
    if starts_with(full.as_slice(), root) {
        Some(full)
    } else {
        None
    }
}

/// A number is read from its bytes, the lowest first or the highest first, as the order
/// says.
pub proof fn law_orders_of_bytes(b: Seq<u8>)
    ensures
        b.len() == 2 ==> ordered_value(b, Order::Little) == b[0] + 0x100 * b[1],
        b.len() == 2 ==> ordered_value(b, Order::Big) == b[1] + 0x100 * b[0],
        b.len() == 4 ==> ordered_value(b, Order::Little) == b[0] + 0x100 * b[1] + 0x1_0000 * b[2]
            + 0x100_0000 * b[3],
        b.len() == 4 ==> ordered_value(b, Order::Big) == b[3] + 0x100 * b[2] + 0x1_0000 * b[1]
            + 0x100_0000 * b[0],
        b.len() == 8 ==> ordered_value(b, Order::Little) == b[0] + 0x100 * b[1] + 0x1_0000 * b[2]
            + 0x100_0000 * b[3] + 0x1_0000_0000 * (b[4] + 0x100 * b[5] + 0x1_0000 * b[6]
            + 0x100_0000 * b[7]),
        b.len() == 8 ==> ordered_value(b, Order::Big) == ordered_value(
            b.reverse(),
            Order::Little,
        ),
{
    law_lowest_byte_first(b);
    law_lowest_byte_first(b.reverse());
}

/// A name ends at the first zero; without one there is no name.
pub proof fn law_names_end_with_a_zero(name: Seq<u8>, rest: Seq<u8>)
    requires
        forall|k: int| 0 <= k < name.len() ==> (#[trigger] name[k]) != 0,
    ensures
        until_zero(name + seq![0u8] + rest) == Some(name),
        until_zero(name) is None,
        zero_ended(name + seq![0u8] + rest) == Some(lossy(name)),
        zero_ended(name) is None,
    decreases name.len(),
{
    let all = name + seq![0u8] + rest;
    if name.len() == 0 {
        assert(name =~= Seq::<u8>::empty());
        assert(all[0] == 0);
    } else {
        let less = name.skip(1);
        assert forall|k: int| 0 <= k < less.len() implies (#[trigger] less[k]) != 0 by {
            assert(less[k] == name[k + 1]);
        }
        law_names_end_with_a_zero(less, rest);
        assert(all.skip(1) =~= less + seq![0u8] + rest);
        assert(all[0] == name[0]);
        assert(seq![name[0]] + less =~= name);
    }
}

/// A record of the type that holds a directory's handle and a name tells both: behind four
/// bytes of head and eight that name the file system stand the handle's size, its type and
/// its bytes, and then the name.
pub proof fn law_records_tell_handles(
    event: Seq<u8>,
    off: int,
    order: Order,
    name: Seq<char>,
    rest: Seq<u8>,
)
    requires
        0 <= off,
        off + 20 <= event.len(),
        event[off] == 2,
        ({
            let len = ordered_value(event.subrange(off + 2, off + 4), order) as int;
            let size = ordered_value(event.subrange(off + 12, off + 16), order) as int;
            &&& off + len <= event.len()
            &&& size <= 128
            &&& 20 + size <= len
            &&& event.subrange(off + 20 + size, off + len) == encode_utf8(name) + seq![0u8] + rest
            &&& forall|k: int|
                0 <= k < encode_utf8(name).len() ==> (#[trigger] encode_utf8(name)[k]) != 0
        }),
    ensures
        ({
            let size = ordered_value(event.subrange(off + 12, off + 16), order) as int;
            let kind = ordered_value(event.subrange(off + 16, off + 20), order) as int;
            let found = handle_from(event, off, order);
            &&& found is Some
            &&& found->0.bytes == event.subrange(off + 20, off + 20 + size)
            &&& found->0.name == name
            &&& found->0.handle_type as int == (if kind < 0x8000_0000 {
                kind
            } else {
                kind - 0x1_0000_0000
            })
        }),
{
    let len = ordered_value(event.subrange(off + 2, off + 4), order) as int;
    let size = ordered_value(event.subrange(off + 12, off + 16), order) as int;
    let kind = ordered_value(event.subrange(off + 16, off + 20), order);
    lemma_ordered_bound(event.subrange(off + 16, off + 20), order);
    law_names_end_with_a_zero(encode_utf8(name), rest);
    law_lossy_text(name);
    let raw = kind as u32;
    assert((raw as i32) as int == (if raw < 0x8000_0000 {
        raw as int
    } else {
        raw - 0x1_0000_0000
    })) by (bit_vector);
    assert(zero_ended(event.subrange(off + 20 + size, off + len)) == Some(name));
}

/// A record of another type is passed over: the next one starts where it ends. Nothing is
/// found behind a record without length, or one that leads out of the event, nor where no
/// head fits any more.
pub proof fn law_other_records_are_passed_over(event: Seq<u8>, off: int, order: Order)
    requires
        0 <= off,
    ensures
        ({
            let len = ordered_value(event.subrange(off + 2, off + 4), order) as int;
            &&& off + 4 > event.len() ==> handle_from(event, off, order) is None
            &&& off + 4 <= event.len() && (len == 0 || off + len > event.len()) ==> handle_from(
                event,
                off,
                order,
            ) is None
            &&& off + 4 <= event.len() && event[off] != 2 && 0 < len && off + len <= event.len()
                ==> handle_from(event, off, order) == handle_from(event, off + len, order)
        }),
{
}

/// A record that should hold a handle and a name holds none where it is cut off, where the
/// handle is larger than any is, or where the name does not end.
pub proof fn law_cut_records_tell_nothing(event: Seq<u8>, off: int, order: Order)
    requires
        0 <= off,
        off + 4 <= event.len(),
        event[off] == 2,
        ({
            let len = ordered_value(event.subrange(off + 2, off + 4), order) as int;
            let size = ordered_value(event.subrange(off + 12, off + 16), order) as int;
            ||| off + 20 > event.len()
            ||| size > 128
            ||| off + 20 + size > event.len()
            ||| 20 + size > len
            ||| off + 20 + size <= off + len <= event.len() && until_zero(
                event.subrange(off + 20 + size, off + len),
            ) is None
        }),
    ensures
        handle_from(event, off, order) is None,
{
}

/// Each event tells the handle in it, if there is one, and the next one starts where it
/// ends. An event tells its length in its first four bytes, the length of its fixed part
/// behind six, and its mask behind eight. One with the mask's bit for it says that events
/// were lost, and no more.
pub proof fn law_events_in_a_row(
    buf: Seq<u8>,
    off: int,
    order: Order,
    lost: bool,
    handles: Seq<HandleRecord>,
)
    requires
        0 <= off,
        off + 24 <= buf.len(),
        ({
            let len = ordered_value(buf.subrange(off, off + 4), order) as int;
            24 <= len && off + len <= buf.len()
        }),
    ensures
        ({
            let len = ordered_value(buf.subrange(off, off + 4), order) as int;
            let fixed = ordered_value(buf.subrange(off + 6, off + 8), order) as int;
            let mask = ordered_value(buf.subrange(off + 8, off + 16), order) as int;
            let found = handle_from(buf.subrange(off, off + len), fixed, order);
            events_from(buf, off, order, lost, handles) == (if (mask / 0x4000) % 2 == 1 {
                events_from(buf, off + len, order, true, handles)
            } else if found is Some {
                events_from(buf, off + len, order, lost, handles.push(found->0))
            } else {
                events_from(buf, off + len, order, lost, handles)
            })
        }),
{
    let mask = ordered_value(buf.subrange(off + 8, off + 16), order);
    lemma_ordered_bound_8(buf.subrange(off + 8, off + 16), order);
    let bits = mask as u64;
    assert((bits & 0x4000 != 0) == ((bits / 0x4000) % 2 == 1)) by (bit_vector);
}

/// The events end where no fixed part fits any more, and where one is shorter than that or
/// leads out of what was read.
pub proof fn law_where_events_end(
    buf: Seq<u8>,
    off: int,
    order: Order,
    lost: bool,
    handles: Seq<HandleRecord>,
)
    requires
        0 <= off,
        ({
            let len = ordered_value(buf.subrange(off, off + 4), order) as int;
            off + 24 > buf.len() || len < 24 || off + len > buf.len()
        }),
    ensures
        events_from(buf, off, order, lost, handles) == (lost, handles),
{
}

/// An event without a name, or with a dot for one, is about the directory itself, and any
/// other about the file by that name in it.
pub proof fn law_what_events_are_about(dir: Seq<u8>, name: Seq<char>)
    ensures
        event_full(dir, Seq::empty()) == dir,
        event_full(dir, seq!['.']) == dir,
        name.len() > 0 && name != seq!['.'] ==> event_full(dir, name) == joined(
            dir,
            encode_utf8(name),
        ),
{
    reveal_strlit(".");
    assert("."@ =~= seq!['.']);
}

/// A handle stands for what it says.
pub proof fn law_what_handles_stand_for(h: Handle)
    ensures
        h@.handle_type == h.handle_type,
        h@.bytes == h.bytes@,
        h@.name == h.name@,
        handle_seen(Some(h)) == Some(h@),
        handle_seen(None) is None,
{
}

/// A row of handles stands for what they say, in order.
pub proof fn law_rows_of_handles(v: Seq<Handle>, k: int)
    ensures
        records(v).len() == v.len(),
        0 <= k < v.len() ==> records(v)[k] == v[k]@,
{
}

} // verus!
