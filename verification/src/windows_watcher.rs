//! The buffers that reading a directory's changes fills on Windows.

use vstd::prelude::*;

use crate::bser::{law_lowest_byte_first, le_value, read_le};

verus! {

/// The size of an entry's fixed part, with room for one unit of the name.
pub const ENTRY_SIZE: usize = 16;

/// Where the name starts in an entry.
pub const NAME_OFFSET: usize = 12;

/// The error that says that the changes did not fit.
pub const NOTIFY_ENUM_DIR: i32 = 1022;

/// What came of a read.
#[derive(Debug, Clone, Copy, PartialEq, Eq, Structural)]
pub enum ReadOutcome {
    /// The changes did not fit: the root is to be crawled again.
    Recrawl,
    /// The watch has ended.
    Stop,
    /// The buffer holds entries.
    Entries,
}

/// What came of a read, given whether it succeeded, with which error it failed,
/// and how many bytes it delivered.
pub open spec fn read_comes_to(ok: bool, error: Option<i32>, returned: u32) -> ReadOutcome {
    if ok {
        if returned == 0 {
            ReadOutcome::Recrawl
        } else {
            ReadOutcome::Entries
        }
    } else if error == Some(NOTIFY_ENUM_DIR) {
        ReadOutcome::Recrawl
    } else {
        ReadOutcome::Stop
    }
}

/// What came of a read, given whether it succeeded, with which error it failed,
/// and how many bytes it delivered.
pub fn read_outcome(ok: bool, error: Option<i32>, returned: u32) -> (r: ReadOutcome)
    ensures
        r == read_comes_to(ok, error, returned),
{
    if !ok {
        match error {
            Some(e) => if e == NOTIFY_ENUM_DIR {
                ReadOutcome::Recrawl
            } else {
                ReadOutcome::Stop
            },
            None => ReadOutcome::Stop,
        }
    } else if returned == 0 {
        ReadOutcome::Recrawl
    } else {
        ReadOutcome::Entries
    }
}

/// The number in four bytes.
pub open spec fn dword(buf: Seq<u8>, i: int) -> nat {
    le_value(buf.subrange(i, i + 4))
}

/// The units of a name.
pub open spec fn units(b: Seq<u8>, n: nat) -> Seq<u16>
    decreases n,
{
    if n == 0 {
        Seq::empty()
    } else {
        units(b, (n - 1) as nat).push(le_value(b.subrange(2 * n - 2, 2 * n as int)) as u16)
    }
}

/// Whether an action says that a file was added, removed, changed or renamed.
pub open spec fn is_change(action: nat) -> bool {
    1 <= action <= 5
}

/// The names of the entries of a buffer from a position on. Entries that do not
/// lie within the buffer are not read.
pub open spec fn names_from(buf: Seq<u8>, off: int, names: Seq<Seq<u16>>) -> Seq<Seq<u16>>
    decreases buf.len() - off,
{
    if !(0 <= off && off + ENTRY_SIZE <= buf.len()) {
        names
    } else {
        let next = dword(buf, off);
        let action = dword(buf, off + 4);
        let len = dword(buf, off + 8);
        let at = off + NAME_OFFSET;
        if at + len > buf.len() {
            names
        } else {
            let name = units(buf.subrange(at, at + len), len / 2);
            let found = if is_change(action) {
                names.push(name)
            } else {
                names
            };
            if next == 0 || off + next > buf.len() {
                found
            } else {
                names_from(buf, off + next, found)
            }
        }
    }
}

/// What a row of names stands for.
pub open spec fn name_rows(v: Seq<Vec<u16>>) -> Seq<Seq<u16>> {
    v.map_values(|n: Vec<u16>| n@)
}

/// A number in four bytes has a bound.
proof fn lemma_dword(b: Seq<u8>)
    requires
        b.len() <= 4,
    ensures
        le_value(b) <= 0xffff_ffff,
        b.len() <= 2 ==> le_value(b) <= 0xffff,
{
    reveal_with_fuel(le_value, 5);
}

/// Reads the number in four bytes.
fn read_dword(buf: &[u8], i: usize) -> (r: u32)
    requires
        i + 4 <= buf@.len(),
    ensures
        r == dword(buf@, i as int),
{
    let n: usize = buf.len();
    assert(i + 4 <= n);
    proof {
        lemma_dword(buf@.subrange(i as int, i + 4));
    }
    read_le(vstd::slice::slice_subrange(buf, i, i + 4)) as u32
}

/// Reads the units of a name.
fn read_units(b: &[u8]) -> (r: Vec<u16>)
    ensures
        r@ == units(b@, (b@.len() / 2) as nat),
{
    let n: usize = b.len() / 2;
    let mut out: Vec<u16> = Vec::new();
    let mut i: usize = 0;
    while i < n
        invariant
            i <= n,
            2 * n <= b@.len() <= usize::MAX,
            out@ == units(b@, i as nat),
        decreases n - i,
    {
        proof {
            lemma_dword(b@.subrange(2 * i as int, 2 * i + 2));
        }
        let part = vstd::slice::slice_subrange(b, 2 * i, 2 * i + 2);
        out.push(read_le(part) as u16);
        i += 1;
    }
    out
}

/// Goes through the entries of a buffer: the names of what has changed.
pub fn read_entries(buf: &[u8]) -> (r: Vec<Vec<u16>>)
    ensures
        name_rows(r@) == names_from(buf@, 0, Seq::empty()),
{
    let n: usize = buf.len();
    let mut off: usize = 0;
    let mut names: Vec<Vec<u16>> = Vec::new();
    assert(name_rows(names@) =~= Seq::<Seq<u16>>::empty());
    while off <= n && n - off >= ENTRY_SIZE
        invariant
            n == buf@.len(),
            names_from(buf@, off as int, name_rows(names@)) == names_from(buf@, 0, Seq::empty()),
        decreases n - off,
    {
        let next: u32 = read_dword(buf, off);
        let action: u32 = read_dword(buf, off + 4);
        let len: u32 = read_dword(buf, off + 8);
        let at: usize = off + NAME_OFFSET;
        if len as usize > n - at {
            return names;
        }
        if 1 <= action && action <= 5 {
            let name = read_units(vstd::slice::slice_subrange(buf, at, at + len as usize));
            let ghost before = names@;
            let ghost shown = name@;
            names.push(name);
            assert(name_rows(names@) =~= name_rows(before).push(shown));
        }
        if next == 0 || next as usize > n - off {
            return names;
        }
        off = off + next as usize;
    }
    names
}

/// The number in four bytes, the lowest first.
proof fn lemma_four_bytes(buf: Seq<u8>, i: int)
    requires
        0 <= i,
        i + 4 <= buf.len(),
    ensures
        dword(buf, i) == buf[i] + 0x100 * buf[i + 1] + 0x1_0000 * buf[i + 2] + 0x100_0000 * buf[i
            + 3],
{
    law_lowest_byte_first(buf.subrange(i, i + 4));
}

/// The units of a name, each in two bytes, the lower first.
proof fn lemma_two_bytes(b: Seq<u8>, n: nat)
    requires
        2 * n <= b.len(),
    ensures
        units(b, n).len() == n,
        forall|k: int|
            0 <= k < n ==> #[trigger] units(b, n)[k] as int == b[2 * k] + 0x100 * b[2 * k + 1],
    decreases n,
{
    if n > 0 {
        let m = (n - 1) as nat;
        lemma_two_bytes(b, m);
        let part = b.subrange(2 * n - 2, 2 * n as int);
        law_lowest_byte_first(part);
        assert(part[0] == b[2 * n - 2] && part[1] == b[2 * n - 1]);
    }
}

/// An entry that says that something was added, removed or changed, or gives the old or
/// the new name of something renamed, tells its name; one that says anything else tells
/// nothing. An entry starts with the distance to the next, what happened, and the length
/// of the name in bytes, each a number in four bytes, the lowest first; the name follows,
/// each unit in two bytes. What stands at the distance follows in the same way, unless the
/// distance is nought or leads out of the buffer.
pub proof fn law_entries_tell_their_names(
    buf: Seq<u8>,
    off: int,
    names: Seq<Seq<u16>>,
    name: Seq<u16>,
)
    requires
        0 <= off,
        off + 16 <= buf.len(),
        ({
            let len = buf[off + 8] + 0x100 * buf[off + 9] + 0x1_0000 * buf[off + 10] + 0x100_0000
                * buf[off + 11];
            &&& off + 12 + len <= buf.len()
            &&& name.len() == len / 2
            &&& forall|k: int|
                0 <= k < name.len() ==> #[trigger] name[k] as int == buf[off + 12 + 2 * k] + 0x100
                    * buf[off + 13 + 2 * k]
        }),
    ensures
        ({
            let next = buf[off] + 0x100 * buf[off + 1] + 0x1_0000 * buf[off + 2] + 0x100_0000
                * buf[off + 3];
            let action = buf[off + 4] + 0x100 * buf[off + 5] + 0x1_0000 * buf[off + 6]
                + 0x100_0000 * buf[off + 7];
            let known = action == 1 || action == 2 || action == 3 || action == 4 || action == 5;
            let found = if known {
                names.push(name)
            } else {
                names
            };
            &&& next == 0 || off + next > buf.len() ==> names_from(buf, off, names) == found
            &&& 0 < next && off + next <= buf.len() ==> names_from(buf, off, names) == names_from(
                buf,
                off + next,
                found,
            )
        }),
{
    lemma_four_bytes(buf, off);
    lemma_four_bytes(buf, off + 4);
    lemma_four_bytes(buf, off + 8);
    let len = dword(buf, off + 8);
    let part = buf.subrange(off + 12, off + 12 + len);
    lemma_two_bytes(part, (len / 2) as nat);
    assert forall|k: int| 0 <= k < name.len() implies units(part, len / 2)[k] == name[k] by {
        assert(units(part, len / 2)[k] as int == part[2 * k] + 0x100 * part[2 * k + 1]);
    }
    assert(units(part, len / 2) =~= name);
}

/// Nothing is read where no entry fits any more, nor where a name leads out of the buffer.
pub proof fn law_cut_entries_tell_nothing(buf: Seq<u8>, off: int, names: Seq<Seq<u16>>)
    requires
        0 <= off,
        off + 16 > buf.len() || off + 12 + buf[off + 8] + 0x100 * buf[off + 9] + 0x1_0000 * buf[off
            + 10] + 0x100_0000 * buf[off + 11] > buf.len(),
    ensures
        names_from(buf, off, names) == names,
{
    if off + 16 <= buf.len() {
        lemma_four_bytes(buf, off + 8);
    }
}

/// A buffer that holds one entry, which says that something was added, removed or changed,
/// or gives the old or the new name of something renamed, yields that name and no other.
pub proof fn law_one_entry(buf: Seq<u8>, name: Seq<u16>)
    requires
        buf.len() >= 16,
        buf.len() >= 12 + 2 * name.len(),
        buf[0] == 0 && buf[1] == 0 && buf[2] == 0 && buf[3] == 0,
        1 <= buf[4] <= 5 && buf[5] == 0 && buf[6] == 0 && buf[7] == 0,
        buf[8] + 0x100 * buf[9] + 0x1_0000 * buf[10] + 0x100_0000 * buf[11] == 2 * name.len(),
        forall|k: int|
            0 <= k < name.len() ==> #[trigger] name[k] as int == buf[12 + 2 * k] + 0x100 * buf[13
                + 2 * k],
    ensures
        names_from(buf, 0, Seq::empty()) == seq![name],
{
    law_entries_tell_their_names(buf, 0, Seq::empty(), name);
}

/// A read that delivers bytes delivers entries; one that delivers none, or fails because
/// the changes did not fit, asks for a crawl; any other failure ends the watch.
pub proof fn law_what_reads_come_to(error: Option<i32>, returned: u32, code: i32)
    ensures
        returned > 0 ==> read_comes_to(true, error, returned) == ReadOutcome::Entries,
        read_comes_to(true, error, 0) == ReadOutcome::Recrawl,
        read_comes_to(false, Some(1022), returned) == ReadOutcome::Recrawl,
        code != 1022 ==> read_comes_to(false, Some(code), returned) == ReadOutcome::Stop,
        read_comes_to(false, None, returned) == ReadOutcome::Stop,
{
}

/// A row of names stands for what it holds, in order.
pub proof fn law_rows_of_names(v: Seq<Vec<u16>>, k: int)
    ensures
        name_rows(v).len() == v.len(),
        0 <= k < v.len() ==> name_rows(v)[k] == v[k]@,
{
}

} // verus!
