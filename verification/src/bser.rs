//! The binary encoding of values, and the frames that carry it: a frame of the
//! first version starts with the magic `00 01`, one of the second with `00 02`
//! and four bytes of capabilities; then come the body's length and the body.

use vstd::prelude::*;
use vstd::utf8::*;

use crate::text::{from_utf8_lossy, hex, lemma_stands_parts, lossy, push_hex, stands};
use crate::value::{
    data, lemma_data_push, lemma_data_take, lemma_members_push, lemma_members_take, members, Datum,
    Value,
};

verus! {

/// What a frame of the first version starts with.
pub const MAGIC_V1: [u8; 2] = [0x00, 0x01];

/// What a frame of the second version starts with.
pub const MAGIC_V2: [u8; 2] = [0x00, 0x02];

const TYPE_ARRAY: u8 = 0x00;

const TYPE_OBJECT: u8 = 0x01;

const TYPE_STRING: u8 = 0x02;

const TYPE_INT8: u8 = 0x03;

const TYPE_INT16: u8 = 0x04;

const TYPE_INT32: u8 = 0x05;

const TYPE_INT64: u8 = 0x06;

const TYPE_DOUBLE: u8 = 0x07;

const TYPE_TRUE: u8 = 0x08;

const TYPE_FALSE: u8 = 0x09;

const TYPE_NULL: u8 = 0x0a;

const TYPE_UTF8STRING: u8 = 0x0d;

/// The version of a frame.
#[derive(Debug, Clone, Copy, PartialEq, Eq, Structural)]
pub enum PduVersion {
    V1,
    V2,
}

/// Why bytes could not be read.
#[derive(Debug, Clone, Copy, PartialEq, Eq, Structural)]
pub enum BserError {
    /// The bytes end too early.
    Truncated,
    /// A length does not start with an integer's tag.
    ExpectedInt,
    /// An object's key is no string.
    ExpectedKey,
    /// No value starts with this tag.
    UnsupportedTag(u8),
    /// The length of a frame starts with this tag, which is no integer's.
    BadLengthTag(u8),
    /// A frame does not start with the magic of either version.
    BadMagic,
    /// A length or a count that nothing in memory can have.
    Oversized,
    /// The stream ends within a frame.
    UnexpectedEnd,
}

impl BserError {
    /// What is said of the error.
    pub open spec fn text(self) -> Seq<char> {
        match self {
            BserError::Truncated => "bser: truncated"@,
            BserError::ExpectedInt => "bser: expected int"@,
            BserError::ExpectedKey => "bser: expected string key"@,
            BserError::UnsupportedTag(tag) => "bser: unsupported type tag 0x"@ + hex(tag),
            BserError::BadLengthTag(tag) => "bser: bad length tag 0x"@ + hex(tag),
            BserError::BadMagic => "bser: bad magic"@,
            BserError::Oversized => "bser: oversized"@,
            BserError::UnexpectedEnd => "failed to fill whole buffer"@,
        }
    }

    /// Says what is wrong.
    pub fn message(&self) -> (r: String)
        ensures
            r@ == self.text(),
    {
        match self {
            BserError::Truncated => "bser: truncated".to_string(),
            BserError::ExpectedInt => "bser: expected int".to_string(),
            BserError::ExpectedKey => "bser: expected string key".to_string(),
            BserError::UnsupportedTag(tag) => {
                let mut out = "bser: unsupported type tag 0x".to_string();
                push_hex(&mut out, *tag);
                out
            },
            BserError::BadLengthTag(tag) => {
                let mut out = "bser: bad length tag 0x".to_string();
                push_hex(&mut out, *tag);
                out
            },
            BserError::BadMagic => "bser: bad magic".to_string(),
            BserError::Oversized => "bser: oversized".to_string(),
            BserError::UnexpectedEnd => "failed to fill whole buffer".to_string(),
        }
    }
}

/// 256 to the power of `n`.
pub open spec fn pow256(n: nat) -> nat
    decreases n,
{
    if n == 0 {
        1
    } else {
        256 * pow256((n - 1) as nat)
    }
}

/// A number in `n` bytes, the lowest first.
pub open spec fn le_bytes(x: nat, n: nat) -> Seq<u8>
    decreases n,
{
    if n == 0 {
        Seq::empty()
    } else {
        seq![(x % 256) as u8] + le_bytes(x / 256, (n - 1) as nat)
    }
}

/// The number that bytes denote, the lowest first.
pub open spec fn le_value(s: Seq<u8>) -> nat
    decreases s.len(),
{
    if s.len() == 0 {
        0
    } else {
        s[0] as nat + 256 * le_value(s.skip(1))
    }
}

/// The two's complement of a number in `n` bytes.
pub open spec fn wrapped(v: int, n: nat) -> nat {
    if v < 0 {
        (v + pow256(n)) as nat
    } else {
        v as nat
    }
}

/// The signed number that bytes denote in two's complement, the lowest first.
pub open spec fn signed_le(s: Seq<u8>) -> int {
    if 2 * le_value(s) >= pow256(s.len()) {
        le_value(s) - pow256(s.len())
    } else {
        le_value(s) as int
    }
}

/// How many bytes follow the tag of an integer.
pub open spec fn int_width(tag: u8) -> Option<nat> {
    if tag == 0x03 {
        Some(1)
    } else if tag == 0x04 {
        Some(2)
    } else if tag == 0x05 {
        Some(4)
    } else if tag == 0x06 {
        Some(8)
    } else {
        None
    }
}

/// The tag of the smallest integer type that holds a number.
pub open spec fn int_tag(v: i64) -> u8 {
    if -0x80 <= v <= 0x7f {
        0x03
    } else if -0x8000 <= v <= 0x7fff {
        0x04
    } else if -0x8000_0000 <= v <= 0x7fff_ffff {
        0x05
    } else {
        0x06
    }
}

/// The encoding of an integer.
#[verifier::opaque]
pub open spec fn int_bytes(v: i64) -> Seq<u8> {
    let width = int_width(int_tag(v))->0;
    seq![int_tag(v)] + le_bytes(wrapped(v as int, width), width)
}

/// The tag of a string.
pub open spec fn string_tag(version: PduVersion) -> u8 {
    if version == PduVersion::V2 {
        0x0d
    } else {
        0x02
    }
}

/// The encoding of a string.
#[verifier::opaque]
pub open spec fn string_bytes(s: Seq<char>, version: PduVersion) -> Seq<u8> {
    seq![string_tag(version)] + int_bytes(encode_utf8(s).len() as i64) + encode_utf8(s)
}

/// The encoding of a value.
pub open spec fn value_bytes(v: Datum, version: PduVersion) -> Seq<u8>
    decreases v,
{
    match v {
        Datum::Null => seq![0x0au8],
        Datum::Bool(true) => seq![0x08u8],
        Datum::Bool(false) => seq![0x09u8],
        Datum::Int(i) => int_bytes(i),
        Datum::Double(d) => seq![0x07u8] + le_bytes(d as nat, 8),
        Datum::Str(s) => string_bytes(s, version),
        Datum::Array(items) => seq![0x00u8] + int_bytes(items.len() as i64) + items_bytes(
            items,
            version,
        ),
        Datum::Object(pairs) => seq![0x01u8] + int_bytes(pairs.len() as i64) + members_bytes(
            pairs,
            version,
        ),
    }
}

/// The encodings of an array's elements, one after the other.
pub open spec fn items_bytes(items: Seq<Datum>, version: PduVersion) -> Seq<u8>
    decreases items,
{
    if items.len() == 0 {
        Seq::empty()
    } else {
        items_bytes(items.drop_last(), version) + value_bytes(items.last(), version)
    }
}

/// The encodings of an object's members, one after the other.
pub open spec fn members_bytes(pairs: Seq<(Seq<char>, Datum)>, version: PduVersion) -> Seq<u8>
    decreases pairs,
{
    if pairs.len() == 0 {
        Seq::empty()
    } else {
        members_bytes(pairs.drop_last(), version) + string_bytes(pairs.last().0, version)
            + value_bytes(pairs.last().1, version)
    }
}

/// What a frame holds before the length of its body.
pub open spec fn frame_head(version: PduVersion) -> Seq<u8> {
    match version {
        PduVersion::V1 => seq![0x00u8, 0x01],
        PduVersion::V2 => seq![0x00u8, 0x02, 0, 0, 0, 0],
    }
}

/// The frame of a value.
pub open spec fn frame(v: Datum, version: PduVersion) -> Seq<u8> {
    frame_head(version) + int_bytes(value_bytes(v, version).len() as i64) + value_bytes(v, version)
}

/// Appends the low `n` bytes of a number.
fn push_le(out: &mut Vec<u8>, x: u64, n: u8)
    requires
        n <= 8,
    ensures
        final(out)@ == old(out)@ + le_bytes(x as nat, n as nat),
{
    let mut rest: u64 = x;
    let mut left: u8 = n;
    assert(out@ =~= old(out)@);
    while left > 0
        invariant
            left <= n <= 8,
            out@ + le_bytes(rest as nat, left as nat) == old(out)@ + le_bytes(x as nat, n as nat),
        decreases left,
    {
        let ghost before = out@;
        out.push((rest % 256) as u8);
        assert(out@ + le_bytes((rest / 256) as nat, (left - 1) as nat) =~= before + le_bytes(
            rest as nat,
            left as nat,
        ));
        rest = rest / 256;
        left -= 1;
    }
    assert(out@ =~= out@ + le_bytes(rest as nat, 0));
}

/// Appends an integer in the smallest type that holds it.
pub(crate) fn encode_int(out: &mut Vec<u8>, v: i64)
    ensures
        final(out)@ == old(out)@ + int_bytes(v),
{
    proof {
        reveal(int_bytes);
    }
    assert(pow256(1) == 256 && pow256(2) == 65536 && pow256(4) == 0x1_0000_0000 && pow256(8)
        == 0x1_0000_0000_0000_0000) by {
        reveal_with_fuel(pow256, 9);
    }
    if -0x80 <= v && v <= 0x7f {
        let u: u64 = if v < 0 {
            (v + 0x100) as u64
        } else {
            v as u64
        };
        out.push(TYPE_INT8);
        push_le(out, u, 1);
    } else if -0x8000 <= v && v <= 0x7fff {
        let u: u64 = if v < 0 {
            (v + 0x1_0000) as u64
        } else {
            v as u64
        };
        out.push(TYPE_INT16);
        push_le(out, u, 2);
    } else if -0x8000_0000 <= v && v <= 0x7fff_ffff {
        let u: u64 = if v < 0 {
            (v + 0x1_0000_0000) as u64
        } else {
            v as u64
        };
        out.push(TYPE_INT32);
        push_le(out, u, 4);
    } else {
        let u: u64 = if v < 0 {
            u64::MAX - ((-(v + 1)) as u64)
        } else {
            v as u64
        };
        out.push(TYPE_INT64);
        push_le(out, u, 8);
    }
    assert(out@ =~= old(out)@ + int_bytes(v));
}

/// Appends bytes.
pub(crate) fn push_all(out: &mut Vec<u8>, bytes: &[u8])
    ensures
        final(out)@ == old(out)@ + bytes@,
{
    let mut i: usize = 0;
    assert(out@ =~= old(out)@ + bytes@.take(0));
    while i < bytes.len()
        invariant
            i <= bytes.len(),
            out@ == old(out)@ + bytes@.take(i as int),
        decreases bytes.len() - i,
    {
        out.push(bytes[i]);
        i += 1;
        assert(old(out)@ + bytes@.take(i as int) =~= (old(out)@ + bytes@.take(i - 1)).push(
            bytes@[i - 1],
        ));
    }
    assert(bytes@.take(i as int) == bytes@);
}

/// Appends a string.
pub(crate) fn encode_string(out: &mut Vec<u8>, s: &str, version: PduVersion)
    ensures
        final(out)@ == old(out)@ + string_bytes(s@, version),
{
    proof {
        reveal(string_bytes);
    }
    let bytes = s.as_bytes();
    out.push(
        if version == PduVersion::V2 {
            TYPE_UTF8STRING
        } else {
            TYPE_STRING
        },
    );
    encode_int(out, bytes.len() as i64);
    push_all(out, bytes);
    assert(out@ =~= old(out)@ + string_bytes(s@, version));
}

/// Appends a value.
pub(crate) fn encode_value(out: &mut Vec<u8>, v: &Value, version: PduVersion)
    ensures
        final(out)@ == old(out)@ + value_bytes(v@, version),
    decreases v,
{
    match v {
        Value::Null => out.push(TYPE_NULL),
        Value::Bool(true) => out.push(TYPE_TRUE),
        Value::Bool(false) => out.push(TYPE_FALSE),
        Value::Int(i) => encode_int(out, *i),
        Value::Double(d) => {
            out.push(TYPE_DOUBLE);
            push_le(out, *d, 8);
            assert(out@ =~= old(out)@ + value_bytes(v@, version));
        },
        Value::Str(s) => encode_string(out, s.as_str(), version),
        Value::Array(items) => {
            out.push(TYPE_ARRAY);
            encode_int(out, items.len() as i64);
            let ghost head = out@;
            let mut i: usize = 0;
            proof {
                crate::value::lemma_data(items@);
                assert(items@.take(0) == Seq::<Value>::empty());
                assert(out@ =~= head + items_bytes(data(items@.take(0)), version));
            }
            while i < items.len()
                invariant
                    i <= items.len(),
                    v == Value::Array(*items),
                    out@ == head + items_bytes(data(items@.take(i as int)), version),
                decreases items.len() - i,
            {
                assert(decreases_to!(*v => v->Array_0));
                assert(decreases_to!(*items => items[i as int]));
                encode_value(out, &items[i], version);
                proof {
                    lemma_data_take(items@, i as int);
                    let front = data(items@.take(i as int));
                    assert(front.push(items@[i as int]@).drop_last() == front);
                    assert(out@ =~= head + items_bytes(data(items@.take(i + 1)), version));
                }
                i += 1;
            }
            assert(items@.take(i as int) == items@);
            assert(out@ =~= old(out)@ + value_bytes(v@, version));
        },
        Value::Object(pairs) => {
            out.push(TYPE_OBJECT);
            encode_int(out, pairs.len() as i64);
            let ghost head = out@;
            let mut i: usize = 0;
            proof {
                crate::value::lemma_members(pairs@);
                assert(pairs@.take(0) == Seq::<(String, Value)>::empty());
                assert(out@ =~= head + members_bytes(members(pairs@.take(0)), version));
            }
            while i < pairs.len()
                invariant
                    i <= pairs.len(),
                    v == Value::Object(*pairs),
                    out@ == head + members_bytes(members(pairs@.take(i as int)), version),
                decreases pairs.len() - i,
            {
                assert(decreases_to!(*v => v->Object_0));
                assert(decreases_to!(*pairs => pairs[i as int]));
                assert(decreases_to!(pairs[i as int] => pairs[i as int].1));
                encode_string(out, pairs[i].0.as_str(), version);
                encode_value(out, &pairs[i].1, version);
                proof {
                    lemma_members_take(pairs@, i as int);
                    let front = members(pairs@.take(i as int));
                    assert(front.push((pairs@[i as int].0@, pairs@[i as int].1@)).drop_last() == front);
                    assert(out@ =~= head + members_bytes(members(pairs@.take(i + 1)), version));
                }
                i += 1;
            }
            assert(pairs@.take(i as int) == pairs@);
            assert(out@ =~= old(out)@ + value_bytes(v@, version));
        },
    }
}

/// Encodes a value as a whole frame.
pub fn encode(v: &Value, version: PduVersion) -> (r: Vec<u8>)
    ensures
        r@ == frame(v@, version),
{
    let mut body: Vec<u8> = Vec::new();
    encode_value(&mut body, v, version);
    assert(body@ =~= value_bytes(v@, version));
    let mut out: Vec<u8> = Vec::new();
    out.push(0x00);
    match version {
        PduVersion::V1 => out.push(0x01),
        PduVersion::V2 => {
            out.push(0x02);
            push_le(&mut out, 0, 4);
            assert(le_bytes(0, 4) =~= seq![0u8, 0, 0, 0]) by {
                reveal_with_fuel(le_bytes, 5);
            }
        },
    }
    assert(out@ =~= frame_head(version));
    encode_int(&mut out, body.len() as i64);
    push_all(&mut out, body.as_slice());
    out
}

/// Appends a value's frame to what is written so far.
pub fn write_pdu(w: &mut Vec<u8>, v: &Value, version: PduVersion)
    ensures
        final(w)@ == old(w)@ + frame(v@, version),
{
    let bytes = encode(v, version);
    push_all(w, bytes.as_slice());
}

/// The next `n` bytes at a position, and the position behind them.
pub open spec fn take_at(s: Seq<u8>, i: int, n: nat) -> Result<(Seq<u8>, int), BserError> {
    if i + n > usize::MAX {
        Err(BserError::Oversized)
    } else if i + n > s.len() {
        Err(BserError::Truncated)
    } else {
        Ok((s.subrange(i, i + n), i + n))
    }
}

/// The integer at a position, without a tag.
pub open spec fn signed_at(s: Seq<u8>, i: int, width: nat) -> Result<(i64, int), BserError> {
    match take_at(s, i, width) {
        Ok((b, j)) => Ok((signed_le(b) as i64, j)),
        Err(e) => Err(e),
    }
}

/// The integer at a position.
pub open spec fn int_at(s: Seq<u8>, i: int) -> Result<(i64, int), BserError> {
    match take_at(s, i, 1) {
        Ok((tag, j)) => match int_width(tag[0]) {
            Some(width) => signed_at(s, j, width),
            None => Err(BserError::ExpectedInt),
        },
        Err(e) => Err(e),
    }
}

/// The string at a position, without its tag.
pub open spec fn text_at(s: Seq<u8>, i: int) -> Result<(Seq<char>, int), BserError> {
    match int_at(s, i) {
        Ok((n, j)) => match take_at(s, j, (n as usize) as nat) {
            Ok((b, k)) => Ok((lossy(b), k)),
            Err(e) => Err(e),
        },
        Err(e) => Err(e),
    }
}

/// The value at a position.
pub open spec fn value_at(s: Seq<u8>, i: int) -> Result<(Datum, int), BserError>
    decreases s.len() - i, 0nat,
{
    match take_at(s, i, 1) {
        Ok((tag, j)) => {
            if tag[0] == 0x0a {
                Ok((Datum::Null, j))
            } else if tag[0] == 0x08 {
                Ok((Datum::Bool(true), j))
            } else if tag[0] == 0x09 {
                Ok((Datum::Bool(false), j))
            } else if int_width(tag[0]) is Some {
                match signed_at(s, j, int_width(tag[0])->0) {
                    Ok((v, k)) => Ok((Datum::Int(v), k)),
                    Err(e) => Err(e),
                }
            } else if tag[0] == 0x07 {
                match take_at(s, j, 8) {
                    Ok((b, k)) => Ok((Datum::Double(le_value(b) as u64), k)),
                    Err(e) => Err(e),
                }
            } else if tag[0] == 0x02 || tag[0] == 0x0d {
                match text_at(s, j) {
                    Ok((t, k)) => Ok((Datum::Str(t), k)),
                    Err(e) => Err(e),
                }
            } else if tag[0] == 0x00 {
                match int_at(s, j) {
                    Ok((n, k)) => if n as usize > isize::MAX {
                        Err(BserError::Oversized)
                    } else {
                        match items_at(s, k, (n as usize) as nat, Seq::empty()) {
                            Ok((items, m)) => Ok((Datum::Array(items), m)),
                            Err(e) => Err(e),
                        }
                    },
                    Err(e) => Err(e),
                }
            } else if tag[0] == 0x01 {
                match int_at(s, j) {
                    Ok((n, k)) => if n as usize > isize::MAX {
                        Err(BserError::Oversized)
                    } else {
                        match members_at(s, k, (n as usize) as nat, Seq::empty()) {
                            Ok((pairs, m)) => Ok((Datum::Object(pairs), m)),
                            Err(e) => Err(e),
                        }
                    },
                    Err(e) => Err(e),
                }
            } else {
                Err(BserError::UnsupportedTag(tag[0]))
            }
        },
        Err(e) => Err(e),
    }
}

/// `n` more values at a position, behind those read so far. (A value takes at
/// least one byte.)
pub open spec fn items_at(s: Seq<u8>, i: int, n: nat, read: Seq<Datum>) -> Result<
    (Seq<Datum>, int),
    BserError,
>
    decreases s.len() - i, n,
{
    if n == 0 {
        Ok((read, i))
    } else {
        match value_at(s, i) {
            Ok((v, j)) => if i < j <= s.len() {
                items_at(s, j, (n - 1) as nat, read.push(v))
            } else {
                Err(BserError::Truncated)
            },
            Err(e) => Err(e),
        }
    }
}

/// `n` more members at a position, behind those read so far. (A member takes at
/// least one byte.)
pub open spec fn members_at(
    s: Seq<u8>,
    i: int,
    n: nat,
    read: Seq<(Seq<char>, Datum)>,
) -> Result<(Seq<(Seq<char>, Datum)>, int), BserError>
    decreases s.len() - i, n,
{
    if n == 0 {
        Ok((read, i))
    } else {
        match take_at(s, i, 1) {
            Ok((tag, j)) => if tag[0] != 0x02 && tag[0] != 0x0d {
                Err(BserError::ExpectedKey)
            } else {
                match text_at(s, j) {
                    Ok((key, k)) => match value_at(s, k) {
                        Ok((v, m)) => if k < m <= s.len() {
                            members_at(s, m, (n - 1) as nat, read.push((key, v)))
                        } else {
                            Err(BserError::Truncated)
                        },
                        Err(e) => Err(e),
                    },
                    Err(e) => Err(e),
                }
            },
            Err(e) => Err(e),
        }
    }
}

/// A value takes at least one byte.
pub proof fn lemma_value_advances(s: Seq<u8>, i: int)
    requires
        0 <= i <= s.len(),
    ensures
        match value_at(s, i) {
            Ok((_, j)) => i < j <= s.len(),
            Err(_) => true,
        },
    decreases s.len() - i, 0nat,
{
    match take_at(s, i, 1) {
        Ok((tag, j)) => match int_at(s, j) {
            Ok((n, k)) => {
                lemma_items_advance(s, k, (n as usize) as nat, Seq::empty());
                lemma_members_advance(s, k, (n as usize) as nat, Seq::empty());
            },
            Err(_) => {},
        },
        Err(_) => {},
    }
}

proof fn lemma_items_advance(s: Seq<u8>, i: int, n: nat, read: Seq<Datum>)
    requires
        0 <= i <= s.len(),
    ensures
        match items_at(s, i, n, read) {
            Ok((_, j)) => i <= j <= s.len(),
            Err(_) => true,
        },
    decreases s.len() - i, n,
{
    if n > 0 {
        match value_at(s, i) {
            Ok((v, j)) => if i < j <= s.len() {
                lemma_items_advance(s, j, (n - 1) as nat, read.push(v));
            },
            Err(_) => {},
        }
    }
}

proof fn lemma_members_advance(s: Seq<u8>, i: int, n: nat, read: Seq<(Seq<char>, Datum)>)
    requires
        0 <= i <= s.len(),
    ensures
        match members_at(s, i, n, read) {
            Ok((_, j)) => i <= j <= s.len(),
            Err(_) => true,
        },
    decreases s.len() - i, n,
{
    if n > 0 {
        match take_at(s, i, 1) {
            Ok((tag, j)) => match text_at(s, j) {
                Ok((key, k)) => match value_at(s, k) {
                    Ok((v, m)) => if k < m <= s.len() {
                        lemma_members_advance(s, m, (n - 1) as nat, read.push((key, v)));
                    },
                    Err(_) => {},
                },
                Err(_) => {},
            },
            Err(_) => {},
        }
    }
}

/// The bounds of what bytes denote.
proof fn lemma_le_value_bound(s: Seq<u8>)
    ensures
        le_value(s) < pow256(s.len()),
    decreases s.len(),
{
    if s.len() > 0 {
        lemma_le_value_bound(s.skip(1));
    }
}

/// Reads a number, the lowest byte first.
pub(crate) fn read_le(b: &[u8]) -> (r: u64)
    requires
        b.len() <= 8,
    ensures
        r == le_value(b@),
{
    let mut i: usize = b.len();
    let mut value: u64 = 0;
    assert(b@.skip(b@.len() as int) == Seq::<u8>::empty());
    proof {
        reveal_with_fuel(pow256, 9);
    }
    while i > 0
        invariant
            i <= b.len() <= 8,
            value == le_value(b@.skip(i as int)),
        decreases i,
    {
        proof {
            assert(b@.skip(i - 1).skip(1) == b@.skip(i as int));
            lemma_le_value_bound(b@.skip(i - 1));
            assert(pow256((b@.len() - i + 1) as nat) <= 0x1_0000_0000_0000_0000) by {
                reveal_with_fuel(pow256, 9);
            }
        }
        value = value * 256 + b[i - 1] as u64;
        i -= 1;
    }
    assert(b@.skip(0) == b@);
    value
}

/// Reads a signed number in two's complement, the lowest byte first.
fn read_signed_le(b: &[u8]) -> (r: i64)
    requires
        b.len() == 1 || b.len() == 2 || b.len() == 4 || b.len() == 8,
    ensures
        r == signed_le(b@),
{
    let u: u64 = read_le(b);
    proof {
        reveal_with_fuel(pow256, 9);
        lemma_le_value_bound(b@);
    }
    if b.len() == 1 {
        if u >= 0x80 {
            u as i64 - 0x100
        } else {
            u as i64
        }
    } else if b.len() == 2 {
        if u >= 0x8000 {
            u as i64 - 0x1_0000
        } else {
            u as i64
        }
    } else if b.len() == 4 {
        if u >= 0x8000_0000 {
            u as i64 - 0x1_0000_0000
        } else {
            u as i64
        }
    } else {
        if u >= 0x8000_0000_0000_0000 {
            -((u64::MAX - u) as i64) - 1
        } else {
            u as i64
        }
    }
}

/// A position in some bytes.
struct Reader<'a> {
    buf: &'a [u8],
    pos: usize,
}

/// Whether what was read, and the position reached, are what stands in the bytes.
spec fn read_as<T, D>(
    got: Result<T, BserError>,
    shown: spec_fn(T) -> D,
    pos: usize,
    want: Result<(D, int), BserError>,
) -> bool {
    match want {
        Ok((d, j)) => got is Ok && shown(got->Ok_0) == d && pos == j,
        Err(e) => got == Err::<T, BserError>(e),
    }
}

impl<'a> Reader<'a> {
    spec fn wf(&self) -> bool {
        self.pos <= self.buf@.len()
    }

    /// The next `n` bytes.
    fn take(&mut self, n: usize) -> (r: Result<&'a [u8], BserError>)
        requires
            old(self).wf(),
        ensures
            final(self).wf(),
            final(self).buf == old(self).buf,
            read_as(
                r,
                |b: &'a [u8]| b@,
                final(self).pos,
                take_at(old(self).buf@, old(self).pos as int, n as nat),
            ),
            r is Err ==> final(self).pos == old(self).pos,
    {
        if n > usize::MAX - self.pos {
            return Err(BserError::Oversized);
        }
        if self.pos + n > self.buf.len() {
            return Err(BserError::Truncated);
        }
        let s = vstd::slice::slice_subrange(self.buf, self.pos, self.pos + n);
        self.pos = self.pos + n;
        Ok(s)
    }

    /// The next byte.
    fn u8(&mut self) -> (r: Result<u8, BserError>)
        requires
            old(self).wf(),
        ensures
            final(self).wf(),
            final(self).buf == old(self).buf,
            read_as(r, |b: u8| seq![b], final(self).pos, take_at(old(self).buf@, old(self).pos as int, 1)),
    {
        match self.take(1) {
            Ok(b) => {
                assert(seq![b@[0]] =~= b@);
                Ok(b[0])
            },
            Err(e) => Err(e),
        }
    }

    /// The integer of the given width.
    fn read_signed(&mut self, width: usize) -> (r: Result<i64, BserError>)
        requires
            old(self).wf(),
            width == 1 || width == 2 || width == 4 || width == 8,
        ensures
            final(self).wf(),
            final(self).buf == old(self).buf,
            read_as(r, |v: i64| v, final(self).pos, signed_at(old(self).buf@, old(self).pos as int, width as nat)),
    {
        match self.take(width) {
            Ok(b) => Ok(read_signed_le(b)),
            Err(e) => Err(e),
        }
    }

    /// The next integer.
    fn read_int(&mut self) -> (r: Result<i64, BserError>)
        requires
            old(self).wf(),
        ensures
            final(self).wf(),
            final(self).buf == old(self).buf,
            read_as(r, |v: i64| v, final(self).pos, int_at(old(self).buf@, old(self).pos as int)),
    {
        let tag: u8 = match self.u8() {
            Ok(t) => t,
            Err(e) => return Err(e),
        };
        if tag == TYPE_INT8 {
            self.read_signed(1)
        } else if tag == TYPE_INT16 {
            self.read_signed(2)
        } else if tag == TYPE_INT32 {
            self.read_signed(4)
        } else if tag == TYPE_INT64 {
            self.read_signed(8)
        } else {
            Err(BserError::ExpectedInt)
        }
    }

    /// The next string, behind its tag.
    fn read_string_body(&mut self) -> (r: Result<String, BserError>)
        requires
            old(self).wf(),
        ensures
            final(self).wf(),
            final(self).buf == old(self).buf,
            read_as(r, |t: String| t@, final(self).pos, text_at(old(self).buf@, old(self).pos as int)),
    {
        let n: usize = match self.read_int() {
            Ok(n) => n as usize,
            Err(e) => return Err(e),
        };
        match self.take(n) {
            Ok(b) => Ok(from_utf8_lossy(b)),
            Err(e) => Err(e),
        }
    }

    /// The next value.
    fn read_value(&mut self) -> (r: Result<Value, BserError>)
        requires
            old(self).wf(),
        ensures
            final(self).wf(),
            final(self).buf == old(self).buf,
            read_as(r, |v: Value| v@, final(self).pos, value_at(old(self).buf@, old(self).pos as int)),
        decreases old(self).buf@.len() - old(self).pos,
    {
        let ghost start = self.pos as int;
        let ghost s = self.buf@;
        let tag: u8 = match self.u8() {
            Ok(t) => t,
            Err(e) => return Err(e),
        };
        if tag == TYPE_NULL {
            Ok(Value::Null)
        } else if tag == TYPE_TRUE {
            Ok(Value::Bool(true))
        } else if tag == TYPE_FALSE {
            Ok(Value::Bool(false))
        } else if tag == TYPE_INT8 || tag == TYPE_INT16 || tag == TYPE_INT32 || tag == TYPE_INT64 {
            let width: usize = if tag == TYPE_INT8 {
                1
            } else if tag == TYPE_INT16 {
                2
            } else if tag == TYPE_INT32 {
                4
            } else {
                8
            };
            match self.read_signed(width) {
                Ok(v) => Ok(Value::Int(v)),
                Err(e) => Err(e),
            }
        } else if tag == TYPE_DOUBLE {
            match self.take(8) {
                Ok(b) => Ok(Value::Double(read_le(b))),
                Err(e) => Err(e),
            }
        } else if tag == TYPE_STRING || tag == TYPE_UTF8STRING {
            match self.read_string_body() {
                Ok(t) => Ok(Value::Str(t)),
                Err(e) => Err(e),
            }
        } else if tag == TYPE_ARRAY {
            let n: usize = match self.read_int() {
                Ok(n) => n as usize,
                Err(e) => return Err(e),
            };
            if n > isize::MAX as usize {
                return Err(BserError::Oversized);
            }
            let mut items: Vec<Value> = Vec::new();
            let mut left: usize = n;
            let ghost want = items_at(s, self.pos as int, n as nat, Seq::empty());
            while left > 0
                invariant
                    self.wf(),
                    self.buf == old(self).buf,
                    s == self.buf@,
                    old(self).pos == start < self.pos,
                    want == items_at(s, self.pos as int, left as nat, data(items@)),
                    value_at(s, start) == (match want {
                        Ok((d, m)) => Ok::<(Datum, int), BserError>((Datum::Array(d), m)),
                        Err(e) => Err(e),
                    }),
                decreases left,
            {
                proof {
                    lemma_value_advances(s, self.pos as int);
                }
                let item = match self.read_value() {
                    Ok(v) => v,
                    Err(e) => return Err(e),
                };
                proof {
                    lemma_data_push(items@, item);
                }
                items.push(item);
                left -= 1;
            }
            Ok(Value::Array(items))
        } else if tag == TYPE_OBJECT {
            let n: usize = match self.read_int() {
                Ok(n) => n as usize,
                Err(e) => return Err(e),
            };
            if n > isize::MAX as usize {
                return Err(BserError::Oversized);
            }
            let mut pairs: Vec<(String, Value)> = Vec::new();
            let mut left: usize = n;
            let ghost want = members_at(s, self.pos as int, n as nat, Seq::empty());
            while left > 0
                invariant
                    self.wf(),
                    self.buf == old(self).buf,
                    s == self.buf@,
                    old(self).pos == start < self.pos,
                    want == members_at(s, self.pos as int, left as nat, members(pairs@)),
                    value_at(s, start) == (match want {
                        Ok((d, m)) => Ok::<(Datum, int), BserError>((Datum::Object(d), m)),
                        Err(e) => Err(e),
                    }),
                decreases left,
            {
                let key_tag: u8 = match self.u8() {
                    Ok(t) => t,
                    Err(e) => return Err(e),
                };
                if key_tag != TYPE_STRING && key_tag != TYPE_UTF8STRING {
                    return Err(BserError::ExpectedKey);
                }
                let key = match self.read_string_body() {
                    Ok(k) => k,
                    Err(e) => return Err(e),
                };
                proof {
                    lemma_value_advances(s, self.pos as int);
                }
                let item = match self.read_value() {
                    Ok(v) => v,
                    Err(e) => return Err(e),
                };
                proof {
                    lemma_members_push(pairs@, key, item);
                }
                pairs.push((key, item));
                left -= 1;
            }
            Ok(Value::Object(pairs))
        } else {
            Err(BserError::UnsupportedTag(tag))
        }
    }
}

/// The value that a frame's body holds.
pub open spec fn body_value(s: Seq<u8>) -> Result<Datum, BserError> {
    match value_at(s, 0) {
        Ok((d, _)) => Ok(d),
        Err(e) => Err(e),
    }
}

/// What a result stands for.
pub open spec fn outcome(r: Result<Value, BserError>) -> Result<Datum, BserError> {
    match r {
        Ok(v) => Ok(v@),
        Err(e) => Err(e),
    }
}

/// Decodes the value that a frame's body starts with, whatever the bytes are.
pub fn try_decode(body: &[u8]) -> (r: Result<Value, BserError>)
    ensures
        outcome(r) == body_value(body@),
{
    let mut r = Reader { buf: body, pos: 0 };
    r.read_value()
}

/// Decodes the value that a frame's body starts with. The body states no length
/// and no count that nothing in memory can have.
pub fn decode(body: &[u8]) -> (r: Result<Value, BserError>)
    requires
        body_value(body@) != Err::<Datum, BserError>(BserError::Oversized),
    ensures
        outcome(r) == body_value(body@),
{
    try_decode(body)
}

/// What comes next while a frame is read.
#[derive(Debug, Clone, Copy, PartialEq, Eq, Structural)]
pub enum PduState {
    /// The two bytes of the magic.
    Magic,
    /// The four bytes of capabilities.
    Capabilities(PduVersion),
    /// The tag of the body's length.
    LengthTag(PduVersion),
    /// The body's length, in so many bytes.
    Length(PduVersion, u8),
    /// The body, of so many bytes.
    Body(PduVersion, usize),
}

/// What came of a piece of a frame.
pub enum PduStep {
    /// More is to be read.
    More(PduState),
    /// The frame is complete.
    Done(Value, PduVersion),
}

/// What a `PduStep` stands for.
pub enum FrameStep {
    More(PduState),
    Done(Datum, PduVersion),
}

impl PduStep {
    /// What the step stands for.
    pub open spec fn view(&self) -> FrameStep {
        match self {
            PduStep::More(s) => FrameStep::More(*s),
            PduStep::Done(v, version) => FrameStep::Done(v@, *version),
        }
    }
}

impl PduState {
    /// A length's width is that of an integer, and a body fits into memory.
    pub open spec fn wf(self) -> bool {
        match self {
            PduState::Length(_, width) => width == 1 || width == 2 || width == 4 || width == 8,
            PduState::Body(_, len) => len <= isize::MAX,
            _ => true,
        }
    }

    /// How many bytes the next piece has.
    pub open spec fn piece(self) -> nat {
        match self {
            PduState::Magic => 2,
            PduState::Capabilities(_) => 4,
            PduState::LengthTag(_) => 1,
            PduState::Length(_, width) => width as nat,
            PduState::Body(_, len) => len as nat,
        }
    }

    /// How many pieces follow the next one at most.
    pub open spec fn behind(self) -> nat {
        match self {
            PduState::Magic => 4,
            PduState::Capabilities(_) => 3,
            PduState::LengthTag(_) => 2,
            PduState::Length(_, _) => 1,
            PduState::Body(_, _) => 0,
        }
    }

    /// What comes of the next piece.
    pub open spec fn step(self, bytes: Seq<u8>) -> Result<FrameStep, BserError> {
        match self {
            PduState::Magic => if bytes == seq![0x00u8, 0x01] {
                Ok(FrameStep::More(PduState::LengthTag(PduVersion::V1)))
            } else if bytes == seq![0x00u8, 0x02] {
                Ok(FrameStep::More(PduState::Capabilities(PduVersion::V2)))
            } else {
                Err(BserError::BadMagic)
            },
            PduState::Capabilities(version) => Ok(FrameStep::More(PduState::LengthTag(version))),
            PduState::LengthTag(version) => match int_width(bytes[0]) {
                Some(width) => Ok(FrameStep::More(PduState::Length(version, width as u8))),
                None => Err(BserError::BadLengthTag(bytes[0])),
            },
            PduState::Length(version, width) => {
                let n = (signed_le(bytes) as i64) as usize;
                if n > isize::MAX {
                    Err(BserError::Oversized)
                } else {
                    Ok(FrameStep::More(PduState::Body(version, n)))
                }
            },
            PduState::Body(version, len) => match body_value(bytes) {
                Ok(v) => Ok(FrameStep::Done(v, version)),
                Err(e) => Err(e),
            },
        }
    }

    /// How many bytes are to be fed next.
    pub fn wanted(&self) -> (r: usize)
        ensures
            r == self.piece(),
    {
        match self {
            PduState::Magic => 2,
            PduState::Capabilities(_) => 4,
            PduState::LengthTag(_) => 1,
            PduState::Length(_, width) => *width as usize,
            PduState::Body(_, len) => *len,
        }
    }

    /// Takes the next piece of a frame.
    pub fn feed(self, bytes: &[u8]) -> (r: Result<PduStep, BserError>)
        requires
            self.wf(),
            bytes@.len() == self.piece(),
        ensures
            match self.step(bytes@) {
                Ok(step) => r is Ok && r->Ok_0@ == step,
                Err(e) => r == Err::<PduStep, BserError>(e),
            },
            match r {
                Ok(PduStep::More(next)) => next.wf() && next.behind() < self.behind(),
                _ => true,
            },
    {
        match self {
            PduState::Magic => {
                assert(bytes@ =~= seq![bytes@[0], bytes@[1]]);
                if bytes[0] == 0x00 && bytes[1] == 0x01 {
                    Ok(PduStep::More(PduState::LengthTag(PduVersion::V1)))
                } else if bytes[0] == 0x00 && bytes[1] == 0x02 {
                    Ok(PduStep::More(PduState::Capabilities(PduVersion::V2)))
                } else {
                    assert(seq![0x00u8, 0x01][1] == 0x01);
                    assert(seq![0x00u8, 0x02][1] == 0x02);
                    Err(BserError::BadMagic)
                }
            },
            PduState::Capabilities(version) => Ok(PduStep::More(PduState::LengthTag(version))),
            PduState::LengthTag(version) => {
                let tag: u8 = bytes[0];
                if tag == TYPE_INT8 {
                    Ok(PduStep::More(PduState::Length(version, 1)))
                } else if tag == TYPE_INT16 {
                    Ok(PduStep::More(PduState::Length(version, 2)))
                } else if tag == TYPE_INT32 {
                    Ok(PduStep::More(PduState::Length(version, 4)))
                } else if tag == TYPE_INT64 {
                    Ok(PduStep::More(PduState::Length(version, 8)))
                } else {
                    Err(BserError::BadLengthTag(tag))
                }
            },
            PduState::Length(version, _) => {
                let n: usize = read_signed_le(bytes) as usize;
                if n > isize::MAX as usize {
                    Err(BserError::Oversized)
                } else {
                    Ok(PduStep::More(PduState::Body(version, n)))
                }
            },
            PduState::Body(version, _) => match try_decode(bytes) {
                Ok(v) => Ok(PduStep::Done(v, version)),
                Err(e) => Err(e),
            },
        }
    }
}

/// What comes of the bytes of a stream while a frame is read: the value, the
/// frame's version, and what is left of the stream.
pub open spec fn frame_read(state: PduState, s: Seq<u8>) -> Result<
    (Datum, PduVersion, Seq<u8>),
    BserError,
>
    decreases state.behind(),
{
    if s.len() < state.piece() {
        Err(BserError::UnexpectedEnd)
    } else {
        match state.step(s.take(state.piece() as int)) {
            Ok(FrameStep::More(next)) => if next.behind() < state.behind() {
                frame_read(next, s.skip(state.piece() as int))
            } else {
                Err(BserError::BadMagic)
            },
            Ok(FrameStep::Done(v, version)) => Ok((v, version, s.skip(state.piece() as int))),
            Err(e) => Err(e),
        }
    }
}

/// What is left of a stream once a frame is read from it, or could not be: all
/// but the pieces that were there.
pub open spec fn frame_left(state: PduState, s: Seq<u8>) -> Seq<u8>
    decreases state.behind(),
{
    if s.len() < state.piece() {
        s
    } else {
        match state.step(s.take(state.piece() as int)) {
            Ok(FrameStep::More(next)) => if next.behind() < state.behind() {
                frame_left(next, s.skip(state.piece() as int))
            } else {
                s
            },
            _ => s.skip(state.piece() as int),
        }
    }
}

/// Reads one frame off the front of a stream of bytes, and finds its version.
pub fn read_pdu(r: &mut &[u8]) -> (res: Result<(Value, PduVersion), BserError>)
    requires
        !(frame_read(PduState::Magic, old(r)@) matches Err(BserError::Oversized)),
    ensures
        match frame_read(PduState::Magic, old(r)@) {
            Ok((v, version, rest)) => res is Ok && res->Ok_0.0@ == v && res->Ok_0.1 == version
                && final(r)@ == rest,
            Err(e) => res == Err::<(Value, PduVersion), BserError>(e),
        },
        final(r)@ == frame_left(PduState::Magic, old(r)@),
{
    let mut state = PduState::Magic;
    loop
        invariant
            state.wf(),
            frame_read(PduState::Magic, old(r)@) == frame_read(state, r@),
            frame_left(PduState::Magic, old(r)@) == frame_left(state, r@),
        decreases state.behind(),
    {
        let n: usize = state.wanted();
        let all: &[u8] = *r;
        if all.len() < n {
            return Err(BserError::UnexpectedEnd);
        }
        let piece = vstd::slice::slice_subrange(all, 0, n);
        assert(piece@ == all@.take(n as int));
        let rest = vstd::slice::slice_subrange(all, n, all.len());
        assert(rest@ == all@.skip(n as int));
        *r = rest;
        match state.feed(piece) {
            Ok(PduStep::More(next)) => {
                state = next;
            },
            Ok(PduStep::Done(v, version)) => {
                return Ok((v, version));
            },
            Err(e) => {
                return Err(e);
            },
        }
    }
}

/// How many bytes a number takes.
proof fn lemma_le_bytes(x: nat, n: nat)
    requires
        x < pow256(n),
    ensures
        le_bytes(x, n).len() == n,
        le_value(le_bytes(x, n)) == x,
    decreases n,
{
    if n > 0 {
        lemma_le_bytes(x / 256, (n - 1) as nat);
        assert(le_bytes(x, n).skip(1) =~= le_bytes(x / 256, (n - 1) as nat));
    }
}

/// Bytes that stand at a position are taken there.
proof fn lemma_stands_taken(s: Seq<u8>, i: int, b: Seq<u8>)
    requires
        stands(s, i, b),
        i + b.len() <= isize::MAX,
    ensures
        take_at(s, i, b.len()) == Ok::<(Seq<u8>, int), BserError>((b, i + b.len())),
        0 <= i <= i + b.len() <= s.len(),
{
    reveal(stands);
}

/// An integer's encoding is read back as the integer.
proof fn lemma_int_reads(s: Seq<u8>, i: int, v: i64)
    requires
        i + int_bytes(v).len() <= isize::MAX,
        stands(s, i, int_bytes(v)),
    ensures
        int_at(s, i) == Ok::<(i64, int), BserError>((v, i + int_bytes(v).len())),
        int_width(int_tag(v)) is Some,
        int_bytes(v).len() == 1 + int_width(int_tag(v))->0,
        take_at(s, i, 1) == Ok::<(Seq<u8>, int), BserError>((seq![int_tag(v)], i + 1)),
        signed_at(s, i + 1, int_width(int_tag(v))->0) == Ok::<(i64, int), BserError>(
            (v, i + int_bytes(v).len()),
        ),
{
    reveal(int_bytes);
    let width = int_width(int_tag(v))->0;
    let x = wrapped(v as int, width);
    assert(pow256(1) == 256 && pow256(2) == 65536 && pow256(4) == 0x1_0000_0000 && pow256(8)
        == 0x1_0000_0000_0000_0000) by {
        reveal_with_fuel(pow256, 9);
    }
    lemma_le_bytes(x, width);
    lemma_stands_parts(s, i, seq![int_tag(v)], le_bytes(x, width));
    lemma_stands_taken(s, i, seq![int_tag(v)]);
    lemma_stands_taken(s, i + 1, le_bytes(x, width));
}

/// A string's encoding, behind its tag, is read back as the string.
proof fn lemma_text_reads(s: Seq<u8>, i: int, t: Seq<char>, version: PduVersion)
    requires
        i + string_bytes(t, version).len() <= isize::MAX,
        stands(s, i, string_bytes(t, version)),
    ensures
        take_at(s, i, 1) == Ok::<(Seq<u8>, int), BserError>((seq![string_tag(version)], i + 1)),
        text_at(s, i + 1) == Ok::<(Seq<char>, int), BserError>(
            (t, i + string_bytes(t, version).len()),
        ),
{
    reveal(string_bytes);
    let bytes = encode_utf8(t);
    let n = bytes.len() as i64;
    let tag = seq![string_tag(version)];
    lemma_stands_parts(s, i, tag + int_bytes(n), bytes);
    lemma_stands_parts(s, i, tag, int_bytes(n));
    lemma_stands_taken(s, i, tag);
    lemma_stands_taken(s, i + 1 + int_bytes(n).len(), bytes);
    lemma_int_reads(s, i + 1, n);
    encode_utf8_valid_utf8(t);
    encode_utf8_decode_utf8(t);
}

/// The encodings of a row of values start with that of the first.
proof fn lemma_items_bytes_front(items: Seq<Datum>, version: PduVersion)
    requires
        items.len() > 0,
    ensures
        items_bytes(items, version) == value_bytes(items[0], version) + items_bytes(
            items.skip(1),
            version,
        ),
    decreases items.len(),
{
    reveal_with_fuel(items_bytes, 2);
    if items.len() == 1 {
        assert(items.drop_last() == Seq::<Datum>::empty());
        assert(items.skip(1) == Seq::<Datum>::empty());
        assert(items_bytes(items, version) =~= value_bytes(items[0], version) + items_bytes(
            items.skip(1),
            version,
        ));
    } else {
        lemma_items_bytes_front(items.drop_last(), version);
        assert(items.drop_last().skip(1) == items.skip(1).drop_last());
        assert(items_bytes(items, version) =~= value_bytes(items[0], version) + items_bytes(
            items.skip(1),
            version,
        ));
    }
}

/// The encodings of an object's members start with that of the first.
proof fn lemma_members_bytes_front(pairs: Seq<(Seq<char>, Datum)>, version: PduVersion)
    requires
        pairs.len() > 0,
    ensures
        members_bytes(pairs, version) == string_bytes(pairs[0].0, version) + value_bytes(
            pairs[0].1,
            version,
        ) + members_bytes(pairs.skip(1), version),
    decreases pairs.len(),
{
    reveal_with_fuel(members_bytes, 2);
    if pairs.len() == 1 {
        assert(pairs.drop_last() == Seq::<(Seq<char>, Datum)>::empty());
        assert(pairs.skip(1) == Seq::<(Seq<char>, Datum)>::empty());
        assert(members_bytes(pairs, version) =~= string_bytes(pairs[0].0, version) + value_bytes(
            pairs[0].1,
            version,
        ) + members_bytes(pairs.skip(1), version));
    } else {
        lemma_members_bytes_front(pairs.drop_last(), version);
        assert(pairs.drop_last().skip(1) == pairs.skip(1).drop_last());
        assert(members_bytes(pairs, version) =~= string_bytes(pairs[0].0, version) + value_bytes(
            pairs[0].1,
            version,
        ) + members_bytes(pairs.skip(1), version));
    }
}

/// A value's encoding is not empty.
proof fn lemma_value_bytes_some(v: Datum, version: PduVersion)
    ensures
        value_bytes(v, version).len() > 0,
{
    reveal(int_bytes);
    reveal(string_bytes);
}

/// A row of values has at most as many elements as its encoding has bytes.
proof fn lemma_items_bytes_len(items: Seq<Datum>, version: PduVersion)
    ensures
        items.len() <= items_bytes(items, version).len(),
    decreases items.len(),
{
    if items.len() > 0 {
        lemma_items_bytes_len(items.drop_last(), version);
        lemma_value_bytes_some(items.last(), version);
    }
}

/// An object has at most as many members as its encoding has bytes.
proof fn lemma_members_bytes_len(pairs: Seq<(Seq<char>, Datum)>, version: PduVersion)
    ensures
        pairs.len() <= members_bytes(pairs, version).len(),
    decreases pairs.len(),
{
    if pairs.len() > 0 {
        lemma_members_bytes_len(pairs.drop_last(), version);
        lemma_value_bytes_some(pairs.last().1, version);
    }
}

/// Whether a value is read at a position, up to another position.
#[verifier::opaque]
pub open spec fn reads_value(s: Seq<u8>, i: int, v: Datum, j: int) -> bool {
    value_at(s, i) == Ok::<(Datum, int), BserError>((v, j))
}

/// Whether values are read behind others, up to a position.
#[verifier::opaque]
spec fn reads_items(s: Seq<u8>, i: int, items: Seq<Datum>, read: Seq<Datum>, j: int) -> bool {
    items_at(s, i, items.len(), read) == Ok::<(Seq<Datum>, int), BserError>((read + items, j))
}

/// Whether members are read behind others, up to a position.
#[verifier::opaque]
spec fn reads_members(
    s: Seq<u8>,
    i: int,
    pairs: Seq<(Seq<char>, Datum)>,
    read: Seq<(Seq<char>, Datum)>,
    j: int,
) -> bool {
    members_at(s, i, pairs.len(), read) == Ok::<(Seq<(Seq<char>, Datum)>, int), BserError>(
        (read + pairs, j),
    )
}

/// What is neither an array nor an object is read back.
proof fn lemma_plain_reads(s: Seq<u8>, i: int, v: Datum, version: PduVersion)
    requires
        i + value_bytes(v, version).len() <= isize::MAX,
        !(v is Array),
        !(v is Object),
        stands(s, i, value_bytes(v, version)),
    ensures
        reads_value(s, i, v, i + value_bytes(v, version).len()),
{
    reveal(reads_value);
    match v {
        Datum::Int(n) => {
            lemma_int_reads(s, i, n);
        },
        Datum::Double(d) => {
            assert(pow256(8) == 0x1_0000_0000_0000_0000) by {
                reveal_with_fuel(pow256, 9);
            }
            lemma_le_bytes(d as nat, 8);
            lemma_stands_parts(s, i, seq![0x07u8], le_bytes(d as nat, 8));
            lemma_stands_taken(s, i, seq![0x07u8]);
            lemma_stands_taken(s, i + 1, le_bytes(d as nat, 8));
        },
        Datum::Str(t) => {
            lemma_text_reads(s, i, t, version);
        },
        _ => {
            lemma_stands_taken(s, i, value_bytes(v, version));
        },
    }
}

/// An array is read where its tag, its count and its elements are.
proof fn lemma_array_reads(s: Seq<u8>, i: int, items: Seq<Datum>, j: int)
    requires
        i + 1 + int_bytes(items.len() as i64).len() <= isize::MAX,
        items.len() <= isize::MAX,
        stands(s, i, seq![0x00u8]),
        stands(s, i + 1, int_bytes(items.len() as i64)),
        reads_items(s, i + 1 + int_bytes(items.len() as i64).len(), items, Seq::empty(), j),
    ensures
        reads_value(s, i, Datum::Array(items), j),
{
    reveal(reads_value);
    reveal(reads_items);
    lemma_stands_taken(s, i, seq![0x00u8]);
    lemma_int_reads(s, i + 1, items.len() as i64);
    assert(Seq::<Datum>::empty() + items =~= items);
}

/// An object is read where its tag, its count and its members are.
proof fn lemma_object_reads(s: Seq<u8>, i: int, pairs: Seq<(Seq<char>, Datum)>, j: int)
    requires
        i + 1 + int_bytes(pairs.len() as i64).len() <= isize::MAX,
        pairs.len() <= isize::MAX,
        stands(s, i, seq![0x01u8]),
        stands(s, i + 1, int_bytes(pairs.len() as i64)),
        reads_members(s, i + 1 + int_bytes(pairs.len() as i64).len(), pairs, Seq::empty(), j),
    ensures
        reads_value(s, i, Datum::Object(pairs), j),
{
    reveal(reads_value);
    reveal(reads_members);
    lemma_stands_taken(s, i, seq![0x01u8]);
    lemma_int_reads(s, i + 1, pairs.len() as i64);
    assert(Seq::<(Seq<char>, Datum)>::empty() + pairs =~= pairs);
}

/// No values are read, or one and then the rest.
proof fn lemma_items_read_step(s: Seq<u8>, i: int, items: Seq<Datum>, read: Seq<Datum>, k: int, j: int)
    requires
        items.len() == 0 ==> i == j,
        items.len() > 0 ==> i < k <= s.len() && reads_value(s, i, items[0], k) && reads_items(
            s,
            k,
            items.skip(1),
            read.push(items[0]),
            j,
        ),
    ensures
        reads_items(s, i, items, read, j),
{
    reveal(reads_value);
    reveal(reads_items);
    if items.len() == 0 {
        assert(read + items =~= read);
    } else {
        assert(read.push(items[0]) + items.skip(1) =~= read + items);
    }
}

/// No members are read, or one and then the rest.
proof fn lemma_members_read_step(
    s: Seq<u8>,
    i: int,
    pairs: Seq<(Seq<char>, Datum)>,
    version: PduVersion,
    read: Seq<(Seq<char>, Datum)>,
    k: int,
    j: int,
)
    requires
        pairs.len() == 0 ==> i == j,
        pairs.len() > 0 ==> {
            &&& i + string_bytes(pairs[0].0, version).len() <= isize::MAX
            &&& stands(s, i, string_bytes(pairs[0].0, version))
            &&& i + string_bytes(pairs[0].0, version).len() < k <= s.len()
            &&& reads_value(s, i + string_bytes(pairs[0].0, version).len(), pairs[0].1, k)
            &&& reads_members(s, k, pairs.skip(1), read.push(pairs[0]), j)
        },
    ensures
        reads_members(s, i, pairs, read, j),
{
    reveal(reads_value);
    reveal(reads_members);
    if pairs.len() == 0 {
        assert(read + pairs =~= read);
    } else {
        lemma_text_reads(s, i, pairs[0].0, version);
        assert(read.push(pairs[0]) + pairs.skip(1) =~= read + pairs);
        assert(read.push((pairs[0].0, pairs[0].1)) == read.push(pairs[0]));
    }
}

/// A value's encoding, wherever it stands, is read back as the value.
pub proof fn lemma_value_reads(s: Seq<u8>, i: int, v: Datum, version: PduVersion)
    requires
        i + value_bytes(v, version).len() <= isize::MAX,
        stands(s, i, value_bytes(v, version)),
    ensures
        reads_value(s, i, v, i + value_bytes(v, version).len()),
    decreases v, 0nat,
{
    match v {
        Datum::Array(items) => {
            let count = int_bytes(items.len() as i64);
            lemma_items_bytes_len(items, version);
            lemma_stands_parts(s, i, seq![0x00u8] + count, items_bytes(items, version));
            lemma_stands_parts(s, i, seq![0x00u8], count);
            lemma_stands_taken(s, i + 1 + count.len(), items_bytes(items, version));
            lemma_items_read(s, i + 1 + count.len(), items, version, Seq::empty());
            lemma_array_reads(s, i, items, i + value_bytes(v, version).len());
        },
        Datum::Object(pairs) => {
            let count = int_bytes(pairs.len() as i64);
            lemma_members_bytes_len(pairs, version);
            lemma_stands_parts(s, i, seq![0x01u8] + count, members_bytes(pairs, version));
            lemma_stands_parts(s, i, seq![0x01u8], count);
            lemma_stands_taken(s, i + 1 + count.len(), members_bytes(pairs, version));
            lemma_members_read(s, i + 1 + count.len(), pairs, version, Seq::empty());
            lemma_object_reads(s, i, pairs, i + value_bytes(v, version).len());
        },
        _ => {
            lemma_plain_reads(s, i, v, version);
        },
    }
}

/// The encodings of a row of values are read back as the values.
proof fn lemma_items_read(
    s: Seq<u8>,
    i: int,
    items: Seq<Datum>,
    version: PduVersion,
    read: Seq<Datum>,
)
    requires
        i + items_bytes(items, version).len() <= isize::MAX,
        stands(s, i, items_bytes(items, version)),
    ensures
        reads_items(s, i, items, read, i + items_bytes(items, version).len()),
    decreases items, 1nat,
{
    let j = i + items_bytes(items, version).len();
    if items.len() == 0 {
        lemma_items_read_step(s, i, items, read, i, j);
    } else {
        lemma_items_bytes_front(items, version);
        let first = value_bytes(items[0], version);
        let k = i + first.len();
        lemma_stands_parts(s, i, first, items_bytes(items.skip(1), version));
        lemma_stands_taken(s, i, first);
        lemma_value_reads(s, i, items[0], version);
        lemma_value_bytes_some(items[0], version);
        assert(items.skip(1) == items.subrange(1, items.len() as int));
        lemma_items_read(s, k, items.skip(1), version, read.push(items[0]));
        lemma_items_read_step(s, i, items, read, k, j);
    }
}

/// The encodings of an object's members are read back as the members.
proof fn lemma_members_read(
    s: Seq<u8>,
    i: int,
    pairs: Seq<(Seq<char>, Datum)>,
    version: PduVersion,
    read: Seq<(Seq<char>, Datum)>,
)
    requires
        i + members_bytes(pairs, version).len() <= isize::MAX,
        stands(s, i, members_bytes(pairs, version)),
    ensures
        reads_members(s, i, pairs, read, i + members_bytes(pairs, version).len()),
    decreases pairs, 1nat,
{
    let j = i + members_bytes(pairs, version).len();
    if pairs.len() == 0 {
        lemma_members_read_step(s, i, pairs, version, read, i, j);
    } else {
        lemma_members_bytes_front(pairs, version);
        let key = string_bytes(pairs[0].0, version);
        let first = value_bytes(pairs[0].1, version);
        let k = i + key.len() + first.len();
        lemma_stands_parts(s, i, key + first, members_bytes(pairs.skip(1), version));
        lemma_stands_parts(s, i, key, first);
        lemma_stands_taken(s, i + key.len(), first);
        assert(decreases_to!(pairs => pairs[0]));
        assert(decreases_to!(pairs[0] => pairs[0].1));
        lemma_value_reads(s, i + key.len(), pairs[0].1, version);
        lemma_value_bytes_some(pairs[0].1, version);
        assert(pairs.skip(1) == pairs.subrange(1, pairs.len() as int));
        lemma_members_read(s, k, pairs.skip(1), version, read.push(pairs[0]));
        lemma_members_read_step(s, i, pairs, version, read, k, j);
    }
}

/// Decoding an encoded body gives the value back, in either version, whatever
/// follows the value.
pub proof fn law_body_round_trip(v: Datum, version: PduVersion, behind: Seq<u8>)
    requires
        value_bytes(v, version).len() <= isize::MAX,
    ensures
        body_value(value_bytes(v, version) + behind) == Ok::<Datum, BserError>(v),
        body_value(value_bytes(v, version)) == Ok::<Datum, BserError>(v),
{
    let b = value_bytes(v, version);
    let s = b + behind;
    reveal(stands);
    reveal(reads_value);
    assert(s.subrange(0, b.len() as int) =~= b);
    lemma_value_reads(s, 0, v, version);
    assert(b.subrange(0, b.len() as int) =~= b);
    lemma_value_reads(b, 0, v, version);
}

/// A piece that stands at the front of a stream is the one that is fed.
proof fn lemma_frame_step(state: PduState, piece: Seq<u8>, rest: Seq<u8>)
    requires
        piece.len() == state.piece(),
    ensures
        frame_read(state, piece + rest) == (match state.step(piece) {
            Ok(FrameStep::More(next)) => if next.behind() < state.behind() {
                frame_read(next, rest)
            } else {
                Err(BserError::BadMagic)
            },
            Ok(FrameStep::Done(v, version)) => Ok((v, version, rest)),
            Err(e) => Err(e),
        }),
{
    let s = piece + rest;
    assert(s.take(piece.len() as int) =~= piece);
    assert(s.skip(piece.len() as int) =~= rest);
}

/// The length of a frame's body, and then the body, are read as they were written.
proof fn lemma_frame_tail(v: Datum, version: PduVersion, behind: Seq<u8>)
    requires
        value_bytes(v, version).len() <= isize::MAX,
    ensures
        frame_read(
            PduState::LengthTag(version),
            int_bytes(value_bytes(v, version).len() as i64) + (value_bytes(v, version) + behind),
        ) == Ok::<(Datum, PduVersion, Seq<u8>), BserError>((v, version, behind)),
{
    let body = value_bytes(v, version);
    let n = body.len() as i64;
    let lead = int_bytes(n);
    let width = int_width(int_tag(n))->0;
    assert(width <= 8 && lead =~= seq![int_tag(n)] + lead.skip(1) && lead.skip(1).len() == width
        && signed_le(lead.skip(1)) == n) by {
        lemma_frame_lead(n);
    }
    assert(body_value(body) == Ok::<Datum, BserError>(v)) by {
        law_body_round_trip(v, version, Seq::empty());
    }
    lemma_frame_step(PduState::LengthTag(version), seq![int_tag(n)], lead.skip(1) + (body + behind));
    assert(lead + (body + behind) =~= seq![int_tag(n)] + (lead.skip(1) + (body + behind)));
    lemma_frame_step(PduState::Length(version, width as u8), lead.skip(1), body + behind);
    lemma_frame_step(PduState::Body(version, body.len() as usize), body, behind);
}

/// The shape of an integer's encoding.
proof fn lemma_frame_lead(n: i64)
    ensures
        int_width(int_tag(n)) is Some,
        int_width(int_tag(n))->0 <= 8,
        int_bytes(n) == seq![int_tag(n)] + int_bytes(n).skip(1),
        int_bytes(n).skip(1).len() == int_width(int_tag(n))->0,
        signed_le(int_bytes(n).skip(1)) == n,
{
    reveal(int_bytes);
    let lead = int_bytes(n);
    let width = int_width(int_tag(n))->0;
    assert(pow256(1) == 256 && pow256(2) == 65536 && pow256(4) == 0x1_0000_0000 && pow256(8)
        == 0x1_0000_0000_0000_0000) by {
        reveal_with_fuel(pow256, 9);
    }
    lemma_le_bytes(wrapped(n as int, width), width);
    assert(lead.skip(1) =~= le_bytes(wrapped(n as int, width), width));
}

/// The frame of a value with any four bytes of capabilities, where the version has
/// them.
pub open spec fn frame_with(v: Datum, version: PduVersion, capabilities: Seq<u8>) -> Seq<u8> {
    let head = match version {
        PduVersion::V1 => seq![0x00u8, 0x01],
        PduVersion::V2 => seq![0x00u8, 0x02] + capabilities,
    };
    head + int_bytes(value_bytes(v, version).len() as i64) + value_bytes(v, version)
}

/// A frame read off a stream gives back the value and the version it was written
/// with, whatever its capabilities, and leaves what was written behind it. A frame
/// that this library writes has no capabilities.
pub proof fn law_frame_round_trip(
    v: Datum,
    version: PduVersion,
    capabilities: Seq<u8>,
    behind: Seq<u8>,
)
    requires
        value_bytes(v, version).len() <= isize::MAX,
        capabilities.len() == 4,
    ensures
        frame_read(PduState::Magic, frame_with(v, version, capabilities) + behind) == Ok::<
            (Datum, PduVersion, Seq<u8>),
            BserError,
        >((v, version, behind)),
        frame(v, version) == frame_with(v, version, seq![0u8, 0, 0, 0]),
{
    let s = frame_with(v, version, capabilities) + behind;
    let tail = int_bytes(value_bytes(v, version).len() as i64) + (value_bytes(v, version) + behind);
    lemma_frame_tail(v, version, behind);
    assert(seq![0x00u8, 0x01][1] == 0x01);
    assert(seq![0x00u8, 0x02][1] == 0x02);
    assert(frame_head(PduVersion::V2) =~= seq![0x00u8, 0x02] + seq![0u8, 0, 0, 0]);
    match version {
        PduVersion::V1 => {
            assert(s =~= seq![0x00u8, 0x01] + tail);
            lemma_frame_step(PduState::Magic, seq![0x00u8, 0x01], tail);
        },
        PduVersion::V2 => {
            assert(s =~= seq![0x00u8, 0x02] + (capabilities + tail));
            lemma_frame_step(PduState::Magic, seq![0x00u8, 0x02], capabilities + tail);
            lemma_frame_step(PduState::Capabilities(version), capabilities, tail);
        },
    }
}

/// The frames of some values, one behind the other.
pub open spec fn frames(all: Seq<(Datum, PduVersion)>) -> Seq<u8>
    decreases all.len(),
{
    if all.len() == 0 {
        Seq::empty()
    } else {
        frame(all[0].0, all[0].1) + frames(all.skip(1))
    }
}

/// What so many reads of a frame give, and what they leave of the stream.
pub open spec fn frames_read(s: Seq<u8>, n: nat) -> Result<
    (Seq<(Datum, PduVersion)>, Seq<u8>),
    BserError,
>
    decreases n,
{
    if n == 0 {
        Ok((Seq::empty(), s))
    } else {
        match frame_read(PduState::Magic, s) {
            Ok((v, version, rest)) => match frames_read(rest, (n - 1) as nat) {
                Ok((more, left)) => Ok((seq![(v, version)] + more, left)),
                Err(e) => Err(e),
            },
            Err(e) => Err(e),
        }
    }
}

/// Frames that were written back to back are read back one by one.
pub proof fn law_frames_in_a_row(all: Seq<(Datum, PduVersion)>, behind: Seq<u8>)
    requires
        forall|k: int|
            0 <= k < all.len() ==> value_bytes((#[trigger] all[k]).0, all[k].1).len()
                <= isize::MAX,
    ensures
        frames_read(frames(all) + behind, all.len()) == Ok::<
            (Seq<(Datum, PduVersion)>, Seq<u8>),
            BserError,
        >((all, behind)),
    decreases all.len(),
{
    if all.len() == 0 {
        assert(frames(all) + behind =~= behind);
        assert(all =~= Seq::<(Datum, PduVersion)>::empty());
    } else {
        let rest = frames(all.skip(1)) + behind;
        let (v, version) = all[0];
        assert(frames(all) + behind =~= frame(v, version) + rest);
        law_frame_round_trip(v, version, seq![0u8, 0, 0, 0], rest);
        assert forall|k: int| 0 <= k < all.skip(1).len() implies value_bytes(
            (#[trigger] all.skip(1)[k]).0,
            all.skip(1)[k].1,
        ).len() <= isize::MAX by {
            assert(all.skip(1)[k] == all[k + 1]);
        }
        law_frames_in_a_row(all.skip(1), behind);
        assert(seq![(v, version)] + all.skip(1) =~= all);
    }
}

/// Whether some bytes end before others, of which they hold the front from a
/// position on.
#[verifier::opaque]
spec fn cut(s: Seq<u8>, i: int, b: Seq<u8>) -> bool {
    0 <= i <= s.len() && s.len() - i < b.len() && s.skip(i) == b.take(s.len() - i)
}

/// What is cut within two rows is cut within the first, or within the second.
proof fn lemma_cut_parts(s: Seq<u8>, i: int, a: Seq<u8>, b: Seq<u8>)
    requires
        cut(s, i, a + b),
    ensures
        cut(s, i, a) || (stands(s, i, a) && cut(s, i + a.len(), b)),
{
    reveal(cut);
    reveal(stands);
    let n = s.len() - i;
    if n < a.len() {
        assert(s.skip(i) =~= a.take(n));
    } else {
        assert(s.subrange(i, i + a.len()) =~= s.skip(i).take(a.len() as int));
        assert((a + b).take(n).take(a.len() as int) =~= a);
        assert(s.skip(i + a.len()) =~= s.skip(i).skip(a.len() as int));
        assert((a + b).take(n).skip(a.len() as int) =~= b.take(n - a.len()));
    }
}

/// What is cut cannot be taken.
proof fn lemma_cut_taken(s: Seq<u8>, i: int, b: Seq<u8>)
    requires
        cut(s, i, b),
        i + b.len() <= isize::MAX,
    ensures
        take_at(s, i, b.len()) == Err::<(Seq<u8>, int), BserError>(BserError::Truncated),
        0 <= i <= s.len() < i + b.len(),
{
    reveal(cut);
}

/// An integer that is cut is truncated, before its tag or behind it.
proof fn lemma_int_cut(s: Seq<u8>, i: int, v: i64)
    requires
        cut(s, i, int_bytes(v)),
        i + int_bytes(v).len() <= isize::MAX,
    ensures
        int_at(s, i) == Err::<(i64, int), BserError>(BserError::Truncated),
        int_width(int_tag(v)) is Some,
        take_at(s, i, 1) == Err::<(Seq<u8>, int), BserError>(BserError::Truncated) || (take_at(
            s,
            i,
            1,
        ) == Ok::<(Seq<u8>, int), BserError>((seq![int_tag(v)], i + 1)) && signed_at(
            s,
            i + 1,
            int_width(int_tag(v))->0,
        ) == Err::<(i64, int), BserError>(BserError::Truncated)),
{
    let width = int_width(int_tag(v))->0;
    let x = wrapped(v as int, width);
    let tag = seq![int_tag(v)];
    lemma_frame_lead(v);
    let low = int_bytes(v).skip(1);
    lemma_cut_parts(s, i, tag, low);
    if cut(s, i, tag) {
        lemma_cut_taken(s, i, tag);
    } else {
        lemma_stands_taken(s, i, tag);
        lemma_cut_taken(s, i + 1, low);
    }
}

/// A string that is cut is truncated, before its tag or behind it.
proof fn lemma_text_cut(s: Seq<u8>, i: int, t: Seq<char>, version: PduVersion)
    requires
        cut(s, i, string_bytes(t, version)),
        i + string_bytes(t, version).len() <= isize::MAX,
    ensures
        take_at(s, i, 1) == Err::<(Seq<u8>, int), BserError>(BserError::Truncated) || (take_at(
            s,
            i,
            1,
        ) == Ok::<(Seq<u8>, int), BserError>((seq![string_tag(version)], i + 1)) && text_at(
            s,
            i + 1,
        ) == Err::<(Seq<char>, int), BserError>(BserError::Truncated)),
{
    reveal(string_bytes);
    let bytes = encode_utf8(t);
    let n = bytes.len() as i64;
    let tag = seq![string_tag(version)];
    lemma_cut_parts(s, i, tag + int_bytes(n), bytes);
    if cut(s, i, tag + int_bytes(n)) {
        lemma_cut_parts(s, i, tag, int_bytes(n));
        if cut(s, i, tag) {
            lemma_cut_taken(s, i, tag);
        } else {
            lemma_stands_taken(s, i, tag);
            lemma_int_cut(s, i + 1, n);
        }
    } else {
        lemma_stands_parts(s, i, tag, int_bytes(n));
        lemma_stands_taken(s, i, tag);
        lemma_int_reads(s, i + 1, n);
        lemma_cut_taken(s, i + 1 + int_bytes(n).len(), bytes);
    }
}

/// Whether a value at a position is truncated.
#[verifier::opaque]
spec fn value_cut(s: Seq<u8>, i: int) -> bool {
    value_at(s, i) == Err::<(Datum, int), BserError>(BserError::Truncated)
}

/// Whether so many more values at a position are truncated.
#[verifier::opaque]
spec fn items_cut(s: Seq<u8>, i: int, n: nat, read: Seq<Datum>) -> bool {
    items_at(s, i, n, read) == Err::<(Seq<Datum>, int), BserError>(BserError::Truncated)
}

/// Whether so many more members at a position are truncated.
#[verifier::opaque]
spec fn members_cut(s: Seq<u8>, i: int, n: nat, read: Seq<(Seq<char>, Datum)>) -> bool {
    members_at(s, i, n, read) == Err::<(Seq<(Seq<char>, Datum)>, int), BserError>(
        BserError::Truncated,
    )
}

/// What is neither an array nor an object is truncated where it is cut.
proof fn lemma_plain_cut(s: Seq<u8>, i: int, v: Datum, version: PduVersion)
    requires
        !(v is Array),
        !(v is Object),
        cut(s, i, value_bytes(v, version)),
        i + value_bytes(v, version).len() <= isize::MAX,
    ensures
        value_cut(s, i),
{
    reveal(value_cut);
    match v {
        Datum::Int(n) => {
            lemma_int_cut(s, i, n);
            assert(seq![int_tag(n)][0] == int_tag(n));
        },
        Datum::Double(d) => {
            assert(pow256(8) == 0x1_0000_0000_0000_0000) by {
                reveal_with_fuel(pow256, 9);
            }
            lemma_le_bytes(d as nat, 8);
            let tag = seq![0x07u8];
            lemma_cut_parts(s, i, tag, le_bytes(d as nat, 8));
            if cut(s, i, tag) {
                lemma_cut_taken(s, i, tag);
            } else {
                lemma_stands_taken(s, i, tag);
                lemma_cut_taken(s, i + 1, le_bytes(d as nat, 8));
            }
        },
        Datum::Str(t) => {
            lemma_text_cut(s, i, t, version);
            assert(seq![string_tag(version)][0] == string_tag(version));
        },
        _ => {
            lemma_cut_taken(s, i, value_bytes(v, version));
        },
    }
}

/// An array or an object is truncated where its tag is missing, where its count is
/// cut, or where what it holds is truncated.
proof fn lemma_head_cut(s: Seq<u8>, i: int, tag: u8, n: nat)
    requires
        tag == 0x00 || tag == 0x01,
        n <= isize::MAX,
        i + 1 + int_bytes(n as i64).len() <= isize::MAX,
        cut(s, i, seq![tag] + int_bytes(n as i64)) || (stands(s, i, seq![tag]) && stands(
            s,
            i + 1,
            int_bytes(n as i64),
        ) && (if tag == 0x00 {
            items_cut(s, i + 1 + int_bytes(n as i64).len(), n, Seq::empty())
        } else {
            members_cut(s, i + 1 + int_bytes(n as i64).len(), n, Seq::empty())
        })),
    ensures
        value_cut(s, i),
{
    reveal(value_cut);
    reveal(items_cut);
    reveal(members_cut);
    let head = seq![tag];
    assert(head[0] == tag);
    if cut(s, i, head + int_bytes(n as i64)) {
        lemma_cut_parts(s, i, head, int_bytes(n as i64));
        if cut(s, i, head) {
            lemma_cut_taken(s, i, head);
        } else {
            lemma_stands_taken(s, i, head);
            lemma_int_cut(s, i + 1, n as i64);
        }
    } else {
        lemma_stands_taken(s, i, head);
        lemma_int_reads(s, i + 1, n as i64);
    }
}

/// Some values are truncated where the first one is, or where the rest are.
proof fn lemma_items_cut_step(s: Seq<u8>, i: int, v: Datum, n: nat, read: Seq<Datum>, k: int)
    requires
        n > 0,
        value_cut(s, i) || (reads_value(s, i, v, k) && i < k <= s.len() && items_cut(
            s,
            k,
            (n - 1) as nat,
            read.push(v),
        )),
    ensures
        items_cut(s, i, n, read),
{
    reveal(value_cut);
    reveal(items_cut);
    reveal(reads_value);
}

/// Some members are truncated where the first key is, or the first value, or where
/// the rest are.
proof fn lemma_members_cut_step(
    s: Seq<u8>,
    i: int,
    pair: (Seq<char>, Datum),
    version: PduVersion,
    n: nat,
    read: Seq<(Seq<char>, Datum)>,
    k: int,
)
    requires
        n > 0,
        i + string_bytes(pair.0, version).len() <= isize::MAX,
        cut(s, i, string_bytes(pair.0, version)) || (stands(s, i, string_bytes(pair.0, version)) && (
        value_cut(s, i + string_bytes(pair.0, version).len()) || (reads_value(
            s,
            i + string_bytes(pair.0, version).len(),
            pair.1,
            k,
        ) && i + string_bytes(pair.0, version).len() < k <= s.len() && members_cut(
            s,
            k,
            (n - 1) as nat,
            read.push(pair),
        )))),
    ensures
        members_cut(s, i, n, read),
{
    reveal(value_cut);
    reveal(members_cut);
    reveal(reads_value);
    assert(seq![string_tag(version)][0] == string_tag(version));
    assert(pair == (pair.0, pair.1));
    if cut(s, i, string_bytes(pair.0, version)) {
        lemma_text_cut(s, i, pair.0, version);
    } else {
        lemma_text_reads(s, i, pair.0, version);
    }
}

/// A value's encoding that is cut, wherever it stands, is truncated.
proof fn lemma_value_cut(s: Seq<u8>, i: int, v: Datum, version: PduVersion)
    requires
        cut(s, i, value_bytes(v, version)),
        i + value_bytes(v, version).len() <= isize::MAX,
    ensures
        value_cut(s, i),
    decreases v, 0nat,
{
    lemma_cut_taken(s, i, value_bytes(v, version));
    match v {
        Datum::Array(items) => {
            let head = seq![0x00u8];
            let count = int_bytes(items.len() as i64);
            lemma_items_bytes_len(items, version);
            lemma_cut_parts(s, i, head + count, items_bytes(items, version));
            if !cut(s, i, head + count) {
                lemma_stands_parts(s, i, head, count);
                lemma_items_cut(s, i + 1 + count.len(), items, version, Seq::empty());
            }
            lemma_head_cut(s, i, 0x00, items.len());
        },
        Datum::Object(pairs) => {
            let head = seq![0x01u8];
            let count = int_bytes(pairs.len() as i64);
            lemma_members_bytes_len(pairs, version);
            lemma_cut_parts(s, i, head + count, members_bytes(pairs, version));
            if !cut(s, i, head + count) {
                lemma_stands_parts(s, i, head, count);
                lemma_members_cut(s, i + 1 + count.len(), pairs, version, Seq::empty());
            }
            lemma_head_cut(s, i, 0x01, pairs.len());
        },
        _ => {
            lemma_plain_cut(s, i, v, version);
        },
    }
}

proof fn lemma_items_cut(
    s: Seq<u8>,
    i: int,
    items: Seq<Datum>,
    version: PduVersion,
    read: Seq<Datum>,
)
    requires
        cut(s, i, items_bytes(items, version)),
        i + items_bytes(items, version).len() <= isize::MAX,
    ensures
        items_cut(s, i, items.len(), read),
    decreases items, 1nat,
{
    lemma_cut_taken(s, i, items_bytes(items, version));
    if items.len() > 0 {
        lemma_items_bytes_front(items, version);
        let first = value_bytes(items[0], version);
        let k = i + first.len();
        lemma_cut_parts(s, i, first, items_bytes(items.skip(1), version));
        if cut(s, i, first) {
            lemma_value_cut(s, i, items[0], version);
        } else {
            lemma_stands_taken(s, i, first);
            lemma_value_reads(s, i, items[0], version);
            lemma_value_bytes_some(items[0], version);
            assert(items.skip(1) == items.subrange(1, items.len() as int));
            lemma_items_cut(s, k, items.skip(1), version, read.push(items[0]));
        }
        lemma_items_cut_step(s, i, items[0], items.len(), read, k);
    }
}

proof fn lemma_members_cut(
    s: Seq<u8>,
    i: int,
    pairs: Seq<(Seq<char>, Datum)>,
    version: PduVersion,
    read: Seq<(Seq<char>, Datum)>,
)
    requires
        cut(s, i, members_bytes(pairs, version)),
        i + members_bytes(pairs, version).len() <= isize::MAX,
    ensures
        members_cut(s, i, pairs.len(), read),
    decreases pairs, 1nat,
{
    lemma_cut_taken(s, i, members_bytes(pairs, version));
    if pairs.len() > 0 {
        lemma_members_bytes_front(pairs, version);
        let key = string_bytes(pairs[0].0, version);
        let first = value_bytes(pairs[0].1, version);
        let k = i + key.len() + first.len();
        assert(decreases_to!(pairs => pairs[0]));
        assert(decreases_to!(pairs[0] => pairs[0].1));
        lemma_cut_parts(s, i, key + first, members_bytes(pairs.skip(1), version));
        if cut(s, i, key + first) {
            lemma_cut_parts(s, i, key, first);
            if !cut(s, i, key) {
                lemma_value_cut(s, i + key.len(), pairs[0].1, version);
            }
        } else {
            lemma_stands_parts(s, i, key, first);
            lemma_stands_taken(s, i + key.len(), first);
            lemma_value_reads(s, i + key.len(), pairs[0].1, version);
            lemma_value_bytes_some(pairs[0].1, version);
            assert(pairs.skip(1) == pairs.subrange(1, pairs.len() as int));
            lemma_members_cut(s, k, pairs.skip(1), version, read.push(pairs[0]));
        }
        lemma_members_cut_step(s, i, pairs[0], version, pairs.len(), read, k);
    }
}

/// An encoded body that is cut short anywhere is truncated.
pub proof fn law_cut_bodies_are_truncated(v: Datum, version: PduVersion, k: int)
    requires
        value_bytes(v, version).len() <= isize::MAX,
        0 <= k < value_bytes(v, version).len(),
    ensures
        body_value(value_bytes(v, version).take(k)) == Err::<Datum, BserError>(
            BserError::Truncated,
        ),
{
    let s = value_bytes(v, version).take(k);
    reveal(cut);
    reveal(value_cut);
    assert(s.skip(0) =~= value_bytes(v, version).take(k));
    lemma_value_cut(s, 0, v, version);
}

/// A number is read from its bytes, the lowest first.
pub proof fn law_lowest_byte_first(b: Seq<u8>)
    ensures
        b.len() == 1 ==> le_value(b) == b[0],
        b.len() == 2 ==> le_value(b) == b[0] + 0x100 * b[1],
        b.len() == 4 ==> le_value(b) == b[0] + 0x100 * b[1] + 0x1_0000 * b[2] + 0x100_0000 * b[3],
        b.len() == 8 ==> le_value(b) == b[0] + 0x100 * b[1] + 0x1_0000 * b[2] + 0x100_0000 * b[3]
            + 0x1_0000_0000 * (b[4] + 0x100 * b[5] + 0x1_0000 * b[6] + 0x100_0000 * b[7]),
{
    if b.len() == 1 {
        assert(le_value(b.skip(1)) == 0);
    } else if b.len() == 2 {
        lemma_bytes_2(b);
    } else if b.len() == 4 {
        lemma_bytes_4(b);
    } else if b.len() == 8 {
        let one = b.skip(1);
        let two = one.skip(1);
        let three = two.skip(1);
        let four = three.skip(1);
        lemma_bytes_4(four);
        assert(four[0] == b[4] && four[1] == b[5] && four[2] == b[6] && four[3] == b[7]);
        assert(one[0] == b[1] && two[0] == b[2] && three[0] == b[3]);
        assert(le_value(three) == b[3] + 0x100 * le_value(four));
        assert(le_value(two) == b[2] + 0x100 * le_value(three));
        assert(le_value(one) == b[1] + 0x100 * le_value(two));
    }
}

/// The number in two bytes.
proof fn lemma_bytes_2(b: Seq<u8>)
    requires
        b.len() == 2,
    ensures
        le_value(b) == b[0] + 0x100 * b[1],
{
    reveal_with_fuel(le_value, 3);
    assert(b.skip(1)[0] == b[1]);
}

/// The number in four bytes.
proof fn lemma_bytes_4(b: Seq<u8>)
    requires
        b.len() == 4,
    ensures
        le_value(b) == b[0] + 0x100 * b[1] + 0x1_0000 * b[2] + 0x100_0000 * b[3],
{
    let tail = b.skip(1).skip(1);
    lemma_bytes_2(tail);
    assert(tail[0] == b[2] && tail[1] == b[3]);
    assert(b.skip(1)[0] == b[1]);
    assert(le_value(b.skip(1)) == b[1] + 0x100 * le_value(tail));
}

/// The powers that count.
proof fn lemma_powers()
    ensures
        pow256(1) == 0x100,
        pow256(2) == 0x1_0000,
        pow256(4) == 0x1_0000_0000,
        pow256(8) == 0x1_0000_0000_0000_0000,
{
    reveal_with_fuel(pow256, 9);
}

/// The four lowest bytes of a sequence from a position on, as a number.
pub open spec fn low_four(b: Seq<u8>, i: int) -> int {
    b[i] + 0x100 * b[i + 1] + 0x1_0000 * b[i + 2] + 0x100_0000 * b[i + 3]
}

/// An integer is written behind the tag of the smallest type that holds it, in the bytes
/// of its two's complement, the lowest first.
pub proof fn law_bytes_of_an_integer(v: i64)
    ensures
        ({
            let b = int_bytes(v);
            &&& -0x80 <= v <= 0x7f ==> b.len() == 2 && b[0] == 0x03 && b[1] == (if v < 0 {
                v + 0x100
            } else {
                v as int
            })
            &&& -0x8000 <= v < -0x80 || 0x7f < v <= 0x7fff ==> b.len() == 3 && b[0] == 0x04 && b[1]
                + 0x100 * b[2] == (if v < 0 {
                v + 0x1_0000
            } else {
                v as int
            })
            &&& -0x8000_0000 <= v < -0x8000 || 0x7fff < v <= 0x7fff_ffff ==> b.len() == 5 && b[0]
                == 0x05 && low_four(b, 1) == (if v < 0 {
                v + 0x1_0000_0000
            } else {
                v as int
            })
            &&& v < -0x8000_0000 || 0x7fff_ffff < v ==> b.len() == 9 && b[0] == 0x06 && low_four(
                b,
                1,
            ) + 0x1_0000_0000 * low_four(b, 5) == (if v < 0 {
                v + 0x1_0000_0000_0000_0000
            } else {
                v as int
            })
        }),
{
    reveal(int_bytes);
    lemma_powers();
    let width = int_width(int_tag(v))->0;
    let x = wrapped(v as int, width);
    let tail = le_bytes(x, width);
    let b = int_bytes(v);
    lemma_le_bytes(x, width);
    law_lowest_byte_first(tail);
    assert(b.skip(1) =~= tail);
    assert forall|k: int| 0 <= k < width implies b[1 + k] == #[trigger] tail[k] by {}
}

/// Nothing, the truth values and doubles are written as a tag, a double with its eight
/// bytes behind it. A string is written as the tag of the version, the length of its bytes
/// and these; arrays and objects as a tag, the number of what they hold, and that, one
/// behind the other, the key of a member before its value.
pub proof fn law_bytes_of_a_value(
    version: PduVersion,
    d: u64,
    s: Seq<char>,
    items: Seq<Datum>,
    v: Datum,
    pairs: Seq<(Seq<char>, Datum)>,
)
    ensures
        value_bytes(Datum::Null, version) == seq![0x0au8],
        value_bytes(Datum::Bool(true), version) == seq![0x08u8],
        value_bytes(Datum::Bool(false), version) == seq![0x09u8],
        ({
            let b = value_bytes(Datum::Double(d), version);
            b.len() == 9 && b[0] == 0x07 && low_four(b, 1) + 0x1_0000_0000 * low_four(b, 5) == d
        }),
        value_bytes(Datum::Str(s), PduVersion::V1) == seq![0x02u8] + int_bytes(
            encode_utf8(s).len() as i64,
        ) + encode_utf8(s),
        value_bytes(Datum::Str(s), PduVersion::V2) == seq![0x0du8] + int_bytes(
            encode_utf8(s).len() as i64,
        ) + encode_utf8(s),
        value_bytes(Datum::Array(items), version) == seq![0x00u8] + int_bytes(items.len() as i64)
            + items_bytes(items, version),
        items_bytes(Seq::empty(), version) == Seq::<u8>::empty(),
        items_bytes(items.push(v), version) == items_bytes(items, version) + value_bytes(
            v,
            version,
        ),
        value_bytes(Datum::Object(pairs), version) == seq![0x01u8] + int_bytes(pairs.len() as i64)
            + members_bytes(pairs, version),
        members_bytes(Seq::empty(), version) == Seq::<u8>::empty(),
        members_bytes(pairs.push((s, v)), version) == members_bytes(pairs, version) + value_bytes(
            Datum::Str(s),
            version,
        ) + value_bytes(v, version),
{
    reveal(string_bytes);
    lemma_powers();
    let tail = le_bytes(d as nat, 8);
    let b = value_bytes(Datum::Double(d), version);
    lemma_le_bytes(d as nat, 8);
    law_lowest_byte_first(tail);
    assert forall|k: int| 0 <= k < 8 implies b[1 + k] == #[trigger] tail[k] by {}
    assert(items.push(v).drop_last() =~= items);
    assert(pairs.push((s, v)).drop_last() =~= pairs);
    lemma_items_bytes_push(items, v, version);
    lemma_members_bytes_push(pairs, s, v, version);
}

/// One more element is written behind the others.
proof fn lemma_items_bytes_push(items: Seq<Datum>, v: Datum, version: PduVersion)
    ensures
        items_bytes(items.push(v), version) == items_bytes(items, version) + value_bytes(
            v,
            version,
        ),
        items_bytes(Seq::empty(), version) == Seq::<u8>::empty(),
{
    assert(items.push(v).drop_last() =~= items);
    assert(items.push(v).last() == v);
}

/// One more member is written behind the others.
proof fn lemma_members_bytes_push(
    pairs: Seq<(Seq<char>, Datum)>,
    s: Seq<char>,
    v: Datum,
    version: PduVersion,
)
    ensures
        members_bytes(pairs.push((s, v)), version) == members_bytes(pairs, version) + string_bytes(
            s,
            version,
        ) + value_bytes(v, version),
        members_bytes(Seq::empty(), version) == Seq::<u8>::empty(),
{
    assert(pairs.push((s, v)).drop_last() =~= pairs);
    assert(pairs.push((s, v)).last() == (s, v));
}

/// A frame is the mark of its version, in the second with four bytes for capabilities, of
/// which there are none; then the length of the body, and the body.
pub proof fn law_bytes_of_a_frame(v: Datum)
    ensures
        ({
            let b = value_bytes(v, PduVersion::V1);
            frame(v, PduVersion::V1) == seq![0x00u8, 0x01] + int_bytes(b.len() as i64) + b
        }),
        ({
            let b = value_bytes(v, PduVersion::V2);
            frame(v, PduVersion::V2) == seq![0x00u8, 0x02, 0x00, 0x00, 0x00, 0x00] + int_bytes(
                b.len() as i64,
            ) + b
        }),
{
}

/// The signed number in one, two, four or eight bytes.
proof fn lemma_signed(b: Seq<u8>)
    ensures
        b.len() == 1 ==> signed_le(b) == (if b[0] < 0x80 {
            b[0] as int
        } else {
            b[0] - 0x100
        }),
        b.len() == 2 ==> signed_le(b) == (if b[1] < 0x80 {
            b[0] + 0x100 * b[1]
        } else {
            b[0] + 0x100 * b[1] - 0x1_0000
        }),
        b.len() == 4 ==> signed_le(b) == (if b[3] < 0x80 {
            low_four(b, 0)
        } else {
            low_four(b, 0) - 0x1_0000_0000
        }),
        b.len() == 8 ==> signed_le(b) == (if b[7] < 0x80 {
            low_four(b, 0) + 0x1_0000_0000 * low_four(b, 4)
        } else {
            low_four(b, 0) + 0x1_0000_0000 * low_four(b, 4) - 0x1_0000_0000_0000_0000
        }),
{
    lemma_powers();
    law_lowest_byte_first(b);
}

/// Integers of every width are read, whatever number they hold: each tag is followed by
/// its bytes, the lowest first, in two's complement.
pub proof fn law_integers_are_read(s: Seq<u8>, i: int)
    requires
        0 <= i < s.len() <= usize::MAX,
    ensures
        s[i] == 0x03 && i + 2 <= s.len() ==> ({
            let v = if s[i + 1] < 0x80 {
                s[i + 1] as int
            } else {
                s[i + 1] - 0x100
            };
            value_at(s, i) == Ok::<(Datum, int), BserError>((Datum::Int(v as i64), i + 2)) && v
                as i64 == v && int_at(s, i) == Ok::<(i64, int), BserError>((v as i64, i + 2))
        }),
        s[i] == 0x04 && i + 3 <= s.len() ==> ({
            let low = s[i + 1] + 0x100 * s[i + 2];
            let v = if s[i + 2] < 0x80 {
                low
            } else {
                low - 0x1_0000
            };
            value_at(s, i) == Ok::<(Datum, int), BserError>((Datum::Int(v as i64), i + 3)) && v
                as i64 == v && int_at(s, i) == Ok::<(i64, int), BserError>((v as i64, i + 3))
        }),
        s[i] == 0x05 && i + 5 <= s.len() ==> ({
            let v = if s[i + 4] < 0x80 {
                low_four(s, i + 1)
            } else {
                low_four(s, i + 1) - 0x1_0000_0000
            };
            value_at(s, i) == Ok::<(Datum, int), BserError>((Datum::Int(v as i64), i + 5)) && v
                as i64 == v && int_at(s, i) == Ok::<(i64, int), BserError>((v as i64, i + 5))
        }),
        s[i] == 0x06 && i + 9 <= s.len() ==> ({
            let low = low_four(s, i + 1) + 0x1_0000_0000 * low_four(s, i + 5);
            let v = if s[i + 8] < 0x80 {
                low
            } else {
                low - 0x1_0000_0000_0000_0000
            };
            value_at(s, i) == Ok::<(Datum, int), BserError>((Datum::Int(v as i64), i + 9)) && v
                as i64 == v && int_at(s, i) == Ok::<(i64, int), BserError>((v as i64, i + 9))
        }),
{
    assert(s.subrange(i, i + 1)[0] == s[i]);
    if s[i] == 0x03 && i + 2 <= s.len() {
        lemma_signed(s.subrange(i + 1, i + 2));
    } else if s[i] == 0x04 && i + 3 <= s.len() {
        lemma_signed(s.subrange(i + 1, i + 3));
    } else if s[i] == 0x05 && i + 5 <= s.len() {
        lemma_signed(s.subrange(i + 1, i + 5));
    } else if s[i] == 0x06 && i + 9 <= s.len() {
        lemma_signed(s.subrange(i + 1, i + 9));
    }
}

/// What follows a tag decides what is read: nothing, the truth values, doubles by their
/// eight bytes, and strings under either tag, by the length of their bytes.
pub proof fn law_plain_values_are_read(s: Seq<u8>, i: int, n: i64, j: int)
    requires
        0 <= i < s.len() <= usize::MAX,
    ensures
        s[i] == 0x0a ==> value_at(s, i) == Ok::<(Datum, int), BserError>((Datum::Null, i + 1)),
        s[i] == 0x08 ==> value_at(s, i) == Ok::<(Datum, int), BserError>(
            (Datum::Bool(true), i + 1),
        ),
        s[i] == 0x09 ==> value_at(s, i) == Ok::<(Datum, int), BserError>(
            (Datum::Bool(false), i + 1),
        ),
        s[i] == 0x07 && i + 9 <= s.len() ==> ({
            let d = low_four(s, i + 1) + 0x1_0000_0000 * low_four(s, i + 5);
            value_at(s, i) == Ok::<(Datum, int), BserError>((Datum::Double(d as u64), i + 9)) && d
                as u64 == d
        }),
        (s[i] == 0x02 || s[i] == 0x0d) && int_at(s, i + 1) == Ok::<(i64, int), BserError>((n, j))
            && 0 <= n && j + n <= s.len() ==> value_at(s, i) == Ok::<(Datum, int), BserError>(
            (Datum::Str(lossy(s.subrange(j, j + n))), j + n),
        ),
        s[i] == 0x0b || s[i] == 0x0c || s[i] > 0x0d ==> value_at(s, i) == Err::<
            (Datum, int),
            BserError,
        >(BserError::UnsupportedTag(s[i])),
        (s[i] < 0x03 || s[i] > 0x06) ==> int_at(s, i) == Err::<(i64, int), BserError>(
            BserError::ExpectedInt,
        ),
{
    assert(s.subrange(i, i + 1)[0] == s[i]);
    if s[i] == 0x07 && i + 9 <= s.len() {
        law_lowest_byte_first(s.subrange(i + 1, i + 9));
    }
    if 0 <= n && j + n <= s.len() && int_at(s, i + 1) == Ok::<(i64, int), BserError>((n, j)) {
        assert(j >= 0) by {
            assert(take_at(s, i + 1, 1) is Ok);
        }
        assert(n as usize == n);
    }
}

/// Nothing is read where the bytes end too early.
pub proof fn law_short_bytes_are_told(s: Seq<u8>, i: int)
    requires
        0 <= i <= s.len(),
        i + 9 <= usize::MAX,
    ensures
        i == s.len() ==> value_at(s, i) == Err::<(Datum, int), BserError>(BserError::Truncated),
        i == s.len() ==> int_at(s, i) == Err::<(i64, int), BserError>(BserError::Truncated),
        i < s.len() && (s[i] == 0x06 || s[i] == 0x07) && s.len() < i + 9 ==> value_at(s, i)
            == Err::<(Datum, int), BserError>(BserError::Truncated),
        i < s.len() && s[i] == 0x05 && s.len() < i + 5 ==> value_at(s, i) == Err::<
            (Datum, int),
            BserError,
        >(BserError::Truncated),
        i < s.len() && s[i] == 0x04 && s.len() < i + 3 ==> value_at(s, i) == Err::<
            (Datum, int),
            BserError,
        >(BserError::Truncated),
        i < s.len() && s[i] == 0x03 && s.len() < i + 2 ==> value_at(s, i) == Err::<
            (Datum, int),
            BserError,
        >(BserError::Truncated),
{
    if i < s.len() {
        assert(s.subrange(i, i + 1)[0] == s[i]);
    }
}

/// The elements of an array are read one behind the other, as many as are announced.
pub proof fn law_elements_are_read(
    s: Seq<u8>,
    i: int,
    n: nat,
    items: Seq<Datum>,
    v: Datum,
    j: int,
)
    requires
        value_at(s, i) == Ok::<(Datum, int), BserError>((v, j)),
        i < j <= s.len(),
    ensures
        items_at(s, i, 0, items) == Ok::<(Seq<Datum>, int), BserError>((items, i)),
        items_at(s, i, n + 1, items) == items_at(s, j, n, items.push(v)),
{
}

/// The members of an object are read one behind the other, as many as are announced, each
/// with its key first, under either tag of a string; what starts with another tag is no
/// key.
pub proof fn law_members_are_read(
    s: Seq<u8>,
    i: int,
    n: nat,
    pairs: Seq<(Seq<char>, Datum)>,
    key: Seq<char>,
    k: int,
    v: Datum,
    j: int,
)
    requires
        0 <= i < s.len() <= usize::MAX,
    ensures
        members_at(s, i, 0, pairs) == Ok::<(Seq<(Seq<char>, Datum)>, int), BserError>((pairs, i)),
        (s[i] == 0x02 || s[i] == 0x0d) && text_at(s, i + 1) == Ok::<(Seq<char>, int), BserError>(
            (key, k),
        ) && value_at(s, k) == Ok::<(Datum, int), BserError>((v, j)) && k < j <= s.len()
            ==> members_at(s, i, n + 1, pairs) == members_at(s, j, n, pairs.push((key, v))),
        s[i] != 0x02 && s[i] != 0x0d ==> members_at(s, i, n + 1, pairs) == Err::<
            (Seq<(Seq<char>, Datum)>, int),
            BserError,
        >(BserError::ExpectedKey),
{
    assert(s.subrange(i, i + 1)[0] == s[i]);
}

/// An array holds what is read behind its tag and the number of its elements, and an
/// object what is read behind its tag and the number of its members.
pub proof fn law_containers_are_read(s: Seq<u8>, i: int, n: i64, k: int)
    requires
        0 <= i < s.len() <= usize::MAX,
        int_at(s, i + 1) == Ok::<(i64, int), BserError>((n, k)),
        0 <= n <= isize::MAX,
    ensures
        s[i] == 0x00 ==> match items_at(s, k, n as nat, Seq::empty()) {
            Ok((items, m)) => value_at(s, i) == Ok::<(Datum, int), BserError>(
                (Datum::Array(items), m),
            ),
            Err(e) => value_at(s, i) == Err::<(Datum, int), BserError>(e),
        },
        s[i] == 0x01 ==> match members_at(s, k, n as nat, Seq::empty()) {
            Ok((pairs, m)) => value_at(s, i) == Ok::<(Datum, int), BserError>(
                (Datum::Object(pairs), m),
            ),
            Err(e) => value_at(s, i) == Err::<(Datum, int), BserError>(e),
        },
{
    assert(s.subrange(i, i + 1)[0] == s[i]);
    assert(n as usize == n);
}

/// A body is the value at its start; what follows does not matter.
pub proof fn law_body_is_the_first_value(s: Seq<u8>, v: Datum, j: int, e: BserError)
    ensures
        value_at(s, 0) == Ok::<(Datum, int), BserError>((v, j)) ==> body_value(s) == Ok::<
            Datum,
            BserError,
        >(v),
        value_at(s, 0) == Err::<(Datum, int), BserError>(e) ==> body_value(s) == Err::<
            Datum,
            BserError,
        >(e),
{
}

/// A frame is read piece by piece: two bytes of mark, four of capabilities in the second
/// version, the tag of the length, the length in as many bytes as the tag says, and the
/// body in as many as the length says.
pub proof fn law_pieces_of_a_frame(version: PduVersion, a: u8, b: u8, any: Seq<u8>, len: usize)
    ensures
        PduState::Magic.piece() == 2,
        PduState::Magic.step(seq![0x00u8, 0x01]) == Ok::<FrameStep, BserError>(
            FrameStep::More(PduState::LengthTag(PduVersion::V1)),
        ),
        PduState::Magic.step(seq![0x00u8, 0x02]) == Ok::<FrameStep, BserError>(
            FrameStep::More(PduState::Capabilities(PduVersion::V2)),
        ),
        a != 0x00 || (b != 0x01 && b != 0x02) ==> PduState::Magic.step(seq![a, b]) == Err::<
            FrameStep,
            BserError,
        >(BserError::BadMagic),
        PduState::Capabilities(version).piece() == 4,
        PduState::Capabilities(version).step(any) == Ok::<FrameStep, BserError>(
            FrameStep::More(PduState::LengthTag(version)),
        ),
        PduState::LengthTag(version).piece() == 1,
        PduState::LengthTag(version).step(seq![0x03u8]) == Ok::<FrameStep, BserError>(
            FrameStep::More(PduState::Length(version, 1)),
        ),
        PduState::LengthTag(version).step(seq![0x04u8]) == Ok::<FrameStep, BserError>(
            FrameStep::More(PduState::Length(version, 2)),
        ),
        PduState::LengthTag(version).step(seq![0x05u8]) == Ok::<FrameStep, BserError>(
            FrameStep::More(PduState::Length(version, 4)),
        ),
        PduState::LengthTag(version).step(seq![0x06u8]) == Ok::<FrameStep, BserError>(
            FrameStep::More(PduState::Length(version, 8)),
        ),
        a < 0x03 || a > 0x06 ==> PduState::LengthTag(version).step(seq![a]) == Err::<
            FrameStep,
            BserError,
        >(BserError::BadLengthTag(a)),
        PduState::Length(version, b).piece() == b,
        PduState::Body(version, len).piece() == len,
        match body_value(any) {
            Ok(v) => PduState::Body(version, len).step(any) == Ok::<FrameStep, BserError>(
                FrameStep::Done(v, version),
            ),
            Err(e) => PduState::Body(version, len).step(any) == Err::<FrameStep, BserError>(e),
        },
{
    assert(seq![a, b][0] == a && seq![a, b][1] == b);
    assert(seq![0x00u8, 0x01][0] == 0x00 && seq![0x00u8, 0x01][1] == 0x01);
    assert(seq![0x00u8, 0x02][0] == 0x00 && seq![0x00u8, 0x02][1] == 0x02);
}

/// The length of a frame's body is the number in the bytes for it, the lowest first; one
/// that nothing in memory can have is told.
pub proof fn law_length_of_a_frame(version: PduVersion, width: u8, b: Seq<u8>)
    ensures
        b.len() == 1 && b[0] < 0x80 ==> PduState::Length(version, width).step(b) == Ok::<
            FrameStep,
            BserError,
        >(FrameStep::More(PduState::Body(version, b[0] as usize))),
        b.len() == 2 && b[1] < 0x80 ==> PduState::Length(version, width).step(b) == Ok::<
            FrameStep,
            BserError,
        >(FrameStep::More(PduState::Body(version, (b[0] + 0x100 * b[1]) as usize))),
        b.len() == 4 && b[3] < 0x80 ==> PduState::Length(version, width).step(b) == Ok::<
            FrameStep,
            BserError,
        >(FrameStep::More(PduState::Body(version, low_four(b, 0) as usize))),
        b.len() == 8 && low_four(b, 0) + 0x1_0000_0000 * low_four(b, 4) <= isize::MAX
            ==> PduState::Length(version, width).step(b) == Ok::<FrameStep, BserError>(
            FrameStep::More(
                PduState::Body(
                    version,
                    (low_four(b, 0) + 0x1_0000_0000 * low_four(b, 4)) as usize,
                ),
            ),
        ),
{
    lemma_signed(b);
}

/// What is said of bytes that cannot be read; a tag is told in hexadecimal.
pub proof fn law_texts_of_errors(tag: u8)
    ensures
        BserError::Truncated.text() == "bser: truncated"@,
        BserError::ExpectedInt.text() == "bser: expected int"@,
        BserError::ExpectedKey.text() == "bser: expected string key"@,
        BserError::UnsupportedTag(tag).text() == "bser: unsupported type tag 0x"@ + hex(tag),
        BserError::BadLengthTag(tag).text() == "bser: bad length tag 0x"@ + hex(tag),
        BserError::BadMagic.text() == "bser: bad magic"@,
        BserError::UnexpectedEnd.text() == "failed to fill whole buffer"@,
{
}

/// What comes of some bytes is the value, or why they could not be read.
pub proof fn law_outcomes(v: Value, e: BserError)
    ensures
        outcome(Ok(v)) == Ok::<Datum, BserError>(v@),
        outcome(Err(e)) == Err::<Datum, BserError>(e),
{
}

/// What is left of a stream once a frame is read from it is what follows the frame. Where a
/// piece is missing, all that was not read before it is left; where a piece is wrong, what
/// follows it is.
pub proof fn law_what_frames_leave(state: PduState, s: Seq<u8>)
    ensures
        match frame_read(state, s) {
            Ok((_, _, rest)) => frame_left(state, s) == rest,
            Err(_) => true,
        },
        s.len() < state.piece() ==> frame_left(state, s) == s && frame_read(state, s) == Err::<
            (Datum, PduVersion, Seq<u8>),
            BserError,
        >(BserError::UnexpectedEnd),
        s.len() >= state.piece() ==> match state.step(s.take(state.piece() as int)) {
            Ok(FrameStep::More(next)) => frame_left(state, s) == frame_left(
                next,
                s.skip(state.piece() as int),
            ) && frame_read(state, s) == frame_read(next, s.skip(state.piece() as int)),
            Ok(FrameStep::Done(v, version)) => frame_left(state, s) == s.skip(
                state.piece() as int,
            ) && frame_read(state, s) == Ok::<(Datum, PduVersion, Seq<u8>), BserError>(
                (v, version, s.skip(state.piece() as int)),
            ),
            Err(e) => frame_left(state, s) == s.skip(state.piece() as int) && frame_read(state, s)
                == Err::<(Datum, PduVersion, Seq<u8>), BserError>(e),
        },
    decreases state.behind(),
{
    if s.len() >= state.piece() {
        match state.step(s.take(state.piece() as int)) {
            Ok(FrameStep::More(next)) => {
                assert(next.behind() < state.behind());
                law_what_frames_leave(next, s.skip(state.piece() as int));
            },
            _ => {},
        }
    }
}

/// A negative number of one to four bytes is larger than any length once it is taken for
/// one.
proof fn lemma_negative_lengths(n: i64)
    requires
        -0x8000_0000 <= n < 0,
    ensures
        n as usize > isize::MAX,
{
    if usize::BITS == 64 {
        assert((n as u64) > 0x7fff_ffff_ffff_ffff) by (bit_vector)
            requires
                -0x8000_0000 <= n < 0,
        ;
    } else {
        assert((n as u32) > 0x7fff_ffff) by (bit_vector)
            requires
                -0x8000_0000 <= n < 0,
        ;
    }
}

/// Nothing has a negative length: neither arrays and objects, nor strings, nor frames.
pub proof fn law_negative_lengths_are_told(s: Seq<u8>, i: int, n: i64, k: int, b: Seq<u8>)
    requires
        0 <= i < s.len() <= usize::MAX,
        int_at(s, i + 1) == Ok::<(i64, int), BserError>((n, k)),
        -0x8000_0000 <= n < 0,
        b.len() == 1 || b.len() == 2 || b.len() == 4,
        signed_le(b) == n,
    ensures
        s[i] == 0x00 || s[i] == 0x01 ==> value_at(s, i) == Err::<(Datum, int), BserError>(
            BserError::Oversized,
        ),
        s.len() <= isize::MAX && (s[i] == 0x02 || s[i] == 0x0d) ==> value_at(s, i) is Err,
        PduState::Length(PduVersion::V1, b.len() as u8).step(b) == Err::<FrameStep, BserError>(
            BserError::Oversized,
        ),
        PduState::Length(PduVersion::V2, b.len() as u8).step(b) == Err::<FrameStep, BserError>(
            BserError::Oversized,
        ),
{
    assert(s.subrange(i, i + 1)[0] == s[i]);
    lemma_negative_lengths(n);
    assert(k >= 0) by {
        assert(take_at(s, i + 1, 1) is Ok);
    }
}

} // verus!
