//! Requests and responses on a stream: a frame of the binary encoding in either
//! version, or a line of JSON, told apart by the first bytes. A response goes
//! out in the framing that its request came in.

use vstd::prelude::*;
use vstd::utf8::*;

use crate::bser;
use crate::bser::{
    frame, frame_read, frame_with, law_frame_round_trip, push_all, value_bytes, BserError, FrameStep, PduState,
    PduStep, PduVersion,
};
use crate::json;
use crate::json::{
    law_round_trip, lemma_value_line, lemma_value_text_first, missing, reads_back, text_value,
    value_text, without_controls, JsonError,
};
use crate::numbers::Numbers;
use crate::text::{
    chars_of, from_utf8_lossy, is_white_space, lemma_utf8_concat, lemma_utf8_no_newline, lossy,
    string_of, trim, trimmed, without_back, without_front,
};
use crate::value::{Datum, Value};

verus! {

/// How a request is framed.
#[derive(Debug, Clone, Copy, PartialEq, Eq, Structural)]
pub enum Framing {
    Bser(PduVersion),
    Json,
}

/// Why a request could not be read.
#[derive(Debug, Clone, Copy, PartialEq, Eq, Structural)]
pub enum ProtocolError {
    /// The first two bytes are no magic.
    BadMagic,
    /// What follows the magic is no frame.
    Bser(BserError),
    /// The line is no JSON.
    Json(JsonError),
}

impl ProtocolError {
    /// What is said of the error.
    pub open spec fn text(self) -> Seq<char> {
        match self {
            ProtocolError::BadMagic => "protocol: bad bser magic"@,
            ProtocolError::Bser(e) => e.text(),
            ProtocolError::Json(e) => e.text(),
        }
    }

    /// Says what is wrong.
    pub fn message(&self) -> (r: String)
        ensures
            r@ == self.text(),
    {
        match self {
            ProtocolError::BadMagic => "protocol: bad bser magic".to_string(),
            ProtocolError::Bser(e) => e.message(),
            ProtocolError::Json(e) => e.message(),
        }
    }
}

/// What comes next while a request is read.
#[derive(Debug, Clone, Copy, PartialEq, Eq, Structural)]
pub enum RequestState {
    /// The first byte, or the end of the stream.
    First,
    /// The second byte of a magic.
    Second,
    /// A piece of a frame.
    Frame(PduState),
    /// The rest of a line that starts with the given byte, with the newline
    /// where there is one.
    Line(u8),
}

/// What is to be read next.
#[derive(Debug, Clone, Copy, PartialEq, Eq, Structural)]
pub enum Wanted {
    /// One byte, or nothing at the end of the stream.
    AtMostOne,
    /// So many bytes.
    Exactly(usize),
    /// Everything up to a newline, and the newline.
    Line,
}

/// What came of a piece of a request.
pub enum RequestStep {
    /// More is to be read.
    More(RequestState),
    /// The stream has ended.
    End,
    /// The request is complete.
    Done(Value, Framing),
}

/// What a `RequestStep` stands for.
pub enum Progress {
    More(RequestState),
    End,
    Done(Datum, Framing),
}

impl RequestStep {
    /// What the step stands for.
    pub open spec fn view(&self) -> Progress {
        match self {
            RequestStep::More(s) => Progress::More(*s),
            RequestStep::End => Progress::End,
            RequestStep::Done(v, framing) => Progress::Done(v@, *framing),
        }
    }
}

/// The text of a line, without white space at either end.
pub open spec fn line_text(first: u8, rest: Seq<u8>) -> Seq<char> {
    trimmed(lossy(seq![first] + rest))
}

/// The text of a line that starts with the given byte.
pub fn read_line_text(first: u8, rest: &[u8]) -> (r: String)
    ensures
        r@ == line_text(first, rest@),
{
    let mut line: Vec<u8> = Vec::new();
    line.push(first);
    push_all(&mut line, rest);
    assert(line@ =~= seq![first] + rest@);
    let text = from_utf8_lossy(line.as_slice());
    string_of(trim(chars_of(text.as_str()).as_slice()).as_slice())
}

impl RequestState {
    /// The pieces of a frame are those that frames have.
    pub open spec fn wf(self) -> bool {
        match self {
            RequestState::Frame(s) => s.wf(),
            _ => true,
        }
    }

    /// What is to be read next.
    pub open spec fn want(self) -> Wanted {
        match self {
            RequestState::First => Wanted::AtMostOne,
            RequestState::Second => Wanted::Exactly(1),
            RequestState::Frame(s) => Wanted::Exactly(s.piece() as usize),
            RequestState::Line(_) => Wanted::Line,
        }
    }

    /// How many pieces follow the next one at most.
    pub open spec fn behind(self) -> nat {
        match self {
            RequestState::First => 7,
            RequestState::Second => 6,
            RequestState::Frame(s) => s.behind(),
            RequestState::Line(_) => 0,
        }
    }

    /// What comes of the next piece.
    pub open spec fn step(self, bytes: Seq<u8>, readings: Map<Seq<char>, Option<u64>>) -> Result<
        Progress,
        ProtocolError,
    > {
        match self {
            RequestState::First => if bytes.len() == 0 {
                Ok(Progress::End)
            } else if bytes[0] == 0x00 {
                Ok(Progress::More(RequestState::Second))
            } else {
                Ok(Progress::More(RequestState::Line(bytes[0])))
            },
            RequestState::Second => match PduState::Magic.step(seq![0x00u8, bytes[0]]) {
                Ok(FrameStep::More(next)) => Ok(Progress::More(RequestState::Frame(next))),
                _ => Err(ProtocolError::BadMagic),
            },
            RequestState::Frame(s) => match s.step(bytes) {
                Ok(FrameStep::More(next)) => Ok(Progress::More(RequestState::Frame(next))),
                Ok(FrameStep::Done(v, version)) => Ok(Progress::Done(v, Framing::Bser(version))),
                Err(e) => Err(ProtocolError::Bser(e)),
            },
            RequestState::Line(first) => match text_value(line_text(first, bytes), readings) {
                Ok(v) => Ok(Progress::Done(v, Framing::Json)),
                Err(e) => Err(ProtocolError::Json(e)),
            },
        }
    }

    /// Whether a piece is what is to be read next.
    pub open spec fn accepts(self, bytes: Seq<u8>) -> bool {
        match self.want() {
            Wanted::AtMostOne => bytes.len() <= 1,
            Wanted::Exactly(n) => bytes.len() == n,
            Wanted::Line => true,
        }
    }

    /// Says what is to be read next.
    pub fn wanted(&self) -> (r: Wanted)
        requires
            self.wf(),
        ensures
            r == self.want(),
    {
        match self {
            RequestState::First => Wanted::AtMostOne,
            RequestState::Second => Wanted::Exactly(1),
            RequestState::Frame(s) => Wanted::Exactly(s.wanted()),
            RequestState::Line(_) => Wanted::Line,
        }
    }

    /// Takes the next piece of a request.
    pub fn feed(self, bytes: &[u8], numbers: &Numbers) -> (r: Result<RequestStep, ProtocolError>)
        requires
            self.wf(),
            self.accepts(bytes@),
        ensures
            match self.step(bytes@, numbers.readings()) {
                Ok(step) => r is Ok && r->Ok_0@ == step,
                Err(e) => r == Err::<RequestStep, ProtocolError>(e),
            },
            match r {
                Ok(RequestStep::More(next)) => next.wf() && next.behind() < self.behind(),
                _ => true,
            },
    {
        match self {
            RequestState::First => {
                if bytes.len() == 0 {
                    Ok(RequestStep::End)
                } else if bytes[0] == 0x00 {
                    Ok(RequestStep::More(RequestState::Second))
                } else {
                    Ok(RequestStep::More(RequestState::Line(bytes[0])))
                }
            },
            RequestState::Second => {
                let mut magic: Vec<u8> = Vec::new();
                magic.push(0x00);
                magic.push(bytes[0]);
                assert(magic@ =~= seq![0x00u8, bytes@[0]]);
                match PduState::Magic.feed(magic.as_slice()) {
                    Ok(PduStep::More(next)) => Ok(RequestStep::More(RequestState::Frame(next))),
                    _ => Err(ProtocolError::BadMagic),
                }
            },
            RequestState::Frame(s) => match s.feed(bytes) {
                Ok(PduStep::More(next)) => Ok(RequestStep::More(RequestState::Frame(next))),
                Ok(PduStep::Done(v, version)) => Ok(RequestStep::Done(v, Framing::Bser(version))),
                Err(e) => Err(ProtocolError::Bser(e)),
            },
            RequestState::Line(first) => {
                let text = read_line_text(first, bytes);
                match json::try_decode(text.as_str(), numbers) {
                    Ok(v) => Ok(RequestStep::Done(v, Framing::Json)),
                    Err(e) => Err(ProtocolError::Json(e)),
                }
            },
        }
    }
}

/// How many bytes a line takes: up to the newline, or all.
pub open spec fn line_len(s: Seq<u8>) -> nat
    decreases s.len(),
{
    if s.len() == 0 {
        0
    } else if s[0] == 0x0a {
        1
    } else {
        1 + line_len(s.skip(1))
    }
}

/// How many bytes of a stream are read next; `None` where too few are left.
pub open spec fn next_len(state: RequestState, s: Seq<u8>) -> Option<nat> {
    match state.want() {
        Wanted::AtMostOne => Some(
            if s.len() == 0 {
                0
            } else {
                1
            },
        ),
        Wanted::Exactly(n) => if s.len() < n {
            None
        } else {
            Some(n as nat)
        },
        Wanted::Line => Some(line_len(s)),
    }
}

/// What comes of the bytes of a stream while a request is read: nothing at its
/// end, else the request, its framing, and what is left of the stream.
pub open spec fn request_read(
    state: RequestState,
    s: Seq<u8>,
    readings: Map<Seq<char>, Option<u64>>,
) -> Result<Option<(Datum, Framing, Seq<u8>)>, ProtocolError>
    decreases state.behind(),
{
    match next_len(state, s) {
        None => Err(ProtocolError::Bser(BserError::UnexpectedEnd)),
        Some(n) => match state.step(s.take(n as int), readings) {
            Ok(Progress::More(next)) => if next.behind() < state.behind() {
                request_read(next, s.skip(n as int), readings)
            } else {
                Err(ProtocolError::BadMagic)
            },
            Ok(Progress::End) => Ok(None),
            Ok(Progress::Done(v, framing)) => Ok(Some((v, framing, s.skip(n as int)))),
            Err(e) => Err(e),
        },
    }
}

/// What is left of a stream once a request is read from it, or could not be: all
/// but the pieces that were there.
pub open spec fn request_left(
    state: RequestState,
    s: Seq<u8>,
    readings: Map<Seq<char>, Option<u64>>,
) -> Seq<u8>
    decreases state.behind(),
{
    match next_len(state, s) {
        None => s,
        Some(n) => match state.step(s.take(n as int), readings) {
            Ok(Progress::More(next)) => if next.behind() < state.behind() {
                request_left(next, s.skip(n as int), readings)
            } else {
                s
            },
            _ => s.skip(n as int),
        },
    }
}

/// Finds where a line ends.
fn find_line_len(s: &[u8]) -> (r: usize)
    ensures
        r == line_len(s@),
        r <= s@.len(),
{
    let mut i: usize = 0;
    assert(s@.skip(0) =~= s@);
    while i < s.len()
        invariant
            i <= s@.len(),
            i + line_len(s@.skip(i as int)) == line_len(s@),
        decreases s@.len() - i,
    {
        assert(s@.skip(i as int).skip(1) =~= s@.skip(i + 1));
        if s[i] == 0x0a {
            return i + 1;
        }
        i += 1;
    }
    i
}

/// Whether a stream asks for what cannot be done: for more bytes than memory can
/// hold, or for an escape in JSON that is cut short.
pub open spec fn is_hopeless(
    outcome: Result<Option<(Datum, Framing, Seq<u8>)>, ProtocolError>,
) -> bool {
    ||| outcome == Err::<Option<(Datum, Framing, Seq<u8>)>, ProtocolError>(
        ProtocolError::Bser(BserError::Oversized),
    )
    ||| outcome == Err::<Option<(Datum, Framing, Seq<u8>)>, ProtocolError>(
        ProtocolError::Json(JsonError::CutEscape),
    )
}

/// Whether what was read off a stream, and what is left of it, are what a request
/// on it comes to.
pub open spec fn read_off(
    before: Seq<u8>,
    res: Result<Option<(Value, Framing)>, ProtocolError>,
    after: Seq<u8>,
    readings: Map<Seq<char>, Option<u64>>,
) -> bool {
    &&& after == request_left(RequestState::First, before, readings)
    &&& match request_read(RequestState::First, before, readings) {
        Ok(Some((v, framing, rest))) => after == rest && (match res {
            Ok(Some((got, how))) => got@ == v && how == framing,
            _ => false,
        }),
        Ok(None) => res is Ok && res->Ok_0 is None,
        Err(e) => res == Err::<Option<(Value, Framing)>, ProtocolError>(e),
    }
}

/// Reads a request off the front of any stream.
fn read_any(r: &mut &[u8], numbers: &Numbers) -> (res: Result<
    Option<(Value, Framing)>,
    ProtocolError,
>)
    ensures
        read_off(old(r)@, res, final(r)@, numbers.readings()),
{
    let mut state = RequestState::First;
    loop
        invariant
            state.wf(),
            request_read(RequestState::First, old(r)@, numbers.readings()) == request_read(
                state,
                r@,
                numbers.readings(),
            ),
            request_left(RequestState::First, old(r)@, numbers.readings()) == request_left(
                state,
                r@,
                numbers.readings(),
            ),
        decreases state.behind(),
    {
        let all: &[u8] = *r;
        let n: usize = match state.wanted() {
            Wanted::AtMostOne => if all.len() == 0 {
                0
            } else {
                1
            },
            Wanted::Exactly(n) => {
                if all.len() < n {
                    return Err(ProtocolError::Bser(BserError::UnexpectedEnd));
                }
                n
            },
            Wanted::Line => find_line_len(all),
        };
        let piece = vstd::slice::slice_subrange(all, 0, n);
        assert(piece@ == all@.take(n as int));
        let rest = vstd::slice::slice_subrange(all, n, all.len());
        assert(rest@ == all@.skip(n as int));
        *r = rest;
        match state.feed(piece, numbers) {
            Ok(RequestStep::More(next)) => {
                state = next;
            },
            Ok(RequestStep::End) => {
                return Ok(None);
            },
            Ok(RequestStep::Done(v, framing)) => {
                return Ok(Some((v, framing)));
            },
            Err(e) => {
                return Err(e);
            },
        }
    }
}

/// Reads one request off the front of a stream of bytes, and finds its framing;
/// nothing where the stream has ended. The stream must not ask for what cannot be
/// done.
pub fn read_request(r: &mut &[u8], numbers: &Numbers) -> (res: Result<
    Option<(Value, Framing)>,
    ProtocolError,
>)
    requires
        !is_hopeless(request_read(RequestState::First, old(r)@, numbers.readings())),
    ensures
        read_off(old(r)@, res, final(r)@, numbers.readings()),
{
    read_any(r, numbers)
}

/// Reads one request off the front of any stream of bytes; leaves the stream as it
/// is where it asks for what cannot be done.
pub fn try_read_request(r: &mut &[u8], numbers: &Numbers) -> (res: Option<
    Result<Option<(Value, Framing)>, ProtocolError>,
>)
    ensures
        match res {
            Some(got) => !is_hopeless(
                request_read(RequestState::First, old(r)@, numbers.readings()),
            ) && read_off(old(r)@, got, final(r)@, numbers.readings()),
            None => is_hopeless(request_read(RequestState::First, old(r)@, numbers.readings()))
                && final(r)@ == old(r)@,
        },
{
    let mut ahead: &[u8] = *r;
    match read_any(&mut ahead, numbers) {
        Err(ProtocolError::Bser(BserError::Oversized)) => None,
        Err(ProtocolError::Json(JsonError::CutEscape)) => None,
        _ => Some(read_request(r, numbers)),
    }
}

/// The bytes of a response in a framing.
pub open spec fn response_bytes(v: Datum, framing: Framing, notations: Map<u64, Seq<char>>) -> Seq<
    u8,
> {
    match framing {
        Framing::Bser(version) => frame(v, version),
        Framing::Json => encode_utf8(value_text(v, notations)) + seq![0x0au8],
    }
}

/// The double that keeps a response from being written.
pub open spec fn response_missing(
    v: Datum,
    framing: Framing,
    notations: Map<u64, Seq<char>>,
) -> Option<u64> {
    match framing {
        Framing::Bser(_) => None,
        Framing::Json => missing(v, notations),
    }
}

/// Appends a response in a framing to what is written so far; fails with the
/// first double that has no notation, if the framing is a line of JSON.
pub fn write_response(w: &mut Vec<u8>, v: &Value, framing: &Framing, numbers: &Numbers) -> (r:
    Result<(), u64>)
    ensures
        match response_missing(v@, *framing, numbers.notations()) {
            None => r is Ok && final(w)@ == old(w)@ + response_bytes(
                v@,
                *framing,
                numbers.notations(),
            ),
            Some(d) => r == Err::<(), u64>(d) && final(w)@ == old(w)@,
        },
{
    match framing {
        Framing::Bser(version) => {
            bser::write_pdu(w, v, *version);
            Ok(())
        },
        Framing::Json => match json::encode(v, numbers) {
            Ok(s) => {
                push_all(w, s.as_str().as_bytes());
                w.push(0x0a);
                assert(w@ =~= old(w)@ + response_bytes(v@, *framing, numbers.notations()));
                Ok(())
            },
            Err(d) => Err(d),
        },
    }
}

/// A frame that is read alone is read the same way as a request.
proof fn lemma_frames_agree(state: PduState, s: Seq<u8>, readings: Map<Seq<char>, Option<u64>>)
    requires
        frame_read(state, s) is Ok,
        state.piece() <= usize::MAX,
    ensures
        ({
            let (v, version, rest) = frame_read(state, s)->Ok_0;
            request_read(RequestState::Frame(state), s, readings) == Ok::<
                Option<(Datum, Framing, Seq<u8>)>,
                ProtocolError,
            >(Some((v, Framing::Bser(version), rest)))
        }),
    decreases state.behind(),
{
    match state.step(s.take(state.piece() as int)) {
        Ok(FrameStep::More(next)) => {
            if next.behind() < state.behind() {
                lemma_frames_agree(next, s.skip(state.piece() as int), readings);
            }
        },
        _ => {},
    }
}

/// A line without newlines before its end is read up to the newline.
proof fn lemma_line(front: Seq<u8>, behind: Seq<u8>)
    requires
        forall|k: int| 0 <= k < front.len() ==> (#[trigger] front[k]) != 0x0a,
    ensures
        line_len(front + seq![0x0au8] + behind) == front.len() + 1,
    decreases front.len(),
{
    let s = front + seq![0x0au8] + behind;
    if front.len() == 0 {
        assert(s[0] == 0x0a);
    } else {
        assert(s[0] == front[0]);
        assert(s.skip(1) =~= front.skip(1) + seq![0x0au8] + behind);
        lemma_line(front.skip(1), behind);
    }
}

/// A visible text at the front of a line is what is left of the line without the
/// white space at its ends.
proof fn lemma_trim_newline(t: Seq<char>)
    requires
        t.len() > 0,
        '!' <= t[0] <= '~',
        '!' <= t.last() <= '~',
    ensures
        trimmed(t.push('\n')) == t,
{
    let drop = |c: char| is_white_space(c);
    let s = t.push('\n');
    assert(s[0] == t[0]);
    assert(without_front(s, drop) == s);
    assert(s.last() == '\n');
    assert(s.drop_last() =~= t);
    assert(without_back(t, drop) == t);
    assert(without_back(s, drop) == without_back(t, drop));
}

/// The encoding of a visible text without control characters starts with a byte
/// that starts no frame, and has no newline.
proof fn lemma_line_bytes(t: Seq<char>)
    requires
        t.len() > 0,
        '!' <= t[0] <= '~',
        without_controls(t),
    ensures
        encode_utf8(t).len() > 0,
        encode_utf8(t)[0] != 0x00,
        forall|k: int| 0 <= k < encode_utf8(t).len() ==> (#[trigger] encode_utf8(t)[k]) != 0x0a,
{
    lemma_utf8_no_newline(t);
    let bytes = encode_utf8(t);
    let first = t[0] as u32;
    assert(encode_scalar(first) == seq![leading_byte_width_1(first)]);
    assert((first & 0x7F) as u8 != 0x00) by (bit_vector)
        requires
            0x21 <= first <= 0x7e,
    ;
    assert(bytes == encode_scalar(first) + encode_utf8(t.drop_first()));
}

/// The encoding of a line is that of its text and a newline.
proof fn lemma_line_encoding(t: Seq<char>)
    ensures
        encode_utf8(t.push('\n')) == encode_utf8(t) + seq![0x0au8],
        lossy(encode_utf8(t) + seq![0x0au8]) == t.push('\n'),
{
    lemma_utf8_concat(t, seq!['\n']);
    assert(t + seq!['\n'] =~= t.push('\n'));
    is_ascii_chars_encode_utf8(seq!['\n']);
    assert(seq!['\n'][0] as u8 == encode_utf8(seq!['\n'])[0]);
    assert(encode_utf8(seq!['\n']) =~= seq![0x0au8]);
    encode_utf8_valid_utf8(t.push('\n'));
    encode_utf8_decode_utf8(t.push('\n'));
}

/// How a line is cut off the front of a stream.
proof fn lemma_line_cut(bytes: Seq<u8>, behind: Seq<u8>)
    requires
        bytes.len() > 0,
        forall|k: int| 0 <= k < bytes.len() ==> (#[trigger] bytes[k]) != 0x0a,
    ensures
        ({
            let s = bytes + seq![0x0au8] + behind;
            let n = line_len(s.skip(1)) as int;
            &&& s.take(1) == seq![bytes[0]]
            &&& seq![bytes[0]] + s.skip(1).take(n) == bytes + seq![0x0au8]
            &&& s.skip(1).skip(n) == behind
        }),
{
    let s = bytes + seq![0x0au8] + behind;
    let rest = bytes.skip(1);
    let line = rest + seq![0x0au8];
    assert(s.take(1) =~= seq![bytes[0]]);
    assert(s.skip(1) =~= rest + seq![0x0au8] + behind);
    lemma_line(rest, behind);
    assert(s.skip(1).take(line.len() as int) =~= line);
    assert(s.skip(1).skip(line.len() as int) =~= behind);
    assert(seq![bytes[0]] + line =~= bytes + seq![0x0au8]);
}

/// A stream that starts with no zero is read as a line.
proof fn lemma_read_first(s: Seq<u8>, first: u8, readings: Map<Seq<char>, Option<u64>>)
    requires
        s.take(1) == seq![first],
        s.len() > 0,
        first != 0x00,
    ensures
        request_read(RequestState::First, s, readings) == request_read(
            RequestState::Line(first),
            s.skip(1),
            readings,
        ),
{
}

/// A line is read up to its newline.
proof fn lemma_read_line(s: Seq<u8>, first: u8, readings: Map<Seq<char>, Option<u64>>)
    ensures
        request_read(RequestState::Line(first), s, readings) == (match text_value(
            line_text(first, s.take(line_len(s) as int)),
            readings,
        ) {
            Ok(v) => Ok::<Option<(Datum, Framing, Seq<u8>)>, ProtocolError>(
                Some((v, Framing::Json, s.skip(line_len(s) as int))),
            ),
            Err(e) => Err(ProtocolError::Json(e)),
        }),
{
}

/// A line whose text holds a value is a request.
proof fn lemma_line_is_request(
    bytes: Seq<u8>,
    v: Datum,
    readings: Map<Seq<char>, Option<u64>>,
    behind: Seq<u8>,
)
    requires
        bytes.len() > 0,
        bytes[0] != 0x00,
        forall|k: int| 0 <= k < bytes.len() ==> (#[trigger] bytes[k]) != 0x0a,
        text_value(trimmed(lossy(bytes + seq![0x0au8])), readings) == Ok::<Datum, JsonError>(v),
    ensures
        request_read(RequestState::First, bytes + seq![0x0au8] + behind, readings) == Ok::<
            Option<(Datum, Framing, Seq<u8>)>,
            ProtocolError,
        >(Some((v, Framing::Json, behind))),
{
    let s = bytes + seq![0x0au8] + behind;
    lemma_line_cut(bytes, behind);
    lemma_read_first(s, bytes[0], readings);
    lemma_read_line(s.skip(1), bytes[0], readings);
}

/// A line of JSON that was written is read back.
proof fn lemma_line_read_back(
    v: Datum,
    readings: Map<Seq<char>, Option<u64>>,
    notations: Map<u64, Seq<char>>,
    behind: Seq<u8>,
)
    requires
        reads_back(v, readings, notations),
    ensures
        request_read(
            RequestState::First,
            response_bytes(v, Framing::Json, notations) + behind,
            readings,
        ) == Ok::<Option<(Datum, Framing, Seq<u8>)>, ProtocolError>(
            Some((v, Framing::Json, behind)),
        ),
{
    let t = value_text(v, notations);
    lemma_value_text_first(v, readings, notations);
    lemma_value_line(v, readings, notations);
    lemma_line_bytes(t);
    lemma_line_encoding(t);
    lemma_trim_newline(t);
    law_round_trip(v, readings, notations, Seq::empty());
    assert(t + Seq::<char>::empty() =~= t);
    lemma_line_is_request(encode_utf8(t), v, readings, behind);
}

/// A stream that starts with a zero is read as a frame.
proof fn lemma_read_zero(s: Seq<u8>, readings: Map<Seq<char>, Option<u64>>)
    requires
        s.len() > 0,
        s[0] == 0x00,
    ensures
        request_read(RequestState::First, s, readings) == request_read(
            RequestState::Second,
            s.skip(1),
            readings,
        ),
{
    assert(s.take(1)[0] == 0x00);
}

/// A frame goes on behind its magic.
proof fn lemma_read_magic(s: Seq<u8>, next: PduState, readings: Map<Seq<char>, Option<u64>>)
    requires
        s.len() > 0,
        next.behind() < 6,
        PduState::Magic.step(seq![0x00u8, s[0]]) == Ok::<FrameStep, BserError>(
            FrameStep::More(next),
        ),
    ensures
        request_read(RequestState::Second, s, readings) == request_read(
            RequestState::Frame(next),
            s.skip(1),
            readings,
        ),
{
    assert(s.take(1)[0] == s[0]);
}

/// A frame that is read has a magic, and goes on behind it.
proof fn lemma_frame_magic(s: Seq<u8>) -> (next: PduState)
    requires
        s.len() >= 2,
        frame_read(PduState::Magic, s) is Ok,
    ensures
        PduState::Magic.step(s.take(2)) == Ok::<FrameStep, BserError>(FrameStep::More(next)),
        frame_read(PduState::Magic, s) == frame_read(next, s.skip(2)),
        next.behind() < 4,
        next.piece() <= 4,
{
    match PduState::Magic.step(s.take(2)) {
        Ok(FrameStep::More(next)) => next,
        _ => PduState::Magic,
    }
}

/// A frame that is read alone is read as a request of its version.
proof fn lemma_frame_is_request(
    s: Seq<u8>,
    v: Datum,
    version: PduVersion,
    readings: Map<Seq<char>, Option<u64>>,
    behind: Seq<u8>,
)
    requires
        s.len() >= 2,
        s[0] == 0x00,
        frame_read(PduState::Magic, s) == Ok::<(Datum, PduVersion, Seq<u8>), BserError>(
            (v, version, behind),
        ),
    ensures
        request_read(RequestState::First, s, readings) == Ok::<
            Option<(Datum, Framing, Seq<u8>)>,
            ProtocolError,
        >(Some((v, Framing::Bser(version), behind))),
{
    let next = lemma_frame_magic(s);
    assert(s.take(2) =~= seq![0x00u8, s.skip(1)[0]]);
    assert(s.skip(1).skip(1) =~= s.skip(2));
    lemma_read_zero(s, readings);
    lemma_read_magic(s.skip(1), next, readings);
    lemma_frames_agree(next, s.skip(2), readings);
}

/// How a frame starts.
proof fn lemma_frame_starts(v: Datum, version: PduVersion, behind: Seq<u8>)
    ensures
        (frame(v, version) + behind).len() >= 2,
        (frame(v, version) + behind)[0] == 0x00,
{
}

/// Whether what is written for a value in a framing is read back: in a line of
/// JSON, doubles must be printed as literals that read as the same doubles; a frame
/// must fit into memory.
pub open spec fn survives(
    v: Datum,
    framing: Framing,
    readings: Map<Seq<char>, Option<u64>>,
    notations: Map<u64, Seq<char>>,
) -> bool {
    match framing {
        Framing::Bser(version) => value_bytes(v, version).len() <= isize::MAX,
        Framing::Json => reads_back(v, readings, notations),
    }
}

/// What is written in a framing is read back in that framing, and what follows it
/// on the stream is left: a response reaches the client as it was meant, and a
/// request the daemon.
pub proof fn law_response_is_read_back(
    v: Datum,
    framing: Framing,
    readings: Map<Seq<char>, Option<u64>>,
    notations: Map<u64, Seq<char>>,
    behind: Seq<u8>,
)
    requires
        survives(v, framing, readings, notations),
    ensures
        request_read(
            RequestState::First,
            response_bytes(v, framing, notations) + behind,
            readings,
        ) == Ok::<Option<(Datum, Framing, Seq<u8>)>, ProtocolError>(Some((v, framing, behind))),
{
    match framing {
        Framing::Bser(version) => {
            law_frame_round_trip(v, version, seq![0u8, 0, 0, 0], behind);
            lemma_frame_starts(v, version, behind);
            lemma_frame_is_request(frame(v, version) + behind, v, version, readings, behind);
        },
        Framing::Json => lemma_line_read_back(v, readings, notations, behind),
    }
}

/// A frame with any capabilities is a request of its version.
pub proof fn law_capabilities_are_passed_over(
    v: Datum,
    version: PduVersion,
    capabilities: Seq<u8>,
    readings: Map<Seq<char>, Option<u64>>,
    behind: Seq<u8>,
)
    requires
        value_bytes(v, version).len() <= isize::MAX,
        capabilities.len() == 4,
    ensures
        request_read(
            RequestState::First,
            frame_with(v, version, capabilities) + behind,
            readings,
        ) == Ok::<Option<(Datum, Framing, Seq<u8>)>, ProtocolError>(
            Some((v, Framing::Bser(version), behind)),
        ),
{
    let s = frame_with(v, version, capabilities) + behind;
    law_frame_round_trip(v, version, capabilities, behind);
    assert(s.len() >= 2 && s[0] == 0x00);
    lemma_frame_is_request(s, v, version, readings, behind);
}

/// Whose turn it is once a piece of a request was read: more is to be read, the request is
/// to be answered in its framing, or the stream has ended.
pub open spec fn turn_after(progress: Progress) -> Exchange {
    match progress {
        Progress::More(next) => Exchange::Reading(next),
        Progress::End => Exchange::Over,
        Progress::Done(_, framing) => Exchange::Answering(framing),
    }
}

/// What is written where a request is to be answered: the answer in the framing that the
/// request came in.
pub open spec fn reply(turn: Exchange, v: Datum, notations: Map<u64, Seq<char>>) -> Seq<u8> {
    response_bytes(v, turn->Answering_0, notations)
}

/// The double that keeps an answer from being written.
pub open spec fn reply_missing(
    turn: Exchange,
    v: Datum,
    notations: Map<u64, Seq<char>>,
) -> Option<u64> {
    response_missing(v, turn->Answering_0, notations)
}

/// Whose turn it is once a request is answered: the next one is to be read.
pub open spec fn turn_after_reply() -> Exchange {
    Exchange::Reading(RequestState::First)
}

/// Whose turn it is on a connection.
#[derive(Debug, Clone, Copy, PartialEq, Eq, Structural)]
pub enum Exchange {
    /// A request is being read.
    Reading(RequestState),
    /// A request was read in a framing, and is to be answered in it.
    Answering(Framing),
    /// The stream of requests has ended.
    Over,
}

impl Exchange {
    /// Whether a request is being read, and a piece is what is to be read next.
    pub open spec fn accepts(self, bytes: Seq<u8>) -> bool {
        match self {
            Exchange::Reading(state) => state.wf() && state.accepts(bytes),
            _ => false,
        }
    }

    /// The start of an exchange: the first request is to be read.
    pub fn new() -> (r: Self)
        ensures
            r == Exchange::Reading(RequestState::First),
    {
        Exchange::Reading(RequestState::First)
    }

    /// Takes the next piece of a request. Once the request is complete it is handed
    /// out, and is to be answered in its framing before anything else is read.
    pub fn feed(self, bytes: &[u8], numbers: &Numbers) -> (r: Result<
        (Exchange, Option<Value>),
        ProtocolError,
    >)
        requires
            self.accepts(bytes@),
        ensures
            match self {
                Exchange::Reading(state) => match state.step(bytes@, numbers.readings()) {
                    Ok(Progress::More(next)) => next.wf() && r == Ok::<
                        (Exchange, Option<Value>),
                        ProtocolError,
                    >((turn_after(Progress::More(next)), None)),
                    Ok(Progress::End) => r == Ok::<(Exchange, Option<Value>), ProtocolError>(
                        (turn_after(Progress::End), None),
                    ),
                    Ok(Progress::Done(v, framing)) => (match r {
                        Ok((next, Some(got))) => next == turn_after(Progress::Done(v, framing))
                            && got@ == v,
                        _ => false,
                    }),
                    Err(e) => r == Err::<(Exchange, Option<Value>), ProtocolError>(e),
                },
                _ => true,
            },
    {
        match self {
            Exchange::Reading(state) => match state.feed(bytes, numbers) {
                Ok(RequestStep::More(next)) => Ok((Exchange::Reading(next), None)),
                Ok(RequestStep::End) => Ok((Exchange::Over, None)),
                Ok(RequestStep::Done(v, framing)) => Ok((Exchange::Answering(framing), Some(v))),
                Err(e) => Err(e),
            },
            _ => Ok((self, None)),
        }
    }

    /// Appends the answer to the request that was read, in the framing that it came
    /// in; the next request is to be read then. Fails with the first double that has
    /// no notation, if the framing is a line of JSON.
    pub fn answer(self, w: &mut Vec<u8>, v: &Value, numbers: &Numbers) -> (r: Result<Exchange, u64>)
        requires
            self is Answering,
        ensures
            match reply_missing(self, v@, numbers.notations()) {
                None => r == Ok::<Exchange, u64>(turn_after_reply()) && final(w)@ == old(w)@
                    + reply(self, v@, numbers.notations()),
                Some(d) => r == Err::<Exchange, u64>(d) && final(w)@ == old(w)@,
            },
    {
        match self {
            Exchange::Answering(framing) => match write_response(w, v, &framing, numbers) {
                Ok(()) => Ok(Exchange::new()),
                Err(d) => Err(d),
            },
            _ => Ok(self),
        }
    }
}

/// What comes of an exchange over a stream of requests, given the answers to them:
/// what is written, where the exchange stands when the stream has ended, an answer
/// is lacking or a request cannot be read, and what is left of the stream.
pub open spec fn exchanged(
    turn: Exchange,
    s: Seq<u8>,
    answers: Seq<Datum>,
    readings: Map<Seq<char>, Option<u64>>,
    notations: Map<u64, Seq<char>>,
) -> (Seq<u8>, Result<Exchange, ProtocolError>, Seq<u8>)
    decreases
            answers.len(),
            (match turn {
                Exchange::Reading(state) => state.behind() + 1,
                _ => 0,
            }),
{
    match turn {
        Exchange::Over => (Seq::empty(), Ok(turn), s),
        Exchange::Answering(framing) => if answers.len() == 0 {
            (Seq::empty(), Ok(turn), s)
        } else {
            let (written, end, left) = exchanged(
                turn_after_reply(),
                s,
                answers.skip(1),
                readings,
                notations,
            );
            (reply(turn, answers[0], notations) + written, end, left)
        },
        Exchange::Reading(state) => match next_len(state, s) {
            None => (Seq::empty(), Err(ProtocolError::Bser(BserError::UnexpectedEnd)), s),
            Some(n) => {
                let rest = s.skip(n as int);
                match state.step(s.take(n as int), readings) {
                    Ok(Progress::More(next)) => if next.behind() < state.behind() {
                        exchanged(
                            turn_after(Progress::More(next)),
                            rest,
                            answers,
                            readings,
                            notations,
                        )
                    } else {
                        (Seq::empty(), Err(ProtocolError::BadMagic), s)
                    },
                    Ok(Progress::End) => (Seq::empty(), Ok(turn_after(Progress::End)), rest),
                    Ok(Progress::Done(v, framing)) => exchanged(
                        turn_after(Progress::Done(v, framing)),
                        rest,
                        answers,
                        readings,
                        notations,
                    ),
                    Err(e) => (Seq::empty(), Err(e), rest),
                }
            },
        },
    }
}

/// An exchange that reads a request goes on where the request ends.
proof fn lemma_exchange_reads(
    state: RequestState,
    s: Seq<u8>,
    answers: Seq<Datum>,
    readings: Map<Seq<char>, Option<u64>>,
    notations: Map<u64, Seq<char>>,
)
    ensures
        exchanged(Exchange::Reading(state), s, answers, readings, notations) == (match request_read(
            state,
            s,
            readings,
        ) {
            Ok(None) => (
                Seq::<u8>::empty(),
                Ok::<Exchange, ProtocolError>(Exchange::Over),
                request_left(state, s, readings),
            ),
            Ok(Some((_, framing, rest))) => exchanged(
                Exchange::Answering(framing),
                rest,
                answers,
                readings,
                notations,
            ),
            Err(e) => (Seq::<u8>::empty(), Err(e), request_left(state, s, readings)),
        }),
    decreases state.behind(),
{
    match next_len(state, s) {
        None => {},
        Some(n) => match state.step(s.take(n as int), readings) {
            Ok(Progress::More(next)) => {
                if next.behind() < state.behind() {
                    lemma_exchange_reads(next, s.skip(n as int), answers, readings, notations);
                }
            },
            _ => {},
        },
    }
}

/// Each request gets exactly one answer, in the framing that it came in, before the
/// next one is read. At the end of the stream, and for a request that cannot be
/// read, nothing is written.
pub proof fn law_one_answer_each(
    s: Seq<u8>,
    answers: Seq<Datum>,
    readings: Map<Seq<char>, Option<u64>>,
    notations: Map<u64, Seq<char>>,
)
    ensures
        ({
            let start = Exchange::Reading(RequestState::First);
            let left = request_left(RequestState::First, s, readings);
            exchanged(start, s, answers, readings, notations) == (match request_read(
                RequestState::First,
                s,
                readings,
            ) {
                Ok(None) => (
                    Seq::<u8>::empty(),
                    Ok::<Exchange, ProtocolError>(Exchange::Over),
                    left,
                ),
                Err(e) => (Seq::<u8>::empty(), Err(e), left),
                Ok(Some((_, framing, rest))) => if answers.len() == 0 {
                    (Seq::<u8>::empty(), Ok(Exchange::Answering(framing)), rest)
                } else {
                    let (written, end, behind) = exchanged(
                        start,
                        rest,
                        answers.skip(1),
                        readings,
                        notations,
                    );
                    (response_bytes(answers[0], framing, notations) + written, end, behind)
                },
            })
        }),
{
    lemma_exchange_reads(RequestState::First, s, answers, readings, notations);
}

/// An empty stream holds no request.
pub proof fn law_no_request_at_the_end(readings: Map<Seq<char>, Option<u64>>)
    ensures
        request_read(RequestState::First, Seq::empty(), readings) == Ok::<
            Option<(Datum, Framing, Seq<u8>)>,
            ProtocolError,
        >(None),
        request_left(RequestState::First, Seq::empty(), readings) == Seq::<u8>::empty(),
{
    assert(Seq::<u8>::empty().take(0) =~= Seq::<u8>::empty());
    assert(Seq::<u8>::empty().skip(0) =~= Seq::<u8>::empty());
}

/// The bytes of some values, each in its framing, one behind the other.
pub open spec fn all_bytes(all: Seq<(Datum, Framing)>, notations: Map<u64, Seq<char>>) -> Seq<u8>
    decreases all.len(),
{
    if all.len() == 0 {
        Seq::empty()
    } else {
        response_bytes(all[0].0, all[0].1, notations) + all_bytes(all.skip(1), notations)
    }
}

/// Requests that were written back to back are answered one by one: the answers are
/// written in their order, each in the framing of its request, and the exchange is
/// over behind the last.
pub proof fn law_requests_are_answered_in_turn(
    requests: Seq<(Datum, Framing)>,
    answers: Seq<Datum>,
    readings: Map<Seq<char>, Option<u64>>,
    notations: Map<u64, Seq<char>>,
)
    requires
        answers.len() == requests.len(),
        forall|k: int|
            0 <= k < requests.len() ==> survives(
                (#[trigger] requests[k]).0,
                requests[k].1,
                readings,
                notations,
            ),
    ensures
        exchanged(
            Exchange::Reading(RequestState::First),
            all_bytes(requests, notations),
            answers,
            readings,
            notations,
        ) == (
            all_bytes(
                Seq::new(requests.len(), |k: int| (answers[k], requests[k].1)),
                notations,
            ),
            Ok::<Exchange, ProtocolError>(Exchange::Over),
            Seq::<u8>::empty(),
        ),
    decreases requests.len(),
{
    let out = Seq::new(requests.len(), |k: int| (answers[k], requests[k].1));
    law_one_answer_each(all_bytes(requests, notations), answers, readings, notations);
    if requests.len() == 0 {
        law_no_request_at_the_end(readings);
    } else {
        let more = requests.skip(1);
        law_response_is_read_back(
            requests[0].0,
            requests[0].1,
            readings,
            notations,
            all_bytes(more, notations),
        );
        assert forall|k: int| 0 <= k < more.len() implies survives(
            (#[trigger] more[k]).0,
            more[k].1,
            readings,
            notations,
        ) by {
            assert(more[k] == requests[k + 1]);
        }
        law_requests_are_answered_in_turn(more, answers.skip(1), readings, notations);
        assert(out.skip(1) =~= Seq::new(more.len(), |k: int| (answers.skip(1)[k], more[k].1)));
        assert(out[0] == (answers[0], requests[0].1));
    }
}

/// A line ends behind the first newline, and else with the stream.
pub proof fn law_where_lines_end(line: Seq<u8>, behind: Seq<u8>)
    requires
        forall|k: int| 0 <= k < line.len() ==> (#[trigger] line[k]) != 0x0a,
    ensures
        line_len(line + seq![0x0au8] + behind) == line.len() + 1,
        line_len(line) == line.len(),
    decreases line.len(),
{
    lemma_line(line, behind);
    if line.len() > 0 {
        let less = line.skip(1);
        assert forall|k: int| 0 <= k < less.len() implies (#[trigger] less[k]) != 0x0a by {
            assert(less[k] == line[k + 1]);
        }
        law_where_lines_end(less, behind);
    }
}

/// A request that does not start with a zero is a line of JSON: its first byte and what
/// stands before the next newline, or else the rest of the stream, without white space
/// around it. What follows the newline is left.
pub proof fn law_lines_are_requests(
    line: Seq<u8>,
    behind: Seq<u8>,
    readings: Map<Seq<char>, Option<u64>>,
)
    requires
        line.len() > 0,
        line[0] != 0x00,
        forall|k: int| 1 <= k < line.len() ==> (#[trigger] line[k]) != 0x0a,
    ensures
        match text_value(trimmed(lossy(line + seq![0x0au8])), readings) {
            Ok(v) => request_read(RequestState::First, line + seq![0x0au8] + behind, readings)
                == Ok::<Option<(Datum, Framing, Seq<u8>)>, ProtocolError>(
                Some((v, Framing::Json, behind)),
            ),
            Err(e) => request_read(RequestState::First, line + seq![0x0au8] + behind, readings)
                == Err::<Option<(Datum, Framing, Seq<u8>)>, ProtocolError>(ProtocolError::Json(e)),
        },
        request_left(RequestState::First, line + seq![0x0au8] + behind, readings) == behind,
        match text_value(trimmed(lossy(line)), readings) {
            Ok(v) => request_read(RequestState::First, line, readings) == Ok::<
                Option<(Datum, Framing, Seq<u8>)>,
                ProtocolError,
            >(Some((v, Framing::Json, Seq::empty()))),
            Err(e) => request_read(RequestState::First, line, readings) == Err::<
                Option<(Datum, Framing, Seq<u8>)>,
                ProtocolError,
            >(ProtocolError::Json(e)),
        },
{
    let s = line + seq![0x0au8] + behind;
    let rest = line.skip(1);
    let tail = rest + seq![0x0au8];
    assert forall|k: int| 0 <= k < rest.len() implies (#[trigger] rest[k]) != 0x0a by {
        assert(rest[k] == line[k + 1]);
    }
    law_where_lines_end(rest, behind);
    assert(s.take(1) =~= seq![line[0]]);
    assert(s.skip(1) =~= rest + seq![0x0au8] + behind);
    assert(s.skip(1).take(tail.len() as int) =~= tail);
    assert(s.skip(1).skip(tail.len() as int) =~= behind);
    assert(seq![line[0]] + tail =~= line + seq![0x0au8]);
    lemma_read_first(s, line[0], readings);
    lemma_read_line(s.skip(1), line[0], readings);
    lemma_left_line(s, line[0], readings);
    assert(line.take(1) =~= seq![line[0]]);
    assert(rest.take(rest.len() as int) =~= rest);
    assert(rest.skip(rest.len() as int) =~= Seq::<u8>::empty());
    assert(seq![line[0]] + rest =~= line);
    lemma_read_first(line, line[0], readings);
    lemma_read_line(rest, line[0], readings);
}

/// A request that starts with a zero is a frame, if the second byte is that of a version's
/// mark: what is read of it, why it cannot be read, and what is left, are those of the
/// frame. Any other second byte is told, and so is a stream that ends before it.
pub proof fn law_frames_are_requests(s: Seq<u8>, readings: Map<Seq<char>, Option<u64>>)
    requires
        s.len() > 0,
        s[0] == 0x00,
    ensures
        s.len() == 1 ==> request_read(RequestState::First, s, readings) == Err::<
            Option<(Datum, Framing, Seq<u8>)>,
            ProtocolError,
        >(ProtocolError::Bser(BserError::UnexpectedEnd)),
        s.len() > 1 && s[1] != 0x01 && s[1] != 0x02 ==> request_read(
            RequestState::First,
            s,
            readings,
        ) == Err::<Option<(Datum, Framing, Seq<u8>)>, ProtocolError>(ProtocolError::BadMagic),
        s.len() > 1 && (s[1] == 0x01 || s[1] == 0x02) ==> match frame_read(PduState::Magic, s) {
            Ok((v, version, rest)) => request_read(RequestState::First, s, readings) == Ok::<
                Option<(Datum, Framing, Seq<u8>)>,
                ProtocolError,
            >(Some((v, Framing::Bser(version), rest))),
            Err(e) => request_read(RequestState::First, s, readings) == Err::<
                Option<(Datum, Framing, Seq<u8>)>,
                ProtocolError,
            >(ProtocolError::Bser(e)),
        },
{
    lemma_read_zero(s, readings);
    let tail = s.skip(1);
    if s.len() > 1 {
        assert(tail[0] == s[1]);
        lemma_mark(s);
        if s[1] == 0x01 || s[1] == 0x02 {
            let next = PduState::Magic.step(seq![0x00u8, s[1]])->Ok_0->More_0;
            lemma_read_magic(tail, next, readings);
            assert(tail.skip(1) =~= s.skip(2));
            lemma_frame_requests(next, s.skip(2), readings);
        } else {
            lemma_bad_mark(tail, readings);
        }
    }
}

/// The rest of a frame is read as the rest of a request.
proof fn lemma_frame_requests(
    state: PduState,
    s: Seq<u8>,
    readings: Map<Seq<char>, Option<u64>>,
)
    requires
        !(state is Magic),
    ensures
        match frame_read(state, s) {
            Ok((v, version, rest)) => request_read(RequestState::Frame(state), s, readings) == Ok::<
                Option<(Datum, Framing, Seq<u8>)>,
                ProtocolError,
            >(Some((v, Framing::Bser(version), rest))),
            Err(e) => request_read(RequestState::Frame(state), s, readings) == Err::<
                Option<(Datum, Framing, Seq<u8>)>,
                ProtocolError,
            >(ProtocolError::Bser(e)),
        },
    decreases state.behind(),
{
    if s.len() >= state.piece() {
        match state.step(s.take(state.piece() as int)) {
            Ok(FrameStep::More(next)) => {
                assert(next.behind() < state.behind());
                lemma_frame_requests(next, s.skip(state.piece() as int), readings);
            },
            _ => {},
        }
    }
}

/// A response in JSON is its text and a newline, and one in a binary framing is the frame
/// of that version; only the former can lack the notation of a double.
pub proof fn law_bytes_of_a_response(
    v: Datum,
    version: PduVersion,
    notations: Map<u64, Seq<char>>,
)
    ensures
        response_bytes(v, Framing::Json, notations) == encode_utf8(value_text(v, notations)).push(
            0x0au8,
        ),
        response_bytes(v, Framing::Bser(version), notations) == frame(v, version),
        response_missing(v, Framing::Bser(version), notations) is None,
        response_missing(v, Framing::Json, notations) == missing(v, notations),
{
    assert(encode_utf8(value_text(v, notations)) + seq![0x0au8] =~= encode_utf8(
        value_text(v, notations),
    ).push(0x0au8));
}

/// What is left once a line is read.
proof fn lemma_left_line(s: Seq<u8>, first: u8, readings: Map<Seq<char>, Option<u64>>)
    requires
        s.take(1) == seq![first],
        s.len() > 0,
        first != 0x00,
    ensures
        request_left(RequestState::First, s, readings) == s.skip(1).skip(
            line_len(s.skip(1)) as int,
        ),
{
    lemma_left_rest(s.skip(1), first, readings);
}

/// What is left once the rest of a line is read.
proof fn lemma_left_rest(s: Seq<u8>, first: u8, readings: Map<Seq<char>, Option<u64>>)
    ensures
        request_left(RequestState::Line(first), s, readings) == s.skip(line_len(s) as int),
{
}

/// How a frame goes on behind its first two bytes.
proof fn lemma_mark(s: Seq<u8>)
    requires
        s.len() > 1,
        s[0] == 0x00,
    ensures
        ({
            let step = PduState::Magic.step(seq![0x00u8, s[1]]);
            if s[1] == 0x01 || s[1] == 0x02 {
                &&& step is Ok
                &&& step->Ok_0 is More
                &&& !(step->Ok_0->More_0 is Magic)
                &&& step->Ok_0->More_0.behind() < 6
                &&& frame_read(PduState::Magic, s) == frame_read(step->Ok_0->More_0, s.skip(2))
            } else {
                step is Err
            }
        }),
{
    let mark = seq![0x00u8, s[1]];
    assert(s.take(2) =~= mark);
    assert(mark[1] == s[1]);
    assert(seq![0x00u8, 0x01][1] == 0x01 && seq![0x00u8, 0x02][1] == 0x02);
}

/// A second byte that is no mark is told.
proof fn lemma_bad_mark(s: Seq<u8>, readings: Map<Seq<char>, Option<u64>>)
    requires
        s.len() > 0,
        PduState::Magic.step(seq![0x00u8, s[0]]) is Err,
    ensures
        request_read(RequestState::Second, s, readings) == Err::<
            Option<(Datum, Framing, Seq<u8>)>,
            ProtocolError,
        >(ProtocolError::BadMagic),
{
    assert(s.take(1)[0] == s[0]);
}

/// What is said of a request that cannot be read is what is said of the frame or the line.
pub proof fn law_texts_of_errors(b: BserError, j: JsonError)
    ensures
        ProtocolError::BadMagic.text() == "protocol: bad bser magic"@,
        ProtocolError::Bser(b).text() == b.text(),
        ProtocolError::Json(j).text() == j.text(),
{
}

/// What is left of a stream once a request is read from it is what follows the request.
pub proof fn law_what_requests_leave(
    state: RequestState,
    s: Seq<u8>,
    readings: Map<Seq<char>, Option<u64>>,
)
    ensures
        match request_read(state, s, readings) {
            Ok(Some((_, _, rest))) => request_left(state, s, readings) == rest,
            _ => true,
        },
    decreases state.behind(),
{
    match next_len(state, s) {
        Some(n) => match state.step(s.take(n as int), readings) {
            Ok(Progress::More(next)) => {
                if next.behind() < state.behind() {
                    law_what_requests_leave(next, s.skip(n as int), readings);
                }
            },
            _ => {},
        },
        None => {},
    }
}

/// A request is answered in the framing that it came in, and then the next one is read;
/// while one is read nothing is answered, and at the end of the stream nothing is read.
pub proof fn law_turns(
    state: RequestState,
    v: Datum,
    framing: Framing,
    answer: Datum,
    notations: Map<u64, Seq<char>>,
)
    ensures
        turn_after(Progress::More(state)) == Exchange::Reading(state),
        turn_after(Progress::Done(v, framing)) == Exchange::Answering(framing),
        turn_after(Progress::End) == Exchange::Over,
        reply(Exchange::Answering(framing), answer, notations) == response_bytes(
            answer,
            framing,
            notations,
        ),
        reply_missing(Exchange::Answering(framing), answer, notations) == response_missing(
            answer,
            framing,
            notations,
        ),
        turn_after_reply() == Exchange::Reading(RequestState::First),
{
}

} // verus!
