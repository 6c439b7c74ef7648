//! Text helpers: comparison, decimal numbers, splitting and trimming, together
//! with the few standard-library conversions that are taken on trust.

use vstd::prelude::*;
use vstd::utf8::*;

verus! {

/// `String::push` appends one character.
pub assume_specification[ String::push ](s: &mut String, c: char)
    ensures
        final(s)@ == old(s)@.push(c),
;

/// `char::from_u32` gives the character with the given scalar value, and `None`
/// for surrogates and for numbers beyond `0x10FFFF`.
pub assume_specification[ char::from_u32 ](i: u32) -> (r: Option<char>)
    ensures
        r == (if is_scalar(i) { Some(i as char) } else { None }),
;

/// The text that `String::from_utf8_lossy` makes of bytes that are not UTF-8.
pub uninterp spec fn utf8_repaired(bytes: Seq<u8>) -> Seq<char>;

/// The text of some bytes: what they encode where they are UTF-8, and otherwise
/// what is left after the invalid sequences are replaced.
pub open spec fn lossy(bytes: Seq<u8>) -> Seq<char> {
    if valid_utf8(bytes) {
        decode_utf8(bytes)
    } else {
        utf8_repaired(bytes)
    }
}

/// Calls `String::from_utf8_lossy`: valid UTF-8 is decoded as it stands, and of
/// any other bytes only that the text depends on nothing but the bytes is claimed.
#[verifier::external_body]
pub(crate) fn from_utf8_lossy(bytes: &[u8]) -> (r: String)
    ensures
        r@ == (if valid_utf8(bytes@) {
            decode_utf8(bytes@)
        } else {
            utf8_repaired(bytes@)
        }),
{
    String::from_utf8_lossy(bytes).into_owned()
}

/// An ASCII letter in lower case; any other character as it is.
pub open spec fn ascii_lower(c: char) -> char {
    if 'A' <= c <= 'Z' {
        ((c as u32) + 32) as char
    } else {
        c
    }
}

/// What `str::to_lowercase` makes of text that is not ASCII.
pub uninterp spec fn unicode_lowercase(s: Seq<char>) -> Seq<char>;

/// A text in lower case.
pub open spec fn lowercase(s: Seq<char>) -> Seq<char> {
    if is_ascii_chars(s) {
        s.map_values(|c: char| ascii_lower(c))
    } else {
        unicode_lowercase(s)
    }
}

/// Calls `str::to_lowercase`: ASCII text has its letters lowered one by one, and
/// of other text only that the result depends on nothing but the text is claimed.
#[verifier::external_body]
pub(crate) fn to_lowercase(s: &str) -> (r: String)
    ensures
        r@ == (if is_ascii_chars(s@) {
            s@.map_values(|c: char| ascii_lower(c))
        } else {
            unicode_lowercase(s@)
        }),
{
    s.to_lowercase()
}

/// Whether a row of elements stands at a position of another.
#[verifier::opaque]
pub open spec fn stands<T>(s: Seq<T>, i: int, part: Seq<T>) -> bool {
    0 <= i && i + part.len() <= s.len() && s.subrange(i, i + part.len()) == part
}

/// Where two rows stand one behind the other, each stands at its place.
pub proof fn lemma_stands_parts<T>(s: Seq<T>, i: int, a: Seq<T>, b: Seq<T>)
    requires
        stands(s, i, a + b),
    ensures
        stands(s, i, a),
        stands(s, i + a.len(), b),
{
    reveal(stands);
    let whole = s.subrange(i, i + (a + b).len());
    assert(s.subrange(i, i + a.len()) =~= whole.take(a.len() as int));
    assert((a + b).take(a.len() as int) =~= a);
    assert(s.subrange(i + a.len(), i + a.len() + b.len()) =~= whole.skip(a.len() as int));
    assert((a + b).skip(a.len() as int) =~= b);
}

/// What stands at a position.
pub proof fn lemma_stands_elements<T>(s: Seq<T>, i: int, part: Seq<T>)
    requires
        stands(s, i, part),
    ensures
        0 <= i,
        i + part.len() <= s.len(),
        s.subrange(i, i + part.len()) == part,
        forall|k: int| 0 <= k < part.len() ==> s[i + k] == #[trigger] part[k],
{
    reveal(stands);
    assert forall|k: int| 0 <= k < part.len() implies s[i + k] == #[trigger] part[k] by {
        assert(s.subrange(i, i + part.len())[k] == s[i + k]);
    }
}

/// Text with the same encoding is the same text.
pub proof fn lemma_utf8_injective(a: Seq<char>, b: Seq<char>)
    requires
        encode_utf8(a) == encode_utf8(b),
    ensures
        a == b,
{
    encode_utf8_decode_utf8(a);
    encode_utf8_decode_utf8(b);
}

/// The encoding of a text that was extended is that of the text, extended.
pub proof fn lemma_utf8_concat(a: Seq<char>, b: Seq<char>)
    ensures
        encode_utf8(a + b) == encode_utf8(a) + encode_utf8(b),
    decreases a.len(),
{
    if a.len() == 0 {
        assert(a + b =~= b);
        assert(encode_utf8(a) + encode_utf8(b) =~= encode_utf8(b));
    } else {
        assert((a + b).drop_first() =~= a.drop_first() + b);
        lemma_utf8_concat(a.drop_first(), b);
        assert(encode_utf8(a + b) =~= encode_utf8(a) + encode_utf8(b));
    }
}

/// Only a newline is encoded with the byte of a newline.
proof fn lemma_scalar_newline(c: char)
    requires
        c != '\n',
    ensures
        forall|k: int|
            0 <= k < encode_scalar(c as u32).len() ==> (#[trigger] encode_scalar(c as u32)[k])
                != 0x0a,
{
    let v: u32 = c as u32;
    assert(v != 0x0a);
    assert(v <= 0x7f && v != 0x0a ==> (v & 0x7F) as u8 != 0x0a) by (bit_vector);
    assert(0xC0u8 | ((v >> 6) & 0x1F) as u8 >= 0x80) by (bit_vector);
    assert(0xE0u8 | ((v >> 12) & 0x0F) as u8 >= 0x80) by (bit_vector);
    assert(0xF0u8 | ((v >> 18) & 0x7) as u8 >= 0x80) by (bit_vector);
    assert(0x80u8 | (v & 0x3F) as u8 >= 0x80) by (bit_vector);
    assert(0x80u8 | ((v >> 6) & 0x3F) as u8 >= 0x80) by (bit_vector);
    assert(0x80u8 | ((v >> 12) & 0x3F) as u8 >= 0x80) by (bit_vector);
}

/// The encoding of a text without newlines has none either.
pub proof fn lemma_utf8_no_newline(s: Seq<char>)
    requires
        forall|k: int| 0 <= k < s.len() ==> (#[trigger] s[k]) != '\n',
    ensures
        forall|k: int| 0 <= k < encode_utf8(s).len() ==> (#[trigger] encode_utf8(s)[k]) != 0x0a,
    decreases s.len(),
{
    if s.len() > 0 {
        let first = encode_scalar(s[0] as u32);
        let rest = encode_utf8(s.drop_first());
        lemma_scalar_newline(s[0]);
        lemma_utf8_no_newline(s.drop_first());
        assert(encode_utf8(s) == first + rest);
        assert forall|k: int| 0 <= k < encode_utf8(s).len() implies (#[trigger] encode_utf8(s)[k])
            != 0x0a by {
            if k < first.len() {
                assert(encode_utf8(s)[k] == first[k]);
            } else {
                assert(encode_utf8(s)[k] == rest[k - first.len()]);
            }
        }
    }
}

/// Whether two byte strings are the same.
pub fn bytes_eq(a: &[u8], b: &[u8]) -> (r: bool)
    ensures
        r == (a@ == b@),
{
    if a.len() != b.len() {
        return false;
    }
    let mut i: usize = 0;
    while i < a.len()
        invariant
            a.len() == b.len(),
            i <= a.len(),
            forall|k: int| 0 <= k < i ==> a@[k] == b@[k],
        decreases a.len() - i,
    {
        if a[i] != b[i] {
            return false;
        }
        i += 1;
    }
    assert(a@ == b@);
    true
}

/// Whether two strings are the same.
pub fn str_eq(a: &str, b: &str) -> (r: bool)
    ensures
        r == (a@ == b@),
{
    let r = bytes_eq(a.as_bytes(), b.as_bytes());
    proof {
        if r {
            lemma_utf8_injective(a@, b@);
        }
    }
    r
}

/// What an optional string stands for.
pub open spec fn optional_text(s: Option<String>) -> Option<Seq<char>> {
    match s {
        Some(s) => Some(s@),
        None => None,
    }
}

/// What a row of strings stands for.
pub open spec fn texts(v: Seq<String>) -> Seq<Seq<char>> {
    v.map_values(|s: String| s@)
}

/// A row of strings that was extended by one.
pub proof fn lemma_texts_push(v: Seq<String>, s: String)
    ensures
        texts(v.push(s)) == texts(v).push(s@),
{
    assert(texts(v.push(s)) =~= texts(v).push(s@));
}

/// Copies a row of strings.
pub fn copy_strings(v: &[String]) -> (r: Vec<String>)
    ensures
        texts(r@) == texts(v@),
{
    let mut out: Vec<String> = Vec::new();
    let mut i: usize = 0;
    while i < v.len()
        invariant
            i <= v@.len(),
            out@.len() == i,
            forall|k: int| 0 <= k < i ==> (#[trigger] out@[k])@ == v@[k]@,
        decreases v@.len() - i,
    {
        out.push(v[i].clone());
        i += 1;
    }
    assert(texts(out@) =~= texts(v@));
    out
}

/// Whether a string is one of a row.
pub fn contains_str(v: &[String], s: &str) -> (r: bool)
    ensures
        r == texts(v@).contains(s@),
{
    let mut i: usize = 0;
    while i < v.len()
        invariant
            i <= v@.len(),
            forall|k: int| 0 <= k < i ==> (#[trigger] v@[k])@ != s@,
        decreases v@.len() - i,
    {
        if str_eq(v[i].as_str(), s) {
            assert(texts(v@)[i as int] == s@);
            return true;
        }
        i += 1;
    }
    assert forall|k: int| 0 <= k < texts(v@).len() implies texts(v@)[k] != s@ by {
        assert(texts(v@)[k] == v@[k]@);
    }
    false
}

/// The characters of a string.
pub fn chars_of(s: &str) -> (r: Vec<char>)
    ensures
        r@ == s@,
{
    let mut out: Vec<char> = Vec::new();
    for c in it: s.chars()
        invariant
            out@ == it.seq().take(it.index()),
            it.seq() == s@,
    {
        out.push(c);
    }
    out
}

/// Whether a text starts with another one.
pub fn starts_with_chars(s: &[char], front: &str) -> (r: bool)
    ensures
        r == front@.is_prefix_of(s@),
{
    let f = chars_of(front);
    if f.len() > s.len() {
        return false;
    }
    let mut i: usize = 0;
    while i < f.len()
        invariant
            i <= f@.len() <= s@.len(),
            f@ == front@,
            forall|k: int| 0 <= k < i ==> f@[k] == s@[k],
        decreases f@.len() - i,
    {
        if f[i] != s[i] {
            assert(s@.take(f@.len() as int)[i as int] != f@[i as int]);
            return false;
        }
        i += 1;
    }
    assert(f@ =~= s@.take(f@.len() as int));
    true
}

/// The string made of some characters.
pub fn string_of(cs: &[char]) -> (r: String)
    ensures
        r@ == cs@,
{
    let mut out = String::new();
    let mut i: usize = 0;
    while i < cs.len()
        invariant
            i <= cs.len(),
            out@ == cs@.take(i as int),
        decreases cs.len() - i,
    {
        out.push(cs[i]);
        i += 1;
        assert(cs@.take(i as int) == cs@.take(i - 1).push(cs@[i - 1]));
    }
    assert(cs@.take(i as int) == cs@);
    out
}

/// The UTF-8 encoding of one character.
pub open spec fn char_bytes(c: char) -> Seq<u8> {
    encode_utf8(seq![c])
}

/// A character takes one to four bytes.
pub proof fn lemma_char_bytes(c: char)
    ensures
        1 <= char_bytes(c).len() <= 4,
        encode_utf8(seq![c]) == encode_scalar(c as u32),
{
    assert(seq![c].drop_first() =~= Seq::<char>::empty());
    assert(encode_utf8(Seq::<char>::empty()) =~= Seq::<u8>::empty());
    assert(encode_utf8(seq![c]) =~= encode_scalar(c as u32));
}

/// The first byte of a character's encoding, and how many bytes it has.
pub fn lead_and_width(c: char) -> (r: (u8, usize))
    ensures
        r.0 == char_bytes(c)[0],
        r.1 == char_bytes(c).len(),
        1 <= r.1 <= 4,
{
    let mut s = String::new();
    s.push(c);
    assert(s@ =~= seq![c]);
    proof {
        lemma_char_bytes(c);
    }
    let b = s.as_str().as_bytes();
    (b[0], b.len())
}

/// Whether a character is one of the ten ASCII digits.
pub open spec fn is_digit(c: char) -> bool {
    '0' <= c <= '9'
}

/// The number that a digit stands for.
pub open spec fn digit_value(c: char) -> nat {
    (c as u32 - 48) as nat
}

/// The digit that stands for a number below ten.
pub open spec fn digit_char(d: nat) -> char {
    (48 + d) as char
}

/// A natural number in decimal notation, without leading zeros.
pub open spec fn digits(n: nat) -> Seq<char>
    decreases n,
{
    if n < 10 {
        seq![digit_char(n)]
    } else {
        digits(n / 10).push(digit_char(n % 10))
    }
}

/// An integer in decimal notation.
pub open spec fn decimal(i: int) -> Seq<char> {
    if i < 0 {
        seq!['-'] + digits((-i) as nat)
    } else {
        digits(i as nat)
    }
}

/// The number that a row of digits denotes.
pub open spec fn digits_value(s: Seq<char>) -> nat
    decreases s.len(),
{
    if s.len() == 0 {
        0
    } else {
        digits_value(s.drop_last()) * 10 + digit_value(s.last())
    }
}

/// Whether every character is a digit.
pub open spec fn all_digits(s: Seq<char>) -> bool {
    forall|k: int| 0 <= k < s.len() ==> is_digit(#[trigger] s[k])
}

/// Reading a number's decimal notation gives the number back.
pub proof fn lemma_digits(n: nat)
    ensures
        digits(n).len() > 0,
        all_digits(digits(n)),
        digits_value(digits(n)) == n,
    decreases n,
{
    reveal_with_fuel(digits_value, 2);
    if n >= 10 {
        lemma_digits(n / 10);
        assert(digits(n).drop_last() == digits(n / 10));
    } else {
        assert(digits(n).drop_last() == Seq::<char>::empty());
    }
}

/// Appends a natural number in decimal notation.
pub fn push_digits(out: &mut String, n: u128)
    ensures
        final(out)@ == old(out)@ + digits(n as nat),
    decreases n,
{
    if n >= 10 {
        push_digits(out, n / 10);
    }
    let d: u8 = (n % 10) as u8;
    out.push((48u8 + d) as char);
    assert(out@ =~= old(out)@ + digits(n as nat));
}

/// Appends an integer in decimal notation.
pub fn push_decimal(out: &mut String, i: i64)
    ensures
        final(out)@ == old(out)@ + decimal(i as int),
{
    if i < 0 {
        out.push('-');
        let magnitude: u64 = ((-(i + 1)) as u64) + 1;
        push_digits(out, magnitude as u128);
    } else {
        push_digits(out, i as u128);
    }
    assert(out@ =~= old(out)@ + decimal(i as int));
}

/// The lower-case hexadecimal digit that stands for a number below sixteen.
pub open spec fn hex_char(d: nat) -> char {
    if d < 10 {
        (48 + d) as char
    } else {
        (87 + d) as char
    }
}

/// The hexadecimal digit of a number below sixteen.
pub fn hex_digit(d: u8) -> (r: char)
    requires
        d < 16,
    ensures
        r == hex_char(d as nat),
{
    if d < 10 {
        (48u8 + d) as char
    } else {
        (87u8 + d) as char
    }
}

/// A byte in hexadecimal notation, without leading zeros.
pub open spec fn hex(b: u8) -> Seq<char> {
    if b < 16 {
        seq![hex_char(b as nat)]
    } else {
        seq![hex_char(b as nat / 16), hex_char(b as nat % 16)]
    }
}

/// Appends a byte in hexadecimal notation.
pub fn push_hex(out: &mut String, b: u8)
    ensures
        final(out)@ == old(out)@ + hex(b),
{
    if b >= 16 {
        out.push(hex_digit(b / 16));
    }
    out.push(hex_digit(b % 16));
    assert(out@ =~= old(out)@ + hex(b));
}

/// What a row of characters is as a natural number.
pub enum Digits {
    /// Not a row of at least one digit.
    Malformed,
    /// A number above `u64::MAX`.
    TooLarge,
    /// A number that fits.
    Fits(u64),
}

/// The meaning of `Digits` for a row of characters.
pub open spec fn digits_read(s: Seq<char>) -> Digits {
    if s.len() == 0 || !all_digits(s) {
        Digits::Malformed
    } else if digits_value(s) > u64::MAX {
        Digits::TooLarge
    } else {
        Digits::Fits(digits_value(s) as u64)
    }
}

/// Reads a row of digits.
pub fn read_digits(s: &[char]) -> (r: Digits)
    ensures
        r == digits_read(s@),
{
    if s.len() == 0 {
        return Digits::Malformed;
    }
    let mut i: usize = 0;
    let mut value: u64 = 0;
    let mut fits = true;
    while i < s.len()
        invariant
            i <= s.len(),
            forall|k: int| 0 <= k < i ==> is_digit(#[trigger] s@[k]),
            fits ==> value == digits_value(s@.take(i as int)),
            !fits ==> digits_value(s@.take(i as int)) > u64::MAX,
        decreases s.len() - i,
    {
        let c = s[i];
        if !('0' <= c && c <= '9') {
            assert(!is_digit(s@[i as int]));
            return Digits::Malformed;
        }
        assert(s@.take(i + 1).drop_last() == s@.take(i as int));
        let d: u64 = (c as u32 - 48) as u64;
        if fits {
            if value <= (u64::MAX - d) / 10 {
                value = value * 10 + d;
            } else {
                fits = false;
            }
        }
        i += 1;
    }
    assert(s@.take(i as int) == s@);
    if fits {
        Digits::Fits(value)
    } else {
        Digits::TooLarge
    }
}

/// What a text denotes as an unsigned number: digits, after at most one plus sign.
pub open spec fn unsigned_read(s: Seq<char>) -> Option<u64> {
    let body = if s.len() > 0 && s[0] == '+' {
        s.skip(1)
    } else {
        s
    };
    match digits_read(body) {
        Digits::Fits(n) => Some(n),
        _ => None,
    }
}

/// Reads an unsigned number, as `str::parse::<u64>` does.
pub fn read_unsigned(s: &[char]) -> (r: Option<u64>)
    ensures
        r == unsigned_read(s@),
{
    let start: usize = if s.len() > 0 && s[0] == '+' {
        1
    } else {
        0
    };
    let body = vstd::slice::slice_subrange(s, start, s.len());
    assert(body@ == s@.skip(start as int));
    assert(s@.skip(0) == s@);
    match read_digits(body) {
        Digits::Fits(n) => Some(n),
        _ => None,
    }
}

/// Why a text is no `i64`.
#[derive(Debug, Clone, Copy, PartialEq, Eq, Structural)]
pub enum IntegerFault {
    InvalidDigit,
    TooLarge,
    TooSmall,
}

/// What a text denotes as a signed number: digits, after at most one minus sign.
pub open spec fn signed_read(s: Seq<char>) -> Result<i64, IntegerFault> {
    if s.len() > 0 && s[0] == '-' {
        let body = s.skip(1);
        if body.len() == 0 || !all_digits(body) {
            Err(IntegerFault::InvalidDigit)
        } else if -digits_value(body) < i64::MIN {
            Err(IntegerFault::TooSmall)
        } else {
            Ok((-digits_value(body)) as i64)
        }
    } else if s.len() == 0 || !all_digits(s) {
        Err(IntegerFault::InvalidDigit)
    } else if digits_value(s) > i64::MAX {
        Err(IntegerFault::TooLarge)
    } else {
        Ok(digits_value(s) as i64)
    }
}

/// Reads a signed number.
pub fn read_signed(s: &[char]) -> (r: Result<i64, IntegerFault>)
    ensures
        r == signed_read(s@),
{
    if s.len() > 0 && s[0] == '-' {
        let body = vstd::slice::slice_subrange(s, 1, s.len());
        assert(body@ == s@.skip(1));
        match read_digits(body) {
            Digits::Malformed => Err(IntegerFault::InvalidDigit),
            Digits::TooLarge => Err(IntegerFault::TooSmall),
            Digits::Fits(n) => {
                if n <= 0x7fff_ffff_ffff_ffff {
                    Ok(-(n as i64))
                } else if n == 0x8000_0000_0000_0000 {
                    Ok(i64::MIN)
                } else {
                    Err(IntegerFault::TooSmall)
                }
            },
        }
    } else {
        match read_digits(s) {
            Digits::Malformed => Err(IntegerFault::InvalidDigit),
            Digits::TooLarge => Err(IntegerFault::TooLarge),
            Digits::Fits(n) => {
                if n <= 0x7fff_ffff_ffff_ffff {
                    Ok(n as i64)
                } else {
                    Err(IntegerFault::TooLarge)
                }
            },
        }
    }
}

/// Reading an integer's decimal notation gives the integer back.
pub proof fn lemma_signed_read(i: i64)
    ensures
        signed_read(decimal(i as int)) == Ok::<i64, IntegerFault>(i),
{
    if i < 0 {
        lemma_digits((-i) as nat);
        assert(decimal(i as int).skip(1) == digits((-i) as nat));
    } else {
        lemma_digits(i as nat);
        assert(is_digit(digits(i as nat)[0]));
    }
}

/// Reading an unsigned number's decimal notation gives the number back.
pub proof fn lemma_unsigned_read(n: u64)
    ensures
        unsigned_read(digits(n as nat)) == Some(n),
{
    lemma_digits(n as nat);
    assert(is_digit(digits(n as nat)[0]));
}

/// What follows the last occurrence of a separator; the whole text where it does not occur.
pub open spec fn after_last(s: Seq<char>, sep: char) -> Seq<char>
    decreases s.len(),
{
    if s.len() == 0 || s.last() == sep {
        Seq::empty()
    } else {
        after_last(s.drop_last(), sep).push(s.last())
    }
}

/// Finds what follows the last occurrence of a separator.
pub fn tail_after(s: &[char], sep: char) -> (r: Vec<char>)
    ensures
        r@ == after_last(s@, sep),
{
    let mut start: usize = s.len();
    assert(s@.subrange(start as int, s@.len() as int) == Seq::<char>::empty());
    assert(s@.take(start as int) == s@);
    while start > 0 && s[start - 1] != sep
        invariant
            start <= s.len(),
            after_last(s@, sep) == after_last(s@.take(start as int), sep) + s@.subrange(start as int, s@.len() as int),
        decreases start,
    {
        assert(s@.take(start as int).drop_last() == s@.take(start - 1));
        assert(s@.subrange(start - 1, s@.len() as int) == seq![s@[start - 1]] + s@.subrange(start as int, s@.len() as int));
        assert(after_last(s@.take(start as int), sep) + s@.subrange(start as int, s@.len() as int)
            == after_last(s@.take(start - 1), sep) + s@.subrange(start - 1, s@.len() as int));
        start = start - 1;
    }
    assert(after_last(s@.take(start as int), sep) == Seq::<char>::empty());
    assert(after_last(s@, sep) == s@.subrange(start as int, s@.len() as int));
    vstd::slice::slice_to_vec(vstd::slice::slice_subrange(s, start, s.len()))
}

/// The parts of a text between the occurrences of a separator.
pub open spec fn split(s: Seq<char>, sep: char) -> Seq<Seq<char>>
    decreases s.len(),
{
    if s.len() == 0 {
        seq![Seq::empty()]
    } else if s.last() == sep {
        split(s.drop_last(), sep).push(Seq::empty())
    } else {
        let front = split(s.drop_last(), sep);
        front.update(front.len() - 1, front.last().push(s.last()))
    }
}

/// Splitting gives at least one part.
pub proof fn lemma_split_some(s: Seq<char>, sep: char)
    ensures
        split(s, sep).len() > 0,
    decreases s.len(),
{
    if s.len() > 0 {
        lemma_split_some(s.drop_last(), sep);
    }
}

/// The characters of each part.
pub open spec fn parts(v: Seq<Vec<char>>) -> Seq<Seq<char>> {
    v.map_values(|p: Vec<char>| p@)
}

/// Splits a text at every occurrence of a separator.
pub fn split_at_each(s: &[char], sep: char) -> (r: Vec<Vec<char>>)
    ensures
        parts(r@) == split(s@, sep),
{
    let mut out: Vec<Vec<char>> = Vec::new();
    let mut current: Vec<char> = Vec::new();
    let mut i: usize = 0;
    assert(s@.take(0) == Seq::<char>::empty());
    assert(parts(out@).push(current@) =~= split(s@.take(0), sep));
    while i < s.len()
        invariant
            i <= s.len(),
            parts(out@).push(current@) == split(s@.take(i as int), sep),
        decreases s.len() - i,
    {
        let ghost before = split(s@.take(i as int), sep);
        let ghost heads = parts(out@);
        assert(s@.take(i + 1).drop_last() == s@.take(i as int));
        if s[i] == sep {
            out.push(current);
            current = Vec::new();
            assert(parts(out@) =~= before);
        } else {
            current.push(s[i]);
            assert(parts(out@) == heads);
            assert(before.update(before.len() - 1, before.last().push(s@[i as int])) =~= heads.push(current@));
        }
        i += 1;
    }
    assert(s@.take(i as int) == s@);
    let ghost heads = parts(out@);
    let ghost last = current@;
    out.push(current);
    assert(parts(out@) =~= heads.push(last));
    out
}

/// Unicode white space.
pub open spec fn is_white_space(c: char) -> bool {
    let n = c as u32;
    ||| 0x9 <= n <= 0xd
    ||| n == 0x20
    ||| n == 0x85
    ||| n == 0xa0
    ||| n == 0x1680
    ||| 0x2000 <= n <= 0x200a
    ||| n == 0x2028
    ||| n == 0x2029
    ||| n == 0x202f
    ||| n == 0x205f
    ||| n == 0x3000
}

/// Whether a character is white space.
pub fn white_space(c: char) -> (r: bool)
    ensures
        r == is_white_space(c),
{
    let n: u32 = c as u32;
    (0x9 <= n && n <= 0xd) || n == 0x20 || n == 0x85 || n == 0xa0 || n == 0x1680 || (0x2000 <= n && n
        <= 0x200a) || n == 0x2028 || n == 0x2029 || n == 0x202f || n == 0x205f || n == 0x3000
}

/// A text without the characters at its front that a predicate holds of.
pub open spec fn without_front(s: Seq<char>, drop: spec_fn(char) -> bool) -> Seq<char>
    decreases s.len(),
{
    if s.len() > 0 && drop(s[0]) {
        without_front(s.skip(1), drop)
    } else {
        s
    }
}

/// A text without the characters at its back that a predicate holds of.
pub open spec fn without_back(s: Seq<char>, drop: spec_fn(char) -> bool) -> Seq<char>
    decreases s.len(),
{
    if s.len() > 0 && drop(s.last()) {
        without_back(s.drop_last(), drop)
    } else {
        s
    }
}

/// A text without white space at either end.
pub open spec fn trimmed(s: Seq<char>) -> Seq<char> {
    without_back(without_front(s, |c: char| is_white_space(c)), |c: char| is_white_space(c))
}

/// Removes white space at either end, as `str::trim` does.
pub fn trim(s: &[char]) -> (r: Vec<char>)
    ensures
        r@ == trimmed(s@),
{
    let ghost drop = |c: char| is_white_space(c);
    let mut i: usize = 0;
    assert(s@.skip(0) == s@);
    while i < s.len() && white_space(s[i])
        invariant
            i <= s.len(),
            drop == (|c: char| is_white_space(c)),
            without_front(s@, drop) == without_front(s@.skip(i as int), drop),
        decreases s.len() - i,
    {
        assert(s@.skip(i as int).skip(1) == s@.skip(i + 1));
        i += 1;
    }
    let ghost front = s@.skip(i as int);
    let mut j: usize = s.len();
    assert(s@.subrange(i as int, j as int) == front);
    while j > i && white_space(s[j - 1])
        invariant
            i <= j <= s.len(),
            drop == (|c: char| is_white_space(c)),
            without_back(front, drop) == without_back(s@.subrange(i as int, j as int), drop),
        decreases j,
    {
        assert(s@.subrange(i as int, j as int).drop_last() == s@.subrange(i as int, j - 1));
        j -= 1;
    }
    vstd::slice::slice_to_vec(vstd::slice::slice_subrange(s, i, j))
}

/// A text without slashes at either end.
pub open spec fn without_slashes(s: Seq<char>) -> Seq<char> {
    without_back(without_front(s, |c: char| c == '/'), |c: char| c == '/')
}

/// Removes slashes at either end.
pub fn trim_slashes(s: &[char]) -> (r: Vec<char>)
    ensures
        r@ == without_slashes(s@),
{
    let ghost drop = |c: char| c == '/';
    let mut i: usize = 0;
    assert(s@.skip(0) == s@);
    while i < s.len() && s[i] == '/'
        invariant
            i <= s.len(),
            drop == (|c: char| c == '/'),
            without_front(s@, drop) == without_front(s@.skip(i as int), drop),
        decreases s.len() - i,
    {
        assert(s@.skip(i as int).skip(1) == s@.skip(i + 1));
        i += 1;
    }
    let ghost front = s@.skip(i as int);
    let mut j: usize = s.len();
    assert(s@.subrange(i as int, j as int) == front);
    while j > i && s[j - 1] == '/'
        invariant
            i <= j <= s.len(),
            drop == (|c: char| c == '/'),
            without_back(front, drop) == without_back(s@.subrange(i as int, j as int), drop),
        decreases j,
    {
        assert(s@.subrange(i as int, j as int).drop_last() == s@.subrange(i as int, j - 1));
        j -= 1;
    }
    vstd::slice::slice_to_vec(vstd::slice::slice_subrange(s, i, j))
}

/// What follows the last separator of a text is what stands behind it; of a text
/// without one, it is the text.
pub proof fn law_after_last(front: Seq<char>, last: Seq<char>, sep: char)
    requires
        forall|k: int| 0 <= k < last.len() ==> (#[trigger] last[k]) != sep,
    ensures
        after_last(last, sep) == last,
        after_last(front + seq![sep] + last, sep) == last,
    decreases last.len(),
{
    let s = front + seq![sep] + last;
    if last.len() == 0 {
        assert(s.last() == sep);
        assert(last =~= Seq::<char>::empty());
    } else {
        let less = last.drop_last();
        law_after_last(front, less, sep);
        assert(s.drop_last() =~= front + seq![sep] + less);
        assert(less.push(last.last()) =~= last);
        assert(last[last.len() - 1] != sep);
    }
}

/// A text without slashes at either end is what is left once any number of them is put
/// there and taken away again; slashes within stay.
pub proof fn law_slashes_are_trimmed(a: nat, s: Seq<char>, b: nat)
    requires
        s.len() > 0 ==> s[0] != '/' && s.last() != '/',
    ensures
        without_slashes(row_of('/', a) + s + row_of('/', b)) == s,
{
    let drop = |c: char| c == '/';
    let back = row_of('/', b);
    lemma_front_dropped('/', a, s + back, drop);
    assert(row_of('/', a) + s + back =~= row_of('/', a) + (s + back));
    if s.len() == 0 {
        assert(s + back =~= back + Seq::<char>::empty());
        lemma_front_dropped('/', b, Seq::empty(), drop);
        assert(s =~= Seq::<char>::empty());
    } else {
        assert((s + back)[0] == s[0]);
        lemma_back_dropped('/', s, b, drop);
    }
}

/// A text whose ends are no white space is what is left once white space is put around
/// it and taken away again; of white space alone nothing is left.
pub proof fn law_white_space_is_trimmed(front: Seq<char>, s: Seq<char>, back: Seq<char>)
    requires
        forall|k: int| 0 <= k < front.len() ==> is_white_space(#[trigger] front[k]),
        forall|k: int| 0 <= k < back.len() ==> is_white_space(#[trigger] back[k]),
        s.len() > 0,
        !is_white_space(s[0]),
        !is_white_space(s.last()),
    ensures
        trimmed(front + s + back) == s,
        trimmed(front) == Seq::<char>::empty(),
{
    let drop = |c: char| is_white_space(c);
    assert(front + s + back =~= front + (s + back));
    lemma_all_front_dropped(front, s + back, drop);
    assert((s + back)[0] == s[0]);
    assert(without_front(s + back, drop) == s + back);
    lemma_all_back_dropped(s, back, drop);
    assert(without_back(s, drop) == s);
    lemma_all_front_dropped(front, Seq::empty(), drop);
    assert(front + Seq::<char>::empty() =~= front);
}

/// So many of one character.
pub open spec fn row_of(c: char, n: nat) -> Seq<char> {
    Seq::new(n, |k: int| c)
}

proof fn lemma_front_dropped(c: char, n: nat, s: Seq<char>, drop: spec_fn(char) -> bool)
    requires
        drop(c),
    ensures
        without_front(row_of(c, n) + s, drop) == without_front(s, drop),
{
    assert forall|k: int| 0 <= k < n implies drop(#[trigger] row_of(c, n)[k]) by {}
    lemma_all_front_dropped(row_of(c, n), s, drop);
}

proof fn lemma_back_dropped(c: char, s: Seq<char>, n: nat, drop: spec_fn(char) -> bool)
    requires
        drop(c),
    ensures
        without_back(s + row_of(c, n), drop) == without_back(s, drop),
{
    assert forall|k: int| 0 <= k < n implies drop(#[trigger] row_of(c, n)[k]) by {}
    lemma_all_back_dropped(s, row_of(c, n), drop);
}

/// What is dropped at the front does not matter.
proof fn lemma_all_front_dropped(front: Seq<char>, s: Seq<char>, drop: spec_fn(char) -> bool)
    requires
        forall|k: int| 0 <= k < front.len() ==> drop(#[trigger] front[k]),
    ensures
        without_front(front + s, drop) == without_front(s, drop),
    decreases front.len(),
{
    if front.len() == 0 {
        assert(front + s =~= s);
    } else {
        let less = front.skip(1);
        assert forall|k: int| 0 <= k < less.len() implies drop(#[trigger] less[k]) by {
            assert(less[k] == front[k + 1]);
        }
        assert((front + s).skip(1) =~= less + s);
        assert((front + s)[0] == front[0]);
        lemma_all_front_dropped(less, s, drop);
    }
}

/// What is dropped at the back does not matter.
proof fn lemma_all_back_dropped(s: Seq<char>, back: Seq<char>, drop: spec_fn(char) -> bool)
    requires
        forall|k: int| 0 <= k < back.len() ==> drop(#[trigger] back[k]),
    ensures
        without_back(s + back, drop) == without_back(s, drop),
    decreases back.len(),
{
    if back.len() == 0 {
        assert(s + back =~= s);
    } else {
        let less = back.drop_last();
        assert forall|k: int| 0 <= k < less.len() implies drop(#[trigger] less[k]) by {
            assert(less[k] == back[k]);
        }
        assert((s + back).drop_last() =~= s + less);
        assert((s + back).last() == back[back.len() - 1]);
        lemma_all_back_dropped(s, less, drop);
    }
}

/// White space is what Unicode counts as such.
pub proof fn law_white_space(c: char)
    ensures
        is_white_space(c) <==> c == ' ' || '\t' <= c <= '\r' || c == '\u{85}' || c == '\u{a0}' || c
            == '\u{1680}' || '\u{2000}' <= c <= '\u{200a}' || c == '\u{2028}' || c == '\u{2029}'
            || c == '\u{202f}' || c == '\u{205f}' || c == '\u{3000}',
{
}

/// A number is written with ten more digits for each power of ten: the last digit is
/// the remainder by ten, and what stands before it is the rest of the number. A number
/// below ten is one digit.
pub proof fn law_digits(n: nat, d: nat)
    requires
        d < 10,
    ensures
        digits(d).len() == 1,
        digits(d)[0] as u32 == 48 + d,
        n > 0 ==> digits(10 * n + d) == digits(n) + digits(d),
{
    if n > 0 {
        assert((10 * n + d) / 10 == n && (10 * n + d) % 10 == d);
        assert(digits(n).push(digit_char(d)) =~= digits(n) + digits(d));
    }
}

/// A signed number is written as its magnitude, behind a minus where it is negative.
pub proof fn law_decimals(n: nat)
    ensures
        decimal(n as int) == digits(n),
        n > 0 ==> decimal(-n) == seq!['-'] + digits(n),
{
}

/// Two numbers that are written alike are the same.
pub proof fn law_digits_tell_numbers_apart(a: nat, b: nat)
    requires
        digits(a) == digits(b),
    ensures
        a == b,
{
    lemma_digits(a);
    lemma_digits(b);
}

/// A row of digits is read as the number that it denotes, if that fits; leading zeros
/// and one plus sign do not matter, and nothing else is read.
pub proof fn law_unsigned_numbers(s: Seq<char>, n: u64)
    ensures
        unsigned_read(digits(n as nat)) == Some(n),
        unsigned_read(seq!['+'] + digits(n as nat)) == Some(n),
        s.len() > 0 && all_digits(s) ==> unsigned_read(seq!['0'] + s) == unsigned_read(s),
        s.len() == 0 ==> unsigned_read(s) is None,
        unsigned_read(seq!['+']) is None,
        all_digits(s) && digits_value(s) > u64::MAX ==> unsigned_read(s) is None,
        (exists|k: int| 1 <= k < s.len() && !is_digit(#[trigger] s[k])) ==> unsigned_read(s) is None,
        s.len() > 0 && !is_digit(s[0]) && s[0] != '+' ==> unsigned_read(s) is None,
{
    lemma_unsigned_read(n);
    lemma_digits(n as nat);
    let d = digits(n as nat);
    let plus = seq!['+'] + d;
    assert(plus.skip(1) =~= d);
    assert(seq!['+'].skip(1) =~= Seq::<char>::empty());
    assert(!is_digit('+'));
    assert(all_digits(s) && s.len() > 0 ==> is_digit(s[0]));
    assert(is_digit(d[0]));
    assert(unsigned_read(d) == Some(n));
    if s.len() > 0 && all_digits(s) {
        let z = seq!['0'] + s;
        lemma_leading_zero(s);
        assert(is_digit(s[0]));
        assert forall|k: int| 0 <= k < z.len() implies is_digit(#[trigger] z[k]) by {
            if k > 0 {
                assert(z[k] == s[k - 1]);
            }
        }
    }
    if exists|k: int| 1 <= k < s.len() && !is_digit(#[trigger] s[k]) {
        let k = choose|k: int| 1 <= k < s.len() && !is_digit(#[trigger] s[k]);
        assert(s.skip(1)[k - 1] == s[k]);
    }
}

/// A zero in front does not change a number.
proof fn lemma_leading_zero(s: Seq<char>)
    ensures
        digits_value(seq!['0'] + s) == digits_value(s),
    decreases s.len(),
{
    let z = seq!['0'] + s;
    if s.len() == 0 {
        assert(z =~= seq!['0']);
        assert(z.drop_last() =~= Seq::<char>::empty());
        reveal_with_fuel(digits_value, 2);
    } else {
        assert(z.drop_last() =~= seq!['0'] + s.drop_last());
        lemma_leading_zero(s.drop_last());
    }
}

/// A text is split at each separator: what holds none is one part, and one more
/// separator with a part behind it is one more part.
pub proof fn law_split(s: Seq<char>, part: Seq<char>, sep: char)
    requires
        forall|k: int| 0 <= k < part.len() ==> (#[trigger] part[k]) != sep,
    ensures
        split(part, sep) == seq![part],
        split(s + seq![sep] + part, sep) == split(s, sep).push(part),
    decreases part.len(),
{
    let whole = s + seq![sep] + part;
    if part.len() == 0 {
        assert(part =~= Seq::<char>::empty());
        assert(split(part, sep) =~= seq![part]);
        assert(whole.drop_last() =~= s);
        assert(whole.last() == sep);
    } else {
        let less = part.drop_last();
        law_split(s, less, sep);
        assert(part[part.len() - 1] != sep);
        assert(whole.drop_last() =~= s + seq![sep] + less);
        assert(less.push(part.last()) =~= part);
        assert(split(part, sep) =~= seq![part]);
        assert(split(whole, sep) =~= split(s, sep).push(part));
    }
}

/// A text of ASCII is in lower case once each of its capitals is; a text that holds none
/// stays as it is. Any other text goes by the rules of Unicode.
pub proof fn law_lower_case(s: Seq<char>)
    ensures
        !is_ascii_chars(s) ==> lowercase(s) == unicode_lowercase(s),
        is_ascii_chars(s) ==> lowercase(s).len() == s.len(),
        forall|k: int|
            is_ascii_chars(s) && 0 <= k < s.len() ==> (if 'A' <= s[k] <= 'Z' {
                (#[trigger] lowercase(s)[k]) as u32 == s[k] as u32 + 32
            } else {
                lowercase(s)[k] == s[k]
            }),
{
}

/// A byte is written in as few hexadecimal digits as it takes, in lower case.
pub proof fn law_hexadecimal(b: u8)
    ensures
        b < 16 ==> hex(b).len() == 1 && is_hex(hex(b)[0], b as nat),
        b >= 16 ==> hex(b).len() == 2 && is_hex(hex(b)[0], (b / 16) as nat) && is_hex(
            hex(b)[1],
            (b % 16) as nat,
        ),
{
}

/// Whether a character is the hexadecimal digit of a number.
pub open spec fn is_hex(c: char, d: nat) -> bool {
    (d < 10 && c as u32 == '0' as u32 + d) || (10 <= d < 16 && c as u32 == 'a' as u32 + d - 10)
}

/// The bytes of a text are read as that text, and any other bytes as what they are repaired
/// to.
pub proof fn law_lossy_text(s: Seq<char>)
    ensures
        lossy(encode_utf8(s)) == s,
        forall|b: Seq<u8>| !valid_utf8(b) ==> #[trigger] lossy(b) == utf8_repaired(b),
{
    encode_utf8_valid_utf8(s);
    encode_utf8_decode_utf8(s);
}

/// A row of digits is read as the number that it denotes, a minus in front as the negative
/// one, if that fits; leading zeros do not matter. What does not fit is told by its sign,
/// and nothing else is a number, not even with a plus in front.
pub proof fn law_signed_numbers(n: i64, s: Seq<char>)
    ensures
        signed_read(decimal(n as int)) == Ok::<i64, IntegerFault>(n),
        s.len() > 0 && all_digits(s) ==> signed_read(seq!['0'] + s) == signed_read(s),
        s.len() > 0 && all_digits(s) && signed_read(s) is Ok ==> signed_read(seq!['-'] + s) == Ok::<
            i64,
            IntegerFault,
        >((-signed_read(s)->Ok_0) as i64),
        s.len() > 0 && all_digits(s) && digits_value(s) > i64::MAX ==> signed_read(s) == Err::<
            i64,
            IntegerFault,
        >(IntegerFault::TooLarge),
        s.len() > 0 && all_digits(s) && digits_value(s) > i64::MAX + 1 ==> signed_read(
            seq!['-'] + s,
        ) == Err::<i64, IntegerFault>(IntegerFault::TooSmall),
        s.len() == 0 ==> signed_read(s) == Err::<i64, IntegerFault>(IntegerFault::InvalidDigit),
        s.len() > 0 && s[0] != '-' && !all_digits(s) ==> signed_read(s) == Err::<
            i64,
            IntegerFault,
        >(IntegerFault::InvalidDigit),
        s.len() == 0 || !all_digits(s) ==> signed_read(seq!['-'] + s) == Err::<i64, IntegerFault>(
            IntegerFault::InvalidDigit,
        ),
{
    lemma_signed_read(n);
    let minus = seq!['-'] + s;
    assert(minus.skip(1) =~= s);
    if s.len() > 0 && all_digits(s) {
        let z = seq!['0'] + s;
        lemma_leading_zero(s);
        assert(is_digit(s[0]));
        assert forall|k: int| 0 <= k < z.len() implies is_digit(#[trigger] z[k]) by {
            if k > 0 {
                assert(z[k] == s[k - 1]);
            }
        }
    }
}

/// The number of a row of digits grows tenfold with each digit behind it.
pub proof fn law_value_of_digits(s: Seq<char>, d: nat)
    requires
        d < 10,
    ensures
        digits_value(Seq::empty()) == 0,
        digits_value(s + digits(d)) == 10 * digits_value(s) + d,
        all_digits(s) ==> all_digits(s + digits(d)),
{
    let t = s + digits(d);
    assert(digits(d) =~= seq![digit_char(d)]);
    assert(t.drop_last() =~= s);
    assert(t.last() == digit_char(d));
}

/// The digits are ten.
pub proof fn law_digit_characters(c: char)
    ensures
        is_digit(c) <==> c == '0' || c == '1' || c == '2' || c == '3' || c == '4' || c == '5' || c
            == '6' || c == '7' || c == '8' || c == '9',
{
}

/// Rows of texts, and of parts of texts, stand for what they hold, in order.
pub proof fn law_rows_of_texts(v: Seq<String>, w: Seq<Vec<char>>, s: String, k: int)
    ensures
        texts(v).len() == v.len(),
        0 <= k < v.len() ==> texts(v)[k] == v[k]@,
        parts(w).len() == w.len(),
        0 <= k < w.len() ==> parts(w)[k] == w[k]@,
        optional_text(Some(s)) == Some(s@),
        optional_text(None) is None,
{
}

} // verus!
