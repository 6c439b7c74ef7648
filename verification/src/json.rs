//! The textual encoding of values: JSON, one value per line.

use vstd::prelude::*;
use vstd::string::StringExecFns;
use vstd::utf8::*;

use crate::numbers::Numbers;
use crate::text::{
    all_digits, char_bytes, chars_of, decimal, digits, hex_char, hex_digit, is_digit, is_hex,
    lead_and_width, lemma_char_bytes, lemma_digits, lemma_signed_read, lemma_stands_elements,
    lemma_stands_parts, push_decimal, push_digits, read_signed, signed_read, stands, string_of,
    IntegerFault,
};
use crate::value::{
    data, lemma_data, lemma_data_push, lemma_members, lemma_members_push, members, Datum, Value,
};

verus! {

/// A character as it stands within a string.
pub open spec fn escaped(c: char) -> Seq<char> {
    if c == '"' {
        seq!['\\', '"']
    } else if c == '\\' {
        seq!['\\', '\\']
    } else if c == '\n' {
        seq!['\\', 'n']
    } else if c == '\r' {
        seq!['\\', 'r']
    } else if c == '\t' {
        seq!['\\', 't']
    } else if (c as u32) < 0x20 {
        seq!['\\', 'u', '0', '0', hex_char((c as u32) as nat / 16), hex_char((c as u32) as nat % 16)]
    } else {
        seq![c]
    }
}

/// A text as it stands within a string.
pub open spec fn escape(s: Seq<char>) -> Seq<char>
    decreases s.len(),
{
    if s.len() == 0 {
        Seq::empty()
    } else {
        escaped(s[0]) + escape(s.skip(1))
    }
}

/// A string, with its quotes.
pub open spec fn quoted(s: Seq<char>) -> Seq<char> {
    seq!['"'] + escape(s) + seq!['"']
}

/// The text of a value, given the notations of doubles.
pub open spec fn value_text(v: Datum, notations: Map<u64, Seq<char>>) -> Seq<char>
    decreases v,
{
    match v {
        Datum::Null => seq!['n', 'u', 'l', 'l'],
        Datum::Bool(true) => seq!['t', 'r', 'u', 'e'],
        Datum::Bool(false) => seq!['f', 'a', 'l', 's', 'e'],
        Datum::Int(i) => decimal(i as int),
        Datum::Double(d) => notations[d],
        Datum::Str(s) => quoted(s),
        Datum::Array(items) => seq!['['] + items_text(items, notations) + seq![']'],
        Datum::Object(pairs) => seq!['{'] + members_text(pairs, notations) + seq!['}'],
    }
}

/// The texts of an array's elements, with commas between them.
pub open spec fn items_text(items: Seq<Datum>, notations: Map<u64, Seq<char>>) -> Seq<char>
    decreases items,
{
    if items.len() == 0 {
        Seq::empty()
    } else if items.len() == 1 {
        value_text(items[0], notations)
    } else {
        value_text(items[0], notations) + seq![','] + items_text(items.drop_first(), notations)
    }
}

/// The text of one member of an object.
pub open spec fn member_text(pair: (Seq<char>, Datum), notations: Map<u64, Seq<char>>) -> Seq<char>
    decreases pair,
{
    quoted(pair.0) + seq![':'] + value_text(pair.1, notations)
}

/// The texts of an object's members, with commas between them.
pub open spec fn members_text(
    pairs: Seq<(Seq<char>, Datum)>,
    notations: Map<u64, Seq<char>>,
) -> Seq<char>
    decreases pairs,
{
    if pairs.len() == 0 {
        Seq::empty()
    } else if pairs.len() == 1 {
        member_text(pairs[0], notations)
    } else {
        member_text(pairs[0], notations) + seq![','] + members_text(pairs.drop_first(), notations)
    }
}

/// The first double in a value that has no notation.
pub open spec fn missing(v: Datum, notations: Map<u64, Seq<char>>) -> Option<u64>
    decreases v,
{
    match v {
        Datum::Double(d) => if notations.contains_key(d) {
            None
        } else {
            Some(d)
        },
        Datum::Array(items) => missing_item(items, notations),
        Datum::Object(pairs) => missing_member(pairs, notations),
        _ => None,
    }
}

/// The first double in an array that has no notation.
pub open spec fn missing_item(items: Seq<Datum>, notations: Map<u64, Seq<char>>) -> Option<u64>
    decreases items,
{
    if items.len() == 0 {
        None
    } else {
        match missing(items[0], notations) {
            Some(d) => Some(d),
            None => missing_item(items.drop_first(), notations),
        }
    }
}

/// The first double in an object that has no notation.
pub open spec fn missing_member(
    pairs: Seq<(Seq<char>, Datum)>,
    notations: Map<u64, Seq<char>>,
) -> Option<u64>
    decreases pairs,
{
    if pairs.len() == 0 {
        None
    } else {
        match missing(pairs[0].1, notations) {
            Some(d) => Some(d),
            None => missing_member(pairs.drop_first(), notations),
        }
    }
}

/// Appends a string with its quotes.
pub(crate) fn write_string(out: &mut String, s: &str)
    ensures
        final(out)@ == old(out)@ + quoted(s@),
{
    let cs = chars_of(s);
    out.push('"');
    let mut i: usize = 0;
    let ghost whole = old(out)@ + seq!['"'] + escape(s@);
    assert(cs@.skip(0) =~= s@);
    assert(out@ + escape(cs@.skip(0)) =~= whole);
    while i < cs.len()
        invariant
            i <= cs.len(),
            out@ + escape(cs@.skip(i as int)) == whole,
        decreases cs.len() - i,
    {
        let c = cs[i];
        let ghost before = out@;
        if c == '"' {
            out.push('\\');
            out.push('"');
        } else if c == '\\' {
            out.push('\\');
            out.push('\\');
        } else if c == '\n' {
            out.push('\\');
            out.push('n');
        } else if c == '\r' {
            out.push('\\');
            out.push('r');
        } else if c == '\t' {
            out.push('\\');
            out.push('t');
        } else if (c as u32) < 0x20 {
            let n: u8 = (c as u32) as u8;
            out.push('\\');
            out.push('u');
            out.push('0');
            out.push('0');
            out.push(hex_digit(n / 16));
            out.push(hex_digit(n % 16));
        } else {
            out.push(c);
        }
        assert(out@ =~= before + escaped(c));
        assert(cs@.skip(i as int).skip(1) =~= cs@.skip(i + 1));
        assert(out@ + escape(cs@.skip(i + 1)) =~= before + escape(cs@.skip(i as int)));
        i += 1;
    }
    assert(escape(cs@.skip(i as int)) =~= Seq::<char>::empty());
    assert(out@ =~= whole);
    out.push('"');
    assert(out@ =~= old(out)@ + quoted(s@));
}

/// Appends a value; fails on a double that has no notation.
pub(crate) fn write_value(out: &mut String, v: &Value, numbers: &Numbers) -> (r: Result<(), u64>)
    ensures
        match missing(v@, numbers.notations()) {
            None => r is Ok && final(out)@ == old(out)@ + value_text(v@, numbers.notations()),
            Some(d) => r == Err::<(), u64>(d),
        },
    decreases v,
{
    let ghost known = numbers.notations();
    match v {
        Value::Null => {
            out.append("null");
            proof {
                reveal_strlit("null");
            }
            assert("null"@ =~= seq!['n', 'u', 'l', 'l']);
            Ok(())
        },
        Value::Bool(true) => {
            out.append("true");
            proof {
                reveal_strlit("true");
            }
            assert("true"@ =~= seq!['t', 'r', 'u', 'e']);
            Ok(())
        },
        Value::Bool(false) => {
            out.append("false");
            proof {
                reveal_strlit("false");
            }
            assert("false"@ =~= seq!['f', 'a', 'l', 's', 'e']);
            Ok(())
        },
        Value::Int(i) => {
            push_decimal(out, *i);
            Ok(())
        },
        Value::Double(d) => match numbers.notation(*d) {
            Some(s) => {
                out.append(s);
                Ok(())
            },
            None => Err(*d),
        },
        Value::Str(s) => {
            write_string(out, s.as_str());
            Ok(())
        },
        Value::Array(items) => {
            out.push('[');
            let ghost all = data(items@);
            let ghost whole = old(out)@ + seq!['['] + items_text(all, known);
            let mut i: usize = 0;
            proof {
                lemma_data(items@);
                assert(all.skip(0) =~= all);
                assert(out@ + items_text(all.skip(0), known) =~= whole);
            }
            while i < items.len()
                invariant
                    i <= items.len(),
                    v == Value::Array(*items),
                    known == numbers.notations(),
                    all == data(items@),
                    all.len() == items@.len(),
                    forall|k: int| 0 <= k < items@.len() ==> #[trigger] all[k] == items@[k]@,
                    missing_item(all, known) == missing_item(all.skip(i as int), known),
                    missing_item(all, known) is None ==> whole == out@ + (if 0 < i < all.len() {
                        seq![','] + items_text(all.skip(i as int), known)
                    } else {
                        items_text(all.skip(i as int), known)
                    }),
                decreases items.len() - i,
            {
                assert(decreases_to!(*v => v->Array_0));
                assert(decreases_to!(*items => items[i as int]));
                let ghost rest = all.skip(i as int);
                let ghost before = out@;
                assert(rest[0] == items@[i as int]@);
                assert(rest.drop_first() =~= all.skip(i + 1));
                if i > 0 {
                    out.push(',');
                }
                match write_value(out, &items[i], numbers) {
                    Ok(_) => {},
                    Err(d) => return Err(d),
                }
                proof {
                    if missing_item(all, known) is None {
                        if i + 1 < all.len() {
                            assert(whole =~= out@ + (seq![','] + items_text(all.skip(i + 1), known)));
                        } else {
                            assert(whole =~= out@ + items_text(all.skip(i + 1), known));
                        }
                    }
                }
                i += 1;
            }
            out.push(']');
            assert(items_text(all.skip(i as int), known) =~= Seq::<char>::empty());
            assert(out@ =~= whole + seq![']']);
            assert(out@ =~= old(out)@ + value_text(v@, known));
            Ok(())
        },
        Value::Object(pairs) => {
            out.push('{');
            let ghost all = members(pairs@);
            let ghost whole = old(out)@ + seq!['{'] + members_text(all, known);
            let mut i: usize = 0;
            proof {
                lemma_members(pairs@);
                assert(all.skip(0) =~= all);
                assert(out@ + members_text(all.skip(0), known) =~= whole);
            }
            while i < pairs.len()
                invariant
                    i <= pairs.len(),
                    v == Value::Object(*pairs),
                    known == numbers.notations(),
                    all == members(pairs@),
                    all.len() == pairs@.len(),
                    forall|k: int|
                        0 <= k < pairs@.len() ==> #[trigger] all[k] == (pairs@[k].0@, pairs@[k].1@),
                    missing_member(all, known) == missing_member(all.skip(i as int), known),
                    missing_member(all, known) is None ==> whole == out@ + (if 0 < i < all.len() {
                        seq![','] + members_text(all.skip(i as int), known)
                    } else {
                        members_text(all.skip(i as int), known)
                    }),
                decreases pairs.len() - i,
            {
                assert(decreases_to!(*v => v->Object_0));
                assert(decreases_to!(*pairs => pairs[i as int]));
                assert(decreases_to!(pairs[i as int] => pairs[i as int].1));
                let ghost rest = all.skip(i as int);
                let ghost before = out@;
                assert(rest[0] == (pairs@[i as int].0@, pairs@[i as int].1@));
                assert(rest.drop_first() =~= all.skip(i + 1));
                if i > 0 {
                    out.push(',');
                }
                write_string(out, pairs[i].0.as_str());
                out.push(':');
                match write_value(out, &pairs[i].1, numbers) {
                    Ok(_) => {},
                    Err(d) => return Err(d),
                }
                proof {
                    if missing_member(all, known) is None {
                        assert(out@ =~= before + (if i > 0 {
                            seq![',']
                        } else {
                            Seq::<char>::empty()
                        }) + member_text(rest[0], known));
                        if i + 1 < all.len() {
                            assert(whole =~= out@ + (seq![','] + members_text(all.skip(i + 1), known)));
                        } else {
                            assert(whole =~= out@ + members_text(all.skip(i + 1), known));
                        }
                    }
                }
                i += 1;
            }
            out.push('}');
            assert(members_text(all.skip(i as int), known) =~= Seq::<char>::empty());
            assert(out@ =~= whole + seq!['}']);
            assert(out@ =~= old(out)@ + value_text(v@, known));
            Ok(())
        },
    }
}

/// Encodes a value; fails with the first double that has no notation.
pub fn encode(v: &Value, numbers: &Numbers) -> (r: Result<String, u64>)
    ensures
        match missing(v@, numbers.notations()) {
            None => r is Ok && r->Ok_0@ == value_text(v@, numbers.notations()),
            Some(d) => r == Err::<String, u64>(d),
        },
{
    let mut out = String::new();
    match write_value(&mut out, v, numbers) {
        Ok(_) => {
            assert(out@ =~= value_text(v@, numbers.notations()));
            Ok(out)
        },
        Err(d) => Err(d),
    }
}

/// The three words of the language.
#[derive(Debug, Clone, Copy, PartialEq, Eq, Structural)]
pub enum Word {
    True,
    False,
    Null,
}

impl Word {
    /// How the word is written.
    pub open spec fn text(self) -> Seq<char> {
        match self {
            Word::True => "true"@,
            Word::False => "false"@,
            Word::Null => "null"@,
        }
    }

    /// How the word is written.
    pub fn spelling(&self) -> (r: &'static str)
        ensures
            r@ == self.text(),
    {
        match self {
            Word::True => "true",
            Word::False => "false",
            Word::Null => "null",
        }
    }
}

/// Why a text is no value. Positions count bytes of the text.
#[derive(Debug, Clone, Copy, PartialEq, Eq, Structural)]
pub enum JsonError {
    /// Another character should stand at a position.
    Expected { byte: u8, at: usize },
    /// A word should stand at a position.
    ExpectedWord { word: Word, at: usize },
    /// No value starts with what stands at a position.
    Unexpected { got: Option<u8>, at: usize },
    /// A string does not end.
    Unterminated,
    /// No escape is written so.
    BadEscape { got: Option<u8> },
    /// The four bytes behind `\u` end within a character, which starts so many
    /// bytes behind it.
    SplitCharacter { index: usize },
    /// What stands behind `\u` is no hexadecimal number.
    BadHex,
    /// Fewer than four bytes stand behind `\u`.
    CutEscape,
    /// A number without a fraction and an exponent is none, or out of range.
    BadInteger(IntegerFault),
    /// A number with a fraction or an exponent is none.
    BadDouble,
    /// Neither a comma nor the closing bracket follows.
    ExpectedSeparator { close: u8, got: Option<u8> },
    /// It is not known what the literal between two positions reads as.
    Unread { start: usize, end: usize },
}

/// How an optional byte is shown.
pub open spec fn byte_shown(b: Option<u8>) -> Seq<char> {
    match b {
        Some(b) => "Some("@ + digits(b as nat) + ")"@,
        None => "None"@,
    }
}

/// How a fault of an integer is put in words.
pub open spec fn fault_text(fault: IntegerFault) -> Seq<char> {
    match fault {
        IntegerFault::InvalidDigit => "invalid digit found in string"@,
        IntegerFault::TooLarge => "number too large to fit in target type"@,
        IntegerFault::TooSmall => "number too small to fit in target type"@,
    }
}

/// Appends an optional byte.
fn push_byte_shown(out: &mut String, b: Option<u8>)
    ensures
        final(out)@ == old(out)@ + byte_shown(b),
{
    match b {
        Some(b) => {
            out.append("Some(");
            push_digits(out, b as u128);
            out.append(")");
        },
        None => {
            out.append("None");
        },
    }
    assert(out@ =~= old(out)@ + byte_shown(b));
}

impl JsonError {
    /// What is said of the error.
    pub open spec fn text(self) -> Seq<char> {
        match self {
            JsonError::Expected { byte, at } => "json: expected '"@ + seq![byte as char] + "' at "@
                + digits(at as nat),
            JsonError::ExpectedWord { word, at } => "json: expected '"@ + word.text() + "' at "@
                + digits(at as nat),
            JsonError::Unexpected { got, at } => "json: unexpected byte "@ + byte_shown(got)
                + " at "@ + digits(at as nat),
            JsonError::Unterminated => "json: unterminated string"@,
            JsonError::BadEscape { got } => "json: bad escape "@ + byte_shown(got),
            JsonError::SplitCharacter { index } =>
                "incomplete utf-8 byte sequence from index "@ + digits(index as nat),
            JsonError::BadHex => "invalid digit found in string"@,
            JsonError::CutEscape => "json: cut escape"@,
            JsonError::BadInteger(fault) => fault_text(fault),
            JsonError::BadDouble => "invalid float literal"@,
            JsonError::ExpectedSeparator { close, got } => "json: expected ',' or '"@
                + seq![close as char] + "' got "@ + byte_shown(got),
            JsonError::Unread { start, end } => "json: unread number at "@ + digits(start as nat),
        }
    }

    /// Says what is wrong.
    pub fn message(&self) -> (r: String)
        ensures
            r@ == self.text(),
    {
        let mut out = String::new();
        match self {
            JsonError::Expected { byte, at } => {
                out.append("json: expected '");
                out.push(*byte as char);
                out.append("' at ");
                push_digits(&mut out, *at as u128);
            },
            JsonError::ExpectedWord { word, at } => {
                out.append("json: expected '");
                out.append(word.spelling());
                out.append("' at ");
                push_digits(&mut out, *at as u128);
            },
            JsonError::Unexpected { got, at } => {
                out.append("json: unexpected byte ");
                push_byte_shown(&mut out, *got);
                out.append(" at ");
                push_digits(&mut out, *at as u128);
            },
            JsonError::Unterminated => {
                out.append("json: unterminated string");
            },
            JsonError::BadEscape { got } => {
                out.append("json: bad escape ");
                push_byte_shown(&mut out, *got);
            },
            JsonError::SplitCharacter { index } => {
                out.append("incomplete utf-8 byte sequence from index ");
                push_digits(&mut out, *index as u128);
            },
            JsonError::BadHex => {
                out.append("invalid digit found in string");
            },
            JsonError::CutEscape => {
                out.append("json: cut escape");
            },
            JsonError::BadInteger(fault) => match fault {
                IntegerFault::InvalidDigit => {
                    out.append("invalid digit found in string");
                },
                IntegerFault::TooLarge => {
                    out.append("number too large to fit in target type");
                },
                IntegerFault::TooSmall => {
                    out.append("number too small to fit in target type");
                },
            },
            JsonError::BadDouble => {
                out.append("invalid float literal");
            },
            JsonError::ExpectedSeparator { close, got } => {
                out.append("json: expected ',' or '");
                out.push(*close as char);
                out.append("' got ");
                push_byte_shown(&mut out, *got);
            },
            JsonError::Unread { start, end: _ } => {
                out.append("json: unread number at ");
                push_digits(&mut out, *start as u128);
            },
        }
        assert(out@ =~= self.text());
        out
    }
}

/// How many bytes stand before a position.
pub open spec fn offset(s: Seq<char>, i: int) -> usize {
    encode_utf8(s.take(i)).len() as usize
}

/// The first byte of what stands at a position.
pub open spec fn peeked(s: Seq<char>, i: int) -> Option<u8> {
    if 0 <= i < s.len() {
        Some(char_bytes(s[i])[0])
    } else {
        None
    }
}

/// White space between the tokens.
pub open spec fn is_blank(c: char) -> bool {
    c == ' ' || c == '\t' || c == '\n' || c == '\r'
}

/// The position behind white space.
pub open spec fn past_blanks(s: Seq<char>, i: int) -> int
    decreases s.len() - i,
{
    if 0 <= i < s.len() && is_blank(s[i]) {
        past_blanks(s, i + 1)
    } else {
        i
    }
}

/// White space ends within the text.
proof fn lemma_past_blanks(s: Seq<char>, i: int)
    requires
        0 <= i <= s.len(),
    ensures
        i <= past_blanks(s, i) <= s.len(),
    decreases s.len() - i,
{
    if i < s.len() && is_blank(s[i]) {
        lemma_past_blanks(s, i + 1);
    }
}

/// Whether a character stands at a position.
pub open spec fn is_at(s: Seq<char>, i: int, c: char) -> bool {
    0 <= i < s.len() && s[i] == c
}

/// The word at a position.
pub open spec fn word_at(s: Seq<char>, i: int, word: Word) -> Result<int, JsonError> {
    let n = word.text().len();
    if i + n <= s.len() && s.subrange(i, i + n) == word.text() {
        Ok(i + n)
    } else {
        Err(JsonError::ExpectedWord { word, at: offset(s, i) })
    }
}

/// What a number is made of, apart from a sign at its front.
pub open spec fn is_numeric(c: char) -> bool {
    is_digit(c) || c == '.' || c == 'e' || c == 'E' || c == '+' || c == '-'
}

/// The position behind what a number is made of.
pub open spec fn past_numeric(s: Seq<char>, i: int) -> int
    decreases s.len() - i,
{
    if 0 <= i < s.len() && is_numeric(s[i]) {
        past_numeric(s, i + 1)
    } else {
        i
    }
}

/// A number ends within the text.
proof fn lemma_past_numeric(s: Seq<char>, i: int)
    requires
        0 <= i <= s.len(),
    ensures
        i <= past_numeric(s, i) <= s.len(),
    decreases s.len() - i,
{
    if i < s.len() && is_numeric(s[i]) {
        lemma_past_numeric(s, i + 1);
    }
}

/// The number at a position: an integer where only digits follow the sign, else
/// a double, if it is known what the literal reads as.
pub open spec fn number_at(s: Seq<char>, i: int, readings: Map<Seq<char>, Option<u64>>) -> Result<
    (Datum, int),
    JsonError,
> {
    let start = if is_at(s, i, '-') {
        i + 1
    } else {
        i
    };
    let end = past_numeric(s, start);
    let literal = s.subrange(i, end);
    if all_digits(s.subrange(start, end)) {
        match signed_read(literal) {
            Ok(n) => Ok((Datum::Int(n), end)),
            Err(fault) => Err(JsonError::BadInteger(fault)),
        }
    } else if readings.contains_key(literal) {
        match readings[literal] {
            Some(bits) => Ok((Datum::Double(bits), end)),
            None => Err(JsonError::BadDouble),
        }
    } else {
        Err(JsonError::Unread { start: offset(s, i), end: offset(s, end) })
    }
}

/// The position behind the four bytes of an escape, of which so many are left.
pub open spec fn past_bytes(s: Seq<char>, i: int, left: nat) -> Result<int, JsonError>
    decreases left,
{
    if left == 0 {
        Ok(i)
    } else if !(0 <= i < s.len()) {
        Err(JsonError::CutEscape)
    } else if char_bytes(s[i]).len() > left {
        Err(JsonError::SplitCharacter { index: (4 - left) as usize })
    } else if char_bytes(s[i]).len() > 0 {
        past_bytes(s, i + 1, (left - char_bytes(s[i]).len()) as nat)
    } else {
        Err(JsonError::CutEscape)
    }
}

/// What a hexadecimal digit stands for.
pub open spec fn hex_value(c: char) -> Option<nat> {
    if '0' <= c <= '9' {
        Some((c as u32 - 48) as nat)
    } else if 'a' <= c <= 'f' {
        Some((c as u32 - 87) as nat)
    } else if 'A' <= c <= 'F' {
        Some((c as u32 - 55) as nat)
    } else {
        None
    }
}

/// What a row of hexadecimal digits stands for.
pub open spec fn hex_number(s: Seq<char>) -> Option<nat>
    decreases s.len(),
{
    if s.len() == 0 {
        Some(0)
    } else {
        match (hex_number(s.drop_last()), hex_value(s.last())) {
            (Some(n), Some(d)) => Some(16 * n + d),
            _ => None,
        }
    }
}

/// The scalar value behind `\u`: hexadecimal digits, after at most one plus
/// sign, in four bytes.
pub open spec fn scalar_at(s: Seq<char>, i: int) -> Result<(u32, int), JsonError> {
    match past_bytes(s, i, 4) {
        Ok(j) => {
            let body = if s[i] == '+' {
                s.subrange(i + 1, j)
            } else {
                s.subrange(i, j)
            };
            match hex_number(body) {
                Some(n) => Ok((n as u32, j)),
                None => Err(JsonError::BadHex),
            }
        },
        Err(e) => Err(e),
    }
}

/// The text with one more character, if the scalar value is that of one.
pub open spec fn with_scalar(s: Seq<char>, n: u32) -> Seq<char> {
    if is_scalar(n) {
        s.push(n as char)
    } else {
        s
    }
}

/// The rest of a string at a position, behind what was read so far.
pub open spec fn string_at(s: Seq<char>, i: int, read: Seq<char>) -> Result<
    (Seq<char>, int),
    JsonError,
>
    decreases s.len() - i,
{
    if !(0 <= i < s.len()) {
        Err(JsonError::Unterminated)
    } else if s[i] == '"' {
        Ok((read, i + 1))
    } else if s[i] != '\\' {
        string_at(s, i + 1, read.push(s[i]))
    } else if is_at(s, i + 1, '"') || is_at(s, i + 1, '\\') || is_at(s, i + 1, '/') {
        string_at(s, i + 2, read.push(s[i + 1]))
    } else if is_at(s, i + 1, 'n') {
        string_at(s, i + 2, read.push('\n'))
    } else if is_at(s, i + 1, 't') {
        string_at(s, i + 2, read.push('\t'))
    } else if is_at(s, i + 1, 'r') {
        string_at(s, i + 2, read.push('\r'))
    } else if is_at(s, i + 1, 'u') {
        match scalar_at(s, i + 2) {
            Ok((n, j)) => if i < j <= s.len() {
                string_at(s, j, with_scalar(read, n))
            } else {
                Err(JsonError::CutEscape)
            },
            Err(e) => Err(e),
        }
    } else {
        Err(JsonError::BadEscape { got: peeked(s, i + 1) })
    }
}

/// Four bytes end within the text.
proof fn lemma_past_bytes(s: Seq<char>, i: int, left: nat)
    requires
        0 <= i <= s.len(),
    ensures
        match past_bytes(s, i, left) {
            Ok(j) => i <= j <= s.len() && j - i <= left && (left > 0 ==> i < j),
            Err(_) => true,
        },
    decreases left,
{
    if left > 0 && i < s.len() && 0 < char_bytes(s[i]).len() <= left {
        lemma_past_bytes(s, i + 1, (left - char_bytes(s[i]).len()) as nat);
    }
}

/// A string ends within the text.
proof fn lemma_string_at(s: Seq<char>, i: int, read: Seq<char>)
    requires
        0 <= i <= s.len(),
    ensures
        match string_at(s, i, read) {
            Ok((_, j)) => i < j <= s.len(),
            Err(_) => true,
        },
    decreases s.len() - i,
{
    if i < s.len() && s[i] != '"' {
        if s[i] != '\\' {
            lemma_string_at(s, i + 1, read.push(s[i]));
        } else if is_at(s, i + 1, '"') || is_at(s, i + 1, '\\') || is_at(s, i + 1, '/') {
            lemma_string_at(s, i + 2, read.push(s[i + 1]));
        } else if is_at(s, i + 1, 'n') {
            lemma_string_at(s, i + 2, read.push('\n'));
        } else if is_at(s, i + 1, 't') {
            lemma_string_at(s, i + 2, read.push('\t'));
        } else if is_at(s, i + 1, 'r') {
            lemma_string_at(s, i + 2, read.push('\r'));
        } else if is_at(s, i + 1, 'u') {
            lemma_past_bytes(s, i + 2, 4);
            match scalar_at(s, i + 2) {
                Ok((n, j)) => lemma_string_at(s, j, with_scalar(read, n)),
                Err(_) => {},
            }
        }
    }
}

/// The value at a position.
pub open spec fn value_at(s: Seq<char>, i: int, readings: Map<Seq<char>, Option<u64>>) -> Result<
    (Datum, int),
    JsonError,
>
    decreases s.len() - i, 0nat,
{
    let p = past_blanks(s, i);
    if !(i <= p < s.len()) {
        Err(JsonError::Unexpected { got: None, at: offset(s, p) })
    } else if s[p] == '{' {
        let q = past_blanks(s, p + 1);
        if is_at(s, q, '}') {
            Ok((Datum::Object(Seq::empty()), q + 1))
        } else if p < q <= s.len() {
            match members_at(s, q, readings, Seq::empty()) {
                Ok((pairs, j)) => Ok((Datum::Object(pairs), j)),
                Err(e) => Err(e),
            }
        } else {
            Err(JsonError::Unterminated)
        }
    } else if s[p] == '[' {
        let q = past_blanks(s, p + 1);
        if is_at(s, q, ']') {
            Ok((Datum::Array(Seq::empty()), q + 1))
        } else if p < q <= s.len() {
            match items_at(s, q, readings, Seq::empty()) {
                Ok((items, j)) => Ok((Datum::Array(items), j)),
                Err(e) => Err(e),
            }
        } else {
            Err(JsonError::Unterminated)
        }
    } else if s[p] == '"' {
        match string_at(s, p + 1, Seq::empty()) {
            Ok((t, j)) => Ok((Datum::Str(t), j)),
            Err(e) => Err(e),
        }
    } else if s[p] == 't' {
        match word_at(s, p, Word::True) {
            Ok(j) => Ok((Datum::Bool(true), j)),
            Err(e) => Err(e),
        }
    } else if s[p] == 'f' {
        match word_at(s, p, Word::False) {
            Ok(j) => Ok((Datum::Bool(false), j)),
            Err(e) => Err(e),
        }
    } else if s[p] == 'n' {
        match word_at(s, p, Word::Null) {
            Ok(j) => Ok((Datum::Null, j)),
            Err(e) => Err(e),
        }
    } else if s[p] == '-' || is_digit(s[p]) {
        number_at(s, p, readings)
    } else {
        Err(JsonError::Unexpected { got: peeked(s, p), at: offset(s, p) })
    }
}

/// The rest of an array at a position, behind the elements read so far.
pub open spec fn items_at(
    s: Seq<char>,
    i: int,
    readings: Map<Seq<char>, Option<u64>>,
    read: Seq<Datum>,
) -> Result<(Seq<Datum>, int), JsonError>
    decreases s.len() - i, 1nat,
{
    match value_at(s, i, readings) {
        Ok((v, j)) => {
            let k = past_blanks(s, j);
            if is_at(s, k, ',') && i <= k {
                items_at(s, k + 1, readings, read.push(v))
            } else if is_at(s, k, ']') {
                Ok((read.push(v), k + 1))
            } else {
                Err(JsonError::ExpectedSeparator { close: 0x5d, got: peeked(s, k) })
            }
        },
        Err(e) => Err(e),
    }
}

/// The rest of an object at a position, behind the members read so far.
pub open spec fn members_at(
    s: Seq<char>,
    i: int,
    readings: Map<Seq<char>, Option<u64>>,
    read: Seq<(Seq<char>, Datum)>,
) -> Result<(Seq<(Seq<char>, Datum)>, int), JsonError>
    decreases s.len() - i, 1nat,
{
    let a = past_blanks(s, i);
    if !is_at(s, a, '"') {
        Err(JsonError::Expected { byte: 0x22, at: offset(s, a) })
    } else {
        match string_at(s, a + 1, Seq::empty()) {
            Ok((key, b)) => {
                let c = past_blanks(s, b);
                if !is_at(s, c, ':') {
                    Err(JsonError::Expected { byte: 0x3a, at: offset(s, c) })
                } else if i <= c {
                    match value_at(s, c + 1, readings) {
                        Ok((v, j)) => {
                            let k = past_blanks(s, j);
                            if is_at(s, k, ',') && i <= k {
                                members_at(s, k + 1, readings, read.push((key, v)))
                            } else if is_at(s, k, '}') {
                                Ok((read.push((key, v)), k + 1))
                            } else {
                                Err(JsonError::ExpectedSeparator { close: 0x7d, got: peeked(s, k) })
                            }
                        },
                        Err(e) => Err(e),
                    }
                } else {
                    Err(JsonError::Unterminated)
                }
            },
            Err(e) => Err(e),
        }
    }
}

/// A value ends within the text, behind where it starts.
pub proof fn lemma_value_at(s: Seq<char>, i: int, readings: Map<Seq<char>, Option<u64>>)
    requires
        0 <= i <= s.len(),
    ensures
        match value_at(s, i, readings) {
            Ok((_, j)) => i < j <= s.len(),
            Err(_) => true,
        },
    decreases s.len() - i, 0nat,
{
    let p = past_blanks(s, i);
    lemma_past_blanks(s, i);
    if p < s.len() {
        let q = past_blanks(s, p + 1);
        lemma_past_blanks(s, p + 1);
        if s[p] == '{' {
            if !is_at(s, q, '}') {
                lemma_members_at(s, q, readings, Seq::empty());
            }
        } else if s[p] == '[' {
            if !is_at(s, q, ']') {
                lemma_items_at(s, q, readings, Seq::empty());
            }
        } else if s[p] == '"' {
            lemma_string_at(s, p + 1, Seq::empty());
        } else if s[p] == '-' || is_digit(s[p]) {
            lemma_past_numeric(s, p + 1);
        } else {
            reveal_strlit("true");
            reveal_strlit("false");
            reveal_strlit("null");
        }
    }
}

proof fn lemma_items_at(
    s: Seq<char>,
    i: int,
    readings: Map<Seq<char>, Option<u64>>,
    read: Seq<Datum>,
)
    requires
        0 <= i <= s.len(),
    ensures
        match items_at(s, i, readings, read) {
            Ok((_, j)) => i < j <= s.len(),
            Err(_) => true,
        },
    decreases s.len() - i, 1nat,
{
    lemma_value_at(s, i, readings);
    match value_at(s, i, readings) {
        Ok((v, j)) => {
            let k = past_blanks(s, j);
            lemma_past_blanks(s, j);
            if is_at(s, k, ',') {
                lemma_items_at(s, k + 1, readings, read.push(v));
            }
        },
        Err(_) => {},
    }
}

proof fn lemma_members_at(
    s: Seq<char>,
    i: int,
    readings: Map<Seq<char>, Option<u64>>,
    read: Seq<(Seq<char>, Datum)>,
)
    requires
        0 <= i <= s.len(),
    ensures
        match members_at(s, i, readings, read) {
            Ok((_, j)) => i < j <= s.len(),
            Err(_) => true,
        },
    decreases s.len() - i, 1nat,
{
    let a = past_blanks(s, i);
    lemma_past_blanks(s, i);
    if is_at(s, a, '"') {
        lemma_string_at(s, a + 1, Seq::empty());
        match string_at(s, a + 1, Seq::empty()) {
            Ok((key, b)) => {
                let c = past_blanks(s, b);
                lemma_past_blanks(s, b);
                if is_at(s, c, ':') {
                    lemma_value_at(s, c + 1, readings);
                    match value_at(s, c + 1, readings) {
                        Ok((v, j)) => {
                            let k = past_blanks(s, j);
                            lemma_past_blanks(s, j);
                            if is_at(s, k, ',') {
                                lemma_members_at(s, k + 1, readings, read.push((key, v)));
                            }
                        },
                        Err(_) => {},
                    }
                }
            },
            Err(_) => {},
        }
    }
}

/// Whether what was read, and the position reached, are what stands in the text.
spec fn read_as<T, D>(
    got: Result<T, JsonError>,
    shown: spec_fn(T) -> D,
    pos: usize,
    want: Result<(D, int), JsonError>,
) -> bool {
    match want {
        Ok((d, j)) => got is Ok && shown(got->Ok_0) == d && pos == j,
        Err(e) => got == Err::<T, JsonError>(e),
    }
}

/// A position in a text.
struct Parser<'a> {
    cs: &'a [char],
    pos: usize,
    numbers: &'a Numbers,
}

impl<'a> Parser<'a> {
    spec fn wf(&self) -> bool {
        self.pos <= self.cs@.len()
    }

    /// Nothing but the position differs.
    spec fn moved_from(&self, before: &Self) -> bool {
        self.cs == before.cs && self.numbers == before.numbers
    }

    /// How many bytes stand before a position.
    fn offset(&self, i: usize) -> (r: usize)
        requires
            i <= self.cs@.len(),
        ensures
            r == offset(self.cs@, i as int),
    {
        let front = vstd::slice::slice_subrange(self.cs, 0, i);
        assert(front@ =~= self.cs@.take(i as int));
        let s = string_of(front);
        s.as_str().as_bytes().len()
    }

    /// The first byte of what comes next.
    fn peek(&self) -> (r: Option<u8>)
        requires
            self.wf(),
        ensures
            r == peeked(self.cs@, self.pos as int),
    {
        if self.pos < self.cs.len() {
            Some(lead_and_width(self.cs[self.pos]).0)
        } else {
            None
        }
    }

    /// Whether a character comes next.
    fn is_next(&self, c: char) -> (r: bool)
        requires
            self.wf(),
        ensures
            r == is_at(self.cs@, self.pos as int, c),
            r ==> self.pos < usize::MAX,
    {
        self.pos < self.cs.len() && self.cs[self.pos] == c
    }

    /// Skips white space.
    fn skip_ws(&mut self)
        requires
            old(self).wf(),
        ensures
            final(self).wf(),
            final(self).moved_from(old(self)),
            final(self).pos == past_blanks(old(self).cs@, old(self).pos as int),
            final(self).pos >= old(self).pos,
    {
        while self.pos < self.cs.len() && (self.cs[self.pos] == ' ' || self.cs[self.pos] == '\t'
            || self.cs[self.pos] == '\n' || self.cs[self.pos] == '\r')
            invariant
                self.wf(),
                self.moved_from(old(self)),
                self.pos >= old(self).pos,
                past_blanks(self.cs@, self.pos as int) == past_blanks(
                    old(self).cs@,
                    old(self).pos as int,
                ),
            decreases self.cs@.len() - self.pos,
        {
            self.pos = self.pos + 1;
        }
    }

    /// Takes a character that must come next.
    fn expect(&mut self, c: char) -> (r: Result<(), JsonError>)
        requires
            old(self).wf(),
            c as u32 <= 0x7f,
        ensures
            final(self).wf(),
            final(self).moved_from(old(self)),
            if is_at(old(self).cs@, old(self).pos as int, c) {
                r is Ok && final(self).pos == old(self).pos + 1
            } else {
                r == Err::<(), JsonError>(
                    JsonError::Expected {
                        byte: (c as u32) as u8,
                        at: offset(old(self).cs@, old(self).pos as int),
                    },
                )
            },
    {
        if self.is_next(c) {
            self.pos = self.pos + 1;
            Ok(())
        } else {
            Err(JsonError::Expected { byte: (c as u32) as u8, at: self.offset(self.pos) })
        }
    }

    /// Takes a word that must come next.
    fn expect_lit(&mut self, word: Word) -> (r: Result<(), JsonError>)
        requires
            old(self).wf(),
        ensures
            final(self).wf(),
            final(self).moved_from(old(self)),
            match word_at(old(self).cs@, old(self).pos as int, word) {
                Ok(j) => r is Ok && final(self).pos == j,
                Err(e) => r == Err::<(), JsonError>(e),
            },
    {
        let lit = chars_of(word.spelling());
        let n: usize = lit.len();
        if n <= self.cs.len() - self.pos {
            let end: usize = self.pos + n;
            let mut k: usize = 0;
            while k < n
                invariant
                    k <= n == lit@.len(),
                    self.pos + n == end <= self.cs@.len(),
                    *self == *old(self),
                    forall|m: int| 0 <= m < k ==> self.cs@[self.pos + m] == lit@[m],
                    lit@ == word.text(),
                decreases n - k,
            {
                if self.cs[self.pos + k] != lit[k] {
                    assert(self.cs@.subrange(self.pos as int, end as int)[k as int] != lit@[k as int]);
                    return Err(JsonError::ExpectedWord { word, at: self.offset(self.pos) });
                }
                k += 1;
            }
            assert(self.cs@.subrange(self.pos as int, end as int) =~= lit@);
            self.pos = end;
            Ok(())
        } else {
            Err(JsonError::ExpectedWord { word, at: self.offset(self.pos) })
        }
    }

    /// The number that comes next.
    fn parse_number(&mut self) -> (r: Result<Value, JsonError>)
        requires
            old(self).wf(),
        ensures
            final(self).wf(),
            final(self).moved_from(old(self)),
            read_as(
                r,
                |v: Value| v@,
                final(self).pos,
                number_at(old(self).cs@, old(self).pos as int, old(self).numbers.readings()),
            ),
    {
        let start: usize = self.pos;
        let ghost s = self.cs@;
        if self.is_next('-') {
            self.pos = self.pos + 1;
        }
        let first: usize = self.pos;
        let mut is_float = false;
        while self.pos < self.cs.len() && (('0' <= self.cs[self.pos] && self.cs[self.pos] <= '9')
            || self.cs[self.pos] == '.' || self.cs[self.pos] == 'e' || self.cs[self.pos] == 'E'
            || self.cs[self.pos] == '+' || self.cs[self.pos] == '-')
            invariant
                self.wf(),
                self.moved_from(old(self)),
                s == self.cs@,
                first <= self.pos,
                past_numeric(s, self.pos as int) == past_numeric(s, first as int),
                !is_float == all_digits(s.subrange(first as int, self.pos as int)),
            decreases self.cs@.len() - self.pos,
        {
            let c = self.cs[self.pos];
            let ghost before = s.subrange(first as int, self.pos as int);
            let ghost after = s.subrange(first as int, self.pos + 1);
            assert(after =~= before.push(c));
            if !('0' <= c && c <= '9') {
                assert(!is_digit(after[before.len() as int]));
                is_float = true;
            } else {
                assert(is_digit(c));
                proof {
                    if is_float {
                        let k = choose|k: int|
                            0 <= k < before.len() && !is_digit(#[trigger] before[k]);
                        assert(!is_digit(after[k]));
                    }
                }
            }
            self.pos = self.pos + 1;
        }
        let literal = vstd::slice::slice_subrange(self.cs, start, self.pos);
        if is_float {
            let text = string_of(literal);
            match self.numbers.reading(text.as_str()) {
                Some(Some(bits)) => Ok(Value::Double(bits)),
                Some(None) => Err(JsonError::BadDouble),
                None => Err(
                    JsonError::Unread { start: self.offset(start), end: self.offset(self.pos) },
                ),
            }
        } else {
            match read_signed(literal) {
                Ok(n) => Ok(Value::Int(n)),
                Err(fault) => Err(JsonError::BadInteger(fault)),
            }
        }
    }

    /// What stands behind `\u`, once that is taken.
    fn parse_scalar(&mut self) -> (r: Result<u32, JsonError>)
        requires
            old(self).wf(),
        ensures
            final(self).wf(),
            final(self).moved_from(old(self)),
            read_as(r, |n: u32| n, final(self).pos, scalar_at(old(self).cs@, old(self).pos as int)),
    {
        let start: usize = self.pos;
        let ghost s = self.cs@;
        let ghost want = past_bytes(s, start as int, 4);
        let mut left: usize = 4;
        while left > 0
            invariant
                self.wf(),
                self.moved_from(old(self)),
                s == self.cs@,
                start == old(self).pos <= self.pos,
                self.pos - start + left <= 4,
                left == 4 <==> self.pos == start,
                want == past_bytes(s, self.pos as int, left as nat),
                want == past_bytes(s, start as int, 4),
            decreases left,
        {
            if self.pos >= self.cs.len() {
                return Err(JsonError::CutEscape);
            }
            let w: usize = lead_and_width(self.cs[self.pos]).1;
            if w > left {
                return Err(JsonError::SplitCharacter { index: 4 - left });
            }
            self.pos = self.pos + 1;
            left = left - w;
        }
        let end: usize = self.pos;
        let first: usize = if self.cs[start] == '+' {
            start + 1
        } else {
            start
        };
        let ghost body = s.subrange(first as int, end as int);
        let mut n: u32 = 0;
        let mut k: usize = first;
        assert(s.subrange(first as int, first as int) =~= Seq::<char>::empty());
        while k < end
            invariant
                self.wf(),
                self.moved_from(old(self)),
                s == self.cs@,
                start == old(self).pos,
                past_bytes(s, start as int, 4) == Ok::<int, JsonError>(end as int),
                first == (if s[start as int] == '+' {
                    start + 1
                } else {
                    start as int
                }),
                first <= k <= end <= s.len(),
                end - first <= 4,
                body == s.subrange(first as int, end as int),
                hex_number(s.subrange(first as int, k as int)) == Some(n as nat),
                k == first ==> n < 1,
                k == first + 1 ==> n < 0x10,
                k == first + 2 ==> n < 0x100,
                k == first + 3 ==> n < 0x1000,
                k == first + 4 ==> n < 0x1_0000,
            decreases end - k,
        {
            let c = self.cs[k];
            let d: u32 = if '0' <= c && c <= '9' {
                c as u32 - 48
            } else if 'a' <= c && c <= 'f' {
                c as u32 - 87
            } else if 'A' <= c && c <= 'F' {
                c as u32 - 55
            } else {
                proof {
                    lemma_hex_number(body, k - first);
                }
                return Err(JsonError::BadHex);
            };
            assert(s.subrange(first as int, k + 1).drop_last() =~= s.subrange(first as int, k as int));
            n = n * 16 + d;
            k += 1;
        }
        Ok(n)
    }

    /// The string that comes next.
    fn parse_string(&mut self) -> (r: Result<String, JsonError>)
        requires
            old(self).wf(),
        ensures
            final(self).wf(),
            final(self).moved_from(old(self)),
            if is_at(old(self).cs@, old(self).pos as int, '"') {
                read_as(
                    r,
                    |t: String| t@,
                    final(self).pos,
                    string_at(old(self).cs@, old(self).pos + 1, Seq::empty()),
                )
            } else {
                r == Err::<String, JsonError>(
                    JsonError::Expected {
                        byte: 0x22,
                        at: offset(old(self).cs@, old(self).pos as int),
                    },
                )
            },
    {
        let ghost s = self.cs@;
        match self.expect('"') {
            Ok(_) => {},
            Err(e) => return Err(e),
        }
        let ghost want = string_at(s, self.pos as int, Seq::empty());
        let mut out = String::new();
        loop
            invariant
                self.wf(),
                self.moved_from(old(self)),
                s == self.cs@,
                is_at(s, old(self).pos as int, '"'),
                want == string_at(s, old(self).pos + 1, Seq::empty()),
                want == string_at(s, self.pos as int, out@),
            decreases self.cs@.len() - self.pos,
        {
            if self.pos >= self.cs.len() {
                return Err(JsonError::Unterminated);
            }
            let c = self.cs[self.pos];
            if c == '"' {
                self.pos = self.pos + 1;
                return Ok(out);
            }
            if c != '\\' {
                out.push(c);
                self.pos = self.pos + 1;
                continue;
            }
            self.pos = self.pos + 1;
            if self.is_next('"') || self.is_next('\\') || self.is_next('/') {
                out.push(self.cs[self.pos]);
                self.pos = self.pos + 1;
            } else if self.is_next('n') {
                out.push('\n');
                self.pos = self.pos + 1;
            } else if self.is_next('t') {
                out.push('\t');
                self.pos = self.pos + 1;
            } else if self.is_next('r') {
                out.push('\r');
                self.pos = self.pos + 1;
            } else if self.is_next('u') {
                self.pos = self.pos + 1;
                proof {
                    lemma_past_bytes(s, self.pos as int, 4);
                }
                let n: u32 = match self.parse_scalar() {
                    Ok(n) => n,
                    Err(e) => return Err(e),
                };
                match char::from_u32(n) {
                    Some(c) => out.push(c),
                    None => {},
                }
            } else {
                return Err(JsonError::BadEscape { got: self.peek() });
            }
        }
    }

    /// The value that comes next.
    fn parse_value(&mut self) -> (r: Result<Value, JsonError>)
        requires
            old(self).wf(),
        ensures
            final(self).wf(),
            final(self).moved_from(old(self)),
            read_as(
                r,
                |v: Value| v@,
                final(self).pos,
                value_at(old(self).cs@, old(self).pos as int, old(self).numbers.readings()),
            ),
        decreases old(self).cs@.len() - old(self).pos, 1nat,
    {
        let ghost known = self.numbers.readings();
        self.skip_ws();
        if self.pos >= self.cs.len() {
            return Err(JsonError::Unexpected { got: None, at: self.offset(self.pos) });
        }
        let c = self.cs[self.pos];
        if c == '{' {
            self.parse_object()
        } else if c == '[' {
            self.parse_array()
        } else if c == '"' {
            match self.parse_string() {
                Ok(s) => Ok(Value::Str(s)),
                Err(e) => Err(e),
            }
        } else if c == 't' {
            match self.expect_lit(Word::True) {
                Ok(_) => Ok(Value::Bool(true)),
                Err(e) => Err(e),
            }
        } else if c == 'f' {
            match self.expect_lit(Word::False) {
                Ok(_) => Ok(Value::Bool(false)),
                Err(e) => Err(e),
            }
        } else if c == 'n' {
            match self.expect_lit(Word::Null) {
                Ok(_) => Ok(Value::Null),
                Err(e) => Err(e),
            }
        } else if c == '-' || ('0' <= c && c <= '9') {
            self.parse_number()
        } else {
            Err(JsonError::Unexpected { got: self.peek(), at: self.offset(self.pos) })
        }
    }

    /// The array that comes next.
    fn parse_array(&mut self) -> (r: Result<Value, JsonError>)
        requires
            old(self).wf(),
            is_at(old(self).cs@, old(self).pos as int, '['),
        ensures
            final(self).wf(),
            final(self).moved_from(old(self)),
            read_as(
                r,
                |v: Value| v@,
                final(self).pos,
                value_at(old(self).cs@, old(self).pos as int, old(self).numbers.readings()),
            ),
        decreases old(self).cs@.len() - old(self).pos, 0nat,
    {
        let ghost s = self.cs@;
        let ghost known = self.numbers.readings();
        let ghost start = self.pos as int;
        match self.expect('[') {
            Ok(_) => {},
            Err(e) => return Err(e),
        }
        let mut items: Vec<Value> = Vec::new();
        self.skip_ws();
        assert(past_blanks(s, start) == start);
        if self.is_next(']') {
            self.pos = self.pos + 1;
            assert(data(items@) =~= Seq::<Datum>::empty());
            return Ok(Value::Array(items));
        }
        assert(data(items@) =~= Seq::<Datum>::empty());
        let ghost want = items_at(s, self.pos as int, known, Seq::empty());
        loop
            invariant
                self.wf(),
                self.moved_from(old(self)),
                s == self.cs@,
                known == self.numbers.readings(),
                old(self).pos == start < self.pos,
                want == items_at(s, self.pos as int, known, data(items@)),
                value_at(s, start, known) == (match want {
                    Ok((d, m)) => Ok::<(Datum, int), JsonError>((Datum::Array(d), m)),
                    Err(e) => Err(e),
                }),
            decreases self.cs@.len() - self.pos,
        {
            proof {
                lemma_value_at(s, self.pos as int, known);
            }
            let item = match self.parse_value() {
                Ok(v) => v,
                Err(e) => return Err(e),
            };
            proof {
                lemma_data_push(items@, item);
            }
            items.push(item);
            self.skip_ws();
            if self.is_next(',') {
                self.pos = self.pos + 1;
            } else if self.is_next(']') {
                self.pos = self.pos + 1;
                return Ok(Value::Array(items));
            } else {
                return Err(JsonError::ExpectedSeparator { close: 0x5d, got: self.peek() });
            }
        }
    }

    /// The object that comes next.
    fn parse_object(&mut self) -> (r: Result<Value, JsonError>)
        requires
            old(self).wf(),
            is_at(old(self).cs@, old(self).pos as int, '{'),
        ensures
            final(self).wf(),
            final(self).moved_from(old(self)),
            read_as(
                r,
                |v: Value| v@,
                final(self).pos,
                value_at(old(self).cs@, old(self).pos as int, old(self).numbers.readings()),
            ),
        decreases old(self).cs@.len() - old(self).pos, 0nat,
    {
        let ghost s = self.cs@;
        let ghost known = self.numbers.readings();
        let ghost start = self.pos as int;
        match self.expect('{') {
            Ok(_) => {},
            Err(e) => return Err(e),
        }
        let mut pairs: Vec<(String, Value)> = Vec::new();
        self.skip_ws();
        assert(past_blanks(s, start) == start);
        if self.is_next('}') {
            self.pos = self.pos + 1;
            assert(members(pairs@) =~= Seq::<(Seq<char>, Datum)>::empty());
            return Ok(Value::Object(pairs));
        }
        assert(members(pairs@) =~= Seq::<(Seq<char>, Datum)>::empty());
        let ghost want = members_at(s, self.pos as int, known, Seq::empty());
        loop
            invariant
                self.wf(),
                self.moved_from(old(self)),
                s == self.cs@,
                known == self.numbers.readings(),
                old(self).pos == start < self.pos,
                want == members_at(s, self.pos as int, known, members(pairs@)),
                value_at(s, start, known) == (match want {
                    Ok((d, m)) => Ok::<(Datum, int), JsonError>((Datum::Object(d), m)),
                    Err(e) => Err(e),
                }),
            decreases self.cs@.len() - self.pos,
        {
            self.skip_ws();
            proof {
                if self.pos < s.len() {
                    lemma_string_at(s, self.pos + 1, Seq::empty());
                }
            }
            let key = match self.parse_string() {
                Ok(k) => k,
                Err(e) => return Err(e),
            };
            self.skip_ws();
            match self.expect(':') {
                Ok(_) => {},
                Err(e) => return Err(e),
            }
            proof {
                lemma_value_at(s, self.pos as int, known);
            }
            let item = match self.parse_value() {
                Ok(v) => v,
                Err(e) => return Err(e),
            };
            proof {
                lemma_members_push(pairs@, key, item);
            }
            pairs.push((key, item));
            self.skip_ws();
            if self.is_next(',') {
                self.pos = self.pos + 1;
            } else if self.is_next('}') {
                self.pos = self.pos + 1;
                return Ok(Value::Object(pairs));
            } else {
                return Err(JsonError::ExpectedSeparator { close: 0x7d, got: self.peek() });
            }
        }
    }
}

/// One character that is no hexadecimal digit spoils the number.
proof fn lemma_hex_number(s: Seq<char>, k: int)
    requires
        0 <= k < s.len(),
        hex_value(s[k]) is None,
    ensures
        hex_number(s) is None,
    decreases s.len(),
{
    if k < s.len() - 1 {
        lemma_hex_number(s.drop_last(), k);
    }
}

/// The value that a text holds. What stands behind the value does not matter.
pub open spec fn text_value(s: Seq<char>, readings: Map<Seq<char>, Option<u64>>) -> Result<
    Datum,
    JsonError,
> {
    match value_at(s, 0, readings) {
        Ok((d, _)) => Ok(d),
        Err(e) => Err(e),
    }
}

/// What a result stands for.
pub open spec fn outcome(r: Result<Value, JsonError>) -> Result<Datum, JsonError> {
    match r {
        Ok(v) => Ok(v@),
        Err(e) => Err(e),
    }
}

/// Decodes a text of any kind.
pub fn try_decode(input: &str, numbers: &Numbers) -> (r: Result<Value, JsonError>)
    ensures
        outcome(r) == text_value(input@, numbers.readings()),
{
    let cs = chars_of(input);
    let mut p = Parser { cs: cs.as_slice(), pos: 0, numbers };
    p.parse_value()
}

/// Decodes a text in which at least four bytes stand behind every `\u`.
pub fn decode(input: &str, numbers: &Numbers) -> (r: Result<Value, JsonError>)
    requires
        text_value(input@, numbers.readings()) != Err::<Datum, JsonError>(JsonError::CutEscape),
    ensures
        outcome(r) == text_value(input@, numbers.readings()),
{
    try_decode(input, numbers)
}

/// Whether a literal has the shape of a double: a sign or a digit at its front,
/// and then what a number is made of, not of digits alone.
pub open spec fn is_double_literal(t: Seq<char>) -> bool {
    let start: int = if t.len() > 0 && t[0] == '-' {
        1
    } else {
        0
    };
    &&& t.len() > 0
    &&& t[0] == '-' || is_digit(t[0])
    &&& forall|k: int| start <= k < t.len() ==> is_numeric(#[trigger] t[k])
    &&& !all_digits(t.skip(start))
}

/// Whether every double in a value is printed as a double's literal that reads
/// as that double again.
pub open spec fn reads_back(
    v: Datum,
    readings: Map<Seq<char>, Option<u64>>,
    notations: Map<u64, Seq<char>>,
) -> bool
    decreases v,
{
    match v {
        Datum::Double(d) => {
            &&& notations.contains_key(d)
            &&& is_double_literal(notations[d])
            &&& readings.contains_pair(notations[d], Some(d))
        },
        Datum::Array(items) => forall|k: int|
            0 <= k < items.len() ==> reads_back(#[trigger] items[k], readings, notations),
        Datum::Object(pairs) => forall|k: int|
            0 <= k < pairs.len() ==> reads_back((#[trigger] pairs[k]).1, readings, notations),
        _ => true,
    }
}

/// An ASCII character takes one byte.
proof fn lemma_ascii_width(c: char)
    requires
        c as u32 <= 0x7f,
    ensures
        char_bytes(c).len() == 1,
{
    lemma_char_bytes(c);
}

/// An escaped character is read back.
proof fn lemma_escaped_reads(s: Seq<char>, i: int, c: char, read: Seq<char>)
    requires
        stands(s, i, escaped(c)),
    ensures
        string_at(s, i, read) == string_at(s, i + escaped(c).len(), read.push(c)),
{
    lemma_stands_elements(s, i, escaped(c));
    let e = escaped(c);
    assert(s[i] == e[0]);
    if e.len() == 2 {
        assert(s[i + 1] == e[1]);
    } else if e.len() == 6 {
        assert(s[i + 1] == e[1] && s[i + 2] == e[2] && s[i + 3] == e[3] && s[i + 4] == e[4]
            && s[i + 5] == e[5]);
        let hi = (c as u32) as nat / 16;
        let lo = (c as u32) as nat % 16;
        assert(hi <= 1 && lo < 16);
        lemma_ascii_width(s[i + 2]);
        lemma_ascii_width(s[i + 3]);
        lemma_ascii_width(s[i + 4]);
        lemma_ascii_width(s[i + 5]);
        assert(past_bytes(s, i + 6, 0) == Ok::<int, JsonError>(i + 6));
        assert(past_bytes(s, i + 5, 1) == past_bytes(s, i + 6, 0));
        assert(past_bytes(s, i + 4, 2) == past_bytes(s, i + 5, 1));
        assert(past_bytes(s, i + 3, 3) == past_bytes(s, i + 4, 2));
        assert(past_bytes(s, i + 2, 4) == past_bytes(s, i + 3, 3));
        let body = s.subrange(i + 2, i + 6);
        let b0 = Seq::<char>::empty();
        let b1 = b0.push('0');
        let b2 = b1.push('0');
        let b3 = b2.push(hex_char(hi));
        let b4 = b3.push(hex_char(lo));
        assert(body =~= b4);
        assert(b4.drop_last() =~= b3);
        assert(b3.drop_last() =~= b2);
        assert(b2.drop_last() =~= b1);
        assert(b1.drop_last() =~= b0);
        assert(hex_number(b0) == Some(0nat));
        assert(hex_number(b1) == Some(0nat));
        assert(hex_number(b2) == Some(0nat));
        assert(hex_value(hex_char(hi)) == Some(hi));
        assert(hex_value(hex_char(lo)) == Some(lo));
        assert(hex_number(b3) == Some(hi));
        assert(hex_number(b4) == Some(16 * hi + lo));
        assert(16 * hi + lo == c as u32);
        assert(scalar_at(s, i + 2) == Ok::<(u32, int), JsonError>((c as u32, i + 6)));
        assert(with_scalar(read, c as u32) == read.push(c));
    }
}

/// An escaped text, and the quote behind it, are read back as the text.
proof fn lemma_string_reads(s: Seq<char>, i: int, t: Seq<char>, read: Seq<char>)
    requires
        stands(s, i, escape(t) + seq!['"']),
    ensures
        string_at(s, i, read) == Ok::<(Seq<char>, int), JsonError>(
            (read + t, i + escape(t).len() + 1),
        ),
    decreases t.len(),
{
    if t.len() == 0 {
        assert(escape(t) + seq!['"'] =~= seq!['"']);
        lemma_stands_elements(s, i, seq!['"']);
        assert(s[i + 0] == seq!['"'][0]);
        assert(read + t =~= read);
    } else {
        let rest = escape(t.skip(1)) + seq!['"'];
        assert(escape(t) + seq!['"'] =~= escaped(t[0]) + rest);
        lemma_stands_parts(s, i, escaped(t[0]), rest);
        lemma_escaped_reads(s, i, t[0], read);
        lemma_string_reads(s, i + escaped(t[0]).len(), t.skip(1), read.push(t[0]));
        assert(read.push(t[0]) + t.skip(1) =~= read + t);
    }
}

/// A number ends where what it is made of ends.
proof fn lemma_numeric_run(s: Seq<char>, i: int, end: int)
    requires
        0 <= i <= end <= s.len(),
        forall|k: int| i <= k < end ==> is_numeric(#[trigger] s[k]),
        end < s.len() ==> !is_numeric(s[end]),
    ensures
        past_numeric(s, i) == end,
    decreases end - i,
{
    if i < end {
        lemma_numeric_run(s, i + 1, end);
    }
}

/// Whether a value is read at a position, up to another position.
#[verifier::opaque]
pub open spec fn reads_value(
    s: Seq<char>,
    i: int,
    readings: Map<Seq<char>, Option<u64>>,
    v: Datum,
    j: int,
) -> bool {
    value_at(s, i, readings) == Ok::<(Datum, int), JsonError>((v, j))
}

/// Whether the rest of an array is read behind other elements, up to a position.
#[verifier::opaque]
spec fn reads_items(
    s: Seq<char>,
    i: int,
    readings: Map<Seq<char>, Option<u64>>,
    items: Seq<Datum>,
    read: Seq<Datum>,
    j: int,
) -> bool {
    items_at(s, i, readings, read) == Ok::<(Seq<Datum>, int), JsonError>((read + items, j))
}

/// Whether the rest of an object is read behind other members, up to a position.
#[verifier::opaque]
spec fn reads_members(
    s: Seq<char>,
    i: int,
    readings: Map<Seq<char>, Option<u64>>,
    pairs: Seq<(Seq<char>, Datum)>,
    read: Seq<(Seq<char>, Datum)>,
    j: int,
) -> bool {
    members_at(s, i, readings, read) == Ok::<(Seq<(Seq<char>, Datum)>, int), JsonError>(
        (read + pairs, j),
    )
}

/// An integer is read back.
proof fn lemma_int_reads(s: Seq<char>, i: int, readings: Map<Seq<char>, Option<u64>>, n: i64)
    requires
        stands(s, i, decimal(n as int)),
        i + decimal(n as int).len() < s.len() ==> !is_numeric(s[i + decimal(n as int).len()]),
    ensures
        reads_value(s, i, readings, Datum::Int(n), i + decimal(n as int).len()),
{
    reveal(reads_value);
    let t = decimal(n as int);
    let end = i + t.len();
    lemma_stands_elements(s, i, t);
    lemma_signed_read(n);
    let magnitude = (if n < 0 {
        -n
    } else {
        n as int
    }) as nat;
    lemma_digits(magnitude);
    let start = if n < 0 {
        i + 1
    } else {
        i
    };
    assert(s[i] == t[0]);
    assert(n >= 0 ==> is_digit(digits(magnitude)[0]));
    assert forall|k: int| start <= k < end implies is_digit(#[trigger] s[k]) by {
        assert(s[i + (k - i)] == t[k - i]);
        assert(is_digit(digits(magnitude)[k - start]));
    }
    lemma_numeric_run(s, start, end);
    assert(s.subrange(start, end) =~= s.subrange(i, end).skip(start - i));
    assert(t.skip(start - i) =~= digits(magnitude));
}

/// A double is read back, where its literal reads as that double.
proof fn lemma_double_reads(
    s: Seq<char>,
    i: int,
    readings: Map<Seq<char>, Option<u64>>,
    t: Seq<char>,
    bits: u64,
)
    requires
        is_double_literal(t),
        readings.contains_pair(t, Some(bits)),
        stands(s, i, t),
        i + t.len() < s.len() ==> !is_numeric(s[i + t.len()]),
    ensures
        reads_value(s, i, readings, Datum::Double(bits), i + t.len()),
{
    reveal(reads_value);
    let end = i + t.len();
    let start: int = if t[0] == '-' {
        1
    } else {
        0
    };
    lemma_stands_elements(s, i, t);
    assert(s[i] == t[0]);
    assert forall|k: int| i + start <= k < end implies is_numeric(#[trigger] s[k]) by {
        assert(s[i + (k - i)] == t[k - i]);
    }
    lemma_numeric_run(s, i + start, end);
    assert(s.subrange(i + start, end) =~= t.skip(start));
}

/// What is neither an array nor an object is read back.
proof fn lemma_plain_reads(
    s: Seq<char>,
    i: int,
    readings: Map<Seq<char>, Option<u64>>,
    notations: Map<u64, Seq<char>>,
    v: Datum,
)
    requires
        !(v is Array),
        !(v is Object),
        reads_back(v, readings, notations),
        stands(s, i, value_text(v, notations)),
        i + value_text(v, notations).len() < s.len() ==> !is_numeric(
            s[i + value_text(v, notations).len()],
        ),
    ensures
        reads_value(s, i, readings, v, i + value_text(v, notations).len()),
{
    let t = value_text(v, notations);
    match v {
        Datum::Int(n) => {
            lemma_int_reads(s, i, readings, n);
        },
        Datum::Double(d) => {
            lemma_double_reads(s, i, readings, t, d);
        },
        Datum::Str(text) => {
            reveal(reads_value);
            assert(t =~= seq!['"'] + (escape(text) + seq!['"']));
            lemma_stands_parts(s, i, seq!['"'], escape(text) + seq!['"']);
            lemma_stands_elements(s, i, seq!['"']);
            assert(s[i + 0] == seq!['"'][0]);
            lemma_string_reads(s, i + 1, text, Seq::empty());
            assert(Seq::<char>::empty() + text =~= text);
        },
        _ => {
            reveal(reads_value);
            reveal_strlit("true");
            reveal_strlit("false");
            reveal_strlit("null");
            lemma_stands_elements(s, i, t);
            assert(s[i + 0] == t[0]);
            assert("true"@ =~= seq!['t', 'r', 'u', 'e']);
            assert("false"@ =~= seq!['f', 'a', 'l', 's', 'e']);
            assert("null"@ =~= seq!['n', 'u', 'l', 'l']);
        },
    }
}

/// A value's text starts with a visible character of ASCII that is no closing
/// bracket.
pub proof fn lemma_value_text_first(
    v: Datum,
    readings: Map<Seq<char>, Option<u64>>,
    notations: Map<u64, Seq<char>>,
)
    requires
        reads_back(v, readings, notations),
    ensures
        value_text(v, notations).len() > 0,
        !is_blank(value_text(v, notations)[0]),
        value_text(v, notations)[0] != ']',
        '!' <= value_text(v, notations)[0] <= '~',
{
    match v {
        Datum::Int(n) => {
            let magnitude = (if n < 0 {
                -n
            } else {
                n as int
            }) as nat;
            lemma_digits(magnitude);
            assert(is_digit(digits(magnitude)[0]));
        },
        _ => {},
    }
}

/// An array is read where its brackets and its elements are.
proof fn lemma_array_reads(
    s: Seq<char>,
    i: int,
    readings: Map<Seq<char>, Option<u64>>,
    items: Seq<Datum>,
    j: int,
)
    requires
        is_at(s, i, '['),
        items.len() == 0 ==> is_at(s, i + 1, ']') && j == i + 2,
        items.len() > 0 ==> {
            &&& i + 1 < s.len()
            &&& !is_blank(s[i + 1])
            &&& s[i + 1] != ']'
            &&& reads_items(s, i + 1, readings, items, Seq::empty(), j)
        },
    ensures
        reads_value(s, i, readings, Datum::Array(items), j),
{
    reveal(reads_value);
    reveal(reads_items);
    assert(past_blanks(s, i) == i);
    assert(past_blanks(s, i + 1) == i + 1);
    if items.len() == 0 {
        assert(items =~= Seq::<Datum>::empty());
    } else {
        assert(Seq::<Datum>::empty() + items =~= items);
    }
}

/// An object is read where its brackets and its members are.
proof fn lemma_object_reads(
    s: Seq<char>,
    i: int,
    readings: Map<Seq<char>, Option<u64>>,
    pairs: Seq<(Seq<char>, Datum)>,
    j: int,
)
    requires
        is_at(s, i, '{'),
        pairs.len() == 0 ==> is_at(s, i + 1, '}') && j == i + 2,
        pairs.len() > 0 ==> is_at(s, i + 1, '"') && reads_members(
            s,
            i + 1,
            readings,
            pairs,
            Seq::empty(),
            j,
        ),
    ensures
        reads_value(s, i, readings, Datum::Object(pairs), j),
{
    reveal(reads_value);
    reveal(reads_members);
    assert(past_blanks(s, i) == i);
    assert(past_blanks(s, i + 1) == i + 1);
    if pairs.len() == 0 {
        assert(pairs =~= Seq::<(Seq<char>, Datum)>::empty());
    } else {
        assert(Seq::<(Seq<char>, Datum)>::empty() + pairs =~= pairs);
    }
}

/// The last element is read, or one and then the rest.
proof fn lemma_items_read_step(
    s: Seq<char>,
    i: int,
    readings: Map<Seq<char>, Option<u64>>,
    items: Seq<Datum>,
    read: Seq<Datum>,
    k: int,
    j: int,
)
    requires
        items.len() > 0,
        i < k,
        reads_value(s, i, readings, items[0], k),
        items.len() == 1 ==> is_at(s, k, ']') && j == k + 1,
        items.len() > 1 ==> is_at(s, k, ',') && reads_items(
            s,
            k + 1,
            readings,
            items.drop_first(),
            read.push(items[0]),
            j,
        ),
    ensures
        reads_items(s, i, readings, items, read, j),
{
    reveal(reads_value);
    reveal(reads_items);
    assert(past_blanks(s, k) == k);
    if items.len() == 1 {
        assert(read + items =~= read.push(items[0]));
    } else {
        assert(read.push(items[0]) + items.drop_first() =~= read + items);
    }
}

/// The last member is read, or one and then the rest.
proof fn lemma_members_read_step(
    s: Seq<char>,
    i: int,
    readings: Map<Seq<char>, Option<u64>>,
    pairs: Seq<(Seq<char>, Datum)>,
    read: Seq<(Seq<char>, Datum)>,
    k: int,
    j: int,
)
    requires
        pairs.len() > 0,
        0 <= i,
        stands(s, i, quoted(pairs[0].0) + seq![':']),
        i + quoted(pairs[0].0).len() + 1 < k,
        reads_value(s, i + quoted(pairs[0].0).len() + 1, readings, pairs[0].1, k),
        pairs.len() == 1 ==> is_at(s, k, '}') && j == k + 1,
        pairs.len() > 1 ==> is_at(s, k, ',') && reads_members(
            s,
            k + 1,
            readings,
            pairs.drop_first(),
            read.push(pairs[0]),
            j,
        ),
    ensures
        reads_members(s, i, readings, pairs, read, j),
{
    reveal(reads_value);
    reveal(reads_members);
    let key = pairs[0].0;
    let quote = seq!['"'];
    lemma_stands_parts(s, i, quoted(key), seq![':']);
    lemma_stands_elements(s, i + quoted(key).len(), seq![':']);
    assert(s[i + quoted(key).len() + 0] == seq![':'][0]);
    assert(quoted(key) =~= quote + (escape(key) + quote));
    lemma_stands_parts(s, i, quote, escape(key) + quote);
    lemma_stands_elements(s, i, quote);
    assert(s[i + 0] == quote[0]);
    lemma_string_reads(s, i + 1, key, Seq::empty());
    assert(Seq::<char>::empty() + key =~= key);
    let c = i + quoted(key).len();
    assert(past_blanks(s, i) == i);
    assert(past_blanks(s, c) == c);
    assert(past_blanks(s, k) == k);
    assert((key, pairs[0].1) == pairs[0]);
    if pairs.len() == 1 {
        assert(read + pairs =~= read.push(pairs[0]));
    } else {
        assert(read.push(pairs[0]) + pairs.drop_first() =~= read + pairs);
    }
}

/// A value's text is read back as the value, wherever it stands before
/// something that no number is made of.
pub proof fn lemma_value_reads(
    s: Seq<char>,
    i: int,
    readings: Map<Seq<char>, Option<u64>>,
    notations: Map<u64, Seq<char>>,
    v: Datum,
)
    requires
        reads_back(v, readings, notations),
        stands(s, i, value_text(v, notations)),
        i + value_text(v, notations).len() < s.len() ==> !is_numeric(
            s[i + value_text(v, notations).len()],
        ),
    ensures
        reads_value(s, i, readings, v, i + value_text(v, notations).len()),
    decreases v, 0nat,
{
    match v {
        Datum::Array(items) => {
            let rest = items_text(items, notations) + seq![']'];
            assert(value_text(v, notations) =~= seq!['['] + rest);
            lemma_stands_parts(s, i, seq!['['], rest);
            lemma_stands_elements(s, i, seq!['[']);
            assert(s[i + 0] == seq!['['][0]);
            lemma_stands_elements(s, i + 1, rest);
            assert(s[i + 1 + 0] == rest[0]);
            if items.len() > 0 {
                lemma_value_text_first(items[0], readings, notations);
                assert(rest[0] == value_text(items[0], notations)[0]);
                lemma_items_read(s, i + 1, readings, notations, items, Seq::empty());
            }
            lemma_array_reads(s, i, readings, items, i + value_text(v, notations).len());
        },
        Datum::Object(pairs) => {
            let rest = members_text(pairs, notations) + seq!['}'];
            assert(value_text(v, notations) =~= seq!['{'] + rest);
            lemma_stands_parts(s, i, seq!['{'], rest);
            lemma_stands_elements(s, i, seq!['{']);
            assert(s[i + 0] == seq!['{'][0]);
            lemma_stands_elements(s, i + 1, rest);
            assert(s[i + 1 + 0] == rest[0]);
            if pairs.len() > 0 {
                let key = quoted(pairs[0].0);
                let first = member_text(pairs[0], notations);
                assert(first == key + seq![':'] + value_text(pairs[0].1, notations));
                assert(first[0] == key[0]);
                assert(rest[0] == first[0]);
                lemma_members_read(s, i + 1, readings, notations, pairs, Seq::empty());
            }
            lemma_object_reads(s, i, readings, pairs, i + value_text(v, notations).len());
        },
        _ => {
            lemma_plain_reads(s, i, readings, notations, v);
        },
    }
}

/// The texts of an array's elements are read back as the elements.
proof fn lemma_items_read(
    s: Seq<char>,
    i: int,
    readings: Map<Seq<char>, Option<u64>>,
    notations: Map<u64, Seq<char>>,
    items: Seq<Datum>,
    read: Seq<Datum>,
)
    requires
        items.len() > 0,
        forall|k: int| 0 <= k < items.len() ==> reads_back(#[trigger] items[k], readings, notations),
        stands(s, i, items_text(items, notations) + seq![']']),
    ensures
        reads_items(
            s,
            i,
            readings,
            items,
            read,
            i + items_text(items, notations).len() + 1,
        ),
    decreases items, 1nat,
{
    let first = value_text(items[0], notations);
    let k = i + first.len();
    let j = i + items_text(items, notations).len() + 1;
    lemma_value_text_first(items[0], readings, notations);
    if items.len() == 1 {
        lemma_stands_parts(s, i, first, seq![']']);
        lemma_stands_elements(s, k, seq![']']);
        assert(s[k + 0] == seq![']'][0]);
    } else {
        let rest = items_text(items.drop_first(), notations) + seq![']'];
        assert(items_text(items, notations) + seq![']'] =~= first + (seq![','] + rest));
        lemma_stands_parts(s, i, first, seq![','] + rest);
        lemma_stands_parts(s, k, seq![','], rest);
        lemma_stands_elements(s, k, seq![',']);
        assert(s[k + 0] == seq![','][0]);
        assert(decreases_to!(items => items.drop_first()));
        lemma_items_read(
            s,
            k + 1,
            readings,
            notations,
            items.drop_first(),
            read.push(items[0]),
        );
    }
    lemma_value_reads(s, i, readings, notations, items[0]);
    lemma_items_read_step(s, i, readings, items, read, k, j);
}

/// The texts of an object's members are read back as the members.
proof fn lemma_members_read(
    s: Seq<char>,
    i: int,
    readings: Map<Seq<char>, Option<u64>>,
    notations: Map<u64, Seq<char>>,
    pairs: Seq<(Seq<char>, Datum)>,
    read: Seq<(Seq<char>, Datum)>,
)
    requires
        pairs.len() > 0,
        forall|k: int|
            0 <= k < pairs.len() ==> reads_back((#[trigger] pairs[k]).1, readings, notations),
        stands(s, i, members_text(pairs, notations) + seq!['}']),
    ensures
        reads_members(
            s,
            i,
            readings,
            pairs,
            read,
            i + members_text(pairs, notations).len() + 1,
        ),
    decreases pairs, 1nat,
{
    let key = quoted(pairs[0].0) + seq![':'];
    let val = value_text(pairs[0].1, notations);
    let first = member_text(pairs[0], notations);
    let k = i + first.len();
    let j = i + members_text(pairs, notations).len() + 1;
    assert(first =~= key + val);
    lemma_value_text_first(pairs[0].1, readings, notations);
    lemma_stands_elements(s, i, members_text(pairs, notations) + seq!['}']);
    if pairs.len() == 1 {
        lemma_stands_parts(s, i, first, seq!['}']);
        lemma_stands_elements(s, k, seq!['}']);
        assert(s[k + 0] == seq!['}'][0]);
    } else {
        let rest = members_text(pairs.drop_first(), notations) + seq!['}'];
        assert(members_text(pairs, notations) + seq!['}'] =~= first + (seq![','] + rest));
        lemma_stands_parts(s, i, first, seq![','] + rest);
        lemma_stands_parts(s, k, seq![','], rest);
        lemma_stands_elements(s, k, seq![',']);
        assert(s[k + 0] == seq![','][0]);
        assert(decreases_to!(pairs => pairs.drop_first()));
        lemma_members_read(
            s,
            k + 1,
            readings,
            notations,
            pairs.drop_first(),
            read.push(pairs[0]),
        );
    }
    lemma_stands_parts(s, i, key, val);
    assert(decreases_to!(pairs => pairs[0]));
    assert(decreases_to!(pairs[0] => pairs[0].1));
    lemma_value_reads(s, i + key.len(), readings, notations, pairs[0].1);
    lemma_members_read_step(s, i, readings, pairs, read, k, j);
}

/// Decoding an encoded value gives the value back, where its doubles are printed
/// as literals that read as the same doubles; and so it does with white space
/// behind it.
pub proof fn law_round_trip(
    v: Datum,
    readings: Map<Seq<char>, Option<u64>>,
    notations: Map<u64, Seq<char>>,
    behind: Seq<char>,
)
    requires
        reads_back(v, readings, notations),
        behind.len() > 0 ==> is_blank(behind[0]),
    ensures
        text_value(value_text(v, notations) + behind, readings) == Ok::<Datum, JsonError>(v),
{
    let t = value_text(v, notations);
    let s = t + behind;
    assert(stands(s, 0, t)) by {
        reveal(stands);
        assert(s.subrange(0, t.len() as int) =~= t);
    }
    reveal(reads_value);
    assert(t.len() < s.len() ==> s[t.len() as int] == behind[0]);
    lemma_value_reads(s, 0, readings, notations, v);
}

/// Whether a text holds no control character: neither a newline nor any other
/// character below the space.
pub open spec fn without_controls(s: Seq<char>) -> bool {
    forall|k: int| 0 <= k < s.len() ==> (#[trigger] s[k]) >= ' '
}

/// Whether every double in a value is printed without control characters.
pub open spec fn printed_plainly(v: Datum, notations: Map<u64, Seq<char>>) -> bool
    decreases v,
{
    match v {
        Datum::Double(d) => without_controls(notations[d]),
        Datum::Array(items) => forall|k: int|
            0 <= k < items.len() ==> printed_plainly(#[trigger] items[k], notations),
        Datum::Object(pairs) => forall|k: int|
            0 <= k < pairs.len() ==> printed_plainly((#[trigger] pairs[k]).1, notations),
        _ => true,
    }
}

/// Two texts without control characters make one without.
proof fn lemma_plain_concat(a: Seq<char>, b: Seq<char>)
    requires
        without_controls(a),
        without_controls(b),
    ensures
        without_controls(a + b),
{
    assert forall|k: int| 0 <= k < (a + b).len() implies (#[trigger] (a + b)[k]) >= ' ' by {
        if k < a.len() {
            assert((a + b)[k] == a[k]);
        } else {
            assert((a + b)[k] == b[k - a.len()]);
        }
    }
}

/// A character is written without control characters.
proof fn lemma_escaped_plain(c: char)
    ensures
        without_controls(escaped(c)),
{
    let n = (c as u32) as nat;
    let e = escaped(c);
    if c != '"' && c != '\\' && c != '\n' && c != '\r' && c != '\t' && n < 0x20 {
        assert(hex_char(n / 16) >= ' ');
        assert(hex_char(n % 16) >= ' ');
        assert(e[0] == '\\' && e[1] == 'u' && e[2] == '0' && e[3] == '0');
        assert(e[4] == hex_char(n / 16) && e[5] == hex_char(n % 16));
    }
}

/// A string is written without control characters.
proof fn lemma_escape_plain(s: Seq<char>)
    ensures
        without_controls(escape(s)),
    decreases s.len(),
{
    if s.len() > 0 {
        lemma_escape_plain(s.skip(1));
        lemma_escaped_plain(s[0]);
        lemma_plain_concat(escaped(s[0]), escape(s.skip(1)));
    }
}

/// A string with its quotes is written without control characters.
proof fn lemma_quoted_plain(s: Seq<char>)
    ensures
        without_controls(quoted(s)),
{
    lemma_escape_plain(s);
    lemma_plain_concat(seq!['"'], escape(s));
    lemma_plain_concat(seq!['"'] + escape(s), seq!['"']);
}

/// The text of an integer has no control characters, and ends with a digit.
proof fn lemma_decimal_plain(n: int)
    ensures
        without_controls(decimal(n)),
        decimal(n).len() > 0,
        is_digit(decimal(n).last()),
{
    let magnitude = (if n < 0 {
        -n
    } else {
        n
    }) as nat;
    lemma_digits(magnitude);
    let d = digits(magnitude);
    assert forall|k: int| 0 <= k < d.len() implies (#[trigger] d[k]) >= ' ' by {
        assert(is_digit(d[k]));
    }
    assert(is_digit(d[d.len() - 1]));
    if n < 0 {
        lemma_plain_concat(seq!['-'], d);
        assert((seq!['-'] + d).last() == d.last());
    }
}

/// A value is written without control characters, whatever its strings hold: on one
/// line in particular. Its doubles must be printed so.
pub proof fn law_no_control_characters(v: Datum, notations: Map<u64, Seq<char>>)
    requires
        printed_plainly(v, notations),
    ensures
        without_controls(value_text(v, notations)),
    decreases v, 0nat,
{
    match v {
        Datum::Int(n) => lemma_decimal_plain(n as int),
        Datum::Str(s) => lemma_quoted_plain(s),
        Datum::Array(items) => {
            lemma_items_plain(items, notations);
            lemma_plain_concat(seq!['['], items_text(items, notations));
            lemma_plain_concat(seq!['['] + items_text(items, notations), seq![']']);
        },
        Datum::Object(pairs) => {
            lemma_members_plain(pairs, notations);
            lemma_plain_concat(seq!['{'], members_text(pairs, notations));
            lemma_plain_concat(seq!['{'] + members_text(pairs, notations), seq!['}']);
        },
        _ => {},
    }
}

proof fn lemma_items_plain(items: Seq<Datum>, notations: Map<u64, Seq<char>>)
    requires
        forall|k: int| 0 <= k < items.len() ==> printed_plainly(#[trigger] items[k], notations),
    ensures
        without_controls(items_text(items, notations)),
    decreases items, 1nat,
{
    if items.len() > 0 {
        law_no_control_characters(items[0], notations);
        if items.len() > 1 {
            let first = value_text(items[0], notations);
            let rest = items_text(items.drop_first(), notations);
            assert(decreases_to!(items => items.drop_first()));
            lemma_items_plain(items.drop_first(), notations);
            lemma_plain_concat(first, seq![',']);
            lemma_plain_concat(first + seq![','], rest);
        }
    }
}

proof fn lemma_members_plain(pairs: Seq<(Seq<char>, Datum)>, notations: Map<u64, Seq<char>>)
    requires
        forall|k: int| 0 <= k < pairs.len() ==> printed_plainly((#[trigger] pairs[k]).1, notations),
    ensures
        without_controls(members_text(pairs, notations)),
    decreases pairs, 1nat,
{
    if pairs.len() > 0 {
        assert(decreases_to!(pairs => pairs[0]));
        assert(decreases_to!(pairs[0] => pairs[0].1));
        law_no_control_characters(pairs[0].1, notations);
        lemma_quoted_plain(pairs[0].0);
        let key = quoted(pairs[0].0);
        let first = member_text(pairs[0], notations);
        lemma_plain_concat(key, seq![':']);
        lemma_plain_concat(key + seq![':'], value_text(pairs[0].1, notations));
        assert(first == key + seq![':'] + value_text(pairs[0].1, notations));
        if pairs.len() > 1 {
            let rest = members_text(pairs.drop_first(), notations);
            assert(decreases_to!(pairs => pairs.drop_first()));
            lemma_members_plain(pairs.drop_first(), notations);
            lemma_plain_concat(first, seq![',']);
            lemma_plain_concat(first + seq![','], rest);
        }
    }
}

/// Doubles that are printed as literals are printed without control characters.
proof fn lemma_literals_plain(
    v: Datum,
    readings: Map<Seq<char>, Option<u64>>,
    notations: Map<u64, Seq<char>>,
)
    requires
        reads_back(v, readings, notations),
    ensures
        printed_plainly(v, notations),
    decreases v,
{
    match v {
        Datum::Double(d) => {
            let t = notations[d];
            assert forall|k: int| 0 <= k < t.len() implies (#[trigger] t[k]) >= ' ' by {}
        },
        Datum::Array(items) => {
            assert forall|k: int| 0 <= k < items.len() implies printed_plainly(
                #[trigger] items[k],
                notations,
            ) by {
                lemma_literals_plain(items[k], readings, notations);
            }
        },
        Datum::Object(pairs) => {
            assert forall|k: int| 0 <= k < pairs.len() implies printed_plainly(
                (#[trigger] pairs[k]).1,
                notations,
            ) by {
                assert(decreases_to!(pairs => pairs[k]));
                assert(decreases_to!(pairs[k] => pairs[k].1));
                lemma_literals_plain(pairs[k].1, readings, notations);
            }
        },
        _ => {},
    }
}

/// The text of a value has no control characters, and ends with a visible character
/// of ASCII.
pub proof fn lemma_value_line(
    v: Datum,
    readings: Map<Seq<char>, Option<u64>>,
    notations: Map<u64, Seq<char>>,
)
    requires
        reads_back(v, readings, notations),
    ensures
        without_controls(value_text(v, notations)),
        value_text(v, notations).len() > 0,
        '!' <= value_text(v, notations).last() <= '~',
{
    let t = value_text(v, notations);
    lemma_literals_plain(v, readings, notations);
    law_no_control_characters(v, notations);
    match v {
        Datum::Int(n) => lemma_decimal_plain(n as int),
        Datum::Double(_) => {
            assert(t.last() == t[t.len() - 1]);
        },
        Datum::Str(_) => {
            assert(t.last() == '"');
        },
        Datum::Array(_) => {
            assert(t.last() == ']');
        },
        Datum::Object(_) => {
            assert(t.last() == '}');
        },
        _ => {},
    }
}

/// Escaping goes part by part.
proof fn lemma_escape_push(s: Seq<char>, c: char)
    ensures
        escape(s.push(c)) == escape(s) + escaped(c),
    decreases s.len(),
{
    let all = s.push(c);
    if s.len() == 0 {
        assert(all.skip(1) =~= Seq::<char>::empty());
        assert(escape(all.skip(1)) =~= Seq::<char>::empty());
        assert(escape(all) =~= escaped(c));
    } else {
        assert(all.skip(1) =~= s.skip(1).push(c));
        lemma_escape_push(s.skip(1), c);
        assert(escape(all) =~= escape(s) + escaped(c));
    }
}

/// A string is printed between quotes, character by character: a quote and a backslash
/// behind a backslash, line feeds, returns and tabulators as their letters behind one,
/// other characters below the space by their number in four hexadecimal digits, and all
/// others as they are.
pub proof fn law_strings_are_quoted(s: Seq<char>, c: char, notations: Map<u64, Seq<char>>)
    ensures
        ({
            let before = value_text(Datum::Str(s), notations);
            let after = value_text(Datum::Str(s.push(c)), notations);
            let front = before.drop_last();
            let piece = after.subrange(front.len() as int, after.len() - 1);
            &&& value_text(Datum::Str(Seq::empty()), notations) == seq!['"', '"']
            &&& before.last() == '"'
            &&& after == front + piece + seq!['"']
            &&& c == '"' ==> piece == seq!['\\', '"']
            &&& c == '\\' ==> piece == seq!['\\', '\\']
            &&& c == '\n' ==> piece == seq!['\\', 'n']
            &&& c == '\r' ==> piece == seq!['\\', 'r']
            &&& c == '\t' ==> piece == seq!['\\', 't']
            &&& c < ' ' && c != '\n' && c != '\r' && c != '\t' ==> piece.len() == 6 && piece.take(4)
                == seq!['\\', 'u', '0', '0'] && is_hex(piece[4], (c as nat) / 16) && is_hex(
                piece[5],
                (c as nat) % 16,
            )
            &&& c >= ' ' && c != '"' && c != '\\' ==> piece == seq![c]
        }),
{
    lemma_escape_push(s, c);
    let front = seq!['"'] + escape(s);
    let before = value_text(Datum::Str(s), notations);
    let after = value_text(Datum::Str(s.push(c)), notations);
    assert(before.drop_last() =~= front);
    assert(after =~= front + escaped(c) + seq!['"']);
    assert(after.subrange(front.len() as int, after.len() - 1) =~= escaped(c));
    assert(escape(Seq::empty()) =~= Seq::<char>::empty());
    assert(quoted(Seq::empty()) =~= seq!['"', '"']);
    if c < ' ' && c != '\n' && c != '\r' && c != '\t' {
        assert(escaped(c).take(4) =~= seq!['\\', 'u', '0', '0']);
        assert((c as u32) < 0x20);
    }
}

/// The words, integers and doubles are printed as they are written: an integer in decimal,
/// a double by its notation.
pub proof fn law_plain_values_are_printed(n: i64, d: u64, notations: Map<u64, Seq<char>>)
    ensures
        value_text(Datum::Null, notations) == "null"@,
        value_text(Datum::Bool(true), notations) == "true"@,
        value_text(Datum::Bool(false), notations) == "false"@,
        value_text(Datum::Int(n), notations) == decimal(n as int),
        value_text(Datum::Double(d), notations) == notations[d],
{
    lemma_spellings();
}

/// The elements of an array are printed in order, between brackets, with a comma before
/// each but the first; no blanks are printed.
pub proof fn law_arrays_are_printed(items: Seq<Datum>, v: Datum, notations: Map<u64, Seq<char>>)
    ensures
        value_text(Datum::Array(Seq::empty()), notations) == seq!['[', ']'],
        value_text(Datum::Array(seq![v]), notations) == seq!['['] + value_text(v, notations)
            + seq![']'],
        items.len() > 0 ==> value_text(Datum::Array(items.push(v)), notations) == value_text(
            Datum::Array(items),
            notations,
        ).drop_last() + seq![','] + value_text(v, notations) + seq![']'],
{
    lemma_items_text_push(items, v, notations);
    lemma_items_text_push(Seq::empty(), v, notations);
    assert(seq![v] =~= Seq::<Datum>::empty().push(v));
    assert(items_text(Seq::empty(), notations) =~= Seq::<char>::empty());
    assert(value_text(Datum::Array(Seq::empty()), notations) =~= seq!['[', ']']);
    let text = value_text(Datum::Array(items), notations);
    assert(text.drop_last() =~= seq!['['] + items_text(items, notations));
    if items.len() > 0 {
        assert(value_text(Datum::Array(items.push(v)), notations) =~= text.drop_last() + seq![',']
            + value_text(v, notations) + seq![']']);
    }
}

/// One more element is printed behind the others.
proof fn lemma_items_text_push(items: Seq<Datum>, v: Datum, notations: Map<u64, Seq<char>>)
    ensures
        items.len() == 0 ==> items_text(items.push(v), notations) == value_text(v, notations),
        items.len() > 0 ==> items_text(items.push(v), notations) == items_text(items, notations)
            + seq![','] + value_text(v, notations),
    decreases items.len(),
{
    let all = items.push(v);
    if items.len() == 0 {
        assert(all[0] == v);
    } else {
        assert(all.drop_first() =~= items.drop_first().push(v));
        assert(all[0] == items[0]);
        lemma_items_text_push(items.drop_first(), v, notations);
        assert(items_text(all, notations) =~= items_text(items, notations) + seq![',']
            + value_text(v, notations));
    }
}

/// The members of an object are printed in order, between braces, with a comma before each
/// but the first: the key as a string, a colon and the value; no blanks are printed.
pub proof fn law_objects_are_printed(
    pairs: Seq<(Seq<char>, Datum)>,
    key: Seq<char>,
    v: Datum,
    notations: Map<u64, Seq<char>>,
)
    ensures
        ({
            let member = value_text(Datum::Str(key), notations) + seq![':'] + value_text(
                v,
                notations,
            );
            &&& value_text(Datum::Object(Seq::empty()), notations) == seq!['{', '}']
            &&& value_text(Datum::Object(seq![(key, v)]), notations) == seq!['{'] + member
                + seq!['}']
            &&& pairs.len() > 0 ==> value_text(Datum::Object(pairs.push((key, v))), notations)
                == value_text(Datum::Object(pairs), notations).drop_last() + seq![','] + member
                + seq!['}']
        }),
{
    lemma_members_text_push(pairs, (key, v), notations);
    lemma_members_text_push(Seq::empty(), (key, v), notations);
    assert(seq![(key, v)] =~= Seq::<(Seq<char>, Datum)>::empty().push((key, v)));
    assert(members_text(Seq::empty(), notations) =~= Seq::<char>::empty());
    assert(value_text(Datum::Object(Seq::empty()), notations) =~= seq!['{', '}']);
    let text = value_text(Datum::Object(pairs), notations);
    let member = member_text((key, v), notations);
    assert(member == value_text(Datum::Str(key), notations) + seq![':'] + value_text(v, notations));
    assert(text.drop_last() =~= seq!['{'] + members_text(pairs, notations));
    if pairs.len() > 0 {
        assert(value_text(Datum::Object(pairs.push((key, v))), notations) =~= text.drop_last()
            + seq![','] + member + seq!['}']);
    }
}

/// One more member is printed behind the others.
proof fn lemma_members_text_push(
    pairs: Seq<(Seq<char>, Datum)>,
    pair: (Seq<char>, Datum),
    notations: Map<u64, Seq<char>>,
)
    ensures
        pairs.len() == 0 ==> members_text(pairs.push(pair), notations) == member_text(
            pair,
            notations,
        ),
        pairs.len() > 0 ==> members_text(pairs.push(pair), notations) == members_text(
            pairs,
            notations,
        ) + seq![','] + member_text(pair, notations),
    decreases pairs.len(),
{
    let all = pairs.push(pair);
    if pairs.len() == 0 {
        assert(all[0] == pair);
    } else {
        assert(all.drop_first() =~= pairs.drop_first().push(pair));
        assert(all[0] == pairs[0]);
        lemma_members_text_push(pairs.drop_first(), pair, notations);
        assert(members_text(all, notations) =~= members_text(pairs, notations) + seq![',']
            + member_text(pair, notations));
    }
}

/// A value can be printed if and only if each of its doubles has a notation; else the first
/// that has none is told.
pub proof fn law_missing_notations(
    items: Seq<Datum>,
    pairs: Seq<(Seq<char>, Datum)>,
    key: Seq<char>,
    v: Datum,
    d: u64,
    notations: Map<u64, Seq<char>>,
)
    ensures
        missing(Datum::Double(d), notations) is None <==> notations.contains_key(d),
        missing(Datum::Double(d), notations) is Some ==> missing(Datum::Double(d), notations)
            == Some(d),
        !(v is Double) && !(v is Array) && !(v is Object) ==> missing(v, notations) is None,
        missing(Datum::Array(Seq::empty()), notations) is None,
        missing(Datum::Object(Seq::empty()), notations) is None,
        missing(Datum::Array(items.push(v)), notations) == (if missing(
            Datum::Array(items),
            notations,
        ) is Some {
            missing(Datum::Array(items), notations)
        } else {
            missing(v, notations)
        }),
        missing(Datum::Object(pairs.push((key, v))), notations) == (if missing(
            Datum::Object(pairs),
            notations,
        ) is Some {
            missing(Datum::Object(pairs), notations)
        } else {
            missing(v, notations)
        }),
{
    lemma_missing_item_push(items, v, notations);
    lemma_missing_member_push(pairs, (key, v), notations);
    assert(missing_item(Seq::empty(), notations) is None);
    assert(missing_member(Seq::empty(), notations) is None);
}

/// What is missing of one more element.
proof fn lemma_missing_item_push(items: Seq<Datum>, v: Datum, notations: Map<u64, Seq<char>>)
    ensures
        missing_item(items.push(v), notations) == (if missing_item(items, notations) is Some {
            missing_item(items, notations)
        } else {
            missing(v, notations)
        }),
    decreases items.len(),
{
    let all = items.push(v);
    if items.len() == 0 {
        assert(all[0] == v);
        assert(all.drop_first() =~= Seq::<Datum>::empty());
        assert(missing_item(all.drop_first(), notations) is None);
    } else {
        assert(all.drop_first() =~= items.drop_first().push(v));
        assert(all[0] == items[0]);
        lemma_missing_item_push(items.drop_first(), v, notations);
    }
}

/// What is missing of one more member.
proof fn lemma_missing_member_push(
    pairs: Seq<(Seq<char>, Datum)>,
    pair: (Seq<char>, Datum),
    notations: Map<u64, Seq<char>>,
)
    ensures
        missing_member(pairs.push(pair), notations) == (if missing_member(pairs, notations) is Some {
            missing_member(pairs, notations)
        } else {
            missing(pair.1, notations)
        }),
    decreases pairs.len(),
{
    let all = pairs.push(pair);
    if pairs.len() == 0 {
        assert(all[0] == pair);
        assert(all.drop_first() =~= Seq::<(Seq<char>, Datum)>::empty());
        assert(missing_member(all.drop_first(), notations) is None);
    } else {
        assert(all.drop_first() =~= pairs.drop_first().push(pair));
        assert(all[0] == pairs[0]);
        lemma_missing_member_push(pairs.drop_first(), pair, notations);
    }
}

/// Blanks before a value do not matter, and neither do those between the tokens: spaces,
/// tabulators, line feeds and returns.
pub proof fn law_blanks_are_passed_over(
    s: Seq<char>,
    i: int,
    readings: Map<Seq<char>, Option<u64>>,
)
    requires
        0 <= i < s.len(),
    ensures
        s[i] == ' ' || s[i] == '\t' || s[i] == '\n' || s[i] == '\r' ==> past_blanks(s, i)
            == past_blanks(s, i + 1) && value_at(s, i, readings) == value_at(s, i + 1, readings),
        s[i] != ' ' && s[i] != '\t' && s[i] != '\n' && s[i] != '\r' ==> past_blanks(s, i) == i,
        past_blanks(s, s.len() as int) == s.len(),
{
    lemma_past_blanks(s, i + 1);
}

/// A text holds the value at its start; what follows does not matter.
pub proof fn law_text_is_the_first_value(
    s: Seq<char>,
    readings: Map<Seq<char>, Option<u64>>,
    v: Datum,
    j: int,
    e: JsonError,
)
    ensures
        value_at(s, 0, readings) == Ok::<(Datum, int), JsonError>((v, j)) ==> text_value(
            s,
            readings,
        ) == Ok::<Datum, JsonError>(v),
        value_at(s, 0, readings) == Err::<(Datum, int), JsonError>(e) ==> text_value(s, readings)
            == Err::<Datum, JsonError>(e),
{
}

/// The three words are read as what they say; what only starts like one is told.
pub proof fn law_words_are_read(s: Seq<char>, i: int, readings: Map<Seq<char>, Option<u64>>)
    requires
        0 <= i < s.len(),
    ensures
        i + 4 <= s.len() && s.subrange(i, i + 4) == seq!['t', 'r', 'u', 'e'] ==> value_at(
            s,
            i,
            readings,
        ) == Ok::<(Datum, int), JsonError>((Datum::Bool(true), i + 4)),
        i + 5 <= s.len() && s.subrange(i, i + 5) == seq!['f', 'a', 'l', 's', 'e'] ==> value_at(
            s,
            i,
            readings,
        ) == Ok::<(Datum, int), JsonError>((Datum::Bool(false), i + 5)),
        i + 4 <= s.len() && s.subrange(i, i + 4) == seq!['n', 'u', 'l', 'l'] ==> value_at(
            s,
            i,
            readings,
        ) == Ok::<(Datum, int), JsonError>((Datum::Null, i + 4)),
        s[i] == 't' && !(i + 4 <= s.len() && s.subrange(i, i + 4) == seq!['t', 'r', 'u', 'e'])
            ==> value_at(s, i, readings) == Err::<(Datum, int), JsonError>(
            (JsonError::ExpectedWord { word: Word::True, at: offset(s, i) }),
        ),
        s[i] == 'f' && !(i + 5 <= s.len() && s.subrange(i, i + 5) == seq!['f', 'a', 'l', 's', 'e'])
            ==> value_at(s, i, readings) == Err::<(Datum, int), JsonError>(
            (JsonError::ExpectedWord { word: Word::False, at: offset(s, i) }),
        ),
        s[i] == 'n' && !(i + 4 <= s.len() && s.subrange(i, i + 4) == seq!['n', 'u', 'l', 'l'])
            ==> value_at(s, i, readings) == Err::<(Datum, int), JsonError>(
            (JsonError::ExpectedWord { word: Word::Null, at: offset(s, i) }),
        ),
{
    lemma_spellings();
    lemma_word_starts(s, i, readings);
    if i + 4 <= s.len() {
        assert(s.subrange(i, i + 4)[0] == s[i]);
    }
    if i + 5 <= s.len() {
        assert(s.subrange(i, i + 5)[0] == s[i]);
    }
}

/// How the words are written.
proof fn lemma_spellings()
    ensures
        Word::True.text() == seq!['t', 'r', 'u', 'e'],
        Word::False.text() == seq!['f', 'a', 'l', 's', 'e'],
        Word::Null.text() == seq!['n', 'u', 'l', 'l'],
{
    reveal_strlit("null");
    reveal_strlit("true");
    reveal_strlit("false");
    assert("null"@ =~= seq!['n', 'u', 'l', 'l']);
    assert("true"@ =~= seq!['t', 'r', 'u', 'e']);
    assert("false"@ =~= seq!['f', 'a', 'l', 's', 'e']);
}

/// The first letter of a word decides which is read.
proof fn lemma_word_starts(s: Seq<char>, i: int, readings: Map<Seq<char>, Option<u64>>)
    requires
        0 <= i < s.len(),
    ensures
        s[i] == 't' ==> value_at(s, i, readings) == (match word_at(s, i, Word::True) {
            Ok(j) => Ok::<(Datum, int), JsonError>((Datum::Bool(true), j)),
            Err(e) => Err(e),
        }),
        s[i] == 'f' ==> value_at(s, i, readings) == (match word_at(s, i, Word::False) {
            Ok(j) => Ok::<(Datum, int), JsonError>((Datum::Bool(false), j)),
            Err(e) => Err(e),
        }),
        s[i] == 'n' ==> value_at(s, i, readings) == (match word_at(s, i, Word::Null) {
            Ok(j) => Ok::<(Datum, int), JsonError>((Datum::Null, j)),
            Err(e) => Err(e),
        }),
{
    if s[i] == 't' || s[i] == 'f' || s[i] == 'n' {
        assert(past_blanks(s, i) == i);
    }
}

/// What is a number goes as far as digits, dots, signs and the letter of an exponent do.
/// Where only digits follow the sign, it is an integer; otherwise it is a double, if it is
/// known what it reads as.
pub proof fn law_numbers_are_read(
    s: Seq<char>,
    i: int,
    j: int,
    readings: Map<Seq<char>, Option<u64>>,
)
    requires
        0 <= i < j <= s.len(),
        s[i] == '-' || is_digit(s[i]),
        forall|k: int|
            i < k < j ==> is_digit(#[trigger] s[k]) || s[k] == '.' || s[k] == 'e' || s[k] == 'E'
                || s[k] == '+' || s[k] == '-',
        j < s.len() ==> !(is_digit(s[j]) || s[j] == '.' || s[j] == 'e' || s[j] == 'E' || s[j] == '+'
            || s[j] == '-'),
    ensures
        ({
            let literal = s.subrange(i, j);
            let whole = forall|k: int| i < k < j ==> is_digit(#[trigger] s[k]);
            &&& whole && signed_read(literal) is Ok ==> value_at(s, i, readings) == Ok::<
                (Datum, int),
                JsonError,
            >((Datum::Int(signed_read(literal)->Ok_0), j))
            &&& whole && signed_read(literal) is Err ==> value_at(s, i, readings) == Err::<
                (Datum, int),
                JsonError,
            >(JsonError::BadInteger(signed_read(literal)->Err_0))
            &&& !whole && readings.contains_key(literal) && readings[literal] is Some ==> value_at(
                s,
                i,
                readings,
            ) == Ok::<(Datum, int), JsonError>((Datum::Double(readings[literal]->0), j))
            &&& !whole && readings.contains_key(literal) && readings[literal] is None ==> value_at(
                s,
                i,
                readings,
            ) == Err::<(Datum, int), JsonError>(JsonError::BadDouble)
            &&& !whole && !readings.contains_key(literal) ==> value_at(s, i, readings) == Err::<
                (Datum, int),
                JsonError,
            >((JsonError::Unread { start: offset(s, i), end: offset(s, j) }))
        }),
{
    let start = if s[i] == '-' {
        i + 1
    } else {
        i
    };
    assert(past_blanks(s, i) == i);
    lemma_numeric_to(s, start, j);
    let part = s.subrange(start, j);
    if forall|k: int| i < k < j ==> is_digit(#[trigger] s[k]) {
        assert forall|k: int| 0 <= k < part.len() implies is_digit(#[trigger] part[k]) by {
            assert(part[k] == s[start + k]);
        }
        assert(all_digits(part));
    } else {
        let k = choose|k: int| i < k < j && !is_digit(#[trigger] s[k]);
        assert(part[k - start] == s[k]);
        assert(!all_digits(part));
    }
}

/// A number goes on to where what it is made of ends.
proof fn lemma_numeric_to(s: Seq<char>, i: int, j: int)
    requires
        0 <= i <= j <= s.len(),
        forall|k: int| i <= k < j ==> is_numeric(#[trigger] s[k]),
        j < s.len() ==> !is_numeric(s[j]),
    ensures
        past_numeric(s, i) == j,
    decreases j - i,
{
    if i < j {
        lemma_numeric_to(s, i + 1, j);
    }
}

/// A string is read character by character up to the closing quote. Behind a backslash, a
/// quote, a backslash and a slash stand for themselves, and the letters `n`, `t` and `r`
/// for a line feed, a tabulator and a return; anything else is told.
pub proof fn law_strings_are_read(s: Seq<char>, i: int, read: Seq<char>)
    requires
        0 <= i < s.len(),
    ensures
        s[i] == '"' ==> string_at(s, i, read) == Ok::<(Seq<char>, int), JsonError>((read, i + 1)),
        s[i] != '"' && s[i] != '\\' ==> string_at(s, i, read) == string_at(
            s,
            i + 1,
            read.push(s[i]),
        ),
        s[i] == '\\' && i + 1 < s.len() ==> ({
            let c = s[i + 1];
            &&& c == '"' || c == '\\' || c == '/' ==> string_at(s, i, read) == string_at(
                s,
                i + 2,
                read.push(c),
            )
            &&& c == 'n' ==> string_at(s, i, read) == string_at(s, i + 2, read.push('\n'))
            &&& c == 't' ==> string_at(s, i, read) == string_at(s, i + 2, read.push('\t'))
            &&& c == 'r' ==> string_at(s, i, read) == string_at(s, i + 2, read.push('\r'))
            &&& c != '"' && c != '\\' && c != '/' && c != 'n' && c != 't' && c != 'r' && c != 'u'
                ==> string_at(s, i, read) == Err::<(Seq<char>, int), JsonError>(
                (JsonError::BadEscape { got: peeked(s, i + 1) }),
            )
        }),
        s[i] == '\\' && i + 1 == s.len() ==> string_at(s, i, read) == Err::<
            (Seq<char>, int),
            JsonError,
        >((JsonError::BadEscape { got: None })),
        string_at(s, s.len() as int, read) == Err::<(Seq<char>, int), JsonError>(
            JsonError::Unterminated,
        ),
{
}

/// A value that starts with a quote is the string that follows.
pub proof fn law_quotes_open_strings(
    s: Seq<char>,
    i: int,
    t: Seq<char>,
    j: int,
    e: JsonError,
    readings: Map<Seq<char>, Option<u64>>,
)
    requires
        0 <= i < s.len(),
        s[i] == '"',
    ensures
        string_at(s, i + 1, Seq::empty()) == Ok::<(Seq<char>, int), JsonError>((t, j))
            ==> value_at(s, i, readings) == Ok::<(Datum, int), JsonError>((Datum::Str(t), j)),
        string_at(s, i + 1, Seq::empty()) == Err::<(Seq<char>, int), JsonError>(e) ==> value_at(
            s,
            i,
            readings,
        ) == Err::<(Datum, int), JsonError>(e),
{
}

/// The number that a hexadecimal digit stands for, in either case.
pub open spec fn stands_for(c: char, d: nat) -> bool {
    ||| d < 10 && c as u32 == '0' as u32 + d
    ||| 10 <= d < 16 && c as u32 == 'a' as u32 + d - 10
    ||| 10 <= d < 16 && c as u32 == 'A' as u32 + d - 10
}

/// Behind a backslash and the letter `u`, four hexadecimal digits in either case stand for
/// the character with that number; a number that is no character's is passed over.
pub proof fn law_numbered_characters_are_read(
    s: Seq<char>,
    i: int,
    read: Seq<char>,
    a: nat,
    b: nat,
    c: nat,
    d: nat,
)
    requires
        0 <= i,
        i + 6 <= s.len(),
        s[i] == '\\',
        s[i + 1] == 'u',
        stands_for(s[i + 2], a),
        stands_for(s[i + 3], b),
        stands_for(s[i + 4], c),
        stands_for(s[i + 5], d),
    ensures
        ({
            let n = (4096 * a + 256 * b + 16 * c + d) as u32;
            &&& n == 4096 * a + 256 * b + 16 * c + d
            &&& 0xd800 <= n <= 0xdfff ==> string_at(s, i, read) == string_at(s, i + 6, read)
            &&& !(0xd800 <= n <= 0xdfff) ==> string_at(s, i, read) == string_at(
                s,
                i + 6,
                read.push(n as char),
            )
        }),
{
    lemma_stands_for(s[i + 2], a);
    lemma_stands_for(s[i + 3], b);
    lemma_stands_for(s[i + 4], c);
    lemma_stands_for(s[i + 5], d);
    assert forall|k: int| i + 2 <= k < i + 6 implies (#[trigger] s[k]) < '\u{80}' by {
        if k != i + 2 && k != i + 3 && k != i + 4 {
            assert(k == i + 5);
        }
    }
    lemma_four_ascii(s, i + 2);
    let body = s.subrange(i + 2, i + 6);
    assert(body[0] == s[i + 2] && body[1] == s[i + 3] && body[2] == s[i + 4] && body[3] == s[i
        + 5]);
    let three = body.drop_last();
    let two = three.drop_last();
    let one = two.drop_last();
    assert(one.drop_last() =~= Seq::<char>::empty());
    assert(hex_number(one.drop_last()) == Some(0nat));
    assert(one.last() == body[0] && two.last() == body[1] && three.last() == body[2]
        && body.last() == body[3]);
    assert(hex_number(one) == Some(a));
    assert(hex_number(two) == Some((16 * a + b) as nat));
    assert(hex_number(three) == Some((16 * (16 * a + b) + c) as nat));
    assert(hex_number(body) == Some((16 * (16 * (16 * a + b) + c) + d) as nat));
}

/// A hexadecimal digit is read as what it stands for.
proof fn lemma_stands_for(c: char, d: nat)
    requires
        stands_for(c, d),
    ensures
        hex_value(c) == Some(d),
        c < '\u{80}',
        c != '+',
{
}

/// Four characters of one byte each are four bytes.
proof fn lemma_four_ascii(s: Seq<char>, i: int)
    requires
        0 <= i,
        i + 4 <= s.len(),
        forall|k: int| i <= k < i + 4 ==> (#[trigger] s[k]) < '\u{80}',
    ensures
        past_bytes(s, i, 4) == Ok::<int, JsonError>(i + 4),
{
    assert(s[i] < '\u{80}' && s[i + 1] < '\u{80}' && s[i + 2] < '\u{80}' && s[i + 3] < '\u{80}');
    lemma_one_byte(s[i]);
    lemma_one_byte(s[i + 1]);
    lemma_one_byte(s[i + 2]);
    lemma_one_byte(s[i + 3]);
    reveal_with_fuel(past_bytes, 5);
}

/// A character of ASCII is one byte, that of its number.
proof fn lemma_one_byte(c: char)
    requires
        c < '\u{80}',
    ensures
        char_bytes(c).len() == 1,
        char_bytes(c)[0] == c as u8,
{
    lemma_char_bytes(c);
    let s = seq![c];
    assert(is_ascii_chars(s));
    is_ascii_chars_encode_utf8(s);
    assert(s[0] as u8 == encode_utf8(s)[0]);
}

/// In a text of ASCII, positions count characters, and what is met is its number.
pub proof fn law_positions_in_ascii(s: Seq<char>, i: int)
    requires
        is_ascii_chars(s),
        0 <= i <= s.len() <= usize::MAX,
    ensures
        offset(s, i) == i,
        i < s.len() ==> peeked(s, i) == Some(s[i] as u8),
        i == s.len() ==> peeked(s, i) is None,
{
    let front = s.take(i);
    assert forall|k: int| 0 <= k < front.len() implies front[k] < '\u{80}' by {
        assert(front[k] == s[k]);
    }
    assert(is_ascii_chars(front));
    is_ascii_chars_encode_utf8(front);
    if i < s.len() {
        lemma_one_byte(s[i]);
    }
}

/// An array is what stands between brackets, with commas between the elements; an empty one
/// may hold blanks.
pub proof fn law_arrays_are_read(
    s: Seq<char>,
    i: int,
    readings: Map<Seq<char>, Option<u64>>,
    items: Seq<Datum>,
    v: Datum,
    j: int,
)
    requires
        0 <= i < s.len(),
    ensures
        s[i] == '[' && is_at(s, past_blanks(s, i + 1), ']') ==> value_at(s, i, readings) == Ok::<
            (Datum, int),
            JsonError,
        >((Datum::Array(Seq::empty()), past_blanks(s, i + 1) + 1)),
        s[i] == '[' && !is_at(s, past_blanks(s, i + 1), ']') ==> match items_at(
            s,
            past_blanks(s, i + 1),
            readings,
            Seq::empty(),
        ) {
            Ok((all, k)) => value_at(s, i, readings) == Ok::<(Datum, int), JsonError>(
                (Datum::Array(all), k),
            ),
            Err(e) => value_at(s, i, readings) == Err::<(Datum, int), JsonError>(e),
        },
        value_at(s, i, readings) == Ok::<(Datum, int), JsonError>((v, j)) ==> ({
            let k = past_blanks(s, j);
            &&& is_at(s, k, ',') ==> items_at(s, i, readings, items) == items_at(
                s,
                k + 1,
                readings,
                items.push(v),
            )
            &&& is_at(s, k, ']') ==> items_at(s, i, readings, items) == Ok::<
                (Seq<Datum>, int),
                JsonError,
            >((items.push(v), k + 1))
            &&& !is_at(s, k, ',') && !is_at(s, k, ']') ==> items_at(s, i, readings, items) == Err::<
                (Seq<Datum>, int),
                JsonError,
            >((JsonError::ExpectedSeparator { close: 0x5d, got: peeked(s, k) }))
        }),
        value_at(s, i, readings) is Err ==> items_at(s, i, readings, items) == Err::<
            (Seq<Datum>, int),
            JsonError,
        >(value_at(s, i, readings)->Err_0),
{
    lemma_past_blanks(s, i + 1);
    lemma_value_at(s, i, readings);
    if value_at(s, i, readings) is Ok {
        lemma_past_blanks(s, value_at(s, i, readings)->Ok_0.1);
    }
}

/// An object is what stands between braces, with commas between the members: a string for
/// the key, a colon and a value. An empty one may hold blanks.
pub proof fn law_objects_are_read(
    s: Seq<char>,
    i: int,
    readings: Map<Seq<char>, Option<u64>>,
    pairs: Seq<(Seq<char>, Datum)>,
    key: Seq<char>,
    b: int,
    v: Datum,
    j: int,
)
    requires
        0 <= i < s.len(),
    ensures
        s[i] == '{' && is_at(s, past_blanks(s, i + 1), '}') ==> value_at(s, i, readings) == Ok::<
            (Datum, int),
            JsonError,
        >((Datum::Object(Seq::empty()), past_blanks(s, i + 1) + 1)),
        s[i] == '{' && !is_at(s, past_blanks(s, i + 1), '}') ==> match members_at(
            s,
            past_blanks(s, i + 1),
            readings,
            Seq::empty(),
        ) {
            Ok((all, k)) => value_at(s, i, readings) == Ok::<(Datum, int), JsonError>(
                (Datum::Object(all), k),
            ),
            Err(e) => value_at(s, i, readings) == Err::<(Datum, int), JsonError>(e),
        },
        is_at(s, past_blanks(s, i), '"') && string_at(s, past_blanks(s, i) + 1, Seq::empty())
            == Ok::<(Seq<char>, int), JsonError>((key, b)) && is_at(s, past_blanks(s, b), ':')
            && value_at(s, past_blanks(s, b) + 1, readings) == Ok::<(Datum, int), JsonError>((v, j))
            ==> ({
            let k = past_blanks(s, j);
            &&& is_at(s, k, ',') ==> members_at(s, i, readings, pairs) == members_at(
                s,
                k + 1,
                readings,
                pairs.push((key, v)),
            )
            &&& is_at(s, k, '}') ==> members_at(s, i, readings, pairs) == Ok::<
                (Seq<(Seq<char>, Datum)>, int),
                JsonError,
            >((pairs.push((key, v)), k + 1))
            &&& !is_at(s, k, ',') && !is_at(s, k, '}') ==> members_at(s, i, readings, pairs)
                == Err::<(Seq<(Seq<char>, Datum)>, int), JsonError>(
                (JsonError::ExpectedSeparator { close: 0x7d, got: peeked(s, k) }),
            )
        }),
        !is_at(s, past_blanks(s, i), '"') ==> members_at(s, i, readings, pairs) == Err::<
            (Seq<(Seq<char>, Datum)>, int),
            JsonError,
        >((JsonError::Expected { byte: 0x22, at: offset(s, past_blanks(s, i)) })),
        is_at(s, past_blanks(s, i), '"') && string_at(s, past_blanks(s, i) + 1, Seq::empty())
            == Ok::<(Seq<char>, int), JsonError>((key, b)) && !is_at(s, past_blanks(s, b), ':')
            ==> members_at(s, i, readings, pairs) == Err::<
            (Seq<(Seq<char>, Datum)>, int),
            JsonError,
        >((JsonError::Expected { byte: 0x3a, at: offset(s, past_blanks(s, b)) })),
{
    lemma_past_blanks(s, i + 1);
    lemma_past_blanks(s, i);
    let a = past_blanks(s, i);
    if is_at(s, a, '"') && string_at(s, a + 1, Seq::empty()) == Ok::<(Seq<char>, int), JsonError>(
        (key, b),
    ) {
        lemma_string_at(s, a + 1, Seq::empty());
        lemma_past_blanks(s, b);
        let c = past_blanks(s, b);
        if is_at(s, c, ':') && value_at(s, c + 1, readings) == Ok::<(Datum, int), JsonError>((v, j))
        {
            lemma_value_at(s, c + 1, readings);
            lemma_past_blanks(s, j);
        }
    }
}

/// What starts no value is told, and so is a text that ends before one.
pub proof fn law_what_is_no_value(s: Seq<char>, i: int, readings: Map<Seq<char>, Option<u64>>)
    requires
        0 <= i <= s.len(),
    ensures
        i == s.len() ==> value_at(s, i, readings) == Err::<(Datum, int), JsonError>(
            (JsonError::Unexpected { got: None, at: offset(s, i) }),
        ),
        i < s.len() && s[i] != ' ' && s[i] != '\t' && s[i] != '\n' && s[i] != '\r' && s[i] != '{'
            && s[i] != '[' && s[i] != '"' && s[i] != 't' && s[i] != 'f' && s[i] != 'n' && s[i]
            != '-' && !is_digit(s[i]) ==> value_at(s, i, readings) == Err::<
            (Datum, int),
            JsonError,
        >((JsonError::Unexpected { got: peeked(s, i), at: offset(s, i) })),
{
}

/// What is said of a text that is no value: what was expected where, or what stands there.
pub proof fn law_texts_of_errors(byte: u8, at: usize)
    requires
        byte < 0x80,
    ensures
        (JsonError::Expected { byte, at }).text() == "json: expected '"@ + seq![byte as char]
            + "' at "@ + digits(at as nat),
        (JsonError::ExpectedWord { word: Word::True, at }).text() == "json: expected '"@ + "true"@
            + "' at "@ + digits(at as nat),
        (JsonError::ExpectedWord { word: Word::False, at }).text() == "json: expected '"@
            + "false"@ + "' at "@ + digits(at as nat),
        (JsonError::ExpectedWord { word: Word::Null, at }).text() == "json: expected '"@ + "null"@
            + "' at "@ + digits(at as nat),
        (JsonError::Unexpected { got: Some(byte), at }).text() == "json: unexpected byte "@ + (
        "Some("@ + digits(byte as nat) + ")"@) + " at "@ + digits(at as nat),
        (JsonError::Unexpected { got: None, at }).text() == "json: unexpected byte "@ + "None"@
            + " at "@ + digits(at as nat),
        JsonError::Unterminated.text() == "json: unterminated string"@,
        (JsonError::BadEscape { got: Some(byte) }).text() == "json: bad escape "@ + ("Some("@
            + digits(byte as nat) + ")"@),
        (JsonError::BadEscape { got: None }).text() == "json: bad escape "@ + "None"@,
        (JsonError::ExpectedSeparator { close: byte, got: None }).text()
            == "json: expected ',' or '"@ + seq![byte as char] + "' got "@ + "None"@,
        (JsonError::ExpectedSeparator { close: byte, got: Some(byte) }).text()
            == "json: expected ',' or '"@ + seq![byte as char] + "' got "@ + ("Some("@ + digits(
            byte as nat,
        ) + ")"@),
        JsonError::BadDouble.text() == "invalid float literal"@,
        JsonError::BadInteger(IntegerFault::InvalidDigit).text()
            == "invalid digit found in string"@,
        JsonError::BadInteger(IntegerFault::TooLarge).text()
            == "number too large to fit in target type"@,
        JsonError::BadInteger(IntegerFault::TooSmall).text()
            == "number too small to fit in target type"@,
        JsonError::BadHex.text() == "invalid digit found in string"@,
{
}

/// What comes of a text is the value, or why it is none.
pub proof fn law_outcomes(v: Value, e: JsonError)
    ensures
        outcome(Ok(v)) == Ok::<Datum, JsonError>(v@),
        outcome(Err(e)) == Err::<Datum, JsonError>(e),
{
}

/// Behind a backslash and the letter `u`, a plus sign may stand for the first of the four
/// digits. Four characters of ASCII that are no such number are told, and so are fewer than
/// four at the end of the text.
pub proof fn law_wrong_numbers_of_characters(
    s: Seq<char>,
    i: int,
    read: Seq<char>,
    b: nat,
    c: nat,
    d: nat,
)
    requires
        0 <= i,
        i + 2 <= s.len(),
        s[i] == '\\',
        s[i + 1] == 'u',
        forall|k: int| i + 2 <= k < s.len() && k < i + 6 ==> (#[trigger] s[k]) < '\u{80}',
    ensures
        s.len() < i + 6 ==> string_at(s, i, read) == Err::<(Seq<char>, int), JsonError>(
            JsonError::CutEscape,
        ),
        s.len() >= i + 6 && s[i + 2] == '+' && stands_for(s[i + 3], b) && stands_for(s[i + 4], c)
            && stands_for(s[i + 5], d) ==> string_at(s, i, read) == string_at(
            s,
            i + 6,
            read.push((256 * b + 16 * c + d) as char),
        ),
        s.len() >= i + 6 && (exists|k: int|
            i + 3 <= k < i + 6 && hex_value(#[trigger] s[k]) is None) ==> string_at(s, i, read)
            == Err::<(Seq<char>, int), JsonError>(JsonError::BadHex),
        s.len() >= i + 6 && s[i + 2] != '+' && hex_value(s[i + 2]) is None ==> string_at(s, i, read)
            == Err::<(Seq<char>, int), JsonError>(JsonError::BadHex),
{
    if s.len() < i + 6 {
        lemma_cut_ascii(s, i + 2, 4);
    } else {
        lemma_four_ascii(s, i + 2);
        let body = s.subrange(i + 2, i + 6);
        let tail = s.subrange(i + 3, i + 6);
        if stands_for(s[i + 3], b) && stands_for(s[i + 4], c) && stands_for(s[i + 5], d) {
            lemma_stands_for(s[i + 3], b);
            lemma_stands_for(s[i + 4], c);
            lemma_stands_for(s[i + 5], d);
            let two = tail.drop_last();
            let one = two.drop_last();
            assert(one.drop_last() =~= Seq::<char>::empty());
            assert(hex_number(one.drop_last()) == Some(0nat));
            assert(one.last() == s[i + 3] && two.last() == s[i + 4] && tail.last() == s[i + 5]);
            assert(hex_number(one) == Some(b));
            assert(hex_number(two) == Some((16 * b + c) as nat));
            assert(hex_number(tail) == Some((16 * (16 * b + c) + d) as nat));
        }
        if exists|k: int| i + 3 <= k < i + 6 && hex_value(#[trigger] s[k]) is None {
            let k = choose|k: int| i + 3 <= k < i + 6 && hex_value(#[trigger] s[k]) is None;
            assert(body[k - i - 2] == s[k]);
            assert(tail[k - i - 3] == s[k]);
            lemma_no_hex(body, k - i - 2);
            lemma_no_hex(tail, k - i - 3);
        }
        if hex_value(s[i + 2]) is None {
            assert(body[0] == s[i + 2]);
            lemma_no_hex(body, 0);
        }
    }
}

/// What holds something else than hexadecimal digits is no number.
proof fn lemma_no_hex(s: Seq<char>, k: int)
    requires
        0 <= k < s.len(),
        hex_value(s[k]) is None,
    ensures
        hex_number(s) is None,
    decreases s.len(),
{
    if k < s.len() - 1 {
        assert(s.drop_last()[k] == s[k]);
        lemma_no_hex(s.drop_last(), k);
    }
}

/// A text of ASCII that ends early holds too few bytes.
proof fn lemma_cut_ascii(s: Seq<char>, i: int, left: nat)
    requires
        0 <= i <= s.len(),
        s.len() < i + left,
        left <= 4,
        forall|k: int| i <= k < s.len() ==> (#[trigger] s[k]) < '\u{80}',
    ensures
        past_bytes(s, i, left) == Err::<int, JsonError>(JsonError::CutEscape),
    decreases left,
{
    if i < s.len() {
        lemma_one_byte(s[i]);
        lemma_cut_ascii(s, i + 1, (left - 1) as nat);
    }
}

/// An array or an object that the text ends within is told.
pub proof fn law_unclosed_values(
    s: Seq<char>,
    readings: Map<Seq<char>, Option<u64>>,
    items: Seq<Datum>,
    pairs: Seq<(Seq<char>, Datum)>,
)
    ensures
        items_at(s, s.len() as int, readings, items) == Err::<(Seq<Datum>, int), JsonError>(
            (JsonError::Unexpected { got: None, at: offset(s, s.len() as int) }),
        ),
        members_at(s, s.len() as int, readings, pairs) == Err::<
            (Seq<(Seq<char>, Datum)>, int),
            JsonError,
        >((JsonError::Expected { byte: 0x22, at: offset(s, s.len() as int) })),
{
    law_what_is_no_value(s, s.len() as int, readings);
}

/// Positions count the bytes of the text, and what is met is told by its first byte.
pub proof fn law_positions_count_bytes(s: Seq<char>, i: int)
    requires
        0 <= i <= s.len(),
    ensures
        offset(s, i) == encode_utf8(s.take(i)).len() as usize,
        i < s.len() ==> peeked(s, i) == Some(encode_utf8(seq![s[i]])[0]),
        i == s.len() ==> peeked(s, i) is None,
{
}

/// The number behind a backslash and the letter `u` takes four bytes, however many
/// characters these are; where they end within a character it is told how many bytes stand
/// before that.
pub proof fn law_bytes_of_a_numbered_character(s: Seq<char>, i: int, left: nat, read: Seq<char>)
    requires
        0 <= i <= s.len(),
        0 < left <= 4,
    ensures
        past_bytes(s, i, 0) == Ok::<int, JsonError>(i),
        i == s.len() ==> past_bytes(s, i, left) == Err::<int, JsonError>(JsonError::CutEscape),
        i < s.len() ==> ({
            let width = encode_utf8(seq![s[i]]).len();
            &&& width > left ==> past_bytes(s, i, left) == Err::<int, JsonError>(
                (JsonError::SplitCharacter { index: (4 - left) as usize }),
            )
            &&& width <= left ==> past_bytes(s, i, left) == past_bytes(
                s,
                i + 1,
                (left - width) as nat,
            )
        }),
        i >= 2 && s[i - 2] == '\\' && s[i - 1] == 'u' && past_bytes(s, i, 4) is Err ==> string_at(
            s,
            i - 2,
            read,
        ) == Err::<(Seq<char>, int), JsonError>(past_bytes(s, i, 4)->Err_0),
{
    if i < s.len() {
        lemma_char_bytes(s[i]);
    }
    reveal_with_fuel(past_bytes, 2);
}

} // verus!
