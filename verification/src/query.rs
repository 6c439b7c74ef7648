//! The expressions that queries select files by: the bare terms `"true"`,
//! `"false"`, `"exists"` and `"empty"`, and the arrays `["allof", ...]`,
//! `["anyof", ...]`, `["not", expr]`, `["match", glob]`, `["imatch", glob]`,
//! `["suffix", ext-or-list]`, `["type", code]` and `["name", name-or-list]`.

use vstd::prelude::*;
use vstd::string::StringExecFns;
use vstd::utf8::is_ascii_chars;

use crate::config::{collect_strings, strings};
use crate::text::{
    after_last, ascii_lower, chars_of, contains_str, law_after_last, lowercase, str_eq, string_of,
    tail_after, texts, to_lowercase,
};
use crate::tree::{law_letters, Entry, FileInfo, Kind};
use crate::value::{data, lemma_data, Datum, Value};

verus! {

/// Whether a text matches a pattern: `*` stands for any text, `?` for any one
/// character, and any other character for itself.
pub open spec fn globbed(p: Seq<char>, t: Seq<char>) -> bool
    decreases p.len(),
{
    if p.len() == 0 {
        t.len() == 0
    } else if p[0] == '*' {
        exists|i: int| 0 <= i <= t.len() && globbed(p.skip(1), #[trigger] t.skip(i))
    } else {
        t.len() > 0 && (p[0] == '?' || p[0] == t[0]) && globbed(p.skip(1), t.skip(1))
    }
}

/// A second star adds nothing to a first.
proof fn lemma_stars(p: Seq<char>, t: Seq<char>)
    requires
        p.len() >= 2,
        p[0] == '*',
        p[1] == '*',
    ensures
        globbed(p, t) == globbed(p.skip(1), t),
{
    let q = p.skip(1);
    let rest = q.skip(1);
    if globbed(p, t) {
        let i = choose|i: int| 0 <= i <= t.len() && globbed(q, #[trigger] t.skip(i));
        let u = t.skip(i);
        let j = choose|j: int| 0 <= j <= u.len() && globbed(rest, #[trigger] u.skip(j));
        assert(u.skip(j) =~= t.skip(i + j));
        assert(globbed(q, t));
    }
    if globbed(q, t) {
        assert(t.skip(0) =~= t);
        assert(globbed(q, t.skip(0)));
        assert(globbed(p, t));
    }
}

/// Whether characters match a pattern of characters.
fn glob_rec(p: &[char], t: &[char]) -> (r: bool)
    ensures
        r == globbed(p@, t@),
    decreases p@.len(),
{
    if p.len() == 0 {
        return t.len() == 0;
    }
    if p[0] == '*' {
        let mut k: usize = 1;
        assert(p@.skip(0) =~= p@);
        while k < p.len() && p[k] == '*'
            invariant
                1 <= k <= p@.len(),
                p@[k - 1] == '*',
                globbed(p@.skip(k - 1), t@) == globbed(p@, t@),
            decreases p@.len() - k,
        {
            proof {
                lemma_stars(p@.skip(k - 1), t@);
                assert(p@.skip(k - 1).skip(1) =~= p@.skip(k as int));
            }
            k += 1;
        }
        let ghost starred = p@.skip(k - 1);
        assert(starred.skip(1) =~= p@.skip(k as int));
        if k == p.len() {
            proof {
                assert(t@.skip(t@.len() as int).len() == 0);
                assert(globbed(starred.skip(1), t@.skip(t@.len() as int)));
            }
            return true;
        }
        let rest = vstd::slice::slice_subrange(p, k, p.len());
        assert(rest@ =~= p@.skip(k as int));
        let mut i: usize = 0;
        loop
            invariant
                0 < k <= p@.len(),
                i <= t@.len(),
                rest@ == p@.skip(k as int),
                starred == p@.skip(k - 1),
                starred.len() > 0,
                starred[0] == '*',
                starred.skip(1) == rest@,
                globbed(starred, t@) == globbed(p@, t@),
                forall|j: int| 0 <= j < i ==> !globbed(rest@, #[trigger] t@.skip(j)),
            decreases t@.len() - i,
        {
            let tail = vstd::slice::slice_subrange(t, i, t.len());
            assert(tail@ =~= t@.skip(i as int));
            if glob_rec(rest, tail) {
                assert(globbed(starred, t@));
                return true;
            }
            if i == t.len() {
                assert(!globbed(starred, t@));
                return false;
            }
            i += 1;
        }
    }
    if t.len() == 0 {
        return false;
    }
    if p[0] != '?' && p[0] != t[0] {
        return false;
    }
    let rest = vstd::slice::slice_subrange(p, 1, p.len());
    let tail = vstd::slice::slice_subrange(t, 1, t.len());
    assert(rest@ =~= p@.skip(1));
    assert(tail@ =~= t@.skip(1));
    glob_rec(rest, tail)
}

/// Whether a text matches a pattern.
pub fn glob_match(pattern: &str, text: &str) -> (r: bool)
    ensures
        r == globbed(pattern@, text@),
{
    let p = chars_of(pattern);
    let t = chars_of(text);
    glob_rec(p.as_slice(), t.as_slice())
}

/// A pattern without stars and question marks matches itself and nothing else.
pub proof fn law_plain_pattern(p: Seq<char>, t: Seq<char>)
    requires
        forall|k: int| 0 <= k < p.len() ==> (#[trigger] p[k]) != '*' && p[k] != '?',
    ensures
        globbed(p, t) <==> p == t,
    decreases p.len(),
{
    if p.len() == 0 {
        assert(t.len() == 0 ==> p =~= t);
    } else if t.len() > 0 {
        assert forall|k: int| 0 <= k < p.skip(1).len() implies (#[trigger] p.skip(1)[k]) != '*'
            && p.skip(1)[k] != '?' by {
            assert(p.skip(1)[k] == p[k + 1]);
        }
        law_plain_pattern(p.skip(1), t.skip(1));
        if p[0] == t[0] && p.skip(1) == t.skip(1) {
            assert(p =~= seq![p[0]] + p.skip(1));
            assert(t =~= seq![t[0]] + t.skip(1));
        }
    }
}

/// A star alone matches every text.
pub proof fn law_star_matches_all(t: Seq<char>)
    ensures
        globbed(seq!['*'], t),
{
    assert(seq!['*'].skip(1) =~= Seq::<char>::empty());
    assert(globbed(seq!['*'].skip(1), t.skip(t.len() as int)));
}

/// Two stars in a row mean the same as one.
pub proof fn law_double_star_is_star(p: Seq<char>, t: Seq<char>)
    ensures
        globbed(seq!['*', '*'] + p, t) == globbed(seq!['*'] + p, t),
{
    let q = seq!['*', '*'] + p;
    lemma_stars(q, t);
    assert(q.skip(1) =~= seq!['*'] + p);
}

/// An expression.
pub enum Expr {
    True,
    False,
    Exists,
    Empty,
    Match(String),
    IMatch(String),
    Suffix(Vec<String>),
    Type(String),
    Name(Vec<String>),
    Not(Box<Expr>),
    AllOf(Vec<Expr>),
    AnyOf(Vec<Expr>),
}

/// What an `Expr` stands for.
pub enum Term {
    True,
    False,
    Exists,
    Empty,
    Match(Seq<char>),
    IMatch(Seq<char>),
    Suffix(Seq<Seq<char>>),
    Type(Seq<char>),
    Name(Seq<Seq<char>>),
    Not(Box<Term>),
    AllOf(Seq<Term>),
    AnyOf(Seq<Term>),
}

/// What a row of expressions stands for.
pub open spec fn terms(items: Seq<Expr>) -> Seq<Term>
    decreases items,
{
    if items.len() == 0 {
        Seq::empty()
    } else {
        terms(items.drop_last()).push(items.last().view())
    }
}

impl View for Expr {
    type V = Term;

    open spec fn view(&self) -> Term
        decreases self,
    {
        match self {
            Expr::True => Term::True,
            Expr::False => Term::False,
            Expr::Exists => Term::Exists,
            Expr::Empty => Term::Empty,
            Expr::Match(p) => Term::Match(p@),
            Expr::IMatch(p) => Term::IMatch(p@),
            Expr::Suffix(v) => Term::Suffix(texts(v@)),
            Expr::Type(c) => Term::Type(c@),
            Expr::Name(v) => Term::Name(texts(v@)),
            Expr::Not(e) => Term::Not(Box::new((**e).view())),
            Expr::AllOf(items) => Term::AllOf(terms(items@)),
            Expr::AnyOf(items) => Term::AnyOf(terms(items@)),
        }
    }
}

/// A row of expressions stands for what each of them stands for.
proof fn lemma_terms(items: Seq<Expr>)
    ensures
        terms(items).len() == items.len(),
        forall|i: int| 0 <= i < items.len() ==> #[trigger] terms(items)[i] == items[i]@,
    decreases items.len(),
{
    if items.len() > 0 {
        lemma_terms(items.drop_last());
        assert(terms(items) == terms(items.drop_last()).push(items.last()@));
    } else {
        assert(terms(items) == Seq::<Term>::empty());
    }
}

/// A row of expressions that was extended by one.
proof fn lemma_terms_push(items: Seq<Expr>, e: Expr)
    ensures
        terms(items.push(e)) == terms(items).push(e@),
{
    assert(items.push(e).drop_last() =~= items);
}

/// The last component of a name.
pub open spec fn base(name: Seq<char>) -> Seq<char> {
    after_last(name, '/')
}

/// Whether two texts are the same but for the case of ASCII letters.
pub open spec fn same_letters(a: Seq<char>, b: Seq<char>) -> bool {
    a.map_values(|c: char| ascii_lower(c)) == b.map_values(|c: char| ascii_lower(c))
}

/// Whether one of some suffixes is what follows the last dot of a name.
pub open spec fn suffixed(all: Seq<Seq<char>>, name: Seq<char>) -> bool {
    exists|k: int| 0 <= k < all.len() && same_letters(#[trigger] all[k], after_last(name, '.'))
}

/// Whether an expression holds of a file.
pub open spec fn holds(t: Term, f: Entry) -> bool
    decreases t,
{
    match t {
        Term::True => true,
        Term::False => false,
        Term::Exists => f.exists,
        Term::Empty => f.exists && f.size == 0 && (f.kind == Kind::Regular || f.kind
            == Kind::Directory),
        Term::Match(p) => globbed(p, base(f.name)),
        Term::IMatch(p) => globbed(p, lowercase(base(f.name))),
        Term::Suffix(all) => suffixed(all, f.name),
        Term::Type(code) => f.kind.letter() == code,
        Term::Name(all) => all.contains(base(f.name)),
        Term::Not(e) => !holds(*e, f),
        Term::AllOf(items) => all_hold(items, f),
        Term::AnyOf(items) => any_holds(items, f),
    }
}

/// Whether all of some expressions hold of a file.
pub open spec fn all_hold(items: Seq<Term>, f: Entry) -> bool
    decreases items,
{
    forall|k: int| 0 <= k < items.len() ==> holds(#[trigger] items[k], f)
}

/// Whether one of some expressions holds of a file.
pub open spec fn any_holds(items: Seq<Term>, f: Entry) -> bool
    decreases items,
{
    exists|k: int| 0 <= k < items.len() && holds(#[trigger] items[k], f)
}

/// The last component of a name.
fn basename(name: &str) -> (r: String)
    ensures
        r@ == base(name@),
{
    string_of(tail_after(chars_of(name).as_slice(), '/').as_slice())
}

/// An ASCII letter in lower case.
fn lower(c: char) -> (r: char)
    ensures
        r == ascii_lower(c),
{
    if 'A' <= c && c <= 'Z' {
        ((c as u32) as u8 + 32) as char
    } else {
        c
    }
}

/// Whether two texts are the same but for the case of ASCII letters.
fn eq_ignore_ascii_case(a: &[char], b: &[char]) -> (r: bool)
    ensures
        r == same_letters(a@, b@),
{
    let ghost low = |c: char| ascii_lower(c);
    if a.len() != b.len() {
        assert(a@.map_values(low).len() != b@.map_values(low).len());
        return false;
    }
    let mut i: usize = 0;
    while i < a.len()
        invariant
            i <= a@.len() == b@.len(),
            low == (|c: char| ascii_lower(c)),
            forall|k: int| 0 <= k < i ==> ascii_lower(#[trigger] a@[k]) == ascii_lower(b@[k]),
        decreases a@.len() - i,
    {
        if lower(a[i]) != lower(b[i]) {
            assert(a@.map_values(low)[i as int] != b@.map_values(low)[i as int]);
            return false;
        }
        i += 1;
    }
    assert(a@.map_values(low) =~= b@.map_values(low));
    true
}

/// Whether one of some suffixes is that of a name.
fn has_suffix(all: &[String], name: &str) -> (r: bool)
    ensures
        r == suffixed(texts(all@), name@),
{
    let ext = tail_after(chars_of(name).as_slice(), '.');
    let mut i: usize = 0;
    while i < all.len()
        invariant
            i <= all@.len(),
            ext@ == after_last(name@, '.'),
            forall|k: int| 0 <= k < i ==> !same_letters(#[trigger] texts(all@)[k], ext@),
        decreases all@.len() - i,
    {
        assert(texts(all@)[i as int] == all@[i as int]@);
        if eq_ignore_ascii_case(chars_of(all[i].as_str()).as_slice(), ext.as_slice()) {
            return true;
        }
        i += 1;
    }
    false
}

impl Expr {
    /// Whether the expression holds of a file.
    pub fn eval(&self, f: &FileInfo) -> (r: bool)
        ensures
            r == holds(self@, f@),
        decreases self,
    {
        match self {
            Expr::True => true,
            Expr::False => false,
            Expr::Exists => f.exists,
            Expr::Empty => f.exists && f.size == 0 && (f.kind == Kind::Regular || f.kind
                == Kind::Directory),
            Expr::Match(pat) => glob_match(pat.as_str(), basename(f.name.as_str()).as_str()),
            Expr::IMatch(pat) => glob_match(
                pat.as_str(),
                to_lowercase(basename(f.name.as_str()).as_str()).as_str(),
            ),
            Expr::Suffix(all) => has_suffix(all.as_slice(), f.name.as_str()),
            Expr::Type(code) => str_eq(f.kind.code(), code.as_str()),
            Expr::Name(all) => contains_str(all.as_slice(), basename(f.name.as_str()).as_str()),
            Expr::Not(e) => !e.eval(f),
            Expr::AllOf(items) => {
                let mut i: usize = 0;
                proof {
                    lemma_terms(items@);
                }
                while i < items.len()
                    invariant
                        i <= items@.len(),
                        self == Expr::AllOf(*items),
                        terms(items@).len() == items@.len(),
                        forall|k: int|
                            0 <= k < items@.len() ==> #[trigger] terms(items@)[k] == items@[k]@,
                        forall|k: int| 0 <= k < i ==> holds(#[trigger] terms(items@)[k], f@),
                    decreases items@.len() - i,
                {
                    assert(decreases_to!(*self => self->AllOf_0));
                    assert(decreases_to!(*items => items[i as int]));
                    assert(terms(items@)[i as int] == items@[i as int]@);
                    if !items[i].eval(f) {
                        assert(self@ == Term::AllOf(terms(items@)));
                        assert(!all_hold(terms(items@), f@));
                        return false;
                    }
                    i += 1;
                }
                assert(self@ == Term::AllOf(terms(items@)));
                assert(all_hold(terms(items@), f@));
                true
            },
            Expr::AnyOf(items) => {
                let mut i: usize = 0;
                proof {
                    lemma_terms(items@);
                }
                while i < items.len()
                    invariant
                        i <= items@.len(),
                        self == Expr::AnyOf(*items),
                        terms(items@).len() == items@.len(),
                        forall|k: int|
                            0 <= k < items@.len() ==> #[trigger] terms(items@)[k] == items@[k]@,
                        forall|k: int| 0 <= k < i ==> !holds(#[trigger] terms(items@)[k], f@),
                    decreases items@.len() - i,
                {
                    assert(decreases_to!(*self => self->AnyOf_0));
                    assert(decreases_to!(*items => items[i as int]));
                    assert(terms(items@)[i as int] == items@[i as int]@);
                    if items[i].eval(f) {
                        assert(self@ == Term::AnyOf(terms(items@)));
                        assert(any_holds(terms(items@), f@));
                        return true;
                    }
                    i += 1;
                }
                assert(self@ == Term::AnyOf(terms(items@)));
                assert(!any_holds(terms(items@), f@));
                false
            },
        }
    }
}

/// The expression that a bare term stands for.
pub open spec fn bare(s: Seq<char>) -> Option<Term> {
    if s == "true"@ {
        Some(Term::True)
    } else if s == "false"@ {
        Some(Term::False)
    } else if s == "exists"@ {
        Some(Term::Exists)
    } else if s == "empty"@ {
        Some(Term::Empty)
    } else {
        None
    }
}

/// The strings of a value that is a string or a list; in a list, what is no
/// string is passed over.
pub open spec fn string_list(v: Datum) -> Result<Seq<Seq<char>>, Seq<char>> {
    match v {
        Datum::Str(s) => Ok(seq![s]),
        Datum::Array(items) => Ok(strings(items)),
        _ => Err("expected a string or list of strings"@),
    }
}

/// The text of an expression's argument.
pub open spec fn argument_text(items: Seq<Datum>) -> Option<Seq<char>> {
    if items.len() > 1 {
        items[1].text()
    } else {
        None
    }
}

/// The expression that a value stands for, or what is said of the first thing
/// that is wrong with it.
pub open spec fn parsed(v: Datum) -> Result<Term, Seq<char>>
    decreases v,
{
    match v {
        Datum::Str(s) => match bare(s) {
            Some(t) => Ok(t),
            None => Err("unsupported bare expression term: "@ + s),
        },
        Datum::Array(items) => if items.len() == 0 || items[0].text() is None {
            Err("expression missing op"@)
        } else {
            let op = items[0].text()->0;
            if bare(op) is Some {
                Ok(bare(op)->0)
            } else if op == "match"@ || op == "glob"@ {
                match argument_text(items) {
                    Some(p) => Ok(Term::Match(p)),
                    None => Err("match needs a pattern"@),
                }
            } else if op == "imatch"@ {
                match argument_text(items) {
                    Some(p) => Ok(Term::IMatch(lowercase(p))),
                    None => Err("imatch needs a pattern"@),
                }
            } else if op == "suffix"@ {
                if items.len() > 1 {
                    match string_list(items[1]) {
                        Ok(all) => Ok(Term::Suffix(all)),
                        Err(e) => Err(e),
                    }
                } else {
                    Err("suffix needs a value"@)
                }
            } else if op == "type"@ {
                match argument_text(items) {
                    Some(code) => Ok(Term::Type(code)),
                    None => Err("type needs a code"@),
                }
            } else if op == "name"@ {
                if items.len() > 1 {
                    match string_list(items[1]) {
                        Ok(all) => Ok(Term::Name(all)),
                        Err(e) => Err(e),
                    }
                } else {
                    Err("name needs a value"@)
                }
            } else if op == "not"@ {
                if items.len() > 1 {
                    match parsed(items[1]) {
                        Ok(t) => Ok(Term::Not(Box::new(t))),
                        Err(e) => Err(e),
                    }
                } else {
                    Err("not needs an expression"@)
                }
            } else if op == "allof"@ {
                match parsed_all(items.drop_first()) {
                    Ok(all) => Ok(Term::AllOf(all)),
                    Err(e) => Err(e),
                }
            } else if op == "anyof"@ {
                match parsed_all(items.drop_first()) {
                    Ok(all) => Ok(Term::AnyOf(all)),
                    Err(e) => Err(e),
                }
            } else {
                Err("unsupported expression term: "@ + op)
            }
        },
        _ => Err("expression must be an array or bare term string"@),
    }
}

/// The expressions that a row of values stands for, or what is said of the first
/// one that stands for none.
pub open spec fn parsed_all(items: Seq<Datum>) -> Result<Seq<Term>, Seq<char>>
    decreases items,
{
    if items.len() == 0 {
        Ok(Seq::empty())
    } else {
        match parsed_all(items.drop_last()) {
            Ok(front) => match parsed(items.last()) {
                Ok(t) => Ok(front.push(t)),
                Err(e) => Err(e),
            },
            Err(e) => Err(e),
        }
    }
}

/// What is wrong with the first values is wrong with all of them.
proof fn lemma_parsed_all_err(items: Seq<Datum>, n: int)
    requires
        0 <= n <= items.len(),
        parsed_all(items.take(n)) is Err,
    ensures
        parsed_all(items) == parsed_all(items.take(n)),
    decreases items.len() - n,
{
    if n == items.len() {
        assert(items.take(n) =~= items);
    } else {
        assert(items.take(n + 1).drop_last() =~= items.take(n));
        lemma_parsed_all_err(items, n + 1);
    }
}

/// What a result stands for.
pub open spec fn outcome(r: Result<Expr, String>) -> Result<Term, Seq<char>> {
    match r {
        Ok(e) => Ok(e@),
        Err(s) => Err(s@),
    }
}

/// The bare term that a text is.
fn parse_bare(s: &str) -> (r: Option<Expr>)
    ensures
        match r {
            Some(e) => bare(s@) == Some(e@),
            None => bare(s@) is None,
        },
{
    if str_eq(s, "true") {
        Some(Expr::True)
    } else if str_eq(s, "false") {
        Some(Expr::False)
    } else if str_eq(s, "exists") {
        Some(Expr::Exists)
    } else if str_eq(s, "empty") {
        Some(Expr::Empty)
    } else {
        None
    }
}

/// The strings of a value that is a string or a list.
fn string_or_list(v: &Value) -> (r: Result<Vec<String>, String>)
    ensures
        match string_list(v@) {
            Ok(all) => r is Ok && texts(r->Ok_0@) == all,
            Err(e) => r is Err && r->Err_0@ == e,
        },
{
    match v {
        Value::Str(s) => {
            let mut out: Vec<String> = Vec::new();
            out.push(s.clone());
            assert(texts(out@) =~= seq![s@]);
            Ok(out)
        },
        Value::Array(items) => Ok(collect_strings(items.as_slice())),
        _ => Err("expected a string or list of strings".to_string()),
    }
}

/// The text of an expression's argument.
fn text_argument(items: &[Value]) -> (r: Option<&str>)
    ensures
        match r {
            Some(s) => argument_text(data(items@)) == Some(s@),
            None => argument_text(data(items@)) is None,
        },
{
    proof {
        lemma_data(items@);
    }
    if items.len() > 1 {
        assert(data(items@)[1] == items@[1]@);
        items[1].as_str()
    } else {
        None
    }
}

/// What is said of something.
fn complaint(front: &str, what: &str) -> (r: String)
    ensures
        r@ == front@ + what@,
{
    let mut out = front.to_string();
    out.append(what);
    out
}

impl Expr {
    /// The expression that a value stands for.
    pub fn parse(v: &Value) -> (r: Result<Expr, String>)
        ensures
            outcome(r) == parsed(v@),
        decreases v, 1nat,
    {
        match v {
            Value::Str(s) => match parse_bare(s.as_str()) {
                Some(e) => Ok(e),
                None => Err(complaint("unsupported bare expression term: ", s.as_str())),
            },
            Value::Array(items) => {
                proof {
                    lemma_data(items@);
                }
                let all = items.as_slice();
                let op = if all.len() == 0 {
                    None
                } else {
                    assert(data(items@)[0] == items@[0]@);
                    all[0].as_str()
                };
                let op = match op {
                    Some(op) => op,
                    None => return Err("expression missing op".to_string()),
                };
                match parse_bare(op) {
                    Some(e) => return Ok(e),
                    None => {},
                }
                if str_eq(op, "match") || str_eq(op, "glob") {
                    match text_argument(all) {
                        Some(p) => Ok(Expr::Match(p.to_string())),
                        None => Err("match needs a pattern".to_string()),
                    }
                } else if str_eq(op, "imatch") {
                    match text_argument(all) {
                        Some(p) => Ok(Expr::IMatch(to_lowercase(p))),
                        None => Err("imatch needs a pattern".to_string()),
                    }
                } else if str_eq(op, "suffix") {
                    if all.len() > 1 {
                        assert(data(items@)[1] == items@[1]@);
                        match string_or_list(&all[1]) {
                            Ok(list) => Ok(Expr::Suffix(list)),
                            Err(e) => Err(e),
                        }
                    } else {
                        Err("suffix needs a value".to_string())
                    }
                } else if str_eq(op, "type") {
                    match text_argument(all) {
                        Some(code) => Ok(Expr::Type(code.to_string())),
                        None => Err("type needs a code".to_string()),
                    }
                } else if str_eq(op, "name") {
                    if all.len() > 1 {
                        assert(data(items@)[1] == items@[1]@);
                        match string_or_list(&all[1]) {
                            Ok(list) => Ok(Expr::Name(list)),
                            Err(e) => Err(e),
                        }
                    } else {
                        Err("name needs a value".to_string())
                    }
                } else if str_eq(op, "not") {
                    if all.len() > 1 {
                        assert(data(items@)[1] == items@[1]@);
                        assert(decreases_to!(*v => v->Array_0));
                        assert(decreases_to!(*items => items[1]));
                        match Expr::parse(&items[1]) {
                            Ok(e) => Ok(Expr::Not(Box::new(e))),
                            Err(e) => Err(e),
                        }
                    } else {
                        Err("not needs an expression".to_string())
                    }
                } else if str_eq(op, "allof") {
                    match Expr::parse_rest(v) {
                        Ok(list) => Ok(Expr::AllOf(list)),
                        Err(e) => Err(e),
                    }
                } else if str_eq(op, "anyof") {
                    match Expr::parse_rest(v) {
                        Ok(list) => Ok(Expr::AnyOf(list)),
                        Err(e) => Err(e),
                    }
                } else {
                    Err(complaint("unsupported expression term: ", op))
                }
            },
            _ => Err("expression must be an array or bare term string".to_string()),
        }
    }

    /// The expressions that stand behind the first element of an array.
    fn parse_rest(v: &Value) -> (r: Result<Vec<Expr>, String>)
        requires
            v is Array,
            v->Array_0@.len() > 0,
        ensures
            match parsed_all(data(v->Array_0@).drop_first()) {
                Ok(all) => r is Ok && terms(r->Ok_0@) == all,
                Err(e) => r is Err && r->Err_0@ == e,
            },
        decreases v, 0nat,
    {
        let mut out: Vec<Expr> = Vec::new();
        match v {
            Value::Array(items) => {
                let ghost rest = data(items@).drop_first();
                let mut i: usize = 1;
                proof {
                    lemma_data(items@);
                    assert(rest.take(0) =~= Seq::<Datum>::empty());
                    assert(terms(out@) =~= Seq::<Term>::empty());
                }
                while i < items.len()
                    invariant
                        1 <= i <= items@.len(),
                        v == Value::Array(*items),
                        rest == data(items@).drop_first(),
                        data(items@).len() == items@.len(),
                        forall|k: int|
                            0 <= k < items@.len() ==> #[trigger] data(items@)[k] == items@[k]@,
                        parsed_all(rest.take(i - 1)) == Ok::<Seq<Term>, Seq<char>>(terms(out@)),
                    decreases items@.len() - i,
                {
                    assert(decreases_to!(*v => v->Array_0));
                    assert(decreases_to!(*items => items[i as int]));
                    proof {
                        assert(rest.take(i as int).drop_last() =~= rest.take(i - 1));
                        assert(rest.take(i as int).last() == data(items@)[i as int]);
                    }
                    match Expr::parse(&items[i]) {
                        Ok(e) => {
                            proof {
                                lemma_terms_push(out@, e);
                            }
                            out.push(e);
                        },
                        Err(e) => {
                            proof {
                                lemma_parsed_all_err(rest, i as int);
                            }
                            return Err(e);
                        },
                    }
                    i += 1;
                }
                assert(rest.take(i - 1) =~= rest);
            },
            _ => {},
        }
        Ok(out)
    }
}

/// A match that ignores case does not tell files apart whose last components are
/// ASCII and differ in case alone.
pub proof fn law_imatch_ignores_case(p: Seq<char>, a: Entry, b: Entry)
    requires
        is_ascii_chars(base(a.name)),
        is_ascii_chars(base(b.name)),
        same_letters(base(a.name), base(b.name)),
    ensures
        holds(Term::IMatch(p), a) == holds(Term::IMatch(p), b),
{
}

/// An expression holds if and only if its negation does not; all of no expressions
/// hold, and none of none does.
pub proof fn law_not_allof_anyof(t: Term, f: Entry)
    ensures
        holds(Term::Not(Box::new(t)), f) == !holds(t, f),
        holds(Term::AllOf(Seq::empty()), f),
        !holds(Term::AnyOf(Seq::empty()), f),
{
    assert(all_hold(Seq::<Term>::empty(), f));
    assert(!any_holds(Seq::<Term>::empty(), f));
}

/// A term that may stand alone means the same in an array, whatever follows it
/// there.
pub proof fn law_bare_terms_in_arrays(s: Seq<char>, items: Seq<Datum>)
    requires
        bare(s) is Some,
        items.len() > 0,
        items[0] == Datum::Str(s),
    ensures
        parsed(Datum::Array(items)) == parsed(Datum::Str(s)),
        parsed(Datum::Str(s)) == Ok::<Term, Seq<char>>(bare(s)->0),
{
}

/// All of some expressions hold if and only if each does, at whichever place it
/// stands: one more that holds changes nothing, and one that does not decides. One of
/// some expressions holds in the opposite way.
pub proof fn law_allof_and_anyof(items: Seq<Term>, t: Term, f: Entry, k: int)
    ensures
        holds(Term::AllOf(items.push(t)), f) == (holds(Term::AllOf(items), f) && holds(t, f)),
        holds(Term::AnyOf(items.push(t)), f) == (holds(Term::AnyOf(items), f) || holds(t, f)),
        0 <= k < items.len() && !holds(items[k], f) ==> !holds(Term::AllOf(items), f),
        0 <= k < items.len() && holds(items[k], f) ==> holds(Term::AnyOf(items), f),
        holds(Term::AllOf(seq![t]), f) == holds(t, f),
        holds(Term::AnyOf(seq![t]), f) == holds(t, f),
{
    let more = items.push(t);
    assert forall|j: int| 0 <= j < items.len() implies #[trigger] more[j] == items[j] by {}
    assert(more[items.len() as int] == t);
    if all_hold(items, f) && holds(t, f) {
        assert forall|j: int| 0 <= j < more.len() implies holds(#[trigger] more[j], f) by {
            if j < items.len() {
                assert(items[j] == more[j]);
            }
        }
    }
    if all_hold(more, f) {
        assert forall|j: int| 0 <= j < items.len() implies holds(#[trigger] items[j], f) by {
            assert(more[j] == items[j]);
        }
    }
    if any_holds(more, f) {
        let j = choose|j: int| 0 <= j < more.len() && holds(#[trigger] more[j], f);
        if j < items.len() {
            assert(holds(items[j], f));
        }
    }
    if any_holds(items, f) {
        let j = choose|j: int| 0 <= j < items.len() && holds(#[trigger] items[j], f);
        assert(holds(more[j], f));
    }
    assert(holds(more[items.len() as int], f) == holds(t, f));
    let one = seq![t];
    assert(one[0] == t);
    assert(all_hold(one, f) == holds(t, f));
    assert(any_holds(one, f) == holds(t, f));
}

/// Of two rows of expressions, all hold if and only if all of each hold, and one holds
/// if and only if one of either does; their order does not matter.
pub proof fn law_allof_anyof_of_two(a: Seq<Term>, b: Seq<Term>, f: Entry)
    ensures
        holds(Term::AllOf(a + b), f) == (holds(Term::AllOf(a), f) && holds(Term::AllOf(b), f)),
        holds(Term::AnyOf(a + b), f) == (holds(Term::AnyOf(a), f) || holds(Term::AnyOf(b), f)),
    decreases b.len(),
{
    if b.len() == 0 {
        assert(a + b =~= a);
        law_not_allof_anyof(Term::True, f);
        assert(b =~= Seq::<Term>::empty());
    } else {
        let less = b.drop_last();
        law_allof_anyof_of_two(a, less, f);
        assert((a + less).push(b.last()) =~= a + b);
        assert(less.push(b.last()) =~= b);
        law_allof_and_anyof(a + less, b.last(), f, 0);
        law_allof_and_anyof(less, b.last(), f, 0);
    }
}

/// What the terms without arguments say of a file.
pub proof fn law_plain_terms(f: Entry)
    ensures
        holds(Term::True, f),
        !holds(Term::False, f),
        holds(Term::Exists, f) == f.exists,
        holds(Term::Empty, f) <==> f.exists && f.size == 0 && (f.kind == Kind::Regular || f.kind
            == Kind::Directory),
{
}

/// The terms on a name look at its last component alone, in whichever directory the
/// file lies: `match` as a pattern, `imatch` in lower case, `name` as it stands.
pub proof fn law_terms_on_the_last_component(
    f: Entry,
    dir: Seq<char>,
    last: Seq<char>,
    p: Seq<char>,
    names: Seq<Seq<char>>,
)
    requires
        forall|k: int| 0 <= k < last.len() ==> (#[trigger] last[k]) != '/',
        f.name == last || f.name == dir + seq!['/'] + last,
    ensures
        holds(Term::Match(p), f) == globbed(p, last),
        holds(Term::IMatch(p), f) == globbed(p, lowercase(last)),
        holds(Term::Name(names), f) <==> exists|k: int|
            0 <= k < names.len() && #[trigger] names[k] == last,
{
    law_after_last(dir, last, '/');
}

/// The term on suffixes looks at what follows the last dot of the whole name, or at the
/// name where it has no dot, and compares without regard to the case of ASCII letters.
pub proof fn law_suffixes(f: Entry, front: Seq<char>, last: Seq<char>, all: Seq<Seq<char>>)
    requires
        forall|k: int| 0 <= k < last.len() ==> (#[trigger] last[k]) != '.',
        f.name == last || f.name == front + seq!['.'] + last,
    ensures
        holds(Term::Suffix(all), f) <==> exists|k: int|
            0 <= k < all.len() && same_but_for_case(#[trigger] all[k], last),
{
    law_after_last(front, last, '.');
    assert forall|k: int| 0 <= k < all.len() implies same_but_for_case(#[trigger] all[k], last)
        == same_letters(all[k], last) by {
        lemma_same_letters(all[k], last);
    }
    if suffixed(all, f.name) {
        let k = choose|k: int|
            0 <= k < all.len() && same_letters(#[trigger] all[k], after_last(f.name, '.'));
        assert(same_but_for_case(all[k], last));
    }
    if exists|k: int| 0 <= k < all.len() && same_but_for_case(#[trigger] all[k], last) {
        let k = choose|k: int| 0 <= k < all.len() && same_but_for_case(#[trigger] all[k], last);
        assert(same_letters(all[k], last));
    }
}

/// Whether two characters are the same, or the same ASCII letter in either case.
pub open spec fn same_but_case(a: char, b: char) -> bool {
    ||| a == b
    ||| 'A' <= a <= 'Z' && b as u32 == a as u32 + 32
    ||| 'A' <= b <= 'Z' && a as u32 == b as u32 + 32
}

/// Whether two texts have the same characters but for the case of ASCII letters.
pub open spec fn same_but_for_case(a: Seq<char>, b: Seq<char>) -> bool {
    a.len() == b.len() && forall|k: int| 0 <= k < a.len() ==> same_but_case(#[trigger] a[k], b[k])
}

proof fn lemma_same_letters(a: Seq<char>, b: Seq<char>)
    ensures
        same_but_for_case(a, b) == same_letters(a, b),
{
    let low = |c: char| ascii_lower(c);
    let x = a.map_values(low);
    let y = b.map_values(low);
    assert forall|k: int| 0 <= k < a.len() && k < b.len() implies same_but_case(#[trigger] a[k], b[k])
        == (x[k] == y[k]) by {
        assert(x[k] == ascii_lower(a[k]) && y[k] == ascii_lower(b[k]));
    }
    if same_letters(a, b) {
        assert(x.len() == y.len());
        assert forall|k: int| 0 <= k < a.len() implies same_but_case(#[trigger] a[k], b[k]) by {
            assert(x[k] == y[k]);
        }
    } else if same_but_for_case(a, b) {
        assert forall|k: int| 0 <= k < x.len() implies x[k] == y[k] by {
            assert(same_but_case(a[k], b[k]));
        }
        assert(x =~= y);
    }
}

/// The term on the kind of a file holds for one letter alone, that of the kind.
pub proof fn law_types(f: Entry, code: Seq<char>)
    ensures
        holds(Term::Type(code), f) <==> code.len() == 1 && (match f.kind {
            Kind::BlockSpecial => code[0] == 'b',
            Kind::CharSpecial => code[0] == 'c',
            Kind::Directory => code[0] == 'd',
            Kind::Regular => code[0] == 'f',
            Kind::Fifo => code[0] == 'p',
            Kind::Symlink => code[0] == 'l',
            Kind::Socket => code[0] == 's',
            Kind::Unknown => code[0] == '?',
        }),
{
    law_letters(f.kind);
    if code.len() == 1 && code[0] == f.kind.letter()[0] {
        assert(code =~= f.kind.letter());
    }
}

/// A star stands for nothing, or for one more character; a question mark for one
/// character; any other character for itself. A pattern without anything matches the
/// text without anything.
pub proof fn law_globs(c: char, p: Seq<char>, t: Seq<char>)
    ensures
        globbed(Seq::empty(), t) <==> t.len() == 0,
        globbed(seq!['*'] + p, t) <==> globbed(p, t) || (t.len() > 0 && globbed(
            seq!['*'] + p,
            t.skip(1),
        )),
        globbed(seq!['?'] + p, t) <==> t.len() > 0 && globbed(p, t.skip(1)),
        c != '*' && c != '?' ==> (globbed(seq![c] + p, t) <==> t.len() > 0 && t[0] == c && globbed(
            p,
            t.skip(1),
        )),
{
    let star = seq!['*'] + p;
    assert(star.skip(1) =~= p);
    assert((seq!['?'] + p).skip(1) =~= p);
    assert((seq![c] + p).skip(1) =~= p);
    assert(t.skip(0) =~= t);
    if globbed(star, t) {
        let i = choose|i: int| 0 <= i <= t.len() && globbed(star.skip(1), #[trigger] t.skip(i));
        if i > 0 {
            assert(t.skip(1).skip(i - 1) =~= t.skip(i));
            assert(globbed(star.skip(1), t.skip(1).skip(i - 1)));
        }
    }
    if globbed(p, t) {
        assert(globbed(star.skip(1), t.skip(0)));
    }
    if t.len() > 0 && globbed(star, t.skip(1)) {
        let rest = t.skip(1);
        let i = choose|i: int| 0 <= i <= rest.len() && globbed(
            star.skip(1),
            #[trigger] rest.skip(i),
        );
        assert(rest.skip(i) =~= t.skip(i + 1));
        assert(globbed(star.skip(1), t.skip(i + 1)));
    }
}

/// A pattern between two stars matches what holds it anywhere; behind a star it matches
/// what ends with it, and before a star what starts with it.
pub proof fn law_stars_around_a_text(front: Seq<char>, p: Seq<char>, back: Seq<char>)
    requires
        forall|k: int| 0 <= k < p.len() ==> (#[trigger] p[k]) != '*' && p[k] != '?',
    ensures
        globbed(seq!['*'] + p, front + p),
        globbed(p + seq!['*'], p + back),
        globbed(seq!['*'] + p + seq!['*'], front + p + back),
{
    law_plain_pattern(p, p);
    lemma_star_skips(p, front, p);
    lemma_pattern_front(p, back);
    assert(seq!['*'] + p + seq!['*'] =~= seq!['*'] + (p + seq!['*']));
    assert(front + p + back =~= front + (p + back));
    lemma_star_skips(p + seq!['*'], front, p + back);
}

/// A star stands for any text.
proof fn lemma_star_skips(p: Seq<char>, front: Seq<char>, t: Seq<char>)
    requires
        globbed(p, t),
    ensures
        globbed(seq!['*'] + p, front + t),
{
    let q = seq!['*'] + p;
    let s = front + t;
    assert(q.skip(1) =~= p);
    assert(s.skip(front.len() as int) =~= t);
    assert(globbed(q.skip(1), s.skip(front.len() as int)));
}

/// A plain pattern before a star matches what starts with it.
proof fn lemma_pattern_front(p: Seq<char>, back: Seq<char>)
    requires
        forall|k: int| 0 <= k < p.len() ==> (#[trigger] p[k]) != '*' && p[k] != '?',
    ensures
        globbed(p + seq!['*'], p + back),
    decreases p.len(),
{
    if p.len() == 0 {
        assert(p + seq!['*'] =~= seq!['*']);
        law_star_matches_all(p + back);
    } else {
        let q = p.skip(1);
        assert forall|k: int| 0 <= k < q.len() implies (#[trigger] q[k]) != '*' && q[k] != '?' by {
            assert(q[k] == p[k + 1]);
        }
        lemma_pattern_front(q, back);
        assert((p + seq!['*']).skip(1) =~= q + seq!['*']);
        assert((p + back).skip(1) =~= q + back);
    }
}

/// The names of the terms are told apart.
proof fn lemma_ops()
    ensures
        forall|a: int, b: int|
            0 <= a < b < ops().len() ==> #[trigger] ops()[a] != #[trigger] ops()[b],
{
    reveal_strlit("true");
    reveal_strlit("false");
    reveal_strlit("exists");
    reveal_strlit("empty");
    reveal_strlit("match");
    reveal_strlit("glob");
    reveal_strlit("imatch");
    reveal_strlit("suffix");
    reveal_strlit("type");
    reveal_strlit("name");
    reveal_strlit("not");
    reveal_strlit("allof");
    reveal_strlit("anyof");
    assert("true"@.len() == 4 && "true"@[1] == 'r');
    assert("type"@.len() == 4 && "type"@[1] == 'y');
    assert("name"@.len() == 4 && "name"@[1] == 'a');
    assert("glob"@.len() == 4 && "glob"@[1] == 'l');
    assert("false"@.len() == 5 && "false"@[1] == 'a' && "false"@[0] == 'f');
    assert("empty"@.len() == 5 && "empty"@[1] == 'm');
    assert("match"@.len() == 5 && "match"@[1] == 'a' && "match"@[0] == 'm');
    assert("allof"@.len() == 5 && "allof"@[1] == 'l');
    assert("anyof"@.len() == 5 && "anyof"@[1] == 'n');
    assert("exists"@.len() == 6 && "exists"@[0] == 'e');
    assert("imatch"@.len() == 6 && "imatch"@[0] == 'i');
    assert("suffix"@.len() == 6 && "suffix"@[0] == 's');
    assert("not"@.len() == 3);
}

/// The names of the terms.
pub open spec fn ops() -> Seq<Seq<char>> {
    seq![
        "true"@,
        "false"@,
        "exists"@,
        "empty"@,
        "match"@,
        "glob"@,
        "imatch"@,
        "suffix"@,
        "type"@,
        "name"@,
        "not"@,
        "allof"@,
        "anyof"@,
    ]
}

/// What no term is named.
proof fn lemma_ops_distinct(a: int, b: int)
    requires
        0 <= a < 13,
        0 <= b < 13,
        a != b,
    ensures
        ops()[a] != ops()[b],
{
    lemma_ops();
    if a < b {
        assert(ops()[a] != ops()[b]);
    } else {
        assert(ops()[b] != ops()[a]);
    }
}

/// An array that starts with the name of a term and its argument is read as that term,
/// whatever follows.
pub proof fn law_terms_with_a_text(p: Seq<char>, more: Seq<Datum>)
    ensures
        ({
            let on = |op: Seq<char>| {
                parsed(Datum::Array(seq![Datum::Str(op), Datum::Str(p)] + more))
            };
            &&& on("match"@) == Ok::<Term, Seq<char>>(Term::Match(p))
            &&& on("glob"@) == on("match"@)
            &&& on("imatch"@) == Ok::<Term, Seq<char>>(Term::IMatch(lowercase(p)))
            &&& on("type"@) == Ok::<Term, Seq<char>>(Term::Type(p))
            &&& on("suffix"@) == Ok::<Term, Seq<char>>(Term::Suffix(seq![p]))
            &&& on("name"@) == Ok::<Term, Seq<char>>(Term::Name(seq![p]))
        }),
{
    lemma_ops();
    assert forall|a: int, b: int| 0 <= a < 13 && 0 <= b < 13 && a != b implies #[trigger] ops()[a]
        != #[trigger] ops()[b] by {
        lemma_ops_distinct(a, b);
    }
    let all = ops();
    assert(all[0] == "true"@ && all[1] == "false"@ && all[2] == "exists"@ && all[3] == "empty"@);
    assert(all[4] == "match"@ && all[5] == "glob"@ && all[6] == "imatch"@ && all[7] == "suffix"@);
    assert(all[8] == "type"@ && all[9] == "name"@);
    lemma_text_term("match"@, p, more);
    lemma_text_term("glob"@, p, more);
    lemma_text_term("imatch"@, p, more);
    lemma_text_term("type"@, p, more);
    lemma_text_term("suffix"@, p, more);
    lemma_text_term("name"@, p, more);
}

/// The argument of a term.
proof fn lemma_text_term(op: Seq<char>, p: Seq<char>, more: Seq<Datum>)
    ensures
        ({
            let items = seq![Datum::Str(op), Datum::Str(p)] + more;
            &&& items.len() >= 2
            &&& items[0].text() == Some(op)
            &&& items[1] == Datum::Str(p)
            &&& argument_text(items) == Some(p)
            &&& string_list(items[1]) == Ok::<Seq<Seq<char>>, Seq<char>>(seq![p])
        }),
{
    let items = seq![Datum::Str(op), Datum::Str(p)] + more;
    assert(items[0] == Datum::Str(op));
    assert(items[1] == Datum::Str(p));
}

/// The terms on suffixes and names take lists too: the strings of the list, in their
/// order.
pub proof fn law_terms_with_a_list(list: Seq<Datum>, more: Seq<Datum>)
    ensures
        parsed(Datum::Array(seq![Datum::Str("suffix"@), Datum::Array(list)] + more)) == Ok::<
            Term,
            Seq<char>,
        >(Term::Suffix(strings(list))),
        parsed(Datum::Array(seq![Datum::Str("name"@), Datum::Array(list)] + more)) == Ok::<
            Term,
            Seq<char>,
        >(Term::Name(strings(list))),
{
    assert forall|a: int, b: int| 0 <= a < 13 && 0 <= b < 13 && a != b implies #[trigger] ops()[a]
        != #[trigger] ops()[b] by {
        lemma_ops_distinct(a, b);
    }
    let all = ops();
    assert(all[0] == "true"@ && all[1] == "false"@ && all[2] == "exists"@ && all[3] == "empty"@);
    assert(all[4] == "match"@ && all[5] == "glob"@ && all[6] == "imatch"@ && all[7] == "suffix"@);
    assert(all[8] == "type"@ && all[9] == "name"@);
    let a = seq![Datum::Str("suffix"@), Datum::Array(list)] + more;
    let b = seq![Datum::Str("name"@), Datum::Array(list)] + more;
    assert(a[0] == Datum::Str("suffix"@) && a[1] == Datum::Array(list));
    assert(b[0] == Datum::Str("name"@) && b[1] == Datum::Array(list));
}

/// A negation negates the expression behind it; an array of all or of one of some
/// expressions is made of exactly those behind its name, in their order. What is wrong
/// with one of them is what is wrong with the whole.
pub proof fn law_terms_of_terms(items: Seq<Datum>, v: Datum, more: Seq<Datum>)
    ensures
        parsed(Datum::Array(seq![Datum::Str("not"@), v] + more)) == (match parsed(v) {
            Ok(t) => Ok::<Term, Seq<char>>(Term::Not(Box::new(t))),
            Err(e) => Err(e),
        }),
        parsed(Datum::Array(seq![Datum::Str("allof"@)])) == Ok::<Term, Seq<char>>(
            Term::AllOf(Seq::empty()),
        ),
        parsed(Datum::Array(seq![Datum::Str("anyof"@)])) == Ok::<Term, Seq<char>>(
            Term::AnyOf(Seq::empty()),
        ),
        ({
            let front = seq![Datum::Str("allof"@)] + items;
            parsed(Datum::Array(front.push(v))) == (match (parsed(Datum::Array(front)), parsed(v)) {
                (Ok(Term::AllOf(all)), Ok(t)) => Ok::<Term, Seq<char>>(Term::AllOf(all.push(t))),
                (Ok(other), Ok(_)) => Ok(other),
                (Ok(_), Err(e)) => Err(e),
                (Err(e), _) => Err(e),
            })
        }),
        ({
            let front = seq![Datum::Str("anyof"@)] + items;
            parsed(Datum::Array(front.push(v))) == (match (parsed(Datum::Array(front)), parsed(v)) {
                (Ok(Term::AnyOf(all)), Ok(t)) => Ok::<Term, Seq<char>>(Term::AnyOf(all.push(t))),
                (Ok(other), Ok(_)) => Ok(other),
                (Ok(_), Err(e)) => Err(e),
                (Err(e), _) => Err(e),
            })
        }),
{
    assert forall|a: int, b: int| 0 <= a < 13 && 0 <= b < 13 && a != b implies #[trigger] ops()[a]
        != #[trigger] ops()[b] by {
        lemma_ops_distinct(a, b);
    }
    let all = ops();
    assert(all[0] == "true"@ && all[1] == "false"@ && all[2] == "exists"@ && all[3] == "empty"@);
    assert(all[4] == "match"@ && all[5] == "glob"@ && all[6] == "imatch"@ && all[7] == "suffix"@);
    assert(all[8] == "type"@ && all[9] == "name"@ && all[10] == "not"@ && all[11] == "allof"@
        && all[12] == "anyof"@);
    let n = seq![Datum::Str("not"@), v] + more;
    assert(n[0] == Datum::Str("not"@) && n[1] == v);
    lemma_list_term("allof"@, items, v);
    lemma_list_term("anyof"@, items, v);
    assert(parsed_all(Seq::<Datum>::empty()) == Ok::<Seq<Term>, Seq<char>>(Seq::empty()));
    lemma_parsed_all_push(items, v);
    let a = seq![Datum::Str("allof"@)] + items;
    let o = seq![Datum::Str("anyof"@)] + items;
    assert(parsed(Datum::Array(a)) == (match parsed_all(items) {
        Ok(all) => Ok::<Term, Seq<char>>(Term::AllOf(all)),
        Err(e) => Err(e),
    }));
    assert(parsed(Datum::Array(a.push(v))) == (match parsed_all(items.push(v)) {
        Ok(all) => Ok::<Term, Seq<char>>(Term::AllOf(all)),
        Err(e) => Err(e),
    }));
    assert(parsed(Datum::Array(o)) == (match parsed_all(items) {
        Ok(all) => Ok::<Term, Seq<char>>(Term::AnyOf(all)),
        Err(e) => Err(e),
    }));
    assert(parsed(Datum::Array(o.push(v))) == (match parsed_all(items.push(v)) {
        Ok(all) => Ok::<Term, Seq<char>>(Term::AnyOf(all)),
        Err(e) => Err(e),
    }));
}

/// One more value stands for one more expression.
proof fn lemma_parsed_all_push(items: Seq<Datum>, v: Datum)
    ensures
        parsed_all(items.push(v)) == (match (parsed_all(items), parsed(v)) {
            (Ok(all), Ok(t)) => Ok::<Seq<Term>, Seq<char>>(all.push(t)),
            (Ok(_), Err(e)) => Err(e),
            (Err(e), _) => Err(e),
        }),
{
    assert(items.push(v).drop_last() =~= items);
}

/// What stands behind the name of a term.
proof fn lemma_list_term(op: Seq<char>, items: Seq<Datum>, v: Datum)
    ensures
        ({
            let one = seq![Datum::Str(op)];
            let front = one + items;
            &&& one[0].text() == Some(op)
            &&& front[0].text() == Some(op)
            &&& front.push(v)[0].text() == Some(op)
            &&& one.drop_first() == Seq::<Datum>::empty()
            &&& front.drop_first() == items
            &&& front.push(v).drop_first() == items.push(v)
            &&& items.push(v).drop_last() == items
        }),
{
    let one = seq![Datum::Str(op)];
    let front = one + items;
    assert(one.drop_first() =~= Seq::<Datum>::empty());
    assert(front.drop_first() =~= items);
    assert(front.push(v).drop_first() =~= items.push(v));
    assert(items.push(v).drop_last() =~= items);
    assert(front[0] == Datum::Str(op));
    assert(front.push(v)[0] == Datum::Str(op));
}

/// A term that takes an argument needs one, and one of the right kind.
pub proof fn law_terms_need_their_arguments(items: Seq<Datum>)
    requires
        items.len() > 0,
        ({
            let op = items[0];
            ||| (op == Datum::Str("match"@) || op == Datum::Str("glob"@) || op == Datum::Str(
                "imatch"@,
            ) || op == Datum::Str("type"@)) && (items.len() == 1 || !(items[1] is Str))
            ||| (op == Datum::Str("suffix"@) || op == Datum::Str("name"@)) && (items.len() == 1
                || !(items[1] is Str || items[1] is Array))
            ||| op == Datum::Str("not"@) && (items.len() == 1 || parsed(items[1]) is Err)
        }),
    ensures
        parsed(Datum::Array(items)) is Err,
{
    assert forall|a: int, b: int| 0 <= a < 13 && 0 <= b < 13 && a != b implies #[trigger] ops()[a]
        != #[trigger] ops()[b] by {
        lemma_ops_distinct(a, b);
    }
    let all = ops();
    assert(all[0] == "true"@ && all[1] == "false"@ && all[2] == "exists"@ && all[3] == "empty"@);
    assert(all[4] == "match"@ && all[5] == "glob"@ && all[6] == "imatch"@ && all[7] == "suffix"@);
    assert(all[8] == "type"@ && all[9] == "name"@ && all[10] == "not"@);
}

/// What is neither a string nor an array is no expression, nor is an array that does
/// not start with the name of a term.
pub proof fn law_what_is_no_expression(v: Datum)
    requires
        match v {
            Datum::Str(s) => s != "true"@ && s != "false"@ && s != "exists"@ && s != "empty"@,
            Datum::Array(items) => items.len() > 0 ==> (match items[0] {
                Datum::Str(op) => forall|k: int| 0 <= k < ops().len() ==> #[trigger] ops()[k] != op,
                _ => true,
            }),
            _ => true,
        },
    ensures
        parsed(v) is Err,
{
    let all = ops();
    assert(all[0] == "true"@ && all[1] == "false"@ && all[2] == "exists"@ && all[3] == "empty"@);
    assert(all[4] == "match"@ && all[5] == "glob"@ && all[6] == "imatch"@ && all[7] == "suffix"@);
    assert(all[8] == "type"@ && all[9] == "name"@ && all[10] == "not"@ && all[11] == "allof"@
        && all[12] == "anyof"@);
}

/// Bare terms are those four, and stand for what they are named after.
pub proof fn law_bare_terms(s: Seq<char>)
    ensures
        parsed(Datum::Str(s)) == Ok::<Term, Seq<char>>(Term::True) <==> s == "true"@,
        parsed(Datum::Str(s)) == Ok::<Term, Seq<char>>(Term::False) <==> s == "false"@,
        parsed(Datum::Str(s)) == Ok::<Term, Seq<char>>(Term::Exists) <==> s == "exists"@,
        parsed(Datum::Str(s)) == Ok::<Term, Seq<char>>(Term::Empty) <==> s == "empty"@,
        parsed(Datum::Str(s)) is Ok <==> s == "true"@ || s == "false"@ || s == "exists"@ || s
            == "empty"@,
{
    assert forall|a: int, b: int| 0 <= a < 13 && 0 <= b < 13 && a != b implies #[trigger] ops()[a]
        != #[trigger] ops()[b] by {
        lemma_ops_distinct(a, b);
    }
    let all = ops();
    assert(all[0] == "true"@ && all[1] == "false"@ && all[2] == "exists"@ && all[3] == "empty"@);
}

/// What comes of an expression is the term that it stands for, or what is wrong with it.
pub proof fn law_what_expressions_stand_for(e: Expr, msg: String)
    ensures
        outcome(Ok(e)) == Ok::<Term, Seq<char>>(e@),
        outcome(Err(msg)) == Err::<Term, Seq<char>>(msg@),
        match e {
            Expr::True => e@ == Term::True,
            Expr::False => e@ == Term::False,
            Expr::Exists => e@ == Term::Exists,
            Expr::Empty => e@ == Term::Empty,
            Expr::Match(p) => e@ == Term::Match(p@),
            Expr::IMatch(p) => e@ == Term::IMatch(p@),
            Expr::Suffix(all) => e@ == Term::Suffix(texts(all@)),
            Expr::Type(code) => e@ == Term::Type(code@),
            Expr::Name(all) => e@ == Term::Name(texts(all@)),
            Expr::Not(inner) => e@ == Term::Not(Box::new((*inner)@)),
            Expr::AllOf(items) => e@ is AllOf && e@->AllOf_0.len() == items@.len() && forall|k: int|
                0 <= k < items@.len() ==> #[trigger] e@->AllOf_0[k] == items@[k]@,
            Expr::AnyOf(items) => e@ is AnyOf && e@->AnyOf_0.len() == items@.len() && forall|k: int|
                0 <= k < items@.len() ==> #[trigger] e@->AnyOf_0[k] == items@[k]@,
        },
{
    match e {
        Expr::AllOf(items) => lemma_terms(items@),
        Expr::AnyOf(items) => lemma_terms(items@),
        _ => {},
    }
}

} // verus!
