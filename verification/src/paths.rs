//! Paths, which this library holds as bytes with `/` between the components,
//! and the files that the daemon keeps under the directory for temporary files.

use vstd::prelude::*;
use vstd::string::StringExecFns;
use vstd::utf8::*;

use crate::bser::push_all;
use crate::text::{bytes_eq, optional_text};

verus! {

/// The position of the next slash, or the end.
pub open spec fn next_slash(p: Seq<u8>, i: int) -> int
    decreases p.len() - i,
{
    if 0 <= i < p.len() && p[i] != 0x2f {
        next_slash(p, i + 1)
    } else {
        i
    }
}

/// The next slash stands within the path, or at its end.
proof fn lemma_next_slash(p: Seq<u8>, i: int)
    requires
        0 <= i <= p.len(),
    ensures
        i <= next_slash(p, i) <= p.len(),
    decreases p.len() - i,
{
    if i < p.len() && p[i] != 0x2f {
        lemma_next_slash(p, i + 1);
    }
}

/// Whether what stands between two positions counts as a component: anything
/// but nothing, and a dot only at the front of the path.
pub open spec fn counts(p: Seq<u8>, i: int, e: int) -> bool {
    i < e && (p.subrange(i, e) == seq![0x2eu8] ==> i == 0)
}

/// Where the components from a position on start and end.
pub open spec fn spans_from(p: Seq<u8>, i: int) -> Seq<(int, int)>
    decreases p.len() - i,
{
    let e = next_slash(p, i);
    let rest = if i <= e < p.len() {
        spans_from(p, e + 1)
    } else {
        Seq::empty()
    };
    if counts(p, i, e) {
        seq![(i, e)] + rest
    } else {
        rest
    }
}

/// Whether a path starts at the root.
pub open spec fn absolute(p: Seq<u8>) -> bool {
    p.len() > 0 && p[0] == 0x2f
}

/// Where the components of a path start and end. The root is a component of its
/// own: the slash at the front.
pub open spec fn spans(p: Seq<u8>) -> Seq<(int, int)> {
    if absolute(p) {
        seq![(0int, 1int)] + spans_from(p, 1)
    } else {
        spans_from(p, 0)
    }
}

/// The components of a path.
pub open spec fn components(p: Seq<u8>) -> Seq<Seq<u8>> {
    spans(p).map_values(|e: (int, int)| p.subrange(e.0, e.1))
}

/// Whether a path lies in another one, or is that one: its components start
/// with those of the other.
pub open spec fn within(p: Seq<u8>, base: Seq<u8>) -> bool {
    components(base).is_prefix_of(components(p))
}

/// What is left of a path behind the components of another one.
pub open spec fn behind(p: Seq<u8>, base: Seq<u8>) -> Option<Seq<u8>> {
    if within(p, base) {
        let n = components(base).len();
        if n == components(p).len() {
            Some(Seq::empty())
        } else {
            Some(p.subrange(spans(p)[n as int].0, spans(p).last().1))
        }
    } else {
        None
    }
}

/// The last component, if it is a name.
pub open spec fn last_name(p: Seq<u8>) -> Option<Seq<u8>> {
    let all = components(p);
    if all.len() > 0 && all.last() != seq![0x2fu8] && all.last() != seq![0x2eu8] && all.last()
        != seq![0x2eu8, 0x2e] {
        Some(all.last())
    } else {
        None
    }
}

/// A path without its last component; nothing lies above the root.
pub open spec fn above(p: Seq<u8>) -> Option<Seq<u8>> {
    let all = spans(p);
    if all.len() == 0 || components(p).last() == seq![0x2fu8] {
        None
    } else if all.len() == 1 {
        Some(Seq::empty())
    } else {
        Some(p.take(all[all.len() - 2].1))
    }
}

/// A path followed by another one; an absolute one takes the place of the first.
pub open spec fn joined(a: Seq<u8>, b: Seq<u8>) -> Seq<u8> {
    if absolute(b) {
        b
    } else if a.len() == 0 || a.last() == 0x2f {
        a + b
    } else {
        a + seq![0x2fu8] + b
    }
}

/// Whether bytes can stand as one name in a directory: no slash, and neither
/// nothing nor a dot.
pub open spec fn is_name(b: Seq<u8>) -> bool {
    &&& b.len() > 0
    &&& b != seq![0x2eu8]
    &&& forall|k: int| 0 <= k < b.len() ==> (#[trigger] b[k]) != 0x2f
}

/// A run without slashes ends where the path ends.
proof fn lemma_next_slash_none(p: Seq<u8>, i: int)
    requires
        0 <= i <= p.len(),
        forall|k: int| i <= k < p.len() ==> (#[trigger] p[k]) != 0x2f,
    ensures
        next_slash(p, i) == p.len(),
    decreases p.len() - i,
{
    if i < p.len() {
        lemma_next_slash_none(p, i + 1);
    }
}

/// The next slash is the same in a longer path, if a slash follows the shorter.
proof fn lemma_next_slash_front(p: Seq<u8>, a: Seq<u8>, i: int)
    requires
        0 <= i <= a.len() <= p.len(),
        p.take(a.len() as int) == a,
        a.len() < p.len() ==> p[a.len() as int] == 0x2f || next_slash(a, i) < a.len(),
    ensures
        next_slash(p, i) == next_slash(a, i),
    decreases a.len() - i,
{
    if i < a.len() {
        assert(p.take(a.len() as int)[i] == p[i]);
        if a[i] != 0x2f {
            lemma_next_slash_front(p, a, i + 1);
        }
    }
}

/// A slash at the end is the last that is found.
proof fn lemma_next_slash_last(a: Seq<u8>, i: int)
    requires
        0 <= i < a.len(),
        a.last() == 0x2f,
    ensures
        i <= next_slash(a, i) < a.len(),
    decreases a.len() - i,
{
    if a[i] != 0x2f {
        lemma_next_slash_last(a, i + 1);
    }
}

/// A name behind a path and a slash is one more component.
proof fn lemma_spans_from_name(p: Seq<u8>, a: Seq<u8>, i: int, m: int)
    requires
        0 <= i <= a.len() <= m <= a.len() + 1,
        i <= m < p.len(),
        p.take(a.len() as int) == a,
        m == a.len() + 1 ==> p[a.len() as int] == 0x2f,
        m == a.len() && m > 0 ==> a.last() == 0x2f,
        is_name(p.skip(m)),
    ensures
        spans_from(p, i) == spans_from(a, i).push((m, p.len() as int)),
    decreases a.len() - i,
{
    let last = (m, p.len() as int);
    let name = p.skip(m);
    assert forall|k: int| m <= k < p.len() implies (#[trigger] p[k]) != 0x2f by {
        assert(name[k - m] == p[k]);
    }
    lemma_next_slash_none(p, m);
    assert(p.subrange(m, p.len() as int) =~= name);
    assert(spans_from(p, m) =~= seq![last]);
    if m == a.len() && i == m {
        assert(next_slash(a, i) == i);
        assert(spans_from(a, i) =~= Seq::<(int, int)>::empty());
    } else {
        if m == a.len() {
            lemma_next_slash_last(a, i);
        }
        lemma_next_slash(a, i);
        lemma_next_slash_front(p, a, i);
        let e = next_slash(a, i);
        assert(p.subrange(i, e) =~= a.subrange(i, e)) by {
            assert forall|k: int| i <= k < e implies p[k] == a[k] by {
                assert(p.take(a.len() as int)[k] == p[k]);
            }
        }
        let front = if counts(a, i, e) {
            seq![(i, e)]
        } else {
            Seq::empty()
        };
        if e < a.len() {
            lemma_spans_from_name(p, a, e + 1, m);
            assert(spans_from(p, i) =~= front + spans_from(p, e + 1));
            assert(spans_from(a, i) =~= front + spans_from(a, e + 1));
        } else {
            assert(spans_from(p, i) =~= front + seq![last]);
            assert(spans_from(a, i) =~= front);
        }
    }
}

/// A name joined to a path is one more component, and is what is left of the
/// joined path behind that path.
pub proof fn law_joined_name(a: Seq<u8>, b: Seq<u8>)
    requires
        is_name(b),
    ensures
        components(joined(a, b)) == components(a).push(b),
        within(joined(a, b), a),
        behind(joined(a, b), a) == Some(b),
        last_name(joined(a, b)) == (if b == seq![0x2eu8, 0x2e] {
            None
        } else {
            Some(b)
        }),
{
    let p = joined(a, b);
    assert(!absolute(b)) by {
        assert(b[0] != 0x2f);
    }
    let m = p.len() - b.len();
    assert(p.skip(m) =~= b);
    assert(p.take(a.len() as int) =~= a);
    let last = (m, p.len() as int);
    if absolute(a) {
        assert(p[0] == a[0]);
        lemma_spans_from_name(p, a, 1, m);
        assert(spans(p) =~= spans(a).push(last));
    } else {
        assert(!absolute(p)) by {
            if a.len() > 0 {
                assert(p[0] == a[0]);
            } else {
                assert(p[0] == b[0]);
            }
        }
        lemma_spans_from_name(p, a, 0, m);
        assert(spans(p) =~= spans(a).push(last));
    }
    lemma_spans(a);
    assert(p.subrange(m, p.len() as int) =~= b);
    assert(components(p) =~= components(a).push(b)) by {
        assert forall|k: int| 0 <= k < spans(a).len() implies components(p)[k] == components(
            a,
        )[k] by {
            let s = spans(a)[k];
            assert(spans(p)[k] == s);
            assert(p.subrange(s.0, s.1) =~= a.subrange(s.0, s.1)) by {
                assert forall|j: int| s.0 <= j < s.1 implies p[j] == a[j] by {
                    assert(p.take(a.len() as int)[j] == p[j]);
                }
            }
        }
    }
    assert(components(a) =~= components(p).take(components(a).len() as int));
    assert(components(p).last() == b);
    assert(b != seq![0x2fu8]) by {
        if b == seq![0x2fu8] {
            assert(b[0] == 0x2f);
        }
    }
}

/// The components of what stands behind the first component of a path.
spec fn words(s: Seq<u8>) -> Seq<Seq<u8>>
    decreases s.len(),
{
    let e = next_slash(s, 0);
    let rest = if 0 <= e < s.len() {
        words(s.skip(e + 1))
    } else {
        Seq::empty()
    };
    word(s.take(e)) + rest
}

/// The component that bytes without slashes are, if they count as one behind the
/// first.
spec fn word(b: Seq<u8>) -> Seq<Seq<u8>> {
    if b.len() == 0 || b == seq![0x2eu8] {
        Seq::empty()
    } else {
        seq![b]
    }
}

/// Whether bytes hold no slash.
spec fn slashless(b: Seq<u8>) -> bool {
    forall|k: int| 0 <= k < b.len() ==> (#[trigger] b[k]) != 0x2f
}

/// What stands before the next slash holds none.
proof fn lemma_before_slash(p: Seq<u8>, i: int)
    requires
        0 <= i <= p.len(),
    ensures
        slashless(p.subrange(i, next_slash(p, i))),
        next_slash(p, i) < p.len() ==> p[next_slash(p, i)] == 0x2f,
    decreases p.len() - i,
{
    lemma_next_slash(p, i);
    if i < p.len() && p[i] != 0x2f {
        let e = next_slash(p, i);
        lemma_next_slash(p, i + 1);
        lemma_before_slash(p, i + 1);
        let b = p.subrange(i, e);
        let c = p.subrange(i + 1, e);
        assert forall|k: int| 0 <= k < b.len() implies (#[trigger] b[k]) != 0x2f by {
            if k > 0 {
                assert(c[k - 1] == b[k]);
            }
        }
    }
}

/// Where the first slash of some bytes stands.
proof fn lemma_first_slash(b: Seq<u8>, rest: Seq<u8>)
    requires
        slashless(b),
    ensures
        next_slash(b, 0) == b.len(),
        next_slash(b + seq![0x2fu8] + rest, 0) == b.len(),
        (b + seq![0x2fu8] + rest).take(b.len() as int) == b,
        (b + seq![0x2fu8] + rest).skip(b.len() as int + 1) == rest,
{
    let p = b + seq![0x2fu8] + rest;
    lemma_next_slash_none(b, 0);
    assert(p.take(b.len() as int) =~= b);
    assert(p.skip(b.len() as int + 1) =~= rest);
    assert(p[b.len() as int] == 0x2f);
    lemma_next_slash_front(p, b, 0);
}

/// The components of bytes without slashes, and of what follows a slash.
proof fn lemma_words_step(b: Seq<u8>, rest: Seq<u8>)
    requires
        slashless(b),
    ensures
        words(b) == word(b),
        words(b + seq![0x2fu8] + rest) == word(b) + words(rest),
{
    lemma_first_slash(b, rest);
    assert(b.take(b.len() as int) =~= b);
    assert(word(b) + Seq::<Seq<u8>>::empty() =~= word(b));
}

/// Bytes are cut at their first slash, if they have one.
proof fn lemma_cut_at_slash(s: Seq<u8>)
    ensures
        ({
            let e = next_slash(s, 0);
            &&& 0 <= e <= s.len()
            &&& slashless(s.take(e))
            &&& e == s.len() ==> s.take(e) == s
            &&& e < s.len() ==> s == s.take(e) + seq![0x2fu8] + s.skip(e + 1)
        }),
{
    let e = next_slash(s, 0);
    lemma_next_slash(s, 0);
    lemma_before_slash(s, 0);
    assert(s.subrange(0, e) =~= s.take(e));
    if e < s.len() {
        assert(s =~= s.take(e) + seq![0x2fu8] + s.skip(e + 1));
    } else {
        assert(s.take(e) =~= s);
    }
}

/// The components on both sides of a slash are those of the whole.
proof fn lemma_words_concat(a: Seq<u8>, b: Seq<u8>)
    ensures
        words(a + seq![0x2fu8] + b) == words(a) + words(b),
    decreases a.len(),
{
    let e = next_slash(a, 0);
    lemma_cut_at_slash(a);
    let first = a.take(e);
    if e < a.len() {
        let rest = a.skip(e + 1);
        lemma_words_step(first, rest);
        lemma_words_concat(rest, b);
        assert(a + seq![0x2fu8] + b =~= first + seq![0x2fu8] + (rest + seq![0x2fu8] + b));
        lemma_words_step(first, rest + seq![0x2fu8] + b);
        assert(word(first) + (words(rest) + words(b)) =~= (word(first) + words(rest)) + words(b));
    } else {
        lemma_words_step(a, b);
    }
}

/// What follows a slash, or nothing at all, is read for itself.
proof fn lemma_words_behind_slash(a: Seq<u8>, b: Seq<u8>)
    requires
        a.len() == 0 || a.last() == 0x2f,
    ensures
        words(a + b) == words(a) + words(b),
{
    lemma_words_step(Seq::empty(), Seq::empty());
    if a.len() == 0 {
        assert(a + b =~= b);
        assert(a =~= Seq::<u8>::empty());
        assert(words(a) + words(b) =~= words(b));
    } else {
        let front = a.drop_last();
        assert(a + b =~= front + seq![0x2fu8] + b);
        assert(a =~= front + seq![0x2fu8] + Seq::<u8>::empty());
        lemma_words_concat(front, b);
        lemma_words_concat(front, Seq::empty());
        assert(words(front) + Seq::<Seq<u8>>::empty() =~= words(front));
    }
}

/// What some spans of a path hold.
spec fn held(p: Seq<u8>, all: Seq<(int, int)>) -> Seq<Seq<u8>> {
    all.map_values(|e: (int, int)| p.subrange(e.0, e.1))
}

/// How the spans behind the first component of a path start.
proof fn lemma_spans_step(p: Seq<u8>, i: int)
    requires
        1 <= i <= p.len(),
    ensures
        ({
            let e = next_slash(p, i);
            let rest = if e < p.len() {
                spans_from(p, e + 1)
            } else {
                Seq::empty()
            };
            &&& i <= e <= p.len()
            &&& slashless(p.subrange(i, e))
            &&& e < p.len() ==> p[e] == 0x2f
            &&& spans_from(p, i) == (if word(p.subrange(i, e)).len() > 0 {
                seq![(i, e)] + rest
            } else {
                rest
            })
        }),
{
    lemma_next_slash(p, i);
    lemma_before_slash(p, i);
}

/// Behind the first component, what is held by the spans up to one is what stands
/// there.
proof fn lemma_spans_words(p: Seq<u8>, i: int, m: int)
    requires
        1 <= i <= p.len(),
        0 <= m < spans_from(p, i).len(),
    ensures
        i <= spans_from(p, i)[m].1 <= p.len(),
        words(p.subrange(i, spans_from(p, i)[m].1)) == held(p, spans_from(p, i).take(m + 1)),
    decreases p.len() - i,
{
    let all = spans_from(p, i);
    let e = next_slash(p, i);
    lemma_spans_step(p, i);
    lemma_spans_from(p, i);
    let b = p.subrange(i, e);
    let end = all[m].1;
    let part = p.subrange(i, end);
    if word(b).len() > 0 && m == 0 {
        lemma_words_step(b, Seq::empty());
        assert(held(p, all.take(1)) =~= seq![b]);
    } else {
        let rest = spans_from(p, e + 1);
        let k = if word(b).len() > 0 {
            m - 1
        } else {
            m
        };
        assert(all[m] == rest[k]);
        lemma_spans_words(p, e + 1, k);
        let tail = p.subrange(e + 1, end);
        assert(part =~= b + seq![0x2fu8] + tail);
        lemma_words_step(b, tail);
        assert(held(p, all.take(m + 1)) =~= word(b) + held(p, rest.take(k + 1)));
    }
}

/// What is held by the spans behind the first component is what stands there.
proof fn lemma_all_words(p: Seq<u8>, i: int)
    requires
        1 <= i <= p.len(),
    ensures
        words(p.skip(i)) == held(p, spans_from(p, i)),
    decreases p.len() - i,
{
    let e = next_slash(p, i);
    lemma_spans_step(p, i);
    let b = p.subrange(i, e);
    if e < p.len() {
        lemma_all_words(p, e + 1);
        assert(p.skip(i) =~= b + seq![0x2fu8] + p.skip(e + 1));
        lemma_words_step(b, p.skip(e + 1));
        assert(held(p, spans_from(p, i)) =~= word(b) + held(p, spans_from(p, e + 1)));
    } else {
        assert(p.skip(i) =~= b);
        lemma_words_step(b, Seq::empty());
        assert(held(p, spans_from(p, i)) =~= word(b));
    }
}

/// The spans from where one starts are that one and those behind it.
proof fn lemma_spans_on(p: Seq<u8>, i: int, k: int)
    requires
        0 <= i <= p.len(),
        0 <= k < spans_from(p, i).len(),
    ensures
        i <= spans_from(p, i)[k].0 <= p.len(),
        spans_from(p, spans_from(p, i)[k].0) == spans_from(p, i).skip(k),
    decreases p.len() - i,
{
    let all = spans_from(p, i);
    let e = next_slash(p, i);
    lemma_next_slash(p, i);
    lemma_spans_from(p, i);
    if counts(p, i, e) && k == 0 {
        assert(all[0] == (i, e));
        assert(all.skip(0) =~= all);
    } else {
        let rest = spans_from(p, e + 1);
        let m = if counts(p, i, e) {
            k - 1
        } else {
            k
        };
        assert(all[k] == rest[m]);
        lemma_spans_on(p, e + 1, m);
        assert(all.skip(k) =~= rest.skip(m));
    }
}

/// How the components of a path that is not empty start: with the slash at its
/// front, or with what stands before the first slash.
proof fn lemma_components_start(p: Seq<u8>)
    requires
        p.len() > 0,
    ensures
        absolute(p) ==> components(p) == seq![seq![0x2fu8]] + words(p.skip(1)),
        !absolute(p) ==> ({
            let e = next_slash(p, 0);
            &&& 0 < e <= p.len()
            &&& spans(p)[0] == (0int, e)
            &&& components(p) == seq![p.take(e)] + (if e < p.len() {
                words(p.skip(e + 1))
            } else {
                Seq::empty()
            })
        }),
{
    if absolute(p) {
        lemma_all_words(p, 1);
        assert(p.subrange(0, 1) =~= seq![0x2fu8]);
        assert(components(p) =~= seq![seq![0x2fu8]] + words(p.skip(1)));
    } else {
        let e = next_slash(p, 0);
        lemma_next_slash(p, 0);
        lemma_next_slash(p, 1);
        assert(e >= 1);
        assert(p.subrange(0, e) =~= p.take(e));
        if e < p.len() {
            lemma_all_words(p, e + 1);
            assert(components(p) =~= seq![p.take(e)] + words(p.skip(e + 1)));
        } else {
            assert(components(p) =~= seq![p.take(e)] + Seq::<Seq<u8>>::empty());
        }
    }
}

/// The components of a path with another one behind it.
#[verifier::rlimit(30)]
proof fn lemma_joined_words(a: Seq<u8>, b: Seq<u8>)
    requires
        a.len() > 0,
        !absolute(b),
    ensures
        components(joined(a, b)) == components(a) + words(b),
{
    let p = joined(a, b);
    let slash = if a.last() == 0x2f {
        Seq::<u8>::empty()
    } else {
        seq![0x2fu8]
    };
    assert(p =~= a + slash + b);
    assert(p[0] == a[0]);
    lemma_components_start(a);
    lemma_components_start(p);
    lemma_words_step(Seq::empty(), Seq::empty());
    if absolute(a) {
        let x = a.skip(1);
        assert(p.skip(1) =~= x + slash + b);
        lemma_words_joined(x, slash, b);
        assert(seq![seq![0x2fu8]] + (words(x) + words(b)) =~= components(a) + words(b));
    } else {
        let e = next_slash(a, 0);
        lemma_cut_at_slash(a);
        let first = a.take(e);
        if e < a.len() {
            let x = a.skip(e + 1);
            assert(x.len() > 0 ==> x.last() == a.last());
            let rest = x + slash + b;
            assert(p =~= first + seq![0x2fu8] + rest);
            lemma_first_slash(first, rest);
            if x.len() == 0 {
                assert(a.last() == (first + seq![0x2fu8] + x).last());
            }
            lemma_words_joined(x, slash, b);
            assert(seq![first] + (words(x) + words(b)) =~= components(a) + words(b));
        } else {
            assert(first[first.len() - 1] != 0x2f);
            assert(p =~= first + seq![0x2fu8] + b);
            lemma_first_slash(first, b);
            assert(seq![first] + words(b) =~= components(a) + words(b));
        }
    }
}

/// The components of two parts with a slash between them, or behind the first.
proof fn lemma_words_joined(x: Seq<u8>, slash: Seq<u8>, b: Seq<u8>)
    requires
        slash == seq![0x2fu8] || (slash.len() == 0 && (x.len() == 0 || x.last() == 0x2f)),
    ensures
        words(x + slash + b) == words(x) + words(b),
{
    if slash == seq![0x2fu8] {
        lemma_words_concat(x, b);
    } else {
        assert(x + slash + b =~= x + b);
        lemma_words_behind_slash(x, b);
    }
}

/// A path that is cut behind a component has the components up to that one.
proof fn lemma_cut_components(p: Seq<u8>, m: int)
    requires
        0 <= m < spans(p).len(),
    ensures
        0 < spans(p)[m].1 <= p.len(),
        components(p.take(spans(p)[m].1)) == components(p).take(m + 1),
{
    lemma_spans(p);
    let end = spans(p)[m].1;
    let cut = p.take(end);
    assert(p.len() > 0);
    assert(cut[0] == p[0]);
    lemma_components_start(p);
    lemma_components_start(cut);
    if absolute(p) {
        if m == 0 {
            assert(cut.skip(1) =~= Seq::<u8>::empty());
            lemma_words_step(Seq::empty(), Seq::empty());
            assert(p.subrange(0, 1) =~= seq![0x2fu8]);
            assert(components(cut) =~= components(p).take(1));
        } else {
            assert(spans(p)[m] == spans_from(p, 1)[m - 1]);
            lemma_spans_words(p, 1, m - 1);
            assert(cut.skip(1) =~= p.subrange(1, end));
            assert(components(p).take(m + 1) =~= seq![p.subrange(0, 1)] + held(
                p,
                spans_from(p, 1).take(m),
            ));
            assert(p.subrange(0, 1) =~= seq![0x2fu8]);
        }
    } else {
        let e = next_slash(p, 0);
        lemma_cut_at_slash(p);
        let first = p.take(e);
        if m == 0 {
            assert(cut == first);
            assert(first.take(e) =~= first);
            lemma_first_slash(first, Seq::empty());
            assert(components(cut) =~= seq![first]);
            assert(p.subrange(0, e) =~= first);
            assert(components(p).take(1) =~= seq![first]);
        } else {
            assert(e < p.len());
            let rest = spans_from(p, e + 1);
            assert(spans(p) =~= seq![(0int, e)] + rest);
            assert(spans(p)[m] == rest[m - 1]);
            lemma_spans_words(p, e + 1, m - 1);
            let tail = p.subrange(e + 1, end);
            assert(cut =~= first + seq![0x2fu8] + tail);
            lemma_first_slash(first, tail);
            assert(p.subrange(0, e) =~= first);
            assert(components(p).take(m + 1) =~= seq![first] + held(p, rest.take(m)));
        }
    }
}

/// What is left of a path behind another one, joined to that one again, has the
/// components of the path.
pub proof fn law_joined_rest(p: Seq<u8>, base: Seq<u8>)
    requires
        within(p, base),
    ensures
        behind(p, base) is Some,
        components(joined(base, behind(p, base)->0)) == components(p),
        (behind(p, base)->0).len() == 0 <==> components(p) == components(base),
{
    let n = components(base).len() as int;
    let all = components(p);
    let rest = behind(p, base)->0;
    assert(components(base) =~= all.take(n));
    lemma_spans(p);
    if n == all.len() {
        assert(all.take(n) =~= all);
        if base.len() == 0 {
            assert(joined(base, rest) =~= base);
        } else {
            lemma_joined_words(base, rest);
            lemma_words_step(Seq::empty(), Seq::empty());
            assert(components(base) + Seq::<Seq<u8>>::empty() =~= components(base));
        }
    } else {
        let last = all.len() - 1;
        let end = spans(p)[last].1;
        lemma_cut_components(p, last);
        assert(all.take(last + 1) =~= all);
        if n < last {
            assert(spans(p)[n].1 <= spans(p)[last].0);
        }
        if base.len() == 0 {
            lemma_components_start(p);
            assert(rest =~= p.take(end));
            assert(joined(base, rest) =~= rest);
        } else {
            lemma_components_start(base);
            lemma_rest_words(p, n);
            lemma_joined_words(base, rest);
            assert(components(base) + all.skip(n) =~= all);
        }
    }
}

/// What is left of a path behind some of its components has the others, and does not
/// start at the root.
proof fn lemma_rest_words(p: Seq<u8>, n: int)
    requires
        1 <= n < spans(p).len(),
    ensures
        spans(p)[n].0 < spans(p).last().1 <= p.len(),
        words(p.subrange(spans(p)[n].0, spans(p).last().1)) == components(p).skip(n),
        !absolute(p.subrange(spans(p)[n].0, spans(p).last().1)),
{
    lemma_spans(p);
    let start = spans(p)[n].0;
    let last = spans(p).len() - 1;
    if n < last {
        assert(spans(p)[n].1 <= spans(p)[last].0);
    }
    let i: int = if absolute(p) {
        1
    } else {
        0
    };
    let k = n - i;
    let from = spans_from(p, i);
    assert(spans(p)[n] == from[k]);
    lemma_spans_from(p, i);
    lemma_spans_on(p, i, k);
    assert(start >= 1) by {
        if i == 0 {
            assert(from[0].1 < from[k].0);
            assert(0 <= from[0].0 < from[0].1);
        }
    }
    let on = spans_from(p, start);
    assert(on.last() == from.last());
    assert(spans(p).last() == from.last());
    lemma_spans_words(p, start, on.len() - 1);
    assert(on.take(on.len() as int) =~= on);
    assert(held(p, on) =~= components(p).skip(n));
    lemma_spans_step(p, start);
    assert(on[0].0 == start);
    assert(p[start] != 0x2f) by {
        let e = next_slash(p, start);
        lemma_spans_from(p, start);
        if word(p.subrange(start, e)).len() == 0 {
            lemma_spans_from(p, e + 1);
            assert(on[0].0 >= e + 1);
        } else {
            assert(p.subrange(start, e)[0] == p[start]);
        }
    }
}

/// A path without its last component has the other components.
pub proof fn law_components_above(p: Seq<u8>)
    requires
        above(p) is Some,
    ensures
        components(p).len() > 0,
        components(above(p)->0) == components(p).drop_last(),
{
    let all = spans(p);
    if all.len() == 1 {
        assert(components(Seq::<u8>::empty()) =~= Seq::<Seq<u8>>::empty());
        assert(components(p).drop_last() =~= Seq::<Seq<u8>>::empty());
    } else {
        lemma_cut_components(p, all.len() - 2);
        assert(components(p).take(all.len() - 1) =~= components(p).drop_last());
    }
}

/// The positions that a row of pairs of machine integers stands for.
spec fn positions(v: Seq<(usize, usize)>) -> Seq<(int, int)> {
    v.map_values(|e: (usize, usize)| (e.0 as int, e.1 as int))
}

/// Every span lies within the path.
proof fn lemma_spans_from(p: Seq<u8>, i: int)
    requires
        0 <= i <= p.len(),
    ensures
        forall|k: int|
            0 <= k < spans_from(p, i).len() ==> i <= (#[trigger] spans_from(p, i)[k]).0
                < spans_from(p, i)[k].1 <= p.len(),
        forall|k: int, m: int|
            0 <= k < m < spans_from(p, i).len() ==> (#[trigger] spans_from(p, i)[k]).1 < (
            #[trigger] spans_from(p, i)[m]).0,
    decreases p.len() - i,
{
    let e = next_slash(p, i);
    lemma_next_slash(p, i);
    if e < p.len() {
        lemma_spans_from(p, e + 1);
    }
    let rest = if e < p.len() {
        spans_from(p, e + 1)
    } else {
        Seq::empty()
    };
    let all = spans_from(p, i);
    if counts(p, i, e) {
        assert(all == seq![(i, e)] + rest);
        assert forall|k: int| 0 <= k < all.len() implies i <= (#[trigger] all[k]).0 < all[k].1
            <= p.len() by {
            if k > 0 {
                assert(all[k] == rest[k - 1]);
            }
        }
        assert forall|k: int, m: int| 0 <= k < m < all.len() implies (#[trigger] all[k]).1 < (
        #[trigger] all[m]).0 by {
            assert(all[m] == rest[m - 1]);
            if k > 0 {
                assert(all[k] == rest[k - 1]);
            }
        }
    } else {
        assert(all == rest);
    }
}

/// The spans of a path lie within it, one behind the other.
pub proof fn lemma_spans(p: Seq<u8>)
    ensures
        forall|k: int|
            0 <= k < spans(p).len() ==> 0 <= (#[trigger] spans(p)[k]).0 < spans(p)[k].1 <= p.len(),
        forall|k: int, m: int|
            0 <= k < m < spans(p).len() ==> (#[trigger] spans(p)[k]).1 <= (#[trigger] spans(
                p,
            )[m]).0,
{
    if absolute(p) {
        lemma_spans_from(p, 1);
    } else {
        lemma_spans_from(p, 0);
    }
}

/// Finds the components of a path.
fn find_spans(p: &[u8]) -> (r: Vec<(usize, usize)>)
    ensures
        positions(r@) == spans(p@),
{
    let mut out: Vec<(usize, usize)> = Vec::new();
    let mut i: usize = 0;
    if p.len() > 0 && p[0] == 0x2f {
        out.push((0, 1));
        i = 1;
    }
    let ghost head = positions(out@);
    assert(head + spans_from(p@, i as int) =~= spans(p@));
    loop
        invariant_except_break
            i <= p@.len(),
            positions(out@) + spans_from(p@, i as int) == spans(p@),
        ensures
            positions(out@) == spans(p@),
        decreases p@.len() - i,
    {
        let mut e: usize = i;
        while e < p.len() && p[e] != 0x2f
            invariant
                i <= e <= p@.len(),
                next_slash(p@, e as int) == next_slash(p@, i as int),
            decreases p@.len() - e,
        {
            e += 1;
        }
        let ghost before = positions(out@);
        let dot = e - i == 1 && p[i] == 0x2e;
        assert(dot == (p@.subrange(i as int, e as int) == seq![0x2eu8])) by {
            if dot {
                assert(p@.subrange(i as int, e as int) =~= seq![0x2eu8]);
            } else if p@.subrange(i as int, e as int) == seq![0x2eu8] {
                assert(p@.subrange(i as int, e as int).len() == 1);
                assert(p@.subrange(i as int, e as int)[0] == p@[i as int]);
            }
        }
        if i < e && (!dot || i == 0) {
            out.push((i, e));
            assert(positions(out@) =~= before.push((i as int, e as int)));
        }
        if e >= p.len() {
            assert(positions(out@) =~= before + spans_from(p@, i as int));
            break;
        }
        assert(positions(out@) + spans_from(p@, e + 1) =~= before + spans_from(p@, i as int));
        i = e + 1;
    }
    out
}

/// What a row of paths, or of components, stands for.
pub open spec fn path_rows(v: Seq<Vec<u8>>) -> Seq<Seq<u8>> {
    v.map_values(|p: Vec<u8>| p@)
}

/// The components of a path.
pub fn split_components(p: &[u8]) -> (r: Vec<Vec<u8>>)
    ensures
        path_rows(r@) == components(p@),
{
    let all = find_spans(p);
    let mut out: Vec<Vec<u8>> = Vec::new();
    let mut k: usize = 0;
    proof {
        lemma_spans(p@);
    }
    while k < all.len()
        invariant
            k <= all@.len(),
            positions(all@) == spans(p@),
            out@.len() == k,
            forall|m: int|
                0 <= m < spans(p@).len() ==> 0 <= (#[trigger] spans(p@)[m]).0 < spans(p@)[m].1
                    <= p@.len(),
            forall|m: int| 0 <= m < k ==> (#[trigger] out@[m])@ == components(p@)[m],
        decreases all@.len() - k,
    {
        let e = all[k];
        assert(spans(p@)[k as int] == positions(all@)[k as int]);
        out.push(vstd::slice::slice_to_vec(vstd::slice::slice_subrange(p, e.0, e.1)));
        assert(components(p@)[k as int] == out@[k as int]@);
        k += 1;
    }
    assert(positions(all@).len() == all@.len());
    assert(path_rows(out@) =~= components(p@));
    out
}

/// Whether a path starts at the root.
pub fn is_absolute(p: &[u8]) -> (r: bool)
    ensures
        r == absolute(p@),
{
    p.len() > 0 && p[0] == 0x2f
}

/// A path followed by another one.
pub fn join(a: &[u8], b: &[u8]) -> (r: Vec<u8>)
    ensures
        r@ == joined(a@, b@),
{
    let mut out: Vec<u8> = Vec::new();
    if !is_absolute(b) {
        push_all(&mut out, a);
        if a.len() > 0 && a[a.len() - 1] != 0x2f {
            out.push(0x2f);
        }
    }
    push_all(&mut out, b);
    assert(out@ =~= joined(a@, b@));
    out
}

/// Whether the first components of a path are those of another one.
fn starts_alike(p: &[u8], all: &Vec<(usize, usize)>, base: &[u8], front: &Vec<(usize, usize)>) -> (r:
    bool)
    requires
        positions(all@) == spans(p@),
        positions(front@) == spans(base@),
    ensures
        r == within(p@, base@),
{
    if front.len() > all.len() {
        assert(components(base@).len() == positions(front@).len());
        assert(components(p@).len() == positions(all@).len());
        return false;
    }
    proof {
        lemma_spans(p@);
        lemma_spans(base@);
    }
    let mut k: usize = 0;
    while k < front.len()
        invariant
            k <= front@.len() <= all@.len(),
            positions(all@) == spans(p@),
            positions(front@) == spans(base@),
            forall|m: int|
                0 <= m < spans(p@).len() ==> 0 <= (#[trigger] spans(p@)[m]).0 < spans(p@)[m].1
                    <= p@.len(),
            forall|m: int|
                0 <= m < spans(base@).len() ==> 0 <= (#[trigger] spans(base@)[m]).0 < spans(
                    base@,
                )[m].1 <= base@.len(),
            forall|m: int| 0 <= m < k ==> #[trigger] components(p@)[m] == components(base@)[m],
        decreases front@.len() - k,
    {
        let a = all[k];
        let b = front[k];
        assert(spans(p@)[k as int] == positions(all@)[k as int]);
        assert(spans(base@)[k as int] == positions(front@)[k as int]);
        let x = vstd::slice::slice_subrange(p, a.0, a.1);
        let y = vstd::slice::slice_subrange(base, b.0, b.1);
        assert(components(p@)[k as int] == x@);
        assert(components(base@)[k as int] == y@);
        if !bytes_eq(x, y) {
            assert(components(base@)[k as int] != components(p@).take(
                components(base@).len() as int,
            )[k as int]);
            return false;
        }
        k += 1;
    }
    assert(components(p@).len() == positions(all@).len());
    assert(components(base@).len() == positions(front@).len());
    assert(components(base@) =~= components(p@).take(components(base@).len() as int));
    true
}

/// Whether a path lies in another one, or is that one.
pub fn starts_with(p: &[u8], base: &[u8]) -> (r: bool)
    ensures
        r == within(p@, base@),
{
    let all = find_spans(p);
    let front = find_spans(base);
    starts_alike(p, &all, base, &front)
}

/// What is left of a path behind the components of another one, if it starts
/// with those.
pub fn strip_prefix(p: &[u8], base: &[u8]) -> (r: Option<Vec<u8>>)
    ensures
        match r {
            Some(v) => behind(p@, base@) == Some(v@),
            None => behind(p@, base@) is None,
        },
{
    let all = find_spans(p);
    let front = find_spans(base);
    if !starts_alike(p, &all, base, &front) {
        return None;
    }
    let n: usize = front.len();
    assert(positions(all@).len() == all@.len());
    assert(positions(front@).len() == front@.len());
    if n == all.len() {
        return Some(Vec::new());
    }
    proof {
        lemma_spans(p@);
        assert(spans(p@)[n as int] == positions(all@)[n as int]);
        assert(spans(p@).last() == positions(all@)[all@.len() - 1]);
    }
    Some(
        vstd::slice::slice_to_vec(
            vstd::slice::slice_subrange(p, all[n].0, all[all.len() - 1].1),
        ),
    )
}

/// The last component of a path, if it is a name.
pub fn file_name(p: &[u8]) -> (r: Option<&[u8]>)
    ensures
        match r {
            Some(v) => last_name(p@) == Some(v@),
            None => last_name(p@) is None,
        },
{
    let all = find_spans(p);
    assert(positions(all@).len() == all@.len());
    if all.len() == 0 {
        return None;
    }
    proof {
        lemma_spans(p@);
        assert(spans(p@).last() == positions(all@)[all@.len() - 1]);
    }
    let last = all[all.len() - 1];
    let name = vstd::slice::slice_subrange(p, last.0, last.1);
    assert(name@ == components(p@).last());
    let root = name.len() == 1 && name[0] == 0x2f;
    let here = name.len() == 1 && name[0] == 0x2e;
    let up = name.len() == 2 && name[0] == 0x2e && name[1] == 0x2e;
    assert(root == (name@ =~= seq![0x2fu8]));
    assert(here == (name@ =~= seq![0x2eu8]));
    assert(up == (name@ =~= seq![0x2eu8, 0x2e]));
    if root || here || up {
        None
    } else {
        Some(name)
    }
}

/// A path without its last component.
pub fn parent(p: &[u8]) -> (r: Option<Vec<u8>>)
    ensures
        match r {
            Some(v) => above(p@) == Some(v@) && v@.len() < p@.len(),
            None => above(p@) is None,
        },
{
    let all = find_spans(p);
    assert(positions(all@).len() == all@.len());
    if all.len() == 0 {
        return None;
    }
    proof {
        lemma_spans(p@);
        assert(spans(p@).last() == positions(all@)[all@.len() - 1]);
    }
    let last = all[all.len() - 1];
    let name = vstd::slice::slice_subrange(p, last.0, last.1);
    assert(name@ == components(p@).last());
    let root = name.len() == 1 && name[0] == 0x2f;
    assert(root == (name@ =~= seq![0x2fu8]));
    if root {
        None
    } else if all.len() == 1 {
        Some(Vec::new())
    } else {
        let end: usize = all[all.len() - 2].1;
        proof {
            assert(spans(p@)[all@.len() - 2] == positions(all@)[all@.len() - 2]);
            assert(spans(p@)[all@.len() - 1] == positions(all@)[all@.len() - 1]);
            assert(p@.take(end as int) =~= p@.subrange(0, end as int));
        }
        Some(vstd::slice::slice_to_vec(vstd::slice::slice_subrange(p, 0, end)))
    }
}

/// The two kinds of systems, which keep the names of users and the directory
/// for temporary files under different variables.
#[derive(Debug, Clone, Copy, PartialEq, Eq, Structural)]
pub enum System {
    Unix,
    Windows,
}

/// The first of two texts that is there, or else a third one.
pub open spec fn first_of(
    a: Option<Seq<char>>,
    b: Option<Seq<char>>,
    fallback: Seq<char>,
) -> Seq<char> {
    match (a, b) {
        (Some(s), _) => s,
        (None, Some(s)) => s,
        (None, None) => fallback,
    }
}

/// The environment variables that name the user and the directory for temporary
/// files, as far as they are set.
#[derive(Debug)]
pub struct Environment {
    pub system: System,
    pub user: Option<String>,
    pub logname: Option<String>,
    pub username: Option<String>,
    pub tmpdir: Option<String>,
    pub temp: Option<String>,
    pub tmp: Option<String>,
}

impl Environment {
    /// The name of the user.
    pub open spec fn user_text(&self) -> Seq<char> {
        match self.system {
            System::Unix => first_of(optional_text(self.user), optional_text(self.logname), "unknown"@),
            System::Windows => first_of(optional_text(self.username), None, "unknown"@),
        }
    }

    /// The directory for temporary files.
    pub open spec fn temp_text(&self) -> Seq<char> {
        match self.system {
            System::Unix => first_of(optional_text(self.tmpdir), None, "/tmp"@),
            System::Windows => first_of(optional_text(self.temp), optional_text(self.tmp), "C:\\Windows\\Temp"@),
        }
    }

    /// The directory that the daemon keeps its files in.
    pub open spec fn state_path(&self) -> Seq<u8> {
        filed(
            self.system,
            encode_utf8(self.temp_text()),
            encode_utf8("watchman-rs-"@ + self.user_text()),
        )
    }

    /// The socket that the daemon listens on.
    pub open spec fn sock_file(&self) -> Seq<u8> {
        filed(self.system, self.state_path(), encode_utf8("sock"@))
    }

    /// The file for the daemon's process number.
    pub open spec fn pid_file(&self) -> Seq<u8> {
        filed(self.system, self.state_path(), encode_utf8("pid"@))
    }
}

/// Whether a path is nothing but a drive, such as `C:`.
pub open spec fn is_drive(p: Seq<u8>) -> bool {
    p.len() == 2 && p[1] == 0x3a && (0x41 <= p[0] <= 0x5a || 0x61 <= p[0] <= 0x7a)
}

/// A name in a directory.
pub open spec fn filed(system: System, dir: Seq<u8>, name: Seq<u8>) -> Seq<u8> {
    match system {
        System::Unix => joined(dir, name),
        System::Windows => if dir.len() == 0 || dir.last() == 0x2f || dir.last() == 0x5c
            || is_drive(dir) {
            dir + name
        } else {
            dir + seq![0x5cu8] + name
        },
    }
}

/// A name in a directory.
fn file_in(system: System, dir: &[u8], name: &[u8]) -> (r: Vec<u8>)
    ensures
        r@ == filed(system, dir@, name@),
{
    if system == System::Unix {
        return join(dir, name);
    }
    let n: usize = dir.len();
    let drive = n == 2 && dir[1] == 0x3a && ((0x41 <= dir[0] && dir[0] <= 0x5a) || (0x61 <= dir[0]
        && dir[0] <= 0x7a));
    let mut out: Vec<u8> = Vec::new();
    push_all(&mut out, dir);
    if n > 0 && dir[n - 1] != 0x2f && dir[n - 1] != 0x5c && !drive {
        out.push(0x5c);
    }
    push_all(&mut out, name);
    assert(out@ =~= filed(system, dir@, name@));
    out
}

/// The first of two texts that is there, or else a third one.
fn pick<'a>(a: &'a Option<String>, b: &'a Option<String>, fallback: &'a str) -> (r: &'a str)
    ensures
        r@ == first_of(optional_text(*a), optional_text(*b), fallback@),
{
    match a {
        Some(s) => s.as_str(),
        None => match b {
            Some(s) => s.as_str(),
            None => fallback,
        },
    }
}

/// The name of the user.
pub fn user_name(env: &Environment) -> (r: &str)
    ensures
        r@ == env.user_text(),
{
    match env.system {
        System::Unix => pick(&env.user, &env.logname, "unknown"),
        System::Windows => match &env.username {
            Some(s) => s.as_str(),
            None => "unknown",
        },
    }
}

/// The directory for temporary files.
pub fn temp_dir(env: &Environment) -> (r: &str)
    ensures
        r@ == env.temp_text(),
{
    match env.system {
        System::Unix => match &env.tmpdir {
            Some(s) => s.as_str(),
            None => "/tmp",
        },
        System::Windows => pick(&env.temp, &env.tmp, "C:\\Windows\\Temp"),
    }
}

/// The directory that the daemon keeps its files in, one for each user.
pub fn state_dir(env: &Environment) -> (r: Vec<u8>)
    ensures
        r@ == env.state_path(),
{
    let mut name = "watchman-rs-".to_string();
    name.append(user_name(env));
    file_in(env.system, temp_dir(env).as_bytes(), name.as_str().as_bytes())
}

/// The socket that the daemon listens on.
pub fn sock_path(env: &Environment) -> (r: Vec<u8>)
    ensures
        r@ == env.sock_file(),
{
    file_in(env.system, state_dir(env).as_slice(), "sock".as_bytes())
}

/// The file for the daemon's process number.
pub fn pid_path(env: &Environment) -> (r: Vec<u8>)
    ensures
        r@ == env.pid_file(),
{
    file_in(env.system, state_dir(env).as_slice(), "pid".as_bytes())
}

/// Whether the last component of a path is what the path ends with.
pub open spec fn ends_in_name(p: Seq<u8>) -> bool {
    spans(p).len() > 0 && spans(p).last().1 == p.len() && p.last() != 0x2f
}

/// What is left of a path behind another one grows with the path: a name more, behind
/// a slash.
pub proof fn law_rest_grows(base: Seq<u8>, p: Seq<u8>, name: Seq<u8>)
    requires
        within(p, base),
        ends_in_name(p),
        components(base).len() < components(p).len(),
        is_name(name),
    ensures
        within(joined(p, name), base),
        ends_in_name(joined(p, name)),
        behind(joined(p, name), base) == Some(behind(p, base)->0 + seq![0x2fu8] + name),
{
    let q = joined(p, name);
    let n = components(base).len() as int;
    law_joined_name(p, name);
    lemma_spans(p);
    assert(!absolute(name)) by {
        assert(name[0] != 0x2f);
    }
    assert(q =~= p + seq![0x2fu8] + name);
    assert(q.take(p.len() as int) =~= p);
    assert(q.skip(p.len() as int + 1) =~= name);
    assert(q[0] == p[0]);
    let i: int = if absolute(p) {
        1
    } else {
        0
    };
    lemma_spans_from_name(q, p, i, p.len() as int + 1);
    let last = (p.len() as int + 1, q.len() as int);
    assert(spans(q) =~= spans(p).push(last));
    assert(components(base) =~= components(q).take(n)) by {
        assert(components(base) =~= components(p).take(n));
    }
    let start = spans(p)[n].0;
    assert(spans(q)[n] == spans(p)[n]);
    let k = spans(p).len() - 1;
    if n < k {
        assert(spans(p)[n].1 <= spans(p)[k].0);
    }
    assert(q.subrange(start, q.len() as int) =~= p.subrange(start, p.len() as int) + seq![0x2fu8]
        + name);
    assert(q.last() == name[name.len() - 1]);
}

/// What follows a path behind a slash, if it adds no component, changes none.
proof fn lemma_spans_from_more(a: Seq<u8>, t: Seq<u8>, i: int)
    requires
        0 <= i <= a.len(),
        t.len() > 0,
        t[0] == 0x2f,
        spans_from(a + t, a.len() as int + 1) == Seq::<(int, int)>::empty(),
    ensures
        spans_from(a + t, i) == spans_from(a, i),
    decreases a.len() - i,
{
    let p = a + t;
    assert(p.take(a.len() as int) =~= a);
    assert(p[a.len() as int] == 0x2f);
    lemma_next_slash(a, i);
    lemma_next_slash_front(p, a, i);
    let e = next_slash(a, i);
    assert(p.subrange(i, e) =~= a.subrange(i, e));
    if e < a.len() {
        lemma_spans_from_more(a, t, e + 1);
    }
}

/// The components of a path stay the same where such an end is put to it.
proof fn lemma_same_components(a: Seq<u8>, t: Seq<u8>)
    requires
        a.len() > 0,
        t.len() > 0,
        t[0] == 0x2f,
        spans_from(a + t, a.len() as int + 1) == Seq::<(int, int)>::empty(),
    ensures
        components(a + t) == components(a),
{
    let p = a + t;
    assert(p[0] == a[0]);
    lemma_spans(a);
    lemma_spans_from_more(a, t, 0);
    lemma_spans_from_more(a, t, 1);
    assert(spans(p) == spans(a));
    assert forall|k: int| 0 <= k < spans(a).len() implies components(p)[k] == components(a)[k] by {
        let s = spans(a)[k];
        assert(p.subrange(s.0, s.1) =~= a.subrange(s.0, s.1));
    }
    assert(components(p) =~= components(a));
}

/// The components of a path are the names between its slashes. A slash at the front is a
/// component of its own, as is a dot at the front; slashes and dots behind change nothing.
/// A name behind a slash is one component more, whether or not the path ends with a slash
/// already.
pub proof fn law_components_of_a_path(p: Seq<u8>, name: Seq<u8>)
    requires
        is_name(name),
    ensures
        components(Seq::empty()) == Seq::<Seq<u8>>::empty(),
        components(seq![0x2fu8]) == seq![seq![0x2fu8]],
        components(seq![0x2eu8]) == seq![seq![0x2eu8]],
        components(seq![0x2fu8, 0x2e]) == seq![seq![0x2fu8]],
        components(name) == seq![name],
        p.len() > 0 ==> components(p + seq![0x2fu8]) == components(p),
        p.len() > 0 ==> components(p + seq![0x2fu8, 0x2e]) == components(p),
        p.len() > 0 ==> components(p + seq![0x2fu8] + name) == components(p).push(name),
{
    let none = Seq::<u8>::empty();
    assert(components(none) =~= Seq::<Seq<u8>>::empty());
    let slash = seq![0x2fu8];
    assert(spans_from(slash, 1) =~= Seq::<(int, int)>::empty());
    assert(slash.subrange(0, 1) =~= slash);
    assert(components(slash) =~= seq![slash]);
    let dot = seq![0x2eu8];
    lemma_next_slash_none(dot, 0);
    assert(dot.subrange(0, 1) =~= dot);
    assert(spans_from(dot, 0) =~= seq![(0int, 1int)]);
    assert(components(dot) =~= seq![dot]);
    let both = seq![0x2fu8, 0x2e];
    assert(both[1] == 0x2e);
    lemma_next_slash_none(both, 1);
    assert(both.subrange(1, 2) =~= dot);
    assert(both.subrange(0, 1) =~= slash);
    assert(spans_from(both, 1) =~= Seq::<(int, int)>::empty());
    assert(components(both) =~= seq![slash]);
    law_joined_name(none, name);
    assert(!absolute(name)) by {
        assert(name[0] != 0x2f);
    }
    assert(joined(none, name) =~= name);
    assert(components(name) =~= seq![name]);
    if p.len() > 0 {
        let q = p + slash;
        assert(spans_from(q, q.len() as int) =~= Seq::<(int, int)>::empty());
        lemma_same_components(p, slash);
        let r = p + seq![0x2fu8, 0x2e];
        let i = p.len() as int + 1;
        assert(r[i] == 0x2e);
        lemma_next_slash_none(r, i);
        assert(r.subrange(i, r.len() as int) =~= dot);
        assert(spans_from(r, i) =~= Seq::<(int, int)>::empty());
        lemma_same_components(p, seq![0x2fu8, 0x2e]);
        law_joined_name(q, name);
        assert(q.last() == 0x2f);
        assert(joined(q, name) =~= p + slash + name);
    }
}

/// A path lies within another one if and only if it starts with the other's components.
pub proof fn law_what_lies_within(p: Seq<u8>, base: Seq<u8>)
    ensures
        within(p, base) <==> components(base).len() <= components(p).len() && forall|k: int|
            0 <= k < components(base).len() ==> #[trigger] components(base)[k] == components(p)[k],
        behind(p, base) is Some <==> within(p, base),
        within(p, base) && components(p).len() == components(base).len() ==> behind(p, base)
            == Some(Seq::<u8>::empty()),
{
    let n = components(base).len() as int;
    if n <= components(p).len() {
        let front = components(p).subrange(0, n);
        if forall|k: int| 0 <= k < n ==> #[trigger] components(base)[k] == components(p)[k] {
            assert(components(base) =~= front);
        }
        if within(p, base) {
            assert forall|k: int| 0 <= k < n implies #[trigger] components(base)[k] == components(
                p,
            )[k] by {
                assert(front[k] == components(p)[k]);
            }
        }
    }
}

/// A path is joined to another one behind a slash, unless the other one ends with a slash
/// or is empty; one that starts with a slash stands alone.
pub proof fn law_joined_paths(a: Seq<u8>, b: Seq<u8>)
    ensures
        b.len() > 0 && b[0] == 0x2f ==> joined(a, b) == b,
        (b.len() == 0 || b[0] != 0x2f) && a.len() > 0 && a.last() != 0x2f ==> joined(a, b) == a
            + seq![0x2fu8] + b,
        (b.len() == 0 || b[0] != 0x2f) && (a.len() == 0 || a.last() == 0x2f) ==> joined(a, b) == a
            + b,
        joined(Seq::empty(), b) == b,
{
    assert(Seq::<u8>::empty() + b =~= b);
}

/// Above a name in a directory lies that directory, above a name alone nothing but an empty
/// path; above the root, and above nothing, there is nothing.
pub proof fn law_what_lies_above(p: Seq<u8>, name: Seq<u8>)
    requires
        is_name(name),
    ensures
        above(Seq::empty()) is None,
        above(seq![0x2fu8]) is None,
        above(name) == Some(Seq::<u8>::empty()),
        above(seq![0x2fu8] + name) == Some(seq![0x2fu8]),
        ends_in_name(p) ==> above(joined(p, name)) == Some(p),
        last_name(seq![0x2fu8]) is None,
        last_name(Seq::empty()) is None,
        last_name(name) == (if name == seq![0x2eu8, 0x2e] {
            None
        } else {
            Some(name)
        }),
{
    let none = Seq::<u8>::empty();
    let slash = seq![0x2fu8];
    law_components_of_a_path(none, name);
    assert(components(slash).last() == slash);
    assert(name[0] != 0x2f);
    assert(name != slash) by {
        if name == slash {
            assert(name[0] == 0x2f);
        }
    }
    assert(!absolute(name));
    law_joined_name(none, name);
    assert(joined(none, name) =~= name);
    assert(components(name).len() == 1);
    law_joined_name(slash, name);
    let q = slash + name;
    assert(joined(slash, name) =~= q);
    assert(q.take(1) =~= slash);
    assert(components(q).last() == name);
    assert(spans(q).len() == 2);
    assert(spans(q)[0] == (0int, 1int));
    if ends_in_name(p) {
        let r = joined(p, name);
        law_joined_name(p, name);
        lemma_spans(p);
        assert(r =~= p + slash + name);
        assert(r.take(p.len() as int) =~= p);
        assert(r.skip(p.len() as int + 1) =~= name);
        assert(r[0] == p[0]);
        let i: int = if absolute(p) {
            1
        } else {
            0
        };
        lemma_spans_from_name(r, p, i, p.len() as int + 1);
        assert(spans(r) =~= spans(p).push((p.len() as int + 1, r.len() as int)));
        assert(components(r).last() == name);
    }
}

/// The user is the first that the system's variables name, and so is the directory for
/// temporary files; each has a fallback.
pub proof fn law_users_and_temporary_files(env: &Environment)
    ensures
        env.system == System::Unix ==> {
            &&& env.user is Some ==> env.user_text() == env.user->0@
            &&& env.user is None && env.logname is Some ==> env.user_text() == env.logname->0@
            &&& env.user is None && env.logname is None ==> env.user_text() == "unknown"@
            &&& env.tmpdir is Some ==> env.temp_text() == env.tmpdir->0@
            &&& env.tmpdir is None ==> env.temp_text() == "/tmp"@
        },
        env.system == System::Windows ==> {
            &&& env.username is Some ==> env.user_text() == env.username->0@
            &&& env.username is None ==> env.user_text() == "unknown"@
            &&& env.temp is Some ==> env.temp_text() == env.temp->0@
            &&& env.temp is None && env.tmp is Some ==> env.temp_text() == env.tmp->0@
            &&& env.temp is None && env.tmp is None ==> env.temp_text() == "C:\\Windows\\Temp"@
        },
{
}

/// The daemon's files lie in a directory of the user's below that for temporary files,
/// behind the separator of the system.
pub proof fn law_files_of_the_daemon(env: &Environment, dir: Seq<u8>, name: Seq<u8>)
    requires
        name.len() > 0,
        name[0] != 0x2f,
        dir.len() > 0,
        dir.last() != 0x2f,
        dir.last() != 0x5c,
        dir.last() != 0x3a,
    ensures
        env.sock_file() == filed(env.system, env.state_path(), encode_utf8("sock"@)),
        env.pid_file() == filed(env.system, env.state_path(), encode_utf8("pid"@)),
        filed(System::Unix, dir, name) == dir + seq![0x2fu8] + name,
        filed(System::Windows, dir, name) == dir + seq![0x5cu8] + name,
        filed(System::Windows, dir + seq![0x5cu8], name) == dir + seq![0x5cu8] + name,
        filed(System::Windows, dir + seq![0x2fu8], name) == dir + seq![0x2fu8] + name,
        filed(System::Unix, dir + seq![0x2fu8], name) == dir + seq![0x2fu8] + name,
        filed(System::Windows, seq![0x43u8, 0x3a], name) == seq![0x43u8, 0x3a] + name,
        dir == encode_utf8(env.temp_text()) && env.system == System::Unix ==> env.state_path()
            == dir + seq![0x2fu8] + encode_utf8("watchman-rs-"@ + env.user_text()),
        dir == encode_utf8(env.temp_text()) && env.system == System::Windows ==> env.state_path()
            == dir + seq![0x5cu8] + encode_utf8("watchman-rs-"@ + env.user_text()),
{
    reveal_strlit("watchman-rs-");
    let t = "watchman-rs-"@ + env.user_text();
    let b = encode_utf8(t);
    assert(t[0] == 'w');
    lemma_first_byte(t);
    assert(dir.len() == 2 ==> dir[1] == dir.last());
}

/// A text that starts with the first letter of a name of the daemon's starts with its byte.
proof fn lemma_first_byte(t: Seq<char>)
    requires
        t.len() > 0,
        t[0] == 'w',
    ensures
        encode_utf8(t).len() > 0,
        encode_utf8(t)[0] == 0x77,
{
    assert(encode_utf8(t) == encode_scalar(t[0] as u32) + encode_utf8(t.drop_first()));
    let one = seq![t[0]];
    assert(one.drop_first() =~= Seq::<char>::empty());
    assert(encode_utf8(Seq::<char>::empty()) =~= Seq::<u8>::empty());
    assert(encode_utf8(one) =~= encode_scalar(t[0] as u32));
    assert(is_ascii_chars(one));
    is_ascii_chars_encode_utf8(one);
    assert(one[0] as u8 == encode_utf8(one)[0]);
}

/// A name is put directly behind a drive, which is a letter and a colon; any other
/// directory that ends with a colon has the separator behind it.
pub proof fn law_files_on_a_drive(d: u8, dir: Seq<u8>, name: Seq<u8>)
    requires
        dir.len() != 2,
        dir.len() > 0,
        dir.last() == 0x3a,
    ensures
        ({
            let letter = 'A' as u8 <= d <= 'Z' as u8 || 'a' as u8 <= d <= 'z' as u8;
            let drive = seq![d, 0x3au8];
            &&& letter ==> filed(System::Windows, drive, name) == drive + name
            &&& !letter ==> filed(System::Windows, drive, name) == drive + seq![0x5cu8] + name
            &&& filed(System::Windows, dir, name) == dir + seq![0x5cu8] + name
            &&& filed(System::Windows, Seq::empty(), name) == name
        }),
{
    let drive = seq![d, 0x3au8];
    assert(drive[0] == d && drive[1] == 0x3a && drive.last() == 0x3a);
    assert(Seq::<u8>::empty() + name =~= name);
}

/// A row of paths stands for what it holds, in order.
pub proof fn law_rows_of_paths(v: Seq<Vec<u8>>, k: int)
    ensures
        path_rows(v).len() == v.len(),
        0 <= k < v.len() ==> path_rows(v)[k] == v[k]@,
{
}

/// Behind the root, components hold no slashes.
proof fn lemma_slashless_spans(p: Seq<u8>, i: int)
    requires
        0 <= i <= p.len(),
    ensures
        forall|k: int|
            0 <= k < spans_from(p, i).len() ==> slashless(
                p.subrange((#[trigger] spans_from(p, i)[k]).0, spans_from(p, i)[k].1),
            ),
    decreases p.len() - i,
{
    let e = next_slash(p, i);
    lemma_next_slash(p, i);
    lemma_before_slash(p, i);
    if e < p.len() {
        lemma_slashless_spans(p, e + 1);
    }
    let all = spans_from(p, i);
    assert forall|k: int| 0 <= k < all.len() implies slashless(
        p.subrange((#[trigger] all[k]).0, all[k].1),
    ) by {
        if counts(p, i, e) {
            if k > 0 {
                assert(all[k] == spans_from(p, e + 1)[k - 1]);
            } else {
                assert(all[k] == (i, e));
            }
        } else {
            assert(all == spans_from(p, e + 1));
        }
    }
}

/// A component of a path, but for the slash at its front, starts and ends with no slash.
proof fn lemma_component_ends(p: Seq<u8>, k: int)
    requires
        0 <= k < spans(p).len(),
        k > 0 || !absolute(p),
    ensures
        p[spans(p)[k].0] != 0x2f,
        p[spans(p)[k].1 - 1] != 0x2f,
{
    lemma_spans(p);
    let (start, end) = spans(p)[k];
    let part = p.subrange(start, end);
    if absolute(p) {
        lemma_slashless_spans(p, 1);
        assert(spans(p)[k] == spans_from(p, 1)[k - 1]);
    } else {
        lemma_slashless_spans(p, 0);
    }
    assert(slashless(part));
    assert(part[0] == p[start]);
    assert(part[end - start - 1] == p[end - 1]);
}

/// What is left of a path behind another one stands in the path as it is, from the first
/// component that is left to the end of the last.
pub proof fn law_rest_is_a_part(p: Seq<u8>, base: Seq<u8>)
    requires
        within(p, base),
        0 < components(base).len() < components(p).len(),
    ensures
        ({
            let rest = behind(p, base)->0;
            &&& rest.len() > 0
            &&& rest[0] != 0x2f
            &&& rest.last() != 0x2f
            &&& exists|i: int, j: int| 0 <= i < j <= p.len() && rest == #[trigger] p.subrange(i, j)
        }),
{
    let n = components(base).len() as int;
    let last = spans(p).len() - 1;
    lemma_spans(p);
    lemma_component_ends(p, n);
    lemma_component_ends(p, last);
    let i = spans(p)[n].0;
    let j = spans(p)[last].1;
    if n < last {
        assert(spans(p)[n].1 <= spans(p)[last].0);
    }
    let rest = p.subrange(i, j);
    assert(behind(p, base) == Some(rest));
    assert(rest[0] == p[i]);
    assert(rest.last() == p[j - 1]);
}

/// What lies above a path is the front of it as it stands, without a slash at its end
/// unless it is the root.
pub proof fn law_above_is_the_front(p: Seq<u8>)
    requires
        above(p) is Some,
    ensures
        ({
            let up = above(p)->0;
            &&& up.len() < p.len()
            &&& up == p.take(up.len() as int)
            &&& up.len() > 0 ==> up == seq![0x2fu8] || up.last() != 0x2f
        }),
{
    let up = above(p)->0;
    let all = spans(p);
    lemma_spans(p);
    assert(all[all.len() - 1].0 < all[all.len() - 1].1 <= p.len());
    if all.len() >= 2 {
        let k = all.len() - 2;
        let end = all[k].1;
        assert(all[k].1 <= all[all.len() - 1].0);
        assert(up == p.take(end));
        if k > 0 || !absolute(p) {
            lemma_component_ends(p, k);
            assert(up.last() == p[end - 1]);
        } else {
            assert(all[0] == (0int, 1int));
            assert(up =~= seq![0x2fu8]);
        }
    } else {
        assert(up =~= p.take(0));
    }
}

} // verus!
