//! Cookies: files that are written into a root so that, once the watcher has
//! reported them, everything that changed before is known too.

use vstd::prelude::*;
use vstd::string::StringExecFns;
use vstd::utf8::*;

use crate::paths::{is_name, join, joined, law_joined_name};
use crate::text::{
    after_last, digits, is_digit, law_digits_tell_numbers_apart, law_split, lemma_digits, lossy,
    push_digits, split,
};
use crate::tree::{cookie_name, distinct, lemma_place, place, relative, slashed, Tree};

verus! {

/// The name of a cookie: the process, the time in nanoseconds and a counter.
pub open spec fn cookie_text(pid: u32, now: u128, seq: u64) -> Seq<char> {
    ".watchman-cookie-"@ + digits(pid as nat) + "-"@ + digits(now as nat) + "-"@ + digits(
        seq as nat,
    )
}

/// The name of a cookie.
pub fn cookie_file(pid: u32, now: u128, seq: u64) -> (r: String)
    ensures
        r@ == cookie_text(pid, now, seq),
{
    let mut out = ".watchman-cookie-".to_string();
    push_digits(&mut out, pid as u128);
    out.append("-");
    push_digits(&mut out, now);
    out.append("-");
    push_digits(&mut out, seq as u128);
    out
}

/// Where a cookie is written.
pub open spec fn cookie_place(root: Seq<u8>, name: Seq<char>) -> Seq<u8> {
    joined(root, encode_utf8(name))
}

/// Where a cookie is written.
pub fn cookie_path(root: &[u8], name: &str) -> (r: Vec<u8>)
    ensures
        r@ == cookie_place(root@, name@),
{
    join(root, name.as_bytes())
}

/// What to do while a cookie is awaited.
#[derive(Debug, Clone, Copy, PartialEq, Eq, Structural)]
pub enum SyncStep {
    /// The cookie was seen, or the time is up.
    Stop,
    /// Wait for the next change, so long at most.
    Wait(u128),
}

/// Whether a file is known to exist.
pub open spec fn known(tree: &Tree, name: Seq<char>) -> bool {
    match place(tree.rows(), name) {
        Some(k) => tree.rows()[k].exists,
        None => false,
    }
}

/// What to do while a cookie is awaited, given whether it was seen, how much time has
/// passed, and how much is allowed.
pub open spec fn step_for(seen: bool, elapsed: u128, timeout: u128) -> SyncStep {
    if seen || elapsed >= timeout {
        SyncStep::Stop
    } else {
        SyncStep::Wait((timeout - elapsed) as u128)
    }
}

/// Decides whether to wait on for a cookie, after so much of the time allowed.
pub fn sync_step(tree: &Tree, name: &str, elapsed: u128, timeout: u128) -> (r: SyncStep)
    requires
        tree.wf(),
    ensures
        r == step_for(known(tree, name@), elapsed, timeout),
{
    let seen = match tree.get(name) {
        Some(f) => f.exists,
        None => false,
    };
    if seen || elapsed >= timeout {
        SyncStep::Stop
    } else {
        SyncStep::Wait(timeout - elapsed)
    }
}

/// A text without a separator follows the last one altogether.
proof fn lemma_after_last_none(s: Seq<char>, sep: char)
    requires
        forall|k: int| 0 <= k < s.len() ==> (#[trigger] s[k]) != sep,
    ensures
        after_last(s, sep) == s,
    decreases s.len(),
{
    if s.len() > 0 {
        lemma_after_last_none(s.drop_last(), sep);
        assert(s.drop_last().push(s.last()) =~= s);
    } else {
        assert(s =~= Seq::<char>::empty());
    }
}

/// What the characters of a cookie's name are.
proof fn lemma_cookie_chars(pid: u32, now: u128, seq: u64)
    ensures
        cookie_text(pid, now, seq).len() > 17,
        ".watchman-cookie-"@.is_prefix_of(cookie_text(pid, now, seq)),
        forall|k: int|
            0 <= k < cookie_text(pid, now, seq).len() ==> '-' <= #[trigger] cookie_text(
                pid,
                now,
                seq,
            )[k] <= 'z' && cookie_text(pid, now, seq)[k] != '/' && cookie_text(pid, now, seq)[k]
                != '\\',
{
    reveal_strlit(".watchman-cookie-");
    reveal_strlit("-");
    let t = cookie_text(pid, now, seq);
    let front = ".watchman-cookie-"@;
    let a = digits(pid as nat);
    let b = digits(now as nat);
    let c = digits(seq as nat);
    lemma_digits(pid as nat);
    lemma_digits(now as nat);
    lemma_digits(seq as nat);
    assert(front =~= t.take(front.len() as int));
    assert forall|k: int| 0 <= k < t.len() implies '-' <= #[trigger] t[k] <= 'z' && t[k] != '/'
        && t[k] != '\\' by {
        let n = front.len() as int;
        if k < n {
            assert(t[k] == front[k]);
        } else if k < n + a.len() {
            assert(t[k] == a[k - n]);
            assert(is_digit(a[k - n]));
        } else if k < n + a.len() + 1 {
            assert(t[k] == '-');
        } else if k < n + a.len() + 1 + b.len() {
            assert(t[k] == b[k - n - a.len() - 1]);
            assert(is_digit(b[k - n - a.len() - 1]));
        } else if k < n + a.len() + 1 + b.len() + 1 {
            assert(t[k] == '-');
        } else {
            assert(t[k] == c[k - n - a.len() - 1 - b.len() - 1]);
            assert(is_digit(c[k - n - a.len() - 1 - b.len() - 1]));
        }
    }
}

/// The name of every cookie is known for one.
pub proof fn law_cookies_are_cookies(pid: u32, now: u128, seq: u64)
    ensures
        cookie_name(cookie_text(pid, now, seq)),
{
    lemma_cookie_chars(pid, now, seq);
    lemma_after_last_none(cookie_text(pid, now, seq), '/');
}

/// A cookie written into a root is entered under its own name.
pub proof fn law_cookie_is_entered_by_name(root: Seq<u8>, pid: u32, now: u128, seq: u64)
    ensures
        relative(root, cookie_place(root, cookie_text(pid, now, seq))) == cookie_text(
            pid,
            now,
            seq,
        ),
{
    let t = cookie_text(pid, now, seq);
    let b = encode_utf8(t);
    lemma_cookie_chars(pid, now, seq);
    assert(is_ascii_chars(t));
    is_ascii_chars_encode_utf8(t);
    assert(is_name(b)) by {
        assert forall|k: int| 0 <= k < b.len() implies (#[trigger] b[k]) != 0x2f by {
            assert(t[k] as u8 == b[k]);
            assert(t[k] != '/');
        }
    }
    law_joined_name(root, b);
    encode_utf8_valid_utf8(t);
    encode_utf8_decode_utf8(t);
    assert(lossy(b) == t);
    assert(slashed(t) =~= t);
}

/// The name of a cookie is made of five parts with dashes between them: two words, the
/// process, the time and the counter.
pub proof fn law_parts_of_a_cookie(pid: u32, now: u128, seq: u64)
    ensures
        split(cookie_text(pid, now, seq), '-') == seq![
            ".watchman"@,
            "cookie"@,
            digits(pid as nat),
            digits(now as nat),
            digits(seq as nat),
        ],
{
    reveal_strlit(".watchman-cookie-");
    reveal_strlit(".watchman");
    reveal_strlit("cookie");
    reveal_strlit("-");
    let a = digits(pid as nat);
    let b = digits(now as nat);
    let c = digits(seq as nat);
    lemma_no_dash(pid as nat);
    lemma_no_dash(now as nat);
    lemma_no_dash(seq as nat);
    let dash = seq!['-'];
    let one = ".watchman"@;
    let two = one + dash + "cookie"@;
    let three = two + dash + a;
    let four = three + dash + b;
    let five = four + dash + c;
    assert(cookie_text(pid, now, seq) =~= five);
    law_split(one, "cookie"@, '-');
    law_split(Seq::empty(), one, '-');
    law_split(two, a, '-');
    law_split(three, b, '-');
    law_split(four, c, '-');
    assert(split(five, '-') =~= seq![one, "cookie"@, a, b, c]);
}

/// The digits of a number hold no dash.
proof fn lemma_no_dash(n: nat)
    ensures
        forall|k: int| 0 <= k < digits(n).len() ==> (#[trigger] digits(n)[k]) != '-',
{
    lemma_digits(n);
    assert forall|k: int| 0 <= k < digits(n).len() implies (#[trigger] digits(n)[k]) != '-' by {
        assert(is_digit(digits(n)[k]));
    }
}

/// No two cookies of different processes, times or counters have the same name.
pub proof fn law_cookies_differ(pid: u32, now: u128, seq: u64, pid2: u32, now2: u128, seq2: u64)
    requires
        cookie_text(pid, now, seq) == cookie_text(pid2, now2, seq2),
    ensures
        pid == pid2,
        now == now2,
        seq == seq2,
{
    law_parts_of_a_cookie(pid, now, seq);
    law_parts_of_a_cookie(pid2, now2, seq2);
    let one = split(cookie_text(pid, now, seq), '-');
    let two = split(cookie_text(pid2, now2, seq2), '-');
    assert(one[2] == two[2] && one[3] == two[3] && one[4] == two[4]);
    law_digits_tell_numbers_apart(pid as nat, pid2 as nat);
    law_digits_tell_numbers_apart(now as nat, now2 as nat);
    law_digits_tell_numbers_apart(seq as nat, seq2 as nat);
}

/// A cookie is seen once a file under its name is known to exist.
pub proof fn law_seen_cookies(tree: &Tree, name: Seq<char>)
    requires
        distinct(tree.rows()),
    ensures
        known(tree, name) <==> exists|k: int|
            0 <= k < tree.rows().len() && (#[trigger] tree.rows()[k]).name == name
                && tree.rows()[k].exists,
{
    lemma_place(tree.rows(), name);
    if known(tree, name) {
        let k = place(tree.rows(), name)->0;
        assert(tree.rows()[k].name == name);
    }
}

/// A cookie that was seen is not awaited any longer, and none is once the time is up; until
/// then what is left of the time is waited for.
pub proof fn law_how_long_cookies_are_awaited(elapsed: u128, timeout: u128)
    ensures
        step_for(true, elapsed, timeout) is Stop,
        elapsed >= timeout ==> step_for(false, elapsed, timeout) is Stop,
        elapsed < timeout ==> step_for(false, elapsed, timeout) is Wait && elapsed + step_for(
            false,
            elapsed,
            timeout,
        )->Wait_0 == timeout,
{
}

} // verus!
