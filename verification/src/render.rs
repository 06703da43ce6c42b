//! The report renderer: turns the analysis state into deterministic report
//! lines.
//!
//! Summaries are ordered by start timestamp (ascending, or reversed to show
//! the newest boot first); within a summary, severities appear in ascending
//! numeric order (most severe first) and source identifiers in lexicographic
//! order; within an identifier, arrival order is kept, consecutive duplicate
//! messages are collapsed into one line annotated with the run length, and
//! long messages are truncated to a configured number of characters with a
//! marker appended. Styling never affects grouping, ordering, or collapsing.

use vstd::prelude::*;
use vstd::string::StrSliceExecFns;
use vstd::string::StringExecFns;

verus! {

/// Lexicographic order on character sequences, by code point.
pub open spec fn lex_le(a: Seq<char>, b: Seq<char>) -> bool
    decreases a.len(),
{
    if a.len() == 0 {
        true
    } else if b.len() == 0 {
        false
    } else if a[0] == b[0] {
        lex_le(a.skip(1), b.skip(1))
    } else {
        (a[0] as u32) < (b[0] as u32)
    }
}

pub proof fn lemma_lex_le_total(a: Seq<char>, b: Seq<char>)
    ensures
        lex_le(a, b) || lex_le(b, a),
        lex_le(a, b) && lex_le(b, a) ==> a == b,
    decreases a.len(),
{
    if a.len() == 0 && b.len() == 0 {
        assert(a =~= b);
    }
    if a.len() == 0 {
        assert(lex_le(a, b));
    } else if b.len() == 0 {
        assert(lex_le(b, a));
    } else if a[0] != b[0] {
        vstd::utf8::char_u32_cast(a[0], a[0] as u32);
        vstd::utf8::char_u32_cast(b[0], b[0] as u32);
        assert((a[0] as u32) != (b[0] as u32));
        assert(lex_le(a, b) == ((a[0] as u32) < (b[0] as u32)));
        assert(lex_le(b, a) == ((b[0] as u32) < (a[0] as u32)));
        assert(lex_le(a, b) || lex_le(b, a));
    }
    if a.len() > 0 && b.len() > 0 && a[0] == b[0] {
        lemma_lex_le_total(a.skip(1), b.skip(1));
        if lex_le(a, b) && lex_le(b, a) {
            assert(a.skip(1) == b.skip(1));
            assert(a =~= b) by {
                assert forall|i: int| 0 <= i < a.len() implies a[i] == b[i] by {
                    if i >= 1 {
                        assert(a.skip(1)[i - 1] == a[i]);
                        assert(b.skip(1)[i - 1] == b[i]);
                    }
                }
            }
        }
    }
}

pub proof fn lemma_lex_le_trans(a: Seq<char>, b: Seq<char>, c: Seq<char>)
    requires
        lex_le(a, b),
        lex_le(b, c),
    ensures
        lex_le(a, c),
    decreases a.len(),
{
    if a.len() > 0 && b.len() > 0 && c.len() > 0 {
        if a[0] == b[0] && b[0] == c[0] {
            lemma_lex_le_trans(a.skip(1), b.skip(1), c.skip(1));
        }
    }
}

proof fn lemma_lex_le_common(a: Seq<char>, b: Seq<char>, i: int)
    requires
        0 <= i <= a.len(),
        i <= b.len(),
        forall|t: int| 0 <= t < i ==> a[t] == b[t],
    ensures
        lex_le(a, b) == lex_le(a.skip(i), b.skip(i)),
    decreases i,
{
    if i > 0 {
        assert(a.len() > 0 && b.len() > 0);
        assert(a[0] == b[0]);
        assert forall|t: int| 0 <= t < i - 1 implies #[trigger] a.skip(1)[t] == b.skip(1)[t] by {
            assert(a.skip(1)[t] == a[t + 1]);
            assert(b.skip(1)[t] == b[t + 1]);
        }
        lemma_lex_le_common(a.skip(1), b.skip(1), i - 1);
        assert(a.skip(1).skip(i - 1) =~= a.skip(i));
        assert(b.skip(1).skip(i - 1) =~= b.skip(i));
        assert(lex_le(a, b) == lex_le(a.skip(1), b.skip(1)));
    } else {
        assert(a.skip(0) =~= a);
        assert(b.skip(0) =~= b);
    }
}

/// Compares two strings in the lexicographic order that [`lex_le`] states.
pub fn str_lex_le(a: &str, b: &str) -> (r: bool)
    ensures
        r == lex_le(a@, b@),
{
    let alen: usize = a.unicode_len();
    let blen: usize = b.unicode_len();
    let min: usize = if alen < blen {
        alen
    } else {
        blen
    };
    let mut i: usize = 0;
    while i < min
        invariant
            alen == a@.len(),
            blen == b@.len(),
            min == if alen < blen { alen } else { blen },
            0 <= i <= min,
            forall|t: int| 0 <= t < i ==> a@[t] == b@[t],
        decreases min - i,
    {
        let ca = a.get_char(i);
        let cb = b.get_char(i);
        if ca != cb {
            proof {
                lemma_lex_le_common(a@, b@, i as int);
                assert(a@.skip(i as int)[0] == ca);
                assert(b@.skip(i as int)[0] == cb);
            }
            return (ca as u32) < (cb as u32);
        }
        i = i + 1;
    }
    proof {
        lemma_lex_le_common(a@, b@, min as int);
        if alen <= blen {
            assert(a@.skip(min as int).len() == 0);
        } else {
            assert(a@.skip(min as int).len() > 0);
            assert(b@.skip(min as int).len() == 0);
        }
    }
    alen <= blen
}

/// One collapsed run of consecutive identical messages.
pub struct MessageRun {
    /// The message text, truncated as configured.
    pub text: String,
    /// How many consecutive identical messages this line stands for.
    pub count: usize,
    /// Whether the text was cut short at the configured length.
    pub truncated: bool,
}

/// Length of the run of elements equal to `s[0]` at the head of `s`.
pub open spec fn leading_run(s: Seq<Seq<char>>) -> nat
    decreases s.len(),
{
    if s.len() == 0 {
        0
    } else if s.len() == 1 || s[1] != s[0] {
        1
    } else {
        (1 + leading_run(s.skip(1))) as nat
    }
}

/// Collapses consecutive identical elements into (element, run length)
/// pairs, in order.
pub open spec fn spec_collapse(s: Seq<Seq<char>>) -> Seq<(Seq<char>, int)>
    decreases s.len(),
    via spec_collapse_decreases
{
    if s.len() == 0 {
        Seq::empty()
    } else {
        seq![(s[0], leading_run(s) as int)] + spec_collapse(s.skip(leading_run(s) as int))
    }
}

#[via_fn]
proof fn spec_collapse_decreases(s: Seq<Seq<char>>) {
    lemma_leading_run_bounds(s);
}

proof fn lemma_leading_run_bounds(s: Seq<Seq<char>>)
    ensures
        leading_run(s) <= s.len(),
        s.len() > 0 ==> 1 <= leading_run(s),
        forall|t: int| 0 <= t < leading_run(s) ==> #[trigger] s[t] == s[0],
        leading_run(s) < s.len() ==> s[leading_run(s) as int] != s[0],
    decreases s.len(),
{
    if s.len() > 1 && s[1] == s[0] {
        lemma_leading_run_bounds(s.skip(1));
        let k = leading_run(s) as int;
        assert(k == 1 + leading_run(s.skip(1)));
        assert forall|t: int| 0 <= t < k implies #[trigger] s[t] == s[0] by {
            if t >= 1 {
                assert(s.skip(1)[t - 1] == s[t]);
                assert(s.skip(1)[t - 1] == s.skip(1)[0]);
            }
        }
        if k < s.len() {
            assert(s.skip(1)[k - 1] == s[k]);
            assert(s.skip(1)[k - 1] != s.skip(1)[0]);
        }
    }
}

proof fn lemma_leading_run_exact(s: Seq<Seq<char>>, k: int)
    requires
        0 < k <= s.len(),
        forall|t: int| 0 <= t < k ==> #[trigger] s[t] == s[0],
        k < s.len() ==> s[k] != s[0],
    ensures
        leading_run(s) == k,
    decreases k,
{
    if k > 1 {
        assert forall|t: int| 0 <= t < k - 1 implies #[trigger] s.skip(1)[t] == s.skip(1)[0] by {
            assert(s.skip(1)[t] == s[t + 1]);
            assert(s.skip(1)[0] == s[1]);
        }
        if k - 1 < s.skip(1).len() {
            assert(s.skip(1)[k - 1] == s[k]);
            assert(s.skip(1)[0] == s[1]);
        }
        lemma_leading_run_exact(s.skip(1), k - 1);
        assert(s[1] == s[0]);
    } else {
        if 1 < s.len() {
            assert(s[1] != s[0]);
        }
    }
}

/// Collapsing never loses or reorders anything: every pair stands for a
/// positive run, adjacent pairs hold different texts (a text that returns
/// after a different message starts a new, separately counted pair), and
/// expanding every pair back to `count` copies of its text restores the
/// original sequence exactly.
#[verifier::rlimit(60)]
pub proof fn lemma_collapse_exact(s: Seq<Seq<char>>)
    ensures
        forall|i: int| 0 <= i < spec_collapse(s).len() ==> (#[trigger] spec_collapse(s)[i]).1
            >= 1,
        forall|i: int| 0 <= i < spec_collapse(s).len() - 1
            ==> (#[trigger] spec_collapse(s)[i]).0 != spec_collapse(s)[i + 1].0,
        spec_expand(spec_collapse(s)) == s,
    decreases s.len(),
{
    if s.len() > 0 {
        let k = leading_run(s) as int;
        lemma_leading_run_bounds(s);
        let rest = s.skip(k);
        lemma_collapse_exact(rest);
        let c = spec_collapse(s);
        let cr = spec_collapse(rest);
        assert(c == seq![(s[0], k)] + cr);
        assert(c.len() == 1 + cr.len());
        assert(c[0] == (s[0], k));
        assert(forall|i: int| 1 <= i < c.len() ==> #[trigger] c[i] == cr[i - 1]);
        assert forall|i: int| 0 <= i < c.len() implies (#[trigger] c[i]).1 >= 1 by {
            if i >= 1 {
                assert(c[i] == cr[i - 1]);
            }
        }
        assert forall|i: int| 0 <= i < c.len() - 1 implies (#[trigger] c[i]).0 != c[i + 1].0 by {
            if i == 0 {
                assert(cr.len() > 0);
                assert(cr[0] == (rest[0], leading_run(rest) as int));
                lemma_leading_run_bounds(rest);
                assert(rest[0] == s[k]);
                assert(c[1] == cr[0]);
            } else {
                assert(c[i] == cr[i - 1]);
                assert(c[i + 1] == cr[i]);
            }
        }
        let e = spec_expand(c);
        assert(e == Seq::new(k as nat, |t: int| s[0]) + spec_expand(c.skip(1))) by {
            assert(c.len() > 0);
            assert(c[0].1 == k);
            assert(c[0].0 == s[0]);
        }
        assert(c.skip(1) =~= cr);
        assert(spec_expand(cr) == rest);
        assert(e =~= s) by {
            assert(e.len() == k + rest.len());
            assert forall|t: int| 0 <= t < s.len() implies e[t] == s[t] by {
                if t < k {
                    assert(e[t] == s[0]);
                    assert(s[t] == s[0]);
                } else {
                    assert(e[t] == rest[t - k]);
                    assert(rest[t - k] == s[t]);
                }
            }
        }
    }
}

/// Expands (text, count) pairs back into the sequence they collapse.
pub open spec fn spec_expand(runs: Seq<(Seq<char>, int)>) -> Seq<Seq<char>>
    decreases runs.len(),
{
    if runs.len() == 0 {
        Seq::empty()
    } else {
        Seq::new(runs[0].1 as nat, |t: int| runs[0].0) + spec_expand(runs.skip(1))
    }
}

/// A uniform sequence collapses to exactly one pair carrying its length.
pub proof fn lemma_collapse_uniform(s: Seq<Seq<char>>)
    requires
        s.len() > 0,
        forall|t: int| 0 <= t < s.len() ==> #[trigger] s[t] == s[0],
    ensures
        spec_collapse(s) == seq![(s[0], s.len() as int)],
{
    lemma_leading_run_exact(s, s.len() as int);
    let n = s.len() as int;
    assert(leading_run(s) == n);
    assert(s.skip(n).len() == 0);
    assert(spec_collapse(s.skip(n)) == Seq::<(Seq<char>, int)>::empty());
    assert(spec_collapse(s) == seq![(s[0], n)] + Seq::<(Seq<char>, int)>::empty());
    assert(spec_collapse(s) =~= seq![(s[0], s.len() as int)]);
}

/// Truncates `text` to at most `max_len` characters: a longer text keeps
/// exactly its first `max_len` characters and is flagged; a text within the
/// limit is returned unchanged.
pub fn truncate_message(text: &str, max_len: usize) -> (r: (String, bool))
    ensures
        r.1 == (text@.len() > max_len),
        r.1 ==> r.0@ == text@.take(max_len as int),
        !r.1 ==> r.0@ == text@,
{
    let n: usize = text.unicode_len();
    if n > max_len {
        let cut = text.substring_char(0, max_len);
        proof {
            assert(cut@ =~= text@.take(max_len as int));
        }
        (cut.to_owned(), true)
    } else {
        (text.to_owned(), false)
    }
}

/// The texts of a bucket's messages, in arrival order.
pub open spec fn texts_of(ms: Seq<crate::analysis::MessageView>) -> Seq<Seq<char>> {
    ms.map_values(|m: crate::analysis::MessageView| m.text)
}

/// Collapses consecutive identical messages into (text, run length) pairs,
/// as [`spec_collapse`] states.
pub fn collapse_messages(msgs: &Vec<crate::analysis::MessageEntry>) -> (r: Vec<(String, usize)>)
    ensures
        r@.map_values(|x: (String, usize)| (x.0@, x.1 as int))
            == spec_collapse(texts_of(msgs@.map_values(|m: crate::analysis::MessageEntry| m@))),
{
    let ghost texts = texts_of(msgs@.map_values(|m: crate::analysis::MessageEntry| m@));
    let n = msgs.len();
    let mut out: Vec<(String, usize)> = Vec::new();
    let mut i: usize = 0;
    proof {
        assert(texts.skip(0) =~= texts);
        assert(out@.map_values(|x: (String, usize)| (x.0@, x.1 as int))
            =~= Seq::<(Seq<char>, int)>::empty());
        assert(spec_collapse(texts) =~= out@.map_values(
            |x: (String, usize)| (x.0@, x.1 as int),
        ) + spec_collapse(texts.skip(0)));
    }
    while i < n
        invariant
            n == msgs@.len(),
            texts == texts_of(msgs@.map_values(|m: crate::analysis::MessageEntry| m@)),
            texts.len() == n,
            forall|t: int| 0 <= t < n ==> #[trigger] texts[t] == msgs@[t].message@,
            0 <= i <= n,
            spec_collapse(texts) == out@.map_values(|x: (String, usize)| (x.0@, x.1 as int))
                + spec_collapse(texts.skip(i as int)),
        decreases n - i,
    {
        let mut j: usize = i + 1;
        while j < n && msgs[j].message == msgs[i].message
            invariant
                n == msgs@.len(),
                texts.len() == n,
                forall|t: int| 0 <= t < n ==> #[trigger] texts[t] == msgs@[t].message@,
                0 <= i < j <= n,
                forall|t: int| i < t < j ==> #[trigger] texts[t] == texts[i as int],
            decreases n - j,
        {
            j = j + 1;
        }
        let run: usize = j - i;
        proof {
            let sfx = texts.skip(i as int);
            assert forall|t: int| 0 <= t < run implies #[trigger] sfx[t] == sfx[0] by {
                assert(sfx[t] == texts[i + t]);
                assert(sfx[0] == texts[i as int]);
            }
            if run < sfx.len() {
                assert(sfx[run as int] == texts[j as int]);
                assert(texts[j as int] != texts[i as int]);
            }
            lemma_leading_run_exact(sfx, run as int);
            assert(sfx.skip(run as int) =~= texts.skip(j as int));
            assert(spec_collapse(sfx) == seq![(sfx[0], run as int)] + spec_collapse(
                texts.skip(j as int),
            ));
        }
        let text: String = msgs[i].message.clone();
        let ghost old_out = out@;
        out.push((text, run));
        proof {
            assert(out@.map_values(|x: (String, usize)| (x.0@, x.1 as int))
                =~= old_out.map_values(|x: (String, usize)| (x.0@, x.1 as int)).push(
                (texts[i as int], run as int),
            ));
            assert(spec_collapse(texts) =~= out@.map_values(
                |x: (String, usize)| (x.0@, x.1 as int),
            ) + spec_collapse(texts.skip(j as int)));
        }
        i = j;
    }
    proof {
        assert(texts.skip(n as int).len() == 0);
        assert(spec_collapse(texts.skip(n as int)) == Seq::<(Seq<char>, int)>::empty());
        assert(spec_collapse(texts) =~= out@.map_values(
            |x: (String, usize)| (x.0@, x.1 as int),
        ));
    }
    out
}

/// The character for digit `d`, upper case for the hexadecimal digits.
pub open spec fn spec_digit_char(d: int) -> char {
    if d == 0 { '0' } else if d == 1 { '1' } else if d == 2 { '2' } else if d == 3 { '3' }
    else if d == 4 { '4' } else if d == 5 { '5' } else if d == 6 { '6' } else if d == 7 { '7' }
    else if d == 8 { '8' } else if d == 9 { '9' } else if d == 10 { 'A' } else if d == 11 { 'B' }
    else if d == 12 { 'C' } else if d == 13 { 'D' } else if d == 14 { 'E' } else { 'F' }
}

/// The base-`radix` numeral of `n`, most significant digit first, without
/// leading zeros (zero itself is a single digit).
pub open spec fn spec_radix_str(n: int, radix: int) -> Seq<char>
    decreases n,
    via spec_radix_str_decreases
{
    if n < radix || radix <= 1 {
        seq![spec_digit_char(n)]
    } else {
        spec_radix_str(n / radix, radix).push(spec_digit_char(n % radix))
    }
}

#[via_fn]
proof fn spec_radix_str_decreases(n: int, radix: int) {
    if !(n < radix || radix <= 1) {
        vstd::arithmetic::div_mod::lemma_div_is_strictly_smaller(n, radix);
        vstd::arithmetic::div_mod::lemma_div_pos_is_pos(n, radix);
    }
}

fn digit_str(d: u8) -> (r: &'static str)
    requires
        d < 16,
    ensures
        r@ == seq![spec_digit_char(d as int)],
{
    proof {
        reveal_strlit("0");
        reveal_strlit("1");
        reveal_strlit("2");
        reveal_strlit("3");
        reveal_strlit("4");
        reveal_strlit("5");
        reveal_strlit("6");
        reveal_strlit("7");
        reveal_strlit("8");
        reveal_strlit("9");
        reveal_strlit("A");
        reveal_strlit("B");
        reveal_strlit("C");
        reveal_strlit("D");
        reveal_strlit("E");
        reveal_strlit("F");
    }
    let r: &'static str = match d {
        0 => "0",
        1 => "1",
        2 => "2",
        3 => "3",
        4 => "4",
        5 => "5",
        6 => "6",
        7 => "7",
        8 => "8",
        9 => "9",
        10 => "A",
        11 => "B",
        12 => "C",
        13 => "D",
        14 => "E",
        _ => "F",
    };
    proof {
        assert(r@ =~= seq![spec_digit_char(d as int)]);
    }
    r
}

/// The upper-case hexadecimal numeral of `n`, as a boot-session id is shown.
pub fn hex_of_u128(n: u128) -> (s: String)
    ensures
        s@ == spec_radix_str(n as int, 16),
    decreases n,
{
    if n < 16 {
        digit_str(n as u8).to_owned()
    } else {
        let mut s = hex_of_u128(n / 16);
        s.append(digit_str((n % 16) as u8));
        proof {
            assert(s@ =~= spec_radix_str(n as int, 16));
        }
        s
    }
}

/// The decimal numeral of `n`, as counts and hours are shown.
pub fn dec_of_u128(n: u128) -> (s: String)
    ensures
        s@ == spec_radix_str(n as int, 10),
    decreases n,
{
    if n < 10 {
        digit_str(n as u8).to_owned()
    } else {
        let mut s = dec_of_u128(n / 10);
        s.append(digit_str((n % 10) as u8));
        proof {
            assert(s@ =~= spec_radix_str(n as int, 10));
        }
        s
    }
}

/// `order` lists every position of `keys` exactly once, so that the keys
/// appear in ascending order and equal keys keep their original relative
/// order.
pub open spec fn is_stable_ascending(order: Seq<usize>, keys: Seq<u128>) -> bool {
    &&& order.len() == keys.len()
    &&& forall|i: int| 0 <= i < order.len() ==> (#[trigger] order[i]) < keys.len()
    &&& forall|i: int, j: int| 0 <= i < j < order.len()
        ==> keys[#[trigger] order[i] as int] < keys[#[trigger] order[j] as int]
            || (keys[order[i] as int] == keys[order[j] as int] && order[i] < order[j])
}

/// Sorts the positions of `keys` ascending and stably, as
/// [`is_stable_ascending`] states.
pub fn sort_indices_by_key(keys: &Vec<u128>) -> (order: Vec<usize>)
    ensures
        is_stable_ascending(order@, keys@),
{
    let n = keys.len();
    let mut order: Vec<usize> = Vec::new();
    let mut idx: usize = 0;
    while idx < n
        invariant
            n == keys@.len(),
            0 <= idx <= n,
            order@.len() == idx,
            forall|t: int| 0 <= t < order@.len() ==> (#[trigger] order@[t]) < idx,
            forall|x: int, y: int| 0 <= x < y < order@.len()
                ==> keys@[#[trigger] order@[x] as int] < keys@[#[trigger] order@[y] as int]
                    || (keys@[order@[x] as int] == keys@[order@[y] as int]
                        && order@[x] < order@[y]),
        decreases n - idx,
    {
        let mut pos: usize = 0;
        let olen = order.len();
        while pos < olen && keys[order[pos]] <= keys[idx]
            invariant
                n == keys@.len(),
                idx < n,
                olen == order@.len(),
                order@.len() == idx,
                forall|t: int| 0 <= t < order@.len() ==> (#[trigger] order@[t]) < idx,
                0 <= pos <= olen,
                forall|t: int| 0 <= t < pos
                    ==> keys@[#[trigger] order@[t] as int] <= keys@[idx as int],
            decreases olen - pos,
        {
            pos = pos + 1;
        }
        let ghost old_order = order@;
        order.insert(pos, idx);
        proof {
            old_order.insert_ensures(pos as int, idx);
            assert forall|x: int, y: int| 0 <= x < y < order@.len()
                implies keys@[#[trigger] order@[x] as int] < keys@[#[trigger] order@[y] as int]
                    || (keys@[order@[x] as int] == keys@[order@[y] as int]
                        && order@[x] < order@[y]) by {
                let p = pos as int;
                if y < p {
                    assert(order@[x] == old_order[x] && order@[y] == old_order[y]);
                } else if x < p && y == p {
                    assert(order@[x] == old_order[x] && order@[y] == idx);
                    assert(keys@[old_order[x] as int] <= keys@[idx as int]);
                } else if x < p && y > p {
                    assert(order@[x] == old_order[x] && order@[y] == old_order[y - 1]);
                    assert(x < y - 1 || x == y - 1);
                    if x == y - 1 {
                        assert(x < p && p <= y - 1);
                        assert(false);
                    }
                } else if x == p {
                    assert(order@[x] == idx && order@[y] == old_order[y - 1]);
                    assert(p < old_order.len());
                    assert(keys@[old_order[p] as int] > keys@[idx as int]);
                    if y - 1 > p {
                        assert(keys@[old_order[p] as int] < keys@[old_order[y - 1] as int]
                            || keys@[old_order[p] as int] == keys@[old_order[y - 1] as int]);
                    }
                    assert(keys@[idx as int] < keys@[old_order[y - 1] as int]);
                } else {
                    assert(order@[x] == old_order[x - 1] && order@[y] == old_order[y - 1]);
                }
            }
        }
        idx = idx + 1;
    }
    order
}

/// The identifiers of a severity's buckets, in bucket order.
pub open spec fn idents_of(bs: Seq<crate::analysis::IdentView>) -> Seq<Seq<char>> {
    bs.map_values(|b: crate::analysis::IdentView| b.identifier)
}

/// `order` lists every position of `ids` exactly once, in strictly ascending
/// lexicographic order of the identifiers.
pub open spec fn is_lex_ascending(order: Seq<usize>, ids: Seq<Seq<char>>) -> bool {
    &&& order.len() == ids.len()
    &&& forall|i: int| 0 <= i < order.len() ==> (#[trigger] order[i]) < ids.len()
    &&& forall|i: int, j: int| 0 <= i < j < order.len()
        ==> lex_le(ids[#[trigger] order[i] as int], ids[#[trigger] order[j] as int])
            && ids[order[i] as int] != ids[order[j] as int]
}

/// Sorts the positions of a severity's buckets into lexicographic order of
/// their identifiers, as [`is_lex_ascending`] states.
pub fn sort_ident_indices(bucket: &Vec<crate::analysis::IdentBucket>) -> (order: Vec<usize>)
    requires
        crate::analysis::idents_unique(bucket@.map_values(|b: crate::analysis::IdentBucket| b@)),
    ensures
        is_lex_ascending(order@, idents_of(bucket@.map_values(
            |b: crate::analysis::IdentBucket| b@,
        ))),
{
    let ghost ids = idents_of(bucket@.map_values(|b: crate::analysis::IdentBucket| b@));
    let n = bucket.len();
    let mut order: Vec<usize> = Vec::new();
    let mut idx: usize = 0;
    while idx < n
        invariant
            n == bucket@.len(),
            ids == idents_of(bucket@.map_values(|b: crate::analysis::IdentBucket| b@)),
            ids.len() == n,
            forall|t: int| 0 <= t < n ==> #[trigger] ids[t] == bucket@[t].identifier@,
            forall|x: int, y: int| 0 <= x < y < n ==> #[trigger] ids[x] != #[trigger] ids[y],
            0 <= idx <= n,
            order@.len() == idx,
            forall|t: int| 0 <= t < order@.len() ==> (#[trigger] order@[t]) < idx,
            forall|x: int, y: int| 0 <= x < y < order@.len()
                ==> lex_le(ids[#[trigger] order@[x] as int], ids[#[trigger] order@[y] as int])
                    && ids[order@[x] as int] != ids[order@[y] as int],
        decreases n - idx,
    {
        let mut pos: usize = 0;
        let olen = order.len();
        while pos < olen && str_lex_le(bucket[order[pos]].identifier.as_str(),
            bucket[idx].identifier.as_str())
            invariant
                n == bucket@.len(),
                ids.len() == n,
                forall|t: int| 0 <= t < n ==> #[trigger] ids[t] == bucket@[t].identifier@,
                idx < n,
                olen == order@.len(),
                order@.len() == idx,
                forall|t: int| 0 <= t < order@.len() ==> (#[trigger] order@[t]) < idx,
                0 <= pos <= olen,
                forall|t: int| 0 <= t < pos
                    ==> lex_le(ids[#[trigger] order@[t] as int], ids[idx as int]),
            decreases olen - pos,
        {
            pos = pos + 1;
        }
        let ghost old_order = order@;
        order.insert(pos, idx);
        proof {
            old_order.insert_ensures(pos as int, idx);
            assert forall|x: int, y: int| 0 <= x < y < order@.len()
                implies lex_le(ids[#[trigger] order@[x] as int],
                    ids[#[trigger] order@[y] as int])
                    && ids[order@[x] as int] != ids[order@[y] as int] by {
                let p = pos as int;
                if y < p {
                    assert(order@[x] == old_order[x] && order@[y] == old_order[y]);
                } else if x < p && y == p {
                    assert(order@[x] == old_order[x] && order@[y] == idx);
                    assert(lex_le(ids[old_order[x] as int], ids[idx as int]));
                    assert(old_order[x] < idx);
                    assert(ids[old_order[x] as int] != ids[idx as int]);
                } else if x < p && y > p {
                    assert(order@[x] == old_order[x] && order@[y] == old_order[y - 1]);
                    if x == y - 1 {
                        assert(false);
                    }
                } else if x == p {
                    assert(order@[x] == idx && order@[y] == old_order[y - 1]);
                    assert(p < old_order.len());
                    assert(!lex_le(ids[old_order[p] as int], ids[idx as int]));
                    lemma_lex_le_total(ids[old_order[p] as int], ids[idx as int]);
                    assert(lex_le(ids[idx as int], ids[old_order[p] as int]));
                    if y - 1 > p {
                        assert(lex_le(ids[old_order[p] as int], ids[old_order[y - 1] as int]));
                        lemma_lex_le_trans(ids[idx as int], ids[old_order[p] as int],
                            ids[old_order[y - 1] as int]);
                    }
                    assert(old_order[y - 1] < idx);
                    assert(ids[idx as int] != ids[old_order[y - 1] as int]);
                } else {
                    assert(order@[x] == old_order[x - 1] && order@[y] == old_order[y - 1]);
                }
            }
        }
        idx = idx + 1;
    }
    order
}

/// Rendering configuration.
pub struct RenderConfig {
    /// Longest message text shown before truncation.
    pub message_max_length: usize,
    /// Show the newest boot first (the sorted sequence is reversed).
    pub newest_first: bool,
    /// Apply ANSI styling; never affects grouping, ordering, or collapsing.
    pub color: bool,
}

/// One identifier's rendered bucket.
pub struct RenderedIdent {
    pub identifier: String,
    /// How many records the identifier contributed, before collapsing.
    pub total: usize,
    /// The collapsed, truncated message runs, in arrival order.
    pub runs: Vec<MessageRun>,
}

/// One severity's rendered buckets.
pub struct RenderedPriority {
    pub priority: crate::priority::JournalPriority,
    /// How many records the severity holds, over all identifiers.
    pub total: u128,
    /// Identifiers in lexicographic order.
    pub idents: Vec<RenderedIdent>,
}

/// One boot session's rendered summary.
pub struct RenderedBoot {
    pub boot_id: crate::entry::BootId,
    /// Whole hours between the boot's start timestamp and `now`.
    pub hours_since: u128,
    /// The non-empty severities, most severe first.
    pub priorities: Vec<RenderedPriority>,
}

/// Microseconds in one hour.
pub const MICROSECONDS_HOURS: u128 = 3600000000;

/// `r` renders the bucket `b`: same identifier, the record count before
/// collapsing, and the collapsed runs with each text truncated to `max`
/// characters.
pub open spec fn ident_rendered(r: RenderedIdent, b: crate::analysis::IdentView, max: int) -> bool {
    let runs = spec_collapse(texts_of(b.messages));
    &&& r.identifier@ == b.identifier
    &&& r.total == b.messages.len()
    &&& r.runs@.len() == runs.len()
    &&& forall|k: int| 0 <= k < runs.len() ==> {
        &&& (#[trigger] r.runs@[k]).count == runs[k].1
        &&& r.runs@[k].truncated == (runs[k].0.len() > max)
        &&& r.runs@[k].text@ == (if runs[k].0.len() > max {
            runs[k].0.take(max)
        } else {
            runs[k].0
        })
    }
}

/// Sum of the record counts of a severity's buckets.
pub open spec fn row_total(row: Seq<crate::analysis::IdentView>) -> int
    decreases row.len(),
{
    if row.len() == 0 {
        0
    } else {
        row_total(row.drop_last()) + row.last().messages.len()
    }
}

/// `r` renders the severity row `row`: its total record count, and one
/// rendered bucket per identifier, in lexicographic identifier order.
pub open spec fn priority_rendered(
    r: RenderedPriority,
    row: Seq<crate::analysis::IdentView>,
    p: crate::priority::JournalPriority,
    max: int,
) -> bool {
    &&& r.priority == p
    &&& r.total == row_total(row)
    &&& r.idents@.len() == row.len()
    &&& exists|ord: Seq<usize>| is_lex_ascending(ord, idents_of(row)) && (forall|k: int|
        0 <= k < row.len() ==> ident_rendered(#[trigger] r.idents@[k], row[ord[k] as int], max))
}

/// `r` renders the summary `bd` of boot session `boot_id`: the hours since
/// boot, and exactly the non-empty severities, in ascending numeric order.
pub open spec fn boot_rendered(
    r: RenderedBoot,
    boot_id: crate::entry::BootId,
    bd: crate::analysis::BootDataView,
    now: u128,
    max: int,
) -> bool {
    &&& r.boot_id == boot_id
    &&& r.hours_since == (now - bd.timestamp) / (MICROSECONDS_HOURS as int)
    &&& forall|i: int, j: int| 0 <= i < j < r.priorities@.len()
        ==> (#[trigger] r.priorities@[i]).priority.spec_as_num()
            < (#[trigger] r.priorities@[j]).priority.spec_as_num()
    &&& forall|k: int| 0 <= k < r.priorities@.len() ==> {
        let p = (#[trigger] r.priorities@[k]).priority;
        &&& bd.buckets[p.spec_as_num() as int].len() > 0
        &&& priority_rendered(r.priorities@[k], bd.buckets[p.spec_as_num() as int], p, max)
    }
    &&& forall|p: int| 0 <= p < 8 && bd.buckets[p].len() > 0 ==> exists|k: int|
        0 <= k < r.priorities@.len() && (#[trigger] r.priorities@[k]).priority.spec_as_num() == p
}

/// Renders one identifier's bucket.
fn render_ident(bucket: &crate::analysis::IdentBucket, max: usize) -> (r: RenderedIdent)
    ensures
        ident_rendered(r, bucket@, max as int),
{
    let pairs = collapse_messages(&bucket.messages);
    let ghost spec_runs = spec_collapse(texts_of(bucket@.messages));
    let mut runs: Vec<MessageRun> = Vec::new();
    let n = pairs.len();
    let mut k: usize = 0;
    while k < n
        invariant
            n == pairs@.len(),
            pairs@.map_values(|x: (String, usize)| (x.0@, x.1 as int)) == spec_runs,
            0 <= k <= n,
            runs@.len() == k,
            forall|t: int| 0 <= t < k ==> {
                &&& (#[trigger] runs@[t]).count == spec_runs[t].1
                &&& runs@[t].truncated == (spec_runs[t].0.len() > max)
                &&& runs@[t].text@ == (if spec_runs[t].0.len() > max {
                    spec_runs[t].0.take(max as int)
                } else {
                    spec_runs[t].0
                })
            },
        decreases n - k,
    {
        let (text, trunc) = truncate_message(pairs[k].0.as_str(), max);
        proof {
            assert(spec_runs[k as int] == (pairs@[k as int].0@, pairs@[k as int].1 as int));
        }
        runs.push(MessageRun { text, count: pairs[k].1, truncated: trunc });
        k = k + 1;
    }
    RenderedIdent {
        identifier: bucket.identifier.clone(),
        total: bucket.messages.len(),
        runs,
    }
}

/// Renders one severity's row of buckets, identifiers sorted.
fn render_priority(
    row: &Vec<crate::analysis::IdentBucket>,
    p: crate::priority::JournalPriority,
    max: usize,
) -> (r: RenderedPriority)
    requires
        crate::analysis::idents_unique(row@.map_values(|b: crate::analysis::IdentBucket| b@)),
    ensures
        priority_rendered(r, row@.map_values(|b: crate::analysis::IdentBucket| b@), p, max as int),
{
    let ghost vrow = row@.map_values(|b: crate::analysis::IdentBucket| b@);
    let n = row.len();
    let mut total: u128 = 0;
    let mut t: usize = 0;
    while t < n
        invariant
            n == row@.len(),
            vrow == row@.map_values(|b: crate::analysis::IdentBucket| b@),
            vrow.len() == n,
            0 <= t <= n,
            total == row_total(vrow.take(t as int)),
            total <= (t as u128) * 0xFFFF_FFFF_FFFF_FFFFu128,
        decreases n - t,
    {
        let m = row[t].messages.len();
        proof {
            assert(vrow.take(t + 1).drop_last() =~= vrow.take(t as int));
            assert(vrow.take(t + 1).last() == vrow[t as int]);
            assert(vrow[t as int].messages.len() == m as int);
        }
        total = total + (m as u128);
        t = t + 1;
    }
    proof {
        assert(vrow.take(n as int) =~= vrow);
    }
    let ord = sort_ident_indices(row);
    let mut idents: Vec<RenderedIdent> = Vec::new();
    let mut k: usize = 0;
    while k < n
        invariant
            n == row@.len(),
            vrow == row@.map_values(|b: crate::analysis::IdentBucket| b@),
            vrow.len() == n,
            is_lex_ascending(ord@, idents_of(vrow)),
            0 <= k <= n,
            idents@.len() == k,
            forall|t2: int| 0 <= t2 < k
                ==> ident_rendered(#[trigger] idents@[t2], vrow[ord@[t2] as int], max as int),
        decreases n - k,
    {
        let j = ord[k];
        idents.push(render_ident(&row[j], max));
        k = k + 1;
    }
    RenderedPriority { priority: p, total, idents }
}

/// Renders one boot session's summary.
fn render_boot(
    boot_id: crate::entry::BootId,
    bd: &crate::analysis::BootData,
    now: u128,
    max: usize,
) -> (r: RenderedBoot)
    requires
        crate::analysis::bootdata_wf(bd@),
        bd.timestamp <= now,
    ensures
        boot_rendered(r, boot_id, bd@, now, max as int),
{
    let hours: u128 = (now - bd.timestamp) / MICROSECONDS_HOURS;
    let mut priorities: Vec<RenderedPriority> = Vec::new();
    let mut p: usize = 0;
    while p < 8
        invariant
            crate::analysis::bootdata_wf(bd@),
            0 <= p <= 8,
            bd.by_priority@.len() == 8,
            forall|i: int, j: int| 0 <= i < j < priorities@.len()
                ==> (#[trigger] priorities@[i]).priority.spec_as_num()
                    < (#[trigger] priorities@[j]).priority.spec_as_num(),
            forall|k: int| 0 <= k < priorities@.len() ==> {
                let pr = (#[trigger] priorities@[k]).priority;
                &&& (pr.spec_as_num() as int) < p
                &&& bd@.buckets[pr.spec_as_num() as int].len() > 0
                &&& priority_rendered(priorities@[k], bd@.buckets[pr.spec_as_num() as int], pr,
                    max as int)
            },
            forall|q: int| 0 <= q < p && bd@.buckets[q].len() > 0 ==> exists|k: int|
                0 <= k < priorities@.len() && (#[trigger] priorities@[k]).priority.spec_as_num()
                    == q,
        decreases 8 - p,
    {
        let row = &bd.by_priority[p];
        proof {
            assert(bd@.buckets[p as int] == row@.map_values(
                |b: crate::analysis::IdentBucket| b@,
            ));
            assert(crate::analysis::idents_unique(bd@.buckets[p as int]));
        }
        if row.len() > 0 {
            let pr = match crate::priority::JournalPriority::from_num(p as u8) {
                Some(x) => x,
                None => {
                    proof {
                        assert(false);
                    }
                    return RenderedBoot { boot_id, hours_since: hours, priorities };
                },
            };
            let ghost old_ps = priorities@;
            priorities.push(render_priority(row, pr, max));
            proof {
                assert(bd@.buckets[p as int] == row@.map_values(
                    |b: crate::analysis::IdentBucket| b@,
                ));
                assert forall|q: int| 0 <= q < p + 1 && bd@.buckets[q].len() > 0
                    implies exists|k: int| 0 <= k < priorities@.len()
                        && (#[trigger] priorities@[k]).priority.spec_as_num() == q by {
                    if q == p as int {
                        assert(priorities@[priorities@.len() - 1].priority.spec_as_num()
                            == q);
                    } else {
                        let k0 = choose|k: int| 0 <= k < old_ps.len()
                            && (#[trigger] old_ps[k]).priority.spec_as_num() == q;
                        assert(priorities@[k0] == old_ps[k0]);
                        assert(priorities@[k0].priority.spec_as_num() == q);
                    }
                }
            }
        }
        p = p + 1;
    }
    RenderedBoot { boot_id, hours_since: hours, priorities }
}

/// `ord` is the display order of the rendered report `r`: the summaries
/// sorted ascending by start timestamp (stably), the whole sequence reversed
/// when the newest boot comes first, and each entry rendered from the summary
/// it lists.
pub open spec fn render_ordered(
    ord: Seq<usize>,
    a: crate::analysis::AnalysisView,
    r: Seq<RenderedBoot>,
    newest_first: bool,
    now: u128,
    max: int,
) -> bool {
    &&& if newest_first {
        is_stable_ascending(ord.reverse(), timestamps_of(a.boots))
    } else {
        is_stable_ascending(ord, timestamps_of(a.boots))
    }
    &&& forall|k: int| 0 <= k < r.len() ==> boot_rendered(#[trigger] r[k],
        a.boots[ord[k] as int].0, a.boots[ord[k] as int].1, now, max)
}

/// The start timestamps of the summaries, in recorded order.
pub open spec fn timestamps_of(boots: Seq<(crate::entry::BootId, crate::analysis::BootDataView)>)
    -> Seq<u128> {
    boots.map_values(|b: (crate::entry::BootId, crate::analysis::BootDataView)| b.1.timestamp)
}

/// Renders the whole analysis: one rendered summary per boot, ordered by
/// start timestamp (ascending, or newest first when so configured — the
/// original order being stable-sorted, then reversed), with every summary
/// rendered as [`boot_rendered`] states.
pub fn render(a: &crate::analysis::Analysis, config: &RenderConfig, now_micros: u128) -> (r: Vec<
    RenderedBoot,
>)
    requires
        crate::analysis::analysis_wf(a@),
        forall|i: int| 0 <= i < a@.boots.len()
            ==> (#[trigger] a@.boots[i]).1.timestamp <= now_micros,
    ensures
        r@.len() == a@.boots.len(),
        exists|ord: Seq<usize>| render_ordered(ord, a@, r@, config.newest_first, now_micros,
            config.message_max_length as int),
{
    let n = a.by_boot.len();
    let mut keys: Vec<u128> = Vec::new();
    let mut t: usize = 0;
    while t < n
        invariant
            n == a.by_boot@.len(),
            0 <= t <= n,
            keys@.len() == t,
            forall|i: int| 0 <= i < t ==> #[trigger] keys@[i] == a@.boots[i].1.timestamp,
        decreases n - t,
    {
        keys.push(a.by_boot[t].1.timestamp);
        t = t + 1;
    }
    proof {
        assert(keys@ =~= timestamps_of(a@.boots));
    }
    let asc = sort_indices_by_key(&keys);
    let mut order: Vec<usize> = Vec::new();
    if config.newest_first {
        let mut k: usize = n;
        while k > 0
            invariant
                n == a.by_boot@.len(),
                asc@.len() == n,
                0 <= k <= n,
                order@.len() == n - k,
                forall|i: int| 0 <= i < order@.len() ==> #[trigger] order@[i] == asc@[n - 1 - i],
            decreases k,
        {
            k = k - 1;
            order.push(asc[k]);
        }
        proof {
            assert(order@.reverse() =~= asc@);
        }
    } else {
        order = asc;
    }
    let ghost gorder = order@;
    let mut out: Vec<RenderedBoot> = Vec::new();
    let mut k: usize = 0;
    while k < n
        invariant
            crate::analysis::analysis_wf(a@),
            forall|i: int| 0 <= i < a@.boots.len()
                ==> (#[trigger] a@.boots[i]).1.timestamp <= now_micros,
            n == a.by_boot@.len(),
            gorder == order@,
            order@.len() == n,
            forall|i: int| 0 <= i < n ==> (#[trigger] order@[i]) < n,
            0 <= k <= n,
            out@.len() == k,
            forall|t2: int| 0 <= t2 < k ==> boot_rendered(#[trigger] out@[t2],
                a@.boots[order@[t2] as int].0, a@.boots[order@[t2] as int].1, now_micros,
                config.message_max_length as int),
        decreases n - k,
    {
        let j = order[k];
        let pair = &a.by_boot[j];
        proof {
            assert(a@.boots[j as int] == (pair.0, pair.1@));
        }
        out.push(render_boot(pair.0, &pair.1, now_micros, config.message_max_length));
        k = k + 1;
    }
    proof {
        assert(render_ordered(gorder, a@, out@, config.newest_first, now_micros,
            config.message_max_length as int));
    }
    out
}

/// The report line of one collapsed message run: the run length when it is
/// more than one, then the quoted text, then the truncation marker if the
/// text was cut.
pub open spec fn spec_message_line(text: Seq<char>, count: int, truncated: bool) -> Seq<char> {
    "│  │  │ "@ + (if count > 1 {
        spec_radix_str(count, 10) + " x "@
    } else {
        Seq::<char>::empty()
    }) + "\""@ + text + "\""@ + (if truncated {
        "..."@
    } else {
        Seq::<char>::empty()
    })
}

/// The count line of one identifier's bucket.
pub open spec fn spec_ident_line(id: Seq<char>, total: int) -> Seq<char> {
    "│  ├─ "@ + id + ": "@ + spec_radix_str(total, 10)
}

/// The count line of one severity.
pub open spec fn spec_priority_line(
    p: crate::priority::JournalPriority,
    total: int,
    color: bool,
) -> Seq<char> {
    "├─ "@ + (if color {
        p.spec_ansi_color()
    } else {
        Seq::<char>::empty()
    }) + p.spec_name() + ": "@ + spec_radix_str(total, 10) + (if color {
        "\x1b[0m"@
    } else {
        Seq::<char>::empty()
    })
}

/// The header line of one boot: the hex session id (its first characters
/// highlighted when styling) and the hours since boot.
pub open spec fn spec_boot_line(
    boot_id: crate::entry::BootId,
    hours: u128,
    color: bool,
) -> Seq<char> {
    let hex = spec_radix_str(boot_id as int, 16);
    let h = if hex.len() < 4 {
        hex.len() as int
    } else {
        4
    };
    let bs = if color {
        "\x1b[1;4m"@ + hex.take(h) + "\x1b[0m"@ + hex.skip(h)
    } else {
        hex
    };
    let ts = if color {
        "\x1b[3m("@ + spec_radix_str(hours as int, 10) + " hours ago)\x1b[0m"@
    } else {
        "("@ + spec_radix_str(hours as int, 10) + " hours ago)"@
    };
    "Boot "@ + bs + " "@ + ts
}

/// The lines of one identifier's runs, in order.
pub open spec fn spec_runs_lines(runs: Seq<MessageRun>) -> Seq<Seq<char>>
    decreases runs.len(),
{
    if runs.len() == 0 {
        Seq::empty()
    } else {
        spec_runs_lines(runs.drop_last()) + seq![
            spec_message_line(runs.last().text@, runs.last().count as int, runs.last().truncated),
        ]
    }
}

/// The lines of a severity's identifiers: each bucket's count line, then its
/// message lines.
pub open spec fn spec_idents_lines(idents: Seq<RenderedIdent>) -> Seq<Seq<char>>
    decreases idents.len(),
{
    if idents.len() == 0 {
        Seq::empty()
    } else {
        spec_idents_lines(idents.drop_last()) + (seq![
            spec_ident_line(idents.last().identifier@, idents.last().total as int),
        ] + spec_runs_lines(idents.last().runs@))
    }
}

/// The lines of a boot's severities: each severity's count line, then its
/// identifiers' lines.
pub open spec fn spec_priorities_lines(ps: Seq<RenderedPriority>, color: bool) -> Seq<Seq<char>>
    decreases ps.len(),
{
    if ps.len() == 0 {
        Seq::empty()
    } else {
        spec_priorities_lines(ps.drop_last(), color) + (seq![
            spec_priority_line(ps.last().priority, ps.last().total as int, color),
        ] + spec_idents_lines(ps.last().idents@))
    }
}

/// All lines of the report: each boot's header, then its severities' lines.
pub open spec fn spec_report_lines(boots: Seq<RenderedBoot>, color: bool) -> Seq<Seq<char>>
    decreases boots.len(),
{
    if boots.len() == 0 {
        Seq::empty()
    } else {
        spec_report_lines(boots.drop_last(), color) + (seq![
            spec_boot_line(boots.last().boot_id, boots.last().hours_since, color),
        ] + spec_priorities_lines(boots.last().priorities@, color))
    }
}

fn message_line(run: &MessageRun) -> (s: String)
    ensures
        s@ == spec_message_line(run.text@, run.count as int, run.truncated),
{
    let mut s: String = "│  │  │ ".to_owned();
    if run.count > 1 {
        let num = dec_of_u128(run.count as u128);
        s.append(num.as_str());
        s.append(" x ");
    }
    s.append("\"");
    s.append(run.text.as_str());
    s.append("\"");
    if run.truncated {
        s.append("...");
    }
    proof {
        assert(s@ =~= spec_message_line(run.text@, run.count as int, run.truncated));
    }
    s
}

fn ident_line(ri: &RenderedIdent) -> (s: String)
    ensures
        s@ == spec_ident_line(ri.identifier@, ri.total as int),
{
    let mut s: String = "│  ├─ ".to_owned();
    s.append(ri.identifier.as_str());
    s.append(": ");
    let num = dec_of_u128(ri.total as u128);
    s.append(num.as_str());
    proof {
        assert(s@ =~= spec_ident_line(ri.identifier@, ri.total as int));
    }
    s
}

fn priority_line(rp: &RenderedPriority, color: bool) -> (s: String)
    ensures
        s@ == spec_priority_line(rp.priority, rp.total as int, color),
{
    let mut s: String = "├─ ".to_owned();
    if color {
        s.append(rp.priority.ansi_color());
    }
    s.append(rp.priority.name());
    s.append(": ");
    let num = dec_of_u128(rp.total);
    s.append(num.as_str());
    if color {
        s.append("\x1b[0m");
    }
    proof {
        assert(s@ =~= spec_priority_line(rp.priority, rp.total as int, color));
    }
    s
}

fn boot_line(rb: &RenderedBoot, color: bool) -> (s: String)
    ensures
        s@ == spec_boot_line(rb.boot_id, rb.hours_since, color),
{
    let hex = hex_of_u128(rb.boot_id);
    let mut s: String = "Boot ".to_owned();
    if color {
        let hlen: usize = hex.as_str().unicode_len();
        let h: usize = if hlen < 4 {
            hlen
        } else {
            4
        };
        s.append("\x1b[1;4m");
        s.append(hex.as_str().substring_char(0, h));
        s.append("\x1b[0m");
        s.append(hex.as_str().substring_char(h, hlen));
    } else {
        s.append(hex.as_str());
    }
    s.append(" ");
    if color {
        s.append("\x1b[3m(");
    } else {
        s.append("(");
    }
    let num = dec_of_u128(rb.hours_since);
    s.append(num.as_str());
    if color {
        s.append(" hours ago)\x1b[0m");
    } else {
        s.append(" hours ago)");
    }
    proof {
        assert(s@ =~= spec_boot_line(rb.boot_id, rb.hours_since, color));
    }
    s
}

/// The view of a line list: the lines as character sequences.
pub open spec fn lines_view(v: Seq<String>) -> Seq<Seq<char>> {
    v.map_values(|x: String| x@)
}

fn runs_lines(runs: &Vec<MessageRun>) -> (r: Vec<String>)
    ensures
        lines_view(r@) == spec_runs_lines(runs@),
{
    let mut out: Vec<String> = Vec::new();
    let n = runs.len();
    let mut i: usize = 0;
    proof {
        assert(lines_view(out@) =~= spec_runs_lines(runs@.take(0)));
    }
    while i < n
        invariant
            n == runs@.len(),
            0 <= i <= n,
            lines_view(out@) == spec_runs_lines(runs@.take(i as int)),
        decreases n - i,
    {
        let line = message_line(&runs[i]);
        out.push(line);
        proof {
            assert(runs@.take(i + 1).drop_last() =~= runs@.take(i as int));
            assert(runs@.take(i + 1).last() == runs@[i as int]);
            assert(lines_view(out@) =~= spec_runs_lines(runs@.take(i + 1)));
        }
        i = i + 1;
    }
    proof {
        assert(runs@.take(n as int) =~= runs@);
    }
    out
}

fn idents_lines(idents: &Vec<RenderedIdent>) -> (r: Vec<String>)
    ensures
        lines_view(r@) == spec_idents_lines(idents@),
{
    let mut out: Vec<String> = Vec::new();
    let n = idents.len();
    let mut i: usize = 0;
    proof {
        assert(lines_view(out@) =~= spec_idents_lines(idents@.take(0)));
    }
    while i < n
        invariant
            n == idents@.len(),
            0 <= i <= n,
            lines_view(out@) == spec_idents_lines(idents@.take(i as int)),
        decreases n - i,
    {
        let line = ident_line(&idents[i]);
        out.push(line);
        let mut block = runs_lines(&idents[i].runs);
        let ghost gblock = block@;
        out.append(&mut block);
        proof {
            assert(idents@.take(i + 1).drop_last() =~= idents@.take(i as int));
            assert(idents@.take(i + 1).last() == idents@[i as int]);
            assert(lines_view(out@) =~= spec_idents_lines(idents@.take(i + 1)));
        }
        i = i + 1;
    }
    proof {
        assert(idents@.take(n as int) =~= idents@);
    }
    out
}

fn priorities_lines(ps: &Vec<RenderedPriority>, color: bool) -> (r: Vec<String>)
    ensures
        lines_view(r@) == spec_priorities_lines(ps@, color),
{
    let mut out: Vec<String> = Vec::new();
    let n = ps.len();
    let mut i: usize = 0;
    proof {
        assert(lines_view(out@) =~= spec_priorities_lines(ps@.take(0), color));
    }
    while i < n
        invariant
            n == ps@.len(),
            0 <= i <= n,
            lines_view(out@) == spec_priorities_lines(ps@.take(i as int), color),
        decreases n - i,
    {
        let line = priority_line(&ps[i], color);
        out.push(line);
        let mut block = idents_lines(&ps[i].idents);
        out.append(&mut block);
        proof {
            assert(ps@.take(i + 1).drop_last() =~= ps@.take(i as int));
            assert(ps@.take(i + 1).last() == ps@[i as int]);
            assert(lines_view(out@) =~= spec_priorities_lines(ps@.take(i + 1), color));
        }
        i = i + 1;
    }
    proof {
        assert(ps@.take(n as int) =~= ps@);
    }
    out
}

/// Turns a rendered report into its lines, exactly as [`spec_report_lines`]
/// states.
pub fn format_report(report: &Vec<RenderedBoot>, color: bool) -> (r: Vec<String>)
    ensures
        lines_view(r@) == spec_report_lines(report@, color),
{
    let mut out: Vec<String> = Vec::new();
    let n = report.len();
    let mut i: usize = 0;
    proof {
        assert(lines_view(out@) =~= spec_report_lines(report@.take(0), color));
    }
    while i < n
        invariant
            n == report@.len(),
            0 <= i <= n,
            lines_view(out@) == spec_report_lines(report@.take(i as int), color),
        decreases n - i,
    {
        let line = boot_line(&report[i], color);
        out.push(line);
        let mut block = priorities_lines(&report[i].priorities, color);
        out.append(&mut block);
        proof {
            assert(report@.take(i + 1).drop_last() =~= report@.take(i as int));
            assert(report@.take(i + 1).last() == report@[i as int]);
            assert(lines_view(out@) =~= spec_report_lines(report@.take(i + 1), color));
        }
        i = i + 1;
    }
    proof {
        assert(report@.take(n as int) =~= report@);
    }
    out
}

} // verus!
