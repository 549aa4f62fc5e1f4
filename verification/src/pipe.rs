//! What the library reads back from its helper programs: the epoch cursor
//! printed by the pool receiver, fields of decrypted frames and the first
//! link of an SSS chain file.

use vstd::prelude::*;

use crate::error::{coin_err, MemError, MemErrorView};
use crate::text::{
    chars_of, field_of, find_chars, find_sub, has_prefix, lines, parse_u64, parse_u64_chars,
    remove_char, remove_char_chars, string_of, occurs_at, sub_chars, trim, trim_chars, trim_end_char,
    trim_end_char_chars, views, field_value, chars_eq_str,
};
use crate::wire::text_lines;

verus! {

/// What one pool receive produced: the receiver's standard output and the
/// wire it wrote (empty when nothing arrived).
pub struct ReceiveOutput {
    pub stdout: String,
    pub wire_bytes: Vec<u8>,
}

/// The input of an SSS chain generation: root material, the payload size
/// rounded to whole links, and the link size.
pub struct SssChainRequest {
    pub root_material: Vec<u8>,
    pub total_bytes: usize,
    pub link_byte_len: usize,
}

// ---------------------------------------------------------------------------
// Epochs reported by the pool receiver.
// ---------------------------------------------------------------------------

/// The epoch a receiver line reports: the text after the first
/// ` at epoch `, trimmed and without trailing dots, as a number.
pub open spec fn line_epoch(l: Seq<char>) -> Option<u64> {
    match find_sub(l, " at epoch "@) {
        Some(i) => parse_u64(trim_end_char(trim(l.skip(i + 10)), '.')),
        None => None,
    }
}

/// The epochs reported by a sequence of lines, in order.
pub open spec fn epochs_of(ls: Seq<Seq<char>>) -> Seq<u64>
    decreases ls.len(),
{
    if ls.len() == 0 {
        seq![]
    } else {
        match line_epoch(ls.last()) {
            Some(e) => epochs_of(ls.drop_last()).push(e),
            None => epochs_of(ls.drop_last()),
        }
    }
}

/// The receiver output before its first `Wrote ` (all of it when there is
/// none): the epochs it announced before writing a wire.
pub open spec fn before_wrote(s: Seq<char>) -> Seq<char> {
    match find_sub(s, "Wrote "@) {
        Some(i) => s.take(i),
        None => s,
    }
}

/// How many of `s` are below `v`.
pub open spec fn count_lt(s: Seq<u64>, v: u64) -> nat
    decreases s.len(),
{
    if s.len() == 0 {
        0
    } else {
        count_lt(s.drop_last(), v) + if s.last() < v {
            1nat
        } else {
            0nat
        }
    }
}

/// How many of `s` are at most `v`.
pub open spec fn count_le(s: Seq<u64>, v: u64) -> nat
    decreases s.len(),
{
    if s.len() == 0 {
        0
    } else {
        count_le(s.drop_last(), v) + if s.last() <= v {
            1nat
        } else {
            0nat
        }
    }
}

/// `v` is what sorting `s` ascending puts at index `k`.
pub open spec fn is_rank(s: Seq<u64>, v: u64, k: nat) -> bool {
    &&& s.contains(v)
    &&& count_lt(s, v) <= k
    &&& count_le(s, v) > k
}

/// The index of the epoch the cursor resumes after: the second smallest of
/// two or more epochs, the only one of one.
pub open spec fn pivot_rank(s: Seq<u64>) -> nat {
    if s.len() >= 2 {
        1
    } else {
        0
    }
}

/// The element of rank `k` in `s`.
pub open spec fn rank_value(s: Seq<u64>, k: nat) -> u64 {
    choose|v: u64| is_rank(s, v, k)
}

pub open spec fn sat_inc(v: u64) -> u64 {
    if v == u64::MAX {
        v
    } else {
        (v + 1) as u64
    }
}

pub open spec fn sat_dec(v: u64) -> u64 {
    if v == 0 {
        0
    } else {
        (v - 1) as u64
    }
}

/// Where the next pool receive starts: one past the epoch of rank
/// `min(len, 2) - 1` among those announced before the first `Wrote `.
pub open spec fn next_pool_epoch_of(stdout: Seq<char>) -> Option<u64> {
    let es = epochs_of(lines(before_wrote(stdout)));
    if es.len() == 0 {
        None
    } else {
        Some(sat_inc(rank_value(es, pivot_rank(es))))
    }
}

/// The epoch a wire was written at: the first epoch any line reports, else
/// one before the next cursor.
pub open spec fn wrote_epoch_of(stdout: Seq<char>) -> Option<u64> {
    let es = epochs_of(lines(stdout));
    if es.len() > 0 {
        Some(es[0])
    } else {
        match next_pool_epoch_of(stdout) {
            Some(e) => Some(sat_dec(e)),
            None => None,
        }
    }
}

proof fn lemma_count_push(s: Seq<u64>, x: u64, v: u64)
    ensures
        count_lt(s.push(x), v) == count_lt(s, v) + if x < v {
            1nat
        } else {
            0nat
        },
        count_le(s.push(x), v) == count_le(s, v) + if x <= v {
            1nat
        } else {
            0nat
        },
{
    assert(s.push(x).drop_last() =~= s);
}

/// Counting is monotone in the bound.
proof fn lemma_count_mono(s: Seq<u64>, v: u64, w: u64)
    requires
        v <= w,
    ensures
        count_lt(s, v) <= count_lt(s, w),
        count_le(s, v) <= count_le(s, w),
        v < w ==> count_le(s, v) <= count_lt(s, w),
    decreases s.len(),
{
    if s.len() > 0 {
        lemma_count_mono(s.drop_last(), v, w);
    }
}

proof fn lemma_count_len(s: Seq<u64>, v: u64)
    ensures
        count_lt(s, v) <= s.len(),
        count_le(s, v) <= s.len(),
    decreases s.len(),
{
    if s.len() > 0 {
        lemma_count_len(s.drop_last(), v);
    }
}

/// `count_lt` below the minimum is zero.
proof fn lemma_count_lt_none(s: Seq<u64>, v: u64)
    requires
        forall|i: int| 0 <= i < s.len() ==> v <= #[trigger] s[i],
    ensures
        count_lt(s, v) == 0,
    decreases s.len(),
{
    if s.len() > 0 {
        lemma_count_lt_none(s.drop_last(), v);
    }
}

/// The element of a given rank is unique.
pub proof fn lemma_rank_unique(s: Seq<u64>, v: u64, w: u64, k: nat)
    requires
        is_rank(s, v, k),
        is_rank(s, w, k),
    ensures
        v == w,
{
    if v < w {
        lemma_count_mono(s, v, w);
    }
    if w < v {
        lemma_count_mono(s, w, v);
    }
}

proof fn lemma_rank_value(s: Seq<u64>, v: u64, k: nat)
    requires
        is_rank(s, v, k),
    ensures
        rank_value(s, k) == v,
{
    let w = rank_value(s, k);
    assert(is_rank(s, w, k));
    lemma_rank_unique(s, v, w, k);
}

/// What a scan over epochs keeps: how many it saw (up to two), the
/// smallest, the second smallest, and the first.
pub open spec fn scan_inv(es: Seq<u64>, found: usize, a: u64, b: u64, first: u64) -> bool {
    &&& found <= 2
    &&& found == es.len() || (found == 2 && es.len() >= 2)
    &&& found >= 1 ==> first == es[0] && is_rank(es, a, 0)
    &&& found >= 2 ==> a <= b && is_rank(es, b, 1)
}

/// One step of the scan on a new epoch `x`.
pub open spec fn scan_next(found: usize, a: u64, b: u64, first: u64, x: u64) -> (
    usize,
    u64,
    u64,
    u64,
) {
    if found == 0 {
        (1, x, b, x)
    } else if found == 1 {
        if x < a {
            (2, x, a, first)
        } else {
            (2, a, x, first)
        }
    } else if x < a {
        (2, x, a, first)
    } else if x < b {
        (2, a, x, first)
    } else {
        (2, a, b, first)
    }
}

proof fn lemma_scan_push(es: Seq<u64>, found: usize, a: u64, b: u64, first: u64, x: u64)
    requires
        scan_inv(es, found, a, b, first),
    ensures
        ({
            let n = scan_next(found, a, b, first, x);
            scan_inv(es.push(x), n.0, n.1, n.2, n.3)
        }),
{
    let es1 = es.push(x);
    lemma_count_push(es, x, x);
    lemma_count_push(es, x, a);
    lemma_count_push(es, x, b);
    lemma_count_len(es, x);
    assert(es1[es.len() as int] == x);
    assert(es1.contains(x));
    if found >= 1 {
        assert(es1[0] == es[0]);
        let j = choose|j: int| 0 <= j < es.len() && es[j] == a;
        assert(es1[j] == a);
    }
    if found >= 2 {
        let j = choose|j: int| 0 <= j < es.len() && es[j] == b;
        assert(es1[j] == b);
    }
    if found == 0 {
        assert(es1.drop_last() =~= es);
    } else if x < a {
        lemma_count_mono(es, x, a);
    } else if found == 1 {
        lemma_count_mono(es, a, x);
    } else if x < b {
        lemma_count_mono(es, a, x);
        lemma_count_mono(es, x, b);
    }
}

/// Scans lines for epochs, keeping the two smallest: returns how many were
/// seen (up to two), the value of the cursor's rank, and the first epoch.
fn scan_epochs(ls: &Vec<Vec<char>>) -> (r: (usize, u64, u64))
    ensures
        r.0 == epochs_of(views(ls@)).len() || (r.0 >= 2 && epochs_of(views(ls@)).len() >= 2),
        r.0 > 0 ==> epochs_of(views(ls@)).len() > 0 && r.1 == rank_value(
            epochs_of(views(ls@)),
            pivot_rank(epochs_of(views(ls@))),
        ) && r.2 == epochs_of(views(ls@))[0],
        r.0 == 0 ==> epochs_of(views(ls@)).len() == 0,
{
    let ghost vs = views(ls@);
    let mut found: usize = 0;
    let mut a: u64 = 0;
    let mut b: u64 = 0;
    let mut first: u64 = 0;
    let mut i: usize = 0;
    proof {
        assert(vs.take(0) =~= Seq::<Seq<char>>::empty());
    }
    while i < ls.len()
        invariant
            vs == views(ls@),
            i <= ls.len(),
            scan_inv(epochs_of(vs.take(i as int)), found, a, b, first),
        decreases ls.len() - i,
    {
        let ghost prev = vs.take(i as int);
        let ghost es0 = epochs_of(prev);
        proof {
            assert(vs.take(i + 1).drop_last() =~= prev);
            assert(vs.take(i + 1).last() == ls@[i as int]@);
        }
        let e = line_epoch_of(&ls[i]);
        if let Some(x) = e {
            proof {
                assert(epochs_of(vs.take(i + 1)) == es0.push(x));
                lemma_scan_push(es0, found, a, b, first, x);
            }
            if found == 0 {
                first = x;
                a = x;
                found = 1;
            } else if found == 1 {
                if x < a {
                    b = a;
                    a = x;
                } else {
                    b = x;
                }
                found = 2;
            } else if x < a {
                b = a;
                a = x;
            } else if x < b {
                b = x;
            }
        } else {
            proof {
                assert(epochs_of(vs.take(i + 1)) == es0);
            }
        }
        i = i + 1;
    }
    proof {
        assert(vs.take(ls.len() as int) =~= vs);
        let es = epochs_of(vs);
        if found == 1 {
            lemma_rank_value(es, a, 0);
        }
        if found >= 2 {
            lemma_rank_value(es, b, 1);
        }
    }
    if found >= 2 {
        (found, b, first)
    } else {
        (found, a, first)
    }
}

fn line_epoch_of(l: &Vec<char>) -> (r: Option<u64>)
    ensures
        r == line_epoch(l@),
{
    let pat = chars_of(" at epoch ");
    proof {
        reveal_strlit(" at epoch ");
    }
    assert(pat@.len() == 10);
    match find_chars(l, &pat) {
        Some(i) => {
            assert(occurs_at(l@, pat@, i as int));
            assert(i + 10 <= l@.len());
            assert(l@.len() == l.len());
            let tail = sub_chars(l, i + 10, l.len());
            assert(tail@ =~= l@.skip(i + 10));
            let t = trim_chars(&tail);
            let t2 = trim_end_char_chars(&t, '.');
            parse_u64_chars(&t2)
        },
        None => None,
    }
}

fn before_wrote_chars(s: &Vec<char>) -> (r: Vec<char>)
    ensures
        r@ == before_wrote(s@),
{
    let pat = chars_of("Wrote ");
    match find_chars(s, &pat) {
        Some(i) => {
            let r = sub_chars(s, 0, i);
            assert(r@ =~= s@.take(i as int));
            r
        },
        None => {
            let r = sub_chars(s, 0, s.len());
            assert(r@ =~= s@);
            r
        },
    }
}

/// The epoch the next pool receive should start from, read from the
/// receiver's output: one past the second smallest epoch announced before
/// the first wire was written (the only one, when a single epoch was).
pub fn parse_next_pool_epoch(stdout: &str) -> (r: Option<u64>)
    ensures
        r == next_pool_epoch_of(stdout@),
{
    let s = chars_of(stdout);
    let rel = before_wrote_chars(&s);
    let relevant = string_of(&rel);
    let ls = text_lines(relevant.as_str());
    let (found, v, _first) = scan_epochs(&ls);
    if found == 0 {
        None
    } else if v == u64::MAX {
        Some(v)
    } else {
        Some(v + 1)
    }
}

/// The epoch the receiver wrote its wire at: the first epoch any line
/// reports, else one before the next cursor.
pub fn parse_wrote_epoch(stdout: &str) -> (r: Option<u64>)
    ensures
        r == wrote_epoch_of(stdout@),
{
    let ls = text_lines(stdout);
    let (found, _v, first) = scan_epochs(&ls);
    if found > 0 {
        return Some(first);
    }
    match parse_next_pool_epoch(stdout) {
        Some(e) => Some(if e == 0 {
            0
        } else {
            e - 1
        }),
        None => None,
    }
}

// ---------------------------------------------------------------------------
// Fields of a decrypted frame.
// ---------------------------------------------------------------------------

/// The value of the first line that starts with `key` (trimmed).
pub open spec fn first_field(ls: Seq<Seq<char>>, key: Seq<char>) -> Option<Seq<char>>
    decreases ls.len(),
{
    if ls.len() == 0 {
        None
    } else {
        match field_of(ls[0], key) {
            Some(v) => Some(v),
            None => first_field(ls.drop_first(), key),
        }
    }
}

fn first_field_of(ls: &Vec<Vec<char>>, key: &str) -> (r: Option<Vec<char>>)
    ensures
        r is Some <==> first_field(views(ls@), key@) is Some,
        r matches Some(v) ==> first_field(views(ls@), key@) == Some(v@),
{
    let ghost vs = views(ls@);
    let mut i: usize = 0;
    assert(vs.skip(0) =~= vs);
    while i < ls.len()
        invariant
            vs == views(ls@),
            i <= ls.len(),
            first_field(vs, key@) == first_field(vs.skip(i as int), key@),
        decreases ls.len() - i,
    {
        assert(vs.skip(i as int)[0] == ls@[i as int]@);
        assert(vs.skip(i as int).drop_first() =~= vs.skip(i + 1));
        if let Some(v) = field_value(&ls[i], key) {
            return Some(v);
        }
        i = i + 1;
    }
    None
}

/// The frame's `seq:` value, when its first `seq:` line holds a number.
pub open spec fn frame_seq_of(frame: Seq<char>) -> Option<u64> {
    match first_field(lines(frame), "seq:"@) {
        Some(v) => parse_u64(v),
        None => None,
    }
}

/// The sequence number of a decrypted frame: the first `seq:` line, as a
/// number.
pub fn try_parse_frame_seq(frame_text: &str) -> (r: Option<u64>)
    ensures
        r == frame_seq_of(frame_text@),
{
    let ls = text_lines(frame_text);
    match first_field_of(&ls, "seq:") {
        Some(v) => parse_u64_chars(&v),
        None => None,
    }
}

/// The room id of a decrypted frame: the first `room_id:` line, trimmed.
pub fn try_parse_frame_room_id(frame_text: &str) -> (r: Option<String>)
    ensures
        match first_field(lines(frame_text@), "room_id:"@) {
            Some(v) => r matches Some(s) && s@ == v,
            None => r is None,
        },
{
    let ls = text_lines(frame_text);
    match first_field_of(&ls, "room_id:") {
        Some(v) => Some(string_of(&v)),
        None => None,
    }
}

// ---------------------------------------------------------------------------
// The first link of an `.ssc` file.
// ---------------------------------------------------------------------------

/// `link_0` of an `.ssc` text: the first `hex:` line after a `---` line
/// (lines compared trimmed), with its spaces removed.
pub open spec fn ssc_link0(ls: Seq<Seq<char>>, seen_block: bool) -> Result<Seq<char>, MemErrorView>
    decreases ls.len(),
{
    if ls.len() == 0 {
        Err(MemErrorView::Coin("missing link_0 in .ssc"@))
    } else {
        let l = trim(ls[0]);
        if l == "---"@ {
            ssc_link0(ls.drop_first(), true)
        } else if seen_block && has_prefix(l, "hex:"@) {
            let h = remove_char(trim(l.skip(4)), ' ');
            if h.len() == 0 {
                Err(MemErrorView::Coin("empty link_0 hex in .ssc"@))
            } else {
                Ok(h)
            }
        } else {
            ssc_link0(ls.drop_first(), seen_block)
        }
    }
}

/// Parse `link_0` hex from an `.ssc` file (first `hex:` block).
pub fn parse_ssc_link0_hex(ssc_text: &str) -> (r: Result<String, MemError>)
    ensures
        match ssc_link0(lines(ssc_text@), false) {
            Ok(h) => r matches Ok(s) && s@ == h,
            Err(e) => r matches Err(x) && x@ == e,
        },
{
    let ls = text_lines(ssc_text);
    let ghost vs = views(ls@);
    let mut seen_block = false;
    let mut i: usize = 0;
    assert(vs.skip(0) =~= vs);
    while i < ls.len()
        invariant
            vs == views(ls@),
            vs == lines(ssc_text@),
            i <= ls.len(),
            ssc_link0(vs, false) == ssc_link0(vs.skip(i as int), seen_block),
        decreases ls.len() - i,
    {
        assert(vs.skip(i as int)[0] == ls@[i as int]@);
        assert(vs.skip(i as int).drop_first() =~= vs.skip(i + 1));
        let line = trim_chars(&ls[i]);
        if chars_eq_str(&line, "---") {
            seen_block = true;
        } else if seen_block {
            if let Some(hex) = field_value(&line, "hex:") {
                proof {
                    reveal_strlit("hex:");
                    reveal_strlit("---");
                    let l = trim(vs.skip(i as int)[0]);
                    assert(l == line@);
                    assert(l != "---"@);
                    assert(has_prefix(l, "hex:"@));
                    assert(hex@ == trim(l.skip(4)));
                }
                let h = remove_char_chars(&hex, ' ');
                proof {
                    let rest = vs.skip(i as int);
                    assert(rest.len() > 0);
                    assert(seen_block);
                    assert(ssc_link0(rest, seen_block) == if h@.len() == 0 {
                        Err(MemErrorView::Coin("empty link_0 hex in .ssc"@))
                    } else {
                        Ok(h@)
                    });
                }
                if h.len() == 0 {
                    return Err(coin_err("empty link_0 hex in .ssc"));
                }
                return Ok(string_of(&h));
            }
        }
        i = i + 1;
    }
    Err(coin_err("missing link_0 in .ssc"))
}

} // verus!
