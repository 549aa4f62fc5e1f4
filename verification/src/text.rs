//! Character-level helpers shared by every text format of the crate:
//! whitespace, trimming, line splitting, decimal and hexadecimal numbers.

use vstd::prelude::*;

verus! {

// ---------------------------------------------------------------------------
// Conversions between `str`/`String` and character vectors.
// ---------------------------------------------------------------------------

/// The characters of `s`, in order.
pub fn chars_of(s: &str) -> (v: Vec<char>)
    ensures
        v@ == s@,
{
    broadcast use vstd::string::axiom_spec_iter;
    let mut v: Vec<char> = Vec::new();
    for c in it: s.chars()
        invariant
            v@ == it.seq().take(it.index() as int),
    {
        v.push(c);
    }
    v
}

/// Collects characters into a `String` (`FromIterator<char>`); the string
/// holds exactly the given characters, in order.
#[verifier::external_body]
pub(crate) fn string_of(v: &Vec<char>) -> (s: String)
    ensures
        s@ == v@,
{
    v.iter().collect()
}

/// What `String::from_utf8_lossy` makes of a byte string: the decoded text,
/// each invalid sequence replaced by U+FFFD.
pub uninterp spec fn utf8_lossy_spec(bytes: Seq<u8>) -> Seq<char>;

/// Calls `String::from_utf8_lossy`; valid UTF-8 decodes to exactly its
/// characters.
#[verifier::external_body]
pub(crate) fn utf8_lossy(bytes: &[u8]) -> (s: String)
    ensures
        s@ == utf8_lossy_spec(bytes@),
        vstd::utf8::valid_utf8(bytes@) ==> s@ == vstd::utf8::decode_utf8(bytes@),
{
    String::from_utf8_lossy(bytes).into_owned()
}

// ---------------------------------------------------------------------------
// Whitespace and trimming (`char::is_whitespace`, `str::trim`).
// ---------------------------------------------------------------------------

/// The Unicode `White_Space` property, as used by `char::is_whitespace`.
pub open spec fn is_ws(c: char) -> bool {
    let u = c as u32;
    ||| 9 <= u <= 13
    ||| u == 32
    ||| u == 0x85
    ||| u == 0xA0
    ||| u == 0x1680
    ||| 0x2000 <= u <= 0x200A
    ||| u == 0x2028
    ||| u == 0x2029
    ||| u == 0x202F
    ||| u == 0x205F
    ||| u == 0x3000
}

pub fn is_whitespace(c: char) -> (b: bool)
    ensures
        b == is_ws(c),
{
    let u = c as u32;
    (9 <= u && u <= 13) || u == 32 || u == 0x85 || u == 0xA0 || u == 0x1680 || (0x2000 <= u && u
        <= 0x200A) || u == 0x2028 || u == 0x2029 || u == 0x202F || u == 0x205F || u == 0x3000
}

pub open spec fn trim_start(s: Seq<char>) -> Seq<char>
    decreases s.len(),
{
    if s.len() > 0 && is_ws(s[0]) {
        trim_start(s.drop_first())
    } else {
        s
    }
}

pub open spec fn trim_end(s: Seq<char>) -> Seq<char>
    decreases s.len(),
{
    if s.len() > 0 && is_ws(s.last()) {
        trim_end(s.drop_last())
    } else {
        s
    }
}

/// `str::trim`: leading and trailing whitespace removed.
pub open spec fn trim(s: Seq<char>) -> Seq<char> {
    trim_end(trim_start(s))
}

/// A value that survives being written on a line of its own and read back:
/// no line feed and nothing for `trim` to remove.
pub open spec fn is_clean(s: Seq<char>) -> bool {
    &&& !s.contains('\n')
    &&& trim(s) == s
}

proof fn lemma_trim_start_skip(s: Seq<char>, lo: int)
    requires
        0 <= lo <= s.len(),
        forall|k: int| 0 <= k < lo ==> is_ws(#[trigger] s[k]),
    ensures
        trim_start(s) == trim_start(s.skip(lo)),
    decreases lo,
{
    if lo > 0 {
        assert(s.skip(1) =~= s.drop_first());
        lemma_trim_start_skip(s.drop_first(), lo - 1);
        assert(s.drop_first().skip(lo - 1) =~= s.skip(lo));
    } else {
        assert(s.skip(0) =~= s);
    }
}

proof fn lemma_trim_end_take(s: Seq<char>, hi: int)
    requires
        0 <= hi <= s.len(),
        forall|k: int| hi <= k < s.len() ==> is_ws(#[trigger] s[k]),
    ensures
        trim_end(s) == trim_end(s.take(hi)),
    decreases s.len() - hi,
{
    if hi < s.len() {
        assert(s.drop_last() =~= s.take(s.len() - 1));
        lemma_trim_end_take(s.drop_last(), hi);
        assert(s.drop_last().take(hi) =~= s.take(hi));
    } else {
        assert(s.take(s.len() as int) =~= s);
    }
}

/// Copies `s[lo..hi]`.
pub fn sub_chars(s: &Vec<char>, lo: usize, hi: usize) -> (r: Vec<char>)
    requires
        lo <= hi <= s.len(),
    ensures
        r@ == s@.subrange(lo as int, hi as int),
{
    let mut r: Vec<char> = Vec::new();
    let mut i: usize = lo;
    while i < hi
        invariant
            lo <= i <= hi <= s.len(),
            r@ == s@.subrange(lo as int, i as int),
        decreases hi - i,
    {
        r.push(s[i]);
        i = i + 1;
        assert(r@ =~= s@.subrange(lo as int, i as int));
    }
    r
}

/// `str::trim` on a character vector.
pub fn trim_chars(s: &Vec<char>) -> (r: Vec<char>)
    ensures
        r@ == trim(s@),
{
    let n = s.len();
    let mut lo: usize = 0;
    while lo < n && is_whitespace(s[lo])
        invariant
            lo <= n == s@.len(),
            forall|k: int| 0 <= k < lo ==> is_ws(#[trigger] s@[k]),
        decreases n - lo,
    {
        lo = lo + 1;
    }
    proof {
        lemma_trim_start_skip(s@, lo as int);
        let t = s@.skip(lo as int);
        if t.len() > 0 {
            assert(t[0] == s@[lo as int]);
        }
        assert(trim_start(t) == t);
    }
    let mut hi: usize = n;
    while hi > lo && is_whitespace(s[hi - 1])
        invariant
            lo <= hi <= n == s@.len(),
            forall|k: int| hi <= k < n ==> is_ws(#[trigger] s@[k]),
        decreases hi,
    {
        hi = hi - 1;
    }
    proof {
        let t = s@.skip(lo as int);
        assert forall|k: int| (hi - lo) <= k < t.len() implies is_ws(#[trigger] t[k]) by {
            assert(t[k] == s@[lo + k]);
        }
        lemma_trim_end_take(t, hi - lo);
        let u = t.take(hi - lo);
        assert(u =~= s@.subrange(lo as int, hi as int));
        if u.len() > 0 {
            assert(u.last() == s@[hi - 1]);
        }
        assert(trim_end(u) == u);
    }
    sub_chars(s, lo, hi)
}

// ---------------------------------------------------------------------------
// Line splitting (`str::lines`).
// ---------------------------------------------------------------------------

/// Index of the first line feed, or -1.
pub open spec fn first_nl(s: Seq<char>) -> int
    decreases s.len(),
{
    if s.len() == 0 {
        -1
    } else if s[0] == '\n' {
        0
    } else {
        let r = first_nl(s.drop_first());
        if r < 0 {
            -1
        } else {
            r + 1
        }
    }
}

pub proof fn lemma_first_nl_bound(s: Seq<char>)
    ensures
        -1 <= first_nl(s) < s.len(),
        first_nl(s) >= 0 ==> s[first_nl(s)] == '\n',
        first_nl(s) >= 0 ==> forall|k: int| 0 <= k < first_nl(s) ==> s[k] != '\n',
        first_nl(s) < 0 ==> !s.contains('\n'),
    decreases s.len(),
{
    if s.len() > 0 && s[0] != '\n' {
        lemma_first_nl_bound(s.drop_first());
        let r = first_nl(s.drop_first());
        if r >= 0 {
            assert forall|k: int| 0 <= k < r + 1 implies s[k] != '\n' by {
                if k > 0 {
                    assert(s[k] == s.drop_first()[k - 1]);
                }
            }
        } else {
            assert forall|k: int| 0 <= k < s.len() implies s[k] != '\n' by {
                if k > 0 {
                    assert(s[k] == s.drop_first()[k - 1]);
                }
            }
        }
    }
}

pub proof fn lemma_first_nl_at(s: Seq<char>, j: int)
    requires
        0 <= j < s.len(),
        s[j] == '\n',
        forall|k: int| 0 <= k < j ==> s[k] != '\n',
    ensures
        first_nl(s) == j,
    decreases j,
{
    if j > 0 {
        lemma_first_nl_at(s.drop_first(), j - 1);
    }
}

pub proof fn lemma_first_nl_none(s: Seq<char>)
    requires
        forall|k: int| 0 <= k < s.len() ==> s[k] != '\n',
    ensures
        first_nl(s) == -1,
    decreases s.len(),
{
    if s.len() > 0 {
        lemma_first_nl_none(s.drop_first());
    }
}

/// A line without its trailing carriage return (only used for lines that
/// were ended by a line feed).
pub open spec fn strip_cr(l: Seq<char>) -> Seq<char> {
    if l.len() > 0 && l.last() == '\r' {
        l.drop_last()
    } else {
        l
    }
}

/// `str::lines`: split at `\n`, dropping a `\r` before each `\n`; a final
/// line ending yields no extra empty line.
pub open spec fn lines(s: Seq<char>) -> Seq<Seq<char>>
    decreases s.len(),
{
    if s.len() == 0 {
        seq![]
    } else {
        let j = first_nl(s);
        if j < 0 {
            seq![s]
        } else {
            proof {
                lemma_first_nl_bound(s);
            }
            seq![strip_cr(s.take(j))] + lines(s.skip(j + 1))
        }
    }
}

/// Each line followed by a line feed.
pub open spec fn unlines(ls: Seq<Seq<char>>) -> Seq<char>
    decreases ls.len(),
{
    if ls.len() == 0 {
        seq![]
    } else {
        ls[0] + seq!['\n'] + unlines(ls.drop_first())
    }
}

/// A line that `str::lines` gives back unchanged.
pub open spec fn is_plain_line(l: Seq<char>) -> bool {
    &&& !l.contains('\n')
    &&& !(l.len() > 0 && l.last() == '\r')
}

pub proof fn lemma_lines_unlines(ls: Seq<Seq<char>>)
    requires
        forall|i: int| 0 <= i < ls.len() ==> is_plain_line(#[trigger] ls[i]),
    ensures
        lines(unlines(ls)) == ls,
    decreases ls.len(),
{
    if ls.len() > 0 {
        let l0 = ls[0];
        let rest = ls.drop_first();
        assert forall|i: int| 0 <= i < rest.len() implies is_plain_line(#[trigger] rest[i]) by {
            assert(rest[i] == ls[i + 1]);
        }
        lemma_lines_unlines(rest);
        let s = unlines(ls);
        assert(s == l0 + seq!['\n'] + unlines(rest));
        let j = l0.len() as int;
        assert(s[j] == '\n');
        assert forall|k: int| 0 <= k < j implies s[k] != '\n' by {
            assert(s[k] == l0[k]);
            if s[k] == '\n' {
                assert(l0.contains('\n'));
            }
        }
        lemma_first_nl_at(s, j);
        assert(s.take(j) =~= l0);
        assert(s.skip(j + 1) =~= unlines(rest));
        assert(lines(s) == seq![strip_cr(l0)] + lines(unlines(rest)));
        assert(seq![l0] + rest =~= ls);
    }
}

/// The character contents of each vector.
pub open spec fn views(v: Seq<Vec<char>>) -> Seq<Seq<char>> {
    v.map_values(|x: Vec<char>| x@)
}

/// `str::lines` on a character vector.
pub fn split_lines(s: &Vec<char>) -> (r: Vec<Vec<char>>)
    ensures
        views(r@) == lines(s@),
{
    let n = s.len();
    let mut out: Vec<Vec<char>> = Vec::new();
    let mut start: usize = 0;
    let mut j: usize = 0;
    proof {
        assert(s@.skip(0) =~= s@);
        assert(views(out@) + lines(s@) =~= lines(s@));
    }
    while j < n
        invariant
            0 <= start <= j <= n == s@.len(),
            forall|k: int| start <= k < j ==> s@[k] != '\n',
            views(out@) + lines(s@.skip(start as int)) == lines(s@),
        decreases n - j,
    {
        if s[j] == '\n' {
            let mut line = sub_chars(s, start, j);
            if line.len() > 0 && line[line.len() - 1] == '\r' {
                line.pop();
            }
            proof {
                let t = s@.skip(start as int);
                assert forall|k: int| 0 <= k < j - start implies t[k] != '\n' by {
                    assert(t[k] == s@[start + k]);
                }
                lemma_first_nl_at(t, j - start);
                assert(t.take(j - start) =~= s@.subrange(start as int, j as int));
                assert(t.skip(j - start + 1) =~= s@.skip(j + 1));
                assert(lines(t) == seq![strip_cr(t.take(j - start))] + lines(t.skip(j - start
                    + 1)));
                assert(line@ == strip_cr(s@.subrange(start as int, j as int)));
            }
            let ghost old_out = views(out@);
            out.push(line);
            proof {
                assert(views(out@) =~= old_out.push(line@));
                assert(views(out@) + lines(s@.skip(j + 1)) =~= old_out + lines(s@.skip(
                    start as int,
                )));
            }
            start = j + 1;
        }
        j = j + 1;
    }
    if start < n {
        let line = sub_chars(s, start, n);
        proof {
            let t = s@.skip(start as int);
            assert forall|k: int| 0 <= k < t.len() implies t[k] != '\n' by {
                assert(t[k] == s@[start + k]);
            }
            lemma_first_nl_none(t);
            assert(t =~= s@.subrange(start as int, n as int));
            assert(lines(t) == seq![t]);
        }
        let ghost old_out = views(out@);
        out.push(line);
        proof {
            assert(views(out@) =~= old_out.push(line@));
            assert(views(out@) =~= old_out + lines(s@.skip(start as int)));
        }
    } else {
        proof {
            assert(s@.skip(start as int).len() == 0);
            assert(views(out@) + lines(s@.skip(start as int)) =~= views(out@));
        }
    }
    out
}

// ---------------------------------------------------------------------------
// Prefixes, equality and `key: value` fields.
// ---------------------------------------------------------------------------

pub open spec fn has_prefix(s: Seq<char>, p: Seq<char>) -> bool {
    p.len() <= s.len() && s.take(p.len() as int) == p
}

/// The value of a `key value` line: what follows `key`, trimmed.
pub open spec fn field_of(l: Seq<char>, key: Seq<char>) -> Option<Seq<char>> {
    if has_prefix(l, key) {
        Some(trim(l.skip(key.len() as int)))
    } else {
        None
    }
}

pub fn starts_with(s: &Vec<char>, p: &Vec<char>) -> (b: bool)
    ensures
        b == has_prefix(s@, p@),
{
    if p.len() > s.len() {
        return false;
    }
    let mut i: usize = 0;
    while i < p.len()
        invariant
            i <= p.len() <= s.len(),
            s@.take(i as int) == p@.take(i as int),
        decreases p.len() - i,
    {
        if s[i] != p[i] {
            assert(s@.take(p.len() as int)[i as int] != p@[i as int]);
            return false;
        }
        i = i + 1;
        assert(s@.take(i as int) =~= p@.take(i as int));
    }
    assert(p@.take(p.len() as int) =~= p@);
    true
}

pub fn chars_eq(a: &Vec<char>, b: &Vec<char>) -> (r: bool)
    ensures
        r == (a@ == b@),
{
    if a.len() != b.len() {
        return false;
    }
    let r = starts_with(a, b);
    assert(a@.take(b.len() as int) =~= a@);
    r
}

/// Equality of a character vector with a string.
pub fn chars_eq_str(a: &Vec<char>, b: &str) -> (r: bool)
    ensures
        r == (a@ == b@),
{
    let bv = chars_of(b);
    chars_eq(a, &bv)
}

/// `line.strip_prefix(key).map(str::trim)`.
pub fn field_value(line: &Vec<char>, key: &str) -> (r: Option<Vec<char>>)
    ensures
        r is Some <==> field_of(line@, key@) is Some,
        r matches Some(v) ==> field_of(line@, key@) == Some(v@),
{
    let k = chars_of(key);
    if starts_with(line, &k) {
        let rest = sub_chars(line, k.len(), line.len());
        assert(rest@ =~= line@.skip(k@.len() as int));
        Some(trim_chars(&rest))
    } else {
        None
    }
}

/// Appends the characters of `s`.
pub fn push_str(out: &mut Vec<char>, s: &str)
    ensures
        final(out)@ == old(out)@ + s@,
{
    let mut v = chars_of(s);
    out.append(&mut v);
}

/// Appends the characters of `v`.
pub fn push_chars(out: &mut Vec<char>, v: &Vec<char>)
    ensures
        final(out)@ == old(out)@ + v@,
{
    let mut i: usize = 0;
    let ghost start = out@;
    while i < v.len()
        invariant
            i <= v.len(),
            out@ == start + v@.take(i as int),
        decreases v.len() - i,
    {
        out.push(v[i]);
        i = i + 1;
        assert(out@ =~= start + v@.take(i as int));
    }
    assert(v@.take(v.len() as int) =~= v@);
}

// ---------------------------------------------------------------------------
// Unsigned decimal numbers (`u64::from_str`, `Display for u64`).
// ---------------------------------------------------------------------------

pub open spec fn is_digit(c: char) -> bool {
    48 <= (c as u32) <= 57
}

pub open spec fn digit_val(c: char) -> int {
    (c as u32) - 48
}

pub open spec fn all_digits(s: Seq<char>) -> bool {
    forall|i: int| 0 <= i < s.len() ==> is_digit(#[trigger] s[i])
}

pub open spec fn digits_value(s: Seq<char>) -> int
    decreases s.len(),
{
    if s.len() == 0 {
        0
    } else {
        digits_value(s.drop_last()) * 10 + digit_val(s.last())
    }
}

/// `u64::from_str`: an optional `+`, then one or more ASCII digits whose
/// value fits in a `u64`.
pub open spec fn parse_u64(s: Seq<char>) -> Option<u64> {
    let d = if s.len() > 0 && s[0] == '+' {
        s.drop_first()
    } else {
        s
    };
    if d.len() == 0 || !all_digits(d) || digits_value(d) > u64::MAX {
        None
    } else {
        Some(digits_value(d) as u64)
    }
}

proof fn lemma_digits_value_nonneg(s: Seq<char>)
    requires
        all_digits(s),
    ensures
        digits_value(s) >= 0,
    decreases s.len(),
{
    if s.len() > 0 {
        lemma_digits_value_nonneg(s.drop_last());
    }
}

proof fn lemma_digits_value_mono(s: Seq<char>, k: int)
    requires
        all_digits(s),
        0 <= k <= s.len(),
    ensures
        digits_value(s.take(k)) <= digits_value(s),
    decreases s.len() - k,
{
    if k < s.len() {
        lemma_digits_value_mono(s.drop_last(), k);
        assert(s.drop_last().take(k) =~= s.take(k));
        lemma_digits_value_nonneg(s.drop_last());
    } else {
        assert(s.take(k) =~= s);
    }
}

/// `str::parse::<u64>` on a character vector.
pub fn parse_u64_chars(s: &Vec<char>) -> (r: Option<u64>)
    ensures
        r == parse_u64(s@),
{
    let n = s.len();
    let mut i: usize = 0;
    if n > 0 && s[0] == '+' {
        i = 1;
    }
    let ghost d = if s@.len() > 0 && s@[0] == '+' {
        s@.drop_first()
    } else {
        s@
    };
    let start = i;
    assert(d =~= s@.skip(start as int));
    if start == n {
        assert(d.len() == 0);
        return None;
    }
    let mut acc: u64 = 0;
    while i < n
        invariant
            start <= i <= n == s@.len(),
            d == s@.skip(start as int),
            d == (if s@.len() > 0 && s@[0] == '+' {
                s@.drop_first()
            } else {
                s@
            }),
            start < n,
            all_digits(d.take(i - start)),
            acc as int == digits_value(d.take(i - start)),
        decreases n - i,
    {
        let c = s[i];
        let u = c as u32;
        if u < 48 || u > 57 {
            assert(d[i - start] == c);
            assert(!is_digit(d[i - start]));
            assert(!all_digits(d));
            return None;
        }
        let dv = (u - 48) as u64;
        proof {
            let t = d.take(i - start + 1);
            assert(t.drop_last() =~= d.take(i - start));
            assert(t.last() == c);
            assert(digits_value(t) == acc * 10 + dv);
            assert(all_digits(t)) by {
                assert forall|k: int| 0 <= k < t.len() implies is_digit(#[trigger] t[k]) by {
                    if k < t.len() - 1 {
                        assert(t[k] == d.take(i - start)[k]);
                    }
                }
            }
        }
        if acc > 1844674407370955161 || (acc == 1844674407370955161 && dv > 5) {
            proof {
                let t = d.take(i - start + 1);
                assert(digits_value(t) > u64::MAX) by (nonlinear_arith)
                    requires
                        digits_value(t) == acc * 10 + dv,
                        acc > 1844674407370955161 || (acc == 1844674407370955161 && dv > 5),
                ;
                if all_digits(d) {
                    lemma_digits_value_mono(d, i - start + 1);
                }
            }
            return None;
        }
        acc = acc * 10 + dv;
        i = i + 1;
    }
    proof {
        assert(d.take(n - start) =~= d);
    }
    Some(acc)
}

pub open spec fn radix_char(d: int) -> char {
    if d < 10 {
        (48 + d) as char
    } else {
        (87 + d) as char
    }
}

/// Digits of `n` in base `b` (most significant first, no leading zeros).
pub open spec fn radix_digits(n: nat, b: nat) -> Seq<char>
    recommends
        b >= 2,
    decreases n,
    when b >= 2
{
    if n < b {
        seq![radix_char(n as int)]
    } else {
        proof {
            assert(n / b < n) by (nonlinear_arith)
                requires
                    n >= b,
                    b >= 2,
            ;
        }
        radix_digits(n / b, b).push(radix_char((n % b) as int))
    }
}

/// `format!("{n}")`.
pub open spec fn dec(n: nat) -> Seq<char> {
    radix_digits(n, 10)
}

/// `format!("{n:x}")`.
pub open spec fn hex_digits(n: nat) -> Seq<char> {
    radix_digits(n, 16)
}

/// Left-padding with `0` to width `w` (`{:0w}`).
pub open spec fn pad_zero(s: Seq<char>, w: nat) -> Seq<char> {
    if s.len() >= w {
        s
    } else {
        Seq::new((w - s.len()) as nat, |i: int| '0') + s
    }
}

fn radix_chars(n: u64, b: u64) -> (r: Vec<char>)
    requires
        b == 10 || b == 16,
    ensures
        r@ == radix_digits(n as nat, b as nat),
    decreases n,
{
    let d = n % b;
    let c: char = if d < 10 {
        ((48 + d) as u8) as char
    } else {
        ((87 + d) as u8) as char
    };
    assert(c == radix_char(d as int));
    if n < b {
        let mut r: Vec<char> = Vec::new();
        r.push(c);
        assert(r@ =~= seq![radix_char(n as int)]);
        r
    } else {
        let mut r = radix_chars(n / b, b);
        r.push(c);
        r
    }
}

/// Appends `n` in base `b`, left-padded with zeros to `width`.
pub fn push_radix(out: &mut Vec<char>, n: u64, b: u64, width: usize)
    requires
        b == 10 || b == 16,
    ensures
        final(out)@ == old(out)@ + pad_zero(radix_digits(n as nat, b as nat), width as nat),
{
    let digits = radix_chars(n, b);
    let ghost start = out@;
    if digits.len() < width {
        let pad = width - digits.len();
        let mut i: usize = 0;
        while i < pad
            invariant
                i <= pad,
                out@ == start + Seq::new(i as nat, |k: int| '0'),
            decreases pad - i,
        {
            out.push('0');
            i = i + 1;
            assert(out@ =~= start + Seq::new(i as nat, |k: int| '0'));
        }
    }
    push_chars(out, &digits);
    assert(out@ =~= start + pad_zero(radix_digits(n as nat, b as nat), width as nat));
}

/// Appends `n` in decimal (`{n}`).
pub fn push_dec(out: &mut Vec<char>, n: u64)
    ensures
        final(out)@ == old(out)@ + dec(n as nat),
{
    push_radix(out, n, 10, 0);
}

pub proof fn lemma_radix_digits_shape(n: nat, b: nat)
    requires
        b == 10 || b == 16,
    ensures
        radix_digits(n, b).len() >= 1,
        radix_digits(n, b)[0] != '+',
        !radix_digits(n, b).contains('\n'),
        forall|i: int|
            0 <= i < radix_digits(n, b).len() ==> !is_ws(#[trigger] radix_digits(n, b)[i]),
    decreases n,
{
    if n >= b {
        lemma_radix_digits_shape(n / b, b);
        let s = radix_digits(n, b);
        let p = radix_digits(n / b, b);
        assert(s == p.push(radix_char((n % b) as int)));
        assert forall|i: int| 0 <= i < s.len() implies !is_ws(#[trigger] s[i]) && s[i] != '\n' by {
            if i < p.len() {
                assert(s[i] == p[i]);
            }
        }
    }
}

pub proof fn lemma_dec_parse(n: u64)
    ensures
        parse_u64(dec(n as nat)) == Some(n),
        all_digits(dec(n as nat)),
        digits_value(dec(n as nat)) == n,
    decreases n,
{
    let s = dec(n as nat);
    if n >= 10 {
        lemma_dec_parse(n / 10);
        let p = dec((n / 10) as nat);
        assert(s == p.push(radix_char((n % 10) as int)));
        assert(s.drop_last() =~= p);
        let k = (n % 10) as int;
        assert((radix_char(k) as u32) == 48 + k);
        assert(digits_value(s) == digits_value(p) * 10 + k);
        assert(n == (n / 10) * 10 + n % 10) by (nonlinear_arith);
        assert forall|i: int| 0 <= i < s.len() implies is_digit(#[trigger] s[i]) by {
            if i < p.len() {
                assert(s[i] == p[i]);
            }
        }
    } else {
        assert((radix_char(n as int) as u32) == 48 + n);
        assert(s =~= seq![radix_char(n as int)]);
        assert(s.drop_last() =~= Seq::<char>::empty());
        assert(digits_value(s.drop_last()) == 0);
        assert(digits_value(s) == n);
        assert forall|i: int| 0 <= i < s.len() implies is_digit(#[trigger] s[i]) by {}
    }
    lemma_radix_digits_shape(n as nat, 10);
}

// ---------------------------------------------------------------------------
// Facts about `key: value` lines, used by the round-trip laws.
// ---------------------------------------------------------------------------

proof fn lemma_trim_start_len(s: Seq<char>)
    ensures
        trim_start(s).len() <= s.len(),
        trim_start(s).len() == s.len() ==> trim_start(s) == s,
    decreases s.len(),
{
    if s.len() > 0 && is_ws(s[0]) {
        lemma_trim_start_len(s.drop_first());
    }
}

proof fn lemma_trim_end_len(s: Seq<char>)
    ensures
        trim_end(s).len() <= s.len(),
        trim_end(s).len() == s.len() ==> trim_end(s) == s,
    decreases s.len(),
{
    if s.len() > 0 && is_ws(s.last()) {
        lemma_trim_end_len(s.drop_last());
    }
}

/// A clean, nonempty value starts and ends with a character `trim` keeps.
pub proof fn lemma_clean_ends(v: Seq<char>)
    requires
        trim(v) == v,
        v.len() > 0,
    ensures
        !is_ws(v[0]),
        !is_ws(v.last()),
{
    lemma_trim_start_len(v);
    lemma_trim_end_len(trim_start(v));
    if is_ws(v[0]) {
        lemma_trim_start_len(v.drop_first());
        assert(trim_start(v).len() < v.len());
    }
    assert(trim_start(v) == v);
    if is_ws(v.last()) {
        lemma_trim_end_len(v.drop_last());
        assert(trim_end(v).len() < v.len());
    }
}

/// `trim` leaves alone a sequence that starts and ends with non-whitespace.
proof fn lemma_trim_start_head(s: Seq<char>)
    ensures
        trim_start(s).len() == 0 || !is_ws(trim_start(s)[0]),
    decreases s.len(),
{
    if s.len() > 0 && is_ws(s[0]) {
        lemma_trim_start_head(s.drop_first());
    }
}

proof fn lemma_trim_end_shape(s: Seq<char>)
    ensures
        trim_end(s).len() <= s.len(),
        trim_end(s) == s.take(trim_end(s).len() as int),
        trim_end(s).len() == 0 || !is_ws(trim_end(s).last()),
    decreases s.len(),
{
    if s.len() > 0 && is_ws(s.last()) {
        lemma_trim_end_shape(s.drop_last());
        let t = trim_end(s.drop_last());
        assert(s.drop_last().take(t.len() as int) =~= s.take(t.len() as int));
    } else {
        assert(s.take(s.len() as int) =~= s);
    }
}

/// A trimmed text starts and ends with a non-space.
pub proof fn lemma_trim_ends(s: Seq<char>)
    ensures
        trim(s).len() == 0 || (!is_ws(trim(s)[0]) && !is_ws(trim(s).last())),
{
    lemma_trim_start_head(s);
    lemma_trim_end_shape(trim_start(s));
    let t = trim_start(s);
    if trim(s).len() > 0 {
        assert(trim(s)[0] == t.take(trim(s).len() as int)[0]);
    }
}

/// Trimming twice is trimming once.
pub proof fn lemma_trim_idempotent(s: Seq<char>)
    ensures
        trim(trim(s)) == trim(s),
{
    lemma_trim_ends(s);
    lemma_trim_noop(trim(s));
}

pub proof fn lemma_trim_noop(s: Seq<char>)
    requires
        s.len() == 0 || (!is_ws(s[0]) && !is_ws(s.last())),
    ensures
        trim(s) == s,
{
}

/// A key without whitespace at either end.
pub open spec fn is_key(k: Seq<char>) -> bool {
    &&& k.len() > 0
    &&& !is_ws(k[0])
    &&& !is_ws(k.last())
    &&& !k.contains('\n')
}

/// The line `key value`, as the serializers write it.
pub open spec fn kv_line(key: Seq<char>, v: Seq<char>) -> Seq<char> {
    key + seq![' '] + v
}

pub proof fn lemma_kv_line(key: Seq<char>, v: Seq<char>)
    requires
        is_key(key),
        is_clean(v),
    ensures
        field_of(trim(kv_line(key, v)), key) == Some(v),
        is_plain_line(kv_line(key, v)),
        has_prefix(trim(kv_line(key, v)), key),
        trim(kv_line(key, v)).len() >= key.len(),
        forall|i: int| 0 <= i < key.len() ==> #[trigger] trim(kv_line(key, v))[i] == key[i],
{
    let line = kv_line(key, v);
    assert(line[0] == key[0]);
    if v.len() > 0 {
        lemma_clean_ends(v);
        assert(line.last() == v.last());
        lemma_trim_noop(line);
        assert(line.take(key.len() as int) =~= key);
        let rest = line.skip(key.len() as int);
        assert(rest =~= seq![' '] + v);
        assert(rest.drop_first() =~= v);
        assert(trim_start(rest) == trim_start(v));
        assert(trim_start(v) == v);
        assert(trim(rest) == trim_end(v));
        assert(trim_end(v) == v);
    } else {
        assert(line =~= key.push(' '));
        assert(line.drop_last() =~= key);
        assert(trim_start(line) == line);
        assert(trim_end(line) == trim_end(key));
        assert(trim_end(key) == key);
        assert(key.take(key.len() as int) =~= key);
        assert(key.skip(key.len() as int) =~= Seq::<char>::empty());
        assert(trim(Seq::<char>::empty()) =~= Seq::<char>::empty());
        assert(v =~= Seq::<char>::empty());
    }
    assert forall|k: int| 0 <= k < line.len() implies line[k] != '\n' by {
        if k < key.len() {
            assert(line[k] == key[k]);
            if key[k] == '\n' {
                assert(key.contains('\n'));
            }
        } else if k > key.len() {
            assert(line[k] == v[k - key.len() - 1]);
            if v[k - key.len() - 1] == '\n' {
                assert(v.contains('\n'));
            }
        }
    }
    if line.len() > 0 {
        if v.len() > 0 {
            lemma_clean_ends(v);
        }
    }
}

/// A key that differs from `key` at position `i` does not match a
/// `key value` line.
pub proof fn lemma_kv_other(key: Seq<char>, v: Seq<char>, k2: Seq<char>, i: int)
    requires
        is_key(key),
        is_clean(v),
        0 <= i < key.len(),
        i < k2.len(),
        key[i] != k2[i],
    ensures
        field_of(trim(kv_line(key, v)), k2) is None,
{
    lemma_kv_line(key, v);
    let t = trim(kv_line(key, v));
    if has_prefix(t, k2) {
        assert(t.take(k2.len() as int)[i] == k2[i]);
        assert(t[i] == key[i]);
    }
}

/// A decimal number is a clean value.
pub proof fn lemma_dec_clean(n: u64)
    ensures
        is_clean(dec(n as nat)),
        dec(n as nat).len() > 0,
{
    lemma_radix_digits_shape(n as nat, 10);
    let s = dec(n as nat);
    assert(!is_ws(s[0]));
    assert(!is_ws(s[s.len() - 1]));
    lemma_trim_noop(s);
}

// ---------------------------------------------------------------------------
// Writing lines.
// ---------------------------------------------------------------------------

/// Without its final line feed, a text of plain lines whose last line is
/// nonempty still splits into the same lines.
pub proof fn lemma_lines_unlines_trimmed(ls: Seq<Seq<char>>)
    requires
        ls.len() > 0,
        forall|i: int| 0 <= i < ls.len() ==> is_plain_line(#[trigger] ls[i]),
        ls.last().len() > 0,
    ensures
        unlines(ls).len() > 0,
        unlines(ls).last() == '\n',
        lines(unlines(ls).drop_last()) == ls,
    decreases ls.len(),
{
    let l0 = ls[0];
    let tail = ls.drop_first();
    assert(unlines(ls) == l0 + seq!['\n'] + unlines(tail));
    if ls.len() == 1 {
        assert(tail.len() == 0);
        assert(unlines(tail) =~= Seq::<char>::empty());
        assert(unlines(ls).drop_last() =~= l0);
        assert(is_plain_line(ls[0]));
        assert forall|k: int| 0 <= k < l0.len() implies l0[k] != '\n' by {
            if l0[k] == '\n' {
                assert(l0.contains('\n'));
            }
        }
        lemma_first_nl_none(l0);
        assert(lines(l0) == seq![l0]);
        assert(seq![l0] =~= ls);
    } else {
        assert forall|i: int| 0 <= i < tail.len() implies is_plain_line(#[trigger] tail[i]) by {
            assert(tail[i] == ls[i + 1]);
        }
        assert(tail.last() == ls.last());
        lemma_lines_unlines_trimmed(tail);
        let rest = unlines(tail).drop_last();
        let x = unlines(ls).drop_last();
        assert(x =~= l0 + seq!['\n'] + rest);
        assert(is_plain_line(ls[0]));
        assert forall|k: int| 0 <= k < l0.len() implies x[k] != '\n' by {
            assert(x[k] == l0[k]);
            if l0[k] == '\n' {
                assert(l0.contains('\n'));
            }
        }
        assert(x[l0.len() as int] == '\n');
        lemma_first_nl_at(x, l0.len() as int);
        assert(x.take(l0.len() as int) =~= l0);
        assert(x.skip(l0.len() as int + 1) =~= rest);
        assert(strip_cr(l0) == l0);
        assert(lines(x) == seq![l0] + lines(rest));
        assert(ls =~= seq![l0] + tail);
    }
}

/// `trim` of a text of lines that starts and ends with non-space characters
/// only drops the final line feed.
pub proof fn lemma_trim_unlines(ls: Seq<Seq<char>>)
    requires
        ls.len() > 0,
        forall|i: int| 0 <= i < ls.len() ==> is_plain_line(#[trigger] ls[i]),
        ls[0].len() > 0,
        !is_ws(ls[0][0]),
        ls.last().len() > 0,
        !is_ws(ls.last().last()),
    ensures
        trim(unlines(ls)) == unlines(ls).drop_last(),
        lines(trim(unlines(ls))) == ls,
{
    lemma_lines_unlines_trimmed(ls);
    let x = unlines(ls);
    let l0 = ls[0];
    assert(x == l0 + seq!['\n'] + unlines(ls.drop_first()));
    assert(x[0] == l0[0]);
    assert(trim_start(x) == x);
    assert(is_ws(x.last()));
    assert(trim_end(x) == trim_end(x.drop_last()));
    let y = x.drop_last();
    if ls.len() == 1 {
        assert(unlines(ls.drop_first()) =~= Seq::<char>::empty());
        assert(y =~= l0);
    } else {
        assert(unlines(ls) =~= unlines(ls.drop_last()) + ls.last() + seq!['\n']) by {
            lemma_unlines_push(ls.drop_last(), ls.last());
            assert(ls.drop_last().push(ls.last()) =~= ls);
        }
        assert(y.last() == ls.last().last());
    }
    assert(y.len() > 0);
    assert(trim_end(y) == y);
}

pub proof fn lemma_unlines_push(ls: Seq<Seq<char>>, l: Seq<char>)
    ensures
        unlines(ls.push(l)) == unlines(ls) + l + seq!['\n'],
    decreases ls.len(),
{
    if ls.len() == 0 {
        assert(ls.push(l).drop_first() =~= Seq::<Seq<char>>::empty());
        assert(ls.push(l)[0] == l);
        assert(unlines(Seq::<Seq<char>>::empty()) =~= Seq::<char>::empty());
        assert(unlines(ls.push(l)) =~= l + seq!['\n']);
        assert(unlines(ls) + l + seq!['\n'] =~= l + seq!['\n']);
    } else {
        lemma_unlines_push(ls.drop_first(), l);
        assert(ls.push(l).drop_first() =~= ls.drop_first().push(l));
        assert(unlines(ls.push(l)) =~= unlines(ls) + l + seq!['\n']);
    }
}

/// Appends `line` and a line feed.
pub fn push_line(out: &mut Vec<char>, line: &str)
    ensures
        final(out)@ == old(out)@ + line@ + seq!['\n'],
{
    push_str(out, line);
    out.push('\n');
    assert(out@ =~= old(out)@ + line@ + seq!['\n']);
}

/// Appends the line `key value` and a line feed.
pub fn push_kv_chars(out: &mut Vec<char>, key: &str, v: &Vec<char>)
    ensures
        final(out)@ == old(out)@ + kv_line(key@, v@) + seq!['\n'],
{
    push_str(out, key);
    out.push(' ');
    push_chars(out, v);
    out.push('\n');
    assert(out@ =~= old(out)@ + kv_line(key@, v@) + seq!['\n']);
}

/// Appends the line `key value` and a line feed.
pub fn push_kv_str(out: &mut Vec<char>, key: &str, v: &str)
    ensures
        final(out)@ == old(out)@ + kv_line(key@, v@) + seq!['\n'],
{
    let c = chars_of(v);
    push_kv_chars(out, key, &c);
}

/// Appends the line `key n` (decimal) and a line feed.
pub fn push_kv_dec(out: &mut Vec<char>, key: &str, n: u64)
    ensures
        final(out)@ == old(out)@ + kv_line(key@, dec(n as nat)) + seq!['\n'],
{
    let mut c: Vec<char> = Vec::new();
    push_dec(&mut c, n);
    assert(c@ =~= dec(n as nat));
    push_kv_chars(out, key, &c);
}

// ---------------------------------------------------------------------------
// ASCII case folding (`to_ascii_lowercase`).
// ---------------------------------------------------------------------------

pub open spec fn ascii_lower_char(c: char) -> char {
    if 65 <= (c as u32) <= 90 {
        ((c as u32) + 32) as char
    } else {
        c
    }
}

/// `str::to_ascii_lowercase`: ASCII capitals lowered, everything else kept.
pub open spec fn ascii_lower(s: Seq<char>) -> Seq<char> {
    Seq::new(s.len(), |i: int| ascii_lower_char(s[i]))
}

pub fn to_ascii_lower_chars(v: &Vec<char>) -> (r: Vec<char>)
    ensures
        r@ == ascii_lower(v@),
{
    let mut r: Vec<char> = Vec::new();
    let mut i: usize = 0;
    while i < v.len()
        invariant
            i <= v.len(),
            r@ == ascii_lower(v@.take(i as int)),
        decreases v.len() - i,
    {
        let c = v[i];
        let u = c as u32;
        let d: char = if 65 <= u && u <= 90 {
            ((u + 32) as u8) as char
        } else {
            c
        };
        assert(d == ascii_lower_char(c));
        r.push(d);
        i = i + 1;
        assert(r@ =~= ascii_lower(v@.take(i as int)));
    }
    assert(v@.take(v.len() as int) =~= v@);
    r
}


// ---------------------------------------------------------------------------
// Searching and splitting (`str::find`, `str::split`, `split_once`).
// ---------------------------------------------------------------------------

/// `p` occurs in `s` at index `i`.
pub open spec fn occurs_at(s: Seq<char>, p: Seq<char>, i: int) -> bool {
    0 <= i && i + p.len() <= s.len() && s.subrange(i, i + p.len()) == p
}

/// `str::find`: the first index where `p` occurs in `s`.
#[verifier::opaque]
pub open spec fn find_sub(s: Seq<char>, p: Seq<char>) -> Option<int> {
    if exists|i: int| occurs_at(s, p, i) {
        Some(choose|i: int| occurs_at(s, p, i) && forall|j: int| 0 <= j < i ==> !occurs_at(s, p, j))
    } else {
        None
    }
}

/// The index found by a left-to-right scan is the one `find_sub` names.
pub proof fn lemma_find_sub_first(s: Seq<char>, p: Seq<char>, i: int)
    requires
        occurs_at(s, p, i),
        forall|j: int| 0 <= j < i ==> !occurs_at(s, p, j),
    ensures
        find_sub(s, p) == Some(i),
{
    reveal(find_sub);
    let k = choose|k: int| occurs_at(s, p, k) && forall|j: int| 0 <= j < k ==> !occurs_at(s, p, j);
    assert(occurs_at(s, p, k) && forall|j: int| 0 <= j < k ==> !occurs_at(s, p, j));
    if k < i {
        assert(!occurs_at(s, p, k));
    }
    if i < k {
        assert(!occurs_at(s, p, i));
    }
}

/// `p` occurs in `s` at `i`.
fn occurs_at_exec(s: &Vec<char>, p: &Vec<char>, i: usize) -> (b: bool)
    requires
        i + p.len() <= s.len(),
    ensures
        b == occurs_at(s@, p@, i as int),
{
    let mut k: usize = 0;
    while k < p.len()
        invariant
            i + p.len() <= s.len(),
            k <= p.len(),
            s@.subrange(i as int, i + k) == p@.take(k as int),
        decreases p.len() - k,
    {
        if s[i + k] != p[k] {
            assert(s@.subrange(i as int, i + p.len())[k as int] != p@[k as int]);
            return false;
        }
        assert(s@.subrange(i as int, i + k + 1) =~= s@.subrange(i as int, i + k).push(s@[i + k]));
        assert(p@.take(k + 1) =~= p@.take(k as int).push(p@[k as int]));
        k = k + 1;
    }
    assert(p@.take(p.len() as int) =~= p@);
    true
}

/// `s.find(p)` on character vectors.
pub fn find_chars(s: &Vec<char>, p: &Vec<char>) -> (r: Option<usize>)
    ensures
        r is None <==> find_sub(s@, p@) is None,
        r matches Some(i) ==> find_sub(s@, p@) == Some(i as int) && occurs_at(s@, p@, i as int),
{
    if p.len() > s.len() {
        assert forall|j: int| !occurs_at(s@, p@, j) by {}
        proof {
            reveal(find_sub);
        }
        return None;
    }
    let last = s.len() - p.len();
    let mut i: usize = 0;
    loop
        invariant_except_break
            p.len() <= s.len(),
            last == s.len() - p.len(),
            i <= last,
            forall|j: int| 0 <= j < i ==> !occurs_at(s@, p@, j),
        ensures
            forall|j: int| 0 <= j <= last ==> !occurs_at(s@, p@, j),
        decreases last - i,
    {
        if occurs_at_exec(s, p, i) {
            proof {
                lemma_find_sub_first(s@, p@, i as int);
            }
            return Some(i);
        }
        if i == last {
            break;
        }
        i = i + 1;
    }
    assert forall|j: int| !occurs_at(s@, p@, j) by {
        if 0 <= j && j + p@.len() <= s@.len() {
            assert(j <= last);
        }
    }
    proof {
        reveal(find_sub);
    }
    None
}

/// The part of `s` before the first `c` (all of `s` when there is none):
/// `s.split(c).next()`.
pub open spec fn before_char(s: Seq<char>, c: char) -> Seq<char> {
    match find_sub(s, seq![c]) {
        Some(i) => s.take(i),
        None => s,
    }
}

/// `s.split_once(c)`.
pub open spec fn split_once(s: Seq<char>, c: char) -> Option<(Seq<char>, Seq<char>)> {
    match find_sub(s, seq![c]) {
        Some(i) => Some((s.take(i), s.skip(i + 1))),
        None => None,
    }
}

pub fn split_once_chars(s: &Vec<char>, c: char) -> (r: Option<(Vec<char>, Vec<char>)>)
    ensures
        match split_once(s@, c) {
            Some((a, b)) => r matches Some((x, y)) && x@ == a && y@ == b,
            None => r is None,
        },
{
    let mut pv: Vec<char> = Vec::new();
    pv.push(c);
    assert(pv@ =~= seq![c]);
    match find_chars(s, &pv) {
        Some(i) => {
            assert(occurs_at(s@, pv@, i as int) && pv@.len() == 1);
            assert(i + 1 <= s@.len());
            assert(s@.len() == s.len());
            let a = sub_chars(s, 0, i);
            let b = sub_chars(s, i + 1, s.len());
            assert(a@ =~= s@.take(i as int));
            assert(b@ =~= s@.skip(i + 1));
            Some((a, b))
        },
        None => None,
    }
}

pub fn before_char_chars(s: &Vec<char>, c: char) -> (r: Vec<char>)
    ensures
        r@ == before_char(s@, c),
{
    let mut pv: Vec<char> = Vec::new();
    pv.push(c);
    assert(pv@ =~= seq![c]);
    match find_chars(s, &pv) {
        Some(i) => {
            let a = sub_chars(s, 0, i);
            assert(a@ =~= s@.take(i as int));
            a
        },
        None => {
            let a = sub_chars(s, 0, s.len());
            assert(a@ =~= s@);
            a
        },
    }
}

/// `s.split(c)`: the pieces between occurrences of `c` (one more piece than
/// there are occurrences).
pub open spec fn split_char(s: Seq<char>, c: char) -> Seq<Seq<char>>
    decreases s.len(),
{
    if s.len() == 0 {
        seq![seq![]]
    } else {
        let r = split_char(s.drop_last(), c);
        if s.last() == c {
            r.push(seq![])
        } else {
            r.update(r.len() - 1, r.last().push(s.last()))
        }
    }
}

pub proof fn lemma_split_char_len(s: Seq<char>, c: char)
    ensures
        split_char(s, c).len() >= 1,
    decreases s.len(),
{
    if s.len() > 0 {
        lemma_split_char_len(s.drop_last(), c);
    }
}

pub fn split_chars(s: &Vec<char>, c: char) -> (r: Vec<Vec<char>>)
    ensures
        views(r@) == split_char(s@, c),
{
    let mut out: Vec<Vec<char>> = Vec::new();
    let mut cur: Vec<char> = Vec::new();
    let mut i: usize = 0;
    proof {
        assert(s@.take(0) =~= Seq::<char>::empty());
        assert(views(out@).push(cur@) =~= split_char(s@.take(0), c));
    }
    while i < s.len()
        invariant
            i <= s.len(),
            views(out@).push(cur@) == split_char(s@.take(i as int), c),
        decreases s.len() - i,
    {
        let ch = s[i];
        let ghost prev = s@.take(i as int);
        proof {
            assert(s@.take(i + 1).drop_last() =~= prev);
            assert(s@.take(i + 1).last() == ch);
            lemma_split_char_len(prev, c);
        }
        if ch == c {
            let done = cur;
            let ghost ov = views(out@);
            out.push(done);
            cur = Vec::new();
            proof {
                assert(views(out@) =~= ov.push(done@));
                assert(views(out@).push(cur@) =~= split_char(prev, c).push(seq![]));
            }
        } else {
            let ghost oc = cur@;
            cur.push(ch);
            proof {
                let r = split_char(prev, c);
                assert(r.update(r.len() - 1, r.last().push(ch)) =~= views(out@).push(cur@));
            }
        }
        i = i + 1;
    }
    proof {
        assert(s@.take(s.len() as int) =~= s@);
    }
    let ghost ov = views(out@);
    let last = cur;
    out.push(last);
    assert(views(out@) =~= ov.push(last@));
    out
}

/// `s.trim_end_matches(c)`: every trailing `c` removed.
pub open spec fn trim_end_char(s: Seq<char>, c: char) -> Seq<char>
    decreases s.len(),
{
    if s.len() > 0 && s.last() == c {
        trim_end_char(s.drop_last(), c)
    } else {
        s
    }
}

pub fn trim_end_char_chars(s: &Vec<char>, c: char) -> (r: Vec<char>)
    ensures
        r@ == trim_end_char(s@, c),
{
    let mut n = s.len();
    assert(s@.take(n as int) =~= s@);
    while n > 0 && s[n - 1] == c
        invariant
            n <= s.len(),
            trim_end_char(s@, c) == trim_end_char(s@.take(n as int), c),
        decreases n,
    {
        assert(s@.take(n as int).drop_last() =~= s@.take(n - 1));
        n = n - 1;
    }
    let r = sub_chars(s, 0, n);
    assert(r@ =~= s@.take(n as int));
    r
}

/// `s.replace(c, "")`: every `c` removed.
pub open spec fn remove_char(s: Seq<char>, c: char) -> Seq<char> {
    s.filter(|x: char| x != c)
}

pub fn remove_char_chars(s: &Vec<char>, c: char) -> (r: Vec<char>)
    ensures
        r@ == remove_char(s@, c),
{
    let mut r: Vec<char> = Vec::new();
    let mut i: usize = 0;
    while i < s.len()
        invariant
            i <= s.len(),
            r@ == remove_char(s@.take(i as int), c),
        decreases s.len() - i,
    {
        let ch = s[i];
        proof {
            assert(s@.take(i + 1).drop_last() =~= s@.take(i as int));
            reveal(Seq::filter);
        }
        if ch != c {
            r.push(ch);
        }
        i = i + 1;
    }
    assert(s@.take(s.len() as int) =~= s@);
    r
}

} // verus!
