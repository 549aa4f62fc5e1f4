//! Ordering of directory entries and pins: lexicographic keys made of two
//! numbers and a text, and a stable sort over keyed items.

use vstd::prelude::*;

verus! {

/// A sort key: compared by `major`, then `minor`, then `text` (character by
/// character, by code point; a proper prefix sorts first).
pub struct RankKey {
    pub major: u64,
    pub minor: u64,
    pub text: Vec<char>,
}

/// An item together with its sort key.
pub struct Keyed<T> {
    pub key: RankKey,
    pub item: T,
}

pub open spec fn key_view(k: RankKey) -> (u64, u64, Seq<char>) {
    (k.major, k.minor, k.text@)
}

pub open spec fn key_of<T>(e: Keyed<T>) -> (u64, u64, Seq<char>) {
    key_view(e.key)
}

/// Strict lexicographic order on texts (the order of `str` comparison).
pub open spec fn text_lt(a: Seq<char>, b: Seq<char>) -> bool
    decreases a.len(),
{
    if a.len() == 0 {
        b.len() > 0
    } else if b.len() == 0 {
        false
    } else if a[0] != b[0] {
        a[0] < b[0]
    } else {
        text_lt(a.drop_first(), b.drop_first())
    }
}

pub open spec fn key_lt(a: (u64, u64, Seq<char>), b: (u64, u64, Seq<char>)) -> bool {
    a.0 < b.0 || (a.0 == b.0 && (a.1 < b.1 || (a.1 == b.1 && text_lt(a.2, b.2))))
}

pub proof fn lemma_text_lt_irrefl(a: Seq<char>)
    ensures
        !text_lt(a, a),
    decreases a.len(),
{
    if a.len() > 0 {
        lemma_text_lt_irrefl(a.drop_first());
    }
}

pub proof fn lemma_text_lt_trans(a: Seq<char>, b: Seq<char>, c: Seq<char>)
    requires
        text_lt(a, b),
        text_lt(b, c),
    ensures
        text_lt(a, c),
    decreases a.len(),
{
    if a.len() > 0 && b.len() > 0 && c.len() > 0 {
        if a[0] == b[0] && b[0] == c[0] {
            lemma_text_lt_trans(a.drop_first(), b.drop_first(), c.drop_first());
        }
    }
}

pub proof fn lemma_text_lt_total(a: Seq<char>, b: Seq<char>)
    ensures
        a == b || text_lt(a, b) || text_lt(b, a),
    decreases a.len(),
{
    if a.len() > 0 && b.len() > 0 {
        if a[0] == b[0] {
            lemma_text_lt_total(a.drop_first(), b.drop_first());
            if a.drop_first() == b.drop_first() {
                assert(a =~= seq![a[0]] + a.drop_first());
                assert(b =~= seq![b[0]] + b.drop_first());
            }
        }
    } else if a.len() == 0 && b.len() == 0 {
        assert(a =~= b);
    }
}

pub proof fn lemma_key_lt_irrefl(a: (u64, u64, Seq<char>))
    ensures
        !key_lt(a, a),
{
    lemma_text_lt_irrefl(a.2);
}

pub proof fn lemma_key_lt_trans(a: (u64, u64, Seq<char>), b: (u64, u64, Seq<char>), c: (u64, u64, Seq<char>))
    requires
        key_lt(a, b),
        key_lt(b, c),
    ensures
        key_lt(a, c),
{
    if a.0 == b.0 && b.0 == c.0 && a.1 == b.1 && b.1 == c.1 {
        lemma_text_lt_trans(a.2, b.2, c.2);
    }
}

/// Not-less composes with less.
pub proof fn lemma_key_le_lt(a: (u64, u64, Seq<char>), b: (u64, u64, Seq<char>), c: (u64, u64, Seq<char>))
    requires
        !key_lt(b, a),
        key_lt(b, c),
    ensures
        key_lt(a, c),
{
    lemma_key_lt_total(a, b);
    if a != b {
        lemma_key_lt_trans(a, b, c);
    }
}

/// Less composes with not-less.
pub proof fn lemma_key_lt_le(a: (u64, u64, Seq<char>), b: (u64, u64, Seq<char>), c: (u64, u64, Seq<char>))
    requires
        key_lt(a, b),
        !key_lt(c, b),
    ensures
        key_lt(a, c),
{
    lemma_key_lt_total(b, c);
    if b != c {
        lemma_key_lt_trans(a, b, c);
    }
}

pub proof fn lemma_key_lt_total(a: (u64, u64, Seq<char>), b: (u64, u64, Seq<char>))
    ensures
        a == b || key_lt(a, b) || key_lt(b, a),
{
    lemma_text_lt_total(a.2, b.2);
}

pub fn text_less(a: &Vec<char>, b: &Vec<char>) -> (r: bool)
    ensures
        r == text_lt(a@, b@),
{
    let mut i: usize = 0;
    assert(a@.skip(0) =~= a@);
    assert(b@.skip(0) =~= b@);
    while i < a.len() && i < b.len() && a[i] == b[i]
        invariant
            i <= a@.len(),
            i <= b@.len(),
            a@.take(i as int) == b@.take(i as int),
            text_lt(a@, b@) == text_lt(a@.skip(i as int), b@.skip(i as int)),
        decreases a.len() - i,
    {
        proof {
            let sa = a@.skip(i as int);
            let sb = b@.skip(i as int);
            assert(sa[0] == sb[0]);
            assert(sa.drop_first() =~= a@.skip(i + 1));
            assert(sb.drop_first() =~= b@.skip(i + 1));
            assert(a@.take(i + 1) =~= a@.take(i as int).push(a@[i as int]));
            assert(b@.take(i + 1) =~= b@.take(i as int).push(b@[i as int]));
        }
        i = i + 1;
    }
    proof {
        let sa = a@.skip(i as int);
        let sb = b@.skip(i as int);
        if i < a.len() && i < b.len() {
            assert(sa[0] == a@[i as int]);
            assert(sb[0] == b@[i as int]);
        }
    }
    if i == a.len() {
        i < b.len()
    } else if i == b.len() {
        false
    } else {
        a[i] < b[i]
    }
}

pub fn key_less(a: &RankKey, b: &RankKey) -> (r: bool)
    ensures
        r == key_lt(key_view(*a), key_view(*b)),
{
    if a.major != b.major {
        a.major < b.major
    } else if a.minor != b.minor {
        a.minor < b.minor
    } else {
        text_less(&a.text, &b.text)
    }
}

/// The items of `s` whose key is `k`, in order.
pub open spec fn group<T>(s: Seq<Keyed<T>>, k: (u64, u64, Seq<char>)) -> Seq<Keyed<T>>
    decreases s.len(),
{
    if s.len() == 0 {
        seq![]
    } else if key_of(s.last()) == k {
        group(s.drop_last(), k).push(s.last())
    } else {
        group(s.drop_last(), k)
    }
}

/// No item is followed by one with a smaller key.
pub open spec fn sorted_by_key<T>(s: Seq<Keyed<T>>) -> bool {
    forall|i: int, j: int| 0 <= i < j < s.len() ==> !key_lt(key_of(s[j]), key_of(s[i]))
}

/// A stable sort of `orig`: sorted by key, and the items of each key keep
/// their relative order.
pub open spec fn is_stable_sort_of<T>(r: Seq<Keyed<T>>, orig: Seq<Keyed<T>>) -> bool {
    &&& sorted_by_key(r)
    &&& forall|k: (u64, u64, Seq<char>)| #[trigger] group(r, k) == group(orig, k)
    &&& r.len() == orig.len()
}

pub proof fn lemma_group_add<T>(a: Seq<Keyed<T>>, b: Seq<Keyed<T>>, k: (u64, u64, Seq<char>))
    ensures
        group(a + b, k) == group(a, k) + group(b, k),
    decreases b.len(),
{
    if b.len() == 0 {
        assert(a + b =~= a);
        assert(group(a, k) + group(b, k) =~= group(a, k));
    } else {
        lemma_group_add(a, b.drop_last(), k);
        assert((a + b).drop_last() =~= a + b.drop_last());
        assert((a + b).last() == b.last());
        if key_of(b.last()) == k {
            assert(group(a, k) + group(b, k) =~= (group(a, k) + group(b.drop_last(), k)).push(
                b.last(),
            ));
        }
    }
}

pub proof fn lemma_group_single<T>(x: Keyed<T>, k: (u64, u64, Seq<char>))
    ensures
        group(seq![x], k) == (if key_of(x) == k {
            seq![x]
        } else {
            Seq::<Keyed<T>>::empty()
        }),
{
    assert(seq![x].drop_last() =~= Seq::<Keyed<T>>::empty());
    assert(seq![x].last() == x);
    assert(group(Seq::<Keyed<T>>::empty(), k) =~= Seq::<Keyed<T>>::empty());
    if key_of(x) == k {
        assert(Seq::<Keyed<T>>::empty().push(x) =~= seq![x]);
    }
}

/// Items of a key all after a larger-keyed part contribute nothing there.
pub proof fn lemma_group_none<T>(s: Seq<Keyed<T>>, k: (u64, u64, Seq<char>))
    requires
        forall|i: int| 0 <= i < s.len() ==> key_of(#[trigger] s[i]) != k,
    ensures
        group(s, k) == Seq::<Keyed<T>>::empty(),
    decreases s.len(),
{
    if s.len() > 0 {
        assert(key_of(s[s.len() - 1]) != k);
        lemma_group_none(s.drop_last(), k);
    }
}

/// The item `x` in its place among sorted items: after every item whose key
/// is not greater, before every item whose key is greater.
fn insert_sorted<T>(r: &mut Vec<Keyed<T>>, x: Keyed<T>)
    requires
        sorted_by_key(old(r)@),
    ensures
        sorted_by_key(final(r)@),
        forall|k: (u64, u64, Seq<char>)| #[trigger]
            group(final(r)@, k) == group(old(r)@.push(x), k),
        final(r)@.len() == old(r)@.len() + 1,
{
    let n = r.len();
    let mut p: usize = 0;
    while p < n && !key_less(&x.key, &r[p].key)
        invariant
            p <= n == r@.len(),
            r@ == old(r)@,
            forall|i: int| 0 <= i < p ==> !key_lt(key_of(x), #[trigger] key_of(r@[i])),
        decreases n - p,
    {
        p = p + 1;
    }
    let ghost s = r@;
    let ghost xk = key_of(x);
    proof {
        // every item from `p` on has a greater key than `x`
        assert forall|j: int| p <= j < n implies key_lt(xk, #[trigger] key_of(s[j])) by {
            assert(key_lt(xk, key_of(s[p as int])));
            if j > p {
                assert(!key_lt(key_of(s[j]), key_of(s[p as int])));
                lemma_key_lt_le(xk, key_of(s[p as int]), key_of(s[j]));
            }
        }
    }
    r.insert(p, x);
    proof {
        let t = r@;
        assert(t =~= s.take(p as int) + seq![x] + s.skip(p as int));
        assert forall|i: int, j: int| 0 <= i < j < t.len() implies !key_lt(
            key_of(t[j]),
            key_of(t[i]),
        ) by {
            if j < p {
                assert(t[i] == s[i] && t[j] == s[j]);
            } else if j == p {
                assert(t[i] == s[i]);
                assert(t[j] == x);
            } else if i == p {
                assert(t[j] == s[j - 1]);
                assert(key_lt(xk, key_of(s[j - 1])));
                if key_lt(key_of(s[j - 1]), xk) {
                    lemma_key_lt_trans(xk, key_of(s[j - 1]), xk);
                    lemma_key_lt_irrefl(xk);
                }
            } else if i < p {
                assert(t[i] == s[i] && t[j] == s[j - 1]);
            } else {
                assert(t[i] == s[i - 1] && t[j] == s[j - 1]);
            }
        }
        assert forall|k: (u64, u64, Seq<char>)| #[trigger] group(t, k) == group(s.push(x), k) by {
            let a = s.take(p as int);
            let b = s.skip(p as int);
            lemma_group_add(a + seq![x], b, k);
            lemma_group_add(a, seq![x], k);
            lemma_group_single(x, k);
            assert(s =~= a + b);
            lemma_group_add(a, b, k);
            assert(s.push(x) =~= s + seq![x]);
            lemma_group_add(s, seq![x], k);
            if k == xk {
                assert forall|i: int| 0 <= i < b.len() implies key_of(#[trigger] b[i]) != k by {
                    assert(b[i] == s[p + i]);
                    assert(key_lt(xk, key_of(s[p + i])));
                    lemma_key_lt_irrefl(xk);
                }
                lemma_group_none(b, k);
                assert(group(t, k) =~= group(s.push(x), k));
            } else {
                assert(group(t, k) =~= group(s.push(x), k));
            }
        }
    }
}

/// Sorts keyed items by key, keeping the order of items with equal keys
/// (the behaviour of `slice::sort_by` with a key comparison).
pub fn stable_sort<T>(v: Vec<Keyed<T>>) -> (r: Vec<Keyed<T>>)
    ensures
        is_stable_sort_of(r@, v@),
{
    let ghost orig = v@;
    let mut rest = v;
    let mut out: Vec<Keyed<T>> = Vec::new();
    let mut i: usize = 0;
    let n = rest.len();
    while rest.len() > 0
        invariant
            orig.len() == n,
            i + rest@.len() == n,
            rest@ == orig.skip(i as int),
            sorted_by_key(out@),
            out@.len() == i,
            forall|k: (u64, u64, Seq<char>)| #[trigger]
                group(out@, k) == group(orig.take(i as int), k),
        decreases rest.len(),
    {
        let x = rest.remove(0);
        let ghost out0 = out@;
        assert(forall|k: (u64, u64, Seq<char>)| #[trigger]
            group(out0, k) == group(orig.take(i as int), k));
        proof {
            assert(x == orig[i as int]);
            assert(orig.take(i + 1) =~= orig.take(i as int).push(x));
        }
        insert_sorted(&mut out, x);
        proof {
            assert forall|k: (u64, u64, Seq<char>)| #[trigger]
                group(out@, k) == group(orig.take(i + 1), k) by {
                assert(group(out@, k) == group(out0.push(x), k));
                assert(group(out0, k) == group(orig.take(i as int), k));
                assert(out0.push(x).drop_last() =~= out0);
                assert(out0.push(x).last() == x);
                assert(orig.take(i + 1).drop_last() =~= orig.take(i as int));
                assert(orig.take(i + 1).last() == x);
                assert(orig.take(i + 1).len() > 0);
            }
            assert(rest@ =~= orig.skip(i + 1));
        }
        i = i + 1;
    }
    proof {
        assert(orig.take(n as int) =~= orig);
    }
    out
}

/// Membership in a stable sort: the same items, each as often.
pub proof fn lemma_group_member<T>(s: Seq<Keyed<T>>, x: Keyed<T>)
    ensures
        s.contains(x) <==> group(s, key_of(x)).contains(x),
    decreases s.len(),
{
    if s.len() > 0 {
        lemma_group_member(s.drop_last(), x);
        let g = group(s.drop_last(), key_of(x));
        if s.contains(x) {
            let i = choose|i: int| 0 <= i < s.len() && s[i] == x;
            if i < s.len() - 1 {
                assert(s.drop_last()[i] == x);
                assert(s.drop_last().contains(x));
                let j = choose|j: int| 0 <= j < g.len() && g[j] == x;
                if key_of(s.last()) == key_of(x) {
                    assert(g.push(s.last())[j] == x);
                }
            } else {
                if key_of(s.last()) == key_of(x) {
                    assert(g.push(s.last())[g.len() as int] == x);
                }
            }
        }
        if group(s, key_of(x)).contains(x) {
            let j = choose|j: int| 0 <= j < group(s, key_of(x)).len() && group(s, key_of(x))[j]
                == x;
            if key_of(s.last()) == key_of(x) {
                if j < g.len() {
                    assert(g[j] == x);
                    let i = choose|i: int| 0 <= i < s.drop_last().len() && s.drop_last()[i] == x;
                    assert(s[i] == x);
                } else {
                    assert(s[s.len() - 1] == x);
                }
            } else {
                assert(g[j] == x);
                let i = choose|i: int| 0 <= i < s.drop_last().len() && s.drop_last()[i] == x;
                assert(s[i] == x);
            }
        }
    }
}

// ---------------------------------------------------------------------------
// Stable sorting stated over the items' views.
// ---------------------------------------------------------------------------

pub open spec fn seq_views<T: View>(s: Seq<T>) -> Seq<T::V> {
    s.map_values(|x: T| x@)
}

pub open spec fn item_views<T: View>(s: Seq<Keyed<T>>) -> Seq<T::V> {
    s.map_values(|e: Keyed<T>| e.item@)
}

/// The elements of `s` whose key under `f` is `k`, in order.
pub open spec fn group_by<V>(s: Seq<V>, f: spec_fn(V) -> (u64, u64, Seq<char>), k: (
    u64,
    u64,
    Seq<char>,
)) -> Seq<V>
    decreases s.len(),
{
    if s.len() == 0 {
        seq![]
    } else if f(s.last()) == k {
        group_by(s.drop_last(), f, k).push(s.last())
    } else {
        group_by(s.drop_last(), f, k)
    }
}

pub open spec fn sorted_by<V>(s: Seq<V>, f: spec_fn(V) -> (u64, u64, Seq<char>)) -> bool {
    forall|i: int, j: int| 0 <= i < j < s.len() ==> !key_lt(f(s[j]), f(s[i]))
}

/// `r` is `s` stably sorted by the key `f`: sorted, and the elements of
/// each key in the order they had in `s`.
pub open spec fn is_stable_sort_by<V>(
    r: Seq<V>,
    s: Seq<V>,
    f: spec_fn(V) -> (u64, u64, Seq<char>),
) -> bool {
    &&& r.len() == s.len()
    &&& sorted_by(r, f)
    &&& forall|k: (u64, u64, Seq<char>)| #[trigger] group_by(r, f, k) == group_by(s, f, k)
}

proof fn lemma_group_views<T: View>(
    ks: Seq<Keyed<T>>,
    f: spec_fn(T::V) -> (u64, u64, Seq<char>),
    k: (u64, u64, Seq<char>),
)
    requires
        forall|i: int| 0 <= i < ks.len() ==> key_of(#[trigger] ks[i]) == f(ks[i].item@),
    ensures
        item_views(group(ks, k)) == group_by(item_views(ks), f, k),
    decreases ks.len(),
{
    if ks.len() > 0 {
        let d = ks.drop_last();
        assert forall|i: int| 0 <= i < d.len() implies key_of(#[trigger] d[i]) == f(d[i].item@) by {
            assert(d[i] == ks[i]);
        }
        lemma_group_views(d, f, k);
        assert(item_views(ks).drop_last() =~= item_views(d));
        assert(item_views(ks).last() == ks.last().item@);
        assert(key_of(ks[ks.len() - 1]) == f(ks[ks.len() - 1].item@));
        if key_of(ks.last()) == k {
            assert(item_views(group(d, k).push(ks.last())) =~= item_views(group(d, k)).push(
                ks.last().item@,
            ));
        }
    }
}

/// Sorts items stably by keys computed beside them; the keys agree with the
/// spec key `f` of each item.
pub fn sort_by_spec_key<T: View>(
    ks: Vec<Keyed<T>>,
    Ghost(f): Ghost<spec_fn(T::V) -> (u64, u64, Seq<char>)>,
) -> (r: Vec<T>)
    requires
        forall|i: int| 0 <= i < ks@.len() ==> key_of(#[trigger] ks@[i]) == f(ks@[i].item@),
    ensures
        is_stable_sort_by(seq_views(r@), item_views(ks@), f),
{
    let ghost orig = ks@;
    let sorted = stable_sort(ks);
    let ghost s = sorted@;
    proof {
        assert forall|i: int| 0 <= i < s.len() implies key_of(#[trigger] s[i]) == f(s[i].item@) by {
            lemma_group_member(s, s[i]);
            assert(group(s, key_of(s[i])) == group(orig, key_of(s[i])));
            assert(s.contains(s[i]));
            lemma_group_member(orig, s[i]);
            let j = choose|j: int| 0 <= j < orig.len() && orig[j] == s[i];
            assert(key_of(orig[j]) == f(orig[j].item@));
        }
    }
    let mut rest = sorted;
    let mut out: Vec<T> = Vec::new();
    let mut i: usize = 0;
    let n = rest.len();
    while rest.len() > 0
        invariant
            s.len() == n,
            i + rest@.len() == n,
            rest@ == s.skip(i as int),
            seq_views(out@) == item_views(s.take(i as int)),
        decreases rest.len(),
    {
        let e = rest.remove(0);
        proof {
            assert(e == s[i as int]);
            assert(s.take(i + 1) =~= s.take(i as int).push(e));
        }
        let ghost old_out = out@;
        let ghost ev = e.item@;
        let it = e.item;
        assert(it@ == ev);
        out.push(it);
        proof {
            assert(out@ == old_out.push(it));
            assert(seq_views(out@) =~= seq_views(old_out).push(ev));
            assert(item_views(s.take(i + 1)) =~= item_views(s.take(i as int)).push(ev));
            assert(seq_views(out@) =~= item_views(s.take(i + 1)));
            assert(rest@ =~= s.skip(i + 1));
        }
        i = i + 1;
    }
    proof {
        assert(s.take(n as int) =~= s);
        assert forall|k: (u64, u64, Seq<char>)| #[trigger]
            group_by(item_views(s), f, k) == group_by(item_views(orig), f, k) by {
            lemma_group_views(s, f, k);
            lemma_group_views(orig, f, k);
        }
        assert forall|a: int, b: int| 0 <= a < b < item_views(s).len() implies !key_lt(
            f(item_views(s)[b]),
            f(item_views(s)[a]),
        ) by {
            assert(key_of(s[a]) == f(s[a].item@));
            assert(key_of(s[b]) == f(s[b].item@));
        }
    }
    out
}

/// An element is in a sequence exactly when it is in its key's group.
pub proof fn lemma_group_by_member<V>(s: Seq<V>, f: spec_fn(V) -> (u64, u64, Seq<char>), x: V)
    ensures
        s.contains(x) <==> group_by(s, f, f(x)).contains(x),
    decreases s.len(),
{
    if s.len() > 0 {
        lemma_group_by_member(s.drop_last(), f, x);
        let g = group_by(s.drop_last(), f, f(x));
        if s.contains(x) {
            let i = choose|i: int| 0 <= i < s.len() && s[i] == x;
            if i < s.len() - 1 {
                assert(s.drop_last()[i] == x);
                assert(s.drop_last().contains(x));
                let j = choose|j: int| 0 <= j < g.len() && g[j] == x;
                if f(s.last()) == f(x) {
                    assert(g.push(s.last())[j] == x);
                }
            } else {
                assert(g.push(s.last())[g.len() as int] == x);
            }
        }
        if group_by(s, f, f(x)).contains(x) {
            let gg = group_by(s, f, f(x));
            let j = choose|j: int| 0 <= j < gg.len() && gg[j] == x;
            if f(s.last()) == f(x) {
                if j < g.len() {
                    assert(g[j] == x);
                    let i = choose|i: int| 0 <= i < s.drop_last().len() && s.drop_last()[i] == x;
                    assert(s[i] == x);
                } else {
                    assert(s[s.len() - 1] == x);
                }
            } else {
                assert(g[j] == x);
                let i = choose|i: int| 0 <= i < s.drop_last().len() && s.drop_last()[i] == x;
                assert(s[i] == x);
            }
        }
    }
}

/// Sorts items stably by the key that `key` computes for each; `key` agrees
/// with the spec key `f`.
pub fn sort_with_key<T: View, F: Fn(&T) -> RankKey>(
    v: Vec<T>,
    key: F,
    Ghost(f): Ghost<spec_fn(T::V) -> (u64, u64, Seq<char>)>,
) -> (r: Vec<T>)
    requires
        forall|x: &T| #[trigger] key.requires((x,)),
        forall|x: &T, k: RankKey| #[trigger] key.ensures((x,), k) ==> key_view(k) == f(x@),
    ensures
        is_stable_sort_by(seq_views(r@), seq_views(v@), f),
{
    let ghost s = seq_views(v@);
    let n = v.len();
    let mut rest = v;
    let mut ks: Vec<Keyed<T>> = Vec::new();
    while rest.len() > 0
        invariant
            ks@.len() + rest@.len() == n,
            s.len() == n,
            seq_views(rest@) == s.skip(ks@.len() as int),
            item_views(ks@) == s.take(ks@.len() as int),
            forall|i: int| 0 <= i < ks@.len() ==> key_of(#[trigger] ks@[i]) == f(ks@[i].item@),
            forall|x: &T| #[trigger] key.requires((x,)),
            forall|x: &T, k: RankKey| #[trigger] key.ensures((x,), k) ==> key_view(k) == f(x@),
        decreases rest.len(),
    {
        let ghost old_rest = rest@;
        let e = rest.remove(0);
        let ghost k = ks@.len() as int;
        proof {
            assert(seq_views(old_rest)[0] == old_rest[0]@);
            assert(s.skip(k)[0] == s[k]);
            assert(rest@ =~= old_rest.drop_first());
            assert(seq_views(rest@) =~= seq_views(old_rest).drop_first());
            assert(seq_views(rest@) =~= s.skip(k + 1));
        }
        let kk = key(&e);
        let ghost ev = e@;
        let ghost old_ks = ks@;
        ks.push(Keyed { key: kk, item: e });
        proof {
            assert(ks@ == old_ks.push(ks@[k]));
            assert(ks@[k].item@ == ev);
            assert(key_of(ks@[k]) == f(ev));
            assert(item_views(ks@) =~= s.take(k + 1));
        }
    }
    proof {
        assert(s.take(n as int) =~= s);
    }
    sort_by_spec_key(ks, Ghost(f))
}

/// An element of a stable sort comes from the sorted sequence.
pub proof fn lemma_stable_sort_member<V>(
    r: Seq<V>,
    s: Seq<V>,
    f: spec_fn(V) -> (u64, u64, Seq<char>),
    i: int,
)
    requires
        is_stable_sort_by(r, s, f),
        0 <= i < r.len(),
    ensures
        s.contains(r[i]),
{
    lemma_group_by_member(r, f, r[i]);
    assert(r.contains(r[i]));
    assert(group_by(r, f, f(r[i])) == group_by(s, f, f(r[i])));
    lemma_group_by_member(s, f, r[i]);
}

proof fn lemma_group_by_drop_last<V>(s: Seq<V>, f: spec_fn(V) -> (u64, u64, Seq<char>), k: (
    u64,
    u64,
    Seq<char>,
))
    requires
        s.len() > 0,
    ensures
        group_by(s.drop_last(), f, k) == if f(s.last()) == k {
            group_by(s, f, k).drop_last()
        } else {
            group_by(s, f, k)
        },
{
    if f(s.last()) == k {
        assert(group_by(s, f, k) == group_by(s.drop_last(), f, k).push(s.last()));
        assert(group_by(s, f, k).drop_last() =~= group_by(s.drop_last(), f, k));
    }
}

/// Two stable sorts of one sequence by one key are the same sequence: the
/// order a listing is given in is determined.
pub proof fn lemma_stable_sort_unique<V>(
    r1: Seq<V>,
    r2: Seq<V>,
    s: Seq<V>,
    f: spec_fn(V) -> (u64, u64, Seq<char>),
)
    requires
        is_stable_sort_by(r1, s, f),
        is_stable_sort_by(r2, s, f),
    ensures
        r1 == r2,
{
    lemma_sorted_groups_unique(r1, r2, f);
}

proof fn lemma_sorted_groups_unique<V>(r1: Seq<V>, r2: Seq<V>, f: spec_fn(V) -> (u64, u64, Seq<char>))
    requires
        r1.len() == r2.len(),
        sorted_by(r1, f),
        sorted_by(r2, f),
        forall|k: (u64, u64, Seq<char>)| #[trigger] group_by(r1, f, k) == group_by(r2, f, k),
    ensures
        r1 == r2,
    decreases r1.len(),
{
    if r1.len() == 0 {
        assert(r1 =~= r2);
    } else {
        let n = r1.len() as int;
        let x1 = r1.last();
        let x2 = r2.last();
        let k1 = f(x1);
        let k2 = f(x2);
        // x2 occurs in r1, so its key is at most the last key of r1, and
        // symmetrically.
        lemma_group_by_member(r2, f, x2);
        assert(r2[n - 1] == x2);
        assert(r2.contains(x2));
        assert(group_by(r1, f, k2) == group_by(r2, f, k2));
        lemma_group_by_member(r1, f, x2);
        let j1 = choose|j: int| 0 <= j < r1.len() && r1[j] == x2;
        if j1 < n - 1 {
            assert(!key_lt(f(r1[n - 1]), f(r1[j1])));
        }
        lemma_group_by_member(r1, f, x1);
        assert(r1[n - 1] == x1);
        assert(r1.contains(x1));
        assert(group_by(r1, f, k1) == group_by(r2, f, k1));
        lemma_group_by_member(r2, f, x1);
        let j2 = choose|j: int| 0 <= j < r2.len() && r2[j] == x1;
        if j2 < n - 1 {
            assert(!key_lt(f(r2[n - 1]), f(r2[j2])));
        }
        lemma_key_lt_irrefl(k1);
        lemma_key_lt_irrefl(k2);
        assert(!key_lt(k1, k2));
        assert(!key_lt(k2, k1));
        lemma_key_lt_total(k1, k2);
        assert(k1 == k2);
        // Both sequences end with the last element of that key's group.
        assert(group_by(r1, f, k1) == group_by(r1.drop_last(), f, k1).push(x1));
        assert(group_by(r2, f, k1) == group_by(r2.drop_last(), f, k1).push(x2));
        assert(group_by(r1, f, k1).last() == x1);
        assert(x1 == x2);
        let d1 = r1.drop_last();
        let d2 = r2.drop_last();
        assert forall|k: (u64, u64, Seq<char>)| #[trigger] group_by(d1, f, k) == group_by(d2, f, k) by {
            lemma_group_by_drop_last(r1, f, k);
            lemma_group_by_drop_last(r2, f, k);
            assert(group_by(r1, f, k) == group_by(r2, f, k));
        }
        assert(sorted_by(d1, f)) by {
            assert forall|a: int, b: int| 0 <= a < b < d1.len() implies !key_lt(f(d1[b]), f(d1[a])) by {
                assert(d1[a] == r1[a] && d1[b] == r1[b]);
            }
        }
        assert(sorted_by(d2, f)) by {
            assert forall|a: int, b: int| 0 <= a < b < d2.len() implies !key_lt(f(d2[b]), f(d2[a])) by {
                assert(d2[a] == r2[a] && d2[b] == r2[b]);
            }
        }
        lemma_sorted_groups_unique(d1, d2, f);
        assert(r1 =~= d1.push(x1));
        assert(r2 =~= d2.push(x2));
    }
}

} // verus!
