//! The coin directory: which manifests a registry lists, in which order,
//! and which of them a search keeps.

use vstd::prelude::*;

use crate::error::{MemError, MemErrorView};
use crate::order::{
    key_lt, key_of, lemma_text_lt_irrefl, lemma_text_lt_total, sort_by_spec_key, text_less,
    text_lt, Keyed, RankKey,
};
use crate::order::{is_stable_sort_by, lemma_stable_sort_unique, lemma_text_lt_trans, seq_views, sorted_by};
use crate::text::{ascii_lower, chars_eq_str, chars_of, push_str, string_of, to_ascii_lower_chars};
use crate::vault::{normalize_pk, normalize_pk_spec};
use crate::wire::{ChannelCoinManifest, ChannelCoinView, GdirCoinManifest, GdirCoinView};

verus! {

#[derive(Clone, Copy, Debug, PartialEq, Eq, Structural)]
pub enum ChannelSortKey {
    FrameCount,
    LastEpoch,
    MemoryBytes,
    HostedSeconds,
    MemoryWeightSeconds,
}

#[derive(Clone, Copy, Debug, PartialEq, Eq, Structural)]
pub enum GdirSortKey {
    ContribOps,
    ContribBytes,
    ContribSeconds,
}

#[derive(Clone, Copy, Debug, PartialEq, Eq, Structural)]
pub enum SortOrder {
    Asc,
    Desc,
}

impl Default for SortOrder {
    fn default() -> (o: Self)
        ensures
            o == SortOrder::Desc,
    {
        SortOrder::Desc
    }
}

/// Legacy alias.
pub type SortKey = ChannelSortKey;

/// Activity bounds for a channel search; `None` leaves a bound out.
#[derive(Clone, Copy, Debug)]
pub struct ChannelSearchFilters {
    pub min_frames: Option<u64>,
    pub max_frames: Option<u64>,
    pub max_memory_bytes: Option<u64>,
    pub max_hosted_seconds: Option<u64>,
}

impl Default for ChannelSearchFilters {
    fn default() -> (f: Self)
        ensures
            f.min_frames is None,
            f.max_frames is None,
            f.max_memory_bytes is None,
            f.max_hosted_seconds is None,
    {
        ChannelSearchFilters {
            min_frames: None,
            max_frames: None,
            max_memory_bytes: None,
            max_hosted_seconds: None,
        }
    }
}

// ---------------------------------------------------------------------------
// Parsing the command-line names.
// ---------------------------------------------------------------------------

pub open spec fn sort_order_parse(s: Seq<char>) -> Result<SortOrder, MemErrorView> {
    let l = ascii_lower(s);
    if l == "asc"@ || l == "ascending"@ || l == "low"@ {
        Ok(SortOrder::Asc)
    } else if l == "desc"@ || l == "descending"@ || l == "high"@ {
        Ok(SortOrder::Desc)
    } else {
        Err(MemErrorView::Usage("unknown sort order: "@ + s + " (asc|desc)"@))
    }
}

pub open spec fn channel_sort_key_parse(s: Seq<char>) -> Result<ChannelSortKey, MemErrorView> {
    if s == "frame_count"@ || s == "frames"@ || s == "activity"@ {
        Ok(ChannelSortKey::FrameCount)
    } else if s == "last_epoch"@ || s == "last_pool_epoch"@ || s == "epoch"@ {
        Ok(ChannelSortKey::LastEpoch)
    } else if s == "memory_bytes"@ || s == "memory"@ || s == "storage"@ {
        Ok(ChannelSortKey::MemoryBytes)
    } else if s == "hosted_seconds"@ || s == "hosting"@ || s == "duration"@ || s
        == "mirror_listed_seconds"@ {
        Ok(ChannelSortKey::HostedSeconds)
    } else if s == "memory_weight_seconds"@ || s == "memory_weight"@ || s == "weight"@ {
        Ok(ChannelSortKey::MemoryWeightSeconds)
    } else {
        Err(
            MemErrorView::Usage(
                "unknown channel sort key: "@ + s
                    + " (frame_count|last_epoch|memory_bytes|memory_weight_seconds|hosted_seconds)"@,
            ),
        )
    }
}

pub open spec fn gdir_sort_key_parse(s: Seq<char>) -> Result<GdirSortKey, MemErrorView> {
    if s == "contrib_ops"@ || s == "ops"@ {
        Ok(GdirSortKey::ContribOps)
    } else if s == "contrib_bytes"@ || s == "bytes"@ {
        Ok(GdirSortKey::ContribBytes)
    } else if s == "contrib_seconds"@ || s == "seconds"@ || s == "duration"@ {
        Ok(GdirSortKey::ContribSeconds)
    } else {
        Err(
            MemErrorView::Usage(
                "unknown gdir sort key: "@ + s + " (contrib_ops|contrib_bytes|contrib_seconds)"@,
            ),
        )
    }
}

pub open spec fn parse_agrees<T>(r: Result<T, MemError>, s: Result<T, MemErrorView>) -> bool {
    match r {
        Ok(x) => s == Ok::<T, MemErrorView>(x),
        Err(e) => s == Err::<T, MemErrorView>(e@),
    }
}

fn usage_with(prefix: &str, s: &str, suffix: &str) -> (e: MemError)
    ensures
        e@ == MemErrorView::Usage(prefix@ + s@ + suffix@),
{
    let mut m = String::from_str(prefix);
    m.append(s);
    m.append(suffix);
    MemError::Usage(m)
}

impl SortOrder {
    pub fn parse(s: &str) -> (r: Result<Self, MemError>)
        ensures
            parse_agrees(r, sort_order_parse(s@)),
    {
        let c = chars_of(s);
        let l = to_ascii_lower_chars(&c);
        if chars_eq_str(&l, "asc") || chars_eq_str(&l, "ascending") || chars_eq_str(&l, "low") {
            Ok(SortOrder::Asc)
        } else if chars_eq_str(&l, "desc") || chars_eq_str(&l, "descending") || chars_eq_str(
            &l,
            "high",
        ) {
            Ok(SortOrder::Desc)
        } else {
            Err(usage_with("unknown sort order: ", s, " (asc|desc)"))
        }
    }
}

impl ChannelSortKey {
    pub fn parse(s: &str) -> (r: Result<Self, MemError>)
        ensures
            parse_agrees(r, channel_sort_key_parse(s@)),
    {
        let c = chars_of(s);
        if chars_eq_str(&c, "frame_count") || chars_eq_str(&c, "frames") || chars_eq_str(
            &c,
            "activity",
        ) {
            Ok(ChannelSortKey::FrameCount)
        } else if chars_eq_str(&c, "last_epoch") || chars_eq_str(&c, "last_pool_epoch")
            || chars_eq_str(&c, "epoch") {
            Ok(ChannelSortKey::LastEpoch)
        } else if chars_eq_str(&c, "memory_bytes") || chars_eq_str(&c, "memory") || chars_eq_str(
            &c,
            "storage",
        ) {
            Ok(ChannelSortKey::MemoryBytes)
        } else if chars_eq_str(&c, "hosted_seconds") || chars_eq_str(&c, "hosting")
            || chars_eq_str(&c, "duration") || chars_eq_str(&c, "mirror_listed_seconds") {
            Ok(ChannelSortKey::HostedSeconds)
        } else if chars_eq_str(&c, "memory_weight_seconds") || chars_eq_str(&c, "memory_weight")
            || chars_eq_str(&c, "weight") {
            Ok(ChannelSortKey::MemoryWeightSeconds)
        } else {
            Err(
                usage_with(
                    "unknown channel sort key: ",
                    s,
                    " (frame_count|last_epoch|memory_bytes|memory_weight_seconds|hosted_seconds)",
                ),
            )
        }
    }
}

impl GdirSortKey {
    pub fn parse(s: &str) -> (r: Result<Self, MemError>)
        ensures
            parse_agrees(r, gdir_sort_key_parse(s@)),
    {
        let c = chars_of(s);
        if chars_eq_str(&c, "contrib_ops") || chars_eq_str(&c, "ops") {
            Ok(GdirSortKey::ContribOps)
        } else if chars_eq_str(&c, "contrib_bytes") || chars_eq_str(&c, "bytes") {
            Ok(GdirSortKey::ContribBytes)
        } else if chars_eq_str(&c, "contrib_seconds") || chars_eq_str(&c, "seconds")
            || chars_eq_str(&c, "duration") {
            Ok(GdirSortKey::ContribSeconds)
        } else {
            Err(
                usage_with(
                    "unknown gdir sort key: ",
                    s,
                    " (contrib_ops|contrib_bytes|contrib_seconds)",
                ),
            )
        }
    }
}

// ---------------------------------------------------------------------------
// Channel registry listing, ranking and search.
// ---------------------------------------------------------------------------

/// The activity metric a channel sort key ranks by.
pub open spec fn chan_metric(c: ChannelCoinView, k: ChannelSortKey) -> u64 {
    match k {
        ChannelSortKey::FrameCount => c.frame_count,
        ChannelSortKey::LastEpoch => c.last_pool_epoch,
        ChannelSortKey::MemoryBytes => c.memory_bytes,
        ChannelSortKey::HostedSeconds => c.hosted_seconds,
        ChannelSortKey::MemoryWeightSeconds => c.memory_weight_seconds,
    }
}

/// Ascending ranks by the metric, descending by its complement.
pub open spec fn order_rank(m: u64, o: SortOrder) -> u64 {
    match o {
        SortOrder::Asc => m,
        SortOrder::Desc => (u64::MAX - m) as u64,
    }
}

pub open spec fn chan_rank(k: ChannelSortKey, o: SortOrder) -> spec_fn(ChannelCoinView) -> (
    u64,
    u64,
    Seq<char>,
) {
    |c: ChannelCoinView| (order_rank(chan_metric(c, k), o), 0u64, Seq::<char>::empty())
}

/// `s[j]` is visible and no visible entry before it has its `room_wire_pk`.
#[verifier::opaque]
pub open spec fn first_with_pk(s: Seq<ChannelCoinView>, j: int) -> bool {
    &&& 0 <= j < s.len()
    &&& s[j].registry_visible
    &&& forall|t: int|
        0 <= t < j && #[trigger] s[t].registry_visible ==> s[t].room_wire_pk != s[j].room_wire_pk
}

/// `x` is, among the first `n` manifests, the first visible one with its key.
pub open spec fn read_first(s: Seq<ChannelCoinView>, n: int, x: ChannelCoinView) -> bool {
    exists|j: int| 0 <= j < n && #[trigger] first_with_pk(s, j) && s[j] == x
}

/// Some listed manifest has the key `pk`.
pub open spec fn pk_listed(r: Seq<ChannelCoinView>, pk: Seq<char>) -> bool {
    exists|i: int| 0 <= i < r.len() && #[trigger] r[i].room_wire_pk == pk
}

/// Strictly ascending keys.
pub open spec fn pk_ascending(r: Seq<ChannelCoinView>) -> bool {
    forall|i: int, j: int| 0 <= i < j < r.len() ==> text_lt(r[i].room_wire_pk, r[j].room_wire_pk)
}

/// The listing invariant for the first `n` manifests read.
pub open spec fn listing_upto(r: Seq<ChannelCoinView>, s: Seq<ChannelCoinView>, n: int) -> bool {
    &&& pk_ascending(r)
    &&& forall|i: int| 0 <= i < r.len() ==> read_first(s, n, #[trigger] r[i])
    &&& forall|j: int|
        0 <= j < n && s[j].registry_visible ==> pk_listed(r, #[trigger] s[j].room_wire_pk)
}

/// What a registry lists of the manifests read from it: the visible ones,
/// one per `room_wire_pk` (the first read), in ascending `room_wire_pk`
/// order.
pub open spec fn is_registry_listing(r: Seq<ChannelCoinView>, s: Seq<ChannelCoinView>) -> bool {
    listing_upto(r, s, s.len() as int)
}

proof fn lemma_read_first_grow(s: Seq<ChannelCoinView>, n: int, x: ChannelCoinView)
    requires
        read_first(s, n, x),
    ensures
        read_first(s, n + 1, x),
{
    let j = choose|j: int| 0 <= j < n && #[trigger] first_with_pk(s, j) && s[j] == x;
    assert(0 <= j < n + 1 && first_with_pk(s, j) && s[j] == x);
}

proof fn lemma_listing_skip(o: Seq<ChannelCoinView>, s: Seq<ChannelCoinView>, i: int)
    requires
        0 <= i < s.len(),
        listing_upto(o, s, i),
        s[i].registry_visible ==> pk_listed(o, s[i].room_wire_pk),
    ensures
        listing_upto(o, s, i + 1),
{
    assert forall|t: int| 0 <= t < o.len() implies read_first(s, i + 1, #[trigger] o[t]) by {
        lemma_read_first_grow(s, i, o[t]);
    }
    assert forall|j: int| 0 <= j < i + 1 && s[j].registry_visible implies pk_listed(
        o,
        #[trigger] s[j].room_wire_pk,
    ) by {}
}

proof fn lemma_listing_insert(o: Seq<ChannelCoinView>, s: Seq<ChannelCoinView>, i: int, p: int)
    requires
        0 <= i < s.len(),
        0 <= p <= o.len(),
        listing_upto(o, s, i),
        s[i].registry_visible,
        forall|q: int| 0 <= q < p ==> text_lt(#[trigger] o[q].room_wire_pk, s[i].room_wire_pk),
        p < o.len() ==> !text_lt(o[p].room_wire_pk, s[i].room_wire_pk),
        p < o.len() ==> o[p].room_wire_pk != s[i].room_wire_pk,
    ensures
        listing_upto(o.insert(p, s[i]), s, i + 1),
{
    let pk = s[i].room_wire_pk;
    let ev = s[i];
    // no earlier visible manifest has this key
    assert forall|t: int| 0 <= t < i && #[trigger] s[t].registry_visible implies s[t].room_wire_pk
        != pk by {
        if s[t].room_wire_pk == pk {
            assert(pk_listed(o, s[t].room_wire_pk));
            let q = choose|q: int| 0 <= q < o.len() && #[trigger] o[q].room_wire_pk == pk;
            if q < p {
                assert(text_lt(o[q].room_wire_pk, pk));
                lemma_text_lt_irrefl(pk);
            } else if q > p {
                assert(text_lt(o[p].room_wire_pk, o[q].room_wire_pk));
                lemma_text_lt_total(o[p].room_wire_pk, pk);
            }
        }
    }
    assert(first_with_pk(s, i)) by {
        reveal(first_with_pk);
    }
    if p < o.len() {
        lemma_text_lt_total(o[p].room_wire_pk, pk);
        assert(text_lt(pk, o[p].room_wire_pk));
    }
    let o2 = o.insert(p, ev);
    assert(o2.len() == o.len() + 1);
    assert forall|a: int| 0 <= a < o2.len() implies (#[trigger] o2[a]) == (if a < p {
        o[a]
    } else if a == p {
        ev
    } else {
        o[a - 1]
    }) by {}
    assert forall|a: int, b: int| 0 <= a < b < o2.len() implies text_lt(
        o2[a].room_wire_pk,
        o2[b].room_wire_pk,
    ) by {
        if b < p {
        } else if b == p {
        } else if a == p {
            if b - 1 > p {
                crate::order::lemma_text_lt_trans(pk, o[p].room_wire_pk, o[b - 1].room_wire_pk);
            }
        } else if a < p {
            crate::order::lemma_text_lt_trans(o[a].room_wire_pk, pk, o[p].room_wire_pk);
            if b - 1 > p {
                crate::order::lemma_text_lt_trans(
                    o[a].room_wire_pk,
                    o[p].room_wire_pk,
                    o[b - 1].room_wire_pk,
                );
            }
        } else {
        }
    }
    assert forall|t: int| 0 <= t < o2.len() implies read_first(s, i + 1, #[trigger] o2[t]) by {
        if t < p {
            lemma_read_first_grow(s, i, o[t]);
        } else if t == p {
            assert(0 <= i < i + 1 && first_with_pk(s, i) && s[i] == o2[t]);
        } else {
            lemma_read_first_grow(s, i, o[t - 1]);
        }
    }
    assert forall|j: int| 0 <= j < i + 1 && s[j].registry_visible implies pk_listed(
        o2,
        #[trigger] s[j].room_wire_pk,
    ) by {
        if j == i {
            assert(o2[p].room_wire_pk == s[j].room_wire_pk);
        } else {
            assert(pk_listed(o, s[j].room_wire_pk));
            let q = choose|q: int| 0 <= q < o.len() && #[trigger] o[q].room_wire_pk
                == s[j].room_wire_pk;
            if q < p {
                assert(o2[q] == o[q]);
            } else {
                assert(o2[q + 1] == o[q]);
            }
        }
    }
}

/// The visible manifests, one per `room_wire_pk` (the first read), sorted
/// by `room_wire_pk`.
fn collect_channel(entries: Vec<ChannelCoinManifest>) -> (r: Vec<ChannelCoinManifest>)
    ensures
        is_registry_listing(seq_views(r@), seq_views(entries@)),
{
    let ghost s = seq_views(entries@);
    let n = entries.len();
    let mut rest = entries;
    let mut out: Vec<ChannelCoinManifest> = Vec::new();
    let mut i: usize = 0;
    while rest.len() > 0
        invariant
            s.len() == n,
            i + rest@.len() == n,
            seq_views(rest@) == s.skip(i as int),
            listing_upto(seq_views(out@), s, i as int),
        decreases rest.len(),
    {
        let ghost old_rest = rest@;
        let e = rest.remove(0);
        let ghost ev = e@;
        proof {
            assert(seq_views(old_rest)[0] == old_rest[0]@);
            assert(s.skip(i as int)[0] == s[i as int]);
            assert(rest@ =~= old_rest.drop_first());
            assert(seq_views(rest@) =~= seq_views(old_rest).drop_first());
            assert(seq_views(rest@) =~= s.skip(i + 1));
            assert(ev == s[i as int]);
        }
        let ghost o = seq_views(out@);
        if e.registry_visible {
            let pk = chars_of(e.room_wire_pk.as_str());
            let mut p: usize = 0;
            while p < out.len() && text_less(&chars_of(out[p].room_wire_pk.as_str()), &pk)
                invariant
                    p <= out@.len(),
                    o == seq_views(out@),
                    pk@ == ev.room_wire_pk,
                    forall|q: int| 0 <= q < p ==> text_lt(#[trigger] o[q].room_wire_pk, pk@),
                decreases out.len() - p,
            {
                p = p + 1;
            }
            let present = p < out.len() && chars_eq_str(&pk, out[p].room_wire_pk.as_str());
            if present {
                proof {
                    assert(o[p as int].room_wire_pk == s[i as int].room_wire_pk);
                    assert(pk_listed(o, s[i as int].room_wire_pk));
                    lemma_listing_skip(o, s, i as int);
                }
            } else {
                let ghost o0 = seq_views(out@);
                out.insert(p, e);
                proof {
                    assert(o0 == o);
                    lemma_listing_insert(o, s, i as int, p as int);
                    assert(seq_views(out@) =~= o.insert(p as int, ev));
                }
            }
        } else {
            proof {
                lemma_listing_skip(o, s, i as int);
            }
        }
        i = i + 1;
    }
    proof {
        assert(listing_upto(seq_views(out@), s, n as int));
    }
    out
}

/// Sorts manifests stably by the chosen metric and order.
fn sort_channel(entries: Vec<ChannelCoinManifest>, sort: ChannelSortKey, order: SortOrder) -> (r:
    Vec<ChannelCoinManifest>)
    ensures
        is_stable_sort_by(seq_views(r@), seq_views(entries@), chan_rank(sort, order)),
{
    let ghost s = seq_views(entries@);
    let n = entries.len();
    let mut rest = entries;
    let mut ks: Vec<Keyed<ChannelCoinManifest>> = Vec::new();
    while rest.len() > 0
        invariant
            ks@.len() + rest@.len() == n,
            s.len() == n,
            seq_views(rest@) == s.skip(ks@.len() as int),
            crate::order::item_views(ks@) == s.take(ks@.len() as int),
            forall|i: int|
                0 <= i < ks@.len() ==> key_of(#[trigger] ks@[i]) == chan_rank(sort, order)(
                    ks@[i].item@,
                ),
        decreases rest.len(),
    {
        let ghost old_rest = rest@;
        let e = rest.remove(0);
        let ghost k = ks@.len() as int;
        proof {
            assert(seq_views(old_rest)[0] == old_rest[0]@);
            assert(s.skip(k)[0] == s[k]);
            assert(rest@ =~= old_rest.drop_first());
            assert(seq_views(rest@) =~= seq_views(old_rest).drop_first());
            assert(seq_views(rest@) =~= s.skip(k + 1));
            assert(e@ == s[k]);
        }
        let m = match sort {
            ChannelSortKey::FrameCount => e.frame_count,
            ChannelSortKey::LastEpoch => e.last_pool_epoch,
            ChannelSortKey::MemoryBytes => e.memory_bytes,
            ChannelSortKey::HostedSeconds => e.hosted_seconds,
            ChannelSortKey::MemoryWeightSeconds => e.memory_weight_seconds,
        };
        let major = match order {
            SortOrder::Asc => m,
            SortOrder::Desc => u64::MAX - m,
        };
        let ghost ev = e@;
        let ghost old_ks = ks@;
        ks.push(Keyed { key: RankKey { major, minor: 0, text: Vec::new() }, item: e });
        proof {
            assert(ks@ == old_ks.push(ks@[k]));
            assert(ks@[k].item@ == ev);
            assert(key_of(ks@[k]).2 =~= Seq::<char>::empty());
            assert(m == chan_metric(ev, sort));
            assert(major == order_rank(m, order));
            assert(key_of(ks@[k]) == chan_rank(sort, order)(ev));
            assert(crate::order::item_views(ks@) =~= s.take(k + 1));
        }
    }
    proof {
        assert(s.take(n as int) =~= s);
    }
    sort_by_spec_key(ks, Ghost(chan_rank(sort, order)))
}

/// The listing of a registry ranked by a metric: what `browse_channel`
/// returns for the manifests read from the registry.
pub open spec fn is_channel_browse(
    r: Seq<ChannelCoinView>,
    entries: Seq<ChannelCoinView>,
    sort: ChannelSortKey,
    order: SortOrder,
) -> bool {
    exists|l: Seq<ChannelCoinView>|
        is_registry_listing(l, entries) && is_stable_sort_by(r, l, chan_rank(sort, order))
}

/// Ranks the metric as the order asks.
pub open spec fn ranked(r: Seq<ChannelCoinView>, sort: ChannelSortKey, order: SortOrder) -> bool {
    forall|i: int, j: int|
        0 <= i < j < r.len() ==> match order {
            SortOrder::Asc => chan_metric(r[i], sort) <= chan_metric(r[j], sort),
            SortOrder::Desc => chan_metric(r[i], sort) >= chan_metric(r[j], sort),
        }
}

proof fn lemma_rank_sorted(r: Seq<ChannelCoinView>, sort: ChannelSortKey, order: SortOrder)
    requires
        sorted_by(r, chan_rank(sort, order)),
    ensures
        ranked(r, sort, order),
{
    assert forall|i: int, j: int| 0 <= i < j < r.len() implies match order {
        SortOrder::Asc => chan_metric(r[i], sort) <= chan_metric(r[j], sort),
        SortOrder::Desc => chan_metric(r[i], sort) >= chan_metric(r[j], sort),
    } by {
        lemma_text_lt_irrefl(Seq::<char>::empty());
        assert(!key_lt(chan_rank(sort, order)(r[j]), chan_rank(sort, order)(r[i])));
    }
}

/// Law: a ranked listing is ordered by the field its sort key names,
/// ascending or descending as asked.
pub proof fn lemma_browse_ranks_by_field(
    r: Seq<ChannelCoinView>,
    entries: Seq<ChannelCoinView>,
    sort: ChannelSortKey,
    order: SortOrder,
)
    requires
        is_channel_browse(r, entries, sort, order),
    ensures
        sort == ChannelSortKey::FrameCount ==> forall|i: int, j: int|
            0 <= i < j < r.len() ==> (order == SortOrder::Asc ==> r[i].frame_count <= r[j].frame_count) && (order
                == SortOrder::Desc ==> r[i].frame_count >= r[j].frame_count),
        sort == ChannelSortKey::LastEpoch ==> forall|i: int, j: int|
            0 <= i < j < r.len() ==> (order == SortOrder::Asc ==> r[i].last_pool_epoch <= r[j].last_pool_epoch)
                && (order == SortOrder::Desc ==> r[i].last_pool_epoch >= r[j].last_pool_epoch),
        sort == ChannelSortKey::MemoryBytes ==> forall|i: int, j: int|
            0 <= i < j < r.len() ==> (order == SortOrder::Asc ==> r[i].memory_bytes <= r[j].memory_bytes) && (order
                == SortOrder::Desc ==> r[i].memory_bytes >= r[j].memory_bytes),
        sort == ChannelSortKey::HostedSeconds ==> forall|i: int, j: int|
            0 <= i < j < r.len() ==> (order == SortOrder::Asc ==> r[i].hosted_seconds <= r[j].hosted_seconds) && (
            order == SortOrder::Desc ==> r[i].hosted_seconds >= r[j].hosted_seconds),
        sort == ChannelSortKey::MemoryWeightSeconds ==> forall|i: int, j: int|
            0 <= i < j < r.len() ==> (order == SortOrder::Asc ==> r[i].memory_weight_seconds
                <= r[j].memory_weight_seconds) && (order == SortOrder::Desc ==> r[i].memory_weight_seconds
                >= r[j].memory_weight_seconds),
{
    let l = choose|l: Seq<ChannelCoinView>|
        is_registry_listing(l, entries) && is_stable_sort_by(r, l, chan_rank(sort, order));
    lemma_rank_sorted(r, sort, order);
    assert forall|i: int, j: int| 0 <= i < j < r.len() implies match order {
        SortOrder::Asc => chan_metric(r[i], sort) <= chan_metric(r[j], sort),
        SortOrder::Desc => chan_metric(r[i], sort) >= chan_metric(r[j], sort),
    } by {}
}

/// Law: a search keeps exactly the channels of its listing within every
/// bound: each kept channel is within the bounds, and each listed channel
/// within the bounds is kept.
pub proof fn lemma_search_bounds(b: Seq<ChannelCoinView>, f: ChannelSearchFilters)
    ensures
        forall|i: int|
            0 <= i < keep_matching(b, f).len() ==> {
                let c = #[trigger] keep_matching(b, f)[i];
                &&& (f.min_frames matches Some(m) ==> c.frame_count >= m)
                &&& (f.max_frames matches Some(m) ==> c.frame_count <= m)
                &&& (f.max_memory_bytes matches Some(m) ==> c.memory_bytes <= m)
                &&& (f.max_hosted_seconds matches Some(m) ==> c.hosted_seconds <= m)
                &&& b.contains(c)
            },
        forall|k: int|
            0 <= k < b.len() && (f.min_frames matches Some(m) ==> b[k].frame_count >= m) && (
            f.max_frames matches Some(m) ==> b[k].frame_count <= m) && (f.max_memory_bytes matches Some(
                m,
            ) ==> b[k].memory_bytes <= m) && (f.max_hosted_seconds matches Some(m) ==> b[k].hosted_seconds
                <= m) ==> keep_matching(b, f).contains(#[trigger] b[k]),
    decreases b.len(),
{
    lemma_keep_matching_all(b, f);
    if b.len() > 0 {
        lemma_search_bounds(b.drop_last(), f);
        let k0 = keep_matching(b.drop_last(), f);
        assert forall|k: int|
            0 <= k < b.len() && (f.min_frames matches Some(m) ==> b[k].frame_count >= m) && (
            f.max_frames matches Some(m) ==> b[k].frame_count <= m) && (f.max_memory_bytes matches Some(
                m,
            ) ==> b[k].memory_bytes <= m) && (f.max_hosted_seconds matches Some(m) ==> b[k].hosted_seconds
                <= m) implies keep_matching(b, f).contains(#[trigger] b[k]) by {
            assert(chan_matches(b[k], f));
            if k < b.len() - 1 {
                assert(b.drop_last()[k] == b[k]);
                assert(k0.contains(b[k]));
                let x = choose|x: int| 0 <= x < k0.len() && k0[x] == b[k];
                if chan_matches(b.last(), f) {
                    assert(keep_matching(b, f)[x] == k0[x]);
                }
            } else {
                let kk = keep_matching(b, f);
                assert(kk[kk.len() - 1] == b.last());
            }
        }
    }
}

/// Lists a channel registry's manifests (as read from its files): hidden
/// ones left out, one per `room_wire_pk`, ranked by `sort` in `order`;
/// among equal metrics the `room_wire_pk` order stays.
pub fn browse_channel(
    entries: Vec<ChannelCoinManifest>,
    sort: ChannelSortKey,
    order: SortOrder,
) -> (r: Vec<ChannelCoinManifest>)
    ensures
        is_channel_browse(seq_views(r@), seq_views(entries@), sort, order),
        seq_views(r@) == channel_browse_of(seq_views(entries@), sort, order),
        forall|i: int| 0 <= i < r@.len() ==> (#[trigger] r@[i]).registry_visible,
        ranked(seq_views(r@), sort, order),
        sort == ChannelSortKey::FrameCount ==> forall|i: int, j: int|
            0 <= i < j < r@.len() ==> (order == SortOrder::Asc ==> r@[i].frame_count <= r@[j].frame_count) && (order
                == SortOrder::Desc ==> r@[i].frame_count >= r@[j].frame_count),
        sort == ChannelSortKey::LastEpoch ==> forall|i: int, j: int|
            0 <= i < j < r@.len() ==> (order == SortOrder::Asc ==> r@[i].last_pool_epoch <= r@[j].last_pool_epoch)
                && (order == SortOrder::Desc ==> r@[i].last_pool_epoch >= r@[j].last_pool_epoch),
        sort == ChannelSortKey::MemoryBytes ==> forall|i: int, j: int|
            0 <= i < j < r@.len() ==> (order == SortOrder::Asc ==> r@[i].memory_bytes <= r@[j].memory_bytes) && (order
                == SortOrder::Desc ==> r@[i].memory_bytes >= r@[j].memory_bytes),
        sort == ChannelSortKey::HostedSeconds ==> forall|i: int, j: int|
            0 <= i < j < r@.len() ==> (order == SortOrder::Asc ==> r@[i].hosted_seconds <= r@[j].hosted_seconds) && (
            order == SortOrder::Desc ==> r@[i].hosted_seconds >= r@[j].hosted_seconds),
        sort == ChannelSortKey::MemoryWeightSeconds ==> forall|i: int, j: int|
            0 <= i < j < r@.len() ==> (order == SortOrder::Asc ==> r@[i].memory_weight_seconds
                <= r@[j].memory_weight_seconds) && (order == SortOrder::Desc ==> r@[i].memory_weight_seconds
                >= r@[j].memory_weight_seconds),
{
    let ghost es0 = seq_views(entries@);
    let listed = collect_channel(entries);
    let ghost l = seq_views(listed@);
    let r = sort_channel(listed, sort, order);
    proof {
        let rv = seq_views(r@);
        lemma_rank_sorted(rv, sort, order);
        assert forall|i: int| 0 <= i < r@.len() implies (#[trigger] r@[i]).registry_visible by {
            crate::order::lemma_stable_sort_member(rv, l, chan_rank(sort, order), i);
            let j = choose|j: int| 0 <= j < l.len() && l[j] == rv[i];
            let es = seq_views(entries@);
            assert(read_first(es, es.len() as int, l[j]));
            let t = choose|t: int| 0 <= t < es.len() && #[trigger] first_with_pk(es, t) && es[t] == l[j];
            reveal(first_with_pk);
            assert(r@[i]@ == rv[i]);
        }
        lemma_browse_is_the_listing(rv, es0, sort, order);
        lemma_browse_ranks_by_field(rv, es0, sort, order);
        if sort == ChannelSortKey::FrameCount {
            assert forall|i: int, j: int| 0 <= i < j < r@.len() implies (order == SortOrder::Asc ==> r@[i].frame_count
                <= r@[j].frame_count) && (order == SortOrder::Desc ==> r@[i].frame_count >= r@[j].frame_count) by {
                assert(rv[i] == r@[i]@);
                assert(rv[j] == r@[j]@);
            }
        }
        if sort == ChannelSortKey::LastEpoch {
            assert forall|i: int, j: int| 0 <= i < j < r@.len() implies (order == SortOrder::Asc ==> r@[i].last_pool_epoch
                <= r@[j].last_pool_epoch) && (order == SortOrder::Desc ==> r@[i].last_pool_epoch >= r@[j].last_pool_epoch) by {
                assert(rv[i] == r@[i]@);
                assert(rv[j] == r@[j]@);
            }
        }
        if sort == ChannelSortKey::MemoryBytes {
            assert forall|i: int, j: int| 0 <= i < j < r@.len() implies (order == SortOrder::Asc ==> r@[i].memory_bytes
                <= r@[j].memory_bytes) && (order == SortOrder::Desc ==> r@[i].memory_bytes >= r@[j].memory_bytes) by {
                assert(rv[i] == r@[i]@);
                assert(rv[j] == r@[j]@);
            }
        }
        if sort == ChannelSortKey::HostedSeconds {
            assert forall|i: int, j: int| 0 <= i < j < r@.len() implies (order == SortOrder::Asc ==> r@[i].hosted_seconds
                <= r@[j].hosted_seconds) && (order == SortOrder::Desc ==> r@[i].hosted_seconds >= r@[j].hosted_seconds) by {
                assert(rv[i] == r@[i]@);
                assert(rv[j] == r@[j]@);
            }
        }
        if sort == ChannelSortKey::MemoryWeightSeconds {
            assert forall|i: int, j: int| 0 <= i < j < r@.len() implies (order == SortOrder::Asc ==> r@[i].memory_weight_seconds
                <= r@[j].memory_weight_seconds) && (order == SortOrder::Desc ==> r@[i].memory_weight_seconds >= r@[j].memory_weight_seconds) by {
                assert(rv[i] == r@[i]@);
                assert(rv[j] == r@[j]@);
            }
        }
    }
    r
}

/// Lists a registry ranked by activity descending (the default order).
pub fn browse(entries: Vec<ChannelCoinManifest>, sort: ChannelSortKey) -> (r: Vec<
    ChannelCoinManifest,
>)
    ensures
        is_channel_browse(seq_views(r@), seq_views(entries@), sort, SortOrder::Desc),
        seq_views(r@) == channel_browse_of(seq_views(entries@), sort, SortOrder::Desc),
        forall|i: int| 0 <= i < r@.len() ==> (#[trigger] r@[i]).registry_visible,
        ranked(seq_views(r@), sort, SortOrder::Desc),
{
    browse_channel(entries, sort, SortOrder::Desc)
}

/// Quiet discovery: the least active open channels first (ascending frame
/// count).
pub fn discover_quiet_channel(entries: Vec<ChannelCoinManifest>) -> (r: Vec<ChannelCoinManifest>)
    ensures
        is_channel_browse(
            seq_views(r@),
            seq_views(entries@),
            ChannelSortKey::FrameCount,
            SortOrder::Asc,
        ),
        seq_views(r@) == channel_browse_of(
            seq_views(entries@),
            ChannelSortKey::FrameCount,
            SortOrder::Asc,
        ),
        forall|i: int| 0 <= i < r@.len() ==> (#[trigger] r@[i]).registry_visible,
        forall|i: int, j: int|
            0 <= i < j < r@.len() ==> r@[i].frame_count <= r@[j].frame_count,
{
    let r = browse_channel(entries, ChannelSortKey::FrameCount, SortOrder::Asc);
    proof {
        assert forall|i: int, j: int| 0 <= i < j < r@.len() implies r@[i].frame_count
            <= r@[j].frame_count by {
            assert(seq_views(r@)[i] == r@[i]@);
            assert(seq_views(r@)[j] == r@[j]@);
        }
    }
    r
}

/// A channel within every bound of the filters.
pub open spec fn chan_matches(c: ChannelCoinView, f: ChannelSearchFilters) -> bool {
    &&& (f.min_frames matches Some(min) ==> c.frame_count >= min)
    &&& (f.max_frames matches Some(max) ==> c.frame_count <= max)
    &&& (f.max_memory_bytes matches Some(max) ==> c.memory_bytes <= max)
    &&& (f.max_hosted_seconds matches Some(max) ==> c.hosted_seconds <= max)
}

/// The channels of `s` within the filters, in order.
pub open spec fn keep_matching(s: Seq<ChannelCoinView>, f: ChannelSearchFilters) -> Seq<
    ChannelCoinView,
>
    decreases s.len(),
{
    if s.len() == 0 {
        seq![]
    } else if chan_matches(s.last(), f) {
        keep_matching(s.drop_last(), f).push(s.last())
    } else {
        keep_matching(s.drop_last(), f)
    }
}

fn matches_channel_filters(coin: &ChannelCoinManifest, filters: &ChannelSearchFilters) -> (b:
    bool)
    ensures
        b == chan_matches(coin@, *filters),
{
    if let Some(min) = filters.min_frames {
        if coin.frame_count < min {
            return false;
        }
    }
    if let Some(max) = filters.max_frames {
        if coin.frame_count > max {
            return false;
        }
    }
    if let Some(max) = filters.max_memory_bytes {
        if coin.memory_bytes > max {
            return false;
        }
    }
    if let Some(max) = filters.max_hosted_seconds {
        if coin.hosted_seconds > max {
            return false;
        }
    }
    true
}

proof fn lemma_keep_matching_all(s: Seq<ChannelCoinView>, f: ChannelSearchFilters)
    ensures
        forall|i: int|
            0 <= i < keep_matching(s, f).len() ==> chan_matches(#[trigger] keep_matching(s, f)[i], f),
        forall|i: int|
            0 <= i < keep_matching(s, f).len() ==> s.contains(#[trigger] keep_matching(s, f)[i]),
    decreases s.len(),
{
    if s.len() > 0 {
        lemma_keep_matching_all(s.drop_last(), f);
        let k = keep_matching(s, f);
        let k0 = keep_matching(s.drop_last(), f);
        assert forall|i: int| 0 <= i < k.len() implies s.contains(#[trigger] k[i]) by {
            if i < k0.len() {
                assert(k[i] == k0[i]);
                assert(s.drop_last().contains(k0[i]));
                let j = choose|j: int| 0 <= j < s.drop_last().len() && s.drop_last()[j] == k0[i];
                assert(s[j] == k[i]);
            } else {
                assert(k[i] == s[s.len() - 1]);
            }
        }
    }
}

/// Searches a registry: its listing ranked by `sort` in `order`, keeping
/// the channels within every bound of `filters`.
pub fn search_channel(
    entries: Vec<ChannelCoinManifest>,
    filters: ChannelSearchFilters,
    sort: ChannelSortKey,
    order: SortOrder,
) -> (r: Vec<ChannelCoinManifest>)
    ensures
        exists|b: Seq<ChannelCoinView>|
            is_channel_browse(b, seq_views(entries@), sort, order) && seq_views(r@)
                == keep_matching(b, filters),
        seq_views(r@) == keep_matching(channel_browse_of(seq_views(entries@), sort, order), filters),
        forall|i: int| 0 <= i < r@.len() ==> chan_matches(#[trigger] r@[i]@, filters),
        forall|i: int|
            0 <= i < r@.len() ==> {
                let c = #[trigger] r@[i];
                &&& (filters.min_frames matches Some(m) ==> c.frame_count >= m)
                &&& (filters.max_frames matches Some(m) ==> c.frame_count <= m)
                &&& (filters.max_memory_bytes matches Some(m) ==> c.memory_bytes <= m)
                &&& (filters.max_hosted_seconds matches Some(m) ==> c.hosted_seconds <= m)
            },
        forall|i: int| 0 <= i < r@.len() ==> (#[trigger] r@[i]).registry_visible,
{
    let ghost es0 = seq_views(entries@);
    let ranked_entries = browse_channel(entries, sort, order);
    let ghost b = seq_views(ranked_entries@);
    let n = ranked_entries.len();
    let mut rest = ranked_entries;
    let mut out: Vec<ChannelCoinManifest> = Vec::new();
    let mut i: usize = 0;
    while rest.len() > 0
        invariant
            b.len() == n,
            i + rest@.len() == n,
            seq_views(rest@) == b.skip(i as int),
            seq_views(out@) == keep_matching(b.take(i as int), filters),
            forall|j: int| 0 <= j < b.len() ==> (#[trigger] b[j]).registry_visible,
        decreases rest.len(),
    {
        let ghost old_rest = rest@;
        let e = rest.remove(0);
        proof {
            assert(seq_views(old_rest)[0] == old_rest[0]@);
            assert(b.skip(i as int)[0] == b[i as int]);
            assert(rest@ =~= old_rest.drop_first());
            assert(seq_views(rest@) =~= seq_views(old_rest).drop_first());
            assert(seq_views(rest@) =~= b.skip(i + 1));
            assert(e@ == b[i as int]);
            assert(b.take(i + 1).drop_last() =~= b.take(i as int));
            assert(b.take(i + 1).last() == b[i as int]);
        }
        let ghost ev = e@;
        let ghost old_out = out@;
        if matches_channel_filters(&e, &filters) {
            out.push(e);
            proof {
                assert(seq_views(out@) =~= seq_views(old_out).push(ev));
            }
        }
        i = i + 1;
    }
    proof {
        assert(b.take(n as int) =~= b);
        lemma_keep_matching_all(b, filters);
        let k = keep_matching(b, filters);
        assert forall|i: int| 0 <= i < out@.len() implies chan_matches(#[trigger] out@[i]@, filters)
            by {
            assert(seq_views(out@)[i] == out@[i]@);
            assert(chan_matches(k[i], filters));
        }
        assert forall|i: int| 0 <= i < out@.len() implies (#[trigger] out@[i]).registry_visible by {
            assert(seq_views(out@)[i] == out@[i]@);
            assert(b.contains(k[i]));
            let j = choose|j: int| 0 <= j < b.len() && b[j] == k[i];
            assert(b[j].registry_visible);
            assert(out@[i]@.registry_visible == out@[i].registry_visible);
        }
    }
    proof {
        lemma_search_bounds(b, filters);
        assert forall|i: int| 0 <= i < out@.len() implies {
            let c = #[trigger] out@[i];
            &&& (filters.min_frames matches Some(m) ==> c.frame_count >= m)
            &&& (filters.max_frames matches Some(m) ==> c.frame_count <= m)
            &&& (filters.max_memory_bytes matches Some(m) ==> c.memory_bytes <= m)
            &&& (filters.max_hosted_seconds matches Some(m) ==> c.hosted_seconds <= m)
        } by {
            assert(seq_views(out@)[i] == out@[i]@);
            assert(keep_matching(b, filters)[i] == out@[i]@);
        }
    }
    out
}

/// Searches with a minimum frame count, most active first.
pub fn search(entries: Vec<ChannelCoinManifest>, min_frames: u64, sort: ChannelSortKey) -> (r: Vec<
    ChannelCoinManifest,
>)
    ensures
        exists|b: Seq<ChannelCoinView>|
            is_channel_browse(b, seq_views(entries@), sort, SortOrder::Desc) && seq_views(r@)
                == keep_matching(
                b,
                ChannelSearchFilters {
                    min_frames: Some(min_frames),
                    max_frames: None,
                    max_memory_bytes: None,
                    max_hosted_seconds: None,
                },
            ),
        seq_views(r@) == keep_matching(
            channel_browse_of(seq_views(entries@), sort, SortOrder::Desc),
            ChannelSearchFilters {
                min_frames: Some(min_frames),
                max_frames: None,
                max_memory_bytes: None,
                max_hosted_seconds: None,
            },
        ),
        forall|i: int| 0 <= i < r@.len() ==> (#[trigger] r@[i]).frame_count >= min_frames,
{
    let filters = ChannelSearchFilters {
        min_frames: Some(min_frames),
        max_frames: None,
        max_memory_bytes: None,
        max_hosted_seconds: None,
    };
    let r = search_channel(entries, filters, sort, SortOrder::Desc);
    proof {
        assert forall|i: int| 0 <= i < r@.len() implies (#[trigger] r@[i]).frame_count >= min_frames by {
            assert(chan_matches(r@[i]@, filters));
        }
    }
    r
}

// ---------------------------------------------------------------------------
// GDIR registry ranking.
// ---------------------------------------------------------------------------

pub open spec fn gdir_metric(c: GdirCoinView, k: GdirSortKey) -> u64 {
    match k {
        GdirSortKey::ContribOps => c.contrib_ops,
        GdirSortKey::ContribBytes => c.contrib_bytes,
        GdirSortKey::ContribSeconds => c.contrib_seconds,
    }
}

pub open spec fn gdir_rank(k: GdirSortKey, o: SortOrder) -> spec_fn(GdirCoinView) -> (
    u64,
    u64,
    Seq<char>,
) {
    |c: GdirCoinView| (order_rank(gdir_metric(c, k), o), 0u64, Seq::<char>::empty())
}

/// Law: GDIR coins ranked by a key are ordered by the field the key
/// names, ascending or descending as asked.
pub proof fn lemma_gdir_ranked_by_field(r: Seq<GdirCoinView>, s: Seq<GdirCoinView>, sort: GdirSortKey, order: SortOrder)
    requires
        is_stable_sort_by(r, s, gdir_rank(sort, order)),
    ensures
        sort == GdirSortKey::ContribOps ==> forall|i: int, j: int|
            0 <= i < j < r.len() ==> (order == SortOrder::Asc ==> r[i].contrib_ops <= r[j].contrib_ops) && (order
                == SortOrder::Desc ==> r[i].contrib_ops >= r[j].contrib_ops),
        sort == GdirSortKey::ContribBytes ==> forall|i: int, j: int|
            0 <= i < j < r.len() ==> (order == SortOrder::Asc ==> r[i].contrib_bytes <= r[j].contrib_bytes) && (order
                == SortOrder::Desc ==> r[i].contrib_bytes >= r[j].contrib_bytes),
        sort == GdirSortKey::ContribSeconds ==> forall|i: int, j: int|
            0 <= i < j < r.len() ==> (order == SortOrder::Asc ==> r[i].contrib_seconds <= r[j].contrib_seconds) && (order
                == SortOrder::Desc ==> r[i].contrib_seconds >= r[j].contrib_seconds),
{
    assert forall|i: int, j: int| 0 <= i < j < r.len() implies match order {
        SortOrder::Asc => gdir_metric(r[i], sort) <= gdir_metric(r[j], sort),
        SortOrder::Desc => gdir_metric(r[i], sort) >= gdir_metric(r[j], sort),
    } by {
        lemma_text_lt_irrefl(Seq::<char>::empty());
        assert(!key_lt(gdir_rank(sort, order)(r[j]), gdir_rank(sort, order)(r[i])));
    }
}

/// Ranks GDIR coins (as read from the registry) by a contribution metric;
/// equal metrics keep their order.
pub fn browse_gdir(entries: Vec<GdirCoinManifest>, sort: GdirSortKey, order: SortOrder) -> (r: Vec<
    GdirCoinManifest,
>)
    ensures
        is_stable_sort_by(seq_views(r@), seq_views(entries@), gdir_rank(sort, order)),
        forall|i: int, j: int|
            0 <= i < j < r@.len() ==> match order {
                SortOrder::Asc => gdir_metric(r@[i]@, sort) <= gdir_metric(r@[j]@, sort),
                SortOrder::Desc => gdir_metric(r@[i]@, sort) >= gdir_metric(r@[j]@, sort),
            },
        sort == GdirSortKey::ContribOps ==> forall|i: int, j: int|
            0 <= i < j < r@.len() ==> (order == SortOrder::Asc ==> r@[i].contrib_ops <= r@[j].contrib_ops) && (order
                == SortOrder::Desc ==> r@[i].contrib_ops >= r@[j].contrib_ops),
        sort == GdirSortKey::ContribBytes ==> forall|i: int, j: int|
            0 <= i < j < r@.len() ==> (order == SortOrder::Asc ==> r@[i].contrib_bytes <= r@[j].contrib_bytes) && (order
                == SortOrder::Desc ==> r@[i].contrib_bytes >= r@[j].contrib_bytes),
        sort == GdirSortKey::ContribSeconds ==> forall|i: int, j: int|
            0 <= i < j < r@.len() ==> (order == SortOrder::Asc ==> r@[i].contrib_seconds <= r@[j].contrib_seconds) && (order
                == SortOrder::Desc ==> r@[i].contrib_seconds >= r@[j].contrib_seconds),
{
    let ghost s = seq_views(entries@);
    let n = entries.len();
    let mut rest = entries;
    let mut ks: Vec<Keyed<GdirCoinManifest>> = Vec::new();
    while rest.len() > 0
        invariant
            ks@.len() + rest@.len() == n,
            s.len() == n,
            seq_views(rest@) == s.skip(ks@.len() as int),
            crate::order::item_views(ks@) == s.take(ks@.len() as int),
            forall|i: int|
                0 <= i < ks@.len() ==> key_of(#[trigger] ks@[i]) == gdir_rank(sort, order)(
                    ks@[i].item@,
                ),
        decreases rest.len(),
    {
        let ghost old_rest = rest@;
        let e = rest.remove(0);
        let ghost k = ks@.len() as int;
        proof {
            assert(seq_views(old_rest)[0] == old_rest[0]@);
            assert(s.skip(k)[0] == s[k]);
            assert(rest@ =~= old_rest.drop_first());
            assert(seq_views(rest@) =~= seq_views(old_rest).drop_first());
            assert(seq_views(rest@) =~= s.skip(k + 1));
            assert(e@ == s[k]);
        }
        let m = match sort {
            GdirSortKey::ContribOps => e.contrib_ops,
            GdirSortKey::ContribBytes => e.contrib_bytes,
            GdirSortKey::ContribSeconds => e.contrib_seconds,
        };
        let major = match order {
            SortOrder::Asc => m,
            SortOrder::Desc => u64::MAX - m,
        };
        let ghost ev = e@;
        let ghost old_ks = ks@;
        ks.push(Keyed { key: RankKey { major, minor: 0, text: Vec::new() }, item: e });
        proof {
            assert(ks@ == old_ks.push(ks@[k]));
            assert(ks@[k].item@ == ev);
            assert(key_of(ks@[k]).2 =~= Seq::<char>::empty());
            assert(m == gdir_metric(ev, sort));
            assert(major == order_rank(m, order));
            assert(key_of(ks@[k]) == gdir_rank(sort, order)(ev));
            assert(crate::order::item_views(ks@) =~= s.take(k + 1));
        }
    }
    proof {
        assert(s.take(n as int) =~= s);
    }
    let r = sort_by_spec_key(ks, Ghost(gdir_rank(sort, order)));
    proof {
        let rv = seq_views(r@);
        assert forall|i: int, j: int| 0 <= i < j < r@.len() implies match order {
            SortOrder::Asc => gdir_metric(r@[i]@, sort) <= gdir_metric(r@[j]@, sort),
            SortOrder::Desc => gdir_metric(r@[i]@, sort) >= gdir_metric(r@[j]@, sort),
        } by {
            lemma_text_lt_irrefl(Seq::<char>::empty());
            assert(rv[i] == r@[i]@ && rv[j] == r@[j]@);
            assert(!key_lt(gdir_rank(sort, order)(rv[j]), gdir_rank(sort, order)(rv[i])));
        }
    }
    r
}

// ---------------------------------------------------------------------------
// Registry file names.
// ---------------------------------------------------------------------------

/// A channel coin is filed under its normalized room key.
pub open spec fn channel_registry_name(c: ChannelCoinView) -> Seq<char> {
    normalize_pk_spec(c.room_wire_pk) + ".channel.coin.toml"@
}

/// A GDIR coin is filed under its host fingerprint.
pub open spec fn gdir_registry_name(g: GdirCoinView) -> Seq<char> {
    g.contrib_fp + ".gdir.coin.toml"@
}

/// The registry file of a channel coin.
pub fn channel_registry_file_name(manifest: &ChannelCoinManifest) -> (s: String)
    ensures
        s@ == channel_registry_name(manifest@),
{
    let pk = normalize_pk(manifest.room_wire_pk.as_str());
    let mut out: Vec<char> = Vec::new();
    push_str(&mut out, pk.as_str());
    push_str(&mut out, ".channel.coin.toml");
    string_of(&out)
}

/// The registry file of a GDIR coin.
pub fn gdir_registry_file_name(manifest: &GdirCoinManifest) -> (s: String)
    ensures
        s@ == gdir_registry_name(manifest@),
{
    let mut out: Vec<char> = Vec::new();
    push_str(&mut out, manifest.contrib_fp.as_str());
    push_str(&mut out, ".gdir.coin.toml");
    string_of(&out)
}

// ---------------------------------------------------------------------------
// A listing is determined by what was read.
// ---------------------------------------------------------------------------

proof fn lemma_first_with_pk_unique(s: Seq<ChannelCoinView>, j1: int, j2: int)
    requires
        first_with_pk(s, j1),
        first_with_pk(s, j2),
        s[j1].room_wire_pk == s[j2].room_wire_pk,
    ensures
        j1 == j2,
{
    reveal(first_with_pk);
    if j1 < j2 {
        assert(s[j1].registry_visible);
    } else if j2 < j1 {
        assert(s[j2].registry_visible);
    }
}

/// Two strictly key-ascending sequences that hold the same keys, with one
/// element per key, are the same sequence.
proof fn lemma_ascending_same_keys(a: Seq<ChannelCoinView>, b: Seq<ChannelCoinView>)
    requires
        pk_ascending(a),
        pk_ascending(b),
        forall|i: int| 0 <= i < a.len() ==> pk_listed(b, #[trigger] a[i].room_wire_pk),
        forall|k: int| 0 <= k < b.len() ==> pk_listed(a, #[trigger] b[k].room_wire_pk),
        forall|i: int, k: int|
            0 <= i < a.len() && 0 <= k < b.len() && a[i].room_wire_pk == b[k].room_wire_pk ==> a[i]
                == b[k],
    ensures
        a == b,
    decreases a.len() + b.len(),
{
    if a.len() == 0 {
        if b.len() > 0 {
            assert(pk_listed(a, b[0].room_wire_pk));
        }
        assert(a =~= b);
    } else if b.len() == 0 {
        assert(pk_listed(b, a[0].room_wire_pk));
    } else {
        assert(pk_listed(b, a[0].room_wire_pk));
        let k = choose|k: int| 0 <= k < b.len() && #[trigger] b[k].room_wire_pk == a[0].room_wire_pk;
        assert(pk_listed(a, b[0].room_wire_pk));
        let i = choose|i: int| 0 <= i < a.len() && #[trigger] a[i].room_wire_pk == b[0].room_wire_pk;
        if k > 0 {
            assert(text_lt(b[0].room_wire_pk, b[k].room_wire_pk));
            if i == 0 {
                lemma_text_lt_irrefl(a[0].room_wire_pk);
            } else {
                assert(text_lt(a[0].room_wire_pk, a[i].room_wire_pk));
                lemma_text_lt_trans(a[0].room_wire_pk, b[0].room_wire_pk, a[0].room_wire_pk);
                lemma_text_lt_irrefl(a[0].room_wire_pk);
            }
        }
        assert(k == 0);
        assert(a[0] == b[0]);
        let a1 = a.drop_first();
        let b1 = b.drop_first();
        assert forall|x: int| 0 <= x < a1.len() implies pk_listed(b1, #[trigger] a1[x].room_wire_pk) by {
            assert(a1[x] == a[x + 1]);
            assert(pk_listed(b, a[x + 1].room_wire_pk));
            let y = choose|y: int| 0 <= y < b.len() && #[trigger] b[y].room_wire_pk == a[x + 1].room_wire_pk;
            if y == 0 {
                assert(text_lt(a[0].room_wire_pk, a[x + 1].room_wire_pk));
                lemma_text_lt_irrefl(a[0].room_wire_pk);
            }
            assert(b1[y - 1] == b[y]);
        }
        assert forall|y: int| 0 <= y < b1.len() implies pk_listed(a1, #[trigger] b1[y].room_wire_pk) by {
            assert(b1[y] == b[y + 1]);
            assert(pk_listed(a, b[y + 1].room_wire_pk));
            let x = choose|x: int| 0 <= x < a.len() && #[trigger] a[x].room_wire_pk == b[y + 1].room_wire_pk;
            if x == 0 {
                assert(text_lt(b[0].room_wire_pk, b[y + 1].room_wire_pk));
                lemma_text_lt_irrefl(b[0].room_wire_pk);
            }
            assert(a1[x - 1] == a[x]);
        }
        assert forall|x: int, y: int|
            0 <= x < a1.len() && 0 <= y < b1.len() && a1[x].room_wire_pk == b1[y].room_wire_pk implies a1[x]
                == b1[y] by {
            assert(a1[x] == a[x + 1]);
            assert(b1[y] == b[y + 1]);
        }
        lemma_ascending_same_keys(a1, b1);
        assert(a =~= seq![a[0]] + a1);
        assert(b =~= seq![b[0]] + b1);
    }
}

/// The listing of what was read from a registry is determined.
pub proof fn lemma_registry_listing_unique(l1: Seq<ChannelCoinView>, l2: Seq<ChannelCoinView>, s: Seq<ChannelCoinView>)
    requires
        is_registry_listing(l1, s),
        is_registry_listing(l2, s),
    ensures
        l1 == l2,
{
    let n = s.len() as int;
    assert forall|i: int| 0 <= i < l1.len() implies pk_listed(l2, #[trigger] l1[i].room_wire_pk) by {
        assert(read_first(s, n, l1[i]));
        let j = choose|j: int| 0 <= j < n && #[trigger] first_with_pk(s, j) && s[j] == l1[i];
        reveal(first_with_pk);
        assert(s[j].registry_visible);
        assert(pk_listed(l2, s[j].room_wire_pk));
    }
    assert forall|k: int| 0 <= k < l2.len() implies pk_listed(l1, #[trigger] l2[k].room_wire_pk) by {
        assert(read_first(s, n, l2[k]));
        let j = choose|j: int| 0 <= j < n && #[trigger] first_with_pk(s, j) && s[j] == l2[k];
        reveal(first_with_pk);
        assert(s[j].registry_visible);
        assert(pk_listed(l1, s[j].room_wire_pk));
    }
    assert forall|i: int, k: int|
        0 <= i < l1.len() && 0 <= k < l2.len() && l1[i].room_wire_pk == l2[k].room_wire_pk implies l1[i]
            == l2[k] by {
        assert(read_first(s, n, l1[i]));
        assert(read_first(s, n, l2[k]));
        let j1 = choose|j: int| 0 <= j < n && #[trigger] first_with_pk(s, j) && s[j] == l1[i];
        let j2 = choose|j: int| 0 <= j < n && #[trigger] first_with_pk(s, j) && s[j] == l2[k];
        lemma_first_with_pk_unique(s, j1, j2);
    }
    lemma_ascending_same_keys(l1, l2);
}

/// Law: the ranked listing of a registry is determined by the manifests
/// read, the sort key and the order.
pub proof fn lemma_channel_browse_unique(
    r1: Seq<ChannelCoinView>,
    r2: Seq<ChannelCoinView>,
    entries: Seq<ChannelCoinView>,
    sort: ChannelSortKey,
    order: SortOrder,
)
    requires
        is_channel_browse(r1, entries, sort, order),
        is_channel_browse(r2, entries, sort, order),
    ensures
        r1 == r2,
{
    let l1 = choose|l: Seq<ChannelCoinView>|
        is_registry_listing(l, entries) && is_stable_sort_by(r1, l, chan_rank(sort, order));
    let l2 = choose|l: Seq<ChannelCoinView>|
        is_registry_listing(l, entries) && is_stable_sort_by(r2, l, chan_rank(sort, order));
    lemma_registry_listing_unique(l1, l2, entries);
    lemma_stable_sort_unique(r1, r2, l1, chan_rank(sort, order));
}

/// The ranked listing of a registry (see `is_channel_browse`).
pub open spec fn channel_browse_of(entries: Seq<ChannelCoinView>, sort: ChannelSortKey, order: SortOrder) -> Seq<
    ChannelCoinView,
> {
    choose|r: Seq<ChannelCoinView>| is_channel_browse(r, entries, sort, order)
}

/// Law: a browse result is the registry's ranked listing, so `browse`
/// (descending) and quiet discovery (frame count ascending) list exactly
/// what `browse_channel` lists with those settings, and a search lists the
/// matching channels of that listing, in its order.
pub proof fn lemma_browse_is_the_listing(
    r: Seq<ChannelCoinView>,
    entries: Seq<ChannelCoinView>,
    sort: ChannelSortKey,
    order: SortOrder,
)
    requires
        is_channel_browse(r, entries, sort, order),
    ensures
        r == channel_browse_of(entries, sort, order),
{
    lemma_channel_browse_unique(r, channel_browse_of(entries, sort, order), entries, sort, order);
}

// ---------------------------------------------------------------------------
// Merging a received coin into the registry entry it updates.
// ---------------------------------------------------------------------------

/// A registry's channel entry outranks a received coin for the same room
/// when it has seen a later pool epoch, or the same epoch and more frames.
pub open spec fn channel_entry_is_newer(existing: ChannelCoinView, received: ChannelCoinView) -> bool {
    existing.last_pool_epoch > received.last_pool_epoch || (existing.last_pool_epoch
        == received.last_pool_epoch && existing.frame_count > received.frame_count)
}

/// The entry a registry keeps for a room after receiving a coin: the
/// received coin, unless the existing entry is newer.
pub fn merge_channel_manifest(existing: ChannelCoinManifest, received: ChannelCoinManifest) -> (r:
    ChannelCoinManifest)
    ensures
        r@ == if channel_entry_is_newer(existing@, received@) {
            existing@
        } else {
            received@
        },
{
    if existing.last_pool_epoch > received.last_pool_epoch || (existing.last_pool_epoch
        == received.last_pool_epoch && existing.frame_count > received.frame_count) {
        existing
    } else {
        received
    }
}

/// A registry's GDIR entry outranks a received coin for the same
/// contributor when it records more contribution seconds, or as many and
/// more operations.
pub open spec fn gdir_entry_is_newer(existing: GdirCoinView, received: GdirCoinView) -> bool {
    existing.contrib_seconds > received.contrib_seconds || (existing.contrib_seconds
        == received.contrib_seconds && existing.contrib_ops > received.contrib_ops)
}

/// The entry a registry keeps for a contributor after receiving a coin.
pub fn merge_gdir_manifest(existing: GdirCoinManifest, received: GdirCoinManifest) -> (r:
    GdirCoinManifest)
    ensures
        r@ == if gdir_entry_is_newer(existing@, received@) {
            existing@
        } else {
            received@
        },
{
    if existing.contrib_seconds > received.contrib_seconds || (existing.contrib_seconds
        == received.contrib_seconds && existing.contrib_ops > received.contrib_ops) {
        existing
    } else {
        received
    }
}

/// Merging is idempotent on the registry side: receiving the entry the
/// registry already holds keeps it.
pub proof fn lemma_merge_same_keeps(c: ChannelCoinView, g: GdirCoinView)
    ensures
        !channel_entry_is_newer(c, c),
        !gdir_entry_is_newer(g, g),
{
}

} // verus!
