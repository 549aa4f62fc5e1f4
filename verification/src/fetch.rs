//! Choosing which pins a fetch exports: an epoch window, an optional
//! minimum sequence number, epoch order, and the latest `limit` of them;
//! and the names the exported files get.

use vstd::prelude::*;

use std::path::PathBuf;

use crate::order::{is_stable_sort_by, key_lt, key_view, lemma_stable_sort_member, seq_views, sort_with_key, RankKey};
use crate::text::{chars_of, dec, pad_zero, push_radix, push_str, string_of};
use crate::wire::{MemoryPin, MemoryPinView};

verus! {

/// What to fetch and where to put it.
pub struct FetchOptions {
    pub room_wire_pk: String,
    pub out_dir: PathBuf,
    pub from_epoch: u64,
    pub to_epoch: Option<u64>,
    pub from_seq_hint: Option<u64>,
    pub limit: Option<usize>,
    pub filter_pk: Option<PathBuf>,
    pub filter_sk: Option<PathBuf>,
    pub mirror_dir: Option<PathBuf>,
}

/// A pin inside the fetch window: at or after `from_epoch`, at or before
/// `to_epoch`, and, with a minimum sequence number, carrying a sequence
/// hint at least that large.
pub open spec fn in_window(p: MemoryPinView, from_epoch: u64, to_epoch: Option<u64>, from_seq: Option<u64>) -> bool {
    &&& p.pool_epoch >= from_epoch
    &&& to_epoch is Some ==> p.pool_epoch <= to_epoch->0
    &&& from_seq is Some ==> (p.seq_hint is Some && p.seq_hint->0 >= from_seq->0)
}

pub open spec fn window_of(o: FetchOptions) -> spec_fn(MemoryPinView) -> bool {
    |p: MemoryPinView| in_window(p, o.from_epoch, o.to_epoch, o.from_seq_hint)
}

/// Fetched pins are ordered by epoch, then sequence hint (none counts as
/// zero), then wire identity.
pub open spec fn fetch_order_key(p: MemoryPinView) -> (u64, u64, Seq<char>) {
    (
        p.pool_epoch,
        match p.seq_hint {
            Some(s) => s,
            None => 0,
        },
        p.wire_hash,
    )
}

/// The last `limit` elements of `s` (all of them without a limit).
pub open spec fn latest<V>(s: Seq<V>, limit: Option<usize>) -> Seq<V> {
    match limit {
        Some(n) => if s.len() > n {
            s.skip(s.len() - n)
        } else {
            s
        },
        None => s,
    }
}

/// The pins of `s` inside the window of `o`, in fetch order (a stable
/// sort, so this is determined).
pub open spec fn fetch_sorted(s: Seq<MemoryPinView>, o: FetchOptions) -> Seq<MemoryPinView> {
    fetch_sorted_in(s, o.from_epoch, o.to_epoch, o.from_seq_hint)
}

pub open spec fn fetch_sorted_in(s: Seq<MemoryPinView>, from_epoch: u64, to_epoch: Option<u64>, from_seq: Option<u64>) -> Seq<MemoryPinView> {
    choose|r: Seq<MemoryPinView>| #[trigger] is_fetch_order(r, s, from_epoch, to_epoch, from_seq)
}

/// `r` is the pins of `s` inside the window, stably in fetch order.
pub open spec fn is_fetch_order(
    r: Seq<MemoryPinView>,
    s: Seq<MemoryPinView>,
    from_epoch: u64,
    to_epoch: Option<u64>,
    from_seq: Option<u64>,
) -> bool {
    is_stable_sort_by(
        r,
        s.filter(|p: MemoryPinView| in_window(p, from_epoch, to_epoch, from_seq)),
        |p: MemoryPinView| fetch_order_key(p),
    )
}

/// Law: fetched pins come in ascending pool epoch.
pub proof fn lemma_fetch_in_epoch_order(
    r: Seq<MemoryPinView>,
    s: Seq<MemoryPinView>,
    from_epoch: u64,
    to_epoch: Option<u64>,
    from_seq: Option<u64>,
)
    requires
        is_fetch_order(r, s, from_epoch, to_epoch, from_seq),
    ensures
        forall|i: int, j: int| 0 <= i < j < r.len() ==> r[i].pool_epoch <= r[j].pool_epoch,
{
    assert forall|i: int, j: int| 0 <= i < j < r.len() implies r[i].pool_epoch <= r[j].pool_epoch by {
        assert(!key_lt(fetch_order_key(r[j]), fetch_order_key(r[i])));
    }
}

/// Law: a fetch with a limit of `k` gives the latest `k` pins of the same
/// fetch without a limit (all of them when there are no more than `k`,
/// none when `k` is zero).
pub proof fn lemma_fetch_limit(s: Seq<MemoryPinView>, o: FetchOptions, k: usize)
    requires
        o.limit is None,
    ensures
        latest(fetch_sorted(s, FetchOptions { limit: Some(k), ..o }), Some(k)) == latest(
            latest(fetch_sorted(s, o), o.limit),
            Some(k),
        ),
{
}

fn in_window_exec(p: &MemoryPin, opts: &FetchOptions) -> (b: bool)
    ensures
        b == in_window(p@, opts.from_epoch, opts.to_epoch, opts.from_seq_hint),
{
    if p.pool_epoch < opts.from_epoch {
        return false;
    }
    if let Some(to) = opts.to_epoch {
        if p.pool_epoch > to {
            return false;
        }
    }
    if let Some(seq_min) = opts.from_seq_hint {
        return match p.seq_hint {
            Some(seq) => seq >= seq_min,
            None => false,
        };
    }
    true
}

/// The pins a fetch exports: those in the window, in fetch order, the
/// latest `limit` of them.
pub fn filter_pins(pins: Vec<MemoryPin>, opts: &FetchOptions) -> (r: Vec<MemoryPin>)
    ensures
        exists|sorted: Seq<MemoryPinView>|
            is_stable_sort_by(
                sorted,
                seq_views(pins@).filter(window_of(*opts)),
                |p: MemoryPinView| fetch_order_key(p),
            ) && seq_views(r@) == latest(sorted, opts.limit),
        seq_views(r@) == latest(fetch_sorted(seq_views(pins@), *opts), opts.limit),
        forall|i: int|
            0 <= i < r@.len() ==> in_window(
                #[trigger] r@[i]@,
                opts.from_epoch,
                opts.to_epoch,
                opts.from_seq_hint,
            ),
        forall|i: int, j: int|
            0 <= i < j < r@.len() ==> !key_lt(fetch_order_key(r@[j]@), fetch_order_key(r@[i]@)),
        opts.limit matches Some(n) ==> r@.len() <= n,
        forall|i: int, j: int| 0 <= i < j < r@.len() ==> r@[i].pool_epoch <= r@[j].pool_epoch,
        forall|i: int|
            0 <= i < r@.len() ==> (#[trigger] r@[i]).pool_epoch >= opts.from_epoch && (opts.to_epoch matches Some(t)
                ==> r@[i].pool_epoch <= t),
        forall|i: int|
            0 <= i < r@.len() && opts.from_seq_hint is Some ==> (#[trigger] r@[i]).seq_hint is Some
                && r@[i].seq_hint->0 >= opts.from_seq_hint->0,
{
    let ghost s = seq_views(pins@);
    let ghost w = window_of(*opts);
    let n = pins.len();
    let mut rest = pins;
    let mut kept: Vec<MemoryPin> = Vec::new();
    let mut i: usize = 0;
    while rest.len() > 0
        invariant
            s.len() == n,
            i + rest@.len() == n,
            w == window_of(*opts),
            seq_views(rest@) == s.skip(i as int),
            seq_views(kept@) == s.take(i as int).filter(w),
        decreases rest.len(),
    {
        let ghost old_rest = rest@;
        let e = rest.remove(0);
        proof {
            assert(seq_views(old_rest)[0] == old_rest[0]@);
            assert(s.skip(i as int)[0] == s[i as int]);
            assert(rest@ =~= old_rest.drop_first());
            assert(seq_views(rest@) =~= seq_views(old_rest).drop_first());
            assert(seq_views(rest@) =~= s.skip(i + 1));
            assert(s.take(i + 1).drop_last() =~= s.take(i as int));
            assert(s.take(i + 1).last() == e@);
            reveal(Seq::filter);
        }
        let ghost old_kept = kept@;
        let ghost ev = e@;
        if in_window_exec(&e, opts) {
            kept.push(e);
            assert(seq_views(kept@) =~= seq_views(old_kept).push(ev));
        }
        i = i + 1;
    }
    assert(s.take(n as int) =~= s);
    let key = |p: &MemoryPin| -> (k: RankKey)
        ensures
            key_view(k) == fetch_order_key(p@),
        {
            let minor = match p.seq_hint {
                Some(s) => s,
                None => 0,
            };
            RankKey { major: p.pool_epoch, minor, text: chars_of(p.wire_hash.as_str()) }
        };
    let mut sorted = sort_with_key(kept, key, Ghost(|p: MemoryPinView| fetch_order_key(p)));
    let ghost full = seq_views(sorted@);
    assert(is_stable_sort_by(full, s.filter(w), |p: MemoryPinView| fetch_order_key(p)));
    proof {
        lemma_fetch_sorted_in_window(full, s, *opts);
        assert(w =~= (|p: MemoryPinView| in_window(p, opts.from_epoch, opts.to_epoch, opts.from_seq_hint)));
        assert(is_fetch_order(full, s, opts.from_epoch, opts.to_epoch, opts.from_seq_hint));
        crate::order::lemma_stable_sort_unique(
            full,
            fetch_sorted(s, *opts),
            s.filter(w),
            |p: MemoryPinView| fetch_order_key(p),
        );
    }
    if let Some(limit) = opts.limit {
        if sorted.len() > limit {
            let start = sorted.len() - limit;
            let tail = sorted.split_off(start);
            proof {
                assert(seq_views(tail@) =~= full.skip(full.len() - limit));
                assert(seq_views(tail@) == latest(full, opts.limit));
                assert forall|i: int| 0 <= i < tail@.len() implies in_window(
                    #[trigger] tail@[i]@,
                    opts.from_epoch,
                    opts.to_epoch,
                    opts.from_seq_hint,
                ) by {
                    assert(seq_views(tail@)[i] == tail@[i]@);
                    assert(tail@[i]@ == full[i + start]);
                    assert(in_window(full[i + start], opts.from_epoch, opts.to_epoch, opts.from_seq_hint));
                }
                assert forall|i: int, j: int| 0 <= i < j < tail@.len() implies !key_lt(
                    fetch_order_key(tail@[j]@),
                    fetch_order_key(tail@[i]@),
                ) by {
                    assert(seq_views(tail@)[i] == tail@[i]@);
                    assert(seq_views(tail@)[j] == tail@[j]@);
                    assert(tail@[i]@ == full[i + start]);
                    assert(tail@[j]@ == full[j + start]);
                    assert(!key_lt(fetch_order_key(full[j + start]), fetch_order_key(full[i + start])));
                }
            }
            proof {
                assert forall|i: int, j: int| 0 <= i < j < tail@.len() implies tail@[i].pool_epoch <= tail@[j].pool_epoch by {
                    assert(!key_lt(fetch_order_key(tail@[j]@), fetch_order_key(tail@[i]@)));
                }
                assert forall|i: int| 0 <= i < tail@.len() implies (#[trigger] tail@[i]).pool_epoch >= opts.from_epoch && (opts.to_epoch matches Some(t)
                    ==> tail@[i].pool_epoch <= t) && (opts.from_seq_hint is Some ==> tail@[i].seq_hint is Some && tail@[i].seq_hint->0 >= opts.from_seq_hint->0) by {
                    assert(in_window(tail@[i]@, opts.from_epoch, opts.to_epoch, opts.from_seq_hint));
                }
            }
            return tail;
        }
    }
    assert(seq_views(sorted@) == latest(full, opts.limit));
    assert forall|i: int| 0 <= i < sorted@.len() implies in_window(
        #[trigger] sorted@[i]@,
        opts.from_epoch,
        opts.to_epoch,
        opts.from_seq_hint,
    ) by {
        assert(seq_views(sorted@)[i] == sorted@[i]@);
        assert(in_window(full[i], opts.from_epoch, opts.to_epoch, opts.from_seq_hint));
    }
    assert forall|i: int, j: int| 0 <= i < j < sorted@.len() implies !key_lt(
        fetch_order_key(sorted@[j]@),
        fetch_order_key(sorted@[i]@),
    ) by {
        assert(seq_views(sorted@)[i] == sorted@[i]@);
        assert(seq_views(sorted@)[j] == sorted@[j]@);
        assert(!key_lt(fetch_order_key(full[j]), fetch_order_key(full[i])));
    }
    proof {
        assert forall|i: int, j: int| 0 <= i < j < sorted@.len() implies sorted@[i].pool_epoch <= sorted@[j].pool_epoch by {
            assert(!key_lt(fetch_order_key(sorted@[j]@), fetch_order_key(sorted@[i]@)));
        }
        assert forall|i: int| 0 <= i < sorted@.len() implies (#[trigger] sorted@[i]).pool_epoch >= opts.from_epoch && (opts.to_epoch matches Some(t)
            ==> sorted@[i].pool_epoch <= t) && (opts.from_seq_hint is Some ==> sorted@[i].seq_hint is Some && sorted@[i].seq_hint->0 >= opts.from_seq_hint->0) by {
            assert(in_window(sorted@[i]@, opts.from_epoch, opts.to_epoch, opts.from_seq_hint));
        }
    }
    sorted
}

/// A fetch's sorted candidates are all in the window and in fetch order.
proof fn lemma_fetch_sorted_in_window(full: Seq<MemoryPinView>, s: Seq<MemoryPinView>, o: FetchOptions)
    requires
        is_stable_sort_by(full, s.filter(window_of(o)), |p: MemoryPinView| fetch_order_key(p)),
    ensures
        forall|i: int|
            0 <= i < full.len() ==> in_window(#[trigger] full[i], o.from_epoch, o.to_epoch, o.from_seq_hint),
        forall|i: int, j: int|
            0 <= i < j < full.len() ==> !key_lt(fetch_order_key(full[j]), fetch_order_key(full[i])),
{
    let fl = s.filter(window_of(o));
    assert forall|i: int| 0 <= i < full.len() implies in_window(
        #[trigger] full[i],
        o.from_epoch,
        o.to_epoch,
        o.from_seq_hint,
    ) by {
        lemma_stable_sort_member(full, fl, |p: MemoryPinView| fetch_order_key(p), i);
        let j = choose|j: int| 0 <= j < fl.len() && fl[j] == full[i];
        s.lemma_filter_pred(window_of(o), j);
        assert(window_of(o)(fl[j]));
    }
}

/// `epoch_{epoch:08}_seq_{seq}.wire`: the file an exported wire is written to.
pub open spec fn fetched_wire_name(epoch: u64, seq: u64) -> Seq<char> {
    "epoch_"@ + pad_zero(dec(epoch as nat), 8) + "_seq_"@ + dec(seq as nat) + ".wire"@
}

/// `epoch_{epoch:08}.pin`: the file the exported pin is copied to.
pub open spec fn fetched_pin_name(epoch: u64) -> Seq<char> {
    "epoch_"@ + pad_zero(dec(epoch as nat), 8) + ".pin"@
}

/// The file name of an exported wire (a missing sequence hint counts as
/// zero).
pub fn fetched_wire_file_name(pin: &MemoryPin) -> (s: String)
    ensures
        s@ == fetched_wire_name(
            pin.pool_epoch,
            match pin.seq_hint {
                Some(q) => q,
                None => 0,
            },
        ),
{
    let seq = match pin.seq_hint {
        Some(q) => q,
        None => 0,
    };
    let mut out: Vec<char> = Vec::new();
    push_str(&mut out, "epoch_");
    push_radix(&mut out, pin.pool_epoch, 10, 8);
    push_str(&mut out, "_seq_");
    push_radix(&mut out, seq, 10, 0);
    push_str(&mut out, ".wire");
    proof {
        assert(pad_zero(dec(seq as nat), 0) =~= dec(seq as nat)) by {
            reveal_with_fuel(pad_zero, 1);
        }
    }
    assert(out@ =~= fetched_wire_name(pin.pool_epoch, seq));
    string_of(&out)
}

/// The file name of an exported pin copy.
pub fn fetched_pin_file_name(pin: &MemoryPin) -> (s: String)
    ensures
        s@ == fetched_pin_name(pin.pool_epoch),
{
    let mut out: Vec<char> = Vec::new();
    push_str(&mut out, "epoch_");
    push_radix(&mut out, pin.pool_epoch, 10, 8);
    push_str(&mut out, ".pin");
    assert(out@ =~= fetched_pin_name(pin.pool_epoch));
    string_of(&out)
}

} // verus!
