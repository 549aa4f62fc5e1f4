//! Pins as the store keeps them: built from a received wire, and listed in
//! epoch order.

use vstd::prelude::*;

use crate::codec::{base64_encode_spec, hex_lower, lemma_base64_no_ws, to_base64, to_hex};
use crate::error::MemError;
use crate::order::{is_stable_sort_by, key_view, seq_views, sort_with_key, RankKey};
use crate::text::{chars_of, lemma_trim_noop};
use crate::vault::{normalize_pk, normalize_pk_spec};
use crate::wire::{pin_wire, MemoryPin, MemoryPinView};

verus! {

/// The pin that stores a wire received at `epoch` for a room.
pub open spec fn pin_of_wire(room_wire_pk: Seq<char>, epoch: u64, wire: Seq<u8>) -> MemoryPinView {
    MemoryPinView {
        room_wire_pk: normalize_pk_spec(room_wire_pk),
        pool_epoch: epoch,
        wire_b64: base64_encode_spec(wire),
        seq_hint: None,
        wire_hash: hex_lower(wire),
    }
}

/// Builds the pin for a received wire. The pin gives the same wire back.
pub fn pin_from_wire(room_wire_pk: &str, pool_epoch: u64, wire_bytes: &[u8]) -> (r: Result<
    MemoryPin,
    MemError,
>)
    ensures
        r matches Ok(p) && p@ == pin_of_wire(room_wire_pk@, pool_epoch, wire_bytes@),
        r matches Ok(p) && pin_wire(p@) == Some(wire_bytes@),
{
    let wire_b64 = to_base64(wire_bytes);
    proof {
        let e = base64_encode_spec(wire_bytes@);
        lemma_base64_no_ws(wire_bytes@);
        if e.len() > 0 {
            assert(!crate::text::is_ws(e[0]));
            assert(!crate::text::is_ws(e[e.len() - 1]));
        }
        lemma_trim_noop(e);
    }
    Ok(
        MemoryPin {
            room_wire_pk: normalize_pk(room_wire_pk),
            pool_epoch,
            wire_b64,
            seq_hint: None,
            wire_hash: to_hex(wire_bytes),
        },
    )
}

/// The order of a room's pins: by epoch, then by wire identity.
pub open spec fn pin_order_key(p: MemoryPinView) -> (u64, u64, Seq<char>) {
    (p.pool_epoch, 0, p.wire_hash)
}

/// Lists pins by epoch, then wire identity; pins with equal keys keep their
/// order.
pub fn order_pins(pins: Vec<MemoryPin>) -> (r: Vec<MemoryPin>)
    ensures
        is_stable_sort_by(seq_views(r@), seq_views(pins@), |p: MemoryPinView| pin_order_key(p)),
        r@.len() == pins@.len(),
        forall|i: int, j: int| 0 <= i < j < r@.len() ==> r@[i].pool_epoch <= r@[j].pool_epoch,
{
    let key = |p: &MemoryPin| -> (k: RankKey)
        ensures
            key_view(k) == pin_order_key(p@),
        { RankKey { major: p.pool_epoch, minor: 0, text: chars_of(p.wire_hash.as_str()) } };
    let r = sort_with_key(pins, key, Ghost(|p: MemoryPinView| pin_order_key(p)));
    proof {
        let rv = seq_views(r@);
        assert forall|i: int, j: int| 0 <= i < j < r@.len() implies r@[i].pool_epoch <= r@[j].pool_epoch by {
            assert(rv[i] == r@[i]@);
            assert(rv[j] == r@[j]@);
            assert(!crate::order::key_lt(pin_order_key(rv[j]), pin_order_key(rv[i])));
        }
    }
    r
}

/// Whether a pin of `s` in `lo..hi` has wire identity `h`.
pub open spec fn has_identity(s: Seq<MemoryPinView>, lo: int, hi: int, h: Seq<char>) -> bool {
    exists|j: int| lo <= j < hi && #[trigger] s[j].wire_hash == h
}

/// The pins of `s` whose wire identity no earlier pin has, in their order.
pub open spec fn first_of_each(s: Seq<MemoryPinView>) -> Seq<MemoryPinView>
    decreases s.len(),
{
    if s.len() == 0 {
        seq![]
    } else {
        let rest = first_of_each(s.drop_last());
        if has_identity(s, 0, s.len() - 1, s.last().wire_hash) {
            rest
        } else {
            rest.push(s.last())
        }
    }
}

/// Keeps the first pin of each wire identity, in their order.
pub fn first_of_each_identity(pins: Vec<MemoryPin>) -> (r: Vec<MemoryPin>)
    ensures
        seq_views(r@) == first_of_each(seq_views(pins@)),
        forall|a: int, b: int|
            0 <= a < b < r@.len() ==> #[trigger] r@[a]@.wire_hash != #[trigger] r@[b]@.wire_hash,
        forall|j: int|
            0 <= j < pins@.len() ==> has_identity(
                seq_views(r@),
                0,
                r@.len() as int,
                #[trigger] pins@[j]@.wire_hash,
            ),
{
    let ghost s = seq_views(pins@);
    let n = pins.len();
    let mut rest = pins;
    let mut kept: Vec<MemoryPin> = Vec::new();
    let mut i: usize = 0;
    while rest.len() > 0
        invariant
            s.len() == n,
            i + rest@.len() == n,
            seq_views(rest@) == s.skip(i as int),
            seq_views(kept@) == first_of_each(s.take(i as int)),
            forall|k: int| 0 <= k < kept@.len() ==> has_identity(s, 0, i as int, #[trigger] kept@[k]@.wire_hash),
            forall|j: int| 0 <= j < i ==> has_identity(seq_views(kept@), 0, kept@.len() as int, #[trigger] s[j].wire_hash),
            forall|a: int, b: int|
                0 <= a < b < kept@.len() ==> #[trigger] kept@[a]@.wire_hash != #[trigger] kept@[b]@.wire_hash,
        decreases rest.len(),
    {
        let ghost old_rest = rest@;
        let e = rest.remove(0);
        proof {
            assert(seq_views(old_rest)[0] == old_rest[0]@);
            assert(s.skip(i as int)[0] == s[i as int]);
            assert(rest@ =~= old_rest.drop_first());
            assert(seq_views(rest@) =~= seq_views(old_rest).drop_first());
            assert(seq_views(rest@) =~= s.skip(i + 1));
        }
        let mut found = false;
        let mut k: usize = 0;
        while k < kept.len()
            invariant
                k <= kept@.len(),
                found <==> has_identity(seq_views(kept@), 0, k as int, e@.wire_hash),
            decreases kept.len() - k,
        {
            proof {
                if has_identity(seq_views(kept@), 0, k + 1, e@.wire_hash) && !has_identity(seq_views(kept@), 0, k as int, e@.wire_hash) {
                    let j = choose|j: int| 0 <= j < k + 1 && #[trigger] seq_views(kept@)[j].wire_hash == e@.wire_hash;
                    assert(j == k);
                }
            }
            if kept[k].wire_hash == e.wire_hash {
                found = true;
                assert(seq_views(kept@)[k as int].wire_hash == e@.wire_hash);
            }
            k = k + 1;
        }
        let ghost t = s.take(i + 1);
        proof {
            assert(t.drop_last() =~= s.take(i as int));
            assert(t.last() == e@);
            if found {
                let m = choose|m: int| 0 <= m < kept@.len() && #[trigger] seq_views(kept@)[m].wire_hash == e@.wire_hash;
                assert(kept@[m]@.wire_hash == e@.wire_hash);
                let j = choose|j: int| 0 <= j < i && #[trigger] s[j].wire_hash == kept@[m]@.wire_hash;
                assert(t[j].wire_hash == e@.wire_hash);
                assert(has_identity(t, 0, t.len() - 1, t.last().wire_hash));
            } else {
                if has_identity(t, 0, t.len() - 1, t.last().wire_hash) {
                    let j = choose|j: int| 0 <= j < i && #[trigger] t[j].wire_hash == e@.wire_hash;
                    assert(s[j].wire_hash == e@.wire_hash);
                    assert(has_identity(seq_views(kept@), 0, kept@.len() as int, s[j].wire_hash));
                    assert(false);
                }
            }
        }
        let ghost old_kept = kept@;
        let ghost ev = e@;
        if !found {
            kept.push(e);
            proof {
                assert(seq_views(kept@) =~= seq_views(old_kept).push(ev));
                assert forall|a: int, b: int| 0 <= a < b < kept@.len() implies #[trigger] kept@[a]@.wire_hash
                    != #[trigger] kept@[b]@.wire_hash by {
                    if b == old_kept.len() {
                        assert(kept@[a] == old_kept[a]);
                        if kept@[a]@.wire_hash == ev.wire_hash {
                            assert(seq_views(old_kept)[a].wire_hash == ev.wire_hash);
                            assert(has_identity(seq_views(old_kept), 0, old_kept.len() as int, ev.wire_hash));
                        }
                    } else {
                        assert(kept@[a] == old_kept[a]);
                        assert(kept@[b] == old_kept[b]);
                    }
                }
                assert forall|k: int| 0 <= k < kept@.len() implies has_identity(s, 0, i + 1, #[trigger] kept@[k]@.wire_hash) by {
                    if k < old_kept.len() {
                        assert(kept@[k] == old_kept[k]);
                        let j = choose|j: int| 0 <= j < i && #[trigger] s[j].wire_hash == old_kept[k]@.wire_hash;
                        assert(s[j].wire_hash == kept@[k]@.wire_hash);
                    } else {
                        assert(s[i as int].wire_hash == kept@[k]@.wire_hash);
                    }
                }
                assert forall|j: int| 0 <= j < i + 1 implies has_identity(seq_views(kept@), 0, kept@.len() as int, #[trigger] s[j].wire_hash) by {
                    if j < i {
                        let m = choose|m: int| 0 <= m < old_kept.len() && #[trigger] seq_views(old_kept)[m].wire_hash == s[j].wire_hash;
                        assert(seq_views(kept@)[m] == seq_views(old_kept)[m]);
                    } else {
                        assert(seq_views(kept@)[old_kept.len() as int].wire_hash == s[j].wire_hash);
                    }
                }
            }
        } else {
            proof {
                assert forall|k: int| 0 <= k < kept@.len() implies has_identity(s, 0, i + 1, #[trigger] kept@[k]@.wire_hash) by {
                    let j = choose|j: int| 0 <= j < i && #[trigger] s[j].wire_hash == kept@[k]@.wire_hash;
                    assert(s[j].wire_hash == kept@[k]@.wire_hash);
                }
                assert forall|j: int| 0 <= j < i + 1 implies has_identity(seq_views(kept@), 0, kept@.len() as int, #[trigger] s[j].wire_hash) by {
                    if j == i {
                        let m = choose|m: int| 0 <= m < kept@.len() && #[trigger] seq_views(kept@)[m].wire_hash == e@.wire_hash;
                        assert(seq_views(kept@)[m].wire_hash == s[j].wire_hash);
                    }
                }
            }
        }
        i = i + 1;
    }
    assert(s.take(n as int) =~= s);
    proof {
        assert forall|j: int| 0 <= j < s.len() implies has_identity(
            seq_views(kept@),
            0,
            kept@.len() as int,
            #[trigger] pins@[j]@.wire_hash,
        ) by {
            assert(s[j] == pins@[j]@);
        }
    }
    kept
}

} // verus!
