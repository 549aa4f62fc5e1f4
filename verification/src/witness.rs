//! Quorum witnesses: a host attests that it holds a room's pins under a
//! chain root; a coin's quorum counts the distinct hosts that attest to the
//! same root and the same pin set.

use vstd::prelude::*;

use vstd::utf8::encode_utf8;

use crate::digest::{fnv_extend, fnv_fold, FNV_OFFSET};
use crate::error::{coin_err, MemError, MemErrorView};
use crate::order::seq_views;
use crate::text::{dec, hex_digits, pad_zero, push_dec, push_radix, push_str, string_of};
use crate::vault::{normalize_pk, normalize_pk_spec};
use crate::wire::{MemoryPin, MemoryPinView};

verus! {

/// A host's attestation about a room's pins.
pub struct MemoryWitness {
    pub room_wire_pk: String,
    pub chain_root: String,
    pub pin_set_hash: String,
    pub witness_fp: String,
    pub epoch: u64,
}

pub struct MemoryWitnessView {
    pub room_wire_pk: Seq<char>,
    pub chain_root: Seq<char>,
    pub pin_set_hash: Seq<char>,
    pub witness_fp: Seq<char>,
    pub epoch: u64,
}

impl View for MemoryWitness {
    type V = MemoryWitnessView;

    open spec fn view(&self) -> MemoryWitnessView {
        MemoryWitnessView {
            room_wire_pk: self.room_wire_pk@,
            chain_root: self.chain_root@,
            pin_set_hash: self.pin_set_hash@,
            witness_fp: self.witness_fp@,
            epoch: self.epoch,
        }
    }
}

// ---------------------------------------------------------------------------
// The pin-set fingerprint.
// ---------------------------------------------------------------------------

/// FNV-1a of a pin's wire identity.
pub open spec fn pin_digest(p: MemoryPinView) -> u64 {
    fnv_fold(FNV_OFFSET, encode_utf8(p.wire_hash))
}

/// The pins' digests summed modulo 2^64, which no reordering changes.
pub open spec fn pin_set_sum(ps: Seq<MemoryPinView>) -> u64
    decreases ps.len(),
{
    if ps.len() == 0 {
        0
    } else {
        ((pin_set_sum(ps.drop_last()) as nat + pin_digest(ps.last()) as nat)
            % 0x1_0000_0000_0000_0000) as u64
    }
}

/// Sixteen hex digits of the pin-set sum.
pub open spec fn pin_set_hash_spec(ps: Seq<MemoryPinView>) -> Seq<char> {
    pad_zero(hex_digits(pin_set_sum(ps) as nat), 16)
}

/// The fingerprint of a set of pins: the sum of the FNV-1a digests of their
/// wire identities, as sixteen hex digits.
pub fn pin_set_hash(pins: &Vec<MemoryPin>) -> (s: String)
    ensures
        s@ == pin_set_hash_spec(seq_views(pins@)),
{
    let ghost ps = seq_views(pins@);
    let mut sum: u64 = 0;
    let mut i: usize = 0;
    assert(ps.take(0) =~= Seq::<MemoryPinView>::empty());
    while i < pins.len()
        invariant
            ps == seq_views(pins@),
            i <= pins.len(),
            sum == pin_set_sum(ps.take(i as int)),
        decreases pins.len() - i,
    {
        proof {
            assert(ps.take(i + 1).drop_last() =~= ps.take(i as int));
            assert(ps.take(i + 1).last() == pins@[i as int]@);
        }
        let d = fnv_extend(FNV_OFFSET, pins[i].wire_hash.as_str().as_bytes());
        sum = sum.wrapping_add(d);
        i = i + 1;
    }
    assert(ps.take(pins.len() as int) =~= ps);
    let mut out: Vec<char> = Vec::new();
    push_radix(&mut out, sum, 16, 16);
    assert(out@ =~= pin_set_hash_spec(ps));
    string_of(&out)
}

proof fn lemma_mod_add_swap(a: nat, x: nat, y: nat)
    requires
        x < 0x1_0000_0000_0000_0000,
        y < 0x1_0000_0000_0000_0000,
    ensures
        (((a + y) % 0x1_0000_0000_0000_0000nat) + x) % 0x1_0000_0000_0000_0000nat == (((a + x)
            % 0x1_0000_0000_0000_0000nat) + y) % 0x1_0000_0000_0000_0000nat,
{
    let m: int = 0x1_0000_0000_0000_0000;
    vstd::arithmetic::div_mod::lemma_small_mod(x, m as nat);
    vstd::arithmetic::div_mod::lemma_small_mod(y, m as nat);
    vstd::arithmetic::div_mod::lemma_add_mod_noop((a + y) as int, x as int, m);
    vstd::arithmetic::div_mod::lemma_add_mod_noop((a + x) as int, y as int, m);
}

proof fn lemma_pin_set_sum_push(ps: Seq<MemoryPinView>, x: MemoryPinView)
    ensures
        pin_set_sum(ps.push(x)) == ((pin_set_sum(ps) as nat + pin_digest(x) as nat)
            % 0x1_0000_0000_0000_0000) as u64,
{
    assert(ps.push(x).drop_last() =~= ps);
}

/// Moving a pin to the end of the list leaves the sum unchanged.
proof fn lemma_pin_set_sum_rotate(ps: Seq<MemoryPinView>, i: int)
    requires
        0 <= i < ps.len(),
    ensures
        pin_set_sum(ps.remove(i).push(ps[i])) == pin_set_sum(ps),
    decreases ps.len(),
{
    if i == ps.len() - 1 {
        assert(ps.remove(i).push(ps[i]) =~= ps);
    } else {
        let d = ps.drop_last();
        let x = ps[i];
        let y = ps.last();
        lemma_pin_set_sum_rotate(d, i);
        assert(ps.remove(i) =~= d.remove(i).push(y));
        lemma_pin_set_sum_push(d.remove(i), y);
        lemma_pin_set_sum_push(d.remove(i).push(y), x);
        lemma_pin_set_sum_push(d.remove(i), x);
        lemma_pin_set_sum_push(d.remove(i).push(x), y);
        assert(d.remove(i).push(x).push(y) == ps.drop_last().remove(i).push(x).push(y));
        assert(d.remove(i).push(x) == d.remove(i).push(d[i]));
        lemma_pin_set_sum_push(d, y);
        assert(d.push(y) =~= ps);
        lemma_mod_add_swap(
            pin_set_sum(d.remove(i)) as nat,
            pin_digest(x) as nat,
            pin_digest(y) as nat,
        );
    }
}

proof fn lemma_pin_set_sum_order_free(ps: Seq<MemoryPinView>, qs: Seq<MemoryPinView>)
    requires
        ps.to_multiset() == qs.to_multiset(),
    ensures
        pin_set_sum(ps) == pin_set_sum(qs),
    decreases ps.len(),
{
    broadcast use vstd::multiset::group_multiset_axioms;

    vstd::seq_lib::to_multiset_len(ps);
    vstd::seq_lib::to_multiset_len(qs);
    if ps.len() == 0 {
        assert(qs =~= ps);
    } else {
        let x = ps.last();
        let dl = ps.drop_last();
        assert(ps.contains(x)) by {
            assert(ps[ps.len() - 1] == x);
        }
        vstd::seq_lib::to_multiset_contains(ps, x);
        vstd::seq_lib::to_multiset_contains(qs, x);
        assert(qs.contains(x));
        let i = choose|i: int| 0 <= i < qs.len() && qs[i] == x;
        let q2 = qs.remove(i);
        vstd::seq_lib::to_multiset_remove(qs, i);
        assert(dl.push(x) =~= ps);
        vstd::seq_lib::to_multiset_build(dl, x);
        assert(dl.to_multiset() =~= q2.to_multiset());
        lemma_pin_set_sum_order_free(dl, q2);
        lemma_pin_set_sum_rotate(qs, i);
        lemma_pin_set_sum_push(q2, x);
        lemma_pin_set_sum_push(dl, x);
    }
}

/// The pin-set fingerprint does not depend on the order of the pins: any
/// two lists of the same pins have the same fingerprint.
pub proof fn lemma_pin_set_hash_order_free(ps: Seq<MemoryPinView>, qs: Seq<MemoryPinView>)
    requires
        ps.to_multiset() == qs.to_multiset(),
    ensures
        pin_set_hash_spec(ps) == pin_set_hash_spec(qs),
{
    lemma_pin_set_sum_order_free(ps, qs);
}

// ---------------------------------------------------------------------------
// Counting a quorum.
// ---------------------------------------------------------------------------

/// A witness attests to this chain root and pin set.
pub open spec fn attests(w: MemoryWitnessView, chain_root: Seq<char>, hash: Seq<char>) -> bool {
    w.chain_root == chain_root && w.pin_set_hash == hash
}

/// The hosts that attest to a chain root and pin set.
pub open spec fn quorum_fps(ws: Seq<MemoryWitnessView>, chain_root: Seq<char>, hash: Seq<char>) -> Set<
    Seq<char>,
> {
    Set::new(
        |fp: Seq<char>|
            exists|k: int| 0 <= k < ws.len() && attests(ws[k], chain_root, hash) && #[trigger] ws[k].witness_fp == fp,
    )
}

/// Law: a host is counted toward a quorum exactly when one of its
/// witnesses names the chain root and the pin-set hash; a host with several
/// such witnesses is counted once, and one more witness adds at most one.
pub proof fn lemma_quorum_counts_agreeing_hosts(
    ws: Seq<MemoryWitnessView>,
    w: MemoryWitnessView,
    chain_root: Seq<char>,
    hash: Seq<char>,
    fp: Seq<char>,
)
    ensures
        quorum_fps(ws, chain_root, hash).contains(fp) <==> exists|k: int|
            0 <= k < ws.len() && ws[k].chain_root == chain_root && ws[k].pin_set_hash == hash
                && #[trigger] ws[k].witness_fp == fp,
        !(w.chain_root == chain_root && w.pin_set_hash == hash) ==> quorum_fps(ws.push(w), chain_root, hash)
            == quorum_fps(ws, chain_root, hash),
        w.chain_root == chain_root && w.pin_set_hash == hash ==> quorum_fps(ws.push(w), chain_root, hash)
            == quorum_fps(ws, chain_root, hash).insert(w.witness_fp),
{
    let a = quorum_fps(ws, chain_root, hash);
    let b = quorum_fps(ws.push(w), chain_root, hash);
    let n = ws.len() as int;
    assert forall|f: Seq<char>| #[trigger] b.contains(f) <==> (a.contains(f) || (attests(w, chain_root, hash)
        && w.witness_fp == f)) by {
        if b.contains(f) {
            let k = choose|k: int|
                0 <= k < ws.push(w).len() && attests(ws.push(w)[k], chain_root, hash) && #[trigger] ws.push(w)[k].witness_fp == f;
            if k < n {
                assert(ws.push(w)[k] == ws[k]);
            }
        }
        if a.contains(f) {
            let k = choose|k: int| 0 <= k < ws.len() && attests(ws[k], chain_root, hash) && #[trigger] ws[k].witness_fp == f;
            assert(ws.push(w)[k] == ws[k]);
        }
        if attests(w, chain_root, hash) && w.witness_fp == f {
            assert(ws.push(w)[n] == w);
        }
    }
    if attests(w, chain_root, hash) {
        assert(b =~= a.insert(w.witness_fp));
    } else {
        assert(b =~= a);
    }
}

fn contains_string(v: &Vec<String>, s: &String) -> (b: bool)
    ensures
        b == seq_views(v@).contains(s@),
{
    let mut i: usize = 0;
    while i < v.len()
        invariant
            i <= v.len(),
            forall|j: int| 0 <= j < i ==> v@[j]@ != s@,
        decreases v.len() - i,
    {
        if v[i] == *s {
            assert(seq_views(v@)[i as int] == s@);
            return true;
        }
        i = i + 1;
    }
    assert forall|j: int| 0 <= j < seq_views(v@).len() implies seq_views(v@)[j] != s@ by {
        assert(seq_views(v@)[j] == v@[j]@);
    }
    false
}

/// How many distinct hosts attest to a chain root and pin set.
pub fn count_quorum_witnesses(
    witnesses: &Vec<MemoryWitness>,
    chain_root: &str,
    pin_set_hash_hex: &str,
) -> (r: u64)
    ensures
        r == quorum_fps(seq_views(witnesses@), chain_root@, pin_set_hash_hex@).len(),
{
    let ghost ws = seq_views(witnesses@);
    let cr = String::from_str(chain_root);
    let h = String::from_str(pin_set_hash_hex);
    let mut fps: Vec<String> = Vec::new();
    let mut i: usize = 0;
    proof {
        assert(quorum_fps(ws.take(0), chain_root@, pin_set_hash_hex@) =~= seq_views(fps@).to_set());
    }
    while i < witnesses.len()
        invariant
            ws == seq_views(witnesses@),
            cr@ == chain_root@,
            h@ == pin_set_hash_hex@,
            i <= witnesses.len(),
            seq_views(fps@).no_duplicates(),
            seq_views(fps@).to_set() == quorum_fps(ws.take(i as int), chain_root@, pin_set_hash_hex@),
        decreases witnesses.len() - i,
    {
        let w = &witnesses[i];
        let ghost before = seq_views(fps@);
        let ghost q0 = quorum_fps(ws.take(i as int), chain_root@, pin_set_hash_hex@);
        let ghost q1 = quorum_fps(ws.take(i + 1), chain_root@, pin_set_hash_hex@);
        proof {
            assert(ws.take(i + 1)[i as int] == w@);
            assert forall|k: int| 0 <= k < i implies ws.take(i + 1)[k] == ws.take(i as int)[k] by {}
        }
        if w.chain_root == cr && w.pin_set_hash == h {
            proof {
                assert(q1 =~= q0.insert(w@.witness_fp)) by {
                    assert forall|fp: Seq<char>| q1.contains(fp) implies q0.insert(w@.witness_fp).contains(fp) by {
                        let k = choose|k: int| 0 <= k < ws.take(i + 1).len() && attests(ws.take(i + 1)[k], chain_root@, pin_set_hash_hex@) && #[trigger] ws.take(i + 1)[k].witness_fp == fp;
                        if k < i {
                            assert(ws.take(i as int)[k].witness_fp == fp);
                        }
                    }
                    assert forall|fp: Seq<char>| q0.insert(w@.witness_fp).contains(fp) implies q1.contains(fp) by {
                        if fp == w@.witness_fp {
                            assert(ws.take(i + 1)[i as int].witness_fp == fp);
                        } else {
                            let k = choose|k: int| 0 <= k < ws.take(i as int).len() && attests(ws.take(i as int)[k], chain_root@, pin_set_hash_hex@) && #[trigger] ws.take(i as int)[k].witness_fp == fp;
                            assert(ws.take(i + 1)[k].witness_fp == fp);
                        }
                    }
                }
            }
            if !contains_string(&fps, &w.witness_fp) {
                fps.push(w.witness_fp.clone());
                proof {
                    assert(seq_views(fps@) =~= before.push(w@.witness_fp));
                    before.lemma_push_to_set_commute(w@.witness_fp);
                    assert forall|a: int, b: int| 0 <= a < b < seq_views(fps@).len() implies seq_views(fps@)[a] != seq_views(fps@)[b] by {
                        if b == before.len() {
                            assert(before[a] == seq_views(fps@)[a]);
                        } else {
                            assert(before[a] == seq_views(fps@)[a]);
                            assert(before[b] == seq_views(fps@)[b]);
                        }
                    }
                }
            } else {
                proof {
                    assert(before.to_set() =~= before.to_set().insert(w@.witness_fp));
                }
            }
        } else {
            proof {
                assert(q1 =~= q0) by {
                    assert forall|fp: Seq<char>| q1.contains(fp) implies q0.contains(fp) by {
                        let k = choose|k: int| 0 <= k < ws.take(i + 1).len() && attests(ws.take(i + 1)[k], chain_root@, pin_set_hash_hex@) && #[trigger] ws.take(i + 1)[k].witness_fp == fp;
                        assert(k != i);
                        assert(ws.take(i as int)[k].witness_fp == fp);
                    }
                    assert forall|fp: Seq<char>| q0.contains(fp) implies q1.contains(fp) by {
                        let k = choose|k: int| 0 <= k < ws.take(i as int).len() && attests(ws.take(i as int)[k], chain_root@, pin_set_hash_hex@) && #[trigger] ws.take(i as int)[k].witness_fp == fp;
                        assert(ws.take(i + 1)[k].witness_fp == fp);
                    }
                }
            }
        }
        i = i + 1;
    }
    proof {
        assert(ws.take(witnesses.len() as int) =~= ws);
        seq_views(fps@).unique_seq_to_set();
    }
    fps.len() as u64
}

/// The error of an unmet quorum.
pub open spec fn quorum_error(required: u64, got: u64) -> MemErrorView {
    MemErrorView::Coin(
        "quorum not met: need "@ + dec(required as nat) + " distinct witness_fp, got "@ + dec(
            got as nat,
        ) + " (run its-memory witness on peer hosts)"@,
    )
}

/// Checks that at least `required` distinct hosts attest to the chain root
/// and to these pins.
pub fn require_quorum_met(
    witnesses: &Vec<MemoryWitness>,
    chain_root: &str,
    pins: &Vec<MemoryPin>,
    required: u64,
) -> (r: Result<(), MemError>)
    ensures
        ({
            let got = quorum_fps(
                seq_views(witnesses@),
                chain_root@,
                pin_set_hash_spec(seq_views(pins@)),
            ).len();
            if required == 0 || got >= required {
                r is Ok
            } else {
                r matches Err(e) && e@ == quorum_error(required, got as u64)
            }
        }),
{
    if required == 0 {
        return Ok(());
    }
    let hash = pin_set_hash(pins);
    let count = count_quorum_witnesses(witnesses, chain_root, hash.as_str());
    if count < required {
        let mut m: Vec<char> = Vec::new();
        push_str(&mut m, "quorum not met: need ");
        push_dec(&mut m, required);
        push_str(&mut m, " distinct witness_fp, got ");
        push_dec(&mut m, count);
        push_str(&mut m, " (run its-memory witness on peer hosts)");
        return Err(MemError::Coin(string_of(&m)));
    }
    Ok(())
}

/// The witness a host writes for a room's pins under a chain root at time
/// `now`; a host without a fingerprint cannot witness.
pub fn make_witness(
    room_wire_pk: &str,
    chain_root: &str,
    pins: &Vec<MemoryPin>,
    witness_fp: &str,
    now: u64,
) -> (r: Result<MemoryWitness, MemError>)
    ensures
        witness_fp@.len() == 0 ==> (r matches Err(e) && e@ == MemErrorView::Coin(
            "witness_fp unavailable"@,
        )),
        witness_fp@.len() > 0 ==> (r matches Ok(w) && w@ == MemoryWitnessView {
            room_wire_pk: normalize_pk_spec(room_wire_pk@),
            chain_root: chain_root@,
            pin_set_hash: pin_set_hash_spec(seq_views(pins@)),
            witness_fp: witness_fp@,
            epoch: now,
        }),
{
    if witness_fp.unicode_len() == 0 {
        return Err(coin_err("witness_fp unavailable"));
    }
    Ok(
        MemoryWitness {
            room_wire_pk: normalize_pk(room_wire_pk),
            chain_root: String::from_str(chain_root),
            pin_set_hash: pin_set_hash(pins),
            witness_fp: String::from_str(witness_fp),
            epoch: now,
        },
    )
}

} // verus!
