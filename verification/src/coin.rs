//! ITS-CHANNEL-COIN minting: what a room's pins add up to, the payload and
//! root material that the SSS chain binds, and the checks that validate a
//! published coin against a fresh mint.

use vstd::prelude::*;

use std::path::PathBuf;

use vstd::string::StrSliceExecFns;
use vstd::utf8::encode_utf8;

use crate::error::{coin_err, MemError, MemErrorView};
use crate::pipe::{first_field, frame_seq_of, parse_ssc_link0_hex, ssc_link0, try_parse_frame_room_id, try_parse_frame_seq, SssChainRequest};
use crate::text::{lines, push_str, string_of};
use crate::vault::{normalize_pk, normalize_pk_spec};
use crate::wire::{fingerprint_slices_cleanly, is_bad_wire_error, opt_view, pin_wire, room_id_fingerprint, room_id_fp_spec, ChannelCoinManifest, ChannelCoinView, MemoryPin, MemoryPinView};
use crate::order::seq_views;

verus! {

/// Bytes per SSS chain link of a channel coin.
pub const COIN_LINK_BYTE_LEN: usize = 16;

/// How to mint a channel coin.
pub struct MintOptions {
    pub room_wire_pk: String,
    pub pin_dir: Option<PathBuf>,
    pub room_id: Option<String>,
    pub decrypt_pk: Option<PathBuf>,
    pub decrypt_sk: Option<PathBuf>,
    pub quorum_replicas: Option<u64>,
    pub ssc_out: Option<PathBuf>,
    pub require_published: bool,
    pub registry_visible: bool,
    /// The room's timelock unlock epoch: pins below it are sealed.
    pub timelock_unlock_epoch: Option<u64>,
}

/// Both halves of the decryption key pair are given.
pub open spec fn has_keys(o: MintOptions) -> bool {
    o.decrypt_pk is Some && o.decrypt_sk is Some
}

// ---------------------------------------------------------------------------
// Root material and link arithmetic.
// ---------------------------------------------------------------------------

/// `ITS-COIN-sss-root-v1`, a zero byte, then the room key.
pub open spec fn coin_root_spec(room_wire_pk: Seq<char>) -> Seq<u8> {
    encode_utf8("ITS-COIN-sss-root-v1"@) + seq![0u8] + encode_utf8(room_wire_pk)
}

/// The root material of a room's coin chain.
pub fn coin_root_material(room_wire_pk: &str) -> (r: Vec<u8>)
    ensures
        r@ == coin_root_spec(room_wire_pk@),
{
    let mut out = "ITS-COIN-sss-root-v1".as_bytes_vec();
    out.push(0);
    let mut pk = room_wire_pk.as_bytes_vec();
    out.append(&mut pk);
    out
}

/// The payload length rounded up to whole links, at least one link.
pub open spec fn link_aligned(len: nat, link: nat) -> nat
    recommends
        link > 0,
{
    let raw = if len < link {
        link
    } else {
        len
    };
    (((raw + link - 1) / link as int) * link) as nat
}

/// `len` rounded up to whole links of `link` bytes, at least one link.
pub fn link_aligned_len(len: usize, link: usize) -> (r: usize)
    requires
        link > 0,
        len + link <= usize::MAX,
        link + link <= usize::MAX,
    ensures
        r == link_aligned(len as nat, link as nat),
{
    let raw = if len < link {
        link
    } else {
        len
    };
    let t = raw + link - 1;
    let q = t / link;
    assert(q * link <= t) by (nonlinear_arith)
        requires
            q == t / link,
            link > 0,
    ;
    q * link
}

/// Bytes of SSS chain generated for a payload of `payload_len` bytes.
pub fn sss_total_bytes(payload_len: usize) -> (r: usize)
    requires
        payload_len + COIN_LINK_BYTE_LEN <= usize::MAX,
    ensures
        r == link_aligned(payload_len as nat, COIN_LINK_BYTE_LEN as nat),
{
    link_aligned_len(payload_len, COIN_LINK_BYTE_LEN)
}

// ---------------------------------------------------------------------------
// The coin payload: every pin's wire, in order.
// ---------------------------------------------------------------------------

/// The pins' wires concatenated, or `None` when a pin's wire does not decode.
pub open spec fn wires_of(ps: Seq<MemoryPinView>) -> Option<Seq<u8>>
    decreases ps.len(),
{
    if ps.len() == 0 {
        Some(seq![])
    } else {
        let a = wires_of(ps.drop_last());
        let b = pin_wire(ps.last());
        if a is Some && b is Some {
            Some(a->0 + b->0)
        } else {
            None
        }
    }
}

/// The payload bound by a coin: the wires, or a fixed marker when they are
/// all empty.
pub open spec fn coin_payload_spec(w: Seq<u8>) -> Seq<u8> {
    if w.len() == 0 {
        encode_utf8("ITS-COIN-empty"@)
    } else {
        w
    }
}

/// Concatenates the pins' wires (the first pin whose wire does not decode
/// gives the error).
fn concat_wires(pins: &Vec<MemoryPin>) -> (r: Result<Vec<u8>, MemError>)
    ensures
        match wires_of(seq_views(pins@)) {
            Some(w) => r matches Ok(v) && v@ == w,
            None => r matches Err(e) && is_bad_wire_error(e@),
        },
{
    let ghost ps = seq_views(pins@);
    let mut out: Vec<u8> = Vec::new();
    let mut i: usize = 0;
    assert(ps.take(0) =~= Seq::<MemoryPinView>::empty());
    while i < pins.len()
        invariant
            ps == seq_views(pins@),
            i <= pins.len(),
            wires_of(ps.take(i as int)) == Some(out@),
        decreases pins.len() - i,
    {
        proof {
            assert(ps.take(i + 1).drop_last() =~= ps.take(i as int));
            assert(ps.take(i + 1).last() == pins@[i as int]@);
        }
        match pins[i].wire_bytes() {
            Ok(w) => {
                let mut w = w;
                out.append(&mut w);
            },
            Err(e) => {
                proof {
                    lemma_wires_none_extends(ps, i + 1);
                }
                return Err(e);
            },
        }
        i = i + 1;
    }
    assert(ps.take(pins.len() as int) =~= ps);
    Ok(out)
}

proof fn lemma_wires_none_extends(ps: Seq<MemoryPinView>, k: int)
    requires
        0 <= k <= ps.len(),
        wires_of(ps.take(k)) is None,
    ensures
        wires_of(ps) is None,
    decreases ps.len() - k,
{
    if k < ps.len() {
        assert(ps.take(k + 1).drop_last() =~= ps.take(k));
        lemma_wires_none_extends(ps, k + 1);
    } else {
        assert(ps.take(k) =~= ps);
    }
}

/// The payload a channel coin's chain is generated for.
pub fn build_coin_payload(pins: &Vec<MemoryPin>) -> (r: Result<Vec<u8>, MemError>)
    ensures
        match wires_of(seq_views(pins@)) {
            Some(w) => r matches Ok(v) && v@ == coin_payload_spec(w),
            None => r matches Err(e) && is_bad_wire_error(e@),
        },
{
    let mut out = concat_wires(pins)?;
    if out.len() == 0 {
        out = "ITS-COIN-empty".as_bytes_vec();
    }
    Ok(out)
}

// ---------------------------------------------------------------------------
// Minting.
// ---------------------------------------------------------------------------

/// The error of a mint with no pins.
pub open spec fn no_pins_error(require_published: bool) -> MemErrorView {
    if require_published {
        MemErrorView::Coin("no published pins to mint (run its-memory publish-pins first)"@)
    } else {
        MemErrorView::Coin("no pins to mint"@)
    }
}

/// A mint has nothing to mint: no pins, or (when published pins are
/// required) no pin with a publication marker. `published` flags each pin.
pub open spec fn nothing_to_mint(o: MintOptions, published: Seq<bool>) -> bool {
    published.len() == 0 || (o.require_published && !published.contains(true))
}

/// Whether some flag is set.
pub fn any_set(flags: &Vec<bool>) -> (b: bool)
    ensures
        b == flags@.contains(true),
{
    let mut i: usize = 0;
    while i < flags.len()
        invariant
            i <= flags.len(),
            forall|k: int| 0 <= k < i ==> !flags@[k],
        decreases flags.len() - i,
    {
        if flags[i] {
            assert(flags@[i as int] == true);
            return true;
        }
        i = i + 1;
    }
    assert(!flags@.contains(true)) by {
        if flags@.contains(true) {
            let k = choose|k: int| 0 <= k < flags@.len() && flags@[k] == true;
            assert(!flags@[k]);
        }
    }
    false
}

fn no_pins(require_published: bool) -> (e: MemError)
    ensures
        e@ == no_pins_error(require_published),
{
    if require_published {
        coin_err("no published pins to mint (run its-memory publish-pins first)")
    } else {
        coin_err("no pins to mint")
    }
}

/// The payload is too large to be rounded to whole links.
pub open spec fn payload_too_large(w: Seq<u8>) -> bool {
    coin_payload_spec(w).len() + COIN_LINK_BYTE_LEN > usize::MAX
}

/// What the SSS chain of a mint is generated from; `Err` exactly when the
/// mint fails before the chain is made. The chain is generated from the
/// room's root material over the payload length rounded to whole links: the
/// payload bytes themselves are not handed to the chain generator (the coin
/// binds them through `frame_count`, `memory_bytes` and the re-mint that
/// validation performs). `published` flags the pins that carry a
/// publication marker.
pub fn coin_chain_request(opts: &MintOptions, pins: &Vec<MemoryPin>, published: &Vec<bool>) -> (r: Result<
    SssChainRequest,
    MemError,
>)
    requires
        published@.len() == pins@.len(),
    ensures
        nothing_to_mint(*opts, published@) ==> (r matches Err(e) && e@ == no_pins_error(opts.require_published)),
        !nothing_to_mint(*opts, published@) ==> match wires_of(seq_views(pins@)) {
            None => r matches Err(e) && is_bad_wire_error(e@),
            Some(w) => if payload_too_large(w) {
                r matches Err(e) && e@ == MemErrorView::Coin(
                    "payload too large for the SSS chain"@,
                )
            } else {
                r matches Ok(q) && q.root_material@ == coin_root_spec(
                    normalize_pk_spec(opts.room_wire_pk@),
                ) && q.total_bytes == link_aligned(
                    coin_payload_spec(w).len(),
                    COIN_LINK_BYTE_LEN as nat,
                ) && q.link_byte_len == COIN_LINK_BYTE_LEN
            },
        },
{
    if pins.len() == 0 || (opts.require_published && !any_set(published)) {
        return Err(no_pins(opts.require_published));
    }
    let payload = build_coin_payload(pins)?;
    if payload.len() > usize::MAX - COIN_LINK_BYTE_LEN {
        return Err(coin_err("payload too large for the SSS chain"));
    }
    let pk = normalize_pk(opts.room_wire_pk.as_str());
    Ok(
        SssChainRequest {
            root_material: coin_root_material(pk.as_str()),
            total_bytes: sss_total_bytes(payload.len()),
            link_byte_len: COIN_LINK_BYTE_LEN,
        },
    )
}

/// The sequence number a pin contributes: its hint, else (with keys) the
/// `seq:` of its decrypted frame.
pub open spec fn pin_seq(p: MemoryPinView, keys: bool, frame: Option<Seq<char>>) -> Option<u64> {
    if p.seq_hint is Some {
        p.seq_hint
    } else if keys && frame is Some {
        frame_seq_of(frame->0)
    } else {
        None
    }
}

pub open spec fn max_u64(a: u64, b: u64) -> u64 {
    if a < b {
        b
    } else {
        a
    }
}

/// The largest sequence number the pins contribute (zero when none does).
pub open spec fn last_seq_of(ps: Seq<MemoryPinView>, keys: bool, fs: Seq<Option<Seq<char>>>) -> u64
    decreases ps.len(),
{
    if ps.len() == 0 {
        0
    } else {
        let rest = last_seq_of(ps.drop_last(), keys, fs.drop_last());
        match pin_seq(ps.last(), keys, fs[ps.len() - 1]) {
            Some(s) => max_u64(rest, s),
            None => rest,
        }
    }
}

/// The largest pool epoch among the pins (zero for none).
pub open spec fn last_epoch_of(ps: Seq<MemoryPinView>) -> u64
    decreases ps.len(),
{
    if ps.len() == 0 {
        0
    } else {
        max_u64(last_epoch_of(ps.drop_last()), ps.last().pool_epoch)
    }
}

/// Law: a mint's last sequence number is the largest one its pins give:
/// no pin gives a larger one, it is one that a pin gives when any pin gives
/// one, and it is zero when none does.
pub proof fn lemma_last_seq_is_largest(ps: Seq<MemoryPinView>, keys: bool, fs: Seq<Option<Seq<char>>>)
    requires
        fs.len() == ps.len(),
    ensures
        forall|i: int|
            0 <= i < ps.len() && (#[trigger] pin_seq(ps[i], keys, fs[i])) is Some ==> pin_seq(
                ps[i],
                keys,
                fs[i],
            )->0 <= last_seq_of(ps, keys, fs),
        (exists|i: int| 0 <= i < ps.len() && (#[trigger] pin_seq(ps[i], keys, fs[i])) is Some) ==> exists|i: int|
            0 <= i < ps.len() && #[trigger] pin_seq(ps[i], keys, fs[i]) == Some(last_seq_of(ps, keys, fs)),
        (forall|i: int| 0 <= i < ps.len() ==> (#[trigger] pin_seq(ps[i], keys, fs[i])) is None) ==> last_seq_of(
            ps,
            keys,
            fs,
        ) == 0,
    decreases ps.len(),
{
    if ps.len() > 0 {
        let n = ps.len() - 1;
        let ps0 = ps.drop_last();
        let fs0 = fs.drop_last();
        lemma_last_seq_is_largest(ps0, keys, fs0);
        assert forall|i: int| 0 <= i < n implies #[trigger] pin_seq(ps[i], keys, fs[i]) == pin_seq(
            ps0[i],
            keys,
            fs0[i],
        ) by {
            assert(ps0[i] == ps[i]);
            assert(fs0[i] == fs[i]);
        }
        if exists|i: int| 0 <= i < ps.len() && (#[trigger] pin_seq(ps[i], keys, fs[i])) is Some {
            if pin_seq(ps[n], keys, fs[n]) is None {
                let i = choose|i: int| 0 <= i < ps.len() && (#[trigger] pin_seq(ps[i], keys, fs[i])) is Some;
                assert(pin_seq(ps0[i], keys, fs0[i]) is Some);
                let j = choose|j: int|
                    0 <= j < ps0.len() && #[trigger] pin_seq(ps0[j], keys, fs0[j]) == Some(last_seq_of(ps0, keys, fs0));
                assert(pin_seq(ps[j], keys, fs[j]) == pin_seq(ps0[j], keys, fs0[j]));
            } else if exists|i: int| 0 <= i < ps0.len() && (#[trigger] pin_seq(ps0[i], keys, fs0[i])) is Some {
                let j = choose|j: int|
                    0 <= j < ps0.len() && #[trigger] pin_seq(ps0[j], keys, fs0[j]) == Some(last_seq_of(ps0, keys, fs0));
                assert(pin_seq(ps[j], keys, fs[j]) == pin_seq(ps0[j], keys, fs0[j]));
                assert(pin_seq(ps[n], keys, fs[n]) == pin_seq(ps.last(), keys, fs[ps.len() - 1]));
            } else {
                assert(pin_seq(ps[n], keys, fs[n]) == pin_seq(ps.last(), keys, fs[ps.len() - 1]));
            }
        }
    }
}

/// Law: a mint's last pool epoch is the largest epoch among its pins, and
/// one of them (zero for no pins).
pub proof fn lemma_last_epoch_is_largest(ps: Seq<MemoryPinView>)
    ensures
        forall|i: int| 0 <= i < ps.len() ==> (#[trigger] ps[i]).pool_epoch <= last_epoch_of(ps),
        ps.len() > 0 ==> exists|i: int| 0 <= i < ps.len() && (#[trigger] ps[i]).pool_epoch == last_epoch_of(ps),
        ps.len() == 0 ==> last_epoch_of(ps) == 0,
    decreases ps.len(),
{
    if ps.len() > 0 {
        let ps0 = ps.drop_last();
        lemma_last_epoch_is_largest(ps0);
        assert forall|i: int| 0 <= i < ps.len() implies (#[trigger] ps[i]).pool_epoch <= last_epoch_of(ps) by {
            if i < ps0.len() {
                assert(ps0[i] == ps[i]);
            }
        }
        if ps0.len() > 0 {
            let j = choose|j: int| 0 <= j < ps0.len() && (#[trigger] ps0[j]).pool_epoch == last_epoch_of(ps0);
            assert(ps[j] == ps0[j]);
        }
        assert(ps[ps.len() - 1] == ps.last());
    }
}

/// The room id of the first decrypted frame that names one.
pub open spec fn frames_room_id(fs: Seq<Option<Seq<char>>>) -> Option<Seq<char>>
    decreases fs.len(),
{
    if fs.len() == 0 {
        None
    } else if fs[0] is Some && first_field(lines(fs[0]->0), "room_id:"@) is Some {
        first_field(lines(fs[0]->0), "room_id:"@)
    } else {
        frames_room_id(fs.drop_first())
    }
}

/// The room id a mint records: the given one, else (with keys) the first
/// one read from a decrypted frame.
pub open spec fn mint_room_id(o: MintOptions, fs: Seq<Option<Seq<char>>>) -> Option<Seq<char>> {
    if o.room_id is Some {
        opt_view(o.room_id)
    } else if has_keys(o) {
        frames_room_id(fs)
    } else {
        None
    }
}

pub open spec fn frame_views(fs: Seq<Option<String>>) -> Seq<Option<Seq<char>>> {
    fs.map_values(|f: Option<String>| opt_view(f))
}

/// The publication times that are known, in order.
pub open spec fn known_times(ts: Seq<Option<u64>>) -> Seq<u64>
    decreases ts.len(),
{
    if ts.len() == 0 {
        seq![]
    } else {
        match ts.last() {
            Some(t) => known_times(ts.drop_last()).push(t),
            None => known_times(ts.drop_last()),
        }
    }
}

/// A pin counts toward memory weight unless it lies below the unlock epoch.
pub open spec fn unsealed(p: MemoryPinView, unlock: Option<u64>) -> bool {
    match unlock {
        Some(u) => p.pool_epoch >= u,
        None => true,
    }
}

/// The seconds a published, unsealed pin has been kept by `now`.
pub open spec fn pin_weight(p: MemoryPinView, t: Option<u64>, now: u64, unlock: Option<u64>) -> int {
    match t {
        Some(at) => if unsealed(p, unlock) && at <= now {
            now - at
        } else {
            0
        },
        None => 0,
    }
}

/// The sum of `pin_weight` over the pins.
pub open spec fn weight_sum(ps: Seq<MemoryPinView>, ts: Seq<Option<u64>>, now: u64, unlock: Option<u64>) -> int
    decreases ps.len(),
{
    if ps.len() == 0 {
        0
    } else {
        weight_sum(ps.drop_last(), ts.drop_last(), now, unlock) + pin_weight(
            ps.last(),
            ts[ps.len() - 1],
            now,
            unlock,
        )
    }
}

/// Memory weight: the sum of each published, unsealed pin's kept seconds,
/// saturating at `u64::MAX`.
pub open spec fn memory_weight_of(ps: Seq<MemoryPinView>, ts: Seq<Option<u64>>, now: u64, unlock: Option<u64>) -> u64 {
    let w = weight_sum(ps, ts, now, unlock);
    if w <= u64::MAX {
        w as u64
    } else {
        u64::MAX
    }
}

/// Law: a published pin at or above the unlock epoch adds the seconds it
/// has been kept (`now` minus its publication time) to the memory weight; a
/// pin without a publication time, a pin below the unlock epoch, or one
/// published after `now` adds nothing.
pub proof fn lemma_memory_weight_step(
    ps: Seq<MemoryPinView>,
    ts: Seq<Option<u64>>,
    p: MemoryPinView,
    t: Option<u64>,
    now: u64,
    unlock: Option<u64>,
)
    requires
        ts.len() == ps.len(),
    ensures
        (t matches Some(at) && at <= now && (unlock matches Some(u) ==> p.pool_epoch >= u)) ==> weight_sum(
            ps.push(p),
            ts.push(t),
            now,
            unlock,
        ) == weight_sum(ps, ts, now, unlock) + (now - t->0),
        (t is None || (unlock matches Some(u) && p.pool_epoch < u) || (t matches Some(at) && at > now))
            ==> weight_sum(ps.push(p), ts.push(t), now, unlock) == weight_sum(ps, ts, now, unlock),
        weight_sum(ps, ts, now, unlock) >= 0,
{
    assert(ps.push(p).drop_last() =~= ps);
    assert(ts.push(t).drop_last() =~= ts);
    lemma_weight_nonneg(ps, ts, now, unlock);
}

proof fn lemma_weight_nonneg(ps: Seq<MemoryPinView>, ts: Seq<Option<u64>>, now: u64, unlock: Option<u64>)
    ensures
        weight_sum(ps, ts, now, unlock) >= 0,
    decreases ps.len(),
{
    if ps.len() > 0 {
        lemma_weight_nonneg(ps.drop_last(), ts.drop_last(), now, unlock);
    }
}

/// Law: the sealed pins are exactly those below the unlock epoch.
pub proof fn lemma_sealed_count_is_below(ps: Seq<MemoryPinView>, u: u64)
    ensures
        sealed_count(ps, u) == ps.filter(|p: MemoryPinView| p.pool_epoch < u).len(),
    decreases ps.len(),
{
    reveal(Seq::filter);
    if ps.len() > 0 {
        lemma_sealed_count_is_below(ps.drop_last(), u);
    } else {
        assert(ps.filter(|p: MemoryPinView| p.pool_epoch < u) =~= Seq::<MemoryPinView>::empty());
    }
}

/// The pins below the unlock epoch.
pub open spec fn sealed_count(ps: Seq<MemoryPinView>, u: u64) -> nat
    decreases ps.len(),
{
    if ps.len() == 0 {
        0
    } else {
        sealed_count(ps.drop_last(), u) + if ps.last().pool_epoch < u {
            1nat
        } else {
            0nat
        }
    }
}

/// The epochs from the first pin up to the unlock epoch (zero when the
/// first pin is already unlocked).
pub open spec fn timelock_span(ps: Seq<MemoryPinView>, u: u64) -> u64 {
    let lo = seq_min(pin_epochs(ps));
    if lo <= u {
        (u - lo) as u64
    } else {
        0
    }
}

/// The coin a successful mint describes.
pub open spec fn minted_coin(
    o: MintOptions,
    ps: Seq<MemoryPinView>,
    fs: Seq<Option<Seq<char>>>,
    w: Seq<u8>,
    hosted_seconds: u64,
    ts: Seq<Option<u64>>,
    now: u64,
    chain_root: Seq<char>,
    host_fp: Seq<char>,
) -> ChannelCoinView {
    ChannelCoinView {
        room_wire_pk: normalize_pk_spec(o.room_wire_pk@),
        room_id_fp: match mint_room_id(o, fs) {
            Some(r) => room_id_fp_spec(r),
            None => "0000000000000000"@,
        },
        chain_root,
        frame_count: ps.len() as u64,
        last_seq: last_seq_of(ps, has_keys(o), fs),
        last_pool_epoch: last_epoch_of(ps),
        memory_bytes: w.len() as u64,
        hosted_seconds,
        registry_visible: o.registry_visible,
        quorum_replicas: o.quorum_replicas,
        host_fp: Some(host_fp),
        pin_epoch_span: seq_span(pin_epochs(ps)),
        message_hosted_span_seconds: if known_times(ts).len() >= 2 {
            seq_span(known_times(ts))
        } else {
            0
        },
        memory_weight_seconds: memory_weight_of(ps, ts, now, o.timelock_unlock_epoch),
        timelock_epoch_span: match o.timelock_unlock_epoch {
            Some(u) => Some(timelock_span(ps, u)),
            None => None,
        },
        timelock_sealed_frames: match o.timelock_unlock_epoch {
            Some(u) => Some(sealed_count(ps, u) as u64),
            None => None,
        },
    }
}

/// Assembles a channel coin from a room's pins (in listing order), the
/// frames decrypted from them (`None` where there are no keys or a wire does
/// not decrypt), the room's hosted seconds, each pin's publication time
/// (where it has a marker), which pins carry a publication marker, the
/// current time, the `.ssc` text generated for the payload with whether it
/// validated, and this host's fingerprint. With published pins required, a
/// mint where no pin carries a marker is refused.
pub fn mint_coin(
    opts: &MintOptions,
    pins: &Vec<MemoryPin>,
    frames: &Vec<Option<String>>,
    hosted_seconds: u64,
    published_at: &Vec<Option<u64>>,
    published: &Vec<bool>,
    now: u64,
    ssc_text: &str,
    ssc_valid: bool,
    host_fp: &str,
) -> (r: Result<ChannelCoinManifest, MemError>)
    requires
        frames@.len() == pins@.len(),
        published_at@.len() == pins@.len(),
        published@.len() == pins@.len(),
        mint_room_id(*opts, frame_views(frames@)) matches Some(id) ==> fingerprint_slices_cleanly(id),
    ensures
        nothing_to_mint(*opts, published@) ==> (r matches Err(e) && e@ == no_pins_error(opts.require_published)),
        r matches Ok(m) ==> forall|i: int|
            0 <= i < pins@.len() && (#[trigger] pins@[i]).seq_hint is Some ==> pins@[i].seq_hint->0
                <= m.last_seq,
        r matches Ok(m) ==> forall|i: int|
            0 <= i < pins@.len() ==> (#[trigger] pins@[i]).pool_epoch <= m.last_pool_epoch,
        r matches Ok(m) ==> exists|i: int|
            0 <= i < pins@.len() && (#[trigger] pins@[i]).pool_epoch == m.last_pool_epoch,
        r matches Ok(m) ==> ((forall|i: int| 0 <= i < pins@.len() ==> (#[trigger] pins@[i]).seq_hint is Some)
            ==> exists|i: int| 0 <= i < pins@.len() && (#[trigger] pins@[i]).seq_hint == Some(m.last_seq)),
        !nothing_to_mint(*opts, published@) ==> match wires_of(seq_views(pins@)) {
            None => r matches Err(e) && is_bad_wire_error(e@),
            Some(w) => match ssc_link0(lines(ssc_text@), false) {
                Err(e) => r matches Err(x) && x@ == e,
                Ok(root) => if !ssc_valid {
                    r matches Err(x) && x@ == MemErrorView::Coin(
                        "sss_chain validate failed after mint"@,
                    )
                } else {
                    r matches Ok(m) && m@ == minted_coin(
                        *opts,
                        seq_views(pins@),
                        frame_views(frames@),
                        w,
                        hosted_seconds,
                        published_at@,
                        now,
                        root,
                        host_fp@,
                    )
                },
            },
        },
{
    if pins.len() == 0 || (opts.require_published && !any_set(published)) {
        return Err(no_pins(opts.require_published));
    }
    let wires = concat_wires(pins)?;
    let memory_bytes = wires.len() as u64;
    let ghost ps = seq_views(pins@);
    let ghost fs = frame_views(frames@);
    let keys = opts.decrypt_pk.is_some() && opts.decrypt_sk.is_some();
    let mut last_seq: u64 = 0;
    let mut last_pool_epoch: u64 = 0;
    let mut room_id: Option<String> = match &opts.room_id {
        Some(r) => Some(r.clone()),
        None => None,
    };
    let mut i: usize = 0;
    assert(ps.take(0) =~= Seq::<MemoryPinView>::empty());
    assert(fs.take(0) =~= Seq::<Option<Seq<char>>>::empty());
    assert(fs.skip(0) =~= fs);
    while i < pins.len()
        invariant
            ps == seq_views(pins@),
            fs == frame_views(frames@),
            frames@.len() == pins@.len(),
            i <= pins.len(),
            keys == has_keys(*opts),
            last_seq == last_seq_of(ps.take(i as int), keys, fs.take(i as int)),
            last_pool_epoch == last_epoch_of(ps.take(i as int)),
            opts.room_id is Some ==> opt_view(room_id) == opt_view(opts.room_id),
            opts.room_id is None && room_id is None ==> (keys ==> frames_room_id(fs) == frames_room_id(fs.skip(i as int))),
            opts.room_id is None && room_id is Some ==> keys && opt_view(room_id) == frames_room_id(fs),
            opts.room_id is None && !keys ==> room_id is None,
        decreases pins.len() - i,
    {
        let pin = &pins[i];
        proof {
            assert(ps.take(i + 1).drop_last() =~= ps.take(i as int));
            assert(fs.take(i + 1).drop_last() =~= fs.take(i as int));
            assert(ps.take(i + 1).last() == pin@);
            assert(fs.take(i + 1)[i as int] == fs[i as int]);
            assert(fs[i as int] == opt_view(frames@[i as int]));
        }
        if last_pool_epoch < pin.pool_epoch {
            last_pool_epoch = pin.pool_epoch;
        }
        let seq: Option<u64> = match pin.seq_hint {
            Some(s) => Some(s),
            None => if keys {
                match &frames[i] {
                    Some(f) => try_parse_frame_seq(f.as_str()),
                    None => None,
                }
            } else {
                None
            },
        };
        assert(seq == pin_seq(pin@, keys, fs[i as int]));
        if let Some(s) = seq {
            if last_seq < s {
                last_seq = s;
            }
        }
        if room_id.is_none() && keys {
            proof {
                assert(fs.skip(i as int)[0] == fs[i as int]);
                assert(fs.skip(i as int).drop_first() =~= fs.skip(i + 1));
            }
            if let Some(f) = &frames[i] {
                room_id = try_parse_frame_room_id(f.as_str());
            }
        }
        i = i + 1;
    }
    proof {
        assert(ps.take(pins.len() as int) =~= ps);
        assert(fs.take(pins.len() as int) =~= fs);
    }
    assert(opt_view(room_id) == mint_room_id(*opts, fs)) by {
        if opts.room_id is None && room_id is None && keys {
            assert(fs.skip(pins.len() as int).len() == 0);
        }
    }
    let chain_root = parse_ssc_link0_hex(ssc_text)?;
    if !ssc_valid {
        return Err(coin_err("sss_chain validate failed after mint"));
    }
    let room_id_fp = match &room_id {
        Some(r) => room_id_fingerprint(r.as_str()),
        None => String::from_str("0000000000000000"),
    };
    proof {
        lemma_last_seq_is_largest(ps, keys, fs);
        lemma_last_epoch_is_largest(ps);
        assert forall|i: int| 0 <= i < pins@.len() && (#[trigger] pins@[i]).seq_hint is Some implies pins@[i].seq_hint->0
            <= last_seq by {
            assert(ps[i] == pins@[i]@);
            assert(pin_seq(ps[i], keys, fs[i]) == pins@[i].seq_hint);
        }
        assert forall|i: int| 0 <= i < pins@.len() implies (#[trigger] pins@[i]).pool_epoch <= last_pool_epoch by {
            assert(ps[i] == pins@[i]@);
        }
        let j = choose|j: int| 0 <= j < ps.len() && (#[trigger] ps[j]).pool_epoch == last_epoch_of(ps);
        assert(ps[j] == pins@[j]@);
        if forall|i: int| 0 <= i < pins@.len() ==> (#[trigger] pins@[i]).seq_hint is Some {
            assert(ps[0] == pins@[0]@);
            assert(pin_seq(ps[0], keys, fs[0]) is Some);
            let k = choose|k: int| 0 <= k < ps.len() && #[trigger] pin_seq(ps[k], keys, fs[k]) == Some(last_seq_of(ps, keys, fs));
            assert(ps[k] == pins@[k]@);
            assert(pins@[k].seq_hint is Some);
        }
    }
    let times = known_times_of(published_at);
    let (pin_epoch_span, message_hosted_span_seconds) = pin_span_metrics(pins, &times);
    let memory_weight_seconds = memory_weight(pins, published_at, now, opts.timelock_unlock_epoch);
    let (timelock_epoch_span, timelock_sealed_frames) = match opts.timelock_unlock_epoch {
        Some(u) => (Some(timelock_span_of(pins, u)), Some(sealed_frames(pins, u))),
        None => (None, None),
    };
    Ok(
        ChannelCoinManifest {
            room_wire_pk: normalize_pk(opts.room_wire_pk.as_str()),
            room_id_fp,
            chain_root,
            frame_count: pins.len() as u64,
            last_seq,
            last_pool_epoch,
            memory_bytes,
            hosted_seconds,
            registry_visible: opts.registry_visible,
            quorum_replicas: opts.quorum_replicas,
            host_fp: Some(String::from_str(host_fp)),
            pin_epoch_span,
            message_hosted_span_seconds,
            memory_weight_seconds,
            timelock_epoch_span,
            timelock_sealed_frames,
        },
    )
}

/// The known publication times, in order.
fn known_times_of(ts: &Vec<Option<u64>>) -> (r: Vec<u64>)
    ensures
        r@ == known_times(ts@),
{
    let mut r: Vec<u64> = Vec::new();
    let mut i: usize = 0;
    while i < ts.len()
        invariant
            i <= ts.len(),
            r@ == known_times(ts@.take(i as int)),
        decreases ts.len() - i,
    {
        assert(ts@.take(i + 1).drop_last() =~= ts@.take(i as int));
        if let Some(t) = ts[i] {
            r.push(t);
        }
        i = i + 1;
    }
    assert(ts@.take(ts.len() as int) =~= ts@);
    r
}

/// Memory weight of the pins (see `memory_weight_of`).
pub fn memory_weight(pins: &Vec<MemoryPin>, published_at: &Vec<Option<u64>>, now: u64, unlock: Option<u64>) -> (r: u64)
    requires
        published_at@.len() == pins@.len(),
    ensures
        r == memory_weight_of(seq_views(pins@), published_at@, now, unlock),
{
    let ghost ps = seq_views(pins@);
    let mut w: u64 = 0;
    let mut i: usize = 0;
    while i < pins.len()
        invariant
            i <= pins.len(),
            published_at@.len() == pins@.len(),
            ps == seq_views(pins@),
            w == memory_weight_of(ps.take(i as int), published_at@.take(i as int), now, unlock),
            weight_sum(ps.take(i as int), published_at@.take(i as int), now, unlock) >= 0,
        decreases pins.len() - i,
    {
        let ghost prev = weight_sum(ps.take(i as int), published_at@.take(i as int), now, unlock);
        proof {
            assert(ps.take(i + 1).drop_last() =~= ps.take(i as int));
            assert(published_at@.take(i + 1).drop_last() =~= published_at@.take(i as int));
            assert(ps.take(i + 1).last() == pins@[i as int]@);
            assert(published_at@.take(i + 1)[i as int] == published_at@[i as int]);
        }
        let open = match unlock {
            Some(u) => pins[i].pool_epoch >= u,
            None => true,
        };
        let add: u64 = match published_at[i] {
            Some(at) => if open && at <= now {
                now - at
            } else {
                0
            },
            None => 0,
        };
        assert(add == pin_weight(pins@[i as int]@, published_at@[i as int], now, unlock));
        assert(weight_sum(ps.take(i + 1), published_at@.take(i + 1), now, unlock) == prev + add);
        w = w.saturating_add(add);
        i = i + 1;
    }
    proof {
        assert(ps.take(pins.len() as int) =~= ps);
        assert(published_at@.take(pins.len() as int) =~= published_at@);
    }
    w
}

/// How many pins lie below the unlock epoch `u`.
pub fn sealed_frames(pins: &Vec<MemoryPin>, u: u64) -> (r: u64)
    ensures
        r == sealed_count(seq_views(pins@), u),
{
    let ghost ps = seq_views(pins@);
    let mut n: u64 = 0;
    let mut i: usize = 0;
    while i < pins.len()
        invariant
            i <= pins.len(),
            ps == seq_views(pins@),
            n == sealed_count(ps.take(i as int), u),
            n <= i,
        decreases pins.len() - i,
    {
        proof {
            assert(ps.take(i + 1).drop_last() =~= ps.take(i as int));
            assert(ps.take(i + 1).last() == pins@[i as int]@);
        }
        if pins[i].pool_epoch < u {
            n = n + 1;
        }
        i = i + 1;
    }
    proof {
        assert(ps.take(pins.len() as int) =~= ps);
    }
    n
}

/// Epochs from the first pin up to the unlock epoch `u`.
pub fn timelock_span_of(pins: &Vec<MemoryPin>, u: u64) -> (r: u64)
    ensures
        r == timelock_span(seq_views(pins@), u),
{
    let epochs = epochs_of(pins);
    let lo = min_of(&epochs);
    if lo <= u {
        u - lo
    } else {
        0
    }
}

// ---------------------------------------------------------------------------
// Validation of a published coin.
// ---------------------------------------------------------------------------

/// The options a coin is re-minted with to validate it: published pins are
/// required when the coin claims memory or hosting.
pub fn validation_mint_options(
    manifest: &ChannelCoinManifest,
    pin_dir: Option<PathBuf>,
    decrypt_pk: Option<PathBuf>,
    decrypt_sk: Option<PathBuf>,
) -> (o: MintOptions)
    ensures
        o.room_wire_pk@ == manifest.room_wire_pk@,
        o.pin_dir == pin_dir,
        o.room_id is None,
        o.decrypt_pk == decrypt_pk,
        o.decrypt_sk == decrypt_sk,
        o.quorum_replicas == manifest.quorum_replicas,
        o.ssc_out is None,
        o.require_published == (manifest.memory_bytes > 0 || manifest.hosted_seconds > 0),
        o.registry_visible == manifest.registry_visible,
        o.timelock_unlock_epoch is None,
{
    MintOptions {
        room_wire_pk: manifest.room_wire_pk.clone(),
        pin_dir,
        room_id: None,
        decrypt_pk,
        decrypt_sk,
        quorum_replicas: manifest.quorum_replicas,
        ssc_out: None,
        require_published: manifest.memory_bytes > 0 || manifest.hosted_seconds > 0,
        registry_visible: manifest.registry_visible,
        timelock_unlock_epoch: None,
    }
}

/// What comparing a coin with its fresh mint finds.
pub open spec fn coin_check(m: ChannelCoinView, fresh: ChannelCoinView) -> Result<(), MemErrorView> {
    if fresh.chain_root != m.chain_root {
        Err(
            MemErrorView::Coin(
                "chain_root mismatch: expected "@ + m.chain_root + " got "@ + fresh.chain_root,
            ),
        )
    } else if fresh.frame_count != m.frame_count {
        Err(MemErrorView::Coin("frame_count mismatch"@))
    } else if fresh.memory_bytes != m.memory_bytes && m.memory_bytes > 0 {
        Err(MemErrorView::Coin("memory_bytes mismatch"@))
    } else if fresh.pin_epoch_span != m.pin_epoch_span && m.pin_epoch_span > 0 {
        Err(MemErrorView::Coin("pin_epoch_span mismatch"@))
    } else if fresh.message_hosted_span_seconds != m.message_hosted_span_seconds
        && m.message_hosted_span_seconds > 0 {
        Err(MemErrorView::Coin("message_hosted_span_seconds mismatch"@))
    } else {
        Ok(())
    }
}

/// A coin validates against a fresh mint that reproduces it.
pub proof fn lemma_coin_validates_against_itself(m: ChannelCoinView)
    ensures
        coin_check(m, m) is Ok,
{
}

/// Checks a published coin against a fresh mint of the same room: the
/// chain root and frame count must agree, and the memory size and the two
/// spans where the coin states them.
pub fn validate_coin(manifest: &ChannelCoinManifest, recomputed: &ChannelCoinManifest) -> (r:
    Result<(), MemError>)
    ensures
        match coin_check(manifest@, recomputed@) {
            Ok(()) => r is Ok,
            Err(e) => r matches Err(x) && x@ == e,
        },
{
    if !(recomputed.chain_root == manifest.chain_root) {
        let mut m: Vec<char> = Vec::new();
        push_str(&mut m, "chain_root mismatch: expected ");
        push_str(&mut m, manifest.chain_root.as_str());
        push_str(&mut m, " got ");
        push_str(&mut m, recomputed.chain_root.as_str());
        return Err(MemError::Coin(string_of(&m)));
    }
    if recomputed.frame_count != manifest.frame_count {
        return Err(coin_err("frame_count mismatch"));
    }
    if recomputed.memory_bytes != manifest.memory_bytes && manifest.memory_bytes > 0 {
        return Err(coin_err("memory_bytes mismatch"));
    }
    if recomputed.pin_epoch_span != manifest.pin_epoch_span && manifest.pin_epoch_span > 0 {
        return Err(coin_err("pin_epoch_span mismatch"));
    }
    if recomputed.message_hosted_span_seconds != manifest.message_hosted_span_seconds
        && manifest.message_hosted_span_seconds > 0 {
        return Err(coin_err("message_hosted_span_seconds mismatch"));
    }
    Ok(())
}

// ---------------------------------------------------------------------------
// Spans of a room's pins.
// ---------------------------------------------------------------------------

pub open spec fn seq_max(s: Seq<u64>) -> u64
    decreases s.len(),
{
    if s.len() == 0 {
        0
    } else if s.len() == 1 {
        s[0]
    } else {
        max_u64(seq_max(s.drop_last()), s.last())
    }
}

pub open spec fn seq_min(s: Seq<u64>) -> u64
    decreases s.len(),
{
    if s.len() == 0 {
        0
    } else if s.len() == 1 {
        s[0]
    } else if s.last() < seq_min(s.drop_last()) {
        s.last()
    } else {
        seq_min(s.drop_last())
    }
}

/// The largest minus the smallest (zero for an empty sequence).
pub open spec fn seq_span(s: Seq<u64>) -> u64 {
    (seq_max(s) - seq_min(s)) as u64
}

proof fn lemma_min_le_max(s: Seq<u64>)
    ensures
        seq_min(s) <= seq_max(s),
    decreases s.len(),
{
    if s.len() > 1 {
        lemma_min_le_max(s.drop_last());
    }
}

/// The smallest and largest of a nonempty sequence are elements of it and
/// bound every element.
proof fn lemma_min_max_bound(s: Seq<u64>)
    requires
        s.len() > 0,
    ensures
        forall|i: int| 0 <= i < s.len() ==> seq_min(s) <= #[trigger] s[i] <= seq_max(s),
        exists|i: int| 0 <= i < s.len() && #[trigger] s[i] == seq_min(s),
        exists|i: int| 0 <= i < s.len() && #[trigger] s[i] == seq_max(s),
    decreases s.len(),
{
    if s.len() > 1 {
        let s0 = s.drop_last();
        lemma_min_max_bound(s0);
        assert forall|i: int| 0 <= i < s.len() implies seq_min(s) <= #[trigger] s[i] <= seq_max(s) by {
            if i < s0.len() {
                assert(s0[i] == s[i]);
            }
        }
        let a = choose|i: int| 0 <= i < s0.len() && #[trigger] s0[i] == seq_min(s0);
        let b = choose|i: int| 0 <= i < s0.len() && #[trigger] s0[i] == seq_max(s0);
        assert(s[a] == s0[a]);
        assert(s[b] == s0[b]);
        assert(s[s.len() - 1] == s.last());
    } else {
        assert(s[0] == seq_min(s));
    }
}

/// Law: the span of a nonempty sequence is its widest gap: no two elements
/// differ by more, and two of them differ by exactly that much.
pub proof fn lemma_span_is_widest(s: Seq<u64>)
    requires
        s.len() > 0,
    ensures
        forall|i: int, j: int| 0 <= i < s.len() && 0 <= j < s.len() ==> s[i] - s[j] <= seq_span(s),
        exists|i: int, j: int| 0 <= i < s.len() && 0 <= j < s.len() && s[i] - s[j] == seq_span(s),
{
    lemma_min_max_bound(s);
    lemma_min_le_max(s);
    let a = choose|i: int| 0 <= i < s.len() && #[trigger] s[i] == seq_min(s);
    let b = choose|i: int| 0 <= i < s.len() && #[trigger] s[i] == seq_max(s);
    assert(s[b] - s[a] == seq_span(s));
}

fn span_of(v: &Vec<u64>) -> (r: u64)
    ensures
        r == seq_span(v@),
{
    if v.len() == 0 {
        return 0;
    }
    let mut lo = v[0];
    let mut hi = v[0];
    let mut i: usize = 1;
    assert(v@.take(1) =~= seq![v@[0]]);
    while i < v.len()
        invariant
            1 <= i <= v.len(),
            lo == seq_min(v@.take(i as int)),
            hi == seq_max(v@.take(i as int)),
        decreases v.len() - i,
    {
        assert(v@.take(i + 1).drop_last() =~= v@.take(i as int));
        if v[i] < lo {
            lo = v[i];
        }
        if hi < v[i] {
            hi = v[i];
        }
        i = i + 1;
    }
    assert(v@.take(v.len() as int) =~= v@);
    proof {
        lemma_min_le_max(v@);
    }
    hi - lo
}

pub open spec fn pin_epochs(ps: Seq<MemoryPinView>) -> Seq<u64> {
    ps.map_values(|p: MemoryPinView| p.pool_epoch)
}

fn epochs_of(pins: &Vec<MemoryPin>) -> (r: Vec<u64>)
    ensures
        r@ == pin_epochs(seq_views(pins@)),
{
    let mut epochs: Vec<u64> = Vec::new();
    let mut i: usize = 0;
    while i < pins.len()
        invariant
            i <= pins.len(),
            epochs@ == pin_epochs(seq_views(pins@)).take(i as int),
        decreases pins.len() - i,
    {
        epochs.push(pins[i].pool_epoch);
        i = i + 1;
        assert(epochs@ =~= pin_epochs(seq_views(pins@)).take(i as int));
    }
    assert(epochs@ =~= pin_epochs(seq_views(pins@)));
    epochs
}

fn min_of(v: &Vec<u64>) -> (r: u64)
    ensures
        r == seq_min(v@),
{
    if v.len() == 0 {
        return 0;
    }
    let mut lo = v[0];
    let mut i: usize = 1;
    assert(v@.take(1) =~= seq![v@[0]]);
    while i < v.len()
        invariant
            1 <= i <= v.len(),
            lo == seq_min(v@.take(i as int)),
        decreases v.len() - i,
    {
        assert(v@.take(i + 1).drop_last() =~= v@.take(i as int));
        if v[i] < lo {
            lo = v[i];
        }
        i = i + 1;
    }
    assert(v@.take(v.len() as int) =~= v@);
    lo
}

/// The spans a room's pins cover: from the earliest to the latest pool
/// epoch, and from the first to the last publication time (zero for fewer
/// than two publications).
pub fn pin_span_metrics(pins: &Vec<MemoryPin>, published_times: &Vec<u64>) -> (r: (u64, u64))
    ensures
        r.0 == seq_span(pin_epochs(seq_views(pins@))),
        r.1 == if published_times@.len() >= 2 {
            seq_span(published_times@)
        } else {
            0
        },
        forall|i: int, j: int|
            0 <= i < pins@.len() && 0 <= j < pins@.len() ==> pins@[i].pool_epoch - pins@[j].pool_epoch <= r.0,
        pins@.len() > 0 ==> exists|i: int, j: int|
            0 <= i < pins@.len() && 0 <= j < pins@.len() && pins@[i].pool_epoch - pins@[j].pool_epoch == r.0,
        pins@.len() == 0 ==> r.0 == 0,
        published_times@.len() >= 2 ==> forall|i: int, j: int|
            0 <= i < published_times@.len() && 0 <= j < published_times@.len() ==> published_times@[i]
                - published_times@[j] <= r.1,
        published_times@.len() >= 2 ==> exists|i: int, j: int|
            0 <= i < published_times@.len() && 0 <= j < published_times@.len() && published_times@[i]
                - published_times@[j] == r.1,
{
    let epochs = epochs_of(pins);
    let epoch_span = span_of(&epochs);
    let hosted_span = if published_times.len() >= 2 {
        span_of(published_times)
    } else {
        0
    };
    proof {
        let es = pin_epochs(seq_views(pins@));
        assert forall|i: int| 0 <= i < pins@.len() implies #[trigger] es[i] == pins@[i].pool_epoch by {
            assert(seq_views(pins@)[i] == pins@[i]@);
        }
        if pins@.len() > 0 {
            lemma_span_is_widest(es);
            let (a, b) = choose|a: int, b: int| 0 <= a < es.len() && 0 <= b < es.len() && es[a] - es[b] == seq_span(es);
            assert(es[a] == pins@[a].pool_epoch);
            assert(es[b] == pins@[b].pool_epoch);
            assert forall|i: int, j: int|
                0 <= i < pins@.len() && 0 <= j < pins@.len() implies pins@[i].pool_epoch - pins@[j].pool_epoch <= epoch_span by {
                assert(es[i] == pins@[i].pool_epoch);
                assert(es[j] == pins@[j].pool_epoch);
            }
        }
        if published_times@.len() >= 2 {
            lemma_span_is_widest(published_times@);
        }
    }
    (epoch_span, hosted_span)
}

} // verus!
