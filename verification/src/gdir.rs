//! ITS-GDIR-COIN minting: a host's own contribution receipts, their chain
//! payload, and the coin that counts them.

use vstd::prelude::*;

use vstd::string::StrSliceExecFns;
use vstd::utf8::encode_utf8;

use crate::coin::{link_aligned, link_aligned_len};
use crate::error::{coin_err, MemError, MemErrorView};
use crate::order::{is_stable_sort_by, key_lt, key_view, lemma_stable_sort_member, seq_views, sort_with_key, RankKey};
use crate::pipe::{parse_ssc_link0_hex, ssc_link0, SssChainRequest};
use crate::text::lines;
use crate::wire::{receipt_payload_chars, GdirCoinManifest, GdirCoinView, GdirReceipt, GdirReceiptView};

verus! {

/// Bytes per SSS chain link of a GDIR coin.
pub const GDIR_LINK_BYTE_LEN: usize = 16;

/// How to mint a GDIR coin.
pub struct MintGdirOptions {
    pub require_blind_or_infra: bool,
}

// ---------------------------------------------------------------------------
// Receipts.
// ---------------------------------------------------------------------------

/// The receipts recorded by the host with fingerprint `fp`.
pub open spec fn own_receipts(rs: Seq<GdirReceiptView>, fp: Seq<char>) -> Seq<GdirReceiptView> {
    rs.filter(|r: GdirReceiptView| r.contrib_fp == fp)
}

/// Receipts are listed by epoch, then byte span.
pub open spec fn receipt_order_key(r: GdirReceiptView) -> (u64, u64, Seq<char>) {
    (r.epoch, r.byte_span, Seq::<char>::empty())
}

/// The receipts of one host, by epoch then byte span (equal keys keep
/// their order).
pub fn select_receipts(all: Vec<GdirReceipt>, contrib_fp: &str) -> (r: Vec<GdirReceipt>)
    ensures
        is_stable_sort_by(
            seq_views(r@),
            own_receipts(seq_views(all@), contrib_fp@),
            |x: GdirReceiptView| receipt_order_key(x),
        ),
        forall|i: int| 0 <= i < r@.len() ==> (#[trigger] r@[i]).contrib_fp@ == contrib_fp@,
        forall|i: int, j: int| 0 <= i < j < r@.len() ==> r@[i].epoch <= r@[j].epoch,
        forall|i: int, j: int|
            0 <= i < j < r@.len() && r@[i].epoch == r@[j].epoch ==> r@[i].byte_span <= r@[j].byte_span,
{
    let ghost s = seq_views(all@);
    let fp = String::from_str(contrib_fp);
    let n = all.len();
    let mut rest = all;
    let mut kept: Vec<GdirReceipt> = Vec::new();
    let mut i: usize = 0;
    while rest.len() > 0
        invariant
            s.len() == n,
            i + rest@.len() == n,
            fp@ == contrib_fp@,
            seq_views(rest@) == s.skip(i as int),
            seq_views(kept@) == own_receipts(s.take(i as int), contrib_fp@),
        decreases rest.len(),
    {
        let ghost old_rest = rest@;
        let e = rest.remove(0);
        proof {
            assert(seq_views(old_rest)[0] == old_rest[0]@);
            assert(s.skip(i as int)[0] == s[i as int]);
            assert(rest@ =~= old_rest.drop_first());
            assert(seq_views(rest@) =~= seq_views(old_rest).drop_first());
            assert(seq_views(rest@) =~= s.skip(i + 1));
            assert(s.take(i + 1).drop_last() =~= s.take(i as int));
            assert(s.take(i + 1).last() == e@);
            reveal(Seq::filter);
        }
        let ghost old_kept = kept@;
        let ghost ev = e@;
        if e.contrib_fp == fp {
            kept.push(e);
            assert(seq_views(kept@) =~= seq_views(old_kept).push(ev));
        }
        i = i + 1;
    }
    assert(s.take(n as int) =~= s);
    let key = |r: &GdirReceipt| -> (k: RankKey)
        ensures
            key_view(k) == receipt_order_key(r@),
        {
            let k = RankKey { major: r.epoch, minor: r.byte_span, text: Vec::new() };
            assert(k.text@ =~= Seq::<char>::empty());
            k
        };
    let r = sort_with_key(kept, key, Ghost(|x: GdirReceiptView| receipt_order_key(x)));
    proof {
        let rv = seq_views(r@);
        let own = own_receipts(s, contrib_fp@);
        let f = |x: GdirReceiptView| receipt_order_key(x);
        assert forall|i: int| 0 <= i < r@.len() implies (#[trigger] r@[i]).contrib_fp@ == contrib_fp@ by {
            lemma_stable_sort_member(rv, own, f, i);
            let j = choose|j: int| 0 <= j < own.len() && own[j] == rv[i];
            s.lemma_filter_pred(|x: GdirReceiptView| x.contrib_fp == contrib_fp@, j);
            assert(rv[i] == r@[i]@);
        }
        assert forall|i: int, j: int| 0 <= i < j < r@.len() implies r@[i].epoch <= r@[j].epoch && (r@[i].epoch
            == r@[j].epoch ==> r@[i].byte_span <= r@[j].byte_span) by {
            assert(rv[i] == r@[i]@);
            assert(rv[j] == r@[j]@);
            assert(!key_lt(f(rv[j]), f(rv[i])));
        }
    }
    r
}

/// The host has recorded a contribution.
pub fn has_gdir_receipt(receipts: &Vec<GdirReceipt>) -> (b: bool)
    ensures
        b == (receipts@.len() > 0),
{
    receipts.len() > 0
}

/// A blind pull, a sync or a route: work for the network rather than for a
/// single channel.
pub open spec fn is_blind_or_infra(op: Seq<char>) -> bool {
    op == "blind"@ || op == "sync"@ || op == "route"@
}

fn op_is_blind_or_infra(op: &String) -> (b: bool)
    ensures
        b == is_blind_or_infra(op@),
{
    *op == String::from_str("blind") || *op == String::from_str("sync") || *op == String::from_str(
        "route",
    )
}

/// Some receipt records a blind, sync or route operation.
pub fn has_blind_or_infra_receipt(receipts: &Vec<GdirReceipt>) -> (b: bool)
    ensures
        b == exists|i: int| 0 <= i < receipts@.len() && is_blind_or_infra(#[trigger] receipts@[i].op@),
{
    let mut i: usize = 0;
    while i < receipts.len()
        invariant
            i <= receipts.len(),
            forall|j: int| 0 <= j < i ==> !is_blind_or_infra(#[trigger] receipts@[j].op@),
        decreases receipts.len() - i,
    {
        if op_is_blind_or_infra(&receipts[i].op) {
            return true;
        }
        i = i + 1;
    }
    false
}

// ---------------------------------------------------------------------------
// Payload and root material.
// ---------------------------------------------------------------------------

/// Each receipt's payload followed by a zero byte.
pub open spec fn receipts_bytes(rs: Seq<GdirReceiptView>) -> Seq<u8>
    decreases rs.len(),
{
    if rs.len() == 0 {
        seq![]
    } else {
        receipts_bytes(rs.drop_last()) + encode_utf8(receipt_payload_chars(rs.last())) + seq![0u8]
    }
}

/// The payload bound by a GDIR coin.
pub open spec fn gdir_payload_spec(rs: Seq<GdirReceiptView>) -> Seq<u8> {
    if rs.len() == 0 {
        encode_utf8("ITS-GDIR-empty"@)
    } else {
        receipts_bytes(rs)
    }
}

pub fn build_gdir_payload(receipts: &Vec<GdirReceipt>) -> (r: Vec<u8>)
    ensures
        r@ == gdir_payload_spec(seq_views(receipts@)),
{
    let ghost rs = seq_views(receipts@);
    let mut out: Vec<u8> = Vec::new();
    let mut i: usize = 0;
    assert(rs.take(0) =~= Seq::<GdirReceiptView>::empty());
    while i < receipts.len()
        invariant
            rs == seq_views(receipts@),
            i <= receipts.len(),
            out@ == receipts_bytes(rs.take(i as int)),
        decreases receipts.len() - i,
    {
        proof {
            assert(rs.take(i + 1).drop_last() =~= rs.take(i as int));
            assert(rs.take(i + 1).last() == receipts@[i as int]@);
        }
        let mut p = receipts[i].payload_bytes();
        let ghost o = out@;
        out.append(&mut p);
        out.push(0);
        i = i + 1;
    }
    assert(rs.take(receipts.len() as int) =~= rs);
    if receipts.len() == 0 {
        out = "ITS-GDIR-empty".as_bytes_vec();
    }
    out
}

/// `ITS-GDIR-sss-root-v1`, a zero byte, then the host fingerprint.
pub open spec fn gdir_root_spec(contrib_fp: Seq<char>) -> Seq<u8> {
    encode_utf8("ITS-GDIR-sss-root-v1"@) + seq![0u8] + encode_utf8(contrib_fp)
}

pub fn gdir_root_material(contrib_fp: &str) -> (r: Vec<u8>)
    ensures
        r@ == gdir_root_spec(contrib_fp@),
{
    let mut out = "ITS-GDIR-sss-root-v1".as_bytes_vec();
    out.push(0);
    let mut fp = contrib_fp.as_bytes_vec();
    out.append(&mut fp);
    out
}

// ---------------------------------------------------------------------------
// Minting.
// ---------------------------------------------------------------------------

/// Why a GDIR mint refuses its receipts, if it does.
pub open spec fn gdir_refusal(o: MintGdirOptions, rs: Seq<GdirReceiptView>) -> Option<MemErrorView> {
    if rs.len() == 0 {
        Some(MemErrorView::Coin("no gdir receipts to mint"@))
    } else if o.require_blind_or_infra && !(exists|i: int|
        0 <= i < rs.len() && is_blind_or_infra(#[trigger] rs[i].op)) {
        Some(
            MemErrorView::Coin(
                "GDIR mint requires blind/sync/route receipt (not channel-only mirror ops)"@,
            ),
        )
    } else {
        None
    }
}

fn check_gdir_receipts(opts: &MintGdirOptions, receipts: &Vec<GdirReceipt>) -> (r: Result<
    (),
    MemError,
>)
    ensures
        match gdir_refusal(*opts, seq_views(receipts@)) {
            Some(e) => r matches Err(x) && x@ == e,
            None => r is Ok,
        },
{
    if receipts.len() == 0 {
        return Err(coin_err("no gdir receipts to mint"));
    }
    let any = has_blind_or_infra_receipt(receipts);
    proof {
        let rs = seq_views(receipts@);
        assert forall|i: int| 0 <= i < rs.len() implies rs[i].op == receipts@[i].op@ by {}
        if any {
            let i = choose|i: int| 0 <= i < receipts@.len() && is_blind_or_infra(#[trigger] receipts@[i].op@);
            assert(is_blind_or_infra(rs[i].op));
        }
    }
    if opts.require_blind_or_infra && !any {
        return Err(
            coin_err("GDIR mint requires blind/sync/route receipt (not channel-only mirror ops)"),
        );
    }
    Ok(())
}

/// The payload is too large to be rounded to whole links.
pub open spec fn gdir_payload_too_large(rs: Seq<GdirReceiptView>) -> bool {
    gdir_payload_spec(rs).len() + GDIR_LINK_BYTE_LEN > usize::MAX
}

/// What the SSS chain of a GDIR mint is generated from; `Err` exactly when
/// the mint refuses the receipts.
pub fn gdir_chain_request(
    opts: &MintGdirOptions,
    receipts: &Vec<GdirReceipt>,
    contrib_fp: &str,
) -> (r: Result<SssChainRequest, MemError>)
    ensures
        match gdir_refusal(*opts, seq_views(receipts@)) {
            Some(e) => r matches Err(x) && x@ == e,
            None => if gdir_payload_too_large(seq_views(receipts@)) {
                r matches Err(x) && x@ == MemErrorView::Coin("payload too large for the SSS chain"@)
            } else {
                r matches Ok(q) && q.root_material@ == gdir_root_spec(contrib_fp@)
                    && q.total_bytes == link_aligned(
                    gdir_payload_spec(seq_views(receipts@)).len(),
                    GDIR_LINK_BYTE_LEN as nat,
                ) && q.link_byte_len == GDIR_LINK_BYTE_LEN
            },
        },
{
    check_gdir_receipts(opts, receipts)?;
    let payload = build_gdir_payload(receipts);
    if payload.len() > usize::MAX - GDIR_LINK_BYTE_LEN {
        return Err(coin_err("payload too large for the SSS chain"));
    }
    Ok(
        SssChainRequest {
            root_material: gdir_root_material(contrib_fp),
            total_bytes: link_aligned_len(payload.len(), GDIR_LINK_BYTE_LEN),
            link_byte_len: GDIR_LINK_BYTE_LEN,
        },
    )
}

/// The total byte span of the receipts.
pub open spec fn span_sum(rs: Seq<GdirReceiptView>) -> nat
    decreases rs.len(),
{
    if rs.len() == 0 {
        0
    } else {
        span_sum(rs.drop_last()) + rs.last().byte_span as nat
    }
}

/// Seconds since the first GDIR contribution (zero before any).
pub open spec fn contrib_seconds_spec(first_seen: Option<u64>, now: u64) -> u64 {
    match first_seen {
        Some(start) => if now >= start {
            (now - start) as u64
        } else {
            0
        },
        None => 0,
    }
}

/// The coin a successful GDIR mint describes.
pub open spec fn minted_gdir_coin(
    rs: Seq<GdirReceiptView>,
    contrib_fp: Seq<char>,
    chain_root: Seq<char>,
    first_seen: Option<u64>,
    now: u64,
) -> GdirCoinView {
    GdirCoinView {
        contrib_fp,
        chain_root,
        contrib_ops: rs.len() as u64,
        contrib_bytes: span_sum(rs) as u64,
        contrib_seconds: contrib_seconds_spec(first_seen, now),
    }
}

/// Law: a GDIR coin counts one operation per receipt, adds each receipt's
/// byte span to its bytes, and counts its seconds from the first
/// contribution up to now.
pub proof fn lemma_gdir_coin_totals(
    rs: Seq<GdirReceiptView>,
    x: GdirReceiptView,
    fp: Seq<char>,
    root: Seq<char>,
    first_seen: Option<u64>,
    now: u64,
)
    ensures
        minted_gdir_coin(rs, fp, root, first_seen, now).contrib_ops == rs.len() as u64,
        span_sum(rs.push(x)) == span_sum(rs) + x.byte_span,
        span_sum(Seq::<GdirReceiptView>::empty()) == 0,
        first_seen matches Some(t) ==> (t <= now ==> minted_gdir_coin(rs, fp, root, first_seen, now).contrib_seconds
            == now - t),
        first_seen is None ==> minted_gdir_coin(rs, fp, root, first_seen, now).contrib_seconds == 0,
        minted_gdir_coin(rs, fp, root, first_seen, now).contrib_fp == fp,
{
    assert(rs.push(x).drop_last() =~= rs);
}

/// Assembles a GDIR coin from the host's receipts, the `.ssc` text
/// generated for their payload with whether it validated, the first time
/// the host contributed, and the current time.
pub fn mint_gdir_coin_options(
    opts: &MintGdirOptions,
    receipts: &Vec<GdirReceipt>,
    contrib_fp: &str,
    ssc_text: &str,
    ssc_valid: bool,
    gdir_first_seen: Option<u64>,
    now: u64,
) -> (r: Result<GdirCoinManifest, MemError>)
    requires
        span_sum(seq_views(receipts@)) <= u64::MAX,
    ensures
        match gdir_refusal(*opts, seq_views(receipts@)) {
            Some(e) => r matches Err(x) && x@ == e,
            None => match ssc_link0(lines(ssc_text@), false) {
                Err(e) => r matches Err(x) && x@ == e,
                Ok(root) => if !ssc_valid {
                    r matches Err(x) && x@ == MemErrorView::Coin(
                        "sss_chain validate failed for gdir coin"@,
                    )
                } else {
                    r matches Ok(m) && m@ == minted_gdir_coin(
                        seq_views(receipts@),
                        contrib_fp@,
                        root,
                        gdir_first_seen,
                        now,
                    )
                },
            },
        },
{
    check_gdir_receipts(opts, receipts)?;
    let chain_root = parse_ssc_link0_hex(ssc_text)?;
    if !ssc_valid {
        return Err(coin_err("sss_chain validate failed for gdir coin"));
    }
    let contrib_seconds = match gdir_first_seen {
        Some(start) => if now >= start {
            now - start
        } else {
            0
        },
        None => 0,
    };
    let ghost rs = seq_views(receipts@);
    let mut total: u64 = 0;
    let mut i: usize = 0;
    assert(rs.take(0) =~= Seq::<GdirReceiptView>::empty());
    while i < receipts.len()
        invariant
            rs == seq_views(receipts@),
            i <= receipts.len(),
            span_sum(rs) <= u64::MAX,
            total == span_sum(rs.take(i as int)),
        decreases receipts.len() - i,
    {
        proof {
            assert(rs.take(i + 1).drop_last() =~= rs.take(i as int));
            lemma_span_sum_prefix(rs, i + 1);
        }
        total = total + receipts[i].byte_span;
        i = i + 1;
    }
    assert(rs.take(receipts.len() as int) =~= rs);
    Ok(
        GdirCoinManifest {
            contrib_fp: String::from_str(contrib_fp),
            chain_root,
            contrib_ops: receipts.len() as u64,
            contrib_bytes: total,
            contrib_seconds,
        },
    )
}

proof fn lemma_span_sum_prefix(rs: Seq<GdirReceiptView>, k: int)
    requires
        0 <= k <= rs.len(),
    ensures
        span_sum(rs.take(k)) <= span_sum(rs),
    decreases rs.len() - k,
{
    if k < rs.len() {
        assert(rs.drop_last().take(k) =~= rs.take(k));
        lemma_span_sum_prefix(rs.drop_last(), k);
    } else {
        assert(rs.take(k) =~= rs);
    }
}

/// A GDIR mint with the default options.
pub fn mint_gdir_coin(
    receipts: &Vec<GdirReceipt>,
    contrib_fp: &str,
    ssc_text: &str,
    ssc_valid: bool,
    gdir_first_seen: Option<u64>,
    now: u64,
) -> (r: Result<GdirCoinManifest, MemError>)
    requires
        span_sum(seq_views(receipts@)) <= u64::MAX,
    ensures
        match gdir_refusal(MintGdirOptions { require_blind_or_infra: false }, seq_views(receipts@)) {
            Some(e) => r matches Err(x) && x@ == e,
            None => match ssc_link0(lines(ssc_text@), false) {
                Err(e) => r matches Err(x) && x@ == e,
                Ok(root) => if !ssc_valid {
                    r matches Err(x) && x@ == MemErrorView::Coin(
                        "sss_chain validate failed for gdir coin"@,
                    )
                } else {
                    r matches Ok(m) && m@ == minted_gdir_coin(
                        seq_views(receipts@),
                        contrib_fp@,
                        root,
                        gdir_first_seen,
                        now,
                    )
                },
            },
        },
{
    mint_gdir_coin_options(
        &MintGdirOptions { require_blind_or_infra: false },
        receipts,
        contrib_fp,
        ssc_text,
        ssc_valid,
        gdir_first_seen,
        now,
    )
}

/// What comparing a GDIR coin with its fresh mint finds.
pub open spec fn gdir_coin_check(m: GdirCoinView, fresh: GdirCoinView) -> Result<(), MemErrorView> {
    if fresh.chain_root != m.chain_root {
        Err(MemErrorView::Coin("gdir chain_root mismatch"@))
    } else if fresh.contrib_ops != m.contrib_ops {
        Err(MemErrorView::Coin("gdir contrib_ops mismatch"@))
    } else {
        Ok(())
    }
}

/// A GDIR coin validates against a fresh mint that reproduces it.
pub proof fn lemma_gdir_coin_validates_against_itself(m: GdirCoinView)
    ensures
        gdir_coin_check(m, m) is Ok,
{
}

/// Checks a GDIR coin against a fresh mint: same chain root and operation
/// count.
pub fn validate_gdir_coin(manifest: &GdirCoinManifest, recomputed: &GdirCoinManifest) -> (r:
    Result<(), MemError>)
    ensures
        match gdir_coin_check(manifest@, recomputed@) {
            Ok(()) => r is Ok,
            Err(e) => r matches Err(x) && x@ == e,
        },
{
    if !(recomputed.chain_root == manifest.chain_root) {
        return Err(coin_err("gdir chain_root mismatch"));
    }
    if recomputed.contrib_ops != manifest.contrib_ops {
        return Err(coin_err("gdir contrib_ops mismatch"));
    }
    Ok(())
}

} // verus!
