//! Blind shards: which shard a host carries for an epoch (from a network
//! salt and the host's contribution fingerprint), and the shard a pulled
//! wire becomes, which never names its room.

use vstd::prelude::*;

use vstd::string::StringSliceAdditionalSpecFns;
use vstd::utf8::encode_utf8;

use crate::codec::{base64_encode_spec, hex_lower, to_base64};
use crate::digest::{fnv_extend, fnv_fold, FNV_OFFSET, FNV_PRIME};
use crate::error::{MemError, MemErrorView};
use crate::text::{chars_of, dec, has_prefix, hex_digits, pad_zero, push_dec, push_radix, push_str, radix_digits, starts_with, string_of, trim, trim_chars, utf8_lossy, utf8_lossy_spec};
use crate::wire::{is_bad_wire_error, pin_parse, shard_parse, wire_identity, BlindShard, BlindShardView, MemoryPin, PinParse, PIN_MAGIC, SHARD_MAGIC};

verus! {

/// The salt of the public network.
pub const DEFAULT_NETWORK_SALT: &'static str = "its-memory-network-v1";

pub open spec fn mul_wrap(a: u64, b: u64) -> u64 {
    ((a as nat * b as nat) % 0x1_0000_0000_0000_0000) as u64
}

/// The two halves of a shard id: FNV-1a of `salt|epoch|fp`, then that
/// digest's next product xor the epoch, continued over `fp`.
pub open spec fn shard_halves(epoch: u64, fp: Seq<char>, salt: Seq<char>) -> (u64, u64) {
    let h = fnv_fold(FNV_OFFSET, encode_utf8(salt + "|"@ + dec(epoch as nat) + "|"@ + fp));
    let h2 = fnv_fold(mul_wrap(h, FNV_PRIME) ^ epoch, encode_utf8(fp));
    (h, h2)
}

/// A shard id: both halves as sixteen hex digits each.
pub open spec fn shard_id_spec(epoch: u64, fp: Seq<char>, salt: Seq<char>) -> Seq<char> {
    let (h, h2) = shard_halves(epoch, fp, salt);
    pad_zero(hex_digits(h as nat), 16) + pad_zero(hex_digits(h2 as nat), 16)
}

pub open spec fn pow16(k: nat) -> nat
    decreases k,
{
    if k == 0 {
        1
    } else {
        16 * pow16((k - 1) as nat)
    }
}

proof fn lemma_hex_digits_len(n: nat, k: nat)
    requires
        k >= 1,
        n < pow16(k),
    ensures
        radix_digits(n, 16).len() <= k,
    decreases k,
{
    if n >= 16 {
        let p = pow16((k - 1) as nat);
        assert(k >= 2) by {
            if k == 1 {
                assert(pow16(0) == 1);
            }
        }
        assert(n / 16 < p) by (nonlinear_arith)
            requires
                n < 16 * p,
        ;
        lemma_hex_digits_len(n / 16, (k - 1) as nat);
    }
}

/// A shard id is thirty-two characters long.
pub proof fn lemma_shard_id_len(epoch: u64, fp: Seq<char>, salt: Seq<char>)
    ensures
        shard_id_spec(epoch, fp, salt).len() == 32,
{
    let (h, h2) = shard_halves(epoch, fp, salt);
    assert(pow16(16) == 0x1_0000_0000_0000_0000) by {
        reveal_with_fuel(pow16, 17);
    }
    lemma_hex_digits_len(h as nat, 16);
    lemma_hex_digits_len(h2 as nat, 16);
}

/// The shard a host with fingerprint `contrib_fp` is assigned for `epoch`
/// on the network salted with `salt`.
pub fn shard_assignment_id(epoch: u64, contrib_fp: &str, salt: &str) -> (s: String)
    ensures
        s@ == shard_id_spec(epoch, contrib_fp@, salt@),
        s@.len() == 32,
{
    let mut text: Vec<char> = Vec::new();
    push_str(&mut text, salt);
    push_str(&mut text, "|");
    push_dec(&mut text, epoch);
    push_str(&mut text, "|");
    push_str(&mut text, contrib_fp);
    let t = string_of(&text);
    assert(t@ =~= salt@ + "|"@ + dec(epoch as nat) + "|"@ + contrib_fp@);
    let h = fnv_extend(FNV_OFFSET, t.as_str().as_bytes());
    let h2 = fnv_extend(h.wrapping_mul(FNV_PRIME) ^ epoch, contrib_fp.as_bytes());
    let mut out: Vec<char> = Vec::new();
    push_radix(&mut out, h, 16, 16);
    push_radix(&mut out, h2, 16, 16);
    proof {
        lemma_shard_id_len(epoch, contrib_fp@, salt@);
    }
    assert(out@ =~= shard_id_spec(epoch, contrib_fp@, salt@));
    string_of(&out)
}

// ---------------------------------------------------------------------------
// Turning a pulled wire into the shard a host stores.
// ---------------------------------------------------------------------------

/// The outcome of making a shard from a received text: a shard, an error,
/// or a pin whose base64 block does not decode.
pub enum ShardMade {
    Made(BlindShardView),
    Failed(MemErrorView),
    BadWire,
}

/// The shard stored for a wire `w` received at `epoch` (read as the text
/// `text`) under the host's `shard_id`: a pin text gives its epoch, base64
/// and identity; a shard text is read and takes the new id; any other wire
/// is stored whole.
pub open spec fn blind_shard_spec(text: Seq<char>, w: Seq<u8>, epoch: u64, shard_id: Seq<char>) -> ShardMade {
    let t = trim(text);
    if has_prefix(t, PIN_MAGIC@) {
        match pin_parse(text) {
            PinParse::Parsed(p) => ShardMade::Made(
                BlindShardView {
                    shard_id,
                    epoch: p.pool_epoch,
                    wire_b64: p.wire_b64,
                    wire_hash: p.wire_hash,
                },
            ),
            PinParse::Failed(e) => ShardMade::Failed(e),
            PinParse::BadWire => ShardMade::BadWire,
        }
    } else if has_prefix(t, SHARD_MAGIC@) {
        match shard_parse(text) {
            Ok(s) => ShardMade::Made(BlindShardView { shard_id, ..s }),
            Err(e) => ShardMade::Failed(e),
        }
    } else {
        ShardMade::Made(
            BlindShardView { shard_id, epoch, wire_b64: base64_encode_spec(w), wire_hash: hex_lower(w) },
        )
    }
}

pub open spec fn shard_result_matches(r: Result<BlindShard, MemError>, o: ShardMade) -> bool {
    match o {
        ShardMade::Made(v) => r matches Ok(s) && s@ == v,
        ShardMade::Failed(e) => r matches Err(x) && x@ == e,
        ShardMade::BadWire => r matches Err(x) && is_bad_wire_error(x@),
    }
}

/// The shard a host stores for a nonempty wire pulled at `epoch`.
pub fn blind_shard_of_wire(wire_bytes: &[u8], epoch: u64, shard_id: &str) -> (r: Result<BlindShard, MemError>)
    requires
        wire_bytes@.len() > 0,
    ensures
        shard_result_matches(r, blind_shard_spec(utf8_lossy_spec(wire_bytes@), wire_bytes@, epoch, shard_id@)),
{
    let text = utf8_lossy(wire_bytes);
    let c = chars_of(text.as_str());
    let t = trim_chars(&c);
    let pin_magic = chars_of(PIN_MAGIC);
    let shard_magic = chars_of(SHARD_MAGIC);
    if starts_with(&t, &pin_magic) {
        let pin = MemoryPin::parse_text(text.as_str())?;
        Ok(
            BlindShard {
                shard_id: String::from_str(shard_id),
                epoch: pin.pool_epoch,
                wire_b64: pin.wire_b64,
                wire_hash: pin.wire_hash,
            },
        )
    } else if starts_with(&t, &shard_magic) {
        let mut s = BlindShard::parse_text(text.as_str())?;
        s.shard_id = String::from_str(shard_id);
        Ok(s)
    } else {
        Ok(
            BlindShard {
                shard_id: String::from_str(shard_id),
                epoch,
                wire_b64: to_base64(wire_bytes),
                wire_hash: wire_identity(wire_bytes),
            },
        )
    }
}

/// The byte span a blind pull records: the byte length of the shard's
/// base64 text, at least one.
pub fn blind_contrib_bytes(s: &BlindShard) -> (n: u64)
    ensures
        n == if encode_utf8(s.wire_b64@).len() > 1 {
            encode_utf8(s.wire_b64@).len()
        } else {
            1
        },
{
    let st = s.wire_b64.as_str();
    let len = st.as_bytes().len();
    assert(st.spec_bytes() == encode_utf8(s.wire_b64@));
    if len > 1 {
        len as u64
    } else {
        1
    }
}

} // verus!
