//! Published pins: the marker written beside a published pin, the names of
//! mirrored pin files, and which pins count as published.

use vstd::prelude::*;

use crate::order::seq_views;
use crate::pipe::first_field;
use crate::text::{chars_of, dec, field_of, is_key, is_plain_line, kv_line, lemma_dec_clean, lemma_dec_parse, lemma_kv_line, lemma_lines_unlines, lemma_trim_noop, lemma_unlines_push, lines, pad_zero, parse_u64, push_kv_dec, push_radix, push_str, string_of, unlines};
use crate::wire::{lemma_utf8_prefix_whole, text_lines, utf8_len, utf8_prefix, utf8_prefix_chars, MemoryPin, MemoryPinView};

verus! {

/// The suffix of the marker file written beside a published pin.
pub const PUBLISHED_SUFFIX: &'static str = ".published";

/// The marker text: `published_at: <t>` and `byte_span: <n>` lines.
pub open spec fn marker_text(published_at: u64, byte_span: u64) -> Seq<char> {
    unlines(
        seq![kv_line("published_at:"@, dec(published_at as nat)), kv_line("byte_span:"@, dec(byte_span as nat))],
    )
}

/// The text of a publication marker.
pub fn published_marker_text(published_at: u64, byte_span: u64) -> (s: String)
    ensures
        s@ == marker_text(published_at, byte_span),
{
    let mut out: Vec<char> = Vec::new();
    push_kv_dec(&mut out, "published_at:", published_at);
    push_kv_dec(&mut out, "byte_span:", byte_span);
    proof {
        let l0 = kv_line("published_at:"@, dec(published_at as nat));
        let l1 = kv_line("byte_span:"@, dec(byte_span as nat));
        lemma_unlines_push(seq![l0], l1);
        lemma_unlines_push(Seq::<Seq<char>>::empty(), l0);
        assert(seq![l0] =~= Seq::<Seq<char>>::empty().push(l0));
        assert(seq![l0, l1] =~= seq![l0].push(l1));
        assert(unlines(Seq::<Seq<char>>::empty()) =~= Seq::<char>::empty());
        assert(out@ =~= marker_text(published_at, byte_span));
    }
    string_of(&out)
}

/// When a marker says its pin was published.
pub open spec fn marker_published_at(text: Seq<char>) -> Option<u64> {
    match first_field(lines(text), "published_at:"@) {
        Some(v) => parse_u64(v),
        None => None,
    }
}

/// Reads the publication time from a marker: its first `published_at:`
/// line, as a number.
pub fn parse_published_at(text: &str) -> (r: Option<u64>)
    ensures
        r == marker_published_at(text@),
{
    let ls = text_lines(text);
    let mut i: usize = 0;
    let ghost vs = crate::text::views(ls@);
    assert(vs.skip(0) =~= vs);
    while i < ls.len()
        invariant
            vs == crate::text::views(ls@),
            vs == lines(text@),
            i <= ls.len(),
            first_field(vs, "published_at:"@) == first_field(vs.skip(i as int), "published_at:"@),
        decreases ls.len() - i,
    {
        assert(vs.skip(i as int)[0] == ls@[i as int]@);
        assert(vs.skip(i as int).drop_first() =~= vs.skip(i + 1));
        if let Some(v) = crate::text::field_value(&ls[i], "published_at:") {
            return crate::text::parse_u64_chars(&v);
        }
        i = i + 1;
    }
    None
}

/// A marker gives back the publication time it was written with.
pub proof fn lemma_marker_round_trip(published_at: u64, byte_span: u64)
    ensures
        marker_published_at(marker_text(published_at, byte_span)) == Some(published_at),
{
    reveal_strlit("published_at:");
    reveal_strlit("byte_span:");
    let k0 = "published_at:"@;
    let k1 = "byte_span:"@;
    let v0 = dec(published_at as nat);
    let v1 = dec(byte_span as nat);
    lemma_dec_clean(published_at);
    lemma_dec_clean(byte_span);
    assert(is_key(k0));
    assert(is_key(k1));
    lemma_kv_line(k0, v0);
    lemma_kv_line(k1, v1);
    let l0 = kv_line(k0, v0);
    let l1 = kv_line(k1, v1);
    let ls = seq![l0, l1];
    assert forall|i: int| 0 <= i < ls.len() implies is_plain_line(#[trigger] ls[i]) by {}
    lemma_lines_unlines(ls);
    assert(l0[0] == k0[0]);
    assert(l0.last() == v0.last());
    crate::text::lemma_clean_ends(v0);
    lemma_trim_noop(l0);
    assert(field_of(l0, k0) == Some(v0));
    lemma_dec_parse(published_at);
}

/// The first sixteen bytes of a wire identity (all of it when shorter).
pub open spec fn identity_head(h: Seq<char>) -> Seq<char> {
    if utf8_len(h) < 16 {
        h
    } else {
        utf8_prefix(h, 16)
    }
}

/// `epoch_{epoch:08}_{identity head}.pin`: the mirror file of a pin, named
/// by its epoch and the first sixteen bytes of its wire identity.
pub open spec fn mirror_name(p: MemoryPinView) -> Seq<char> {
    "epoch_"@ + pad_zero(dec(p.pool_epoch as nat), 8) + "_"@ + identity_head(p.wire_hash) + ".pin"@
}

/// Cutting the identity after sixteen bytes falls between characters.
pub open spec fn head_cuts_cleanly(h: Seq<char>) -> bool {
    utf8_len(h) < 16 || utf8_len(utf8_prefix(h, 16)) == 16
}

/// The file name a published pin gets in the mirror.
pub fn mirror_pin_name(pin: &MemoryPin) -> (s: String)
    requires
        head_cuts_cleanly(pin.wire_hash@),
    ensures
        s@ == mirror_name(pin@),
{
    let h = chars_of(pin.wire_hash.as_str());
    let prefix = utf8_prefix_chars(&h, 16);
    proof {
        if utf8_len(h@) < 16 {
            lemma_utf8_prefix_whole(h@, 16);
        }
    }
    let mut out: Vec<char> = Vec::new();
    push_str(&mut out, "epoch_");
    push_radix(&mut out, pin.pool_epoch, 10, 8);
    push_str(&mut out, "_");
    crate::text::push_chars(&mut out, &prefix);
    push_str(&mut out, ".pin");
    assert(out@ =~= mirror_name(pin@));
    string_of(&out)
}

/// The elements of `s` whose flag is set, in order.
pub open spec fn flagged<V>(s: Seq<V>, flags: Seq<bool>) -> Seq<V>
    decreases s.len(),
{
    if s.len() == 0 {
        seq![]
    } else if flags[s.len() - 1] {
        flagged(s.drop_last(), flags).push(s.last())
    } else {
        flagged(s.drop_last(), flags)
    }
}

/// The pins a mint may use as published: the room's pins whose files carry
/// a publication marker, or, when none does, the pins of the room's mirror.
pub fn list_published_pins(
    pins: Vec<MemoryPin>,
    published: &Vec<bool>,
    mirror_pins: Vec<MemoryPin>,
) -> (r: Vec<MemoryPin>)
    requires
        published@.len() == pins@.len(),
    ensures
        ({
            let kept = flagged(seq_views(pins@), published@);
            seq_views(r@) == if kept.len() == 0 {
                seq_views(mirror_pins@)
            } else {
                kept
            }
        }),
{
    let ghost s = seq_views(pins@);
    let n = pins.len();
    let mut rest = pins;
    let mut kept: Vec<MemoryPin> = Vec::new();
    let mut i: usize = 0;
    assert(s.take(0) =~= Seq::<MemoryPinView>::empty());
    while rest.len() > 0
        invariant
            s.len() == n,
            published@.len() == n,
            i + rest@.len() == n,
            seq_views(rest@) == s.skip(i as int),
            seq_views(kept@) == flagged(s.take(i as int), published@),
        decreases rest.len(),
    {
        let ghost old_rest = rest@;
        let e = rest.remove(0);
        proof {
            assert(seq_views(old_rest)[0] == old_rest[0]@);
            assert(s.skip(i as int)[0] == s[i as int]);
            assert(rest@ =~= old_rest.drop_first());
            assert(seq_views(rest@) =~= seq_views(old_rest).drop_first());
            assert(seq_views(rest@) =~= s.skip(i + 1));
            assert(s.take(i + 1).drop_last() =~= s.take(i as int));
            assert(s.take(i + 1).last() == e@);
        }
        let ghost old_kept = kept@;
        let ghost ev = e@;
        if published[i] {
            kept.push(e);
            assert(seq_views(kept@) =~= seq_views(old_kept).push(ev));
        }
        i = i + 1;
    }
    assert(s.take(n as int) =~= s);
    if kept.len() == 0 {
        mirror_pins
    } else {
        kept
    }
}

} // verus!
