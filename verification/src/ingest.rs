//! Coins received from the pool: recognising a coin in a received wire,
//! and the bounded receive loop that collects them into a registry.

use vstd::prelude::*;

use crate::error::{MemError, MemErrorView};
use crate::pipe::{next_pool_epoch_of, parse_next_pool_epoch, sat_inc, ReceiveOutput};
use crate::text::{chars_of, dec, has_prefix, is_clean, is_plain_line, is_ws, kv_line, lemma_clean_ends, lemma_dec_clean, lemma_kv_line, lemma_lines_unlines, lemma_lines_unlines_trimmed, lemma_trim_noop, lemma_trim_unlines, lemma_unlines_push, lines, starts_with, string_of, trim, trim_chars, trim_end, trim_start, unlines, utf8_lossy, utf8_lossy_spec};
use vstd::utf8::encode_utf8;
use crate::wire::{
    chan_fold, chan_lines, chan_parse, chan_text, gdir_coin_lines, gdir_coin_parse, gdir_coin_text, lemma_gdir_coin_roundtrip, lemma_chan_lines_plain, lemma_chan_roundtrip,
    lemma_chan_text_ends, ChannelCoinManifest, ChannelCoinView, GdirCoinManifest,
    GdirCoinView, CHANNEL_COIN_V1_MAGIC, CHANNEL_COIN_V2_MAGIC, CHANNEL_COIN_V3_MAGIC, GDIR_COIN_MAGIC,
};

verus! {

/// A coin found in a received wire.
pub enum IngestedCoin {
    Channel(ChannelCoinManifest),
    Gdir(GdirCoinManifest),
}

pub enum IngestedCoinView {
    Channel(ChannelCoinView),
    Gdir(GdirCoinView),
}

impl View for IngestedCoin {
    type V = IngestedCoinView;

    open spec fn view(&self) -> IngestedCoinView {
        match self {
            IngestedCoin::Channel(c) => IngestedCoinView::Channel(c@),
            IngestedCoin::Gdir(g) => IngestedCoinView::Gdir(g@),
        }
    }
}

/// What a received text holds: a channel coin (any of its magics), a GDIR
/// coin, or nothing the directory keeps.
pub open spec fn coin_text_spec(text: Seq<char>) -> Result<Option<IngestedCoinView>, MemErrorView> {
    let t = trim(text);
    if has_prefix(t, CHANNEL_COIN_V1_MAGIC@) || has_prefix(t, CHANNEL_COIN_V2_MAGIC@) || has_prefix(
        t,
        CHANNEL_COIN_V3_MAGIC@,
    ) {
        match chan_parse(t) {
            Ok(c) => Ok(Some(IngestedCoinView::Channel(c))),
            Err(e) => Err(e),
        }
    } else if has_prefix(t, GDIR_COIN_MAGIC@) {
        match gdir_coin_parse(t) {
            Ok(g) => Ok(Some(IngestedCoinView::Gdir(g))),
            Err(e) => Err(e),
        }
    } else {
        Ok(None)
    }
}

pub open spec fn ingest_result_view(r: Result<Option<IngestedCoin>, MemError>) -> Result<
    Option<IngestedCoinView>,
    MemErrorView,
> {
    match r {
        Ok(Some(c)) => Ok(Some(c@)),
        Ok(None) => Ok(None),
        Err(e) => Err(e@),
    }
}

/// Recognises a coin in a received text.
pub fn parse_coin_text(text: &str) -> (r: Result<Option<IngestedCoin>, MemError>)
    ensures
        ingest_result_view(r) == coin_text_spec(text@),
{
    let c = chars_of(text);
    let t = trim_chars(&c);
    let ts = string_of(&t);
    let v1 = chars_of(CHANNEL_COIN_V1_MAGIC);
    let v2 = chars_of(CHANNEL_COIN_V2_MAGIC);
    let v3 = chars_of(CHANNEL_COIN_V3_MAGIC);
    let g = chars_of(GDIR_COIN_MAGIC);
    if starts_with(&t, &v1) || starts_with(&t, &v2) || starts_with(&t, &v3) {
        match ChannelCoinManifest::parse_text(ts.as_str()) {
            Ok(m) => Ok(Some(IngestedCoin::Channel(m))),
            Err(e) => Err(e),
        }
    } else if starts_with(&t, &g) {
        match GdirCoinManifest::parse_text(ts.as_str()) {
            Ok(m) => Ok(Some(IngestedCoin::Gdir(m))),
            Err(e) => Err(e),
        }
    } else {
        Ok(None)
    }
}

/// Recognises a coin in a received wire, read as (lossy) UTF-8.
pub fn try_parse_coin_wire(bytes: &[u8]) -> (r: Result<Option<IngestedCoin>, MemError>)
    ensures
        ingest_result_view(r) == coin_text_spec(utf8_lossy_spec(bytes@)),
        vstd::utf8::valid_utf8(bytes@) ==> ingest_result_view(r) == coin_text_spec(
            vstd::utf8::decode_utf8(bytes@),
        ),
{
    let text = utf8_lossy(bytes);
    parse_coin_text(text.as_str())
}

/// Law: a channel coin with nonempty, single-line text fields (and a
/// nonempty host fingerprint, when it has one), sent as the UTF-8 bytes of
/// its own text, is recognised and read back unchanged.
pub proof fn lemma_serialized_coin_ingests(c: ChannelCoinView)
    requires
        is_clean(c.room_wire_pk),
        c.room_wire_pk.len() > 0,
        is_clean(c.room_id_fp),
        is_clean(c.chain_root),
        c.chain_root.len() > 0,
        c.host_fp matches Some(fp) ==> is_clean(fp) && fp.len() > 0,
    ensures
        coin_text_spec(chan_text(c)) == Ok::<Option<IngestedCoinView>, MemErrorView>(
            Some(IngestedCoinView::Channel(c)),
        ),
        vstd::utf8::valid_utf8(encode_utf8(chan_text(c))),
        vstd::utf8::decode_utf8(encode_utf8(chan_text(c))) == chan_text(c),
{
    let text = chan_text(c);
    let ls = chan_lines(c);
    lemma_chan_roundtrip(c);
    lemma_chan_lines_plain(c);
    lemma_chan_text_ends(c);
    lemma_trim_unlines(ls);
    let t = trim(text);
    assert(lines(t) == lines(text)) by {
        lemma_lines_unlines(ls);
    }
    assert(chan_parse(t) == chan_parse(text));
    let m = ls[0];
    assert(text == m + seq!['\n'] + unlines(ls.drop_first()));
    assert(t == text.drop_last());
    assert(t.take(m.len() as int) =~= m);
    reveal_strlit("ITS-COIN/1");
    reveal_strlit("ITS-CHANNEL-COIN/2");
    reveal_strlit("ITS-CHANNEL-COIN/3");
    lemma_trim_noop(m);
    assert(has_prefix(t, m));
    assert(m == CHANNEL_COIN_V1_MAGIC@ || m == CHANNEL_COIN_V2_MAGIC@ || m == CHANNEL_COIN_V3_MAGIC@);
    vstd::utf8::encode_utf8_valid_utf8(text);
    vstd::utf8::encode_utf8_decode_utf8(text);
}

/// A text that ends its last line with a single space: `trim` drops the
/// line feed and that space, and the lines read back are the same with
/// the space dropped.
proof fn lemma_trim_unlines_space(ls: Seq<Seq<char>>, last: Seq<char>)
    requires
        ls.len() > 1,
        forall|i: int| 0 <= i < ls.len() ==> is_plain_line(#[trigger] ls[i]),
        ls[0].len() > 0,
        !is_ws(ls[0][0]),
        last.len() > 0,
        !is_ws(last.last()),
        ls.last() == last + seq![' '],
    ensures
        trim(unlines(ls)) == unlines(ls.drop_last().push(last)).drop_last(),
        lines(trim(unlines(ls))) == ls.drop_last().push(last),
{
    let ls2 = ls.drop_last().push(last);
    assert forall|i: int| 0 <= i < ls2.len() implies is_plain_line(#[trigger] ls2[i]) by {
        if i < ls.len() - 1 {
            assert(ls2[i] == ls[i]);
        } else {
            assert(ls2[i] == last);
            assert(is_plain_line(ls.last()));
            assert forall|k: int| 0 <= k < last.len() implies last[k] != '\n' by {
                assert(ls.last()[k] == last[k]);
            }
        }
    }
    lemma_lines_unlines_trimmed(ls2);
    let pre = unlines(ls.drop_last());
    lemma_unlines_push(ls.drop_last(), ls.last());
    lemma_unlines_push(ls.drop_last(), last);
    assert(ls.drop_last().push(ls.last()) =~= ls);
    let x = unlines(ls);
    assert(x =~= pre + last + seq![' ', '\n']);
    assert(unlines(ls2).drop_last() =~= pre + last);
    assert(ls.drop_first().len() > 0);
    assert(x == ls[0] + seq!['\n'] + unlines(ls.drop_first()));
    assert(x[0] == ls[0][0]);
    assert(trim_start(x) == x);
    assert(x.drop_last().drop_last() =~= pre + last);
    assert(is_ws(x.last()));
    assert(is_ws(x.drop_last().last()));
    assert(trim_end(x) == trim_end(x.drop_last()));
    assert(trim_end(x.drop_last()) == trim_end(x.drop_last().drop_last()));
    assert((pre + last).last() == last.last());
    assert(trim_end(pre + last) == pre + last);
}

/// The serialized channel coin with an empty host fingerprint reads back
/// from its trimmed text.
proof fn lemma_coin_text_empty_host(c: ChannelCoinView)
    requires
        is_clean(c.room_wire_pk),
        c.room_wire_pk.len() > 0,
        is_clean(c.room_id_fp),
        is_clean(c.chain_root),
        c.chain_root.len() > 0,
        c.host_fp == Some(Seq::<char>::empty()),
    ensures
        chan_parse(trim(chan_text(c))) == chan_parse(chan_text(c)),
        has_prefix(trim(chan_text(c)), chan_lines(c)[0]),
{
    reveal_strlit("host_fp:");
    reveal_strlit("ITS-COIN/1");
    reveal_strlit("ITS-CHANNEL-COIN/2");
    reveal_strlit("ITS-CHANNEL-COIN/3");
    let ls = chan_lines(c);
    let k = "host_fp:"@;
    lemma_chan_lines_plain(c);
    assert(ls.last() == kv_line(k, Seq::<char>::empty()));
    assert(ls.last() =~= k + seq![' ']);
    assert(ls.len() > 1);
    let m = ls[0];
    assert(m == CHANNEL_COIN_V1_MAGIC@ || m == CHANNEL_COIN_V2_MAGIC@ || m == CHANNEL_COIN_V3_MAGIC@) by {
        lemma_trim_noop(m);
    }
    assert(!is_ws(k.last()));
    lemma_trim_unlines_space(ls, k);
    let ls2 = ls.drop_last().push(k);
    let t = trim(chan_text(c));
    assert(lines(t) == ls2);
    lemma_lines_unlines(ls);
    assert(lines(chan_text(c)) == ls);
    assert(ls2[0] == m);
    let b = ls.drop_first();
    let b2 = ls2.drop_first();
    assert(b2 =~= b.drop_last().push(k));
    assert(b =~= b.drop_last().push(b.last()));
    assert(trim(b.last()) == trim(k)) by {
        assert(b.last() =~= k + seq![' ']);
        assert(trim_start(k + seq![' ']) == k + seq![' ']);
        assert((k + seq![' ']).drop_last() =~= k);
        assert(trim_start(k) == k);
    }
    let v3 = trim(m) == CHANNEL_COIN_V3_MAGIC@;
    assert(b2.drop_last() =~= b.drop_last());
    assert(chan_fold(b2, v3) == chan_fold(b, v3));
    assert(t =~= unlines(ls2).drop_last());
    assert(unlines(ls2) == m + seq!['\n'] + unlines(ls2.drop_first()));
    assert(t.take(m.len() as int) =~= m);
}

/// Law: a coin sent as the UTF-8 bytes of its own text is recognised and
/// read back unchanged: a channel coin with nonempty, single-line text
/// fields (its host fingerprint single-line, possibly empty), and a GDIR coin
/// with nonempty, single-line `contrib_fp` and `chain_root`. A text that
/// starts with no coin magic is no coin.
pub proof fn lemma_serialized_coins_ingest(c: ChannelCoinView, g: GdirCoinView, other: Seq<char>)
    requires
        is_clean(c.room_wire_pk),
        c.room_wire_pk.len() > 0,
        is_clean(c.room_id_fp),
        is_clean(c.chain_root),
        c.chain_root.len() > 0,
        c.host_fp matches Some(fp) ==> is_clean(fp),
        is_clean(g.contrib_fp),
        g.contrib_fp.len() > 0,
        is_clean(g.chain_root),
        g.chain_root.len() > 0,
    ensures
        coin_text_spec(chan_text(c)) == Ok::<Option<IngestedCoinView>, MemErrorView>(
            Some(IngestedCoinView::Channel(c)),
        ),
        coin_text_spec(gdir_coin_text(g)) == Ok::<Option<IngestedCoinView>, MemErrorView>(
            Some(IngestedCoinView::Gdir(g)),
        ),
        vstd::utf8::decode_utf8(encode_utf8(chan_text(c))) == chan_text(c),
        vstd::utf8::decode_utf8(encode_utf8(gdir_coin_text(g))) == gdir_coin_text(g),
        vstd::utf8::valid_utf8(encode_utf8(chan_text(c))),
        vstd::utf8::valid_utf8(encode_utf8(gdir_coin_text(g))),
        !has_prefix(trim(other), CHANNEL_COIN_V1_MAGIC@) && !has_prefix(trim(other), CHANNEL_COIN_V2_MAGIC@)
            && !has_prefix(trim(other), CHANNEL_COIN_V3_MAGIC@) && !has_prefix(trim(other), GDIR_COIN_MAGIC@)
            ==> coin_text_spec(other) == Ok::<Option<IngestedCoinView>, MemErrorView>(None),
{
    if c.host_fp == Some(Seq::<char>::empty()) {
        lemma_chan_roundtrip(c);
        lemma_coin_text_empty_host(c);
        vstd::utf8::encode_utf8_valid_utf8(chan_text(c));
        vstd::utf8::encode_utf8_decode_utf8(chan_text(c));
    } else {
        if c.host_fp is Some {
            assert(c.host_fp->0.len() > 0) by {
                if c.host_fp->0.len() == 0 {
                    assert(c.host_fp->0 =~= Seq::<char>::empty());
                }
            }
        }
        lemma_serialized_coin_ingests(c);
    }
    lemma_gdir_text_ingests(g);
}

proof fn lemma_gdir_text_ingests(g: GdirCoinView)
    requires
        is_clean(g.contrib_fp),
        g.contrib_fp.len() > 0,
        is_clean(g.chain_root),
        g.chain_root.len() > 0,
    ensures
        coin_text_spec(gdir_coin_text(g)) == Ok::<Option<IngestedCoinView>, MemErrorView>(
            Some(IngestedCoinView::Gdir(g)),
        ),
        vstd::utf8::decode_utf8(encode_utf8(gdir_coin_text(g))) == gdir_coin_text(g),
        vstd::utf8::valid_utf8(encode_utf8(gdir_coin_text(g))),
{
    reveal_strlit("ITS-GDIR-COIN/1");
    reveal_strlit("ITS-COIN/1");
    reveal_strlit("ITS-CHANNEL-COIN/2");
    reveal_strlit("ITS-CHANNEL-COIN/3");
    reveal_strlit("contrib_fp:");
    reveal_strlit("chain_root:");
    reveal_strlit("contrib_ops:");
    reveal_strlit("contrib_bytes:");
    reveal_strlit("contrib_seconds:");
    let text = gdir_coin_text(g);
    let ls = gdir_coin_lines(g);
    lemma_gdir_coin_roundtrip(g);
    let m = GDIR_COIN_MAGIC@;
    lemma_dec_clean(g.contrib_ops);
    lemma_dec_clean(g.contrib_bytes);
    lemma_dec_clean(g.contrib_seconds);
    lemma_kv_line("contrib_fp:"@, g.contrib_fp);
    lemma_kv_line("chain_root:"@, g.chain_root);
    lemma_kv_line("contrib_ops:"@, dec(g.contrib_ops as nat));
    lemma_kv_line("contrib_bytes:"@, dec(g.contrib_bytes as nat));
    lemma_kv_line("contrib_seconds:"@, dec(g.contrib_seconds as nat));
    assert(is_plain_line(m)) by {
        assert forall|k: int| 0 <= k < m.len() implies m[k] != '\n' by {}
    }
    assert forall|i: int| 0 <= i < ls.len() implies is_plain_line(#[trigger] ls[i]) by {}
    let d = dec(g.contrib_seconds as nat);
    lemma_clean_ends(d);
    assert(ls.last() == kv_line("contrib_seconds:"@, d));
    assert(ls.last().last() == d.last());
    lemma_trim_unlines(ls);
    lemma_lines_unlines(ls);
    let t = trim(text);
    assert(lines(t) == lines(text));
    assert(gdir_coin_parse(t) == gdir_coin_parse(text));
    assert(text == m + seq!['\n'] + unlines(ls.drop_first()));
    assert(t == text.drop_last());
    assert(t.take(m.len() as int) =~= m);
    assert(has_prefix(t, m));
    assert(t[4] == 'G');
    assert(!has_prefix(t, CHANNEL_COIN_V1_MAGIC@)) by {
        if has_prefix(t, CHANNEL_COIN_V1_MAGIC@) {
            assert(t.take(10)[4] == t[4]);
        }
    }
    assert(!has_prefix(t, CHANNEL_COIN_V2_MAGIC@)) by {
        if has_prefix(t, CHANNEL_COIN_V2_MAGIC@) {
            assert(t.take(18)[4] == t[4]);
        }
    }
    assert(!has_prefix(t, CHANNEL_COIN_V3_MAGIC@)) by {
        if has_prefix(t, CHANNEL_COIN_V3_MAGIC@) {
            assert(t.take(18)[4] == t[4]);
        }
    }
    vstd::utf8::encode_utf8_valid_utf8(text);
    vstd::utf8::encode_utf8_decode_utf8(text);
}

// ---------------------------------------------------------------------------
// The pool ingest loop.
// ---------------------------------------------------------------------------

/// Which coins an ingest collects.
pub enum CoinKind {
    Channel,
    Gdir,
}

/// The state of a pool ingest: how many coins were kept, how many receives
/// were made and may be made, and the epoch the next receive starts from.
pub struct PoolIngest {
    pub kind: CoinKind,
    pub max_messages: usize,
    pub max_attempts: usize,
    pub ingested: usize,
    pub attempts: usize,
    pub from_epoch: u64,
    pub finished: bool,
}

/// What to do with a received wire.
pub enum IngestAction {
    /// Nothing arrived: the ingest is over.
    Stop,
    /// A coin of the wanted kind: write it to the registry.
    Keep(IngestedCoin),
    /// Anything else.
    Skip,
}

/// The bounds hold: no more coins than asked for, no more receives than
/// allowed.
pub open spec fn ingest_wf(s: PoolIngest) -> bool {
    &&& s.ingested <= s.max_messages
    &&& s.ingested <= s.attempts
    &&& s.attempts <= s.max_attempts
}

/// Receives allowed for `n` wanted coins: four per coin, at least four.
pub open spec fn attempts_for(n: usize) -> usize {
    let m = if n * 4 > usize::MAX {
        usize::MAX
    } else {
        (n * 4) as usize
    };
    if m < 4 {
        4
    } else {
        m
    }
}

pub open spec fn wanted(kind: CoinKind, c: IngestedCoinView) -> bool {
    match kind {
        CoinKind::Channel => c is Channel,
        CoinKind::Gdir => c is Gdir,
    }
}

impl PoolIngest {
    pub fn new(kind: CoinKind, max_messages: usize) -> (s: Self)
        ensures
            s.kind == kind,
            s.max_messages == max_messages,
            s.max_attempts == attempts_for(max_messages),
            s.ingested == 0,
            s.attempts == 0,
            s.from_epoch == 0,
            !s.finished,
            ingest_wf(s),
    {
        let m = match max_messages.checked_mul(4) {
            Some(v) => v,
            None => usize::MAX,
        };
        PoolIngest {
            kind,
            max_messages,
            max_attempts: if m < 4 {
                4
            } else {
                m
            },
            ingested: 0,
            attempts: 0,
            from_epoch: 0,
            finished: false,
        }
    }

    /// The epoch to receive from next, or `None` when the ingest is done;
    /// each receive counts as an attempt.
    pub fn next_receive(&mut self) -> (r: Option<u64>)
        requires
            ingest_wf(*old(self)),
        ensures
            ingest_wf(*final(self)),
            (!old(self).finished && old(self).ingested < old(self).max_messages
                && old(self).attempts < old(self).max_attempts) ==> (r == Some(old(self).from_epoch)
                && *final(self) == (PoolIngest { attempts: (old(self).attempts + 1) as usize, ..*old(self) })),
            !(!old(self).finished && old(self).ingested < old(self).max_messages
                && old(self).attempts < old(self).max_attempts) ==> (r is None && *final(self) == *old(self)),
    {
        if self.finished || self.ingested >= self.max_messages || self.attempts >= self.max_attempts {
            return None;
        }
        self.attempts = self.attempts + 1;
        Some(self.from_epoch)
    }

    /// Decides on a received wire: stop on an empty one; keep a coin of the
    /// wanted kind; then move the cursor to the receiver's next epoch (one
    /// past the current one when it names none). A wire that looks like a
    /// coin but does not parse is an error.
    pub fn after_receive(&mut self, recv: &ReceiveOutput) -> (r: Result<IngestAction, MemError>)
        requires
            ingest_wf(*old(self)),
            old(self).ingested < old(self).max_messages,
            old(self).ingested < old(self).attempts,
        ensures
            ingest_wf(*final(self)),
            recv.wire_bytes@.len() == 0 ==> (r matches Ok(IngestAction::Stop) && *final(self) == (
            PoolIngest { finished: true, ..*old(self) })),
            recv.wire_bytes@.len() > 0 ==> ({
                let parsed = coin_text_spec(utf8_lossy_spec(recv.wire_bytes@));
                let next = match next_pool_epoch_of(recv.stdout@) {
                    Some(e) => e,
                    None => sat_inc(old(self).from_epoch),
                };
                match parsed {
                    Err(e) => r matches Err(x) && x@ == e,
                    Ok(Some(c)) => if wanted(old(self).kind, c) {
                        r matches Ok(IngestAction::Keep(k)) && k@ == c && *final(self) == (
                        PoolIngest {
                            ingested: (old(self).ingested + 1) as usize,
                            from_epoch: next,
                            ..*old(self)
                        })
                    } else {
                        r matches Ok(IngestAction::Skip) && *final(self) == (PoolIngest {
                            from_epoch: next,
                            ..*old(self)
                        })
                    },
                    Ok(None) => r matches Ok(IngestAction::Skip) && *final(self) == (PoolIngest {
                        from_epoch: next,
                        ..*old(self)
                    }),
                }
            }),
    {
        if recv.wire_bytes.len() == 0 {
            self.finished = true;
            return Ok(IngestAction::Stop);
        }
        let parsed = try_parse_coin_wire(recv.wire_bytes.as_slice())?;
        let next = match parse_next_pool_epoch(recv.stdout.as_str()) {
            Some(e) => e,
            None => self.from_epoch.saturating_add(1),
        };
        self.from_epoch = next;
        match parsed {
            Some(IngestedCoin::Channel(m)) => match self.kind {
                CoinKind::Channel => {
                    self.ingested = self.ingested + 1;
                    Ok(IngestAction::Keep(IngestedCoin::Channel(m)))
                },
                CoinKind::Gdir => Ok(IngestAction::Skip),
            },
            Some(IngestedCoin::Gdir(m)) => match self.kind {
                CoinKind::Gdir => {
                    self.ingested = self.ingested + 1;
                    Ok(IngestAction::Keep(IngestedCoin::Gdir(m)))
                },
                CoinKind::Channel => Ok(IngestAction::Skip),
            },
            None => Ok(IngestAction::Skip),
        }
    }
}

} // verus!
