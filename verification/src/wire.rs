//! Text wire formats: `ITS-MEMORY-PIN/1`, the channel coin manifest
//! (`ITS-COIN/1`, `ITS-CHANNEL-COIN/2`, `ITS-CHANNEL-COIN/3`),
//! `ITS-GDIR-RECEIPT/1`, `ITS-GDIR-COIN/1` and the blind shard
//! `ITS-MEMORY-SHARD/1`. Each record is a magic line followed by
//! `key: value` lines.

use vstd::prelude::*;

use crate::codec::{base64_decode_spec, from_base64, hex_lower, to_hex};
use vstd::string::StrSliceExecFns;
use vstd::utf8::encode_utf8;
use crate::error::{coin_err, result_view, wire_err, MemError, MemErrorView};
use crate::text::{is_ws, lemma_clean_ends, chars_eq_str, chars_of, dec, field_of, has_prefix, hex_digits, is_key, pad_zero, push_chars, push_radix, sub_chars, field_value, is_clean, is_plain_line, kv_line, lemma_dec_clean, lemma_dec_parse, lemma_kv_line, lemma_kv_other, lemma_lines_unlines, lemma_trim_noop, lemma_unlines_push, lines, parse_u64, parse_u64_chars, push_dec, push_kv_dec, push_kv_str, push_line, push_str, split_lines, string_of, trim, trim_chars, unlines, views};

verus! {

pub const PIN_MAGIC: &'static str = "ITS-MEMORY-PIN/1";

/// Legacy channel coin (v1).
pub const CHANNEL_COIN_V1_MAGIC: &'static str = "ITS-COIN/1";

pub const CHANNEL_COIN_V2_MAGIC: &'static str = "ITS-CHANNEL-COIN/2";

/// Channel coin with memory weight, pin spans and timelock fields; it keeps
/// every v2 line.
pub const CHANNEL_COIN_V3_MAGIC: &'static str = "ITS-CHANNEL-COIN/3";

pub const GDIR_RECEIPT_MAGIC: &'static str = "ITS-GDIR-RECEIPT/1";

pub const GDIR_COIN_MAGIC: &'static str = "ITS-GDIR-COIN/1";

/// Reads the lines of `text` as character vectors.
pub fn text_lines(text: &str) -> (r: Vec<Vec<char>>)
    ensures
        views(r@) == lines(text@),
{
    let all = chars_of(text);
    split_lines(&all)
}

/// True when the first line, trimmed, is `magic`.
pub fn first_line_is(ls: &Vec<Vec<char>>, magic: &str) -> (b: bool)
    ensures
        b == (ls@.len() > 0 && trim(ls@[0]@) == magic@),
{
    if ls.len() == 0 {
        return false;
    }
    let t = trim_chars(&ls[0]);
    chars_eq_str(&t, magic)
}

/// The lines after the first `i` of `ls`, as character sequences.
pub open spec fn body_lines(ls: Seq<Seq<char>>, i: int) -> Seq<Seq<char>> {
    ls.subrange(1, i)
}

proof fn lemma_body_step(ls: Seq<Seq<char>>, i: int)
    requires
        1 <= i < ls.len(),
    ensures
        body_lines(ls, i + 1).drop_last() == body_lines(ls, i),
        body_lines(ls, i + 1).last() == ls[i],
        body_lines(ls, i + 1).len() > 0,
{
    assert(body_lines(ls, i + 1).drop_last() =~= body_lines(ls, i));
}

proof fn lemma_body_all(ls: Seq<Seq<char>>)
    requires
        ls.len() >= 1,
    ensures
        body_lines(ls, ls.len() as int) == ls.drop_first(),
{
    assert(body_lines(ls, ls.len() as int) =~= ls.drop_first());
}

// ---------------------------------------------------------------------------
// ITS-GDIR-RECEIPT/1
// ---------------------------------------------------------------------------

#[derive(Clone, Debug, PartialEq, Eq)]
pub struct GdirReceipt {
    pub contrib_fp: String,
    pub epoch: u64,
    pub op: String,
    pub byte_span: u64,
}

pub struct GdirReceiptView {
    pub contrib_fp: Seq<char>,
    pub epoch: u64,
    pub op: Seq<char>,
    pub byte_span: u64,
}

impl View for GdirReceipt {
    type V = GdirReceiptView;

    open spec fn view(&self) -> GdirReceiptView {
        GdirReceiptView {
            contrib_fp: self.contrib_fp@,
            epoch: self.epoch,
            op: self.op@,
            byte_span: self.byte_span,
        }
    }
}

/// The lines of a receipt file.
pub open spec fn receipt_lines(r: GdirReceiptView) -> Seq<Seq<char>> {
    seq![
        GDIR_RECEIPT_MAGIC@,
        kv_line("contrib_fp:"@, r.contrib_fp),
        kv_line("epoch:"@, dec(r.epoch as nat)),
        kv_line("op:"@, r.op),
        kv_line("byte_span:"@, dec(r.byte_span as nat)),
    ]
}

pub open spec fn receipt_text(r: GdirReceiptView) -> Seq<char> {
    unlines(receipt_lines(r))
}

pub open spec fn receipt_init() -> GdirReceiptView {
    GdirReceiptView { contrib_fp: seq![], epoch: 0, op: seq![], byte_span: 0 }
}

/// One line of a receipt body; later lines override earlier ones and the
/// first malformed number is the error.
pub open spec fn receipt_step(
    acc: Result<GdirReceiptView, MemErrorView>,
    line: Seq<char>,
) -> Result<GdirReceiptView, MemErrorView> {
    match acc {
        Err(e) => Err(e),
        Ok(a) => {
            let l = trim(line);
            match field_of(l, "contrib_fp:"@) {
                Some(v) => Ok(GdirReceiptView { contrib_fp: v, ..a }),
                None => match field_of(l, "epoch:"@) {
                    Some(v) => match parse_u64(v) {
                        Some(n) => Ok(GdirReceiptView { epoch: n, ..a }),
                        None => Err(MemErrorView::Coin("epoch"@)),
                    },
                    None => match field_of(l, "op:"@) {
                        Some(v) => Ok(GdirReceiptView { op: v, ..a }),
                        None => match field_of(l, "byte_span:"@) {
                            Some(v) => match parse_u64(v) {
                                Some(n) => Ok(GdirReceiptView { byte_span: n, ..a }),
                                None => Err(MemErrorView::Coin("byte_span"@)),
                            },
                            None => Ok(a),
                        },
                    },
                },
            }
        },
    }
}

pub open spec fn receipt_fold(ls: Seq<Seq<char>>) -> Result<GdirReceiptView, MemErrorView>
    decreases ls.len(),
{
    if ls.len() == 0 {
        Ok(receipt_init())
    } else {
        receipt_step(receipt_fold(ls.drop_last()), ls.last())
    }
}

/// What `GdirReceipt::parse_text` gives for a text.
pub open spec fn receipt_parse(text: Seq<char>) -> Result<GdirReceiptView, MemErrorView> {
    let ls = lines(text);
    if ls.len() == 0 || trim(ls[0]) != GDIR_RECEIPT_MAGIC@ {
        Err(MemErrorView::Coin("missing ITS-GDIR-RECEIPT/1"@))
    } else {
        match receipt_fold(ls.drop_first()) {
            Err(e) => Err(e),
            Ok(a) => if a.contrib_fp.len() == 0 || a.op.len() == 0 {
                Err(MemErrorView::Coin("incomplete gdir receipt"@))
            } else {
                Ok(a)
            },
        }
    }
}

pub open spec fn receipt_state(
    contrib_fp: Seq<char>,
    epoch: u64,
    op: Seq<char>,
    byte_span: u64,
    err: Option<MemError>,
) -> Result<GdirReceiptView, MemErrorView> {
    match err {
        Some(e) => Err(e@),
        None => Ok(GdirReceiptView { contrib_fp, epoch, op, byte_span }),
    }
}

impl GdirReceipt {
    pub fn serialize_text(&self) -> (s: String)
        ensures
            s@ == receipt_text(self@),
    {
        let r = self;
        let ghost l0 = seq![GDIR_RECEIPT_MAGIC@];
        let ghost l1 = l0.push(kv_line("contrib_fp:"@, r.contrib_fp@));
        let ghost l2 = l1.push(kv_line("epoch:"@, dec(r.epoch as nat)));
        let ghost l3 = l2.push(kv_line("op:"@, r.op@));
        let ghost l4 = l3.push(kv_line("byte_span:"@, dec(r.byte_span as nat)));
        let mut out: Vec<char> = Vec::new();
        push_line(&mut out, GDIR_RECEIPT_MAGIC);
        proof {
            lemma_unlines_push(seq![], GDIR_RECEIPT_MAGIC@);
            assert(seq![].push(GDIR_RECEIPT_MAGIC@) =~= l0);
            assert(out@ =~= unlines(l0));
        }
        push_kv_str(&mut out, "contrib_fp:", r.contrib_fp.as_str());
        proof { lemma_unlines_push(l0, l1.last()); }
        push_kv_dec(&mut out, "epoch:", r.epoch);
        proof { lemma_unlines_push(l1, l2.last()); }
        push_kv_str(&mut out, "op:", r.op.as_str());
        proof { lemma_unlines_push(l2, l3.last()); }
        push_kv_dec(&mut out, "byte_span:", r.byte_span);
        proof {
            lemma_unlines_push(l3, l4.last());
            assert(l4 =~= receipt_lines(self@));
        }
        string_of(&out)
    }

    pub fn parse_text(text: &str) -> (r: Result<Self, MemError>)
        ensures
            result_view(r) == receipt_parse(text@),
    {
        let ls = text_lines(text);
        if !first_line_is(&ls, GDIR_RECEIPT_MAGIC) {
            return Err(coin_err("missing ITS-GDIR-RECEIPT/1"));
        }
        let ghost L = views(ls@);
        let mut contrib_fp: Vec<char> = Vec::new();
        let mut epoch: u64 = 0;
        let mut op: Vec<char> = Vec::new();
        let mut byte_span: u64 = 0;
        let mut err: Option<MemError> = None;
        let mut i: usize = 1;
        proof {
            assert(body_lines(L, 1) =~= Seq::<Seq<char>>::empty());
            assert(receipt_init().contrib_fp =~= contrib_fp@);
        }
        while i < ls.len()
            invariant
                1 <= i <= ls@.len(),
                L == views(ls@),
                receipt_fold(body_lines(L, i as int)) == receipt_state(
                    contrib_fp@,
                    epoch,
                    op@,
                    byte_span,
                    err,
                ),
            decreases ls.len() - i,
        {
            proof {
                lemma_body_step(L, i as int);
            }
            if err.is_none() {
                let l = trim_chars(&ls[i]);
                if let Some(v) = field_value(&l, "contrib_fp:") {
                    contrib_fp = v;
                } else if let Some(v) = field_value(&l, "epoch:") {
                    match parse_u64_chars(&v) {
                        Some(n) => {
                            epoch = n;
                        },
                        None => {
                            err = Some(coin_err("epoch"));
                        },
                    }
                } else if let Some(v) = field_value(&l, "op:") {
                    op = v;
                } else if let Some(v) = field_value(&l, "byte_span:") {
                    match parse_u64_chars(&v) {
                        Some(n) => {
                            byte_span = n;
                        },
                        None => {
                            err = Some(coin_err("byte_span"));
                        },
                    }
                }
            }
            i = i + 1;
        }
        proof {
            lemma_body_all(L);
        }
        if let Some(e) = err {
            return Err(e);
        }
        if contrib_fp.len() == 0 || op.len() == 0 {
            return Err(coin_err("incomplete gdir receipt"));
        }
        Ok(GdirReceipt {
            contrib_fp: string_of(&contrib_fp),
            epoch,
            op: string_of(&op),
            byte_span,
        })
    }
}

/// Law: a receipt whose text fields are nonempty single-line values without
/// surrounding whitespace reads back from its own text unchanged.
pub proof fn lemma_receipt_roundtrip(r: GdirReceiptView)
    requires
        is_clean(r.contrib_fp),
        r.contrib_fp.len() > 0,
        is_clean(r.op),
        r.op.len() > 0,
    ensures
        receipt_parse(receipt_text(r)) == Ok::<GdirReceiptView, MemErrorView>(r),
{
    reveal_strlit("ITS-GDIR-RECEIPT/1");
    reveal_strlit("contrib_fp:");
    reveal_strlit("epoch:");
    reveal_strlit("op:");
    reveal_strlit("byte_span:");
    let k1 = "contrib_fp:"@;
    let k2 = "epoch:"@;
    let k3 = "op:"@;
    let k4 = "byte_span:"@;
    let e = dec(r.epoch as nat);
    let b = dec(r.byte_span as nat);
    lemma_dec_parse(r.epoch);
    lemma_dec_parse(r.byte_span);
    lemma_dec_clean(r.epoch);
    lemma_dec_clean(r.byte_span);
    lemma_kv_line(k1, r.contrib_fp);
    lemma_kv_line(k2, e);
    lemma_kv_line(k3, r.op);
    lemma_kv_line(k4, b);
    let ls = receipt_lines(r);
    let m = GDIR_RECEIPT_MAGIC@;
    assert(is_plain_line(m)) by {
        assert forall|k: int| 0 <= k < m.len() implies m[k] != '\n' by {}
    }
    assert forall|i: int| 0 <= i < ls.len() implies is_plain_line(#[trigger] ls[i]) by {}
    lemma_lines_unlines(ls);
    lemma_trim_noop(m);
    lemma_kv_other(k2, e, k1, 0);
    lemma_kv_other(k3, r.op, k1, 0);
    lemma_kv_other(k3, r.op, k2, 0);
    lemma_kv_other(k4, b, k1, 0);
    lemma_kv_other(k4, b, k2, 0);
    lemma_kv_other(k4, b, k3, 0);
    let body = ls.drop_first();
    let a0 = receipt_init();
    let a1 = GdirReceiptView { contrib_fp: r.contrib_fp, ..a0 };
    let a2 = GdirReceiptView { epoch: r.epoch, ..a1 };
    let a3 = GdirReceiptView { op: r.op, ..a2 };
    assert(body.take(1).drop_last() =~= Seq::<Seq<char>>::empty());
    assert(receipt_fold(Seq::<Seq<char>>::empty()) == Ok::<GdirReceiptView, MemErrorView>(a0));
    assert(body.take(1).last() == kv_line(k1, r.contrib_fp));
    assert(body.take(2).last() == kv_line(k2, e));
    assert(body.take(3).last() == kv_line(k3, r.op));
    assert(body.last() == kv_line(k4, b));
    assert(receipt_fold(body.take(1)) == Ok::<GdirReceiptView, MemErrorView>(a1));
    assert(body.take(2).drop_last() =~= body.take(1));
    assert(receipt_fold(body.take(2)) == Ok::<GdirReceiptView, MemErrorView>(a2));
    assert(body.take(3).drop_last() =~= body.take(2));
    assert(receipt_fold(body.take(3)) == Ok::<GdirReceiptView, MemErrorView>(a3));
    assert(body.drop_last() =~= body.take(3));
    assert(receipt_fold(body) == Ok::<GdirReceiptView, MemErrorView>(r));
}

// ---------------------------------------------------------------------------
// What the receipt and GDIR coin readers refuse.
// ---------------------------------------------------------------------------

/// A line that gives the field `key` a value that is not a decimal `u64`.
pub open spec fn bad_num_line(l: Seq<char>, key: Seq<char>) -> bool {
    has_prefix(trim(l), key) && parse_u64(field_of(trim(l), key)->0) is None
}

proof fn lemma_prefix_differs(t: Seq<char>, k1: Seq<char>, k2: Seq<char>, i: int)
    requires
        has_prefix(t, k1),
        0 <= i < k1.len(),
        i < k2.len(),
        k1[i] != k2[i],
    ensures
        field_of(t, k2) is None,
{
    if has_prefix(t, k2) {
        assert(t.take(k1.len() as int)[i] == t[i]);
        assert(t.take(k2.len() as int)[i] == t[i]);
    }
}

proof fn lemma_receipt_fold_facts(ls: Seq<Seq<char>>, i: int)
    requires
        0 <= i < ls.len(),
        receipt_fold(ls.take(i + 1)) is Err,
    ensures
        receipt_fold(ls) is Err,
    decreases ls.len(),
{
    if ls.len() == i + 1 {
        assert(ls.take(i + 1) =~= ls);
    } else {
        assert(ls.drop_last().take(i + 1) =~= ls.take(i + 1));
        lemma_receipt_fold_facts(ls.drop_last(), i);
    }
}

proof fn lemma_receipt_fold_coin(ls: Seq<Seq<char>>)
    ensures
        receipt_fold(ls) matches Err(e) ==> e is Coin,
    decreases ls.len(),
{
    if ls.len() > 0 {
        lemma_receipt_fold_coin(ls.drop_last());
    }
}

/// Law: the receipt reader refuses with a `Coin` error a text without the
/// `ITS-GDIR-RECEIPT/1` first line, a text whose `epoch:` or `byte_span:`
/// line holds no decimal number, and a text without a nonempty
/// `contrib_fp` and `op`; every error it gives is a `Coin` error.
pub proof fn lemma_receipt_refusals(text: Seq<char>)
    ensures
        receipt_parse(text) matches Err(e) ==> e is Coin,
        lines(text).len() == 0 || trim(lines(text)[0]) != GDIR_RECEIPT_MAGIC@ ==> receipt_parse(
            text,
        ) is Err,
        receipt_parse(text) matches Ok(r) ==> r.contrib_fp.len() > 0 && r.op.len() > 0,
        forall|i: int|
            1 <= i < lines(text).len() && (bad_num_line(#[trigger] lines(text)[i], "epoch:"@)
                || bad_num_line(lines(text)[i], "byte_span:"@)) ==> receipt_parse(text) is Err,
{
    let ls = lines(text);
    if ls.len() > 0 {
        lemma_receipt_fold_coin(ls.drop_first());
    }
    assert forall|i: int|
        1 <= i < lines(text).len() && (bad_num_line(#[trigger] lines(text)[i], "epoch:"@)
            || bad_num_line(lines(text)[i], "byte_span:"@)) implies receipt_parse(text) is Err by {
        reveal_strlit("contrib_fp:");
        reveal_strlit("epoch:");
        reveal_strlit("op:");
        reveal_strlit("byte_span:");
        let body = ls.drop_first();
        let t = trim(ls[i]);
        assert(body[i - 1] == ls[i]);
        assert(body.take(i).drop_last() =~= body.take(i - 1));
        assert(body.take(i).last() == ls[i]);
        if bad_num_line(ls[i], "epoch:"@) {
            lemma_prefix_differs(t, "epoch:"@, "contrib_fp:"@, 0);
        } else {
            lemma_prefix_differs(t, "byte_span:"@, "contrib_fp:"@, 0);
            lemma_prefix_differs(t, "byte_span:"@, "epoch:"@, 0);
            lemma_prefix_differs(t, "byte_span:"@, "op:"@, 0);
        }
        assert(receipt_fold(body.take(i)) is Err);
        lemma_receipt_fold_facts(body, i - 1);
    }
}

proof fn lemma_gdir_coin_fold_facts(ls: Seq<Seq<char>>, i: int)
    requires
        0 <= i < ls.len(),
        gdir_coin_fold(ls.take(i + 1)) is Err,
    ensures
        gdir_coin_fold(ls) is Err,
    decreases ls.len(),
{
    if ls.len() == i + 1 {
        assert(ls.take(i + 1) =~= ls);
    } else {
        assert(ls.drop_last().take(i + 1) =~= ls.take(i + 1));
        lemma_gdir_coin_fold_facts(ls.drop_last(), i);
    }
}

proof fn lemma_gdir_coin_fold_coin(ls: Seq<Seq<char>>)
    ensures
        gdir_coin_fold(ls) matches Err(e) ==> e is Coin,
    decreases ls.len(),
{
    if ls.len() > 0 {
        lemma_gdir_coin_fold_coin(ls.drop_last());
    }
}

/// Law: the GDIR coin reader refuses with a `Coin` error a text without the
/// `ITS-GDIR-COIN/1` first line, a text whose `contrib_ops:`,
/// `contrib_bytes:` or `contrib_seconds:` line holds no decimal number, and
/// a text without a nonempty `contrib_fp` and `chain_root`; every error it
/// gives is a `Coin` error.
pub proof fn lemma_gdir_coin_refusals(text: Seq<char>)
    ensures
        gdir_coin_parse(text) matches Err(e) ==> e is Coin,
        lines(text).len() == 0 || trim(lines(text)[0]) != GDIR_COIN_MAGIC@ ==> gdir_coin_parse(
            text,
        ) is Err,
        gdir_coin_parse(text) matches Ok(g) ==> g.contrib_fp.len() > 0 && g.chain_root.len() > 0,
        forall|i: int|
            1 <= i < lines(text).len() && (bad_num_line(#[trigger] lines(text)[i], "contrib_ops:"@)
                || bad_num_line(lines(text)[i], "contrib_bytes:"@) || bad_num_line(
                lines(text)[i],
                "contrib_seconds:"@,
            )) ==> gdir_coin_parse(text) is Err,
{
    let ls = lines(text);
    if ls.len() > 0 {
        lemma_gdir_coin_fold_coin(ls.drop_first());
    }
    assert forall|i: int|
        1 <= i < lines(text).len() && (bad_num_line(#[trigger] lines(text)[i], "contrib_ops:"@)
            || bad_num_line(lines(text)[i], "contrib_bytes:"@) || bad_num_line(
            lines(text)[i],
            "contrib_seconds:"@,
        )) implies gdir_coin_parse(text) is Err by {
        reveal_strlit("contrib_fp:");
        reveal_strlit("chain_root:");
        reveal_strlit("contrib_ops:");
        reveal_strlit("contrib_bytes:");
        reveal_strlit("contrib_seconds:");
        let body = ls.drop_first();
        let t = trim(ls[i]);
        assert(body[i - 1] == ls[i]);
        assert(body.take(i).drop_last() =~= body.take(i - 1));
        assert(body.take(i).last() == ls[i]);
        if bad_num_line(ls[i], "contrib_ops:"@) {
            lemma_prefix_differs(t, "contrib_ops:"@, "contrib_fp:"@, 8);
            lemma_prefix_differs(t, "contrib_ops:"@, "chain_root:"@, 1);
        } else if bad_num_line(ls[i], "contrib_bytes:"@) {
            lemma_prefix_differs(t, "contrib_bytes:"@, "contrib_fp:"@, 8);
            lemma_prefix_differs(t, "contrib_bytes:"@, "chain_root:"@, 1);
            lemma_prefix_differs(t, "contrib_bytes:"@, "contrib_ops:"@, 8);
        } else {
            lemma_prefix_differs(t, "contrib_seconds:"@, "contrib_fp:"@, 8);
            lemma_prefix_differs(t, "contrib_seconds:"@, "chain_root:"@, 1);
            lemma_prefix_differs(t, "contrib_seconds:"@, "contrib_ops:"@, 8);
            lemma_prefix_differs(t, "contrib_seconds:"@, "contrib_bytes:"@, 8);
        }
        assert(gdir_coin_fold(body.take(i)) is Err);
        lemma_gdir_coin_fold_facts(body, i - 1);
    }
}

// ---------------------------------------------------------------------------
// ITS-MEMORY-SHARD/1: a blind shard, carried without its room.
// ---------------------------------------------------------------------------

pub const SHARD_MAGIC: &'static str = "ITS-MEMORY-SHARD/1";

#[derive(Clone, Debug, PartialEq, Eq)]
pub struct BlindShard {
    pub shard_id: String,
    pub epoch: u64,
    pub wire_b64: String,
    pub wire_hash: String,
}

pub struct BlindShardView {
    pub shard_id: Seq<char>,
    pub epoch: u64,
    pub wire_b64: Seq<char>,
    pub wire_hash: Seq<char>,
}

impl View for BlindShard {
    type V = BlindShardView;

    open spec fn view(&self) -> BlindShardView {
        BlindShardView {
            shard_id: self.shard_id@,
            epoch: self.epoch,
            wire_b64: self.wire_b64@,
            wire_hash: self.wire_hash@,
        }
    }
}

/// The lines of a shard file: no line names a room.
pub open spec fn shard_lines(s: BlindShardView) -> Seq<Seq<char>> {
    seq![
        SHARD_MAGIC@,
        kv_line("shard_id:"@, s.shard_id),
        kv_line("epoch:"@, dec(s.epoch as nat)),
        kv_line("wire_hash:"@, s.wire_hash),
        kv_line("wire_b64:"@, s.wire_b64),
    ]
}

pub open spec fn shard_text(s: BlindShardView) -> Seq<char> {
    unlines(shard_lines(s))
}

pub open spec fn shard_init() -> BlindShardView {
    BlindShardView { shard_id: seq![], epoch: 0, wire_b64: seq![], wire_hash: seq![] }
}

/// One line of a shard body; later lines override earlier ones and a
/// malformed epoch is the error.
pub open spec fn shard_step(acc: Result<BlindShardView, MemErrorView>, line: Seq<char>) -> Result<
    BlindShardView,
    MemErrorView,
> {
    match acc {
        Err(e) => Err(e),
        Ok(a) => {
            let l = trim(line);
            if field_of(l, "shard_id:"@) is Some {
                Ok(BlindShardView { shard_id: field_of(l, "shard_id:"@)->0, ..a })
            } else if field_of(l, "epoch:"@) is Some {
                match parse_u64(field_of(l, "epoch:"@)->0) {
                    Some(n) => Ok(BlindShardView { epoch: n, ..a }),
                    None => Err(MemErrorView::Wire("shard epoch"@)),
                }
            } else if field_of(l, "wire_hash:"@) is Some {
                Ok(BlindShardView { wire_hash: field_of(l, "wire_hash:"@)->0, ..a })
            } else if field_of(l, "wire_b64:"@) is Some {
                Ok(BlindShardView { wire_b64: field_of(l, "wire_b64:"@)->0, ..a })
            } else {
                Ok(a)
            }
        },
    }
}

pub open spec fn shard_fold(ls: Seq<Seq<char>>) -> Result<BlindShardView, MemErrorView>
    decreases ls.len(),
{
    if ls.len() == 0 {
        Ok(shard_init())
    } else {
        shard_step(shard_fold(ls.drop_last()), ls.last())
    }
}

/// What `BlindShard::parse_text` gives for a text.
pub open spec fn shard_parse(text: Seq<char>) -> Result<BlindShardView, MemErrorView> {
    let ls = lines(text);
    if ls.len() == 0 || trim(ls[0]) != SHARD_MAGIC@ {
        Err(MemErrorView::Wire("missing ITS-MEMORY-SHARD/1"@))
    } else {
        match shard_fold(ls.drop_first()) {
            Err(e) => Err(e),
            Ok(a) => if a.shard_id.len() == 0 || a.wire_b64.len() == 0 {
                Err(MemErrorView::Wire("incomplete shard"@))
            } else {
                Ok(a)
            },
        }
    }
}

pub open spec fn shard_state(
    shard_id: Seq<char>,
    epoch: u64,
    wire_b64: Seq<char>,
    wire_hash: Seq<char>,
    err: Option<MemError>,
) -> Result<BlindShardView, MemErrorView> {
    match err {
        Some(e) => Err(e@),
        None => Ok(BlindShardView { shard_id, epoch, wire_b64, wire_hash }),
    }
}

impl BlindShard {
    pub fn serialize_text(&self) -> (s: String)
        ensures
            s@ == shard_text(self@),
    {
        let r = self;
        let ghost l0 = seq![SHARD_MAGIC@];
        let ghost l1 = l0.push(kv_line("shard_id:"@, r.shard_id@));
        let ghost l2 = l1.push(kv_line("epoch:"@, dec(r.epoch as nat)));
        let ghost l3 = l2.push(kv_line("wire_hash:"@, r.wire_hash@));
        let ghost l4 = l3.push(kv_line("wire_b64:"@, r.wire_b64@));
        let mut out: Vec<char> = Vec::new();
        push_line(&mut out, SHARD_MAGIC);
        proof {
            lemma_unlines_push(seq![], SHARD_MAGIC@);
            assert(seq![].push(SHARD_MAGIC@) =~= l0);
            assert(out@ =~= unlines(l0));
        }
        push_kv_str(&mut out, "shard_id:", r.shard_id.as_str());
        proof { lemma_unlines_push(l0, l1.last()); }
        push_kv_dec(&mut out, "epoch:", r.epoch);
        proof { lemma_unlines_push(l1, l2.last()); }
        push_kv_str(&mut out, "wire_hash:", r.wire_hash.as_str());
        proof { lemma_unlines_push(l2, l3.last()); }
        push_kv_str(&mut out, "wire_b64:", r.wire_b64.as_str());
        proof {
            lemma_unlines_push(l3, l4.last());
            assert(l4 =~= shard_lines(self@));
        }
        string_of(&out)
    }

    pub fn parse_text(text: &str) -> (r: Result<Self, MemError>)
        ensures
            result_view(r) == shard_parse(text@),
    {
        let ls = text_lines(text);
        if !first_line_is(&ls, SHARD_MAGIC) {
            return Err(wire_err("missing ITS-MEMORY-SHARD/1"));
        }
        let ghost L = views(ls@);
        let mut shard_id: Vec<char> = Vec::new();
        let mut epoch: u64 = 0;
        let mut wire_b64: Vec<char> = Vec::new();
        let mut wire_hash: Vec<char> = Vec::new();
        let mut err: Option<MemError> = None;
        let mut i: usize = 1;
        proof {
            assert(body_lines(L, 1) =~= Seq::<Seq<char>>::empty());
            assert(shard_init().shard_id =~= shard_id@);
            assert(shard_init().wire_b64 =~= wire_b64@);
            assert(shard_init().wire_hash =~= wire_hash@);
        }
        while i < ls.len()
            invariant
                1 <= i <= ls@.len(),
                L == views(ls@),
                shard_fold(body_lines(L, i as int)) == shard_state(
                    shard_id@,
                    epoch,
                    wire_b64@,
                    wire_hash@,
                    err,
                ),
            decreases ls.len() - i,
        {
            proof {
                lemma_body_step(L, i as int);
            }
            if err.is_none() {
                let l = trim_chars(&ls[i]);
                if let Some(v) = field_value(&l, "shard_id:") {
                    shard_id = v;
                } else if let Some(v) = field_value(&l, "epoch:") {
                    match parse_u64_chars(&v) {
                        Some(n) => {
                            epoch = n;
                        },
                        None => {
                            err = Some(wire_err("shard epoch"));
                        },
                    }
                } else if let Some(v) = field_value(&l, "wire_hash:") {
                    wire_hash = v;
                } else if let Some(v) = field_value(&l, "wire_b64:") {
                    wire_b64 = v;
                }
            }
            i = i + 1;
        }
        proof {
            lemma_body_all(L);
        }
        if let Some(e) = err {
            return Err(e);
        }
        if shard_id.len() == 0 || wire_b64.len() == 0 {
            return Err(wire_err("incomplete shard"));
        }
        Ok(
            BlindShard {
                shard_id: string_of(&shard_id),
                epoch,
                wire_b64: string_of(&wire_b64),
                wire_hash: string_of(&wire_hash),
            },
        )
    }
}

/// Law: a shard whose text fields are single-line values without
/// surrounding whitespace (`shard_id` and `wire_b64` nonempty) reads back
/// from its own text unchanged.
pub proof fn lemma_shard_roundtrip(s: BlindShardView)
    requires
        is_clean(s.shard_id),
        s.shard_id.len() > 0,
        is_clean(s.wire_b64),
        s.wire_b64.len() > 0,
        is_clean(s.wire_hash),
    ensures
        shard_parse(shard_text(s)) == Ok::<BlindShardView, MemErrorView>(s),
{
    reveal_strlit("ITS-MEMORY-SHARD/1");
    reveal_strlit("shard_id:");
    reveal_strlit("epoch:");
    reveal_strlit("wire_hash:");
    reveal_strlit("wire_b64:");
    let k1 = "shard_id:"@;
    let k2 = "epoch:"@;
    let k3 = "wire_hash:"@;
    let k4 = "wire_b64:"@;
    let e = dec(s.epoch as nat);
    lemma_dec_parse(s.epoch);
    lemma_dec_clean(s.epoch);
    lemma_kv_line(k1, s.shard_id);
    lemma_kv_line(k2, e);
    lemma_kv_line(k3, s.wire_hash);
    lemma_kv_line(k4, s.wire_b64);
    let ls = shard_lines(s);
    let m = SHARD_MAGIC@;
    assert(is_plain_line(m)) by {
        assert forall|k: int| 0 <= k < m.len() implies m[k] != '\n' by {}
    }
    assert forall|i: int| 0 <= i < ls.len() implies is_plain_line(#[trigger] ls[i]) by {}
    lemma_lines_unlines(ls);
    lemma_trim_noop(m);
    lemma_kv_other(k2, e, k1, 0);
    lemma_kv_other(k3, s.wire_hash, k1, 0);
    lemma_kv_other(k3, s.wire_hash, k2, 0);
    lemma_kv_other(k4, s.wire_b64, k1, 0);
    lemma_kv_other(k4, s.wire_b64, k2, 0);
    lemma_kv_other(k4, s.wire_b64, k3, 5);
    let body = ls.drop_first();
    let a0 = shard_init();
    let a1 = BlindShardView { shard_id: s.shard_id, ..a0 };
    let a2 = BlindShardView { epoch: s.epoch, ..a1 };
    let a3 = BlindShardView { wire_hash: s.wire_hash, ..a2 };
    assert(body.take(1).drop_last() =~= Seq::<Seq<char>>::empty());
    assert(shard_fold(Seq::<Seq<char>>::empty()) == Ok::<BlindShardView, MemErrorView>(a0));
    assert(body.take(1).last() == kv_line(k1, s.shard_id));
    assert(body.take(2).last() == kv_line(k2, e));
    assert(body.take(3).last() == kv_line(k3, s.wire_hash));
    assert(body.last() == kv_line(k4, s.wire_b64));
    assert(shard_fold(body.take(1)) == Ok::<BlindShardView, MemErrorView>(a1));
    assert(body.take(2).drop_last() =~= body.take(1));
    assert(shard_fold(body.take(2)) == Ok::<BlindShardView, MemErrorView>(a2));
    assert(body.take(3).drop_last() =~= body.take(2));
    assert(shard_fold(body.take(3)) == Ok::<BlindShardView, MemErrorView>(a3));
    assert(body.drop_last() =~= body.take(3));
    assert(shard_fold(body) == Ok::<BlindShardView, MemErrorView>(s));
}

/// Law: a shard's text names no room: with single-line fields, none of its
/// lines carries a `room_wire_pk:` field.
pub proof fn lemma_shard_names_no_room(s: BlindShardView)
    requires
        is_clean(s.shard_id),
        is_clean(s.wire_b64),
        is_clean(s.wire_hash),
    ensures
        forall|i: int|
            0 <= i < lines(shard_text(s)).len() ==> field_of(
                trim(#[trigger] lines(shard_text(s))[i]),
                "room_wire_pk:"@,
            ) is None,
{
    reveal_strlit("ITS-MEMORY-SHARD/1");
    reveal_strlit("shard_id:");
    reveal_strlit("epoch:");
    reveal_strlit("wire_hash:");
    reveal_strlit("wire_b64:");
    reveal_strlit("room_wire_pk:");
    let k = "room_wire_pk:"@;
    let e = dec(s.epoch as nat);
    lemma_dec_clean(s.epoch);
    lemma_kv_line("shard_id:"@, s.shard_id);
    lemma_kv_line("epoch:"@, e);
    lemma_kv_line("wire_hash:"@, s.wire_hash);
    lemma_kv_line("wire_b64:"@, s.wire_b64);
    lemma_kv_other("shard_id:"@, s.shard_id, k, 0);
    lemma_kv_other("epoch:"@, e, k, 0);
    lemma_kv_other("wire_hash:"@, s.wire_hash, k, 0);
    lemma_kv_other("wire_b64:"@, s.wire_b64, k, 0);
    let ls = shard_lines(s);
    let m = SHARD_MAGIC@;
    assert(is_plain_line(m)) by {
        assert forall|j: int| 0 <= j < m.len() implies m[j] != '\n' by {}
    }
    assert forall|i: int| 0 <= i < ls.len() implies is_plain_line(#[trigger] ls[i]) by {}
    lemma_lines_unlines(ls);
    lemma_trim_noop(m);
    assert(m[0] != k[0]);
    assert(!has_prefix(trim(m), k)) by {
        if has_prefix(trim(m), k) {
            assert(trim(m).take(k.len() as int)[0] == k[0]);
        }
    }
}

// ---------------------------------------------------------------------------
// ITS-GDIR-COIN/1
// ---------------------------------------------------------------------------

#[derive(Clone, Debug, PartialEq, Eq)]
pub struct GdirCoinManifest {
    pub contrib_fp: String,
    pub chain_root: String,
    pub contrib_ops: u64,
    pub contrib_bytes: u64,
    pub contrib_seconds: u64,
}

pub struct GdirCoinView {
    pub contrib_fp: Seq<char>,
    pub chain_root: Seq<char>,
    pub contrib_ops: u64,
    pub contrib_bytes: u64,
    pub contrib_seconds: u64,
}

impl View for GdirCoinManifest {
    type V = GdirCoinView;

    open spec fn view(&self) -> GdirCoinView {
        GdirCoinView {
            contrib_fp: self.contrib_fp@,
            chain_root: self.chain_root@,
            contrib_ops: self.contrib_ops,
            contrib_bytes: self.contrib_bytes,
            contrib_seconds: self.contrib_seconds,
        }
    }
}

pub open spec fn gdir_coin_lines(c: GdirCoinView) -> Seq<Seq<char>> {
    seq![
        GDIR_COIN_MAGIC@,
        kv_line("contrib_fp:"@, c.contrib_fp),
        kv_line("chain_root:"@, c.chain_root),
        kv_line("contrib_ops:"@, dec(c.contrib_ops as nat)),
        kv_line("contrib_bytes:"@, dec(c.contrib_bytes as nat)),
        kv_line("contrib_seconds:"@, dec(c.contrib_seconds as nat)),
    ]
}

pub open spec fn gdir_coin_text(c: GdirCoinView) -> Seq<char> {
    unlines(gdir_coin_lines(c))
}

pub open spec fn gdir_coin_init() -> GdirCoinView {
    GdirCoinView {
        contrib_fp: seq![],
        chain_root: seq![],
        contrib_ops: 0,
        contrib_bytes: 0,
        contrib_seconds: 0,
    }
}

pub open spec fn gdir_coin_step(
    acc: Result<GdirCoinView, MemErrorView>,
    line: Seq<char>,
) -> Result<GdirCoinView, MemErrorView> {
    match acc {
        Err(e) => Err(e),
        Ok(a) => {
            let l = trim(line);
            match field_of(l, "contrib_fp:"@) {
                Some(v) => Ok(GdirCoinView { contrib_fp: v, ..a }),
                None => match field_of(l, "chain_root:"@) {
                    Some(v) => Ok(GdirCoinView { chain_root: v, ..a }),
                    None => match field_of(l, "contrib_ops:"@) {
                        Some(v) => match parse_u64(v) {
                            Some(n) => Ok(GdirCoinView { contrib_ops: n, ..a }),
                            None => Err(MemErrorView::Coin("contrib_ops"@)),
                        },
                        None => match field_of(l, "contrib_bytes:"@) {
                            Some(v) => match parse_u64(v) {
                                Some(n) => Ok(GdirCoinView { contrib_bytes: n, ..a }),
                                None => Err(MemErrorView::Coin("contrib_bytes"@)),
                            },
                            None => match field_of(l, "contrib_seconds:"@) {
                                Some(v) => match parse_u64(v) {
                                    Some(n) => Ok(GdirCoinView { contrib_seconds: n, ..a }),
                                    None => Err(MemErrorView::Coin("contrib_seconds"@)),
                                },
                                None => Ok(a),
                            },
                        },
                    },
                },
            }
        },
    }
}

pub open spec fn gdir_coin_fold(ls: Seq<Seq<char>>) -> Result<GdirCoinView, MemErrorView>
    decreases ls.len(),
{
    if ls.len() == 0 {
        Ok(gdir_coin_init())
    } else {
        gdir_coin_step(gdir_coin_fold(ls.drop_last()), ls.last())
    }
}

/// What `GdirCoinManifest::parse_text` gives for a text.
pub open spec fn gdir_coin_parse(text: Seq<char>) -> Result<GdirCoinView, MemErrorView> {
    let ls = lines(text);
    if ls.len() == 0 || trim(ls[0]) != GDIR_COIN_MAGIC@ {
        Err(MemErrorView::Coin("missing ITS-GDIR-COIN/1"@))
    } else {
        match gdir_coin_fold(ls.drop_first()) {
            Err(e) => Err(e),
            Ok(a) => if a.contrib_fp.len() == 0 || a.chain_root.len() == 0 {
                Err(MemErrorView::Coin("incomplete gdir coin"@))
            } else {
                Ok(a)
            },
        }
    }
}

pub open spec fn gdir_coin_state(
    contrib_fp: Seq<char>,
    chain_root: Seq<char>,
    ops: u64,
    bytes: u64,
    seconds: u64,
    err: Option<MemError>,
) -> Result<GdirCoinView, MemErrorView> {
    match err {
        Some(e) => Err(e@),
        None => Ok(
            GdirCoinView {
                contrib_fp,
                chain_root,
                contrib_ops: ops,
                contrib_bytes: bytes,
                contrib_seconds: seconds,
            },
        ),
    }
}

impl GdirCoinManifest {
    pub fn serialize_text(&self) -> (s: String)
        ensures
            s@ == gdir_coin_text(self@),
    {
        let c = self;
        let ghost l0 = seq![GDIR_COIN_MAGIC@];
        let ghost l1 = l0.push(kv_line("contrib_fp:"@, c.contrib_fp@));
        let ghost l2 = l1.push(kv_line("chain_root:"@, c.chain_root@));
        let ghost l3 = l2.push(kv_line("contrib_ops:"@, dec(c.contrib_ops as nat)));
        let ghost l4 = l3.push(kv_line("contrib_bytes:"@, dec(c.contrib_bytes as nat)));
        let ghost l5 = l4.push(kv_line("contrib_seconds:"@, dec(c.contrib_seconds as nat)));
        let mut out: Vec<char> = Vec::new();
        push_line(&mut out, GDIR_COIN_MAGIC);
        proof {
            lemma_unlines_push(seq![], GDIR_COIN_MAGIC@);
            assert(seq![].push(GDIR_COIN_MAGIC@) =~= l0);
            assert(out@ =~= unlines(l0));
        }
        push_kv_str(&mut out, "contrib_fp:", c.contrib_fp.as_str());
        proof { lemma_unlines_push(l0, l1.last()); }
        push_kv_str(&mut out, "chain_root:", c.chain_root.as_str());
        proof { lemma_unlines_push(l1, l2.last()); }
        push_kv_dec(&mut out, "contrib_ops:", c.contrib_ops);
        proof { lemma_unlines_push(l2, l3.last()); }
        push_kv_dec(&mut out, "contrib_bytes:", c.contrib_bytes);
        proof { lemma_unlines_push(l3, l4.last()); }
        push_kv_dec(&mut out, "contrib_seconds:", c.contrib_seconds);
        proof {
            lemma_unlines_push(l4, l5.last());
            assert(l5 =~= gdir_coin_lines(self@));
        }
        string_of(&out)
    }

    pub fn parse_text(text: &str) -> (r: Result<Self, MemError>)
        ensures
            result_view(r) == gdir_coin_parse(text@),
    {
        let ls = text_lines(text);
        if !first_line_is(&ls, GDIR_COIN_MAGIC) {
            return Err(coin_err("missing ITS-GDIR-COIN/1"));
        }
        let ghost L = views(ls@);
        let mut contrib_fp: Vec<char> = Vec::new();
        let mut chain_root: Vec<char> = Vec::new();
        let mut ops: u64 = 0;
        let mut bytes: u64 = 0;
        let mut seconds: u64 = 0;
        let mut err: Option<MemError> = None;
        let mut i: usize = 1;
        proof {
            assert(body_lines(L, 1) =~= Seq::<Seq<char>>::empty());
            assert(gdir_coin_init().contrib_fp =~= contrib_fp@);
            assert(gdir_coin_init().chain_root =~= chain_root@);
        }
        while i < ls.len()
            invariant
                1 <= i <= ls@.len(),
                L == views(ls@),
                gdir_coin_fold(body_lines(L, i as int)) == gdir_coin_state(
                    contrib_fp@,
                    chain_root@,
                    ops,
                    bytes,
                    seconds,
                    err,
                ),
            decreases ls.len() - i,
        {
            proof {
                lemma_body_step(L, i as int);
            }
            if err.is_none() {
                let l = trim_chars(&ls[i]);
                if let Some(v) = field_value(&l, "contrib_fp:") {
                    contrib_fp = v;
                } else if let Some(v) = field_value(&l, "chain_root:") {
                    chain_root = v;
                } else if let Some(v) = field_value(&l, "contrib_ops:") {
                    match parse_u64_chars(&v) {
                        Some(n) => {
                            ops = n;
                        },
                        None => {
                            err = Some(coin_err("contrib_ops"));
                        },
                    }
                } else if let Some(v) = field_value(&l, "contrib_bytes:") {
                    match parse_u64_chars(&v) {
                        Some(n) => {
                            bytes = n;
                        },
                        None => {
                            err = Some(coin_err("contrib_bytes"));
                        },
                    }
                } else if let Some(v) = field_value(&l, "contrib_seconds:") {
                    match parse_u64_chars(&v) {
                        Some(n) => {
                            seconds = n;
                        },
                        None => {
                            err = Some(coin_err("contrib_seconds"));
                        },
                    }
                }
            }
            i = i + 1;
        }
        proof {
            lemma_body_all(L);
        }
        if let Some(e) = err {
            return Err(e);
        }
        if contrib_fp.len() == 0 || chain_root.len() == 0 {
            return Err(coin_err("incomplete gdir coin"));
        }
        Ok(
            GdirCoinManifest {
                contrib_fp: string_of(&contrib_fp),
                chain_root: string_of(&chain_root),
                contrib_ops: ops,
                contrib_bytes: bytes,
                contrib_seconds: seconds,
            },
        )
    }
}

/// Law: a GDIR coin with nonempty, clean `contrib_fp` and `chain_root`
/// reads back from its own text unchanged.
pub proof fn lemma_gdir_coin_roundtrip(c: GdirCoinView)
    requires
        is_clean(c.contrib_fp),
        c.contrib_fp.len() > 0,
        is_clean(c.chain_root),
        c.chain_root.len() > 0,
    ensures
        gdir_coin_parse(gdir_coin_text(c)) == Ok::<GdirCoinView, MemErrorView>(c),
{
    reveal_strlit("ITS-GDIR-COIN/1");
    reveal_strlit("contrib_fp:");
    reveal_strlit("chain_root:");
    reveal_strlit("contrib_ops:");
    reveal_strlit("contrib_bytes:");
    reveal_strlit("contrib_seconds:");
    let k1 = "contrib_fp:"@;
    let k2 = "chain_root:"@;
    let k3 = "contrib_ops:"@;
    let k4 = "contrib_bytes:"@;
    let k5 = "contrib_seconds:"@;
    let o = dec(c.contrib_ops as nat);
    let b = dec(c.contrib_bytes as nat);
    let s = dec(c.contrib_seconds as nat);
    lemma_dec_parse(c.contrib_ops);
    lemma_dec_parse(c.contrib_bytes);
    lemma_dec_parse(c.contrib_seconds);
    lemma_dec_clean(c.contrib_ops);
    lemma_dec_clean(c.contrib_bytes);
    lemma_dec_clean(c.contrib_seconds);
    lemma_kv_line(k1, c.contrib_fp);
    lemma_kv_line(k2, c.chain_root);
    lemma_kv_line(k3, o);
    lemma_kv_line(k4, b);
    lemma_kv_line(k5, s);
    let ls = gdir_coin_lines(c);
    let m = GDIR_COIN_MAGIC@;
    assert(is_plain_line(m)) by {
        assert forall|k: int| 0 <= k < m.len() implies m[k] != '\n' by {}
    }
    assert forall|i: int| 0 <= i < ls.len() implies is_plain_line(#[trigger] ls[i]) by {}
    lemma_lines_unlines(ls);
    lemma_trim_noop(m);
    lemma_kv_other(k2, c.chain_root, k1, 1);
    lemma_kv_other(k3, o, k1, 8);
    lemma_kv_other(k3, o, k2, 1);
    lemma_kv_other(k4, b, k1, 8);
    lemma_kv_other(k4, b, k2, 1);
    lemma_kv_other(k4, b, k3, 8);
    lemma_kv_other(k5, s, k1, 8);
    lemma_kv_other(k5, s, k2, 1);
    lemma_kv_other(k5, s, k3, 8);
    lemma_kv_other(k5, s, k4, 8);
    let body = ls.drop_first();
    let a0 = gdir_coin_init();
    let a1 = GdirCoinView { contrib_fp: c.contrib_fp, ..a0 };
    let a2 = GdirCoinView { chain_root: c.chain_root, ..a1 };
    let a3 = GdirCoinView { contrib_ops: c.contrib_ops, ..a2 };
    let a4 = GdirCoinView { contrib_bytes: c.contrib_bytes, ..a3 };
    assert(body.take(1).drop_last() =~= Seq::<Seq<char>>::empty());
    assert(gdir_coin_fold(Seq::<Seq<char>>::empty()) == Ok::<GdirCoinView, MemErrorView>(a0));
    assert(body.take(1).last() == kv_line(k1, c.contrib_fp));
    assert(body.take(2).last() == kv_line(k2, c.chain_root));
    assert(body.take(3).last() == kv_line(k3, o));
    assert(body.take(4).last() == kv_line(k4, b));
    assert(body.last() == kv_line(k5, s));
    assert(gdir_coin_fold(body.take(1)) == Ok::<GdirCoinView, MemErrorView>(a1));
    assert(body.take(2).drop_last() =~= body.take(1));
    assert(gdir_coin_fold(body.take(2)) == Ok::<GdirCoinView, MemErrorView>(a2));
    assert(body.take(3).drop_last() =~= body.take(2));
    assert(gdir_coin_fold(body.take(3)) == Ok::<GdirCoinView, MemErrorView>(a3));
    assert(body.take(4).drop_last() =~= body.take(3));
    assert(gdir_coin_fold(body.take(4)) == Ok::<GdirCoinView, MemErrorView>(a4));
    assert(body.drop_last() =~= body.take(4));
    assert(gdir_coin_fold(body) == Ok::<GdirCoinView, MemErrorView>(c));
}

// ---------------------------------------------------------------------------
// ITS-MEMORY-PIN/1
// ---------------------------------------------------------------------------

#[derive(Clone, Debug, PartialEq, Eq)]
pub struct MemoryPin {
    pub room_wire_pk: String,
    pub pool_epoch: u64,
    pub wire_b64: String,
    pub seq_hint: Option<u64>,
    /// Hex encoding of raw ciphertext bytes (exact identity, not a hash function).
    pub wire_hash: String,
}

pub struct MemoryPinView {
    pub room_wire_pk: Seq<char>,
    pub pool_epoch: u64,
    pub wire_b64: Seq<char>,
    pub seq_hint: Option<u64>,
    pub wire_hash: Seq<char>,
}

impl View for MemoryPin {
    type V = MemoryPinView;

    open spec fn view(&self) -> MemoryPinView {
        MemoryPinView {
            room_wire_pk: self.room_wire_pk@,
            pool_epoch: self.pool_epoch,
            wire_b64: self.wire_b64@,
            seq_hint: self.seq_hint,
            wire_hash: self.wire_hash@,
        }
    }
}

pub open spec fn pin_lines(p: MemoryPinView) -> Seq<Seq<char>> {
    let head = seq![
        PIN_MAGIC@,
        kv_line("room_wire_pk:"@, p.room_wire_pk),
        kv_line("pool_epoch:"@, dec(p.pool_epoch as nat)),
        kv_line("wire_hash:"@, p.wire_hash),
    ];
    let with_seq = match p.seq_hint {
        Some(n) => head.push(kv_line("seq_hint:"@, dec(n as nat))),
        None => head,
    };
    with_seq.push(kv_line("wire_b64:"@, p.wire_b64))
}

pub open spec fn pin_text(p: MemoryPinView) -> Seq<char> {
    unlines(pin_lines(p))
}

/// The state of the pin reader: the fields read so far and whether the
/// base64 block has started (every later line belongs to it).
pub struct PinAcc {
    pub room_wire_pk: Seq<char>,
    pub pool_epoch: u64,
    pub wire_hash: Seq<char>,
    pub seq_hint: Option<u64>,
    pub wire_b64: Seq<char>,
    pub in_b64: bool,
}

pub open spec fn pin_init() -> PinAcc {
    PinAcc {
        room_wire_pk: seq![],
        pool_epoch: 0,
        wire_hash: seq![],
        seq_hint: None,
        wire_b64: seq![],
        in_b64: false,
    }
}

pub open spec fn pin_step(acc: Result<PinAcc, MemErrorView>, line: Seq<char>) -> Result<
    PinAcc,
    MemErrorView,
> {
    match acc {
        Err(e) => Err(e),
        Ok(a) => if a.in_b64 {
            Ok(PinAcc { wire_b64: a.wire_b64 + trim(line), ..a })
        } else {
            pin_field_step(a, trim(line))
        },
    }
}

/// One trimmed `key: value` line outside the base64 block.
pub open spec fn pin_field_step(a: PinAcc, l: Seq<char>) -> Result<PinAcc, MemErrorView> {
    if field_of(l, "room_wire_pk:"@) is Some {
        Ok(PinAcc { room_wire_pk: field_of(l, "room_wire_pk:"@)->0, ..a })
    } else if field_of(l, "pool_epoch:"@) is Some {
        let v = field_of(l, "pool_epoch:"@)->0;
        if parse_u64(v) is Some {
            Ok(PinAcc { pool_epoch: parse_u64(v)->0, ..a })
        } else {
            Err(MemErrorView::Wire("pool_epoch"@))
        }
    } else if field_of(l, "wire_hash:"@) is Some {
        Ok(PinAcc { wire_hash: field_of(l, "wire_hash:"@)->0, ..a })
    } else if field_of(l, "seq_hint:"@) is Some {
        let v = field_of(l, "seq_hint:"@)->0;
        if parse_u64(v) is Some {
            Ok(PinAcc { seq_hint: parse_u64(v), ..a })
        } else {
            Err(MemErrorView::Wire("seq_hint"@))
        }
    } else if field_of(l, "wire_b64:"@) is Some {
        Ok(PinAcc { wire_b64: a.wire_b64 + field_of(l, "wire_b64:"@)->0, in_b64: true, ..a })
    } else {
        Ok(a)
    }
}

pub open spec fn pin_fold(ls: Seq<Seq<char>>) -> Result<PinAcc, MemErrorView>
    decreases ls.len(),
{
    if ls.len() == 0 {
        Ok(pin_init())
    } else {
        pin_step(pin_fold(ls.drop_last()), ls.last())
    }
}

/// The outcome of reading a pin: a pin, an error, or a base64 block that
/// did not decode (reported as `Wire("wire_b64: …")` with the decoder's
/// message).
pub enum PinParse {
    Parsed(MemoryPinView),
    Failed(MemErrorView),
    BadWire,
}

/// What `MemoryPin::parse_text` gives for a text. A missing `wire_hash` is
/// recomputed from the decoded ciphertext.
pub open spec fn pin_parse(text: Seq<char>) -> PinParse {
    let ls = lines(text);
    if ls.len() == 0 || trim(ls[0]) != PIN_MAGIC@ {
        PinParse::Failed(MemErrorView::Wire("missing ITS-MEMORY-PIN/1"@))
    } else if pin_fold(ls.drop_first()) is Err {
        PinParse::Failed(pin_fold(ls.drop_first())->Err_0)
    } else {
        pin_finish(pin_fold(ls.drop_first())->Ok_0)
    }
}

/// The checks after the last line: required fields, then the identity
/// recomputed from the ciphertext when the text did not carry it.
pub open spec fn pin_finish(a: PinAcc) -> PinParse {
    if a.room_wire_pk.len() == 0 || a.wire_b64.len() == 0 {
        PinParse::Failed(MemErrorView::Wire("incomplete pin"@))
    } else if a.wire_hash.len() == 0 {
        if base64_decode_spec(trim(a.wire_b64)) is Some {
            PinParse::Parsed(pin_of_acc(a, hex_lower(base64_decode_spec(trim(a.wire_b64))->0)))
        } else {
            PinParse::BadWire
        }
    } else {
        PinParse::Parsed(pin_of_acc(a, a.wire_hash))
    }
}

pub open spec fn pin_of_acc(a: PinAcc, wire_hash: Seq<char>) -> MemoryPinView {
    MemoryPinView {
        room_wire_pk: a.room_wire_pk,
        pool_epoch: a.pool_epoch,
        wire_b64: a.wire_b64,
        seq_hint: a.seq_hint,
        wire_hash,
    }
}

/// An error that reports a base64 block the decoder refused.
pub open spec fn is_bad_wire_error(e: MemErrorView) -> bool {
    e matches MemErrorView::Wire(m) && has_prefix(m, "wire_b64: "@)
}

pub open spec fn pin_result_matches(r: Result<MemoryPin, MemError>, o: PinParse) -> bool {
    match o {
        PinParse::Parsed(v) => r matches Ok(p) && p@ == v,
        PinParse::Failed(e) => r matches Err(x) && x@ == e,
        PinParse::BadWire => r matches Err(x) && is_bad_wire_error(x@),
    }
}

pub open spec fn pin_state(
    room: Seq<char>,
    epoch: u64,
    hash: Seq<char>,
    seq_hint: Option<u64>,
    b64: Seq<char>,
    in_b64: bool,
    err: Option<MemError>,
) -> Result<PinAcc, MemErrorView> {
    match err {
        Some(e) => Err(e@),
        None => Ok(
            PinAcc {
                room_wire_pk: room,
                pool_epoch: epoch,
                wire_hash: hash,
                seq_hint,
                wire_b64: b64,
                in_b64,
            },
        ),
    }
}

/// The `Wire("wire_b64: <decoder message>")` error.
fn bad_wire_error(msg: String) -> (e: MemError)
    ensures
        is_bad_wire_error(e@),
{
    let mut m = String::from_str("wire_b64: ");
    m.append(msg.as_str());
    proof {
        assert((m@).take("wire_b64: "@.len() as int) =~= "wire_b64: "@);
    }
    MemError::Wire(m)
}

/// What `MemoryPin::wire_bytes` gives: the decoded ciphertext, or `None`
/// where the trimmed base64 does not decode.
pub open spec fn pin_wire(p: MemoryPinView) -> Option<Seq<u8>> {
    base64_decode_spec(trim(p.wire_b64))
}

impl MemoryPin {
    /// The ciphertext carried by the pin.
    pub fn wire_bytes(&self) -> (r: Result<Vec<u8>, MemError>)
        ensures
            match pin_wire(self@) {
                Some(w) => r matches Ok(v) && v@ == w,
                None => r matches Err(e) && is_bad_wire_error(e@),
            },
    {
        let b = chars_of(self.wire_b64.as_str());
        let t = trim_chars(&b);
        let ts = string_of(&t);
        match from_base64(ts.as_str()) {
            Ok(v) => Ok(v),
            Err(m) => Err(bad_wire_error(m)),
        }
    }

    pub fn serialize_text(&self) -> (s: String)
        ensures
            s@ == pin_text(self@),
    {
        let p = self;
        let ghost l0 = seq![PIN_MAGIC@];
        let ghost l1 = l0.push(kv_line("room_wire_pk:"@, p.room_wire_pk@));
        let ghost l2 = l1.push(kv_line("pool_epoch:"@, dec(p.pool_epoch as nat)));
        let ghost l3 = l2.push(kv_line("wire_hash:"@, p.wire_hash@));
        let ghost l4 = match p.seq_hint {
            Some(n) => l3.push(kv_line("seq_hint:"@, dec(n as nat))),
            None => l3,
        };
        let ghost l5 = l4.push(kv_line("wire_b64:"@, p.wire_b64@));
        let mut out: Vec<char> = Vec::new();
        push_line(&mut out, PIN_MAGIC);
        proof {
            lemma_unlines_push(seq![], PIN_MAGIC@);
            assert(seq![].push(PIN_MAGIC@) =~= l0);
            assert(out@ =~= unlines(l0));
        }
        push_kv_str(&mut out, "room_wire_pk:", p.room_wire_pk.as_str());
        proof { lemma_unlines_push(l0, l1.last()); }
        push_kv_dec(&mut out, "pool_epoch:", p.pool_epoch);
        proof { lemma_unlines_push(l1, l2.last()); }
        push_kv_str(&mut out, "wire_hash:", p.wire_hash.as_str());
        proof { lemma_unlines_push(l2, l3.last()); }
        if let Some(n) = p.seq_hint {
            push_kv_dec(&mut out, "seq_hint:", n);
            proof { lemma_unlines_push(l3, l4.last()); }
        }
        push_kv_str(&mut out, "wire_b64:", p.wire_b64.as_str());
        proof {
            lemma_unlines_push(l4, l5.last());
            let head = seq![
                PIN_MAGIC@,
                kv_line("room_wire_pk:"@, p.room_wire_pk@),
                kv_line("pool_epoch:"@, dec(p.pool_epoch as nat)),
                kv_line("wire_hash:"@, p.wire_hash@),
            ];
            assert(l3 =~= head);
            assert(l5 =~= pin_lines(self@));
        }
        string_of(&out)
    }

    pub fn parse_text(text: &str) -> (r: Result<Self, MemError>)
        ensures
            pin_result_matches(r, pin_parse(text@)),
    {
        let ls = text_lines(text);
        if !first_line_is(&ls, PIN_MAGIC) {
            return Err(wire_err("missing ITS-MEMORY-PIN/1"));
        }
        let ghost L = views(ls@);
        let mut room: Vec<char> = Vec::new();
        let mut epoch: u64 = 0;
        let mut hash: Vec<char> = Vec::new();
        let mut seq_hint: Option<u64> = None;
        let mut b64: Vec<char> = Vec::new();
        let mut in_b64 = false;
        let mut err: Option<MemError> = None;
        let mut i: usize = 1;
        proof {
            assert(body_lines(L, 1) =~= Seq::<Seq<char>>::empty());
            assert(pin_init().room_wire_pk =~= room@);
            assert(pin_init().wire_hash =~= hash@);
            assert(pin_init().wire_b64 =~= b64@);
        }
        while i < ls.len()
            invariant
                1 <= i <= ls@.len(),
                L == views(ls@),
                pin_fold(body_lines(L, i as int)) == pin_state(
                    room@,
                    epoch,
                    hash@,
                    seq_hint,
                    b64@,
                    in_b64,
                    err,
                ),
            decreases ls.len() - i,
        {
            proof {
                lemma_body_step(L, i as int);
            }
            if err.is_none() {
                if in_b64 {
                    let t = trim_chars(&ls[i]);
                    push_chars(&mut b64, &t);
                } else {
                    let l = trim_chars(&ls[i]);
                    if let Some(v) = field_value(&l, "room_wire_pk:") {
                        room = v;
                    } else if let Some(v) = field_value(&l, "pool_epoch:") {
                        match parse_u64_chars(&v) {
                            Some(n) => {
                                epoch = n;
                            },
                            None => {
                                err = Some(wire_err("pool_epoch"));
                            },
                        }
                    } else if let Some(v) = field_value(&l, "wire_hash:") {
                        hash = v;
                    } else if let Some(v) = field_value(&l, "seq_hint:") {
                        match parse_u64_chars(&v) {
                            Some(n) => {
                                seq_hint = Some(n);
                            },
                            None => {
                                err = Some(wire_err("seq_hint"));
                            },
                        }
                    } else if let Some(v) = field_value(&l, "wire_b64:") {
                        push_chars(&mut b64, &v);
                        in_b64 = true;
                    }
                }
            }
            i = i + 1;
        }
        proof {
            lemma_body_all(L);
        }
        if let Some(e) = err {
            return Err(e);
        }
        if room.len() == 0 || b64.len() == 0 {
            return Err(wire_err("incomplete pin"));
        }
        let wire_b64 = string_of(&b64);
        if hash.len() == 0 {
            let t = trim_chars(&b64);
            let ts = string_of(&t);
            match from_base64(ts.as_str()) {
                Ok(w) => {
                    let h = to_hex(w.as_slice());
                    return Ok(
                        MemoryPin {
                            room_wire_pk: string_of(&room),
                            pool_epoch: epoch,
                            wire_b64,
                            seq_hint,
                            wire_hash: h,
                        },
                    );
                },
                Err(m) => {
                    return Err(bad_wire_error(m));
                },
            }
        }
        Ok(
            MemoryPin {
                room_wire_pk: string_of(&room),
                pool_epoch: epoch,
                wire_b64,
                seq_hint,
                wire_hash: string_of(&hash),
            },
        )
    }
}

/// Law: a pin whose `room_wire_pk`, `wire_hash` and `wire_b64` are
/// nonempty, clean values reads back from its own text unchanged.
pub proof fn lemma_pin_roundtrip(p: MemoryPinView)
    requires
        is_clean(p.room_wire_pk),
        p.room_wire_pk.len() > 0,
        is_clean(p.wire_hash),
        p.wire_hash.len() > 0,
        is_clean(p.wire_b64),
        p.wire_b64.len() > 0,
    ensures
        pin_parse(pin_text(p)) == PinParse::Parsed(p),
{
    reveal_strlit("ITS-MEMORY-PIN/1");
    reveal_strlit("room_wire_pk:");
    reveal_strlit("pool_epoch:");
    reveal_strlit("wire_hash:");
    reveal_strlit("seq_hint:");
    reveal_strlit("wire_b64:");
    let k1 = "room_wire_pk:"@;
    let k2 = "pool_epoch:"@;
    let k3 = "wire_hash:"@;
    let k4 = "seq_hint:"@;
    let k5 = "wire_b64:"@;
    let e = dec(p.pool_epoch as nat);
    lemma_dec_parse(p.pool_epoch);
    lemma_dec_clean(p.pool_epoch);
    lemma_kv_line(k1, p.room_wire_pk);
    lemma_kv_line(k2, e);
    lemma_kv_line(k3, p.wire_hash);
    lemma_kv_line(k5, p.wire_b64);
    lemma_kv_other(k2, e, k1, 0);
    lemma_kv_other(k3, p.wire_hash, k1, 0);
    lemma_kv_other(k3, p.wire_hash, k2, 0);
    lemma_kv_other(k5, p.wire_b64, k1, 0);
    lemma_kv_other(k5, p.wire_b64, k2, 0);
    lemma_kv_other(k5, p.wire_b64, k3, 5);
    lemma_kv_other(k5, p.wire_b64, k4, 0);
    let ls = pin_lines(p);
    let m = PIN_MAGIC@;
    assert(is_plain_line(m)) by {
        assert forall|k: int| 0 <= k < m.len() implies m[k] != '\n' by {}
    }
    let a0 = pin_init();
    let a1 = PinAcc { room_wire_pk: p.room_wire_pk, ..a0 };
    let a2 = PinAcc { pool_epoch: p.pool_epoch, ..a1 };
    let a3 = PinAcc { wire_hash: p.wire_hash, ..a2 };
    let a4 = PinAcc { seq_hint: p.seq_hint, ..a3 };
    let a5 = PinAcc { wire_b64: p.wire_b64, in_b64: true, ..a4 };
    let b0 = Seq::<Seq<char>>::empty();
    let b1 = b0.push(kv_line(k1, p.room_wire_pk));
    let b2 = b1.push(kv_line(k2, e));
    let b3 = b2.push(kv_line(k3, p.wire_hash));
    assert(b1.drop_last() =~= b0);
    assert(b2.drop_last() =~= b1);
    assert(b3.drop_last() =~= b2);
    assert(pin_fold(b0) == Ok::<PinAcc, MemErrorView>(a0));
    assert(pin_fold(b1) == Ok::<PinAcc, MemErrorView>(a1));
    assert(pin_fold(b2) == Ok::<PinAcc, MemErrorView>(a2));
    assert(pin_fold(b3) == Ok::<PinAcc, MemErrorView>(a3));
    let b4 = match p.seq_hint {
        Some(n) => b3.push(kv_line(k4, dec(n as nat))),
        None => b3,
    };
    match p.seq_hint {
        Some(n) => {
            let d = dec(n as nat);
            lemma_dec_parse(n);
            lemma_dec_clean(n);
            lemma_kv_line(k4, d);
            lemma_kv_other(k4, d, k1, 0);
            lemma_kv_other(k4, d, k2, 0);
            lemma_kv_other(k4, d, k3, 0);
            assert(b4.drop_last() =~= b3);
            assert(pin_fold(b4) == Ok::<PinAcc, MemErrorView>(a4));
        },
        None => {
            assert(a4 == a3);
        },
    }
    let b5 = b4.push(kv_line(k5, p.wire_b64));
    assert(b5.drop_last() =~= b4);
    assert(seq![] + p.wire_b64 =~= p.wire_b64);
    assert(pin_fold(b5) == Ok::<PinAcc, MemErrorView>(a5));
    assert(ls =~= seq![m] + b5);
    assert(ls.drop_first() =~= b5);
    assert forall|i: int| 0 <= i < ls.len() implies is_plain_line(#[trigger] ls[i]) by {
        if i > 0 {
            assert(ls[i] == b5[i - 1]);
            if p.seq_hint is Some {
                lemma_kv_line(k4, dec(p.seq_hint->0 as nat));
                lemma_dec_clean(p.seq_hint->0);
            }
        }
    }
    lemma_lines_unlines(ls);
    lemma_trim_noop(m);
}

// ---------------------------------------------------------------------------
// Channel coin manifest: ITS-COIN/1 (legacy), ITS-CHANNEL-COIN/2 and /3.
// ---------------------------------------------------------------------------

#[derive(Clone, Debug, PartialEq, Eq)]
pub struct ChannelCoinManifest {
    pub room_wire_pk: String,
    pub room_id_fp: String,
    /// SSS chain `link_0` hex (ITS backward-underdetermination anchor).
    pub chain_root: String,
    pub frame_count: u64,
    pub last_seq: u64,
    pub last_pool_epoch: u64,
    pub memory_bytes: u64,
    pub hosted_seconds: u64,
    pub registry_visible: bool,
    pub quorum_replicas: Option<u64>,
    pub host_fp: Option<String>,
    /// `max(pool_epoch) - min(pool_epoch)` over the coin's pins.
    pub pin_epoch_span: u64,
    /// `max - min` of the pins' publication times (0 under two times).
    pub message_hosted_span_seconds: u64,
    /// Sum over published pins of the seconds each has been published.
    pub memory_weight_seconds: u64,
    /// Epochs from the first pin to the room's unlock epoch (timelocked rooms).
    pub timelock_epoch_span: Option<u64>,
    /// Pins below the unlock epoch (timelocked rooms).
    pub timelock_sealed_frames: Option<u64>,
}

pub struct ChannelCoinView {
    pub room_wire_pk: Seq<char>,
    pub room_id_fp: Seq<char>,
    pub chain_root: Seq<char>,
    pub frame_count: u64,
    pub last_seq: u64,
    pub last_pool_epoch: u64,
    pub memory_bytes: u64,
    pub hosted_seconds: u64,
    pub registry_visible: bool,
    pub quorum_replicas: Option<u64>,
    pub host_fp: Option<Seq<char>>,
    pub pin_epoch_span: u64,
    pub message_hosted_span_seconds: u64,
    pub memory_weight_seconds: u64,
    pub timelock_epoch_span: Option<u64>,
    pub timelock_sealed_frames: Option<u64>,
}

pub open spec fn opt_view(o: Option<String>) -> Option<Seq<char>> {
    match o {
        Some(s) => Some(s@),
        None => None,
    }
}

impl View for ChannelCoinManifest {
    type V = ChannelCoinView;

    open spec fn view(&self) -> ChannelCoinView {
        ChannelCoinView {
            room_wire_pk: self.room_wire_pk@,
            room_id_fp: self.room_id_fp@,
            chain_root: self.chain_root@,
            frame_count: self.frame_count,
            last_seq: self.last_seq,
            last_pool_epoch: self.last_pool_epoch,
            memory_bytes: self.memory_bytes,
            hosted_seconds: self.hosted_seconds,
            registry_visible: self.registry_visible,
            quorum_replicas: self.quorum_replicas,
            host_fp: opt_view(self.host_fp),
            pin_epoch_span: self.pin_epoch_span,
            message_hosted_span_seconds: self.message_hosted_span_seconds,
            memory_weight_seconds: self.memory_weight_seconds,
            timelock_epoch_span: self.timelock_epoch_span,
            timelock_sealed_frames: self.timelock_sealed_frames,
        }
    }
}

/// A manifest that needs the v2 format: it carries hosting metrics, is
/// hidden from the registry, or names its host.
pub open spec fn chan_is_v2(c: ChannelCoinView) -> bool {
    c.memory_bytes > 0 || c.hosted_seconds > 0 || !c.registry_visible || c.host_fp is Some
}

/// A manifest that needs the v3 format: it carries pin spans, memory
/// weight or timelock fields.
pub open spec fn chan_is_v3(c: ChannelCoinView) -> bool {
    c.pin_epoch_span > 0 || c.message_hosted_span_seconds > 0 || c.memory_weight_seconds > 0
        || c.timelock_epoch_span is Some || c.timelock_sealed_frames is Some
}

/// The v2 lines are written by the v2 and the v3 format.
pub open spec fn chan_has_v2_lines(c: ChannelCoinView) -> bool {
    chan_is_v2(c) || chan_is_v3(c)
}

/// The v3 lines, after the v2 ones.
pub open spec fn chan_v3_lines(c: ChannelCoinView) -> Seq<Seq<char>> {
    let b = seq![
        kv_line("pin_epoch_span:"@, dec(c.pin_epoch_span as nat)),
        kv_line("message_hosted_span_seconds:"@, dec(c.message_hosted_span_seconds as nat)),
        kv_line("memory_weight_seconds:"@, dec(c.memory_weight_seconds as nat)),
    ];
    let b2 = match c.timelock_epoch_span {
        Some(n) => b.push(kv_line("timelock_epoch_span:"@, dec(n as nat))),
        None => b,
    };
    match c.timelock_sealed_frames {
        Some(n) => b2.push(kv_line("timelock_sealed_frames:"@, dec(n as nat))),
        None => b2,
    }
}

pub open spec fn bool_text(b: bool) -> Seq<char> {
    if b {
        "true"@
    } else {
        "false"@
    }
}

pub open spec fn chan_lines(c: ChannelCoinView) -> Seq<Seq<char>> {
    let magic = if chan_is_v3(c) {
        CHANNEL_COIN_V3_MAGIC@
    } else if chan_is_v2(c) {
        CHANNEL_COIN_V2_MAGIC@
    } else {
        CHANNEL_COIN_V1_MAGIC@
    };
    let base = seq![
        magic,
        kv_line("room_wire_pk:"@, c.room_wire_pk),
        kv_line("room_id_fp:"@, c.room_id_fp),
        kv_line("chain_root:"@, c.chain_root),
        kv_line("frame_count:"@, dec(c.frame_count as nat)),
        kv_line("last_seq:"@, dec(c.last_seq as nat)),
        kv_line("last_pool_epoch:"@, dec(c.last_pool_epoch as nat)),
    ];
    let v2 = if chan_has_v2_lines(c) {
        base.push(kv_line("memory_bytes:"@, dec(c.memory_bytes as nat))).push(
            kv_line("hosted_seconds:"@, dec(c.hosted_seconds as nat)),
        ).push(kv_line("registry_visible:"@, bool_text(c.registry_visible)))
    } else {
        base
    };
    let v3 = if chan_is_v3(c) {
        v2 + chan_v3_lines(c)
    } else {
        v2
    };
    let q = match c.quorum_replicas {
        Some(n) => v3.push(kv_line("quorum_replicas:"@, dec(n as nat))),
        None => v3,
    };
    match c.host_fp {
        Some(fp) => q.push(kv_line("host_fp:"@, fp)),
        None => q,
    }
}

pub open spec fn chan_text(c: ChannelCoinView) -> Seq<char> {
    unlines(chan_lines(c))
}

pub open spec fn chan_init() -> ChannelCoinView {
    ChannelCoinView {
        room_wire_pk: seq![],
        room_id_fp: seq![],
        chain_root: seq![],
        frame_count: 0,
        last_seq: 0,
        last_pool_epoch: 0,
        memory_bytes: 0,
        hosted_seconds: 0,
        registry_visible: true,
        quorum_replicas: None,
        host_fp: None,
        pin_epoch_span: 0,
        message_hosted_span_seconds: 0,
        memory_weight_seconds: 0,
        timelock_epoch_span: None,
        timelock_sealed_frames: None,
    }
}

/// `true`, `1` and `yes` mean visible.
pub open spec fn is_truthy(v: Seq<char>) -> bool {
    v == "true"@ || v == "1"@ || v == "yes"@
}

/// A numeric field: its value, or the error named after it.
pub open spec fn num_field(v: Seq<char>, name: Seq<char>) -> Result<u64, MemErrorView> {
    if parse_u64(v) is Some {
        Ok(parse_u64(v)->0)
    } else {
        Err(MemErrorView::Coin(name))
    }
}

/// One trimmed body line; the v3 fields are read only under the v3 magic
/// (older formats ignore their keys, as they ignore every unknown key).
pub open spec fn chan_field_step(a: ChannelCoinView, l: Seq<char>, v3: bool) -> Result<
    ChannelCoinView,
    MemErrorView,
> {
    if field_of(l, "room_wire_pk:"@) is Some {
        Ok(ChannelCoinView { room_wire_pk: field_of(l, "room_wire_pk:"@)->0, ..a })
    } else if field_of(l, "room_id_fp:"@) is Some {
        Ok(ChannelCoinView { room_id_fp: field_of(l, "room_id_fp:"@)->0, ..a })
    } else if field_of(l, "chain_root:"@) is Some {
        Ok(ChannelCoinView { chain_root: field_of(l, "chain_root:"@)->0, ..a })
    } else if field_of(l, "frame_count:"@) is Some {
        match num_field(field_of(l, "frame_count:"@)->0, "frame_count"@) {
            Ok(n) => Ok(ChannelCoinView { frame_count: n, ..a }),
            Err(e) => Err(e),
        }
    } else if field_of(l, "last_seq:"@) is Some {
        match num_field(field_of(l, "last_seq:"@)->0, "last_seq"@) {
            Ok(n) => Ok(ChannelCoinView { last_seq: n, ..a }),
            Err(e) => Err(e),
        }
    } else if field_of(l, "last_pool_epoch:"@) is Some {
        match num_field(field_of(l, "last_pool_epoch:"@)->0, "last_pool_epoch"@) {
            Ok(n) => Ok(ChannelCoinView { last_pool_epoch: n, ..a }),
            Err(e) => Err(e),
        }
    } else if field_of(l, "memory_bytes:"@) is Some {
        match num_field(field_of(l, "memory_bytes:"@)->0, "memory_bytes"@) {
            Ok(n) => Ok(ChannelCoinView { memory_bytes: n, ..a }),
            Err(e) => Err(e),
        }
    } else if field_of(l, "hosted_seconds:"@) is Some {
        match num_field(field_of(l, "hosted_seconds:"@)->0, "hosted_seconds"@) {
            Ok(n) => Ok(ChannelCoinView { hosted_seconds: n, ..a }),
            Err(e) => Err(e),
        }
    } else if field_of(l, "registry_visible:"@) is Some {
        Ok(
            ChannelCoinView {
                registry_visible: is_truthy(field_of(l, "registry_visible:"@)->0),
                ..a
            },
        )
    } else if v3 && field_of(l, "pin_epoch_span:"@) is Some {
        match num_field(field_of(l, "pin_epoch_span:"@)->0, "pin_epoch_span"@) {
            Ok(n) => Ok(ChannelCoinView { pin_epoch_span: n, ..a }),
            Err(e) => Err(e),
        }
    } else if v3 && field_of(l, "message_hosted_span_seconds:"@) is Some {
        match num_field(
            field_of(l, "message_hosted_span_seconds:"@)->0,
            "message_hosted_span_seconds"@,
        ) {
            Ok(n) => Ok(ChannelCoinView { message_hosted_span_seconds: n, ..a }),
            Err(e) => Err(e),
        }
    } else if v3 && field_of(l, "memory_weight_seconds:"@) is Some {
        match num_field(field_of(l, "memory_weight_seconds:"@)->0, "memory_weight_seconds"@) {
            Ok(n) => Ok(ChannelCoinView { memory_weight_seconds: n, ..a }),
            Err(e) => Err(e),
        }
    } else if v3 && field_of(l, "timelock_epoch_span:"@) is Some {
        match num_field(field_of(l, "timelock_epoch_span:"@)->0, "timelock_epoch_span"@) {
            Ok(n) => Ok(ChannelCoinView { timelock_epoch_span: Some(n), ..a }),
            Err(e) => Err(e),
        }
    } else if v3 && field_of(l, "timelock_sealed_frames:"@) is Some {
        match num_field(field_of(l, "timelock_sealed_frames:"@)->0, "timelock_sealed_frames"@) {
            Ok(n) => Ok(ChannelCoinView { timelock_sealed_frames: Some(n), ..a }),
            Err(e) => Err(e),
        }
    } else if field_of(l, "quorum_replicas:"@) is Some {
        match num_field(field_of(l, "quorum_replicas:"@)->0, "quorum"@) {
            Ok(n) => Ok(ChannelCoinView { quorum_replicas: Some(n), ..a }),
            Err(e) => Err(e),
        }
    } else if field_of(l, "host_fp:"@) is Some {
        Ok(ChannelCoinView { host_fp: field_of(l, "host_fp:"@), ..a })
    } else {
        Ok(a)
    }
}

pub open spec fn chan_step(acc: Result<ChannelCoinView, MemErrorView>, line: Seq<char>, v3: bool) -> Result<
    ChannelCoinView,
    MemErrorView,
> {
    match acc {
        Err(e) => Err(e),
        Ok(a) => chan_field_step(a, trim(line), v3),
    }
}

pub open spec fn chan_fold(ls: Seq<Seq<char>>, v3: bool) -> Result<ChannelCoinView, MemErrorView>
    decreases ls.len(),
{
    if ls.len() == 0 {
        Ok(chan_init())
    } else {
        chan_step(chan_fold(ls.drop_last(), v3), ls.last(), v3)
    }
}

/// What `ChannelCoinManifest::parse_text` gives for a text.
pub open spec fn chan_parse(text: Seq<char>) -> Result<ChannelCoinView, MemErrorView> {
    let ls = lines(text);
    let v3 = ls.len() > 0 && trim(ls[0]) == CHANNEL_COIN_V3_MAGIC@;
    if ls.len() == 0 || (trim(ls[0]) != CHANNEL_COIN_V1_MAGIC@ && trim(ls[0])
        != CHANNEL_COIN_V2_MAGIC@ && trim(ls[0]) != CHANNEL_COIN_V3_MAGIC@) {
        Err(MemErrorView::Coin("missing ITS-COIN/1, ITS-CHANNEL-COIN/2 or ITS-CHANNEL-COIN/3"@))
    } else if chan_fold(ls.drop_first(), v3) is Err {
        chan_fold(ls.drop_first(), v3)
    } else if chan_fold(ls.drop_first(), v3)->Ok_0.room_wire_pk.len() == 0 || chan_fold(
        ls.drop_first(),
        v3,
    )->Ok_0.chain_root.len() == 0 {
        Err(MemErrorView::Coin("incomplete manifest"@))
    } else {
        chan_fold(ls.drop_first(), v3)
    }
}

/// The reader's fields gathered in one record.
pub struct ChanFields {
    pub room_wire_pk: Vec<char>,
    pub room_id_fp: Vec<char>,
    pub chain_root: Vec<char>,
    pub frame_count: u64,
    pub last_seq: u64,
    pub last_pool_epoch: u64,
    pub memory_bytes: u64,
    pub hosted_seconds: u64,
    pub registry_visible: bool,
    pub quorum_replicas: Option<u64>,
    pub host_fp: Option<Vec<char>>,
    pub pin_epoch_span: u64,
    pub message_hosted_span_seconds: u64,
    pub memory_weight_seconds: u64,
    pub timelock_epoch_span: Option<u64>,
    pub timelock_sealed_frames: Option<u64>,
}

pub open spec fn chan_fields_view(f: ChanFields) -> ChannelCoinView {
    ChannelCoinView {
        room_wire_pk: f.room_wire_pk@,
        room_id_fp: f.room_id_fp@,
        chain_root: f.chain_root@,
        frame_count: f.frame_count,
        last_seq: f.last_seq,
        last_pool_epoch: f.last_pool_epoch,
        memory_bytes: f.memory_bytes,
        hosted_seconds: f.hosted_seconds,
        registry_visible: f.registry_visible,
        quorum_replicas: f.quorum_replicas,
        host_fp: match f.host_fp {
            Some(v) => Some(v@),
            None => None,
        },
        pin_epoch_span: f.pin_epoch_span,
        message_hosted_span_seconds: f.message_hosted_span_seconds,
        memory_weight_seconds: f.memory_weight_seconds,
        timelock_epoch_span: f.timelock_epoch_span,
        timelock_sealed_frames: f.timelock_sealed_frames,
    }
}

/// Reads a numeric field, or gives the error named after it.
fn num_field_exec(v: &Vec<char>, name: &str) -> (r: Result<u64, MemError>)
    ensures
        result_num(r) == num_field(v@, name@),
{
    match parse_u64_chars(v) {
        Some(n) => Ok(n),
        None => Err(coin_err(name)),
    }
}

pub open spec fn result_num(r: Result<u64, MemError>) -> Result<u64, MemErrorView> {
    match r {
        Ok(n) => Ok(n),
        Err(e) => Err(e@),
    }
}

/// One trimmed line of a channel coin body.
fn chan_line(f: &mut ChanFields, l: &Vec<char>, v3: bool) -> (r: Option<MemError>)
    ensures
        match chan_field_step(chan_fields_view(*old(f)), l@, v3) {
            Ok(a) => r is None && chan_fields_view(*final(f)) == a,
            Err(e) => r matches Some(x) && x@ == e,
        },
{
    if let Some(v) = field_value(l, "room_wire_pk:") {
        f.room_wire_pk = v;
    } else if let Some(v) = field_value(l, "room_id_fp:") {
        f.room_id_fp = v;
    } else if let Some(v) = field_value(l, "chain_root:") {
        f.chain_root = v;
    } else if let Some(v) = field_value(l, "frame_count:") {
        match num_field_exec(&v, "frame_count") {
            Ok(n) => {
                f.frame_count = n;
            },
            Err(e) => {
                return Some(e);
            },
        }
    } else if let Some(v) = field_value(l, "last_seq:") {
        match num_field_exec(&v, "last_seq") {
            Ok(n) => {
                f.last_seq = n;
            },
            Err(e) => {
                return Some(e);
            },
        }
    } else if let Some(v) = field_value(l, "last_pool_epoch:") {
        match num_field_exec(&v, "last_pool_epoch") {
            Ok(n) => {
                f.last_pool_epoch = n;
            },
            Err(e) => {
                return Some(e);
            },
        }
    } else if let Some(v) = field_value(l, "memory_bytes:") {
        match num_field_exec(&v, "memory_bytes") {
            Ok(n) => {
                f.memory_bytes = n;
            },
            Err(e) => {
                return Some(e);
            },
        }
    } else if let Some(v) = field_value(l, "hosted_seconds:") {
        match num_field_exec(&v, "hosted_seconds") {
            Ok(n) => {
                f.hosted_seconds = n;
            },
            Err(e) => {
                return Some(e);
            },
        }
    } else if let Some(v) = field_value(l, "registry_visible:") {
        f.registry_visible = chars_eq_str(&v, "true") || chars_eq_str(&v, "1") || chars_eq_str(
            &v,
            "yes",
        );
    } else if v3 && field_value(l, "pin_epoch_span:").is_some() {
        let v = field_value(l, "pin_epoch_span:").unwrap();
        match num_field_exec(&v, "pin_epoch_span") {
            Ok(n) => {
                f.pin_epoch_span = n;
            },
            Err(e) => {
                return Some(e);
            },
        }
    } else if v3 && field_value(l, "message_hosted_span_seconds:").is_some() {
        let v = field_value(l, "message_hosted_span_seconds:").unwrap();
        match num_field_exec(&v, "message_hosted_span_seconds") {
            Ok(n) => {
                f.message_hosted_span_seconds = n;
            },
            Err(e) => {
                return Some(e);
            },
        }
    } else if v3 && field_value(l, "memory_weight_seconds:").is_some() {
        let v = field_value(l, "memory_weight_seconds:").unwrap();
        match num_field_exec(&v, "memory_weight_seconds") {
            Ok(n) => {
                f.memory_weight_seconds = n;
            },
            Err(e) => {
                return Some(e);
            },
        }
    } else if v3 && field_value(l, "timelock_epoch_span:").is_some() {
        let v = field_value(l, "timelock_epoch_span:").unwrap();
        match num_field_exec(&v, "timelock_epoch_span") {
            Ok(n) => {
                f.timelock_epoch_span = Some(n);
            },
            Err(e) => {
                return Some(e);
            },
        }
    } else if v3 && field_value(l, "timelock_sealed_frames:").is_some() {
        let v = field_value(l, "timelock_sealed_frames:").unwrap();
        match num_field_exec(&v, "timelock_sealed_frames") {
            Ok(n) => {
                f.timelock_sealed_frames = Some(n);
            },
            Err(e) => {
                return Some(e);
            },
        }
    } else if let Some(v) = field_value(l, "quorum_replicas:") {
        match num_field_exec(&v, "quorum") {
            Ok(n) => {
                f.quorum_replicas = Some(n);
            },
            Err(e) => {
                return Some(e);
            },
        }
    } else if let Some(v) = field_value(l, "host_fp:") {
        f.host_fp = Some(v);
    }
    None
}

pub open spec fn chan_state(f: ChanFields, err: Option<MemError>) -> Result<
    ChannelCoinView,
    MemErrorView,
> {
    match err {
        Some(e) => Err(e@),
        None => Ok(chan_fields_view(f)),
    }
}

fn opt_string(o: &Option<Vec<char>>) -> (r: Option<String>)
    ensures
        opt_view(r) == match o {
            Some(v) => Some(v@),
            None => None::<Seq<char>>,
        },
{
    match o {
        Some(v) => Some(string_of(v)),
        None => None,
    }
}

impl ChannelCoinManifest {
    /// The v2 format is needed (see `chan_is_v2`).
    fn is_v2(&self) -> (b: bool)
        ensures
            b == chan_is_v2(self@),
    {
        self.memory_bytes > 0 || self.hosted_seconds > 0 || !self.registry_visible
            || self.host_fp.is_some()
    }

    /// The v3 format is needed (see `chan_is_v3`).
    fn is_v3(&self) -> (b: bool)
        ensures
            b == chan_is_v3(self@),
    {
        self.pin_epoch_span > 0 || self.message_hosted_span_seconds > 0
            || self.memory_weight_seconds > 0 || self.timelock_epoch_span.is_some()
            || self.timelock_sealed_frames.is_some()
    }

    pub fn serialize_text(&self) -> (s: String)
        ensures
            s@ == chan_text(self@),
    {
        let c = self;
        let v3 = self.is_v3();
        let v2 = self.is_v2() || v3;
        let ghost cv = self@;
        let ghost l0 = seq![
            if v3 {
                CHANNEL_COIN_V3_MAGIC@
            } else if v2 {
                CHANNEL_COIN_V2_MAGIC@
            } else {
                CHANNEL_COIN_V1_MAGIC@
            },
        ];
        let ghost l1 = l0.push(kv_line("room_wire_pk:"@, cv.room_wire_pk));
        let ghost l2 = l1.push(kv_line("room_id_fp:"@, cv.room_id_fp));
        let ghost l3 = l2.push(kv_line("chain_root:"@, cv.chain_root));
        let ghost l4 = l3.push(kv_line("frame_count:"@, dec(cv.frame_count as nat)));
        let ghost l5 = l4.push(kv_line("last_seq:"@, dec(cv.last_seq as nat)));
        let ghost l6 = l5.push(kv_line("last_pool_epoch:"@, dec(cv.last_pool_epoch as nat)));
        let mut out: Vec<char> = Vec::new();
        if v3 {
            push_line(&mut out, CHANNEL_COIN_V3_MAGIC);
        } else if v2 {
            push_line(&mut out, CHANNEL_COIN_V2_MAGIC);
        } else {
            push_line(&mut out, CHANNEL_COIN_V1_MAGIC);
        }
        proof {
            lemma_unlines_push(seq![], l0[0]);
            assert(seq![].push(l0[0]) =~= l0);
            assert(out@ =~= unlines(l0));
        }
        push_kv_str(&mut out, "room_wire_pk:", c.room_wire_pk.as_str());
        proof { lemma_unlines_push(l0, l1.last()); }
        push_kv_str(&mut out, "room_id_fp:", c.room_id_fp.as_str());
        proof { lemma_unlines_push(l1, l2.last()); }
        push_kv_str(&mut out, "chain_root:", c.chain_root.as_str());
        proof { lemma_unlines_push(l2, l3.last()); }
        push_kv_dec(&mut out, "frame_count:", c.frame_count);
        proof { lemma_unlines_push(l3, l4.last()); }
        push_kv_dec(&mut out, "last_seq:", c.last_seq);
        proof { lemma_unlines_push(l4, l5.last()); }
        push_kv_dec(&mut out, "last_pool_epoch:", c.last_pool_epoch);
        proof {
            lemma_unlines_push(l5, l6.last());
            assert(l6 =~= seq![
                l0[0],
                kv_line("room_wire_pk:"@, cv.room_wire_pk),
                kv_line("room_id_fp:"@, cv.room_id_fp),
                kv_line("chain_root:"@, cv.chain_root),
                kv_line("frame_count:"@, dec(cv.frame_count as nat)),
                kv_line("last_seq:"@, dec(cv.last_seq as nat)),
                kv_line("last_pool_epoch:"@, dec(cv.last_pool_epoch as nat)),
            ]);
        }
        let ghost mut ls = l6;
        if v2 {
            push_kv_dec(&mut out, "memory_bytes:", c.memory_bytes);
            proof {
                lemma_unlines_push(ls, kv_line("memory_bytes:"@, dec(cv.memory_bytes as nat)));
                ls = ls.push(kv_line("memory_bytes:"@, dec(cv.memory_bytes as nat)));
            }
            push_kv_dec(&mut out, "hosted_seconds:", c.hosted_seconds);
            proof {
                lemma_unlines_push(ls, kv_line("hosted_seconds:"@, dec(cv.hosted_seconds as nat)));
                ls = ls.push(kv_line("hosted_seconds:"@, dec(cv.hosted_seconds as nat)));
            }
            if c.registry_visible {
                push_kv_str(&mut out, "registry_visible:", "true");
            } else {
                push_kv_str(&mut out, "registry_visible:", "false");
            }
            proof {
                lemma_unlines_push(ls, kv_line("registry_visible:"@, bool_text(cv.registry_visible)));
                ls = ls.push(kv_line("registry_visible:"@, bool_text(cv.registry_visible)));
            }
        }
        let ghost v2ls = ls;
        if v3 {
            push_kv_dec(&mut out, "pin_epoch_span:", c.pin_epoch_span);
            proof {
                lemma_unlines_push(ls, kv_line("pin_epoch_span:"@, dec(cv.pin_epoch_span as nat)));
                ls = ls.push(kv_line("pin_epoch_span:"@, dec(cv.pin_epoch_span as nat)));
            }
            push_kv_dec(&mut out, "message_hosted_span_seconds:", c.message_hosted_span_seconds);
            proof {
                lemma_unlines_push(
                    ls,
                    kv_line("message_hosted_span_seconds:"@, dec(cv.message_hosted_span_seconds as nat)),
                );
                ls = ls.push(
                    kv_line("message_hosted_span_seconds:"@, dec(cv.message_hosted_span_seconds as nat)),
                );
            }
            push_kv_dec(&mut out, "memory_weight_seconds:", c.memory_weight_seconds);
            proof {
                lemma_unlines_push(
                    ls,
                    kv_line("memory_weight_seconds:"@, dec(cv.memory_weight_seconds as nat)),
                );
                ls = ls.push(kv_line("memory_weight_seconds:"@, dec(cv.memory_weight_seconds as nat)));
            }
            if let Some(t) = c.timelock_epoch_span {
                push_kv_dec(&mut out, "timelock_epoch_span:", t);
                proof {
                    lemma_unlines_push(ls, kv_line("timelock_epoch_span:"@, dec(t as nat)));
                    ls = ls.push(kv_line("timelock_epoch_span:"@, dec(t as nat)));
                }
            }
            if let Some(t) = c.timelock_sealed_frames {
                push_kv_dec(&mut out, "timelock_sealed_frames:", t);
                proof {
                    lemma_unlines_push(ls, kv_line("timelock_sealed_frames:"@, dec(t as nat)));
                    ls = ls.push(kv_line("timelock_sealed_frames:"@, dec(t as nat)));
                }
            }
            proof {
                assert(ls =~= v2ls + chan_v3_lines(cv));
            }
        }
        if let Some(q) = c.quorum_replicas {
            push_kv_dec(&mut out, "quorum_replicas:", q);
            proof {
                lemma_unlines_push(ls, kv_line("quorum_replicas:"@, dec(q as nat)));
                ls = ls.push(kv_line("quorum_replicas:"@, dec(q as nat)));
            }
        }
        if let Some(fp) = &c.host_fp {
            push_kv_str(&mut out, "host_fp:", fp.as_str());
            proof {
                lemma_unlines_push(ls, kv_line("host_fp:"@, fp@));
                ls = ls.push(kv_line("host_fp:"@, fp@));
            }
        }
        proof {
            assert(ls =~= chan_lines(cv));
        }
        string_of(&out)
    }

    pub fn parse_text(text: &str) -> (r: Result<Self, MemError>)
        ensures
            result_view(r) == chan_parse(text@),
    {
        let ls = text_lines(text);
        if !first_line_is(&ls, CHANNEL_COIN_V1_MAGIC) && !first_line_is(&ls, CHANNEL_COIN_V2_MAGIC)
            && !first_line_is(&ls, CHANNEL_COIN_V3_MAGIC) {
            return Err(coin_err("missing ITS-COIN/1, ITS-CHANNEL-COIN/2 or ITS-CHANNEL-COIN/3"));
        }
        let is3 = first_line_is(&ls, CHANNEL_COIN_V3_MAGIC);
        let ghost L = views(ls@);
        let mut f = ChanFields {
            room_wire_pk: Vec::new(),
            room_id_fp: Vec::new(),
            chain_root: Vec::new(),
            frame_count: 0,
            last_seq: 0,
            last_pool_epoch: 0,
            memory_bytes: 0,
            hosted_seconds: 0,
            registry_visible: true,
            quorum_replicas: None,
            host_fp: None,
            pin_epoch_span: 0,
            message_hosted_span_seconds: 0,
            memory_weight_seconds: 0,
            timelock_epoch_span: None,
            timelock_sealed_frames: None,
        };
        let mut err: Option<MemError> = None;
        let mut i: usize = 1;
        proof {
            assert(body_lines(L, 1) =~= Seq::<Seq<char>>::empty());
            assert(chan_fields_view(f) =~= chan_init());
        }
        while i < ls.len()
            invariant
                1 <= i <= ls@.len(),
                L == views(ls@),
                is3 == (L.len() > 0 && trim(L[0]) == CHANNEL_COIN_V3_MAGIC@),
                chan_fold(body_lines(L, i as int), is3) == chan_state(f, err),
            decreases ls.len() - i,
        {
            proof {
                lemma_body_step(L, i as int);
            }
            if err.is_none() {
                let l = trim_chars(&ls[i]);
                err = chan_line(&mut f, &l, is3);
            }
            i = i + 1;
        }
        proof {
            lemma_body_all(L);
        }
        if let Some(e) = err {
            return Err(e);
        }
        if f.room_wire_pk.len() == 0 || f.chain_root.len() == 0 {
            return Err(coin_err("incomplete manifest"));
        }
        Ok(
            ChannelCoinManifest {
                room_wire_pk: string_of(&f.room_wire_pk),
                room_id_fp: string_of(&f.room_id_fp),
                chain_root: string_of(&f.chain_root),
                frame_count: f.frame_count,
                last_seq: f.last_seq,
                last_pool_epoch: f.last_pool_epoch,
                memory_bytes: f.memory_bytes,
                hosted_seconds: f.hosted_seconds,
                registry_visible: f.registry_visible,
                quorum_replicas: f.quorum_replicas,
                host_fp: opt_string(&f.host_fp),
                pin_epoch_span: f.pin_epoch_span,
                message_hosted_span_seconds: f.message_hosted_span_seconds,
                memory_weight_seconds: f.memory_weight_seconds,
                timelock_epoch_span: f.timelock_epoch_span,
                timelock_sealed_frames: f.timelock_sealed_frames,
            },
        )
    }
}

proof fn lemma_chan_fold_push(b: Seq<Seq<char>>, l: Seq<char>, v3: bool)
    ensures
        chan_fold(b.push(l), v3) == chan_step(chan_fold(b, v3), l, v3),
{
    assert(b.push(l).drop_last() =~= b);
}

/// The line `key v` is read by `chan_field_step` as that key, whatever key
/// is checked before it.
proof fn lemma_chan_keys()
    ensures
        is_key("room_wire_pk:"@),
        is_key("room_id_fp:"@),
        is_key("chain_root:"@),
        is_key("frame_count:"@),
        is_key("last_seq:"@),
        is_key("last_pool_epoch:"@),
        is_key("memory_bytes:"@),
        is_key("hosted_seconds:"@),
        is_key("registry_visible:"@),
        is_key("quorum_replicas:"@),
        is_key("host_fp:"@),
        is_key("pin_epoch_span:"@),
        is_key("message_hosted_span_seconds:"@),
        is_key("memory_weight_seconds:"@),
        is_key("timelock_epoch_span:"@),
        is_key("timelock_sealed_frames:"@),
{
    reveal_strlit("room_wire_pk:");
    reveal_strlit("room_id_fp:");
    reveal_strlit("chain_root:");
    reveal_strlit("frame_count:");
    reveal_strlit("last_seq:");
    reveal_strlit("last_pool_epoch:");
    reveal_strlit("memory_bytes:");
    reveal_strlit("hosted_seconds:");
    reveal_strlit("registry_visible:");
    reveal_strlit("quorum_replicas:");
    reveal_strlit("host_fp:");
    assert(!"room_wire_pk:"@.contains('\n'));
    assert(!"room_id_fp:"@.contains('\n'));
    assert(!"chain_root:"@.contains('\n'));
    assert(!"frame_count:"@.contains('\n'));
    assert(!"last_seq:"@.contains('\n'));
    assert(!"last_pool_epoch:"@.contains('\n'));
    assert(!"memory_bytes:"@.contains('\n'));
    assert(!"hosted_seconds:"@.contains('\n'));
    assert(!"registry_visible:"@.contains('\n'));
    assert(!"quorum_replicas:"@.contains('\n'));
    assert(!"host_fp:"@.contains('\n'));
    reveal_strlit("pin_epoch_span:");
    assert(!"pin_epoch_span:"@.contains('\n'));
    reveal_strlit("message_hosted_span_seconds:");
    assert(!"message_hosted_span_seconds:"@.contains('\n'));
    reveal_strlit("memory_weight_seconds:");
    assert(!"memory_weight_seconds:"@.contains('\n'));
    reveal_strlit("timelock_epoch_span:");
    assert(!"timelock_epoch_span:"@.contains('\n'));
    reveal_strlit("timelock_sealed_frames:");
    assert(!"timelock_sealed_frames:"@.contains('\n'));
}

pub open spec fn chan_head_body(c: ChannelCoinView) -> Seq<Seq<char>> {
    seq![
        kv_line("room_wire_pk:"@, c.room_wire_pk),
        kv_line("room_id_fp:"@, c.room_id_fp),
        kv_line("chain_root:"@, c.chain_root),
        kv_line("frame_count:"@, dec(c.frame_count as nat)),
        kv_line("last_seq:"@, dec(c.last_seq as nat)),
        kv_line("last_pool_epoch:"@, dec(c.last_pool_epoch as nat)),
    ]
}

pub open spec fn chan_head_acc(c: ChannelCoinView) -> ChannelCoinView {
    ChannelCoinView {
        room_wire_pk: c.room_wire_pk,
        room_id_fp: c.room_id_fp,
        chain_root: c.chain_root,
        frame_count: c.frame_count,
        last_seq: c.last_seq,
        last_pool_epoch: c.last_pool_epoch,
        ..chan_init()
    }
}

pub open spec fn chan_v2_body(c: ChannelCoinView) -> Seq<Seq<char>> {
    if chan_has_v2_lines(c) {
        chan_head_body(c).push(kv_line("memory_bytes:"@, dec(c.memory_bytes as nat))).push(
            kv_line("hosted_seconds:"@, dec(c.hosted_seconds as nat)),
        ).push(kv_line("registry_visible:"@, bool_text(c.registry_visible)))
    } else {
        chan_head_body(c)
    }
}

pub open spec fn chan_v2_acc(c: ChannelCoinView) -> ChannelCoinView {
    if chan_has_v2_lines(c) {
        ChannelCoinView {
            memory_bytes: c.memory_bytes,
            hosted_seconds: c.hosted_seconds,
            registry_visible: c.registry_visible,
            ..chan_head_acc(c)
        }
    } else {
        chan_head_acc(c)
    }
}

pub open spec fn chan_v3_body(c: ChannelCoinView) -> Seq<Seq<char>> {
    if chan_is_v3(c) {
        chan_v2_body(c) + chan_v3_lines(c)
    } else {
        chan_v2_body(c)
    }
}

pub open spec fn chan_v3_acc(c: ChannelCoinView) -> ChannelCoinView {
    if chan_is_v3(c) {
        ChannelCoinView {
            pin_epoch_span: c.pin_epoch_span,
            message_hosted_span_seconds: c.message_hosted_span_seconds,
            memory_weight_seconds: c.memory_weight_seconds,
            timelock_epoch_span: c.timelock_epoch_span,
            timelock_sealed_frames: c.timelock_sealed_frames,
            ..chan_v2_acc(c)
        }
    } else {
        chan_v2_acc(c)
    }
}

pub open spec fn chan_q_body(c: ChannelCoinView) -> Seq<Seq<char>> {
    match c.quorum_replicas {
        Some(q) => chan_v3_body(c).push(kv_line("quorum_replicas:"@, dec(q as nat))),
        None => chan_v3_body(c),
    }
}

pub open spec fn chan_full_body(c: ChannelCoinView) -> Seq<Seq<char>> {
    match c.host_fp {
        Some(fp) => chan_q_body(c).push(kv_line("host_fp:"@, fp)),
        None => chan_q_body(c),
    }
}

proof fn lemma_chan_head(c: ChannelCoinView)
    requires
        is_clean(c.room_wire_pk),
        is_clean(c.room_id_fp),
        is_clean(c.chain_root),
    ensures
        chan_fold(chan_head_body(c), chan_is_v3(c)) == Ok::<ChannelCoinView, MemErrorView>(chan_head_acc(c)),
{
    lemma_chan_keys();
    reveal_strlit("room_wire_pk:");
    reveal_strlit("room_id_fp:");
    reveal_strlit("chain_root:");
    reveal_strlit("frame_count:");
    reveal_strlit("last_seq:");
    reveal_strlit("last_pool_epoch:");
    let k1 = "room_wire_pk:"@;
    let k2 = "room_id_fp:"@;
    let k3 = "chain_root:"@;
    let k4 = "frame_count:"@;
    let k5 = "last_seq:"@;
    let k6 = "last_pool_epoch:"@;
    let d4 = dec(c.frame_count as nat);
    let d5 = dec(c.last_seq as nat);
    let d6 = dec(c.last_pool_epoch as nat);
    lemma_dec_parse(c.frame_count);
    lemma_dec_parse(c.last_seq);
    lemma_dec_parse(c.last_pool_epoch);
    lemma_dec_clean(c.frame_count);
    lemma_dec_clean(c.last_seq);
    lemma_dec_clean(c.last_pool_epoch);
    lemma_kv_line(k1, c.room_wire_pk);
    lemma_kv_line(k2, c.room_id_fp);
    lemma_kv_other(k2, c.room_id_fp, k1, 5);
    lemma_kv_line(k3, c.chain_root);
    lemma_kv_other(k3, c.chain_root, k1, 0);
    lemma_kv_other(k3, c.chain_root, k2, 0);
    lemma_kv_line(k4, d4);
    lemma_kv_other(k4, d4, k1, 0);
    lemma_kv_other(k4, d4, k2, 0);
    lemma_kv_other(k4, d4, k3, 0);
    lemma_kv_line(k5, d5);
    lemma_kv_other(k5, d5, k1, 0);
    lemma_kv_other(k5, d5, k2, 0);
    lemma_kv_other(k5, d5, k3, 0);
    lemma_kv_other(k5, d5, k4, 0);
    lemma_kv_line(k6, d6);
    lemma_kv_other(k6, d6, k1, 0);
    lemma_kv_other(k6, d6, k2, 0);
    lemma_kv_other(k6, d6, k3, 0);
    lemma_kv_other(k6, d6, k4, 0);
    lemma_kv_other(k6, d6, k5, 5);
    let a0 = chan_init();
    let a1 = ChannelCoinView { room_wire_pk: c.room_wire_pk, ..a0 };
    let a2 = ChannelCoinView { room_id_fp: c.room_id_fp, ..a1 };
    let a3 = ChannelCoinView { chain_root: c.chain_root, ..a2 };
    let a4 = ChannelCoinView { frame_count: c.frame_count, ..a3 };
    let a5 = ChannelCoinView { last_seq: c.last_seq, ..a4 };
    let b0 = Seq::<Seq<char>>::empty();
    let b1 = b0.push(kv_line(k1, c.room_wire_pk));
    let b2 = b1.push(kv_line(k2, c.room_id_fp));
    let b3 = b2.push(kv_line(k3, c.chain_root));
    let b4 = b3.push(kv_line(k4, d4));
    let b5 = b4.push(kv_line(k5, d5));
    let b6 = b5.push(kv_line(k6, d6));
    assert(chan_fold(b0, chan_is_v3(c)) == Ok::<ChannelCoinView, MemErrorView>(a0));
    lemma_chan_fold_push(b0, kv_line(k1, c.room_wire_pk), chan_is_v3(c));
    lemma_chan_fold_push(b1, kv_line(k2, c.room_id_fp), chan_is_v3(c));
    lemma_chan_fold_push(b2, kv_line(k3, c.chain_root), chan_is_v3(c));
    lemma_chan_fold_push(b3, kv_line(k4, d4), chan_is_v3(c));
    lemma_chan_fold_push(b4, kv_line(k5, d5), chan_is_v3(c));
    lemma_chan_fold_push(b5, kv_line(k6, d6), chan_is_v3(c));
    assert(chan_fold(b1, chan_is_v3(c)) == Ok::<ChannelCoinView, MemErrorView>(a1));
    assert(chan_fold(b2, chan_is_v3(c)) == Ok::<ChannelCoinView, MemErrorView>(a2));
    assert(chan_fold(b3, chan_is_v3(c)) == Ok::<ChannelCoinView, MemErrorView>(a3));
    assert(chan_fold(b4, chan_is_v3(c)) == Ok::<ChannelCoinView, MemErrorView>(a4));
    assert(chan_fold(b5, chan_is_v3(c)) == Ok::<ChannelCoinView, MemErrorView>(a5));
    assert(b6 =~= chan_head_body(c));
}

proof fn lemma_chan_v2_block(c: ChannelCoinView)
    requires
        chan_fold(chan_head_body(c), chan_is_v3(c)) == Ok::<ChannelCoinView, MemErrorView>(chan_head_acc(c)),
    ensures
        chan_fold(chan_v2_body(c), chan_is_v3(c)) == Ok::<ChannelCoinView, MemErrorView>(chan_v2_acc(c)),
{
    if chan_has_v2_lines(c) {
        lemma_chan_keys();
        reveal_strlit("room_wire_pk:");
        reveal_strlit("room_id_fp:");
        reveal_strlit("chain_root:");
        reveal_strlit("frame_count:");
        reveal_strlit("last_seq:");
        reveal_strlit("last_pool_epoch:");
        reveal_strlit("memory_bytes:");
        reveal_strlit("hosted_seconds:");
        reveal_strlit("registry_visible:");
        reveal_strlit("true");
        reveal_strlit("false");
        reveal_strlit("1");
        reveal_strlit("yes");
        let k1 = "room_wire_pk:"@;
        let k2 = "room_id_fp:"@;
        let k3 = "chain_root:"@;
        let k4 = "frame_count:"@;
        let k5 = "last_seq:"@;
        let k6 = "last_pool_epoch:"@;
        let k7 = "memory_bytes:"@;
        let k8 = "hosted_seconds:"@;
        let k9 = "registry_visible:"@;
        let d7 = dec(c.memory_bytes as nat);
        let d8 = dec(c.hosted_seconds as nat);
        let t9 = bool_text(c.registry_visible);
        lemma_dec_parse(c.memory_bytes);
        lemma_dec_parse(c.hosted_seconds);
        lemma_dec_clean(c.memory_bytes);
        lemma_dec_clean(c.hosted_seconds);
        assert(is_clean(t9)) by {
            lemma_trim_noop(t9);
            assert(!t9.contains('\n'));
        }
        assert(is_truthy(t9) == c.registry_visible);
        lemma_kv_line(k7, d7);
        lemma_kv_other(k7, d7, k1, 0);
        lemma_kv_other(k7, d7, k2, 0);
        lemma_kv_other(k7, d7, k3, 0);
        lemma_kv_other(k7, d7, k4, 0);
        lemma_kv_other(k7, d7, k5, 0);
        lemma_kv_other(k7, d7, k6, 0);
        lemma_kv_line(k8, d8);
        lemma_kv_other(k8, d8, k1, 0);
        lemma_kv_other(k8, d8, k2, 0);
        lemma_kv_other(k8, d8, k3, 0);
        lemma_kv_other(k8, d8, k4, 0);
        lemma_kv_other(k8, d8, k5, 0);
        lemma_kv_other(k8, d8, k6, 0);
        lemma_kv_other(k8, d8, k7, 0);
        lemma_kv_line(k9, t9);
        lemma_kv_other(k9, t9, k1, 1);
        lemma_kv_other(k9, t9, k2, 1);
        lemma_kv_other(k9, t9, k3, 0);
        lemma_kv_other(k9, t9, k4, 0);
        lemma_kv_other(k9, t9, k5, 0);
        lemma_kv_other(k9, t9, k6, 0);
        lemma_kv_other(k9, t9, k7, 0);
        lemma_kv_other(k9, t9, k8, 0);
        let b6 = chan_head_body(c);
        let b7 = b6.push(kv_line(k7, d7));
        let b8 = b7.push(kv_line(k8, d8));
        lemma_chan_fold_push(b6, kv_line(k7, d7), chan_is_v3(c));
        lemma_chan_fold_push(b7, kv_line(k8, d8), chan_is_v3(c));
        lemma_chan_fold_push(b8, kv_line(k9, t9), chan_is_v3(c));
        let a7 = ChannelCoinView { memory_bytes: c.memory_bytes, ..chan_head_acc(c) };
        let a8 = ChannelCoinView { hosted_seconds: c.hosted_seconds, ..a7 };
        assert(chan_fold(b7, chan_is_v3(c)) == Ok::<ChannelCoinView, MemErrorView>(a7));
        assert(chan_fold(b8, chan_is_v3(c)) == Ok::<ChannelCoinView, MemErrorView>(a8));
    }
}

proof fn lemma_chan_v3_block(c: ChannelCoinView)
    requires
        chan_fold(chan_v2_body(c), chan_is_v3(c)) == Ok::<ChannelCoinView, MemErrorView>(chan_v2_acc(c)),
    ensures
        chan_fold(chan_v3_body(c), chan_is_v3(c)) == Ok::<ChannelCoinView, MemErrorView>(chan_v3_acc(c)),
{
    if chan_is_v3(c) {
        lemma_chan_keys();
        reveal_strlit("room_wire_pk:");
        reveal_strlit("room_id_fp:");
        reveal_strlit("chain_root:");
        reveal_strlit("frame_count:");
        reveal_strlit("last_seq:");
        reveal_strlit("last_pool_epoch:");
        reveal_strlit("memory_bytes:");
        reveal_strlit("hosted_seconds:");
        reveal_strlit("registry_visible:");
        reveal_strlit("pin_epoch_span:");
        reveal_strlit("message_hosted_span_seconds:");
        reveal_strlit("memory_weight_seconds:");
        reveal_strlit("timelock_epoch_span:");
        reveal_strlit("timelock_sealed_frames:");
        let k1 = "room_wire_pk:"@;
        let k2 = "room_id_fp:"@;
        let k3 = "chain_root:"@;
        let k4 = "frame_count:"@;
        let k5 = "last_seq:"@;
        let k6 = "last_pool_epoch:"@;
        let k7 = "memory_bytes:"@;
        let k8 = "hosted_seconds:"@;
        let k9 = "registry_visible:"@;
        let ka = "pin_epoch_span:"@;
        let kb = "message_hosted_span_seconds:"@;
        let kc = "memory_weight_seconds:"@;
        let kd = "timelock_epoch_span:"@;
        let ke = "timelock_sealed_frames:"@;
        let da = dec(c.pin_epoch_span as nat);
        let db = dec(c.message_hosted_span_seconds as nat);
        let dc = dec(c.memory_weight_seconds as nat);
        lemma_dec_parse(c.pin_epoch_span);
        lemma_dec_parse(c.message_hosted_span_seconds);
        lemma_dec_parse(c.memory_weight_seconds);
        lemma_dec_clean(c.pin_epoch_span);
        lemma_dec_clean(c.message_hosted_span_seconds);
        lemma_dec_clean(c.memory_weight_seconds);
        lemma_kv_line(ka, da);
        lemma_kv_other(ka, da, k1, 0);
        lemma_kv_other(ka, da, k2, 0);
        lemma_kv_other(ka, da, k3, 0);
        lemma_kv_other(ka, da, k4, 0);
        lemma_kv_other(ka, da, k5, 0);
        lemma_kv_other(ka, da, k6, 0);
        lemma_kv_other(ka, da, k7, 0);
        lemma_kv_other(ka, da, k8, 0);
        lemma_kv_other(ka, da, k9, 0);
        lemma_kv_line(kb, db);
        lemma_kv_other(kb, db, k1, 0);
        lemma_kv_other(kb, db, k2, 0);
        lemma_kv_other(kb, db, k3, 0);
        lemma_kv_other(kb, db, k4, 0);
        lemma_kv_other(kb, db, k5, 0);
        lemma_kv_other(kb, db, k6, 0);
        lemma_kv_other(kb, db, k7, 2);
        lemma_kv_other(kb, db, k8, 0);
        lemma_kv_other(kb, db, k9, 0);
        lemma_kv_other(kb, db, ka, 0);
        lemma_kv_line(kc, dc);
        lemma_kv_other(kc, dc, k1, 0);
        lemma_kv_other(kc, dc, k2, 0);
        lemma_kv_other(kc, dc, k3, 0);
        lemma_kv_other(kc, dc, k4, 0);
        lemma_kv_other(kc, dc, k5, 0);
        lemma_kv_other(kc, dc, k6, 0);
        lemma_kv_other(kc, dc, k7, 7);
        lemma_kv_other(kc, dc, k8, 0);
        lemma_kv_other(kc, dc, k9, 0);
        lemma_kv_other(kc, dc, ka, 0);
        lemma_kv_other(kc, dc, kb, 2);
        let b0 = chan_v2_body(c);
        let b1 = b0.push(kv_line(ka, da));
        let b2 = b1.push(kv_line(kb, db));
        let b3 = b2.push(kv_line(kc, dc));
        lemma_chan_fold_push(b0, kv_line(ka, da), chan_is_v3(c));
        lemma_chan_fold_push(b1, kv_line(kb, db), chan_is_v3(c));
        lemma_chan_fold_push(b2, kv_line(kc, dc), chan_is_v3(c));
        let a1 = ChannelCoinView { pin_epoch_span: c.pin_epoch_span, ..chan_v2_acc(c) };
        let a2 = ChannelCoinView { message_hosted_span_seconds: c.message_hosted_span_seconds, ..a1 };
        let a3 = ChannelCoinView { memory_weight_seconds: c.memory_weight_seconds, ..a2 };
        assert(chan_fold(b1, chan_is_v3(c)) == Ok::<ChannelCoinView, MemErrorView>(a1));
        assert(chan_fold(b2, chan_is_v3(c)) == Ok::<ChannelCoinView, MemErrorView>(a2));
        assert(chan_fold(b3, chan_is_v3(c)) == Ok::<ChannelCoinView, MemErrorView>(a3));
        let a4 = ChannelCoinView { timelock_epoch_span: c.timelock_epoch_span, ..a3 };
        let b4 = match c.timelock_epoch_span {
            Some(n) => b3.push(kv_line(kd, dec(n as nat))),
            None => b3,
        };
        match c.timelock_epoch_span {
            Some(n) => {
                let d = dec(n as nat);
                lemma_dec_parse(n);
                lemma_dec_clean(n);
                lemma_kv_line(kd, d);
                lemma_kv_other(kd, d, k1, 0);
                lemma_kv_other(kd, d, k2, 0);
                lemma_kv_other(kd, d, k3, 0);
                lemma_kv_other(kd, d, k4, 0);
                lemma_kv_other(kd, d, k5, 0);
                lemma_kv_other(kd, d, k6, 0);
                lemma_kv_other(kd, d, k7, 0);
                lemma_kv_other(kd, d, k8, 0);
                lemma_kv_other(kd, d, k9, 0);
                lemma_kv_other(kd, d, ka, 0);
                lemma_kv_other(kd, d, kb, 0);
                lemma_kv_other(kd, d, kc, 0);
                lemma_chan_fold_push(b3, kv_line(kd, d), chan_is_v3(c));
            },
            None => {},
        }
        assert(chan_fold(b4, chan_is_v3(c)) == Ok::<ChannelCoinView, MemErrorView>(a4));
        let b5 = match c.timelock_sealed_frames {
            Some(n) => b4.push(kv_line(ke, dec(n as nat))),
            None => b4,
        };
        match c.timelock_sealed_frames {
            Some(n) => {
                let d = dec(n as nat);
                lemma_dec_parse(n);
                lemma_dec_clean(n);
                lemma_kv_line(ke, d);
                lemma_kv_other(ke, d, k1, 0);
                lemma_kv_other(ke, d, k2, 0);
                lemma_kv_other(ke, d, k3, 0);
                lemma_kv_other(ke, d, k4, 0);
                lemma_kv_other(ke, d, k5, 0);
                lemma_kv_other(ke, d, k6, 0);
                lemma_kv_other(ke, d, k7, 0);
                lemma_kv_other(ke, d, k8, 0);
                lemma_kv_other(ke, d, k9, 0);
                lemma_kv_other(ke, d, ka, 0);
                lemma_kv_other(ke, d, kb, 0);
                lemma_kv_other(ke, d, kc, 0);
                lemma_kv_other(ke, d, kd, 9);
                lemma_chan_fold_push(b4, kv_line(ke, d), chan_is_v3(c));
            },
            None => {},
        }
        assert(chan_fold(b5, chan_is_v3(c)) == Ok::<ChannelCoinView, MemErrorView>(chan_v3_acc(c)));
        assert(b5 =~= chan_v3_body(c));
    }
}

proof fn lemma_chan_tail(c: ChannelCoinView)
    requires
        chan_fold(chan_v3_body(c), chan_is_v3(c)) == Ok::<ChannelCoinView, MemErrorView>(chan_v3_acc(c)),
        c.host_fp matches Some(fp) ==> is_clean(fp),
        chan_v3_acc(c).memory_bytes == c.memory_bytes,
        chan_v3_acc(c).hosted_seconds == c.hosted_seconds,
        chan_v3_acc(c).registry_visible == c.registry_visible,
        chan_v3_acc(c).pin_epoch_span == c.pin_epoch_span,
        chan_v3_acc(c).message_hosted_span_seconds == c.message_hosted_span_seconds,
        chan_v3_acc(c).memory_weight_seconds == c.memory_weight_seconds,
        chan_v3_acc(c).timelock_epoch_span == c.timelock_epoch_span,
        chan_v3_acc(c).timelock_sealed_frames == c.timelock_sealed_frames,
    ensures
        chan_fold(chan_full_body(c), chan_is_v3(c)) == Ok::<ChannelCoinView, MemErrorView>(c),
{
    lemma_chan_keys();
    reveal_strlit("room_wire_pk:");
    reveal_strlit("room_id_fp:");
    reveal_strlit("chain_root:");
    reveal_strlit("frame_count:");
    reveal_strlit("last_seq:");
    reveal_strlit("last_pool_epoch:");
    reveal_strlit("memory_bytes:");
    reveal_strlit("hosted_seconds:");
    reveal_strlit("registry_visible:");
    reveal_strlit("quorum_replicas:");
    reveal_strlit("host_fp:");
    reveal_strlit("pin_epoch_span:");
    reveal_strlit("message_hosted_span_seconds:");
    reveal_strlit("memory_weight_seconds:");
    reveal_strlit("timelock_epoch_span:");
    reveal_strlit("timelock_sealed_frames:");
    let ka = "pin_epoch_span:"@;
    let kb = "message_hosted_span_seconds:"@;
    let kc = "memory_weight_seconds:"@;
    let kd = "timelock_epoch_span:"@;
    let ke = "timelock_sealed_frames:"@;
    let k1 = "room_wire_pk:"@;
    let k2 = "room_id_fp:"@;
    let k3 = "chain_root:"@;
    let k4 = "frame_count:"@;
    let k5 = "last_seq:"@;
    let k6 = "last_pool_epoch:"@;
    let k7 = "memory_bytes:"@;
    let k8 = "hosted_seconds:"@;
    let k9 = "registry_visible:"@;
    let k10 = "quorum_replicas:"@;
    let k11 = "host_fp:"@;
    let a9 = chan_v3_acc(c);
    let a10 = ChannelCoinView { quorum_replicas: c.quorum_replicas, ..a9 };
    match c.quorum_replicas {
        Some(q) => {
            let d = dec(q as nat);
            lemma_dec_parse(q);
            lemma_dec_clean(q);
            lemma_kv_line(k10, d);
            lemma_kv_other(k10, d, k1, 0);
            lemma_kv_other(k10, d, k2, 0);
            lemma_kv_other(k10, d, k3, 0);
            lemma_kv_other(k10, d, k4, 0);
            lemma_kv_other(k10, d, k5, 0);
            lemma_kv_other(k10, d, k6, 0);
            lemma_kv_other(k10, d, k7, 0);
            lemma_kv_other(k10, d, k8, 0);
            lemma_kv_other(k10, d, k9, 0);
            lemma_kv_other(k10, d, ka, 0);
            lemma_kv_other(k10, d, kb, 0);
            lemma_kv_other(k10, d, kc, 0);
            lemma_kv_other(k10, d, kd, 0);
            lemma_kv_other(k10, d, ke, 0);
            lemma_chan_fold_push(chan_v3_body(c), kv_line(k10, d), chan_is_v3(c));
        },
        None => {},
    }
    assert(chan_fold(chan_q_body(c), chan_is_v3(c)) == Ok::<ChannelCoinView, MemErrorView>(a10));
    match c.host_fp {
        Some(fp) => {
            lemma_kv_line(k11, fp);
            lemma_kv_other(k11, fp, k1, 0);
            lemma_kv_other(k11, fp, k2, 0);
            lemma_kv_other(k11, fp, k3, 0);
            lemma_kv_other(k11, fp, k4, 0);
            lemma_kv_other(k11, fp, k5, 0);
            lemma_kv_other(k11, fp, k6, 0);
            lemma_kv_other(k11, fp, k7, 0);
            lemma_kv_other(k11, fp, k8, 4);
            lemma_kv_other(k11, fp, k9, 0);
            lemma_kv_other(k11, fp, k10, 0);
            lemma_kv_other(k11, fp, ka, 0);
            lemma_kv_other(k11, fp, kb, 0);
            lemma_kv_other(k11, fp, kc, 0);
            lemma_kv_other(k11, fp, kd, 0);
            lemma_kv_other(k11, fp, ke, 0);
            lemma_chan_fold_push(chan_q_body(c), kv_line(k11, fp), chan_is_v3(c));
        },
        None => {},
    }
}

#[verifier::spinoff_prover]
#[verifier::rlimit(40)]
pub proof fn lemma_chan_lines_plain(c: ChannelCoinView)
    requires
        is_clean(c.room_wire_pk),
        is_clean(c.room_id_fp),
        is_clean(c.chain_root),
        c.host_fp matches Some(fp) ==> is_clean(fp),
    ensures
        forall|i: int| 0 <= i < chan_lines(c).len() ==> is_plain_line(#[trigger] chan_lines(c)[i]),
        chan_lines(c).drop_first() == chan_full_body(c),
        trim(chan_lines(c)[0]) == CHANNEL_COIN_V1_MAGIC@ || trim(chan_lines(c)[0])
            == CHANNEL_COIN_V2_MAGIC@ || trim(chan_lines(c)[0]) == CHANNEL_COIN_V3_MAGIC@,
{
    lemma_chan_keys();
    reveal_strlit("true");
    reveal_strlit("false");
    reveal_strlit("ITS-COIN/1");
    reveal_strlit("ITS-CHANNEL-COIN/2");
    reveal_strlit("ITS-CHANNEL-COIN/3");
    let m = if chan_is_v3(c) {
        CHANNEL_COIN_V3_MAGIC@
    } else if chan_is_v2(c) {
        CHANNEL_COIN_V2_MAGIC@
    } else {
        CHANNEL_COIN_V1_MAGIC@
    };
    assert(is_plain_line(m)) by {
        assert forall|k: int| 0 <= k < m.len() implies m[k] != '\n' by {}
    }
    lemma_trim_noop(m);
    let t9 = bool_text(c.registry_visible);
    assert(is_clean(t9)) by {
        lemma_trim_noop(t9);
        assert(!t9.contains('\n'));
    }
    lemma_dec_clean(c.frame_count);
    lemma_dec_clean(c.last_seq);
    lemma_dec_clean(c.last_pool_epoch);
    lemma_dec_clean(c.memory_bytes);
    lemma_dec_clean(c.hosted_seconds);
    lemma_kv_line("room_wire_pk:"@, c.room_wire_pk);
    lemma_kv_line("room_id_fp:"@, c.room_id_fp);
    lemma_kv_line("chain_root:"@, c.chain_root);
    lemma_kv_line("frame_count:"@, dec(c.frame_count as nat));
    lemma_kv_line("last_seq:"@, dec(c.last_seq as nat));
    lemma_kv_line("last_pool_epoch:"@, dec(c.last_pool_epoch as nat));
    lemma_kv_line("memory_bytes:"@, dec(c.memory_bytes as nat));
    lemma_kv_line("hosted_seconds:"@, dec(c.hosted_seconds as nat));
    lemma_kv_line("registry_visible:"@, t9);
    if c.quorum_replicas is Some {
        lemma_dec_clean(c.quorum_replicas->0);
        lemma_kv_line("quorum_replicas:"@, dec(c.quorum_replicas->0 as nat));
    }
    if c.host_fp is Some {
        lemma_kv_line("host_fp:"@, c.host_fp->0);
    }
    lemma_dec_clean(c.pin_epoch_span);
    lemma_dec_clean(c.message_hosted_span_seconds);
    lemma_dec_clean(c.memory_weight_seconds);
    lemma_kv_line("pin_epoch_span:"@, dec(c.pin_epoch_span as nat));
    lemma_kv_line("message_hosted_span_seconds:"@, dec(c.message_hosted_span_seconds as nat));
    lemma_kv_line("memory_weight_seconds:"@, dec(c.memory_weight_seconds as nat));
    if c.timelock_epoch_span is Some {
        lemma_dec_clean(c.timelock_epoch_span->0);
        lemma_kv_line("timelock_epoch_span:"@, dec(c.timelock_epoch_span->0 as nat));
    }
    if c.timelock_sealed_frames is Some {
        lemma_dec_clean(c.timelock_sealed_frames->0);
        lemma_kv_line("timelock_sealed_frames:"@, dec(c.timelock_sealed_frames->0 as nat));
    }
    let ls = chan_lines(c);
    let body = chan_full_body(c);
    assert(ls =~= seq![m] + body);
    assert(ls.drop_first() =~= body);
    assert forall|i: int| 0 <= i < ls.len() implies is_plain_line(#[trigger] ls[i]) by {
        if i > 0 {
            assert(ls[i] == body[i - 1]);
        }
    }
}

/// The text of a coin with nonempty fields starts and ends with a
/// non-space character.
pub proof fn lemma_chan_text_ends(c: ChannelCoinView)
    requires
        c.host_fp matches Some(fp) ==> is_clean(fp) && fp.len() > 0,
    ensures
        chan_lines(c).len() > 0,
        chan_lines(c)[0].len() > 0,
        !is_ws(chan_lines(c)[0][0]),
        chan_lines(c).last().len() > 0,
        !is_ws(chan_lines(c).last().last()),
{
    reveal_strlit("ITS-COIN/1");
    reveal_strlit("ITS-CHANNEL-COIN/2");
    reveal_strlit("ITS-CHANNEL-COIN/3");
    reveal_strlit("true");
    reveal_strlit("false");
    let ls = chan_lines(c);
    let v = if c.host_fp is Some {
        c.host_fp->0
    } else if c.quorum_replicas is Some {
        dec(c.quorum_replicas->0 as nat)
    } else if chan_is_v3(c) {
        if c.timelock_sealed_frames is Some {
            dec(c.timelock_sealed_frames->0 as nat)
        } else if c.timelock_epoch_span is Some {
            dec(c.timelock_epoch_span->0 as nat)
        } else {
            dec(c.memory_weight_seconds as nat)
        }
    } else if chan_has_v2_lines(c) {
        bool_text(c.registry_visible)
    } else {
        dec(c.last_pool_epoch as nat)
    };
    let k = if c.host_fp is Some {
        "host_fp:"@
    } else if c.quorum_replicas is Some {
        "quorum_replicas:"@
    } else if chan_is_v3(c) {
        if c.timelock_sealed_frames is Some {
            "timelock_sealed_frames:"@
        } else if c.timelock_epoch_span is Some {
            "timelock_epoch_span:"@
        } else {
            "memory_weight_seconds:"@
        }
    } else if chan_has_v2_lines(c) {
        "registry_visible:"@
    } else {
        "last_pool_epoch:"@
    };
    if c.quorum_replicas is Some {
        lemma_dec_clean(c.quorum_replicas->0);
    }
    if c.timelock_sealed_frames is Some {
        lemma_dec_clean(c.timelock_sealed_frames->0);
    }
    if c.timelock_epoch_span is Some {
        lemma_dec_clean(c.timelock_epoch_span->0);
    }
    lemma_dec_clean(c.memory_weight_seconds);
    lemma_dec_clean(c.last_pool_epoch);
    assert(is_clean(bool_text(c.registry_visible)) && bool_text(c.registry_visible).len() > 0) by {
        lemma_trim_noop(bool_text(c.registry_visible));
    }
    assert(ls.last() == kv_line(k, v));
    assert(is_clean(v) && v.len() > 0);
    lemma_clean_ends(v);
    assert(kv_line(k, v).last() == v.last());
}

/// Law: a channel coin manifest with nonempty, clean `room_wire_pk` and
/// `chain_root`, a clean `room_id_fp` and a clean `host_fp` (if any) reads
/// back from its own text unchanged, in each of the three formats.
pub proof fn lemma_chan_roundtrip(c: ChannelCoinView)
    requires
        is_clean(c.room_wire_pk),
        c.room_wire_pk.len() > 0,
        is_clean(c.room_id_fp),
        is_clean(c.chain_root),
        c.chain_root.len() > 0,
        c.host_fp matches Some(fp) ==> is_clean(fp),
    ensures
        chan_parse(chan_text(c)) == Ok::<ChannelCoinView, MemErrorView>(c),
{
    lemma_chan_head(c);
    lemma_chan_v2_block(c);
    lemma_chan_v3_block(c);
    assert(!chan_has_v2_lines(c) ==> c.memory_bytes == 0 && c.hosted_seconds == 0
        && c.registry_visible);
    lemma_chan_tail(c);
    lemma_chan_lines_plain(c);
    lemma_lines_unlines(chan_lines(c));
    lemma_chan_magic_v3(c);
}

/// The magic line is the v3 one exactly when the coin needs the v3 format.
proof fn lemma_chan_magic_v3(c: ChannelCoinView)
    ensures
        (trim(chan_lines(c)[0]) == CHANNEL_COIN_V3_MAGIC@) == chan_is_v3(c),
{
    reveal_strlit("ITS-COIN/1");
    reveal_strlit("ITS-CHANNEL-COIN/2");
    reveal_strlit("ITS-CHANNEL-COIN/3");
    let m = chan_lines(c)[0];
    lemma_trim_noop(m);
    if !chan_is_v3(c) {
        if chan_is_v2(c) {
            assert(m[17] != CHANNEL_COIN_V3_MAGIC@[17]);
        } else {
            assert(m.len() != CHANNEL_COIN_V3_MAGIC@.len());
        }
    }
}

// ---------------------------------------------------------------------------
// GDIR operations and receipt payloads.
// ---------------------------------------------------------------------------

#[derive(Clone, Copy, Debug, PartialEq, Eq, Structural)]
pub enum GdirOp {
    Mirror,
    Sync,
    Route,
    Blind,
}

pub open spec fn gdir_op_text(op: GdirOp) -> Seq<char> {
    match op {
        GdirOp::Mirror => "mirror"@,
        GdirOp::Sync => "sync"@,
        GdirOp::Route => "route"@,
        GdirOp::Blind => "blind"@,
    }
}

/// What `GdirOp::parse` gives: the operation named exactly, or a usage error.
pub open spec fn gdir_op_parse(s: Seq<char>) -> Result<GdirOp, MemErrorView> {
    if s == "mirror"@ {
        Ok(GdirOp::Mirror)
    } else if s == "sync"@ {
        Ok(GdirOp::Sync)
    } else if s == "route"@ {
        Ok(GdirOp::Route)
    } else if s == "blind"@ {
        Ok(GdirOp::Blind)
    } else {
        Err(MemErrorView::Coin("unknown gdir op: "@ + s + " (mirror|sync|route|blind)"@))
    }
}

impl GdirOp {
    pub fn parse(s: &str) -> (r: Result<Self, MemError>)
        ensures
            match r {
                Ok(op) => gdir_op_parse(s@) == Ok::<GdirOp, MemErrorView>(op),
                Err(e) => gdir_op_parse(s@) == Err::<GdirOp, MemErrorView>(e@),
            },
    {
        let c = chars_of(s);
        if chars_eq_str(&c, "mirror") {
            Ok(GdirOp::Mirror)
        } else if chars_eq_str(&c, "sync") {
            Ok(GdirOp::Sync)
        } else if chars_eq_str(&c, "route") {
            Ok(GdirOp::Route)
        } else if chars_eq_str(&c, "blind") {
            Ok(GdirOp::Blind)
        } else {
            let mut m = String::from_str("unknown gdir op: ");
            m.append(s);
            m.append(" (mirror|sync|route|blind)");
            Err(MemError::Coin(m))
        }
    }

    pub fn as_str(&self) -> (s: &'static str)
        ensures
            s@ == gdir_op_text(*self),
    {
        match self {
            GdirOp::Mirror => "mirror",
            GdirOp::Sync => "sync",
            GdirOp::Route => "route",
            GdirOp::Blind => "blind",
        }
    }
}

/// Law: every operation is read back from its own name.
pub proof fn lemma_gdir_op_roundtrip(op: GdirOp)
    ensures
        gdir_op_parse(gdir_op_text(op)) == Ok::<GdirOp, MemErrorView>(op),
{
    reveal_strlit("mirror");
    reveal_strlit("sync");
    reveal_strlit("route");
    reveal_strlit("blind");
    match op {
        GdirOp::Mirror => {},
        GdirOp::Sync => {
            assert("sync"@.len() != "mirror"@.len());
        },
        GdirOp::Route => {
            assert("route"@.len() != "mirror"@.len());
            assert("route"@.len() != "sync"@.len());
        },
        GdirOp::Blind => {
            assert("blind"@.len() != "mirror"@.len());
            assert("blind"@.len() != "sync"@.len());
            assert("blind"@[0] != "route"@[0]);
        },
    }
}

/// The characters of `fp|epoch|op|byte_span`.
pub open spec fn receipt_payload_chars(r: GdirReceiptView) -> Seq<char> {
    r.contrib_fp + seq!['|'] + dec(r.epoch as nat) + seq!['|'] + r.op + seq!['|'] + dec(
        r.byte_span as nat,
    )
}

impl GdirReceipt {
    /// The receipt's contribution to the GDIR chain payload: the UTF-8 bytes
    /// of `fp|epoch|op|byte_span`.
    pub fn payload_bytes(&self) -> (b: Vec<u8>)
        ensures
            b@ == encode_utf8(receipt_payload_chars(self@)),
    {
        let mut out: Vec<char> = Vec::new();
        push_str(&mut out, self.contrib_fp.as_str());
        out.push('|');
        push_dec(&mut out, self.epoch);
        out.push('|');
        push_str(&mut out, self.op.as_str());
        out.push('|');
        push_dec(&mut out, self.byte_span);
        assert(out@ =~= receipt_payload_chars(self@));
        let s = string_of(&out);
        s.as_str().as_bytes_vec()
    }
}

// ---------------------------------------------------------------------------
// Wire identities and directory fingerprints.
// ---------------------------------------------------------------------------

/// Exact ciphertext identity for dedup filenames (hex of raw bytes, not SHA).
pub fn wire_identity(wire_bytes: &[u8]) -> (s: String)
    ensures
        s@ == hex_lower(wire_bytes@),
{
    to_hex(wire_bytes)
}

/// `{n:08x}_{head}_{tail}`: the length in hex, the first eight bytes and,
/// for wires longer than eight bytes, the last eight bytes.
pub open spec fn filename_tag(w: Seq<u8>) -> Seq<char> {
    let n = w.len();
    let head = hex_lower(w.take(if n < 8 { n as int } else { 8 }));
    let tail = if n > 8 {
        hex_lower(w.skip(n - 8))
    } else {
        seq![]
    };
    pad_zero(hex_digits(n), 8) + seq!['_'] + head + seq!['_'] + tail
}

/// Short filesystem tag; full equality checked via `wire_identity`.
pub fn wire_filename_tag(wire_bytes: &[u8]) -> (s: String)
    ensures
        s@ == filename_tag(wire_bytes@),
{
    let n = wire_bytes.len();
    let k = if n < 8 { n } else { 8 };
    let head_bytes = slice_subrange(wire_bytes, 0, k);
    let head = to_hex(head_bytes.as_slice());
    let mut out: Vec<char> = Vec::new();
    push_radix(&mut out, n as u64, 16, 8);
    out.push('_');
    push_str(&mut out, head.as_str());
    out.push('_');
    if n > 8 {
        let tail_bytes = slice_subrange(wire_bytes, n - 8, n);
        let tail = to_hex(tail_bytes.as_slice());
        push_str(&mut out, tail.as_str());
        assert(tail_bytes@ =~= wire_bytes@.skip(n - 8));
    }
    proof {
        assert(head_bytes@ =~= wire_bytes@.take(k as int));
        assert(out@ =~= filename_tag(wire_bytes@));
    }
    string_of(&out)
}

/// Copies `s[lo..hi]`.
pub fn slice_subrange(s: &[u8], lo: usize, hi: usize) -> (r: Vec<u8>)
    requires
        lo <= hi <= s@.len(),
    ensures
        r@ == s@.subrange(lo as int, hi as int),
{
    let mut r: Vec<u8> = Vec::new();
    let mut i = lo;
    while i < hi
        invariant
            lo <= i <= hi <= s@.len(),
            r@ == s@.subrange(lo as int, i as int),
        decreases hi - i,
    {
        r.push(s[i]);
        i = i + 1;
        assert(r@ =~= s@.subrange(lo as int, i as int));
    }
    r
}

/// Bytes of a character in UTF-8.
pub open spec fn utf8_width(c: char) -> nat {
    let u = c as u32;
    if u < 0x80 {
        1
    } else if u < 0x800 {
        2
    } else if u < 0x10000 {
        3
    } else {
        4
    }
}

/// Bytes of a character sequence in UTF-8 (`str::len`).
pub open spec fn utf8_len(s: Seq<char>) -> nat
    decreases s.len(),
{
    if s.len() == 0 {
        0
    } else {
        utf8_width(s[0]) + utf8_len(s.drop_first())
    }
}

/// The leading characters that fit in `n` bytes of UTF-8.
pub open spec fn utf8_prefix(s: Seq<char>, n: nat) -> Seq<char>
    decreases s.len(),
{
    if s.len() == 0 || utf8_width(s[0]) > n {
        seq![]
    } else {
        seq![s[0]] + utf8_prefix(s.drop_first(), (n - utf8_width(s[0])) as nat)
    }
}

/// Slicing the trimmed id at byte 16 needs byte 16 to start a character.
pub open spec fn fingerprint_slices_cleanly(room_id: Seq<char>) -> bool {
    let t = trim(room_id);
    utf8_len(t) < 16 || utf8_len(utf8_prefix(t, 16)) == 16
}

/// The public directory fingerprint of a room id: its first sixteen bytes,
/// or the id padded on the right with `0` to sixteen characters.
pub open spec fn room_id_fp_spec(room_id: Seq<char>) -> Seq<char> {
    let t = trim(room_id);
    if utf8_len(t) >= 16 {
        utf8_prefix(t, 16)
    } else if t.len() >= 16 {
        t
    } else {
        t + Seq::new((16 - t.len()) as nat, |i: int| '0')
    }
}

fn char_width(c: char) -> (w: usize)
    ensures
        w == utf8_width(c),
{
    let u = c as u32;
    if u < 0x80 {
        1
    } else if u < 0x800 {
        2
    } else if u < 0x10000 {
        3
    } else {
        4
    }
}

proof fn lemma_utf8_prefix_step(s: Seq<char>, k: int, n: nat)
    requires
        0 <= k < s.len(),
        utf8_len(s.take(k)) + utf8_width(s[k]) <= n,
        utf8_prefix(s, n).len() >= k,
        utf8_prefix(s, n).take(k) == s.take(k),
    ensures
        utf8_prefix(s, n).len() >= k + 1,
        utf8_prefix(s, n).take(k + 1) == s.take(k + 1),
    decreases k,
{
    assert(s.len() > 0);
    if k == 0 {
        assert(utf8_width(s[0]) <= n);
        assert(utf8_prefix(s, n)[0] == s[0]);
        assert(utf8_prefix(s, n).take(1) =~= s.take(1));
    } else {
        let t = s.drop_first();
        let w0 = utf8_width(s[0]);
        assert(s.take(k).drop_first() =~= t.take(k - 1));
        assert(utf8_len(s.take(k)) == w0 + utf8_len(t.take(k - 1)));
        assert(w0 <= n);
        let m = (n - w0) as nat;
        assert(utf8_prefix(s, n) == seq![s[0]] + utf8_prefix(t, m));
        assert(utf8_prefix(t, m).take(k - 1) =~= t.take(k - 1)) by {
            assert forall|j: int| 0 <= j < k - 1 implies utf8_prefix(t, m)[j] == t[j] by {
                assert(utf8_prefix(s, n).take(k)[j + 1] == s.take(k)[j + 1]);
                assert(utf8_prefix(s, n).take(k)[j + 1] == utf8_prefix(s, n)[j + 1]);
                assert(utf8_prefix(s, n)[j + 1] == utf8_prefix(t, m)[j]);
                assert(s.take(k)[j + 1] == s[j + 1]);
                assert(s[j + 1] == t[j]);
            }
        }
        assert(t[k - 1] == s[k]);
        lemma_utf8_prefix_step(t, k - 1, m);
        assert(utf8_prefix(s, n).take(k + 1) =~= s.take(k + 1)) by {
            assert forall|j: int| 0 <= j < k + 1 implies utf8_prefix(s, n)[j] == s[j] by {
                if j > 0 {
                    assert(utf8_prefix(t, m).take(k)[j - 1] == t.take(k)[j - 1]);
                }
            }
        }
    }
}

proof fn lemma_utf8_prefix_stop(s: Seq<char>, k: int, n: nat)
    requires
        0 <= k <= s.len(),
        k == s.len() || utf8_len(s.take(k)) + utf8_width(s[k]) > n,
        utf8_len(s.take(k)) <= n,
        utf8_prefix(s, n).len() >= k,
        utf8_prefix(s, n).take(k) == s.take(k),
    ensures
        utf8_prefix(s, n) == s.take(k),
    decreases k,
{
    if k == 0 {
        if s.len() > 0 {
            assert(utf8_width(s[0]) > n);
        }
        assert(utf8_prefix(s, n) =~= s.take(0));
    } else {
        let t = s.drop_first();
        let w0 = utf8_width(s[0]);
        assert(s.take(k).drop_first() =~= t.take(k - 1));
        assert(utf8_len(s.take(k)) == w0 + utf8_len(t.take(k - 1)));
        let m = (n - w0) as nat;
        assert(utf8_prefix(s, n) == seq![s[0]] + utf8_prefix(t, m));
        assert(utf8_prefix(t, m).take(k - 1) =~= t.take(k - 1)) by {
            assert forall|j: int| 0 <= j < k - 1 implies utf8_prefix(t, m)[j] == t[j] by {
                assert(utf8_prefix(s, n).take(k)[j + 1] == s.take(k)[j + 1]);
                assert(utf8_prefix(s, n).take(k)[j + 1] == utf8_prefix(s, n)[j + 1]);
                assert(utf8_prefix(s, n)[j + 1] == utf8_prefix(t, m)[j]);
                assert(s.take(k)[j + 1] == s[j + 1]);
                assert(s[j + 1] == t[j]);
            }
        }
        if k < s.len() {
            assert(t[k - 1] == s[k]);
        }
        lemma_utf8_prefix_stop(t, k - 1, m);
        assert(utf8_prefix(s, n) =~= s.take(k));
    }
}

proof fn lemma_utf8_len_push(s: Seq<char>, c: char)
    ensures
        utf8_len(s.push(c)) == utf8_len(s) + utf8_width(c),
    decreases s.len(),
{
    if s.len() > 0 {
        assert(s.push(c).drop_first() =~= s.drop_first().push(c));
        assert(s.push(c)[0] == s[0]);
        lemma_utf8_len_push(s.drop_first(), c);
    } else {
        assert(s.push(c).drop_first() =~= Seq::<char>::empty());
        assert(s.push(c)[0] == c);
        assert(utf8_len(Seq::<char>::empty()) == 0);
    }
}

/// A text that fits in `n` bytes is its own prefix.
pub proof fn lemma_utf8_prefix_whole(s: Seq<char>, n: nat)
    requires
        utf8_len(s) <= n,
    ensures
        utf8_prefix(s, n) == s,
    decreases s.len(),
{
    if s.len() > 0 {
        let w0 = utf8_width(s[0]);
        lemma_utf8_prefix_whole(s.drop_first(), (n - w0) as nat);
        assert(seq![s[0]] + s.drop_first() =~= s);
    }
}

/// The leading characters of `t` that fit in `n` bytes of UTF-8.
pub fn utf8_prefix_chars(t: &Vec<char>, n: usize) -> (r: Vec<char>)
    requires
        n <= 64,
    ensures
        r@ == utf8_prefix(t@, n as nat),
{
    let mut k: usize = 0;
    let mut bytes: usize = 0;
    proof {
        assert(t@.take(0) =~= Seq::<char>::empty());
        assert(utf8_prefix(t@, n as nat).take(0) =~= t@.take(0));
    }
    while k < t.len() && bytes + char_width(t[k]) <= n
        invariant
            n <= 64,
            k <= t@.len(),
            bytes == utf8_len(t@.take(k as int)),
            bytes <= n,
            utf8_prefix(t@, n as nat).len() >= k,
            utf8_prefix(t@, n as nat).take(k as int) == t@.take(k as int),
        decreases t.len() - k,
    {
        proof {
            lemma_utf8_prefix_step(t@, k as int, n as nat);
            assert(t@.take(k + 1) =~= t@.take(k as int).push(t@[k as int]));
            lemma_utf8_len_push(t@.take(k as int), t@[k as int]);
        }
        bytes = bytes + char_width(t[k]);
        k = k + 1;
    }
    proof {
        lemma_utf8_prefix_stop(t@, k as int, n as nat);
    }
    let p = sub_chars(t, 0, k);
    assert(p@ =~= t@.take(k as int));
    p
}

/// Public directory fingerprint: first 16 hex chars of ITS room_id (32 hex).
pub fn room_id_fingerprint(room_id: &str) -> (s: String)
    requires
        fingerprint_slices_cleanly(room_id@),
    ensures
        s@ == room_id_fp_spec(room_id@),
{
    let c = chars_of(room_id);
    let t = trim_chars(&c);
    // count the characters within the first sixteen bytes
    let mut k: usize = 0;
    let mut bytes: usize = 0;
    proof {
        assert(t@.take(0) =~= Seq::<char>::empty());
        assert(utf8_prefix(t@, 16).take(0) =~= t@.take(0));
    }
    while k < t.len() && bytes + char_width(t[k]) <= 16
        invariant
            k <= t@.len(),
            bytes == utf8_len(t@.take(k as int)),
            bytes <= 16,
            utf8_prefix(t@, 16).len() >= k,
            utf8_prefix(t@, 16).take(k as int) == t@.take(k as int),
        decreases t.len() - k,
    {
        proof {
            lemma_utf8_prefix_step(t@, k as int, 16);
            assert(t@.take(k + 1) =~= t@.take(k as int).push(t@[k as int]));
            lemma_utf8_len_push(t@.take(k as int), t@[k as int]);
        }
        bytes = bytes + char_width(t[k]);
        k = k + 1;
    }
    proof {
        lemma_utf8_prefix_stop(t@, k as int, 16);
    }
    if k < t.len() || bytes == 16 {
        // sixteen or more bytes: the prefix
        proof {
            if k < t.len() {
                assert(utf8_len(t@) >= 16) by {
                    lemma_utf8_len_split(t@, k as int);
                    assert(t@.skip(k as int)[0] == t@[k as int]);
                    assert(utf8_len(t@.skip(k as int)) >= utf8_width(t@[k as int]));
                }
            } else {
                assert(t@.take(k as int) =~= t@);
            }
        }
        let p = sub_chars(&t, 0, k);
        assert(p@ =~= t@.take(k as int));
        string_of(&p)
    } else {
        proof {
            assert(t@.take(k as int) =~= t@);
        }
        let mut out = sub_chars(&t, 0, t.len());
        assert(out@ =~= t@);
        let ghost t0 = out@;
        while out.len() < 16
            invariant
                t0 == t@,
                out@.len() >= t0.len(),
                out@.len() <= 16 || out@ == t0,
                out@ == t0 + Seq::new((out@.len() - t0.len()) as nat, |i: int| '0'),
            decreases 16 - out.len(),
        {
            out.push('0');
            assert(out@ =~= t0 + Seq::new((out@.len() - t0.len()) as nat, |i: int| '0'));
        }
        proof {
            if t0.len() >= 16 {
                assert(out@ =~= t0);
            }
        }
        string_of(&out)
    }
}

proof fn lemma_utf8_len_split(s: Seq<char>, k: int)
    requires
        0 <= k <= s.len(),
    ensures
        utf8_len(s) == utf8_len(s.take(k)) + utf8_len(s.skip(k)),
    decreases k,
{
    if k > 0 {
        let t = s.drop_first();
        lemma_utf8_len_split(t, k - 1);
        assert(s.take(k).drop_first() =~= t.take(k - 1));
        assert(s.skip(k) =~= t.skip(k - 1));
    } else {
        assert(s.skip(0) =~= s);
    }
}

} // verus!
