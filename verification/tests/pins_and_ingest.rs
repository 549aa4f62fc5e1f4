use std::path::PathBuf;

use its_memory::error::MemError;
use its_memory::fetch::{fetched_pin_file_name, fetched_wire_file_name};
use its_memory::ingest::{parse_coin_text, try_parse_coin_wire, CoinKind, IngestAction, IngestedCoin, PoolIngest};
use its_memory::mirror::{list_published_pins, mirror_pin_name, parse_published_at, published_marker_text};
use its_memory::pin::{default_pin_opts, PinFollow, PinPoll, PollAction};
use its_memory::pipe::ReceiveOutput;
use its_memory::store::{first_of_each_identity, order_pins, pin_from_wire};
use its_memory::wire::{ChannelCoinManifest, GdirCoinManifest, MemoryPin};

fn recv(stdout: &str, wire: &[u8]) -> ReceiveOutput {
    ReceiveOutput { stdout: stdout.to_string(), wire_bytes: wire.to_vec() }
}

fn channel_text(pk: &str) -> String {
    ChannelCoinManifest {
        room_wire_pk: pk.into(),
        room_id_fp: "0000000000000000".into(),
        chain_root: "aa".into(),
        frame_count: 1,
        last_seq: 0,
        last_pool_epoch: 0,
        memory_bytes: 0,
        hosted_seconds: 0,
        registry_visible: true,
        quorum_replicas: None,
        host_fp: None,
        pin_epoch_span: 0,
        message_hosted_span_seconds: 0,
        memory_weight_seconds: 0,
        timelock_epoch_span: None,
        timelock_sealed_frames: None,
    }
    .serialize_text()
}

#[test]
fn pin_from_wire_fields_and_wire() {
    let p = pin_from_wire(" AB ", 4, b"wire").unwrap();
    assert_eq!(p.room_wire_pk, "ab");
    assert_eq!(p.pool_epoch, 4);
    assert_eq!(p.wire_b64, "d2lyZQ==");
    assert_eq!(p.seq_hint, None);
    assert_eq!(p.wire_hash, "77697265");
    assert_eq!(p.wire_bytes().unwrap(), b"wire".to_vec());
}

#[test]
fn pins_listed_by_epoch_then_identity() {
    let pins = vec![
        pin_from_wire("aa", 2, b"b").unwrap(),
        pin_from_wire("aa", 1, b"z").unwrap(),
        pin_from_wire("aa", 2, b"a").unwrap(),
    ];
    let got: Vec<(u64, String)> = order_pins(pins).into_iter().map(|p| (p.pool_epoch, p.wire_hash)).collect();
    assert_eq!(got, vec![(1, "7a".to_string()), (2, "61".to_string()), (2, "62".to_string())]);
}

#[test]
fn export_file_names() {
    let mut p = pin_from_wire("aa", 42, b"x").unwrap();
    assert_eq!(fetched_wire_file_name(&p), "epoch_00000042_seq_0.wire");
    p.seq_hint = Some(7);
    assert_eq!(fetched_wire_file_name(&p), "epoch_00000042_seq_7.wire");
    assert_eq!(fetched_pin_file_name(&p), "epoch_00000042.pin");
    let long = pin_from_wire("aa", 3, b"0123456789abcdef").unwrap();
    assert_eq!(mirror_pin_name(&long), "epoch_00000003_3031323334353637.pin");
    let short = pin_from_wire("aa", 3, b"ab").unwrap();
    assert_eq!(mirror_pin_name(&short), "epoch_00000003_6162.pin");
}

#[test]
fn publication_marker_round_trip() {
    let t = published_marker_text(1700, 64);
    assert_eq!(t, "published_at: 1700\nbyte_span: 64\n");
    assert_eq!(parse_published_at(&t), Some(1700));
    assert_eq!(parse_published_at("byte_span: 3\n"), None);
}

#[test]
fn published_pins_fall_back_to_mirror() {
    let local = vec![pin_from_wire("aa", 1, b"a").unwrap(), pin_from_wire("aa", 2, b"b").unwrap()];
    let mirror = vec![pin_from_wire("aa", 9, b"m").unwrap()];
    let got = list_published_pins(local, &vec![false, true], Vec::new());
    assert_eq!(got.len(), 1);
    assert_eq!(got[0].pool_epoch, 2);
    let local = vec![pin_from_wire("aa", 1, b"a").unwrap()];
    let got = list_published_pins(local, &vec![false], mirror);
    assert_eq!(got[0].pool_epoch, 9);
}

#[test]
fn coins_recognised_in_wires() {
    match try_parse_coin_wire(channel_text("aa").as_bytes()).unwrap() {
        Some(IngestedCoin::Channel(c)) => assert_eq!(c.room_wire_pk, "aa"),
        _ => panic!("expected a channel coin"),
    }
    let g = GdirCoinManifest {
        contrib_fp: "fp".into(),
        chain_root: "r".into(),
        contrib_ops: 1,
        contrib_bytes: 2,
        contrib_seconds: 3,
    };
    match parse_coin_text(&format!("\n  {}", g.serialize_text())).unwrap() {
        Some(IngestedCoin::Gdir(x)) => assert_eq!(x, g),
        _ => panic!("expected a gdir coin"),
    }
    assert!(try_parse_coin_wire(b"\xff\xfegarbage").unwrap().is_none());
    match parse_coin_text("ITS-COIN/1\nframe_count: 1\n") {
        Err(MemError::Coin(m)) => assert_eq!(m, "incomplete manifest"),
        _ => panic!("expected an incomplete manifest"),
    }
}

#[test]
fn pool_ingest_stops_and_counts() {
    let mut st = PoolIngest::new(CoinKind::Channel, 2);
    assert_eq!(st.max_attempts, 8);
    assert_eq!(st.next_receive(), Some(0));
    match st.after_receive(&recv("x at epoch 5\n", channel_text("aa").as_bytes())).unwrap() {
        IngestAction::Keep(IngestedCoin::Channel(c)) => assert_eq!(c.room_wire_pk, "aa"),
        _ => panic!("expected to keep the coin"),
    }
    assert_eq!((st.ingested, st.from_epoch), (1, 6));
    assert_eq!(st.next_receive(), Some(6));
    assert!(matches!(st.after_receive(&recv("", b"noise")).unwrap(), IngestAction::Skip));
    assert_eq!(st.from_epoch, 7);
    assert_eq!(st.next_receive(), Some(7));
    assert!(matches!(st.after_receive(&recv("", b"")).unwrap(), IngestAction::Stop));
    assert_eq!(st.next_receive(), None);
    let mut g = PoolIngest::new(CoinKind::Gdir, 0);
    assert_eq!(g.max_attempts, 4);
    assert_eq!(g.next_receive(), None);
}

#[test]
fn poll_decisions() {
    let mut poll = PinPoll::new(" AA ", None);
    assert_eq!(poll.limit, 1);
    assert!(matches!(poll.after_receive(&recv("", b""), false, false), PollAction::Wait));
    assert!(matches!(poll.after_receive(&recv("a at epoch 3\n", b"w"), true, true), PollAction::Skip));
    assert_eq!(poll.from_epoch, 4);
    match poll.after_receive(&recv("a at epoch 9\nb at epoch 8\n", b"wire"), false, true) {
        PollAction::Store(p) => {
            assert_eq!(p.room_wire_pk, "aa");
            assert_eq!(p.pool_epoch, 9);
            assert_eq!(p.wire_hash, "77697265");
        }
        _ => panic!("expected a pin"),
    }
    assert_eq!(poll.stored, 1);
    assert_eq!(poll.from_epoch, 10);
    assert!(!poll.wants_more());
}

#[test]
fn follow_stores_each_wire_once() {
    let mut f = PinFollow::new("aa", Some(5));
    assert!(f.is_new(b"wire"));
    assert!(!f.is_new(b""));
    let p = f.accept(b"wire").unwrap();
    assert_eq!(p.pool_epoch, 0);
    assert!(!f.is_new(b"wire"));
    assert!(f.is_new(b"other"));
    assert_eq!(f.stored, 1);
    let o = default_pin_opts("aa", PathBuf::from("cfg"), PathBuf::from("seed"));
    assert_eq!(o.follow_timeout_secs, 120);
    assert!(!o.follow);
}

#[allow(dead_code)]
fn unused(_: MemoryPin) {}

#[test]
fn first_pin_of_each_wire_is_kept() {
    let a = pin_from_wire("room", 5, b"aa").unwrap();
    let b = pin_from_wire("room", 3, b"bb").unwrap();
    let a_again = pin_from_wire("room", 9, b"aa").unwrap();
    let kept = first_of_each_identity(vec![a, b, a_again]);
    assert_eq!(kept.len(), 2);
    assert_eq!(kept[0].wire_hash, "6161");
    assert_eq!(kept[0].pool_epoch, 5);
    assert_eq!(kept[1].wire_hash, "6262");
    assert!(first_of_each_identity(Vec::new()).is_empty());
}

#[test]
fn v3_coins_are_ingested() {
    let mut c = ChannelCoinManifest::parse_text(&channel_text("roomv3")).unwrap();
    c.memory_weight_seconds = 12;
    c.timelock_epoch_span = Some(3);
    let text = c.serialize_text();
    assert!(text.starts_with("ITS-CHANNEL-COIN/3"));
    match try_parse_coin_wire(text.as_bytes()) {
        Ok(Some(IngestedCoin::Channel(m))) => assert_eq!(m, c),
        _ => panic!("expected a channel coin"),
    }
    assert!(matches!(parse_coin_text("ITS-CHANNEL-COIN/3\nroom_wire_pk: x\n"), Err(MemError::Coin(_))));
}

#[test]
fn serialized_coins_come_back_from_the_pool() {
    let mut c = ChannelCoinManifest::parse_text(&channel_text("roomx")).unwrap();
    c.host_fp = Some(String::new());
    c.memory_bytes = 3;
    let text = c.serialize_text();
    assert!(text.ends_with("host_fp: \n"));
    match try_parse_coin_wire(text.as_bytes()) {
        Ok(Some(IngestedCoin::Channel(m))) => assert_eq!(m, c),
        _ => panic!("expected a channel coin"),
    }
    let g = GdirCoinManifest {
        contrib_fp: "feed".into(),
        chain_root: "01".into(),
        contrib_ops: 2,
        contrib_bytes: 30,
        contrib_seconds: 40,
    };
    match try_parse_coin_wire(g.serialize_text().as_bytes()) {
        Ok(Some(IngestedCoin::Gdir(m))) => assert_eq!(m, g),
        _ => panic!("expected a gdir coin"),
    }
    assert!(matches!(try_parse_coin_wire(b"hello"), Ok(None)));
}
