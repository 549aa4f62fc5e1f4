use its_memory::codec::{from_base64, to_base64, to_hex};
use its_memory::error::MemError;
use its_memory::wire::{
    room_id_fingerprint, wire_filename_tag, wire_identity, ChannelCoinManifest, GdirCoinManifest,
    GdirOp, GdirReceipt, MemoryPin,
};

fn channel(pk: &str) -> ChannelCoinManifest {
    ChannelCoinManifest {
        room_wire_pk: pk.to_string(),
        room_id_fp: "abcd1234ef567890".to_string(),
        chain_root: "00ff".to_string(),
        frame_count: 3,
        last_seq: 9,
        last_pool_epoch: 12,
        memory_bytes: 0,
        hosted_seconds: 0,
        registry_visible: true,
        quorum_replicas: None,
        host_fp: None,
        pin_epoch_span: 0,
        message_hosted_span_seconds: 0,
        memory_weight_seconds: 0,
        timelock_epoch_span: None,
        timelock_sealed_frames: None,
    }
}

#[test]
fn hex_and_base64_encode_exactly() {
    assert_eq!(to_hex(b"wire"), "77697265");
    assert_eq!(to_hex(&[0u8, 255, 16]), "00ff10");
    assert_eq!(to_base64(b"wire"), "d2lyZQ==");
    assert_eq!(to_base64(b""), "");
    assert_eq!(from_base64("d2lyZQ==").unwrap(), b"wire".to_vec());
    assert!(from_base64("not base64!").is_err());
}

#[test]
fn wire_identity_is_hex_of_bytes() {
    assert_eq!(wire_identity(b"ab"), "6162");
}

#[test]
fn wire_filename_tag_short_and_long() {
    assert_eq!(wire_filename_tag(b"ab"), "00000002_6162_");
    assert_eq!(
        wire_filename_tag(b"0123456789"),
        "0000000a_3031323334353637_3233343536373839"
    );
}

#[test]
fn room_id_fingerprint_pads_short_ids() {
    assert_eq!(room_id_fingerprint("  abc  "), "abc0000000000000");
    assert_eq!(room_id_fingerprint(""), "0000000000000000");
}

#[test]
fn receipt_text_is_exact_and_reads_back() {
    let r = GdirReceipt {
        contrib_fp: "abcd".into(),
        epoch: 1,
        op: "sync".into(),
        byte_span: 99,
    };
    let text = r.serialize_text();
    assert_eq!(text, "ITS-GDIR-RECEIPT/1\ncontrib_fp: abcd\nepoch: 1\nop: sync\nbyte_span: 99\n");
    let back = GdirReceipt::parse_text(&text).unwrap();
    assert_eq!(back, r);
    assert_eq!(r.payload_bytes(), b"abcd|1|sync|99".to_vec());
}

#[test]
fn receipt_without_magic_is_refused() {
    match GdirReceipt::parse_text("contrib_fp: abcd\n") {
        Err(MemError::Coin(m)) => assert_eq!(m, "missing ITS-GDIR-RECEIPT/1"),
        other => panic!("unexpected: {:?}", other.map(|_| ())),
    }
}

#[test]
fn gdir_coin_round_trip() {
    let c = GdirCoinManifest {
        contrib_fp: "abcd1234ef567890".into(),
        chain_root: "beef".into(),
        contrib_ops: 4,
        contrib_bytes: 4096,
        contrib_seconds: 60,
    };
    let text = c.serialize_text();
    assert!(text.starts_with("ITS-GDIR-COIN/1\n"));
    assert_eq!(GdirCoinManifest::parse_text(&text).unwrap(), c);
}

#[test]
fn gdir_coin_without_root_is_incomplete() {
    let text = "ITS-GDIR-COIN/1\ncontrib_fp: abcd\ncontrib_ops: 1\n";
    match GdirCoinManifest::parse_text(text) {
        Err(MemError::Coin(m)) => assert_eq!(m, "incomplete gdir coin"),
        other => panic!("unexpected: {:?}", other.map(|_| ())),
    }
}

#[test]
fn channel_coin_magic_follows_fields() {
    let v1 = channel("aa");
    assert!(v1.serialize_text().starts_with("ITS-COIN/1\n"));
    assert_eq!(ChannelCoinManifest::parse_text(&v1.serialize_text()).unwrap(), v1);
    let mut v2 = channel("bb");
    v2.memory_bytes = 10;
    v2.host_fp = Some("0011223344556677".into());
    v2.quorum_replicas = Some(3);
    let text = v2.serialize_text();
    assert!(text.starts_with("ITS-CHANNEL-COIN/2\n"));
    assert!(text.contains("registry_visible: true\n"));
    assert_eq!(ChannelCoinManifest::parse_text(&text).unwrap(), v2);
}

#[test]
fn channel_coin_without_magic_is_refused() {
    match ChannelCoinManifest::parse_text("room_wire_pk: aa\n") {
        Err(MemError::Coin(m)) => assert_eq!(m, "missing ITS-COIN/1, ITS-CHANNEL-COIN/2 or ITS-CHANNEL-COIN/3"),
        other => panic!("unexpected: {:?}", other.map(|_| ())),
    }
}

#[test]
fn pin_text_errors() {
    match MemoryPin::parse_text("hello\n") {
        Err(MemError::Wire(m)) => assert_eq!(m, "missing ITS-MEMORY-PIN/1"),
        other => panic!("unexpected: {:?}", other.map(|_| ())),
    }
    match MemoryPin::parse_text("ITS-MEMORY-PIN/1\nroom_wire_pk: aa\n") {
        Err(MemError::Wire(m)) => assert_eq!(m, "incomplete pin"),
        other => panic!("unexpected: {:?}", other.map(|_| ())),
    }
}

#[test]
fn pin_without_identity_recomputes_it() {
    let text = "ITS-MEMORY-PIN/1\nroom_wire_pk: aa\npool_epoch: 3\nwire_b64: d2lyZQ==\n";
    let pin = MemoryPin::parse_text(text).unwrap();
    assert_eq!(pin.wire_hash, "77697265");
    assert_eq!(pin.pool_epoch, 3);
    assert_eq!(pin.wire_bytes().unwrap(), b"wire".to_vec());
}

#[test]
fn pin_with_bad_base64_reports_wire_b64() {
    let pin = MemoryPin {
        room_wire_pk: "aa".into(),
        pool_epoch: 1,
        wire_b64: "@@@".into(),
        seq_hint: None,
        wire_hash: "x".into(),
    };
    match pin.wire_bytes() {
        Err(MemError::Wire(m)) => assert!(m.starts_with("wire_b64: ")),
        other => panic!("unexpected: {:?}", other.map(|_| ())),
    }
}

#[test]
fn gdir_op_names() {
    assert_eq!(GdirOp::parse("sync").unwrap().as_str(), "sync");
    assert_eq!(GdirOp::parse("mirror").unwrap().as_str(), "mirror");
    assert_eq!(GdirOp::parse("route").unwrap().as_str(), "route");
    assert_eq!(GdirOp::parse("blind").unwrap().as_str(), "blind");
    match GdirOp::parse("fly") {
        Err(MemError::Coin(m)) => assert_eq!(m, "unknown gdir op: fly (mirror|sync|route|blind)"),
        other => panic!("unexpected: {:?}", other.map(|_| ())),
    }
}

#[test]
fn error_messages_carry_their_kind() {
    assert_eq!(MemError::NotFound("x".into()).message(), "not found: x");
    assert_eq!(MemError::Pipe("x".into()).message(), "subprocess: x");
    assert_eq!(MemError::Wire("x".into()).message(), "wire: x");
    assert_eq!(MemError::Store("x".into()).message(), "store: x");
    assert_eq!(MemError::Coin("x".into()).message(), "coin: x");
    assert_eq!(MemError::Usage("x".into()).message(), "x");
}

#[test]
fn io_errors_convert_and_say_so() {
    let e = MemError::from(std::io::Error::new(std::io::ErrorKind::NotFound, "gone"));
    assert!(matches!(e, MemError::Io(_)));
    assert_eq!(e.message(), "io: gone");
}

#[test]
fn channel_coin_v3_round_trips() {
    let mut c = channel("aa");
    c.memory_weight_seconds = 77;
    c.pin_epoch_span = 2;
    c.timelock_sealed_frames = Some(1);
    let text = c.serialize_text();
    assert!(text.starts_with("ITS-CHANNEL-COIN/3\n"));
    assert!(text.contains("memory_bytes: 0\n"));
    assert!(text.contains("memory_weight_seconds: 77\n"));
    assert!(text.contains("timelock_sealed_frames: 1\n"));
    assert!(!text.contains("timelock_epoch_span"));
    assert_eq!(ChannelCoinManifest::parse_text(&text).unwrap(), c);
    let v3 = "ITS-CHANNEL-COIN/3\nroom_wire_pk: bb\nchain_root: 01\nmemory_weight_seconds: 5\n";
    let p = ChannelCoinManifest::parse_text(v3).unwrap();
    assert_eq!(p.memory_weight_seconds, 5);
    assert_eq!(p.room_wire_pk, "bb");
    match ChannelCoinManifest::parse_text("ITS-CHANNEL-COIN/4\nroom_wire_pk: bb\nchain_root: 01\n") {
        Err(MemError::Coin(m)) => assert_eq!(m, "missing ITS-COIN/1, ITS-CHANNEL-COIN/2 or ITS-CHANNEL-COIN/3"),
        _ => panic!("expected a coin error"),
    }
    match ChannelCoinManifest::parse_text("ITS-CHANNEL-COIN/3\nroom_wire_pk: bb\nchain_root: 01\nmemory_weight_seconds: x\n") {
        Err(MemError::Coin(m)) => assert_eq!(m, "memory_weight_seconds"),
        _ => panic!("expected a coin error"),
    }
}

#[test]
fn base64_decodes_only_canonical_text() {
    assert_eq!(from_base64("QQ==").unwrap(), b"A".to_vec());
    assert!(from_base64("QR==").is_err());
    assert!(from_base64("QQ=").is_err());
    assert!(from_base64("QQ").is_err());
    assert_eq!(from_base64(&to_base64(b"any bytes")).unwrap(), b"any bytes".to_vec());
}

#[test]
fn v3_keys_are_ignored_before_v3() {
    let v1 = "ITS-COIN/1\nroom_wire_pk: bb\nchain_root: 01\npin_epoch_span: x\nmemory_weight_seconds: 9\n";
    let p = ChannelCoinManifest::parse_text(v1).unwrap();
    assert_eq!(p.pin_epoch_span, 0);
    assert_eq!(p.memory_weight_seconds, 0);
    let v2 = "ITS-CHANNEL-COIN/2\nroom_wire_pk: bb\nchain_root: 01\ntimelock_sealed_frames: 4\n";
    assert_eq!(ChannelCoinManifest::parse_text(v2).unwrap().timelock_sealed_frames, None);
    let v3 = "ITS-CHANNEL-COIN/3\nroom_wire_pk: bb\nchain_root: 01\ntimelock_sealed_frames: 4\n";
    assert_eq!(ChannelCoinManifest::parse_text(v3).unwrap().timelock_sealed_frames, Some(4));
}
