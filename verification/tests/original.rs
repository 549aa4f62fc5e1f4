use base64::Engine;
use std::path::PathBuf;

use its_memory::blind::{shard_assignment_id, DEFAULT_NETWORK_SALT};
use its_memory::coin::{coin_root_material, pin_span_metrics, sss_total_bytes};
use its_memory::epoch_map::EpochMap;
use its_memory::fetch::{filter_pins, FetchOptions};
use its_memory::host::contrib_fp;
use its_memory::room_timelock::timelock_unlock_from_text;
use its_memory::store::pin_from_wire;
use its_memory::wire::{room_id_fingerprint, wire_identity, GdirReceipt, MemoryPin};
use its_memory::witness::pin_set_hash;

#[test]
fn coin_root_material_deterministic() {
    let a = coin_root_material("aa".repeat(64).as_str());
    let b = coin_root_material("aa".repeat(64).as_str());
    assert_eq!(a, b);
    assert!(a.starts_with(b"ITS-COIN-sss-root-v1"));
}

#[test]
fn pin_span_metrics_from_pins() {
    let pins = vec![
        MemoryPin {
            room_wire_pk: "aa".repeat(32),
            pool_epoch: 3,
            wire_b64: String::new(),
            seq_hint: None,
            wire_hash: "a".repeat(64),
        },
        MemoryPin {
            room_wire_pk: "aa".repeat(32),
            pool_epoch: 11,
            wire_b64: String::new(),
            seq_hint: None,
            wire_hash: "b".repeat(64),
        },
    ];
    let (epoch_span, _) = pin_span_metrics(&pins, &Vec::new());
    assert_eq!(epoch_span, 8);
}

#[test]
fn sss_total_bytes_aligns() {
    assert_eq!(sss_total_bytes(1), 16);
    assert_eq!(sss_total_bytes(16), 16);
    assert_eq!(sss_total_bytes(17), 32);
}

#[test]
fn round_trip_epoch_map() {
    let map = EpochMap::new(1000, 1_700_000_000);
    let epoch = 42;
    let unix = map.pool_epoch_to_unix(epoch);
    assert_eq!(map.unix_to_pool_epoch(unix), epoch);
}

#[test]
fn parse_routing_interval() {
    let cfg = "[pool]\ntransport_mode = \"pool\"\nepoch_interval_ms = 250\n";
    let map = EpochMap::from_env_and_options(Some(cfg), None, None, None).unwrap();
    assert_eq!(map.interval_ms, 250);
}

#[test]
fn parse_ymd_date() {
    let unix = EpochMap::parse_date_to_unix("2024-01-01").unwrap();
    assert_eq!(unix, 1_704_067_200);
}

fn pin_at(epoch: u64, seq: Option<u64>, wire: &[u8]) -> MemoryPin {
    let mut p = pin_from_wire("aa".repeat(64).as_str(), epoch, wire).unwrap();
    p.seq_hint = seq;
    p
}

fn fetch_opts(
    from_epoch: u64,
    to_epoch: Option<u64>,
    from_seq_hint: Option<u64>,
    limit: Option<usize>,
) -> FetchOptions {
    FetchOptions {
        room_wire_pk: "aa".repeat(64),
        out_dir: PathBuf::from("/tmp/out"),
        from_epoch,
        to_epoch,
        from_seq_hint,
        limit,
        filter_pk: None,
        filter_sk: None,
        mirror_dir: None,
    }
}

#[test]
fn filter_epoch_window_and_limit() {
    let pins = vec![
        pin_at(1, Some(1), b"a"),
        pin_at(2, Some(2), b"b"),
        pin_at(3, Some(3), b"c"),
        pin_at(4, Some(4), b"d"),
    ];
    let opts = fetch_opts(2, Some(3), None, None);
    let got = filter_pins(pins, &opts);
    assert_eq!(got.len(), 2);
    assert_eq!(got[0].pool_epoch, 2);
    assert_eq!(got[1].pool_epoch, 3);
}

#[test]
fn filter_seq_hint_and_latest_limit() {
    let pins = vec![
        pin_at(1, Some(1), b"a"),
        pin_at(2, Some(2), b"b"),
        pin_at(3, Some(3), b"c"),
        pin_at(4, Some(4), b"d"),
        pin_at(5, None, b"skip"),
    ];
    let opts = fetch_opts(0, None, Some(3), Some(2));
    let got = filter_pins(pins, &opts);
    assert_eq!(got.len(), 2);
    assert_eq!(got[0].pool_epoch, 3);
    assert_eq!(got[1].pool_epoch, 4);
}

#[test]
fn gdir_receipt_has_no_room_field() {
    let text = GdirReceipt {
        contrib_fp: "abcd1234ef567890".into(),
        epoch: 1,
        op: "sync".into(),
        byte_span: 99,
    }
    .serialize_text();
    assert!(!text.contains("room_wire_pk"));
    assert!(text.contains("ITS-GDIR-RECEIPT/1"));
}

#[test]
fn contrib_fp_stable() {
    let secret = [7u8; 32];
    let fp1 = contrib_fp(&secret);
    let fp2 = contrib_fp(&secret);
    assert_eq!(fp1, fp2);
    assert_eq!(fp1.len(), 16);
}

#[test]
fn timelock_unlock_from_room_toml() {
    let text = "timelock_bundle: /path/to/bundle.its\ntimelock_unlock_after_epochs: 50\nvalid_from_epoch: 100\n";
    assert_eq!(timelock_unlock_from_text(text), Some(150));
}

#[test]
fn no_timelock_without_bundle() {
    let text = "timelock_unlock_after_epochs: 50\nvalid_from_epoch: 100\n";
    assert_eq!(timelock_unlock_from_text(text), None);
}

#[test]
fn pin_roundtrip() {
    let wire = b"wire";
    let pin = MemoryPin {
        room_wire_pk: "aa".repeat(32),
        pool_epoch: 7,
        wire_b64: base64::engine::general_purpose::STANDARD.encode(wire),
        seq_hint: Some(2),
        wire_hash: wire_identity(wire),
    };
    let parsed = MemoryPin::parse_text(&pin.serialize_text()).unwrap();
    assert_eq!(parsed, pin);
}

#[test]
fn room_id_fp_truncates() {
    assert_eq!(room_id_fingerprint("abcd1234ef567890abcd1234ef567890"), "abcd1234ef567890");
}

#[test]
fn pin_set_hash_stable() {
    let pins = vec![
        MemoryPin {
            room_wire_pk: "aa".repeat(32),
            pool_epoch: 1,
            wire_b64: String::new(),
            seq_hint: None,
            wire_hash: "c".repeat(64),
        },
        MemoryPin {
            room_wire_pk: "aa".repeat(32),
            pool_epoch: 2,
            wire_b64: String::new(),
            seq_hint: None,
            wire_hash: "a".repeat(64),
        },
    ];
    assert_eq!(pin_set_hash(&pins), pin_set_hash(&pins));
}

#[test]
fn shard_id_deterministic() {
    let a = shard_assignment_id(7, "abcd1234", DEFAULT_NETWORK_SALT);
    let b = shard_assignment_id(7, "abcd1234", DEFAULT_NETWORK_SALT);
    assert_eq!(a, b);
    assert_eq!(a.len(), 32);
}
