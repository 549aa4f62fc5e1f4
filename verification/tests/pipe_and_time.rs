use its_memory::epoch_map::{parse_routing_pool_u64, EpochMap};
use its_memory::error::MemError;
use its_memory::pipe::{
    parse_next_pool_epoch, parse_ssc_link0_hex, parse_wrote_epoch, try_parse_frame_room_id,
    try_parse_frame_seq,
};
use its_memory::room_timelock::timelock_unlock_from_text;
use its_memory::vault::{normalize_pk, ratchet_seed_from_bytes};

fn usage(r: Result<u64, MemError>) -> String {
    match r {
        Err(MemError::Usage(m)) => m,
        _ => panic!("expected a usage error"),
    }
}

#[test]
fn next_epoch_uses_second_smallest() {
    let out = "msg at epoch 9.\nmsg at epoch 4\nmsg at epoch 7\nWrote 3 bytes\nlate at epoch 1\n";
    assert_eq!(parse_next_pool_epoch(out), Some(8));
    assert_eq!(parse_next_pool_epoch("only at epoch 5..\n"), Some(6));
    assert_eq!(parse_next_pool_epoch("nothing here\n"), None);
    assert_eq!(parse_next_pool_epoch(&format!("x at epoch {}\n", u64::MAX)), Some(u64::MAX));
}

#[test]
fn wrote_epoch_is_first_reported() {
    let out = "a at epoch 12\nb at epoch 3\n";
    assert_eq!(parse_wrote_epoch(out), Some(12));
    assert_eq!(parse_wrote_epoch("x at epoch 12 Wrote file\n"), Some(12));
    assert_eq!(parse_wrote_epoch("none\n"), None);
}

#[test]
fn frame_fields() {
    let frame = "room_id:  abc \nseq: 42\nseq: 7\n";
    assert_eq!(try_parse_frame_seq(frame), Some(42));
    assert_eq!(try_parse_frame_room_id(frame), Some("abc".to_string()));
    assert_eq!(try_parse_frame_seq("seq: x\nseq: 3\n"), None);
    assert_eq!(try_parse_frame_room_id("nothing\n"), None);
}

#[test]
fn ssc_first_link() {
    assert_eq!(parse_ssc_link0_hex("head\n---\nhex: 0a 0b\nhex: ff\n").unwrap(), "0a0b");
    assert!(matches!(parse_ssc_link0_hex("hex: 00\n"), Err(MemError::Coin(m)) if m == "missing link_0 in .ssc"));
    assert!(matches!(parse_ssc_link0_hex(" --- \nhex:  \n"), Err(MemError::Coin(m)) if m == "empty link_0 hex in .ssc"));
}

#[test]
fn epoch_map_edges() {
    let m = EpochMap::new(0, 10);
    assert_eq!(m.interval_ms, 1);
    let m = EpochMap::new(250, 100);
    assert_eq!(m.pool_epoch_to_unix(8), 102);
    assert_eq!(m.unix_to_pool_epoch(102), 8);
    assert_eq!(m.unix_to_pool_epoch(50), 0);
    assert_eq!(m.pool_epoch_to_unix(u64::MAX), 18_446_744_073_709_651);
}

#[test]
fn epoch_round_trip_with_whole_seconds() {
    let m = EpochMap::new(2000, 5);
    for e in [0u64, 1, 17, 1000] {
        assert_eq!(m.unix_to_pool_epoch(m.pool_epoch_to_unix(e)), e);
    }
}

#[test]
fn dates_and_their_errors() {
    assert_eq!(EpochMap::parse_date_to_unix(" 1700000000 ").unwrap(), 1_700_000_000);
    assert_eq!(EpochMap::parse_date_to_unix("1970-01-02").unwrap(), 86_400);
    assert_eq!(EpochMap::parse_date_to_unix("2000-02-29").unwrap(), 951_782_400);
    assert_eq!(usage(EpochMap::parse_date_to_unix("")), "invalid unix timestamp: ");
    assert_eq!(usage(EpochMap::parse_date_to_unix("2024/01/01")), "date must be YYYY-MM-DD or unix seconds: 2024/01/01");
    assert_eq!(usage(EpochMap::parse_date_to_unix("y-01-01")), "invalid year in date: y-01-01");
    assert_eq!(usage(EpochMap::parse_date_to_unix("2024--01")), "invalid month in date: 2024--01");
    assert_eq!(usage(EpochMap::parse_date_to_unix("2024-01-x")), "invalid day in date: 2024-01-x");
    assert_eq!(usage(EpochMap::parse_date_to_unix("2024-13-01")), "invalid calendar date: 2024-13-01");
    assert_eq!(usage(EpochMap::parse_date_to_unix("2024-02-30")), "invalid calendar date: 2024-02-30");
    assert_eq!(usage(EpochMap::parse_date_to_unix("2023-02-29")), "invalid calendar date: 2023-02-29");
    assert_eq!(usage(EpochMap::parse_date_to_unix("2024-04-31")), "invalid calendar date: 2024-04-31");
    assert_eq!(usage(EpochMap::parse_date_to_unix("1900-02-29")), "invalid calendar date: 1900-02-29");
    assert_eq!(EpochMap::parse_date_to_unix("2024-02-29").unwrap(), 1_709_164_800);
    assert_eq!(usage(EpochMap::parse_date_to_unix("1969-12-31")), "invalid calendar date: 1969-12-31");
}

#[test]
fn routing_pool_settings() {
    let cfg = "# routing\n[client]\nepoch_interval_ms = 5\n[pool] # here\nepoch_zero_unix=77 # set\nepoch_interval_ms = 250\n";
    assert_eq!(parse_routing_pool_u64(cfg, "epoch_interval_ms"), Some(250));
    assert_eq!(parse_routing_pool_u64(cfg, "epoch_zero_unix"), Some(77));
    assert_eq!(parse_routing_pool_u64(cfg, "missing"), None);
    let m = EpochMap::from_env_and_options(Some(cfg), None, Some("40"), None).unwrap();
    assert_eq!((m.interval_ms, m.epoch_zero_unix), (40, 77));
    let m = EpochMap::from_env_and_options(Some(cfg), Some(9), Some("40"), Some("3")).unwrap();
    assert_eq!((m.interval_ms, m.epoch_zero_unix), (9, 3));
    let m = EpochMap::from_env_and_options(None, None, Some("x"), None).unwrap();
    assert_eq!((m.interval_ms, m.epoch_zero_unix), (100, 0));
}

#[test]
fn timelock_settings() {
    assert_eq!(
        timelock_unlock_from_text("timelock_bundle = \"b\"\ntimelock_unlock_after_epochs = 5\nvalid_from_epoch = 7\n"),
        Some(12)
    );
    assert_eq!(timelock_unlock_from_text("timelock_bundle: x\n"), Some(0));
    assert_eq!(
        timelock_unlock_from_text(&format!("timelock_bundle: x\nvalid_from_epoch: {}\ntimelock_unlock_after_epochs: 1\n", u64::MAX)),
        Some(u64::MAX)
    );
}

#[test]
fn room_keys_and_seeds() {
    assert_eq!(normalize_pk("  AbC1 \n"), "abc1");
    assert_eq!(normalize_pk(&normalize_pk(" XY ")), normalize_pk(" XY "));
    assert_eq!(ratchet_seed_from_bytes(vec![9u8; 32]).unwrap(), vec![9u8; 32]);
    match ratchet_seed_from_bytes(vec![1u8; 5]) {
        Err(MemError::Store(m)) => assert_eq!(m, "ratchet seed must be 32 bytes (got 5)"),
        _ => panic!("expected a store error"),
    }
}
