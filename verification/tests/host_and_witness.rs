use its_memory::error::MemError;
use its_memory::host::{
    contrib_fp, host_secret_from_bytes, hosted_seconds, room_host_status, touch_gdir_contrib,
    touch_room_pin, touch_room_published, HostLedger,
};
use its_memory::wire::MemoryPin;
use its_memory::witness::{
    count_quorum_witnesses, make_witness, pin_set_hash, require_quorum_met, MemoryWitness,
};

fn pin(hash: &str) -> MemoryPin {
    MemoryPin {
        room_wire_pk: "aa".into(),
        pool_epoch: 1,
        wire_b64: String::new(),
        seq_hint: None,
        wire_hash: hash.into(),
    }
}

fn witness(fp: &str, root: &str, hash: &str) -> MemoryWitness {
    MemoryWitness {
        room_wire_pk: "aa".into(),
        chain_root: root.into(),
        pin_set_hash: hash.into(),
        witness_fp: fp.into(),
        epoch: 0,
    }
}

#[test]
fn ledger_counts_pins_per_room() {
    let mut l = HostLedger::default();
    touch_room_pin(&mut l, " AA ", 10, 100);
    touch_room_pin(&mut l, "aa", 5, 120);
    touch_room_pin(&mut l, "bb", 1, 130);
    assert_eq!(l.rooms.len(), 2);
    let a = room_host_status(&l, "aa").unwrap();
    assert_eq!((a.first_seen, a.last_seen, a.pin_count, a.memory_bytes), (100, 120, 2, 15));
    assert_eq!(a.first_published, None);
    assert!(room_host_status(&l, "cc").is_none());
    assert_eq!(hosted_seconds(&l, "aa", 500), 0);
}

#[test]
fn publication_starts_hosting_once() {
    let mut l = HostLedger::default();
    touch_room_pin(&mut l, "aa", 10, 100);
    touch_room_published(&mut l, "aa", 7, 200);
    touch_room_published(&mut l, "aa", u64::MAX, 300);
    let a = room_host_status(&l, "aa").unwrap();
    assert_eq!(a.first_published, Some(200));
    assert_eq!(a.last_seen, 300);
    assert_eq!(a.memory_bytes, u64::MAX);
    assert_eq!(hosted_seconds(&l, "AA", 260), 60);
    assert_eq!(hosted_seconds(&l, "aa", 150), 0);
    touch_room_published(&mut l, "new", 3, 50);
    let n = room_host_status(&l, "new").unwrap();
    assert_eq!((n.pin_count, n.memory_bytes, n.first_published), (0, 3, Some(50)));
}

#[test]
fn gdir_contribution_times() {
    let mut l = HostLedger::default();
    touch_gdir_contrib(&mut l, 10);
    touch_gdir_contrib(&mut l, 20);
    assert_eq!(l.gdir_first_seen, Some(10));
    assert_eq!(l.gdir_last_seen, Some(20));
}

#[test]
fn host_secret_and_fingerprint() {
    let mut secret = vec![0u8; 32];
    secret[0] = 0xab;
    secret[7] = 0x01;
    assert_eq!(contrib_fp(&secret), "ab00000000000001");
    assert_eq!(host_secret_from_bytes(secret.clone()).unwrap(), secret);
    match host_secret_from_bytes(vec![1, 2, 3]) {
        Err(MemError::Store(m)) => assert_eq!(m, "host.secret must be 32 bytes"),
        _ => panic!("expected a store error"),
    }
}

#[test]
fn pin_set_hash_exact_and_order_free() {
    let a = vec![pin(&"c".repeat(64)), pin(&"a".repeat(64))];
    let b = vec![pin(&"a".repeat(64)), pin(&"c".repeat(64))];
    assert_eq!(pin_set_hash(&a), "183c2bdb753b4dca");
    assert_eq!(pin_set_hash(&b), "183c2bdb753b4dca");
    assert_eq!(pin_set_hash(&Vec::new()), "0000000000000000");
}

#[test]
fn quorum_counts_distinct_hosts() {
    let ws = vec![
        witness("h1", "root", "hash"),
        witness("h2", "root", "hash"),
        witness("h1", "root", "hash"),
        witness("h3", "other", "hash"),
        witness("h4", "root", "nope"),
    ];
    assert_eq!(count_quorum_witnesses(&ws, "root", "hash"), 2);
    assert_eq!(count_quorum_witnesses(&ws, "none", "hash"), 0);
}

#[test]
fn quorum_requirement() {
    let pins = vec![pin("01")];
    let h = pin_set_hash(&pins);
    let ws = vec![witness("h1", "root", &h), witness("h2", "root", &h)];
    assert!(require_quorum_met(&ws, "root", &pins, 0).is_ok());
    assert!(require_quorum_met(&ws, "root", &pins, 2).is_ok());
    match require_quorum_met(&ws, "root", &pins, 3) {
        Err(MemError::Coin(m)) => assert_eq!(
            m,
            "quorum not met: need 3 distinct witness_fp, got 2 (run its-memory witness on peer hosts)"
        ),
        _ => panic!("expected an unmet quorum"),
    }
}

#[test]
fn witness_needs_a_fingerprint() {
    let pins = vec![pin("01")];
    match make_witness("aa", "root", &pins, "", 5) {
        Err(MemError::Coin(m)) => assert_eq!(m, "witness_fp unavailable"),
        _ => panic!("expected a refusal"),
    }
    let w = make_witness(" AA", "root", &pins, "h1", 5).unwrap();
    assert_eq!(w.room_wire_pk, "aa");
    assert_eq!(w.pin_set_hash, pin_set_hash(&pins));
    assert_eq!(w.epoch, 5);
}

#[test]
fn storing_pins_never_starts_hosting() {
    let mut l = HostLedger::default();
    touch_room_published(&mut l, "aa", 1, 100);
    let before = hosted_seconds(&l, "aa", 400);
    touch_room_pin(&mut l, "aa", 5, 200);
    touch_room_pin(&mut l, "bb", 5, 200);
    assert_eq!(hosted_seconds(&l, "aa", 400), before);
    assert_eq!(before, 300);
    assert_eq!(hosted_seconds(&l, "bb", 400), 0);
}
