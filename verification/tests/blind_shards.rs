use its_memory::blind::{blind_contrib_bytes, blind_shard_of_wire};
use its_memory::error::MemError;
use its_memory::store::pin_from_wire;
use its_memory::wire::BlindShard;

#[test]
fn raw_wire_becomes_a_whole_shard() {
    let s = blind_shard_of_wire(b"wire", 7, "sid").unwrap();
    assert_eq!(s.shard_id, "sid");
    assert_eq!(s.epoch, 7);
    assert_eq!(s.wire_b64, "d2lyZQ==");
    assert_eq!(s.wire_hash, "77697265");
    assert_eq!(blind_contrib_bytes(&s), 8);
}

#[test]
fn pin_text_gives_its_fields() {
    let pin = pin_from_wire("room", 42, b"xy").unwrap();
    let text = pin.serialize_text();
    let s = blind_shard_of_wire(format!("  {text}").as_bytes(), 3, "sid").unwrap();
    assert_eq!(s.epoch, 42);
    assert_eq!(s.wire_b64, pin.wire_b64);
    assert_eq!(s.wire_hash, pin.wire_hash);
    assert_eq!(s.shard_id, "sid");
    assert!(!s.serialize_text().contains("room_wire_pk:"));
}

#[test]
fn shard_text_takes_the_new_id_and_round_trips() {
    let shard = BlindShard { shard_id: "old".into(), epoch: 9, wire_b64: "AA==".into(), wire_hash: "00".into() };
    let text = shard.serialize_text();
    assert_eq!(text, "ITS-MEMORY-SHARD/1\nshard_id: old\nepoch: 9\nwire_hash: 00\nwire_b64: AA==\n");
    assert_eq!(BlindShard::parse_text(&text).unwrap(), shard);
    let s = blind_shard_of_wire(text.as_bytes(), 1, "new").unwrap();
    assert_eq!(s.shard_id, "new");
    assert_eq!(s.epoch, 9);
    match blind_shard_of_wire(b"ITS-MEMORY-SHARD/1\nshard_id: a\nepoch: x\n", 1, "n") {
        Err(MemError::Wire(m)) => assert_eq!(m, "shard epoch"),
        _ => panic!("expected a wire error"),
    }
    match BlindShard::parse_text("ITS-MEMORY-SHARD/1\nepoch: 1\n") {
        Err(MemError::Wire(m)) => assert_eq!(m, "incomplete shard"),
        _ => panic!("expected a wire error"),
    }
    let tiny = BlindShard { shard_id: "a".into(), epoch: 0, wire_b64: String::new(), wire_hash: String::new() };
    assert_eq!(blind_contrib_bytes(&tiny), 1);
}
