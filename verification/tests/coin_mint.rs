use std::path::PathBuf;

use its_memory::coin::{
    build_coin_payload, coin_chain_request, coin_root_material, mint_coin, pin_span_metrics,
    validate_coin, validation_mint_options, MintOptions,
};
use its_memory::error::MemError;
use its_memory::store::pin_from_wire;
use its_memory::wire::{ChannelCoinManifest, MemoryPin};

fn options(pk: &str, keys: bool, require_published: bool) -> MintOptions {
    MintOptions {
        room_wire_pk: pk.to_string(),
        pin_dir: None,
        room_id: None,
        decrypt_pk: if keys { Some(PathBuf::from("pk")) } else { None },
        decrypt_sk: if keys { Some(PathBuf::from("sk")) } else { None },
        quorum_replicas: Some(2),
        ssc_out: None,
        require_published,
        registry_visible: true,
        timelock_unlock_epoch: None,
    }
}

fn two_pins() -> Vec<MemoryPin> {
    let a = pin_from_wire("AA", 3, b"wire").unwrap();
    let mut b = pin_from_wire("aa", 5, b"xy").unwrap();
    b.seq_hint = Some(4);
    vec![a, b]
}

fn mint(
    o: &MintOptions,
    pins: &Vec<MemoryPin>,
    frames: &Vec<Option<String>>,
    hosted: u64,
    ssc: &str,
    valid: bool,
    fp: &str,
) -> Result<ChannelCoinManifest, MemError> {
    mint_coin(o, pins, frames, hosted, &vec![None; pins.len()], &vec![true; pins.len()], 1000, ssc, valid, fp)
}

const SSC: &str = "sss chain\n---\nhex: 01 02 ab\n";

fn coin_err(r: Result<ChannelCoinManifest, MemError>) -> String {
    match r {
        Err(MemError::Coin(m)) => m,
        Err(e) => panic!("unexpected error {}", e.message()),
        Ok(_) => panic!("unexpected success"),
    }
}

#[test]
fn mint_assembles_the_coin() {
    let pins = two_pins();
    let frames = vec![Some("seq: 9\nroom_id: abcd1234ef567890ffff\n".to_string()), None];
    let m = mint(&options(" AA ", true, false), &pins, &frames, 30, SSC, true, "feedfacefeedface")
        .unwrap();
    assert_eq!(m.room_wire_pk, "aa");
    assert_eq!(m.chain_root, "0102ab");
    assert_eq!(m.frame_count, 2);
    assert_eq!(m.last_seq, 9);
    assert_eq!(m.last_pool_epoch, 5);
    assert_eq!(m.memory_bytes, 6);
    assert_eq!(m.hosted_seconds, 30);
    assert_eq!(m.room_id_fp, "abcd1234ef567890");
    assert_eq!(m.quorum_replicas, Some(2));
    assert!(m.registry_visible);
    assert_eq!(m.host_fp.as_deref(), Some("feedfacefeedface"));
}

#[test]
fn mint_without_keys_ignores_frames() {
    let pins = two_pins();
    let frames = vec![Some("seq: 9\nroom_id: abcd\n".to_string()), None];
    let m = mint(&options("aa", false, false), &pins, &frames, 0, SSC, true, "f").unwrap();
    assert_eq!(m.last_seq, 4);
    assert_eq!(m.room_id_fp, "0000000000000000");
}

#[test]
fn mint_refusals() {
    let none: Vec<MemoryPin> = Vec::new();
    assert_eq!(coin_err(mint(&options("aa", false, false), &none, &Vec::new(), 0, SSC, true, "f")), "no pins to mint");
    assert_eq!(
        coin_err(mint(&options("aa", false, true), &none, &Vec::new(), 0, SSC, true, "f")),
        "no published pins to mint (run its-memory publish-pins first)"
    );
    let pins = two_pins();
    let frames = vec![None, None];
    assert_eq!(
        coin_err(mint(&options("aa", false, false), &pins, &frames, 0, "hex: 00\n", true, "f")),
        "missing link_0 in .ssc"
    );
    assert_eq!(
        coin_err(mint(&options("aa", false, false), &pins, &frames, 0, "---\nhex:   \n", true, "f")),
        "empty link_0 hex in .ssc"
    );
    assert_eq!(
        coin_err(mint(&options("aa", false, false), &pins, &frames, 0, SSC, false, "f")),
        "sss_chain validate failed after mint"
    );
    let mut bad = two_pins();
    bad[1].wire_b64 = "!!".to_string();
    match mint(&options("aa", false, false), &bad, &frames, 0, SSC, true, "f") {
        Err(MemError::Wire(m)) => assert!(m.starts_with("wire_b64: ")),
        _ => panic!("expected a wire error"),
    }
}

#[test]
fn chain_request_for_a_mint() {
    let pins = two_pins();
    let q = coin_chain_request(&options(" AA", false, false), &pins, &vec![false, false]).unwrap();
    assert_eq!(q.root_material, coin_root_material("aa"));
    assert_eq!(q.total_bytes, 16);
    assert_eq!(q.link_byte_len, 16);
    let mut root = b"ITS-COIN-sss-root-v1".to_vec();
    root.push(0);
    root.extend_from_slice(b"aa");
    assert_eq!(q.root_material, root);
}

#[test]
fn payload_of_empty_wires_is_the_marker() {
    let pins = vec![pin_from_wire("aa", 0, b"").unwrap()];
    assert_eq!(build_coin_payload(&pins).unwrap(), b"ITS-COIN-empty".to_vec());
    assert_eq!(build_coin_payload(&two_pins()).unwrap(), b"wirexy".to_vec());
}

#[test]
fn validation_compares_root_frames_and_memory() {
    let pins = two_pins();
    let frames = vec![None, None];
    let m = mint(&options("aa", false, false), &pins, &frames, 0, SSC, true, "f").unwrap();
    assert!(validate_coin(&m, &m.clone()).is_ok());
    let mut other = m.clone();
    other.chain_root = "ff".into();
    match validate_coin(&m, &other) {
        Err(MemError::Coin(s)) => assert_eq!(s, "chain_root mismatch: expected 0102ab got ff"),
        _ => panic!("expected a mismatch"),
    }
    let mut other = m.clone();
    other.frame_count = 1;
    assert!(matches!(validate_coin(&m, &other), Err(MemError::Coin(s)) if s == "frame_count mismatch"));
    let mut other = m.clone();
    other.memory_bytes = 1;
    assert!(matches!(validate_coin(&m, &other), Err(MemError::Coin(s)) if s == "memory_bytes mismatch"));
    let mut zero = m.clone();
    zero.memory_bytes = 0;
    assert!(validate_coin(&zero, &m).is_ok());
    let o = validation_mint_options(&m, None, None, None);
    assert!(o.require_published);
    assert_eq!(o.quorum_replicas, Some(2));
}

#[test]
fn spans_of_pins_and_publications() {
    let pins = two_pins();
    assert_eq!(pin_span_metrics(&pins, &vec![40, 10, 25]), (2, 30));
    assert_eq!(pin_span_metrics(&pins, &vec![40]), (2, 0));
    assert_eq!(pin_span_metrics(&Vec::new(), &Vec::new()), (0, 0));
}

#[test]
fn mint_states_spans_weight_and_timelock() {
    let pins = two_pins();
    let frames = vec![None, None];
    let published = vec![Some(100), Some(400)];
    let mut o = options("aa", false, false);
    let m = mint_coin(&o, &pins, &frames, 0, &published, &vec![true, true], 1000, SSC, true, "f").unwrap();
    assert_eq!(m.pin_epoch_span, 2);
    assert_eq!(m.message_hosted_span_seconds, 300);
    assert_eq!(m.memory_weight_seconds, 900 + 600);
    assert_eq!(m.timelock_epoch_span, None);
    assert_eq!(m.timelock_sealed_frames, None);
    assert!(m.serialize_text().starts_with("ITS-CHANNEL-COIN/3\n"));
    o.timelock_unlock_epoch = Some(4);
    let t = mint_coin(&o, &pins, &frames, 0, &published, &vec![true, true], 1000, SSC, true, "f").unwrap();
    assert_eq!(t.memory_weight_seconds, 600);
    assert_eq!(t.timelock_sealed_frames, Some(1));
    assert_eq!(t.timelock_epoch_span, Some(1));
    let single = mint_coin(&options("aa", false, false), &pins, &frames, 0, &vec![Some(100), None], &vec![true, false], 1000, SSC, true, "f")
        .unwrap();
    assert_eq!(single.message_hosted_span_seconds, 0);
    assert_eq!(single.memory_weight_seconds, 900);
}

#[test]
fn validation_compares_spans() {
    let pins = two_pins();
    let frames = vec![None, None];
    let m = mint_coin(&options("aa", false, false), &pins, &frames, 0, &vec![Some(1), Some(5)], &vec![true, true], 9, SSC, true, "f").unwrap();
    let mut other = m.clone();
    other.pin_epoch_span = 7;
    assert!(matches!(validate_coin(&m, &other), Err(MemError::Coin(s)) if s == "pin_epoch_span mismatch"));
    let mut other = m.clone();
    other.message_hosted_span_seconds = 1;
    assert!(matches!(validate_coin(&m, &other), Err(MemError::Coin(s)) if s == "message_hosted_span_seconds mismatch"));
    let mut unstated = m.clone();
    unstated.pin_epoch_span = 0;
    unstated.message_hosted_span_seconds = 0;
    assert!(validate_coin(&unstated, &other).is_ok());
}

#[test]
fn required_publication_is_enforced() {
    let pins = two_pins();
    let frames = vec![None, None];
    let none = vec![None, None];
    let refused = mint_coin(&options("aa", false, true), &pins, &frames, 0, &none, &vec![false, false], 1, SSC, true, "f");
    assert_eq!(coin_err(refused), "no published pins to mint (run its-memory publish-pins first)");
    match coin_chain_request(&options("aa", false, true), &pins, &vec![false, false]) {
        Err(MemError::Coin(m)) => assert_eq!(m, "no published pins to mint (run its-memory publish-pins first)"),
        _ => panic!("expected a refusal"),
    }
    assert!(coin_chain_request(&options("aa", false, true), &pins, &vec![false, true]).is_ok());
    assert!(mint_coin(&options("aa", false, true), &pins, &frames, 0, &none, &vec![true, false], 1, SSC, true, "f").is_ok());
    assert!(mint_coin(&options("aa", false, false), &pins, &frames, 0, &none, &vec![false, false], 1, SSC, true, "f").is_ok());
}
