use its_memory::error::MemError;
use its_memory::gdir::{
    build_gdir_payload, gdir_chain_request, gdir_root_material, has_blind_or_infra_receipt,
    has_gdir_receipt, mint_gdir_coin, mint_gdir_coin_options, select_receipts,
    validate_gdir_coin, MintGdirOptions,
};
use its_memory::wire::{GdirCoinManifest, GdirReceipt};

fn receipt(fp: &str, epoch: u64, op: &str, span: u64) -> GdirReceipt {
    GdirReceipt { contrib_fp: fp.into(), epoch, op: op.into(), byte_span: span }
}

const SSC: &str = "---\nhex: beef\n";

#[test]
fn own_receipts_in_epoch_order() {
    let all = vec![
        receipt("me", 5, "sync", 1),
        receipt("other", 1, "sync", 1),
        receipt("me", 2, "mirror", 9),
        receipt("me", 2, "route", 3),
    ];
    let got = select_receipts(all, "me");
    let keys: Vec<(u64, u64)> = got.iter().map(|r| (r.epoch, r.byte_span)).collect();
    assert_eq!(keys, vec![(2, 3), (2, 9), (5, 1)]);
}

#[test]
fn receipt_kinds() {
    let only_mirror = vec![receipt("me", 1, "mirror", 1)];
    assert!(has_gdir_receipt(&only_mirror));
    assert!(!has_gdir_receipt(&Vec::new()));
    assert!(!has_blind_or_infra_receipt(&only_mirror));
    assert!(has_blind_or_infra_receipt(&vec![receipt("me", 1, "mirror", 1), receipt("me", 2, "blind", 1)]));
}

#[test]
fn gdir_payload_bytes() {
    let rs = vec![receipt("fp", 1, "sync", 99), receipt("fp", 2, "route", 7)];
    assert_eq!(build_gdir_payload(&rs), b"fp|1|sync|99\0fp|2|route|7\0".to_vec());
    assert_eq!(build_gdir_payload(&Vec::new()), b"ITS-GDIR-empty".to_vec());
    let mut root = b"ITS-GDIR-sss-root-v1".to_vec();
    root.push(0);
    root.extend_from_slice(b"fp");
    assert_eq!(gdir_root_material("fp"), root);
}

#[test]
fn gdir_mint_counts_contributions() {
    let rs = vec![receipt("fp", 1, "sync", 99), receipt("fp", 2, "mirror", 1)];
    let c = mint_gdir_coin(&rs, "fp", SSC, true, Some(100), 160).unwrap();
    assert_eq!(
        c,
        GdirCoinManifest {
            contrib_fp: "fp".into(),
            chain_root: "beef".into(),
            contrib_ops: 2,
            contrib_bytes: 100,
            contrib_seconds: 60,
        }
    );
    let c = mint_gdir_coin(&rs, "fp", SSC, true, None, 160).unwrap();
    assert_eq!(c.contrib_seconds, 0);
    let q = gdir_chain_request(&MintGdirOptions { require_blind_or_infra: false }, &rs, "fp").unwrap();
    assert_eq!(q.total_bytes, 32);
}

#[test]
fn gdir_mint_refusals() {
    match mint_gdir_coin(&Vec::new(), "fp", SSC, true, None, 0) {
        Err(MemError::Coin(m)) => assert_eq!(m, "no gdir receipts to mint"),
        _ => panic!("expected a refusal"),
    }
    let mirror_only = vec![receipt("fp", 1, "mirror", 5)];
    match mint_gdir_coin_options(&MintGdirOptions { require_blind_or_infra: true }, &mirror_only, "fp", SSC, true, None, 0) {
        Err(MemError::Coin(m)) => {
            assert_eq!(m, "GDIR mint requires blind/sync/route receipt (not channel-only mirror ops)")
        }
        _ => panic!("expected a refusal"),
    }
    match mint_gdir_coin(&mirror_only, "fp", SSC, false, None, 0) {
        Err(MemError::Coin(m)) => assert_eq!(m, "sss_chain validate failed for gdir coin"),
        _ => panic!("expected a refusal"),
    }
}

#[test]
fn gdir_validation() {
    let a = GdirCoinManifest {
        contrib_fp: "fp".into(),
        chain_root: "beef".into(),
        contrib_ops: 2,
        contrib_bytes: 1,
        contrib_seconds: 1,
    };
    assert!(validate_gdir_coin(&a, &a.clone()).is_ok());
    let mut b = a.clone();
    b.chain_root = "dead".into();
    assert!(matches!(validate_gdir_coin(&a, &b), Err(MemError::Coin(m)) if m == "gdir chain_root mismatch"));
    let mut b = a.clone();
    b.contrib_ops = 3;
    assert!(matches!(validate_gdir_coin(&a, &b), Err(MemError::Coin(m)) if m == "gdir contrib_ops mismatch"));
}
