use its_memory::directory::{
    browse, browse_channel, browse_gdir, channel_registry_file_name, discover_quiet_channel,
    gdir_registry_file_name, merge_channel_manifest, merge_gdir_manifest, search, search_channel,
    ChannelSearchFilters, ChannelSortKey,
    GdirSortKey, SortOrder,
};
use its_memory::error::MemError;
use its_memory::wire::{ChannelCoinManifest, GdirCoinManifest};

fn coin(pk: &str, frames: u64, memory: u64, visible: bool) -> ChannelCoinManifest {
    ChannelCoinManifest {
        room_wire_pk: pk.to_string(),
        room_id_fp: "0000000000000000".to_string(),
        chain_root: format!("root-{pk}"),
        frame_count: frames,
        last_seq: 0,
        last_pool_epoch: frames * 10,
        memory_bytes: memory,
        hosted_seconds: memory / 2,
        registry_visible: visible,
        quorum_replicas: None,
        host_fp: None,
        pin_epoch_span: 0,
        message_hosted_span_seconds: 0,
        memory_weight_seconds: 0,
        timelock_epoch_span: None,
        timelock_sealed_frames: None,
    }
}

fn gcoin(fp: &str, ops: u64, bytes: u64) -> GdirCoinManifest {
    GdirCoinManifest {
        contrib_fp: fp.to_string(),
        chain_root: "r".to_string(),
        contrib_ops: ops,
        contrib_bytes: bytes,
        contrib_seconds: 0,
    }
}

fn pks(v: &[ChannelCoinManifest]) -> Vec<String> {
    v.iter().map(|c| c.room_wire_pk.clone()).collect()
}

#[test]
fn sort_names_parse() {
    assert_eq!(SortOrder::parse("ASC").unwrap(), SortOrder::Asc);
    assert_eq!(SortOrder::parse("high").unwrap(), SortOrder::Desc);
    assert_eq!(SortOrder::default(), SortOrder::Desc);
    assert_eq!(ChannelSortKey::parse("storage").unwrap(), ChannelSortKey::MemoryBytes);
    assert_eq!(ChannelSortKey::parse("mirror_listed_seconds").unwrap(), ChannelSortKey::HostedSeconds);
    assert_eq!(GdirSortKey::parse("bytes").unwrap(), GdirSortKey::ContribBytes);
    match SortOrder::parse("sideways") {
        Err(MemError::Usage(m)) => assert_eq!(m, "unknown sort order: sideways (asc|desc)"),
        _ => panic!("expected a usage error"),
    }
    match ChannelSortKey::parse("Frames") {
        Err(MemError::Usage(m)) => assert_eq!(
            m,
            "unknown channel sort key: Frames (frame_count|last_epoch|memory_bytes|memory_weight_seconds|hosted_seconds)"
        ),
        _ => panic!("expected a usage error"),
    }
    match GdirSortKey::parse("x") {
        Err(MemError::Usage(m)) => {
            assert_eq!(m, "unknown gdir sort key: x (contrib_ops|contrib_bytes|contrib_seconds)")
        }
        _ => panic!("expected a usage error"),
    }
}

#[test]
fn browse_hides_invisible_and_keeps_first_copy() {
    let entries = vec![
        coin("cc", 5, 0, true),
        coin("aa", 1, 0, true),
        coin("bb", 9, 0, false),
        coin("aa", 7, 0, true),
    ];
    let got = browse_channel(entries, ChannelSortKey::FrameCount, SortOrder::Desc);
    assert_eq!(pks(&got), vec!["cc", "aa"]);
    assert_eq!(got[1].frame_count, 1);
}

#[test]
fn browse_ties_keep_key_order() {
    let entries = vec![coin("zz", 3, 0, true), coin("mm", 3, 0, true), coin("aa", 4, 0, true)];
    let got = browse(entries, ChannelSortKey::FrameCount);
    assert_eq!(pks(&got), vec!["aa", "mm", "zz"]);
}

#[test]
fn quiet_discovery_is_ascending() {
    let entries = vec![coin("a", 3, 0, true), coin("b", 1, 0, true), coin("c", 2, 0, true)];
    let got = discover_quiet_channel(entries);
    assert_eq!(pks(&got), vec!["b", "c", "a"]);
}

#[test]
fn search_applies_every_bound() {
    let entries = vec![
        coin("a", 1, 100, true),
        coin("b", 5, 50, true),
        coin("c", 8, 500, true),
        coin("d", 6, 10, false),
    ];
    let filters = ChannelSearchFilters {
        min_frames: Some(2),
        max_frames: Some(8),
        max_memory_bytes: Some(100),
        max_hosted_seconds: None,
    };
    let got = search_channel(entries, filters, ChannelSortKey::MemoryBytes, SortOrder::Asc);
    assert_eq!(pks(&got), vec!["b"]);
    let all = vec![coin("a", 1, 0, true), coin("b", 5, 0, true), coin("c", 8, 0, true)];
    let got = search(all, 5, ChannelSortKey::FrameCount);
    assert_eq!(pks(&got), vec!["c", "b"]);
}

#[test]
fn gdir_browse_orders_by_metric() {
    let entries = vec![gcoin("x", 2, 10), gcoin("y", 5, 1), gcoin("z", 2, 7)];
    let got = browse_gdir(entries, GdirSortKey::ContribOps, SortOrder::Desc);
    let fps: Vec<String> = got.iter().map(|g| g.contrib_fp.clone()).collect();
    assert_eq!(fps, vec!["y", "x", "z"]);
    let entries = vec![gcoin("x", 2, 10), gcoin("y", 5, 1), gcoin("z", 2, 7)];
    let got = browse_gdir(entries, GdirSortKey::ContribBytes, SortOrder::Asc);
    let fps: Vec<String> = got.iter().map(|g| g.contrib_fp.clone()).collect();
    assert_eq!(fps, vec!["y", "z", "x"]);
}

#[test]
fn registry_file_names() {
    let c = coin("  ABcd ", 1, 0, true);
    assert_eq!(channel_registry_file_name(&c), "abcd.channel.coin.toml");
    assert_eq!(gdir_registry_file_name(&gcoin("f00d", 1, 1)), "f00d.gdir.coin.toml");
}

#[test]
fn merge_keeps_the_newer_entry() {
    let old = coin("aa", 2, 0, true);
    let new = coin("aa", 5, 0, true);
    assert_eq!(merge_channel_manifest(old.clone(), new.clone()).frame_count, 5);
    assert_eq!(merge_channel_manifest(new.clone(), old.clone()).frame_count, 5);
    let mut same_epoch = coin("aa", 2, 0, false);
    same_epoch.last_pool_epoch = new.last_pool_epoch;
    assert_eq!(merge_channel_manifest(same_epoch.clone(), new.clone()).frame_count, 5);
    assert!(merge_channel_manifest(new.clone(), same_epoch).registry_visible);
    let mut a = gcoin("f", 3, 0);
    a.contrib_seconds = 10;
    let b = gcoin("f", 9, 0);
    assert_eq!(merge_gdir_manifest(a.clone(), b.clone()).contrib_ops, 3);
    assert_eq!(merge_gdir_manifest(b.clone(), gcoin("f", 1, 0)).contrib_ops, 9);
}

#[test]
fn memory_weight_is_a_sort_key() {
    assert_eq!(ChannelSortKey::parse("memory_weight_seconds").unwrap(), ChannelSortKey::MemoryWeightSeconds);
    let mut a = coin("a", 1, 0, true);
    a.memory_weight_seconds = 50;
    let mut b = coin("b", 2, 0, true);
    b.memory_weight_seconds = 500;
    let r = browse_channel(vec![a, b], ChannelSortKey::MemoryWeightSeconds, SortOrder::Desc);
    assert_eq!(pks(&r), vec!["b".to_string(), "a".to_string()]);
}

#[test]
fn quiet_room_is_discovered_before_spam_room() {
    let entries = vec![coin("spam-room", 100, 0, true), coin("quiet-room", 2, 0, true)];
    let quiet = discover_quiet_channel(entries.clone());
    assert_eq!(pks(&quiet), vec!["quiet-room".to_string(), "spam-room".to_string()]);
    assert_eq!(quiet, browse_channel(entries.clone(), ChannelSortKey::FrameCount, SortOrder::Asc));
    let hits = search_channel(
        entries.clone(),
        ChannelSearchFilters { max_frames: Some(5), ..Default::default() },
        ChannelSortKey::FrameCount,
        SortOrder::Desc,
    );
    assert_eq!(pks(&hits), vec!["quiet-room".to_string()]);
    assert_eq!(browse(entries.clone(), ChannelSortKey::FrameCount), browse_channel(entries, ChannelSortKey::FrameCount, SortOrder::Desc));
}
