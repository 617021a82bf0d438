//! Direct unit tests for the tracker data structures: trie traversal,
//! suppression ordering, and hardlink promotion bookkeeping.

use oci2squashfs::canonical::CanonicalTarHeader;
use oci2squashfs::tracker::{EmittedPathTracker, HardLinkTracker, WhiteoutTracker};

// ─── WhiteoutTracker ────────────────────────────────────────────────────────

#[test]
fn whiteout_simple_suppresses_exact_path_from_older_layer() {
    let mut wt = WhiteoutTracker::default();
    wt.insert_simple("usr/share/foo".as_bytes(), 2);

    // Layer 1 (older than 2) should be suppressed.
    assert!(wt.is_suppressed("usr/share/foo".as_bytes(), 1));
    // Layer 0 (older than 2) should be suppressed.
    assert!(wt.is_suppressed("usr/share/foo".as_bytes(), 0));
}

#[test]
fn whiteout_simple_does_not_suppress_same_or_newer_layer() {
    let mut wt = WhiteoutTracker::default();
    wt.insert_simple("usr/share/foo".as_bytes(), 2);

    // Layer 2 (same layer) should not be suppressed.
    assert!(!wt.is_suppressed("usr/share/foo".as_bytes(), 2));
    // Layer 3 (newer) should not be suppressed.
    assert!(!wt.is_suppressed("usr/share/foo".as_bytes(), 3));
}

#[test]
fn whiteout_simple_suppresses_children() {
    // A simple whiteout on a directory should suppress all descendants.
    let mut wt = WhiteoutTracker::default();
    wt.insert_simple("home/ubuntu".as_bytes(), 3);

    assert!(wt.is_suppressed("home/ubuntu".as_bytes(), 1));
    assert!(wt.is_suppressed("home/ubuntu/.bashrc".as_bytes(), 1));
    assert!(wt.is_suppressed("home/ubuntu/subdir/file".as_bytes(), 0));
}

#[test]
fn whiteout_simple_does_not_suppress_siblings() {
    let mut wt = WhiteoutTracker::default();
    wt.insert_simple("usr/share/foo".as_bytes(), 2);

    assert!(!wt.is_suppressed("usr/share/bar".as_bytes(), 0));
    assert!(!wt.is_suppressed("usr/share".as_bytes(), 0));
    assert!(!wt.is_suppressed("usr".as_bytes(), 0));
}

#[test]
fn whiteout_opaque_suppresses_children_from_older_layers() {
    let mut wt = WhiteoutTracker::default();
    wt.insert_opaque("etc".as_bytes(), 2);

    assert!(wt.is_suppressed("etc/passwd".as_bytes(), 1));
    assert!(wt.is_suppressed("etc/sub/deep".as_bytes(), 0));
}

#[test]
fn whiteout_opaque_does_not_suppress_directory_itself() {
    // The opaque marker is set directly on the "etc" node, so the directory
    // entry from an older layer is suppressed too; from the same or a newer
    // layer it is not.
    let mut wt = WhiteoutTracker::default();
    wt.insert_opaque("etc".as_bytes(), 2);

    assert!(wt.is_suppressed("etc".as_bytes(), 1));
    assert!(!wt.is_suppressed("etc".as_bytes(), 2));
    assert!(!wt.is_suppressed("etc".as_bytes(), 3));
}

#[test]
fn whiteout_unrelated_paths_not_suppressed() {
    let mut wt = WhiteoutTracker::default();
    wt.insert_simple("a/b/c".as_bytes(), 1);

    assert!(!wt.is_suppressed("x/y/z".as_bytes(), 0));
    assert!(!wt.is_suppressed("a/b/d".as_bytes(), 0));
    assert!(!wt.is_suppressed("a/b".as_bytes(), 0));
}

#[test]
fn whiteout_empty_tracker_suppresses_nothing() {
    let wt = WhiteoutTracker::default();
    assert!(!wt.is_suppressed("foo".as_bytes(), 0));
    assert!(!wt.is_suppressed("a/b/c".as_bytes(), 0));
}

#[test]
fn whiteout_multiple_whiteouts_coexist() {
    let mut wt = WhiteoutTracker::default();
    wt.insert_simple("a".as_bytes(), 2);
    wt.insert_simple("b".as_bytes(), 3);

    assert!(wt.is_suppressed("a".as_bytes(), 1));
    assert!(!wt.is_suppressed("a".as_bytes(), 2));
    assert!(wt.is_suppressed("b".as_bytes(), 2));
    assert!(!wt.is_suppressed("b".as_bytes(), 3));
}

#[test]
fn whiteout_simple_then_opaque_on_ancestor() {
    // Simple whiteout on a file, opaque on its parent directory.
    // Both should suppress independently.
    let mut wt = WhiteoutTracker::default();
    wt.insert_simple("dir/file".as_bytes(), 2);
    wt.insert_opaque("dir".as_bytes(), 3);

    // file suppressed by simple whiteout (layer 2)
    assert!(wt.is_suppressed("dir/file".as_bytes(), 1));
    // other children suppressed by opaque (layer 3)
    assert!(wt.is_suppressed("dir/other".as_bytes(), 2));
    // dir/other not suppressed from layer 3+ (same or newer than opaque)
    assert!(!wt.is_suppressed("dir/other".as_bytes(), 3));
}

#[test]
fn whiteout_overwrite_simple_with_new_layer_index() {
    // If the same path is whited out again in a later layer, the later
    // whiteout should take effect (it overwrites the state).
    let mut wt = WhiteoutTracker::default();
    wt.insert_simple("foo".as_bytes(), 1);

    // Layer 0 should be suppressed by whiteout from layer 1.
    assert!(wt.is_suppressed("foo".as_bytes(), 0));

    // Now insert a newer whiteout at layer 3.
    wt.insert_simple("foo".as_bytes(), 3);

    // Layer 2 should now be suppressed (was not before with layer_index=1).
    assert!(wt.is_suppressed("foo".as_bytes(), 2));
    // Layer 3 (same as new whiteout) should not be suppressed.
    assert!(!wt.is_suppressed("foo".as_bytes(), 3));
}

// ─── EmittedPathTracker ─────────────────────────────────────────────────────

#[test]
fn emitted_tracker_insert_and_contains() {
    let mut et = EmittedPathTracker::default();
    assert!(!et.contains("foo".as_bytes()));
    et.insert("foo".as_bytes());
    assert!(et.contains("foo".as_bytes()));
    assert!(!et.contains("bar".as_bytes()));
}

#[test]
fn emitted_tracker_multiple_paths() {
    let mut et = EmittedPathTracker::default();
    et.insert("a/b/c".as_bytes());
    et.insert("x/y".as_bytes());
    assert!(et.contains("a/b/c".as_bytes()));
    assert!(et.contains("x/y".as_bytes()));
    assert!(!et.contains("a/b".as_bytes()));
}

// ─── HardLinkTracker ────────────────────────────────────────────────────────

#[test]
fn hardlink_tracker_drain_sorted_orders_by_layer_index() {
    let ht = build_tracker_with_deferred(&[
        ("link3", "target3", 3),
        ("link1", "target1", 1),
        ("link2", "target2", 2),
    ]);

    let (deferred, _promotions) = ht.drain_sorted();
    let indices: Vec<usize> = deferred.iter().map(|e| e.layer_index).collect();
    assert_eq!(indices, vec![1, 2, 3], "deferred must be sorted by layer_index ascending");
}

#[test]
fn hardlink_tracker_promotions_sorted_by_layer_index() {
    let mut ht = HardLinkTracker::default();
    ht.record_promotion("alias3".into(), "target".into(), 3);
    ht.record_promotion("alias1".into(), "target".into(), 1);
    ht.record_promotion("alias2".into(), "target".into(), 2);

    let (_deferred, promotions) = ht.drain_sorted();
    let indices: Vec<usize> = promotions.iter().map(|e| e.layer_index).collect();
    assert_eq!(indices, vec![1, 2, 3], "promotions must be sorted by layer_index ascending");
}

#[test]
fn hardlink_tracker_note_suppressed_file_fulfils_pending_promotion() {
    let mut ht = HardLinkTracker::default();

    // Record a promotion first (cross-layer scenario: hardlink seen before target).
    ht.record_promotion("alias".into(), "target".into(), 1);

    // Now note the suppressed file for the target.
    let canonical = dummy_canonical();
    ht.note_suppressed_file("target".into(), canonical, b"content".to_vec());

    let (_deferred, promotions) = ht.drain_sorted();
    assert_eq!(promotions.len(), 1);
    let promo = &promotions[0];
    assert!(promo.file_data.is_some(), "promotion must have file_data after note_suppressed_file");
    let (_hdr, data) = promo.file_data.as_ref().unwrap();
    assert_eq!(data, b"content");
}

#[test]
fn hardlink_tracker_same_layer_suppressed_content_available_for_promotion() {
    let mut ht = HardLinkTracker::default();

    // Note suppressed file first (same-layer: file appears before hardlink in tar).
    let canonical = dummy_canonical();
    ht.note_suppressed_file("target".into(), canonical, b"data".to_vec());

    // Now record promotion — should pick up content immediately.
    ht.record_promotion("alias".into(), "target".into(), 0);

    let (_deferred, promotions) = ht.drain_sorted();
    assert_eq!(promotions.len(), 1);
    assert!(promotions[0].file_data.is_some(), "same-layer content must be attached immediately");
}

#[test]
fn hardlink_tracker_end_layer_clears_suppressed_content() {
    let mut ht = HardLinkTracker::default();

    let canonical = dummy_canonical();
    ht.note_suppressed_file("target".into(), canonical, b"data".to_vec());
    ht.end_layer();

    // After end_layer, new promotions should NOT get the old suppressed content.
    ht.record_promotion("alias".into(), "target".into(), 1);

    let (_deferred, promotions) = ht.drain_sorted();
    assert_eq!(promotions.len(), 1);
    assert!(
        promotions[0].file_data.is_none(),
        "suppressed content must be cleared after end_layer"
    );
}

#[test]
fn hardlink_tracker_multiple_promotions_same_target() {
    let mut ht = HardLinkTracker::default();

    let canonical = dummy_canonical();
    ht.note_suppressed_file("target".into(), canonical, b"shared".to_vec());

    ht.record_promotion("alias1".into(), "target".into(), 0);
    ht.record_promotion("alias2".into(), "target".into(), 0);

    let (_deferred, promotions) = ht.drain_sorted();
    assert_eq!(promotions.len(), 2);
    // Both should have file_data since they share the same target.
    assert!(promotions[0].file_data.is_some());
    assert!(promotions[1].file_data.is_some());
}

// ─── helpers ────────────────────────────────────────────────────────────────

fn dummy_canonical() -> CanonicalTarHeader {
    let mut hdr = tar::Header::new_ustar();
    hdr.set_entry_type(tar::EntryType::Regular);
    hdr.set_size(0);
    hdr.set_mode(0o644);
    hdr.set_mtime(0);
    hdr.set_uid(0);
    hdr.set_gid(0);
    hdr.set_path("placeholder").unwrap();
    hdr.set_cksum();
    CanonicalTarHeader {
        header: *hdr.as_bytes(),
        pax_extensions: vec![],
    }
}

fn build_tracker_with_deferred(entries: &[(&str, &str, usize)]) -> HardLinkTracker {
    let mut ht = HardLinkTracker::default();
    for (link, target, layer) in entries {
        let canonical = dummy_canonical();
        ht.record((*link).into(), (*target).into(), *layer, canonical);
    }
    ht
}
