//! The promises of the trackers, on concrete values.

use oci2squashfs::canonical::CanonicalTarHeader;
use oci2squashfs::tracker::{EmittedPathTracker, HardLinkTracker, WhiteoutTracker};

fn canonical_named(name: &str) -> CanonicalTarHeader {
    let mut hdr = tar::Header::new_ustar();
    hdr.set_entry_type(tar::EntryType::Regular);
    hdr.set_size(0);
    hdr.set_path(name).unwrap();
    hdr.set_cksum();
    CanonicalTarHeader { header: *hdr.as_bytes(), pax_extensions: vec![] }
}

#[test]
fn whiteout_paths_are_normalised_before_lookup() {
    let mut wt = WhiteoutTracker::default();
    wt.insert_simple(b"./usr//lib/", 2);
    assert!(wt.is_suppressed(b"/usr/lib", 1));
    assert!(wt.is_suppressed(b"usr/./lib/x.so", 1));
    assert!(!wt.is_suppressed(b"usr/libexec", 1));
}

#[test]
fn whiteout_each_prefix_suppresses_independently() {
    let mut wt = WhiteoutTracker::default();
    wt.insert_simple(b"a", 1);
    wt.insert_simple(b"a/b", 5);
    // The newer whiteout of "a/b" hides it although "a" was whited out earlier.
    assert!(wt.is_suppressed(b"a/b", 2));
    assert!(wt.is_suppressed(b"a/b/c", 4));
    assert!(!wt.is_suppressed(b"a/b", 5));
    assert!(!wt.is_suppressed(b"a/x", 2));
    assert!(wt.is_suppressed(b"a/x", 0));
}

#[test]
fn whiteout_newer_file_whiteout_under_older_opaque_dir() {
    let mut wt = WhiteoutTracker::default();
    wt.insert_opaque(b"dir", 1);
    wt.insert_simple(b"dir/file", 3);
    assert!(wt.is_suppressed(b"dir/file", 2));
    assert!(!wt.is_suppressed(b"dir/other", 2));
}

#[test]
fn whiteout_opaque_and_simple_act_alike() {
    let mut a = WhiteoutTracker::default();
    let mut b = WhiteoutTracker::default();
    a.insert_opaque(b"d", 4);
    b.insert_simple(b"d", 4);
    a.insert_simple(b"d/e/f", 6);
    b.insert_simple(b"d/e/f", 6);
    for p in [&b"d"[..], b"d/e", b"d/e/f", b"d/e/f/g", b"x"] {
        for l in 0..8 {
            assert_eq!(a.is_suppressed(p, l), b.is_suppressed(p, l));
        }
    }
}

#[test]
fn whiteout_of_root_hides_everything_older_but_not_the_root() {
    let mut wt = WhiteoutTracker::default();
    wt.insert_opaque(b"/", 4);
    assert!(wt.is_suppressed(b"etc/passwd", 3));
    assert!(!wt.is_suppressed(b"etc/passwd", 4));
    // An empty path has no component to hide.
    assert!(!wt.is_suppressed(b"/", 0));
}

#[test]
fn whiteout_names_compare_as_lossy_text() {
    let mut wt = WhiteoutTracker::default();
    // Both bytes are invalid UTF-8 and read as U+FFFD.
    wt.insert_simple(b"dir/\xff", 3);
    assert!(wt.is_suppressed(b"dir/\xfe", 1));
    assert!(!wt.is_suppressed(b"dir/x", 1));
}

#[test]
fn whiteout_never_hides_its_own_or_newer_layer() {
    let mut wt = WhiteoutTracker::default();
    wt.insert_simple(b"x", 2);
    wt.insert_opaque(b"y", 1);
    for p in [&b"x"[..], b"x/a", b"y", b"y/b", b"z"] {
        assert!(!wt.is_suppressed(p, 2));
        assert!(!wt.is_suppressed(p, 7));
    }
}

#[test]
fn emitted_paths_compare_component_wise() {
    let mut et = EmittedPathTracker::default();
    et.insert(b"a//b/");
    assert!(et.contains(b"a/b"));
    assert!(et.contains(b"a/./b"));
    assert!(!et.contains(b"./a/b"));
    assert!(!et.contains(b"/a/b"));
    et.insert(b"a/b");
    et.insert(b"/a/b");
    assert!(et.contains(b"/a/b"));
    assert!(et.contains(b"a/b"));
}

#[test]
fn hardlink_drain_is_stable_and_complete() {
    let mut ht = HardLinkTracker::default();
    ht.record("l2a".into(), "t".into(), 2, canonical_named("x"));
    ht.record("l1a".into(), "t".into(), 1, canonical_named("x"));
    ht.record("l2b".into(), "t".into(), 2, canonical_named("x"));
    ht.record("l0".into(), "t".into(), 0, canonical_named("x"));
    ht.record("l1b".into(), "t".into(), 1, canonical_named("x"));
    let (deferred, promotions) = ht.drain_sorted();
    let links: Vec<Vec<u8>> = deferred.iter().map(|e| e.link_path.clone()).collect();
    let expected: Vec<Vec<u8>> = ["l0", "l1a", "l1b", "l2a", "l2b"].iter().map(|s| s.as_bytes().to_vec()).collect();
    assert_eq!(links, expected);
    assert!(promotions.is_empty());
}

#[test]
fn hardlink_content_reaches_promotion_with_header_and_data() {
    let mut ht = HardLinkTracker::default();
    ht.note_suppressed_file("dir/target".into(), canonical_named("first"), b"one".to_vec());
    // A later note of the same path replaces the buffered content.
    ht.note_suppressed_file("dir//target/".into(), canonical_named("second"), b"two".to_vec());
    ht.record_promotion("alias".into(), "dir/target".into(), 3);
    let (_d, promotions) = ht.drain_sorted();
    let (hdr, data) = promotions[0].file_data.as_ref().unwrap();
    assert_eq!(data, b"two");
    assert_eq!(hdr.path(), b"second".to_vec());
}

#[test]
fn hardlink_note_does_not_overwrite_attached_content() {
    let mut ht = HardLinkTracker::default();
    ht.note_suppressed_file("t".into(), canonical_named("a"), b"first".to_vec());
    ht.record_promotion("alias".into(), "t".into(), 1);
    ht.note_suppressed_file("t".into(), canonical_named("b"), b"second".to_vec());
    ht.record_promotion("other".into(), "u".into(), 0);
    let (_d, promotions) = ht.drain_sorted();
    assert_eq!(promotions.len(), 2);
    assert_eq!(promotions[0].link_path, b"other".to_vec());
    assert!(promotions[0].file_data.is_none());
    assert_eq!(promotions[1].file_data.as_ref().unwrap().1, b"first".to_vec());
}

#[test]
fn hardlink_note_fills_only_matching_promotions() {
    let mut ht = HardLinkTracker::default();
    ht.record_promotion("a1".into(), "x/t".into(), 1);
    ht.record_promotion("a2".into(), "x/u".into(), 1);
    ht.note_suppressed_file("x//t".into(), canonical_named("t"), b"data".to_vec());
    let (_d, promotions) = ht.drain_sorted();
    assert!(promotions[0].file_data.is_some());
    assert!(promotions[1].file_data.is_none());
}

#[test]
fn hardlink_promotion_sees_only_notes_since_last_end_layer() {
    let mut ht = HardLinkTracker::default();
    ht.note_suppressed_file("t".into(), canonical_named("old"), b"old".to_vec());
    ht.end_layer();
    // Twice is the same as once.
    ht.end_layer();
    ht.record_promotion("before".into(), "t".into(), 2);
    ht.note_suppressed_file("u".into(), canonical_named("u"), b"u".to_vec());
    ht.note_suppressed_file("t".into(), canonical_named("new"), b"new".to_vec());
    ht.record_promotion("after".into(), "t/".into(), 1);
    let (_d, promotions) = ht.drain_sorted();
    assert_eq!(promotions.len(), 2);
    // The promotion recorded after the note took it at once.
    assert_eq!(promotions[0].link_path, b"after".to_vec());
    assert_eq!(promotions[0].file_data.as_ref().unwrap().1, b"new".to_vec());
    // The earlier one found nothing buffered and was fulfilled by the note.
    assert_eq!(promotions[1].link_path, b"before".to_vec());
    assert_eq!(promotions[1].file_data.as_ref().unwrap().1, b"new".to_vec());
}

#[test]
fn hardlink_end_layer_keeps_deferred_and_attached_content() {
    let mut ht = HardLinkTracker::default();
    ht.record("l".into(), "t".into(), 1, canonical_named("l"));
    ht.note_suppressed_file("t".into(), canonical_named("t"), b"data".to_vec());
    ht.record_promotion("p".into(), "t".into(), 1);
    ht.end_layer();
    ht.record_promotion("q".into(), "t".into(), 0);
    let (deferred, promotions) = ht.drain_sorted();
    assert_eq!(deferred.len(), 1);
    assert_eq!(deferred[0].link_path, b"l".to_vec());
    assert_eq!(promotions[0].link_path, b"q".to_vec());
    assert!(promotions[0].file_data.is_none());
    assert_eq!(promotions[1].link_path, b"p".to_vec());
    assert_eq!(promotions[1].file_data.as_ref().unwrap().1, b"data".to_vec());
}
