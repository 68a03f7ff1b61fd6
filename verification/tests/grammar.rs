//! Names, windows and ranges on concrete values.

use turndb::store::debris::is_pending_publish_of;
use turndb::store::verify::{coalesce, windows, WINDOW_BYTES};
use turndb::sys::{replace_open_durability, ReplaceOpenDurability};
use turndb::vfs::sync_dir;

#[test]
fn pending_publication_grammar_is_exact() {
    assert!(is_pending_publish_of("s.turndb", "s.turndb.publish-12-9"));
    assert!(!is_pending_publish_of("s.turndb", "s.turndb.publish-x-9"));
    assert!(!is_pending_publish_of("s.turndb", "other.publish-12-9"));
}

#[test]
fn windows_cover_a_range_exactly_and_an_empty_range_once() {
    assert_eq!(windows(0, 0), vec![(0, 0)]);
    assert_eq!(windows(0, 5), vec![(0, 5)]);
    let big = windows(0, WINDOW_BYTES * 2 + 1);
    assert_eq!(
        big,
        vec![
            (0, WINDOW_BYTES),
            (WINDOW_BYTES, WINDOW_BYTES * 2),
            (WINDOW_BYTES * 2, WINDOW_BYTES * 2 + 1)
        ]
    );
}

#[test]
fn coalesce_merges_touching_and_overlapping_ranges_only() {
    assert_eq!(coalesce(vec![(10, 5), (0, 10), (20, 0), (30, 2)]), vec![(0, 15), (30, 2)]);
    assert_eq!(coalesce(vec![(5, 10), (0, 10)]), vec![(0, 15)]);
}

#[test]
fn the_replace_guarantee_is_lagged_on_windows_and_atomic_everywhere_else() {
    assert_eq!(replace_open_durability(true), ReplaceOpenDurability::Lagged);
    assert_eq!(replace_open_durability(false), ReplaceOpenDurability::Atomic);
}

#[test]
fn syncing_the_empty_parent_of_a_bare_name_syncs_the_current_directory() {
    let parent = std::path::Path::new("mystore.turndb").parent().unwrap();
    assert!(parent.as_os_str().is_empty());
    assert_eq!(sync_dir(parent.to_str().unwrap()), ".");
    assert_eq!(sync_dir("dir"), "dir");
}
