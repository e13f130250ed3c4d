use fontwatch::reconcile::reconcile;
use fontwatch::reconcile::StatusEntry;
use fontwatch::reconcile::StatusFlags;
use fontwatch::text::dir_of;

fn entry(path: &str, flags: StatusFlags) -> StatusEntry {
    StatusEntry { path: path.to_string(), flags }
}

fn flag_new() -> StatusFlags {
    StatusFlags { worktree_new: true, ..StatusFlags::none() }
}

fn flag_modified() -> StatusFlags {
    StatusFlags { worktree_modified: true, ..StatusFlags::none() }
}

fn flag_deleted() -> StatusFlags {
    StatusFlags { worktree_deleted: true, ..StatusFlags::none() }
}

#[test]
fn reconcile_groups_families() {
    let entries = vec![
        entry("fonts/Foo/Foo-Bold.ttf", flag_new()),
        entry("fonts/Bar/Bar.ttf", flag_modified()),
    ];
    let set = reconcile(&entries);
    assert_eq!(set.new, vec!["fonts/Foo".to_string()]);
    assert_eq!(set.updated, vec!["fonts/Bar".to_string()]);
    assert!(set.removed.is_empty());
}

#[test]
fn reconcile_deduplicates_within_bucket() {
    let entries = vec![
        entry("fonts/Foo/Foo-Bold.ttf", flag_new()),
        entry("fonts/Foo/Foo-Light.ttf", flag_new()),
        entry("fonts/Baz/Baz.ttf", flag_new()),
    ];
    let set = reconcile(&entries);
    assert_eq!(set.new, vec!["fonts/Foo".to_string(), "fonts/Baz".to_string()]);
    assert!(set.updated.is_empty());
    assert!(set.removed.is_empty());
}

#[test]
fn reconcile_new_and_removed_becomes_updated() {
    let entries = vec![
        entry("fonts/Foo/Foo-Bold.ttf", flag_new()),
        entry("fonts/Foo/Foo-Light.ttf", flag_deleted()),
    ];
    let set = reconcile(&entries);
    assert!(set.new.is_empty());
    assert_eq!(set.updated, vec!["fonts/Foo".to_string()]);
    assert!(set.removed.is_empty());
}

#[test]
fn reconcile_update_supersedes_removal() {
    let entries = vec![
        entry("fonts/Foo/Foo-Bold.ttf", flag_modified()),
        entry("fonts/Foo/Foo-Light.ttf", flag_deleted()),
    ];
    let set = reconcile(&entries);
    assert!(set.new.is_empty());
    assert_eq!(set.updated, vec!["fonts/Foo".to_string()]);
    assert!(set.removed.is_empty());
}

#[test]
fn reconcile_priority_prefers_new() {
    let flags = StatusFlags { index_new: true, index_deleted: true, ..StatusFlags::none() };
    let entries = vec![entry("fonts/Foo/Foo.ttf", flags)];
    let set = reconcile(&entries);
    assert_eq!(set.new, vec!["fonts/Foo".to_string()]);
    assert!(set.updated.is_empty());
    assert!(set.removed.is_empty());
}

#[test]
fn reconcile_sets_are_disjoint_and_free_of_duplicates() {
    let entries = vec![
        entry("fonts/A/A-Bold.ttf", flag_new()),
        entry("fonts/A/A-Light.ttf", flag_new()),
        entry("fonts/B/B.ttf", flag_modified()),
        entry("fonts/B/B-Italic.ttf", flag_modified()),
        entry("fonts/C/C.ttf", flag_deleted()),
        entry("fonts/A/A-Black.ttf", flag_deleted()),
    ];
    let set = reconcile(&entries);
    let all = [&set.new, &set.updated, &set.removed];
    for bucket in all.iter() {
        for (i, p) in bucket.iter().enumerate() {
            for (j, q) in bucket.iter().enumerate() {
                assert!(i == j || p != q, "duplicate key {p} within a bucket");
            }
        }
    }
    for p in set.new.iter() {
        assert!(!set.updated.contains(p));
        assert!(!set.removed.contains(p));
    }
    for p in set.updated.iter() {
        assert!(!set.removed.contains(p));
    }
    assert!(set.new.is_empty());
    assert_eq!(set.updated, vec!["fonts/B".to_string(), "fonts/A".to_string()]);
    assert_eq!(set.removed, vec!["fonts/C".to_string()]);
}

#[test]
fn reconcile_is_idempotent_on_repeated_entries() {
    let once = vec![
        entry("fonts/A/A.ttf", flag_new()),
        entry("fonts/B/B.ttf", flag_modified()),
        entry("fonts/C/C.ttf", flag_deleted()),
    ];
    let mut twice = once.clone();
    twice.extend(once.clone());
    let single = reconcile(&once);
    let doubled = reconcile(&twice);
    assert_eq!(single.new, doubled.new);
    assert_eq!(single.updated, doubled.updated);
    assert_eq!(single.removed, doubled.removed);
}

#[test]
fn dir_of_normalizes_to_containing_directory() {
    assert_eq!(dir_of("fonts/Foo/Foo-Bold.ttf"), "fonts/Foo");
    assert_eq!(dir_of("fonts/Bar"), "fonts");
    assert_eq!(dir_of("bare.ttf"), ".");
}
