use search_writer::directory::WriterDirectory;
use search_writer::lifecycle::{DiskState, LifecycleState, SearchIndexCache};

fn dir(n: u32) -> WriterDirectory {
    WriterDirectory::new(n, n, n)
}

#[test]
fn create_then_commit_keeps_directory() {
    let mut cache = SearchIndexCache::new();
    let mut disk = DiskState::new();
    let d = dir(1);

    cache.begin_create(d, &mut disk);
    assert_eq!(cache.state_of(&d), Some(LifecycleState::PendingCreate));
    assert!(disk.contains_dir(&d));

    cache.on_pre_commit(&mut disk);
    assert_eq!(cache.state_of(&d), None);
    assert!(disk.contains_dir(&d));
}

#[test]
fn create_then_abort_removes_directory() {
    let mut cache = SearchIndexCache::new();
    let mut disk = DiskState::new();
    let d = dir(2);

    cache.begin_create(d, &mut disk);
    assert!(disk.contains_dir(&d));

    cache.on_abort(&mut disk);
    assert_eq!(cache.state_of(&d), None);
    assert!(!disk.contains_dir(&d));
}

#[test]
fn drop_then_abort_reverts_to_live() {
    let mut cache = SearchIndexCache::new();
    let mut disk = DiskState::new();
    let d = dir(3);

    // The index was created and committed in an earlier transaction.
    cache.begin_create(d, &mut disk);
    cache.on_pre_commit(&mut disk);

    cache.begin_drop(d);
    assert_eq!(cache.state_of(&d), Some(LifecycleState::PendingDrop));

    cache.on_abort(&mut disk);
    assert_eq!(cache.state_of(&d), Some(LifecycleState::Live));
    assert!(disk.contains_dir(&d));
}

#[test]
fn drop_then_commit_removes_directory() {
    let mut cache = SearchIndexCache::new();
    let mut disk = DiskState::new();
    let d = dir(4);

    cache.begin_create(d, &mut disk);
    cache.on_pre_commit(&mut disk);

    cache.begin_drop(d);
    cache.on_pre_commit(&mut disk);
    assert_eq!(cache.state_of(&d), None);
    assert!(!disk.contains_dir(&d));
}

#[test]
fn hooks_are_idempotent_against_no_pending_work() {
    let mut cache = SearchIndexCache::new();
    let mut disk = DiskState::new();
    let d = dir(5);

    cache.begin_create(d, &mut disk);
    cache.on_pre_commit(&mut disk);

    // The entry is gone and the cache holds only resolved state: the
    // callbacks change nothing when they fire with no pending work.
    cache.on_pre_commit(&mut disk);
    cache.on_abort(&mut disk);
    assert_eq!(cache.state_of(&d), None);
    assert!(disk.contains_dir(&d));
}

#[test]
fn hooks_leave_unrelated_entries_untouched() {
    let mut cache = SearchIndexCache::new();
    let mut disk = DiskState::new();
    let live = dir(6);
    let pending = dir(7);

    cache.begin_create(live, &mut disk);
    cache.on_pre_commit(&mut disk);
    // `live` resolved and left the cache; cache it again as live.
    cache.begin_drop(live);
    cache.on_abort(&mut disk);
    assert_eq!(cache.state_of(&live), Some(LifecycleState::Live));

    cache.begin_create(pending, &mut disk);
    cache.on_pre_commit(&mut disk);
    assert_eq!(cache.state_of(&live), Some(LifecycleState::Live));
    assert!(disk.contains_dir(&live));
    assert!(disk.contains_dir(&pending));
}

#[test]
fn dropping_an_untouched_index_caches_it_pending_drop() {
    let mut cache = SearchIndexCache::new();
    let mut disk = DiskState::new();
    let d = dir(8);
    disk.create_dir(d);

    cache.begin_drop(d);
    assert_eq!(cache.state_of(&d), Some(LifecycleState::PendingDrop));
    cache.on_pre_commit(&mut disk);
    assert!(!disk.contains_dir(&d));
}
