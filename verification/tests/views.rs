use search_writer::gucs::{GlobalGucSettings, StaticGucSettings};
use search_writer::mvcc::{AllowedMergePolicy, MVCCDirectory, SegmentMeta, Visibility};
use search_writer::resources::{BlockDirectoryType, IndexOptions, WriterResources, WriterSettings};

fn segments() -> Vec<SegmentMeta> {
    vec![
        SegmentMeta { segment_id: 1, creating_xid: 10, committed: true },
        SegmentMeta { segment_id: 2, creating_xid: 20, committed: false },
        SegmentMeta { segment_id: 3, creating_xid: 30, committed: false },
    ]
}

#[test]
fn snapshot_hides_foreign_uncommitted_segments() {
    let view = MVCCDirectory::snapshot(42, AllowedMergePolicy::NoMerge);
    // Transaction 20 sees committed segments and its own uncommitted
    // one, but not transaction 30's open work.
    let visible = view.visible_segments(&segments(), 20);
    let ids: Vec<u64> = visible.iter().map(|s| s.segment_id).collect();
    assert_eq!(ids, vec![1, 2]);
}

#[test]
fn any_view_exposes_every_segment() {
    let view = MVCCDirectory::any(42, AllowedMergePolicy::NoMerge);
    let visible = view.visible_segments(&segments(), 20);
    assert_eq!(visible.len(), 3);
    assert_eq!(visible, segments());
}

#[test]
fn directory_type_picks_the_visibility() {
    let mvcc = BlockDirectoryType::Mvcc.directory(7, AllowedMergePolicy::NoMerge);
    assert_eq!(mvcc.visibility, Visibility::Snapshot);
    assert_eq!(mvcc.index_oid, 7);
    let bulk = BlockDirectoryType::BulkDelete.directory(7, AllowedMergePolicy::NPlusOne(4));
    assert_eq!(bulk.visibility, Visibility::Any);
    assert_eq!(bulk.merge_policy, AllowedMergePolicy::NPlusOne(4));
}

fn settings() -> WriterSettings {
    WriterSettings {
        create_index_parallelism: 8,
        create_index_memory_budget: 1024,
        statement_parallelism: 1,
        statement_memory_budget: 256,
    }
}

#[test]
fn create_index_uses_build_budgets_and_never_merges() {
    let options = IndexOptions { target_segment_count: 4, merge_on_insert: true };
    let (par, mem, policy) = WriterResources::CreateIndex.resources(&settings(), &options);
    assert_eq!((par, mem), (8, 1024));
    assert_eq!(policy, AllowedMergePolicy::NoMerge);
}

#[test]
fn statement_merges_only_when_the_index_opts_in() {
    let opted_in = IndexOptions { target_segment_count: 4, merge_on_insert: true };
    let (par, mem, policy) = WriterResources::Statement.resources(&settings(), &opted_in);
    assert_eq!((par, mem), (1, 256));
    assert_eq!(policy, AllowedMergePolicy::NPlusOne(4));

    let opted_out = IndexOptions { target_segment_count: 4, merge_on_insert: false };
    let (_, _, policy) = WriterResources::Statement.resources(&settings(), &opted_out);
    assert_eq!(policy, AllowedMergePolicy::NoMerge);
}

#[test]
fn vacuum_always_merges_down() {
    let options = IndexOptions { target_segment_count: 4, merge_on_insert: false };
    let (par, mem, policy) = WriterResources::Vacuum.resources(&settings(), &options);
    assert_eq!((par, mem), (1, 256));
    assert_eq!(policy, AllowedMergePolicy::NPlusOne(4));
}

#[test]
fn guc_settings_report_their_values() {
    let s = StaticGucSettings { telemetry: true, logs: false };
    assert!(s.telemetry_enabled());
    assert!(!s.logs_enabled());
}
