//! Resource budgets for writer operations, and the directory view
//! each operation class uses.

use vstd::prelude::*;

use crate::mvcc::{AllowedMergePolicy, MVCCDirectory, Visibility};

verus! {

pub type Parallelism = usize;

pub type MemoryBudget = usize;

pub type IndexConfig = (Parallelism, MemoryBudget, AllowedMergePolicy);

/// The host-exposed tuning knobs the writer reads its budgets from.
#[derive(Clone, Copy, Debug)]
pub struct WriterSettings {
    pub create_index_parallelism: usize,
    pub create_index_memory_budget: usize,
    pub statement_parallelism: usize,
    pub statement_memory_budget: usize,
}

impl WriterSettings {
    /// Parallelism degrees are positive and budgets are non-zero.
    pub open spec fn wf(&self) -> bool {
        self.create_index_parallelism > 0 && self.statement_parallelism > 0
            && self.create_index_memory_budget > 0 && self.statement_memory_budget > 0
    }
}

/// Per-index storage options the host recorded at index creation.
#[derive(Clone, Copy, Debug)]
pub struct IndexOptions {
    pub target_segment_count: usize,
    pub merge_on_insert: bool,
}

/// The class of writer operation asking for resources.
#[derive(Clone, Copy, Debug, PartialEq, Eq, Structural)]
pub enum WriterResources {
    CreateIndex,
    Statement,
    Vacuum,
}

impl WriterResources {
    /// The parallelism, memory budget and merge policy this class of
    /// operation runs with: index builds use the create-index budgets
    /// and never merge; statements use the statement budgets and
    /// merge on insert only if the index opts in; vacuum uses the
    /// statement budgets and always merges down.
    pub fn resources(&self, settings: &WriterSettings, options: &IndexOptions) -> (c: IndexConfig)
        ensures
            c == match *self {
                WriterResources::CreateIndex => (
                    settings.create_index_parallelism,
                    settings.create_index_memory_budget,
                    AllowedMergePolicy::NoMerge,
                ),
                WriterResources::Statement => (
                    settings.statement_parallelism,
                    settings.statement_memory_budget,
                    if options.merge_on_insert {
                        AllowedMergePolicy::NPlusOne(options.target_segment_count)
                    } else {
                        AllowedMergePolicy::NoMerge
                    },
                ),
                WriterResources::Vacuum => (
                    settings.statement_parallelism,
                    settings.statement_memory_budget,
                    AllowedMergePolicy::NPlusOne(options.target_segment_count),
                ),
            },
    {
        match self {
            WriterResources::CreateIndex => (
                settings.create_index_parallelism,
                settings.create_index_memory_budget,
                AllowedMergePolicy::NoMerge,
            ),
            WriterResources::Statement => {
                let policy = if options.merge_on_insert {
                    AllowedMergePolicy::NPlusOne(options.target_segment_count)
                } else {
                    AllowedMergePolicy::NoMerge
                };
                (settings.statement_parallelism, settings.statement_memory_budget, policy)
            },
            WriterResources::Vacuum => (
                settings.statement_parallelism,
                settings.statement_memory_budget,
                AllowedMergePolicy::NPlusOne(options.target_segment_count),
            ),
        }
    }
}

/// Which directory view each access path opens over an index.
#[derive(Clone, Copy, Debug, PartialEq, Eq, Structural)]
pub enum BlockDirectoryType {
    /// Ordinary reads and writes: snapshot-consistent visibility.
    Mvcc,
    /// Bulk deletion during maintenance: every segment.
    BulkDelete,
}

impl BlockDirectoryType {
    /// The directory view this access path uses: `Mvcc` opens a
    /// snapshot view, `BulkDelete` opens a view of every segment.
    pub fn directory(self, index_oid: u32, merge_policy: AllowedMergePolicy) -> (d: MVCCDirectory)
        ensures
            d.index_oid == index_oid,
            d.merge_policy == merge_policy,
            d.visibility == match self {
                BlockDirectoryType::Mvcc => Visibility::Snapshot,
                BlockDirectoryType::BulkDelete => Visibility::Any,
            },
    {
        match self {
            BlockDirectoryType::Mvcc => MVCCDirectory::snapshot(index_oid, merge_policy),
            BlockDirectoryType::BulkDelete => MVCCDirectory::any(index_oid, merge_policy),
        }
    }
}

} // verus!
