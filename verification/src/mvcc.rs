//! Multi-version views over an index's on-disk segments.
//!
//! A `snapshot` view exposes only segments visible under the current
//! transaction's visibility rules: committed segments, plus segments
//! written by the current transaction itself.  An `any` view exposes
//! every segment regardless of visibility; maintenance operations use
//! it to purge data physically.  Both wrap the segment store; neither
//! copies it.

use vstd::prelude::*;

verus! {

/// Metadata of one on-disk segment: its identity, the host
/// transaction that wrote it, and whether that transaction committed.
#[derive(Clone, Copy, Debug, PartialEq, Eq, Structural)]
pub struct SegmentMeta {
    pub segment_id: u64,
    pub creating_xid: u64,
    pub committed: bool,
}

/// Which merging the writer may do alongside an operation.
#[derive(Clone, Copy, Debug, PartialEq, Eq, Structural)]
pub enum AllowedMergePolicy {
    NoMerge,
    NPlusOne(usize),
}

/// How segment visibility is decided.
#[derive(Clone, Copy, Debug, PartialEq, Eq, Structural)]
pub enum Visibility {
    /// Only committed segments and the current transaction's own.
    Snapshot,
    /// Every segment, visible or not.
    Any,
}

/// A view over one index's segments under a visibility rule.
#[derive(Clone, Copy, Debug)]
pub struct MVCCDirectory {
    pub index_oid: u32,
    pub visibility: Visibility,
    pub merge_policy: AllowedMergePolicy,
}

/// Whether a view exposes one segment to the transaction `xid`.
pub open spec fn segment_visible(v: Visibility, seg: SegmentMeta, xid: u64) -> bool {
    match v {
        Visibility::Snapshot => seg.committed || seg.creating_xid == xid,
        Visibility::Any => true,
    }
}

/// The segments a view exposes, in segment-store order.
pub open spec fn visible_of(v: Visibility, segs: Seq<SegmentMeta>, xid: u64) -> Seq<SegmentMeta>
    decreases segs.len(),
{
    if segs.len() == 0 {
        segs
    } else {
        visible_of(v, segs.drop_last(), xid) + if segment_visible(v, segs.last(), xid) {
            seq![segs.last()]
        } else {
            Seq::empty()
        }
    }
}

impl MVCCDirectory {
    /// A snapshot-consistent view of the index's segments.
    pub fn snapshot(index_oid: u32, merge_policy: AllowedMergePolicy) -> (d: MVCCDirectory)
        ensures
            d.index_oid == index_oid,
            d.visibility == Visibility::Snapshot,
            d.merge_policy == merge_policy,
    {
        MVCCDirectory { index_oid, visibility: Visibility::Snapshot, merge_policy }
    }

    /// A view of every segment, used by maintenance operations.
    pub fn any(index_oid: u32, merge_policy: AllowedMergePolicy) -> (d: MVCCDirectory)
        ensures
            d.index_oid == index_oid,
            d.visibility == Visibility::Any,
            d.merge_policy == merge_policy,
    {
        MVCCDirectory { index_oid, visibility: Visibility::Any, merge_policy }
    }

    /// The segments this view exposes to the transaction `xid`, in
    /// segment-store order.
    pub fn visible_segments(&self, segs: &Vec<SegmentMeta>, xid: u64) -> (v: Vec<SegmentMeta>)
        ensures
            v@ == visible_of(self.visibility, segs@, xid),
    {
        let mut v: Vec<SegmentMeta> = Vec::new();
        let mut k: usize = 0;
        proof {
            assert(segs@.take(0) =~= Seq::<SegmentMeta>::empty());
            assert(v@ =~= visible_of(self.visibility, segs@.take(0), xid));
        }
        while k < segs.len()
            invariant
                k <= segs@.len(),
                v@ == visible_of(self.visibility, segs@.take(k as int), xid),
            decreases segs@.len() - k,
        {
            let seg = segs[k];
            let visible = match self.visibility {
                Visibility::Snapshot => seg.committed || seg.creating_xid == xid,
                Visibility::Any => true,
            };
            proof {
                assert(segs@.take(k as int + 1).drop_last() =~= segs@.take(k as int));
                assert(segs@.take(k as int + 1).last() == segs@[k as int]);
            }
            if visible {
                v.push(seg);
            }
            proof {
                assert(v@ =~= visible_of(self.visibility, segs@.take(k as int + 1), xid));
            }
            k = k + 1;
        }
        proof {
            assert(segs@.take(segs@.len() as int) =~= segs@);
        }
        v
    }
}

/// A snapshot view never exposes a segment of a concurrently open,
/// uncommitted transaction belonging to a different connection.
pub proof fn lemma_snapshot_excludes_foreign_uncommitted(
    segs: Seq<SegmentMeta>,
    xid: u64,
    seg: SegmentMeta,
)
    requires
        !seg.committed,
        seg.creating_xid != xid,
    ensures
        !visible_of(Visibility::Snapshot, segs, xid).contains(seg),
    decreases segs.len(),
{
    if segs.len() > 0 {
        lemma_snapshot_excludes_foreign_uncommitted(segs.drop_last(), xid, seg);
        let r = visible_of(Visibility::Snapshot, segs, xid);
        let rp = visible_of(Visibility::Snapshot, segs.drop_last(), xid);
        assert forall|j: int| 0 <= j < r.len() implies #[trigger] r[j] != seg by {
            if j < rp.len() {
                assert(r[j] == rp[j]);
                assert(!rp.contains(seg));
            } else {
                assert(r[j] == segs.last());
                assert(segment_visible(Visibility::Snapshot, segs.last(), xid));
            }
        }
        if r.contains(seg) {
            let j = choose|j: int| 0 <= j < r.len() && r[j] == seg;
            assert(false);
        }
    }
}

/// An `any` view exposes every segment, uncommitted ones included.
pub proof fn lemma_any_exposes_all(segs: Seq<SegmentMeta>, xid: u64)
    ensures
        visible_of(Visibility::Any, segs, xid) == segs,
    decreases segs.len(),
{
    if segs.len() > 0 {
        lemma_any_exposes_all(segs.drop_last(), xid);
        assert(visible_of(Visibility::Any, segs, xid) =~= segs);
    } else {
        assert(visible_of(Visibility::Any, segs, xid) =~= segs);
    }
}

} // verus!
