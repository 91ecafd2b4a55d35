//! The index lifecycle cache and the transaction-boundary hooks.
//!
//! A per-connection table, keyed by index identity, tracks whether
//! each index is pending creation or pending deletion.  The host
//! database fires exactly one pre-commit or abort callback per
//! transaction; the hooks here resolve every pending entry and leave
//! entries unrelated to the finishing transaction untouched.  The
//! on-disk directory tree of each index is modeled alongside, so the
//! hooks' contracts say which directories survive.

use vstd::prelude::*;

use crate::directory::WriterDirectory;

verus! {

/// Lifecycle of one index within the current transaction.
#[derive(Clone, Copy, Debug, PartialEq, Eq, Structural)]
pub enum LifecycleState {
    /// Fully committed and live.
    Live,
    /// Created in the current, not yet resolved transaction.
    PendingCreate,
    /// Dropped in the current, not yet resolved transaction.
    PendingDrop,
}

/// One cached index handle: its directory plus the two pending flags.
/// At most one flag is set; both clear means committed and live.
#[derive(Clone, Copy, Debug)]
pub struct SearchIndex {
    pub directory: WriterDirectory,
    pub is_pending_create: bool,
    pub is_pending_drop: bool,
}

impl SearchIndex {
    pub open spec fn wf(&self) -> bool {
        !(self.is_pending_create && self.is_pending_drop)
    }

    pub open spec fn state(&self) -> LifecycleState {
        if self.is_pending_create {
            LifecycleState::PendingCreate
        } else if self.is_pending_drop {
            LifecycleState::PendingDrop
        } else {
            LifecycleState::Live
        }
    }
}

/// Model of the cache: the lifecycle state of each cached index.
pub type CacheModel = Map<WriterDirectory, LifecycleState>;

/// What pre-commit does to the cache: pending creations are finalized
/// and pending drops are materialized, so both leave the cache; live
/// entries stay untouched.
pub open spec fn pre_commit_cache(m: CacheModel) -> CacheModel {
    Map::new(
        |d: WriterDirectory| m.dom().contains(d) && m[d] is Live,
        |d: WriterDirectory| LifecycleState::Live,
    )
}

/// What abort does to the cache: pending creations are undone and
/// leave the cache; pending drops revert to live; live entries stay.
pub open spec fn abort_cache(m: CacheModel) -> CacheModel {
    Map::new(
        |d: WriterDirectory| m.dom().contains(d) && !(m[d] is PendingCreate),
        |d: WriterDirectory| LifecycleState::Live,
    )
}

/// The directories whose index is pending a drop.
pub open spec fn pending_drop_dirs(m: CacheModel) -> Set<WriterDirectory> {
    Set::new(|d: WriterDirectory| m.dom().contains(d) && m[d] is PendingDrop)
}

/// The directories whose index is pending creation.
pub open spec fn pending_create_dirs(m: CacheModel) -> Set<WriterDirectory> {
    Set::new(|d: WriterDirectory| m.dom().contains(d) && m[d] is PendingCreate)
}

/// A cache with no pending work: every entry is live.
pub open spec fn cache_clean(m: CacheModel) -> bool {
    forall|d: WriterDirectory| m.dom().contains(d) ==> (#[trigger] m[d]) is Live
}

/// The hooks are idempotent against "no pending work": on a cache with
/// only live entries, pre-commit and abort change nothing, and neither
/// touches the disk.
pub proof fn lemma_hooks_idempotent(m: CacheModel, disk: Set<WriterDirectory>)
    requires
        cache_clean(m),
    ensures
        pre_commit_cache(m) == m,
        abort_cache(m) == m,
        disk.difference(pending_drop_dirs(m)) == disk,
        disk.difference(pending_create_dirs(m)) == disk,
{
    assert(pre_commit_cache(m) =~= m);
    assert(abort_cache(m) =~= m);
    assert(disk.difference(pending_drop_dirs(m)) =~= disk);
    assert(disk.difference(pending_create_dirs(m)) =~= disk);
}

// ---------------------------------------------------------------------
// The model of the on-disk directory trees
// ---------------------------------------------------------------------

pub open spec fn set_of(s: Seq<WriterDirectory>) -> Set<WriterDirectory>
    decreases s.len(),
{
    if s.len() == 0 {
        Set::empty()
    } else {
        set_of(s.drop_last()).insert(s.last())
    }
}

pub open spec fn unique_seq(s: Seq<WriterDirectory>) -> bool {
    forall|i: int, j: int| 0 <= i < j < s.len() ==> s[i] != s[j]
}

proof fn lemma_set_of_contains(s: Seq<WriterDirectory>, i: int)
    requires
        0 <= i < s.len(),
    ensures
        set_of(s).contains(s[i]),
    decreases s.len(),
{
    if i < s.len() - 1 {
        lemma_set_of_contains(s.drop_last(), i);
    }
}

proof fn lemma_set_of_absent(s: Seq<WriterDirectory>, d: WriterDirectory)
    requires
        forall|j: int| 0 <= j < s.len() ==> s[j] != d,
    ensures
        !set_of(s).contains(d),
    decreases s.len(),
{
    if s.len() > 0 {
        lemma_set_of_absent(s.drop_last(), d);
    }
}

proof fn lemma_set_of_remove(s: Seq<WriterDirectory>, i: int)
    requires
        unique_seq(s),
        0 <= i < s.len(),
    ensures
        set_of(s.remove(i)) == set_of(s).remove(s[i]),
    decreases s.len(),
{
    let d = s[i];
    if i == s.len() - 1 {
        assert(s.remove(i) =~= s.drop_last());
        lemma_set_of_absent(s.drop_last(), d);
        assert(set_of(s.drop_last()).insert(d).remove(d) =~= set_of(s.drop_last()));
    } else {
        let t = s.remove(i);
        assert(t.last() == s.last());
        assert(t.drop_last() =~= s.drop_last().remove(i));
        assert(s.drop_last()[i] == s[i]);
        lemma_set_of_remove(s.drop_last(), i);
        assert(s.last() != d);
        assert(set_of(s.drop_last()).remove(d).insert(s.last()) =~= set_of(s.drop_last()).insert(
            s.last(),
        ).remove(d));
    }
}

/// The index directory trees present on disk, by index identity.
/// Directory existence plus the cache's transient flags are the only
/// durability contract.
pub struct DiskState {
    dirs: Vec<WriterDirectory>,
}

impl DiskState {
    #[verifier::type_invariant]
    spec fn wf(&self) -> bool {
        unique_seq(self.dirs@)
    }

    /// The set of directory trees that exist.
    pub closed spec fn model(&self) -> Set<WriterDirectory> {
        set_of(self.dirs@)
    }

    pub fn new() -> (disk: DiskState)
        ensures
            disk.model() == Set::<WriterDirectory>::empty(),
    {
        let disk = DiskState { dirs: Vec::new() };
        proof {
            assert(disk.model() =~= Set::<WriterDirectory>::empty());
        }
        disk
    }

    fn find(&self, d: &WriterDirectory) -> (r: Option<usize>)
        ensures
            match r {
                Some(i) => i < self.dirs@.len() && self.dirs@[i as int] == *d,
                None => forall|j: int| 0 <= j < self.dirs@.len() ==> self.dirs@[j] != *d,
            },
    {
        let mut k: usize = 0;
        while k < self.dirs.len()
            invariant
                k <= self.dirs@.len(),
                forall|j: int| 0 <= j < k ==> self.dirs@[j] != *d,
            decreases self.dirs@.len() - k,
        {
            if self.dirs[k] == *d {
                return Some(k);
            }
            k = k + 1;
        }
        None
    }

    /// Whether the directory tree of `d` exists.
    pub fn contains_dir(&self, d: &WriterDirectory) -> (b: bool)
        ensures
            b == self.model().contains(*d),
    {
        proof {
            use_type_invariant(&*self);
        }
        match self.find(d) {
            Some(i) => {
                proof {
                    lemma_set_of_contains(self.dirs@, i as int);
                }
                true
            },
            None => {
                proof {
                    lemma_set_of_absent(self.dirs@, *d);
                }
                false
            },
        }
    }

    /// Create the directory tree of `d`; creating it again changes
    /// nothing.
    pub fn create_dir(&mut self, d: WriterDirectory)
        ensures
            final(self).model() == old(self).model().insert(d),
    {
        proof {
            use_type_invariant(&*self);
        }
        match self.find(&d) {
            Some(i) => {
                proof {
                    lemma_set_of_contains(self.dirs@, i as int);
                    assert(self.model().insert(d) =~= self.model());
                }
            },
            None => {
                let mut dirs: Vec<WriterDirectory> = Vec::new();
                std::mem::swap(&mut dirs, &mut self.dirs);
                let ghost s0 = dirs@;
                dirs.push(d);
                proof {
                    assert(dirs@.drop_last() =~= s0);
                    assert(unique_seq(dirs@));
                }
                self.dirs = dirs;
            },
        }
    }

    /// Remove the directory tree of `d`; removing a directory that
    /// does not exist changes nothing.
    pub fn remove_dir(&mut self, d: WriterDirectory)
        ensures
            final(self).model() == old(self).model().remove(d),
    {
        proof {
            use_type_invariant(&*self);
        }
        match self.find(&d) {
            Some(i) => {
                let mut dirs: Vec<WriterDirectory> = Vec::new();
                std::mem::swap(&mut dirs, &mut self.dirs);
                proof {
                    lemma_set_of_remove(dirs@, i as int);
                }
                let _ = dirs.remove(i);
                proof {
                    assert(unique_seq(dirs@));
                }
                self.dirs = dirs;
            },
            None => {
                proof {
                    lemma_set_of_absent(self.dirs@, d);
                    assert(self.model().remove(d) =~= self.model());
                }
            },
        }
    }
}

// ---------------------------------------------------------------------
// The cache
// ---------------------------------------------------------------------

pub open spec fn cache_of(s: Seq<SearchIndex>) -> CacheModel
    decreases s.len(),
{
    if s.len() == 0 {
        Map::empty()
    } else {
        cache_of(s.drop_last()).insert(s.last().directory, s.last().state())
    }
}

pub open spec fn unique_cache_dirs(s: Seq<SearchIndex>) -> bool {
    forall|i: int, j: int|
        0 <= i < j < s.len() ==> (#[trigger] s[i]).directory != (#[trigger] s[j]).directory
}

pub open spec fn all_wf(s: Seq<SearchIndex>) -> bool {
    forall|i: int| 0 <= i < s.len() ==> (#[trigger] s[i]).wf()
}

proof fn lemma_cache_of_contains(s: Seq<SearchIndex>, i: int)
    requires
        0 <= i < s.len(),
    ensures
        cache_of(s).dom().contains(s[i].directory),
    decreases s.len(),
{
    if i < s.len() - 1 {
        lemma_cache_of_contains(s.drop_last(), i);
    }
}

proof fn lemma_cache_of_absent(s: Seq<SearchIndex>, d: WriterDirectory)
    requires
        forall|j: int| 0 <= j < s.len() ==> (#[trigger] s[j]).directory != d,
    ensures
        !cache_of(s).dom().contains(d),
    decreases s.len(),
{
    if s.len() > 0 {
        lemma_cache_of_absent(s.drop_last(), d);
    }
}

proof fn lemma_cache_of_get(s: Seq<SearchIndex>, i: int)
    requires
        unique_cache_dirs(s),
        0 <= i < s.len(),
    ensures
        cache_of(s).dom().contains(s[i].directory),
        cache_of(s)[s[i].directory] == s[i].state(),
    decreases s.len(),
{
    lemma_cache_of_contains(s, i);
    if i < s.len() - 1 {
        assert(s.last().directory != s[i].directory);
        lemma_cache_of_get(s.drop_last(), i);
    }
}

proof fn lemma_cache_of_update(s: Seq<SearchIndex>, i: int, e: SearchIndex)
    requires
        unique_cache_dirs(s),
        0 <= i < s.len(),
        e.directory == s[i].directory,
    ensures
        cache_of(s.update(i, e)) == cache_of(s).insert(e.directory, e.state()),
    decreases s.len(),
{
    let t = s.update(i, e);
    let d = e.directory;
    if i == s.len() - 1 {
        assert(t.drop_last() =~= s.drop_last());
        assert(t.last() == e);
        assert(cache_of(s.drop_last()).insert(d, s.last().state()).insert(d, e.state())
            =~= cache_of(s.drop_last()).insert(d, e.state()));
    } else {
        assert(t.last() == s.last());
        assert(t.drop_last() =~= s.drop_last().update(i, e));
        assert(s.drop_last()[i] == s[i]);
        lemma_cache_of_update(s.drop_last(), i, e);
        assert(s.last().directory != d);
        assert(cache_of(s.drop_last()).insert(d, e.state()).insert(s.last().directory,
            s.last().state()) =~= cache_of(s.drop_last()).insert(s.last().directory,
            s.last().state()).insert(d, e.state()));
    }
}

/// The entries that survive pre-commit: the live ones, in order.
pub open spec fn keep_live(s: Seq<SearchIndex>) -> Seq<SearchIndex>
    decreases s.len(),
{
    if s.len() == 0 {
        s
    } else {
        keep_live(s.drop_last()) + if s.last().state() is Live {
            seq![s.last()]
        } else {
            Seq::empty()
        }
    }
}

/// The entries as abort leaves them: pending creations gone, pending
/// drops reverted to live, live entries untouched, in order.
pub open spec fn revert_entries(s: Seq<SearchIndex>) -> Seq<SearchIndex>
    decreases s.len(),
{
    if s.len() == 0 {
        s
    } else {
        revert_entries(s.drop_last()) + if s.last().state() is PendingCreate {
            Seq::empty()
        } else {
            seq![
                SearchIndex {
                    directory: s.last().directory,
                    is_pending_create: false,
                    is_pending_drop: false,
                },
            ]
        }
    }
}

proof fn lemma_keep_live_dirs(s: Seq<SearchIndex>, d: WriterDirectory)
    requires
        forall|j: int| 0 <= j < s.len() ==> (#[trigger] s[j]).directory != d,
    ensures
        forall|j: int| 0 <= j < keep_live(s).len() ==> (#[trigger] keep_live(s)[j]).directory != d,
    decreases s.len(),
{
    if s.len() > 0 {
        lemma_keep_live_dirs(s.drop_last(), d);
        let r = keep_live(s);
        let rp = keep_live(s.drop_last());
        assert forall|j: int| 0 <= j < r.len() implies (#[trigger] r[j]).directory != d by {
            if j < rp.len() {
                assert(r[j] == rp[j]);
            } else {
                assert(r[j] == s.last());
                assert(s[s.len() - 1].directory != d);
            }
        }
    }
}

proof fn lemma_revert_dirs(s: Seq<SearchIndex>, d: WriterDirectory)
    requires
        forall|j: int| 0 <= j < s.len() ==> (#[trigger] s[j]).directory != d,
    ensures
        forall|j: int|
            0 <= j < revert_entries(s).len() ==> (#[trigger] revert_entries(s)[j]).directory != d,
    decreases s.len(),
{
    if s.len() > 0 {
        lemma_revert_dirs(s.drop_last(), d);
        let r = revert_entries(s);
        let rp = revert_entries(s.drop_last());
        assert forall|j: int| 0 <= j < r.len() implies (#[trigger] r[j]).directory != d by {
            if j < rp.len() {
                assert(r[j] == rp[j]);
            } else {
                assert(r[j].directory == s.last().directory);
                assert(s[s.len() - 1].directory != d);
            }
        }
    }
}

proof fn lemma_cache_pre_commit(s: Seq<SearchIndex>)
    requires
        unique_cache_dirs(s),
    ensures
        cache_of(keep_live(s)) == pre_commit_cache(cache_of(s)),
        unique_cache_dirs(keep_live(s)),
        all_wf(keep_live(s)),
    decreases s.len(),
{
    if s.len() == 0 {
        assert(cache_of(keep_live(s)) =~= pre_commit_cache(cache_of(s)));
    } else {
        let sdl = s.drop_last();
        let e = s.last();
        let d = e.directory;
        lemma_cache_pre_commit(sdl);
        assert(forall|j: int| 0 <= j < sdl.len() ==> (#[trigger] sdl[j]).directory != d);
        lemma_cache_of_absent(sdl, d);
        lemma_keep_live_dirs(sdl, d);
        if e.state() is Live {
            assert(keep_live(s).drop_last() =~= keep_live(sdl));
            assert(keep_live(s).last() == e);
            assert(cache_of(keep_live(s)) == cache_of(keep_live(sdl)).insert(d, e.state()));
            assert(cache_of(keep_live(s)) =~= pre_commit_cache(cache_of(s)));
            assert(unique_cache_dirs(keep_live(s))) by {
                assert(forall|j: int|
                    0 <= j < keep_live(sdl).len() ==> #[trigger] keep_live(s)[j] == keep_live(
                        sdl,
                    )[j]);
            }
            assert(all_wf(keep_live(s)));
        } else {
            assert(keep_live(s) =~= keep_live(sdl));
            assert(cache_of(keep_live(s)) =~= pre_commit_cache(cache_of(s)));
        }
    }
}

proof fn lemma_cache_abort(s: Seq<SearchIndex>)
    requires
        unique_cache_dirs(s),
    ensures
        cache_of(revert_entries(s)) == abort_cache(cache_of(s)),
        unique_cache_dirs(revert_entries(s)),
        all_wf(revert_entries(s)),
    decreases s.len(),
{
    if s.len() == 0 {
        assert(cache_of(revert_entries(s)) =~= abort_cache(cache_of(s)));
    } else {
        let sdl = s.drop_last();
        let e = s.last();
        let d = e.directory;
        lemma_cache_abort(sdl);
        assert(forall|j: int| 0 <= j < sdl.len() ==> (#[trigger] sdl[j]).directory != d);
        lemma_cache_of_absent(sdl, d);
        lemma_revert_dirs(sdl, d);
        if e.state() is PendingCreate {
            assert(revert_entries(s) =~= revert_entries(sdl));
            assert(cache_of(revert_entries(s)) =~= abort_cache(cache_of(s)));
        } else {
            let cleared = SearchIndex {
                directory: d,
                is_pending_create: false,
                is_pending_drop: false,
            };
            assert(revert_entries(s).drop_last() =~= revert_entries(sdl));
            assert(revert_entries(s).last() == cleared);
            assert(cache_of(revert_entries(s)) == cache_of(revert_entries(sdl)).insert(d,
                LifecycleState::Live));
            assert(cache_of(revert_entries(s)) =~= abort_cache(cache_of(s)));
            assert(unique_cache_dirs(revert_entries(s))) by {
                assert(forall|j: int|
                    0 <= j < revert_entries(sdl).len() ==> #[trigger] revert_entries(s)[j]
                        == revert_entries(sdl)[j]);
            }
            assert(all_wf(revert_entries(s)));
        }
    }
}

/// The directories pending a drop among the entries of `s`.
pub open spec fn drop_dirs_of(s: Seq<SearchIndex>) -> Set<WriterDirectory>
    decreases s.len(),
{
    if s.len() == 0 {
        Set::empty()
    } else {
        drop_dirs_of(s.drop_last()) + if s.last().state() is PendingDrop {
            Set::empty().insert(s.last().directory)
        } else {
            Set::empty()
        }
    }
}

/// The directories pending creation among the entries of `s`.
pub open spec fn create_dirs_of(s: Seq<SearchIndex>) -> Set<WriterDirectory>
    decreases s.len(),
{
    if s.len() == 0 {
        Set::empty()
    } else {
        create_dirs_of(s.drop_last()) + if s.last().state() is PendingCreate {
            Set::empty().insert(s.last().directory)
        } else {
            Set::empty()
        }
    }
}

proof fn lemma_drop_dirs_of(s: Seq<SearchIndex>)
    requires
        unique_cache_dirs(s),
    ensures
        drop_dirs_of(s) == pending_drop_dirs(cache_of(s)),
    decreases s.len(),
{
    if s.len() == 0 {
        assert(drop_dirs_of(s) =~= pending_drop_dirs(cache_of(s)));
    } else {
        let sdl = s.drop_last();
        let e = s.last();
        let d = e.directory;
        lemma_drop_dirs_of(sdl);
        assert(forall|j: int| 0 <= j < sdl.len() ==> (#[trigger] sdl[j]).directory != d);
        lemma_cache_of_absent(sdl, d);
        assert(drop_dirs_of(s) =~= pending_drop_dirs(cache_of(s)));
    }
}

proof fn lemma_create_dirs_of(s: Seq<SearchIndex>)
    requires
        unique_cache_dirs(s),
    ensures
        create_dirs_of(s) == pending_create_dirs(cache_of(s)),
    decreases s.len(),
{
    if s.len() == 0 {
        assert(create_dirs_of(s) =~= pending_create_dirs(cache_of(s)));
    } else {
        let sdl = s.drop_last();
        let e = s.last();
        let d = e.directory;
        lemma_create_dirs_of(sdl);
        assert(forall|j: int| 0 <= j < sdl.len() ==> (#[trigger] sdl[j]).directory != d);
        lemma_cache_of_absent(sdl, d);
        assert(create_dirs_of(s) =~= pending_create_dirs(cache_of(s)));
    }
}

/// The per-connection index lifecycle cache.  A directory appears at
/// most once; absence means "not yet touched in this session".
pub struct SearchIndexCache {
    entries: Vec<SearchIndex>,
}

impl SearchIndexCache {
    #[verifier::type_invariant]
    spec fn inv(&self) -> bool {
        unique_cache_dirs(self.entries@) && all_wf(self.entries@)
    }

    /// The lifecycle state of each cached index.
    pub closed spec fn model(&self) -> CacheModel {
        cache_of(self.entries@)
    }

    pub fn new() -> (c: SearchIndexCache)
        ensures
            c.model() == Map::<WriterDirectory, LifecycleState>::empty(),
    {
        let c = SearchIndexCache { entries: Vec::new() };
        proof {
            assert(c.model() =~= Map::<WriterDirectory, LifecycleState>::empty());
        }
        c
    }

    fn find(&self, d: &WriterDirectory) -> (r: Option<usize>)
        ensures
            match r {
                Some(i) => i < self.entries@.len() && self.entries@[i as int].directory == *d,
                None => forall|j: int|
                    0 <= j < self.entries@.len() ==> (#[trigger] self.entries@[j]).directory != *d,
            },
    {
        let mut k: usize = 0;
        while k < self.entries.len()
            invariant
                k <= self.entries@.len(),
                forall|j: int| 0 <= j < k ==> (#[trigger] self.entries@[j]).directory != *d,
            decreases self.entries@.len() - k,
        {
            if self.entries[k].directory == *d {
                return Some(k);
            }
            k = k + 1;
        }
        None
    }

    /// The cached lifecycle state of `d`, if `d` was touched in this
    /// session.
    pub fn state_of(&self, d: &WriterDirectory) -> (r: Option<LifecycleState>)
        ensures
            match r {
                Some(st) => self.model().dom().contains(*d) && st == self.model()[*d],
                None => !self.model().dom().contains(*d),
            },
    {
        proof {
            use_type_invariant(&*self);
        }
        match self.find(d) {
            Some(i) => {
                proof {
                    lemma_cache_of_get(self.entries@, i as int);
                }
                let e = &self.entries[i];
                if e.is_pending_create {
                    Some(LifecycleState::PendingCreate)
                } else if e.is_pending_drop {
                    Some(LifecycleState::PendingDrop)
                } else {
                    Some(LifecycleState::Live)
                }
            },
            None => {
                proof {
                    lemma_cache_of_absent(self.entries@, *d);
                }
                None
            },
        }
    }

    /// A user-issued create-index action: the index enters the cache
    /// pending creation and its directory tree is created on disk.
    pub fn begin_create(&mut self, d: WriterDirectory, disk: &mut DiskState)
        requires
            !old(self).model().dom().contains(d),
        ensures
            final(self).model() == old(self).model().insert(d, LifecycleState::PendingCreate),
            final(disk).model() == old(disk).model().insert(d),
    {
        proof {
            use_type_invariant(&*self);
        }
        disk.create_dir(d);
        let mut entries: Vec<SearchIndex> = Vec::new();
        std::mem::swap(&mut entries, &mut self.entries);
        let ghost s0 = entries@;
        let entry = SearchIndex { directory: d, is_pending_create: true, is_pending_drop: false };
        proof {
            if exists|j: int| 0 <= j < s0.len() && (#[trigger] s0[j]).directory == d {
                let j = choose|j: int| 0 <= j < s0.len() && (#[trigger] s0[j]).directory == d;
                lemma_cache_of_contains(s0, j);
                assert(false);
            }
        }
        entries.push(entry);
        proof {
            assert(entries@.drop_last() =~= s0);
            assert(unique_cache_dirs(entries@));
            assert(all_wf(entries@));
        }
        self.entries = entries;
    }

    /// A user-issued drop-index action: the index enters (or moves
    /// to) the pending-drop state.  An index absent from the cache is
    /// live on disk, so it is cached with the drop flag set.
    pub fn begin_drop(&mut self, d: WriterDirectory)
        requires
            old(self).model().dom().contains(d) ==> old(self).model()[d] is Live,
        ensures
            final(self).model() == old(self).model().insert(d, LifecycleState::PendingDrop),
    {
        proof {
            use_type_invariant(&*self);
        }
        let mut entries: Vec<SearchIndex> = Vec::new();
        std::mem::swap(&mut entries, &mut self.entries);
        let ghost s0 = entries@;
        let entry = SearchIndex { directory: d, is_pending_create: false, is_pending_drop: true };
        match find_in(&entries, &d) {
            Some(i) => {
                proof {
                    lemma_cache_of_get(s0, i as int);
                    lemma_cache_of_update(s0, i as int, entry);
                }
                entries.set(i, entry);
                proof {
                    assert(unique_cache_dirs(entries@));
                    assert(all_wf(entries@));
                }
            },
            None => {
                proof {
                    lemma_cache_of_absent(s0, d);
                }
                entries.push(entry);
                proof {
                    assert(entries@.drop_last() =~= s0);
                    assert(unique_cache_dirs(entries@));
                    assert(all_wf(entries@));
                }
            },
        }
        self.entries = entries;
    }

    /// The pre-commit hook: the enclosing transaction is about to
    /// commit.  Every index pending a drop has its directory tree
    /// removed and leaves the cache; every index pending creation is
    /// finalized and leaves the cache; directories of created indexes
    /// persist; entries unrelated to the finishing transaction stay.
    pub fn on_pre_commit(&mut self, disk: &mut DiskState)
        ensures
            final(self).model() == pre_commit_cache(old(self).model()),
            final(disk).model() == old(disk).model().difference(
                pending_drop_dirs(old(self).model()),
            ),
    {
        proof {
            use_type_invariant(&*self);
        }
        let mut entries: Vec<SearchIndex> = Vec::new();
        std::mem::swap(&mut entries, &mut self.entries);
        let ghost s0 = entries@;
        let ghost disk0 = disk.model();
        let total: usize = entries.len();
        let mut kept: Vec<SearchIndex> = Vec::new();
        let mut k: usize = 0;
        proof {
            assert(s0.take(0) =~= Seq::<SearchIndex>::empty());
            assert(kept@ =~= keep_live(s0.take(0)));
            assert(disk.model() =~= disk0.difference(drop_dirs_of(s0.take(0))));
        }
        while entries.len() > 0
            invariant
                s0.len() == total,
                all_wf(s0),
                k as int + entries@.len() == s0.len(),
                entries@ == s0.skip(k as int),
                kept@ == keep_live(s0.take(k as int)),
                disk.model() == disk0.difference(drop_dirs_of(s0.take(k as int))),
            decreases entries@.len(),
        {
            let ghost remaining = entries@;
            let e = entries.remove(0);
            proof {
                assert(remaining.len() > 0);
                assert(e == remaining[0]);
                assert(s0.skip(k as int)[0] == s0[k as int + 0]);
                assert(e == s0[k as int]);
                assert(e.wf());
                assert(entries@ =~= s0.skip(k as int + 1));
                assert(s0.take(k as int + 1).drop_last() =~= s0.take(k as int));
                assert(s0.take(k as int + 1).last() == s0[k as int]);
            }
            if e.is_pending_drop {
                disk.remove_dir(e.directory);
                proof {
                    assert(kept@ =~= keep_live(s0.take(k as int + 1)));
                    assert(drop_dirs_of(s0.take(k as int + 1)) =~= drop_dirs_of(
                        s0.take(k as int),
                    ).insert(e.directory));
                    assert(disk.model() =~= disk0.difference(drop_dirs_of(s0.take(k as int + 1))));
                }
            } else if e.is_pending_create {
                proof {
                    assert(kept@ =~= keep_live(s0.take(k as int + 1)));
                    assert(drop_dirs_of(s0.take(k as int + 1)) =~= drop_dirs_of(s0.take(k as int)));
                    assert(disk.model() =~= disk0.difference(drop_dirs_of(s0.take(k as int + 1))));
                }
            } else {
                let ghost prev = kept@;
                kept.push(e);
                proof {
                    assert(e.state() is Live);
                    assert(kept@ =~= keep_live(s0.take(k as int + 1))) by {
                        assert(kept@ =~= prev.push(e));
                        assert(keep_live(s0.take(k as int + 1)) =~= keep_live(
                            s0.take(k as int),
                        ).push(e));
                    }
                    assert(drop_dirs_of(s0.take(k as int + 1)) =~= drop_dirs_of(s0.take(k as int)));
                    assert(disk.model() =~= disk0.difference(drop_dirs_of(s0.take(k as int + 1))));
                }
            }
            k = k + 1;
        }
        proof {
            assert(s0.take(k as int) =~= s0);
            lemma_cache_pre_commit(s0);
            lemma_drop_dirs_of(s0);
        }
        self.entries = kept;
    }

    /// The abort hook: the enclosing transaction rolled back.  Every
    /// index pending creation has its directory tree removed and
    /// leaves the cache; every index pending a drop reverts to live
    /// with its entry kept; entries unrelated to the finishing
    /// transaction stay.
    pub fn on_abort(&mut self, disk: &mut DiskState)
        ensures
            final(self).model() == abort_cache(old(self).model()),
            final(disk).model() == old(disk).model().difference(
                pending_create_dirs(old(self).model()),
            ),
    {
        proof {
            use_type_invariant(&*self);
        }
        let mut entries: Vec<SearchIndex> = Vec::new();
        std::mem::swap(&mut entries, &mut self.entries);
        let ghost s0 = entries@;
        let ghost disk0 = disk.model();
        let total: usize = entries.len();
        let mut kept: Vec<SearchIndex> = Vec::new();
        let mut k: usize = 0;
        proof {
            assert(s0.take(0) =~= Seq::<SearchIndex>::empty());
            assert(kept@ =~= revert_entries(s0.take(0)));
            assert(disk.model() =~= disk0.difference(create_dirs_of(s0.take(0))));
        }
        while entries.len() > 0
            invariant
                s0.len() == total,
                k as int + entries@.len() == s0.len(),
                entries@ == s0.skip(k as int),
                kept@ == revert_entries(s0.take(k as int)),
                disk.model() == disk0.difference(create_dirs_of(s0.take(k as int))),
            decreases entries@.len(),
        {
            let ghost remaining = entries@;
            let e = entries.remove(0);
            proof {
                assert(remaining.len() > 0);
                assert(e == remaining[0]);
                assert(s0.skip(k as int)[0] == s0[k as int + 0]);
                assert(e == s0[k as int]);
                assert(entries@ =~= s0.skip(k as int + 1));
                assert(s0.take(k as int + 1).drop_last() =~= s0.take(k as int));
                assert(s0.take(k as int + 1).last() == s0[k as int]);
            }
            if e.is_pending_create {
                disk.remove_dir(e.directory);
                proof {
                    assert(kept@ =~= revert_entries(s0.take(k as int + 1)));
                    assert(create_dirs_of(s0.take(k as int + 1)) =~= create_dirs_of(
                        s0.take(k as int),
                    ).insert(e.directory));
                    assert(disk.model() =~= disk0.difference(
                        create_dirs_of(s0.take(k as int + 1)),
                    ));
                }
            } else {
                let cleared = SearchIndex {
                    directory: e.directory,
                    is_pending_create: false,
                    is_pending_drop: false,
                };
                let ghost prev = kept@;
                kept.push(cleared);
                proof {
                    assert(kept@ =~= revert_entries(s0.take(k as int + 1))) by {
                        assert(kept@ =~= prev.push(cleared));
                        assert(revert_entries(s0.take(k as int + 1)) =~= revert_entries(
                            s0.take(k as int),
                        ).push(cleared));
                    }
                    assert(create_dirs_of(s0.take(k as int + 1)) =~= create_dirs_of(
                        s0.take(k as int),
                    ));
                    assert(disk.model() =~= disk0.difference(
                        create_dirs_of(s0.take(k as int + 1)),
                    ));
                }
            }
            k = k + 1;
        }
        proof {
            assert(s0.take(k as int) =~= s0);
            lemma_cache_abort(s0);
            lemma_create_dirs_of(s0);
        }
        self.entries = kept;
    }
}

fn find_in(entries: &Vec<SearchIndex>, d: &WriterDirectory) -> (r: Option<usize>)
    ensures
        match r {
            Some(i) => i < entries@.len() && entries@[i as int].directory == *d,
            None => forall|j: int|
                0 <= j < entries@.len() ==> (#[trigger] entries@[j]).directory != *d,
        },
{
    let mut k: usize = 0;
    while k < entries.len()
        invariant
            k <= entries@.len(),
            forall|j: int| 0 <= j < k ==> (#[trigger] entries@[j]).directory != *d,
        decreases entries@.len() - k,
    {
        if entries[k].directory == *d {
            return Some(k);
        }
        k = k + 1;
    }
    None
}

} // verus!
