//! The server-side index writer: the one holder of every index's
//! mutable state, and the meaning of each writer request.
//!
//! The store tracks, per index, the documents the writer has applied
//! (`live`), the documents as of the last durable commit (`committed`),
//! and whether the index was touched since the last flushing boundary.
//! `Commit` promotes `live` to `committed` for every index at once;
//! `Abort` rolls every index back to `committed`.

use vstd::prelude::*;

use crate::directory::WriterDirectory;
use crate::request::{DocModel, ReqModel, SearchDocument, WriterRequest};
use crate::server::ServerError;

verus! {

// ---------------------------------------------------------------------
// The mathematical model of the store
// ---------------------------------------------------------------------

/// Model of one index's writer-side state.
pub struct IndexModel {
    /// Documents as the writer has applied requests so far.
    pub live: Seq<DocModel>,
    /// Documents as of the last durable commit boundary.
    pub committed: Seq<DocModel>,
    /// Whether the index was touched since the last boundary.
    pub touched: bool,
}

/// Model of the whole store: one entry per index the writer holds.
pub type StoreModel = Map<WriterDirectory, IndexModel>;

pub open spec fn empty_index() -> IndexModel {
    IndexModel { live: Seq::empty(), committed: Seq::empty(), touched: false }
}

/// The documents of `docs` whose key is not in `ctids`, in order.
pub open spec fn remove_ctids(docs: Seq<DocModel>, ctids: Seq<u64>) -> Seq<DocModel>
    decreases docs.len(),
{
    if docs.len() == 0 {
        docs
    } else {
        remove_ctids(docs.drop_last(), ctids) + if ctids.contains(docs.last().ctid) {
            Seq::empty()
        } else {
            seq![docs.last()]
        }
    }
}

pub open spec fn commit_index(m: IndexModel) -> IndexModel {
    IndexModel { live: m.live, committed: m.live, touched: false }
}

pub open spec fn abort_index(m: IndexModel) -> IndexModel {
    IndexModel { live: m.committed, committed: m.committed, touched: false }
}

pub open spec fn commit_store(s: StoreModel) -> StoreModel {
    Map::new(|d: WriterDirectory| s.dom().contains(d), |d: WriterDirectory| commit_index(s[d]))
}

pub open spec fn abort_store(s: StoreModel) -> StoreModel {
    Map::new(|d: WriterDirectory| s.dom().contains(d), |d: WriterDirectory| abort_index(s[d]))
}

pub open spec fn store_entry(s: StoreModel, d: WriterDirectory) -> IndexModel {
    if s.dom().contains(d) {
        s[d]
    } else {
        empty_index()
    }
}

/// What one request does to the store.  Requests addressed to an index
/// the writer has not opened yet open it first, as the writer process
/// lazily opens a writer per index.
pub open spec fn apply_request(s: StoreModel, r: ReqModel) -> StoreModel {
    match r {
        ReqModel::Insert { directory, document } => {
            let e = store_entry(s, directory);
            s.insert(
                directory,
                IndexModel { live: e.live.push(document), committed: e.committed, touched: true },
            )
        },
        ReqModel::Delete { directory, field, ctids } => {
            let e = store_entry(s, directory);
            s.insert(
                directory,
                IndexModel {
                    live: remove_ctids(e.live, ctids),
                    committed: e.committed,
                    touched: true,
                },
            )
        },
        ReqModel::DropIndex { directory } => s.remove(directory),
        ReqModel::Abort => abort_store(s),
        ReqModel::Commit => commit_store(s),
        ReqModel::Vacuum { directory } => s,
    }
}

/// What a sequence of requests does to the store, applied in order.
pub open spec fn apply_requests(s: StoreModel, rs: Seq<ReqModel>) -> StoreModel
    decreases rs.len(),
{
    if rs.len() == 0 {
        s
    } else {
        apply_requests(apply_request(s, rs[0]), rs.skip(1))
    }
}

pub proof fn lemma_apply_requests_push(s: StoreModel, rs: Seq<ReqModel>, r: ReqModel)
    ensures
        apply_requests(s, rs.push(r)) == apply_request(apply_requests(s, rs), r),
    decreases rs.len(),
{
    let p = rs.push(r);
    if rs.len() == 0 {
        assert(p[0] == r);
        let t = p.skip(1);
        assert(t.len() == 0);
        assert(apply_requests(s, p) == apply_requests(apply_request(s, r), t));
        assert(apply_requests(apply_request(s, r), t) == apply_request(s, r));
        assert(apply_requests(s, rs) == s);
    } else {
        assert(p[0] == rs[0]);
        assert(p.skip(1) =~= rs.skip(1).push(r));
        let s1 = apply_request(s, rs[0]);
        assert(apply_requests(s, p) == apply_requests(s1, p.skip(1)));
        lemma_apply_requests_push(s1, rs.skip(1), r);
        assert(apply_requests(s, rs) == apply_requests(s1, rs.skip(1)));
    }
}

/// Applying two requests in order.
pub proof fn lemma_apply_two(s: StoreModel, a: ReqModel, b: ReqModel)
    ensures
        apply_requests(s, seq![a, b]) == apply_request(apply_request(s, a), b),
{
    let rs = seq![a, b];
    assert(rs[0] == a && rs[1] == b);
    let t = rs.skip(1);
    assert(t.len() == 1 && t[0] == b);
    let s1 = apply_request(s, a);
    assert(apply_requests(s, rs) == apply_requests(s1, t));
    let t2 = t.skip(1);
    assert(t2.len() == 0);
    assert(apply_requests(s1, t) == apply_requests(apply_request(s1, b), t2));
    assert(apply_requests(apply_request(s1, b), t2) == apply_request(s1, b));
}

/// Whether a document with key `ctid` is live in index `d`.
pub open spec fn live_contains(s: StoreModel, d: WriterDirectory, ctid: u64) -> bool {
    s.dom().contains(d) && exists|i: int| 0 <= i < s[d].live.len() && s[d].live[i].ctid == ctid
}

pub proof fn lemma_remove_ctids_absent(docs: Seq<DocModel>, ctids: Seq<u64>, x: u64)
    requires
        ctids.contains(x),
    ensures
        forall|i: int| 0 <= i < remove_ctids(docs, ctids).len()
            ==> #[trigger] remove_ctids(docs, ctids)[i].ctid != x,
    decreases docs.len(),
{
    if docs.len() > 0 {
        lemma_remove_ctids_absent(docs.drop_last(), ctids, x);
        let r = remove_ctids(docs, ctids);
        let rp = remove_ctids(docs.drop_last(), ctids);
        assert forall|i: int| 0 <= i < r.len() implies #[trigger] r[i].ctid != x by {
            if i < rp.len() {
                assert(r[i] == rp[i]);
            } else {
                assert(!ctids.contains(docs.last().ctid));
                assert(r[i] == docs.last());
            }
        }
    }
}

/// Requests to one index are applied in submission order: inserting a
/// document and then deleting its key leaves the key absent.
pub proof fn lemma_insert_then_delete(
    s: StoreModel,
    d: WriterDirectory,
    doc: DocModel,
    field: u32,
    ctids: Seq<u64>,
)
    requires
        ctids.contains(doc.ctid),
    ensures
        !live_contains(
            apply_requests(
                s,
                seq![
                    ReqModel::Insert { directory: d, document: doc },
                    ReqModel::Delete { directory: d, field, ctids },
                ],
            ),
            d,
            doc.ctid,
        ),
{
    let a = ReqModel::Insert { directory: d, document: doc };
    let b = ReqModel::Delete { directory: d, field, ctids };
    lemma_apply_two(s, a, b);
    let s1 = apply_request(s, a);
    let s2 = apply_request(s1, b);
    lemma_remove_ctids_absent(s1[d].live, ctids, doc.ctid);
    assert(s2[d].live == remove_ctids(s1[d].live, ctids));
}

/// Requests to one index are applied in submission order: deleting a
/// key and then inserting a document with that key leaves it present.
pub proof fn lemma_delete_then_insert(
    s: StoreModel,
    d: WriterDirectory,
    doc: DocModel,
    field: u32,
    ctids: Seq<u64>,
)
    ensures
        live_contains(
            apply_requests(
                s,
                seq![
                    ReqModel::Delete { directory: d, field, ctids },
                    ReqModel::Insert { directory: d, document: doc },
                ],
            ),
            d,
            doc.ctid,
        ),
{
    let a = ReqModel::Delete { directory: d, field, ctids };
    let b = ReqModel::Insert { directory: d, document: doc };
    lemma_apply_two(s, a, b);
    let s1 = apply_request(s, a);
    let s2 = apply_request(s1, b);
    let n = s2[d].live.len() as int;
    assert(s2[d].live == store_entry(s1, d).live.push(doc));
    assert(s2[d].live[n - 1].ctid == doc.ctid);
}

/// A request addressed to one index never changes another index's
/// state; only the `Commit` and `Abort` boundaries touch every index.
pub proof fn lemma_other_directory_untouched(s: StoreModel, r: ReqModel, d: WriterDirectory)
    requires
        match r {
            ReqModel::Insert { directory, .. } => directory != d,
            ReqModel::Delete { directory, .. } => directory != d,
            ReqModel::DropIndex { directory } => directory != d,
            ReqModel::Vacuum { directory } => directory != d,
            ReqModel::Abort => false,
            ReqModel::Commit => false,
        },
    ensures
        apply_request(s, r).dom().contains(d) == s.dom().contains(d),
        apply_request(s, r).dom().contains(d) ==> apply_request(s, r)[d] == s[d],
{
}

/// Whether any index was touched since the last flushing boundary.
pub open spec fn store_needs_commit(s: StoreModel) -> bool {
    exists|d: WriterDirectory| s.dom().contains(d) && (#[trigger] s[d]).touched
}

// ---------------------------------------------------------------------
// The capability that applies requests
// ---------------------------------------------------------------------

/// The interface that binds an index writer to the server: the server
/// owns one value of this capability and applies every request through
/// it.  An engine-level failure is reported to the requesting caller
/// and leaves the store as it was; it never corrupts unrelated state.
pub trait Handler: Sized {
    spec fn store_model(&self) -> StoreModel;

    fn handle(&mut self, request: WriterRequest) -> (r: Result<(), ServerError>)
        ensures
            r is Ok ==> final(self).store_model() == apply_request(
                old(self).store_model(),
                request@,
            ),
            r is Err ==> final(self).store_model() == old(self).store_model(),
    ;
}

// ---------------------------------------------------------------------
// The executable store
// ---------------------------------------------------------------------

/// The models of a sequence of documents, in order.
pub open spec fn docs_of(s: Seq<SearchDocument>) -> Seq<DocModel> {
    s.map_values(|d: SearchDocument| d@)
}

/// One index's writer-side state as the writer process holds it.
pub struct IndexEntry {
    pub directory: WriterDirectory,
    pub live: Vec<SearchDocument>,
    pub committed: Vec<SearchDocument>,
    pub touched: bool,
}

impl IndexEntry {
    pub open spec fn model(&self) -> IndexModel {
        IndexModel {
            live: docs_of(self.live@),
            committed: docs_of(self.committed@),
            touched: self.touched,
        }
    }
}

pub open spec fn map_of(s: Seq<IndexEntry>) -> StoreModel
    decreases s.len(),
{
    if s.len() == 0 {
        Map::empty()
    } else {
        map_of(s.drop_last()).insert(s.last().directory, s.last().model())
    }
}

pub open spec fn unique_dirs(s: Seq<IndexEntry>) -> bool {
    forall|i: int, j: int|
        0 <= i < j < s.len() ==> (#[trigger] s[i]).directory != (#[trigger] s[j]).directory
}

proof fn lemma_map_of_contains(s: Seq<IndexEntry>, i: int)
    requires
        0 <= i < s.len(),
    ensures
        map_of(s).dom().contains(s[i].directory),
    decreases s.len(),
{
    if i < s.len() - 1 {
        lemma_map_of_contains(s.drop_last(), i);
    }
}

proof fn lemma_map_of_absent(s: Seq<IndexEntry>, d: WriterDirectory)
    requires
        forall|j: int| 0 <= j < s.len() ==> (#[trigger] s[j]).directory != d,
    ensures
        !map_of(s).dom().contains(d),
    decreases s.len(),
{
    if s.len() > 0 {
        lemma_map_of_absent(s.drop_last(), d);
    }
}

proof fn lemma_map_of_get(s: Seq<IndexEntry>, i: int)
    requires
        unique_dirs(s),
        0 <= i < s.len(),
    ensures
        map_of(s).dom().contains(s[i].directory),
        map_of(s)[s[i].directory] == s[i].model(),
    decreases s.len(),
{
    lemma_map_of_contains(s, i);
    if i < s.len() - 1 {
        assert(s.last().directory != s[i].directory);
        lemma_map_of_get(s.drop_last(), i);
    }
}

proof fn lemma_map_of_update(s: Seq<IndexEntry>, i: int, e: IndexEntry)
    requires
        unique_dirs(s),
        0 <= i < s.len(),
        e.directory == s[i].directory,
    ensures
        map_of(s.update(i, e)) == map_of(s).insert(e.directory, e.model()),
    decreases s.len(),
{
    let t = s.update(i, e);
    let d = e.directory;
    if i == s.len() - 1 {
        assert(t.drop_last() =~= s.drop_last());
        assert(t.last() == e);
        assert(map_of(t) == map_of(s.drop_last()).insert(d, e.model()));
        assert(map_of(s.drop_last()).insert(d, s.last().model()).insert(d, e.model()) =~= map_of(
            s.drop_last(),
        ).insert(d, e.model()));
    } else {
        assert(t.last() == s.last());
        assert(t.drop_last() =~= s.drop_last().update(i, e));
        assert(s.drop_last()[i] == s[i]);
        lemma_map_of_update(s.drop_last(), i, e);
        assert(s.last().directory != d);
        assert(map_of(s.drop_last()).insert(d, e.model()).insert(s.last().directory,
            s.last().model()) =~= map_of(s.drop_last()).insert(s.last().directory,
            s.last().model()).insert(d, e.model()));
    }
}

proof fn lemma_map_of_remove(s: Seq<IndexEntry>, i: int)
    requires
        unique_dirs(s),
        0 <= i < s.len(),
    ensures
        map_of(s.remove(i)) == map_of(s).remove(s[i].directory),
    decreases s.len(),
{
    let d = s[i].directory;
    if i == s.len() - 1 {
        assert(s.remove(i) =~= s.drop_last());
        assert(forall|j: int| 0 <= j < s.drop_last().len() ==> (#[trigger] s.drop_last()[j]).directory
            != d);
        lemma_map_of_absent(s.drop_last(), d);
        assert(map_of(s.drop_last()).insert(d, s.last().model()).remove(d) =~= map_of(
            s.drop_last(),
        ));
    } else {
        let t = s.remove(i);
        assert(t.last() == s.last());
        assert(t.drop_last() =~= s.drop_last().remove(i));
        assert(s.drop_last()[i] == s[i]);
        lemma_map_of_remove(s.drop_last(), i);
        assert(s.last().directory != d);
        assert(map_of(s.drop_last()).remove(d).insert(s.last().directory, s.last().model())
            =~= map_of(s.drop_last()).insert(s.last().directory, s.last().model()).remove(d));
    }
}

proof fn lemma_map_of_transform(s: Seq<IndexEntry>, t: Seq<IndexEntry>, f: spec_fn(IndexModel) -> IndexModel)
    requires
        t.len() == s.len(),
        forall|j: int| 0 <= j < s.len() ==> (#[trigger] t[j]).directory == s[j].directory
            && t[j].model() == f(s[j].model()),
    ensures
        map_of(t) == Map::new(
            |d: WriterDirectory| map_of(s).dom().contains(d),
            |d: WriterDirectory| f(map_of(s)[d]),
        ),
    decreases s.len(),
{
    let goal = Map::new(
        |d: WriterDirectory| map_of(s).dom().contains(d),
        |d: WriterDirectory| f(map_of(s)[d]),
    );
    if s.len() == 0 {
        assert(map_of(t) =~= goal);
    } else {
        assert(t.drop_last().len() == s.drop_last().len());
        assert(forall|j: int| 0 <= j < s.drop_last().len() ==> (#[trigger] t.drop_last()[j]).directory
            == s.drop_last()[j].directory && t.drop_last()[j].model() == f(
            s.drop_last()[j].model(),
        ));
        lemma_map_of_transform(s.drop_last(), t.drop_last(), f);
        let d = s.last().directory;
        assert(t.last().directory == d && t.last().model() == f(s.last().model()));
        assert(map_of(t) == map_of(t.drop_last()).insert(d, f(s.last().model())));
        assert(map_of(s) == map_of(s.drop_last()).insert(d, s.last().model()));
        assert(map_of(t) =~= goal) by {
            assert(forall|x: WriterDirectory|
                map_of(s).dom().contains(x) <==> #[trigger] goal.dom().contains(x));
            assert(forall|x: WriterDirectory|
                #![trigger map_of(s.drop_last()).dom().contains(x)]
                x != d && map_of(s).dom().contains(x) ==> map_of(s.drop_last()).dom().contains(x)
                    && map_of(s)[x] == map_of(s.drop_last())[x]);
        }
    }
}

proof fn lemma_map_of_value_from_entry(s: Seq<IndexEntry>, d: WriterDirectory)
    requires
        map_of(s).dom().contains(d),
    ensures
        exists|i: int|
            0 <= i < s.len() && (#[trigger] s[i]).directory == d && map_of(s)[d] == s[i].model(),
    decreases s.len(),
{
    if s.last().directory == d {
        assert(s[s.len() - 1].directory == d && map_of(s)[d] == s[s.len() - 1].model());
    } else {
        lemma_map_of_value_from_entry(s.drop_last(), d);
        let i = choose|i: int|
            0 <= i < s.drop_last().len() && (#[trigger] s.drop_last()[i]).directory == d
                && map_of(s.drop_last())[d] == s.drop_last()[i].model();
        assert(s[i].directory == d && map_of(s)[d] == s[i].model());
    }
}

fn find_entry(entries: &Vec<IndexEntry>, d: &WriterDirectory) -> (r: Option<usize>)
    ensures
        match r {
            Some(i) => i < entries@.len() && entries@[i as int].directory == *d,
            None => forall|j: int|
                0 <= j < entries@.len() ==> (#[trigger] entries@[j]).directory != *d,
        },
{
    let mut k: usize = 0;
    while k < entries.len()
        invariant
            k <= entries@.len(),
            forall|j: int| 0 <= j < k ==> (#[trigger] entries@[j]).directory != *d,
        decreases entries@.len() - k,
    {
        if entries[k].directory == *d {
            return Some(k);
        }
        k = k + 1;
    }
    None
}

fn entry_at_mut(v: &mut Vec<IndexEntry>, i: usize) -> (e: &mut IndexEntry)
    requires
        i < old(v)@.len(),
    ensures
        *e == old(v)@[i as int],
        final(v)@ == old(v)@.update(i as int, *final(e)),
{
    &mut v[i]
}

fn clone_bytes(v: &Vec<u8>) -> (r: Vec<u8>)
    ensures
        r@ == v@,
{
    let r = v.clone();
    proof {
        assert(r@ =~= v@);
    }
    r
}

fn clone_doc(d: &SearchDocument) -> (r: SearchDocument)
    ensures
        r@ == d@,
{
    SearchDocument { ctid: d.ctid, content: clone_bytes(&d.content) }
}

fn clone_docs(v: &Vec<SearchDocument>) -> (r: Vec<SearchDocument>)
    ensures
        docs_of(r@) == docs_of(v@),
{
    let mut r: Vec<SearchDocument> = Vec::new();
    let mut k: usize = 0;
    while k < v.len()
        invariant
            k <= v@.len(),
            docs_of(r@) == docs_of(v@).take(k as int),
        decreases v@.len() - k,
    {
        let ghost prev = r@;
        let c = clone_doc(&v[k]);
        r.push(c);
        proof {
            assert(docs_of(prev).len() == prev.len());
            assert(prev.len() == k);
            assert(r@ == prev.push(c));
            assert(docs_of(r@) =~= docs_of(v@).take(k as int + 1)) by {
                assert forall|i: int| 0 <= i < r@.len() implies docs_of(r@)[i] == docs_of(
                    v@,
                ).take(k as int + 1)[i] by {
                    if i < k {
                        assert(r@[i] == prev[i]);
                        assert(docs_of(prev)[i] == docs_of(v@).take(k as int)[i]);
                    } else {
                        assert(r@[i] == c);
                        assert(c@ == v@[k as int]@);
                    }
                }
            }
        }
        k = k + 1;
    }
    proof {
        assert(docs_of(v@).take(v@.len() as int) =~= docs_of(v@));
    }
    r
}

fn ctids_contain(ctids: &Vec<u64>, x: u64) -> (b: bool)
    ensures
        b == ctids@.contains(x),
{
    let mut k: usize = 0;
    while k < ctids.len()
        invariant
            k <= ctids@.len(),
            forall|j: int| 0 <= j < k ==> ctids@[j] != x,
        decreases ctids@.len() - k,
    {
        if ctids[k] == x {
            return true;
        }
        k = k + 1;
    }
    proof {
        assert(forall|j: int| 0 <= j < ctids@.len() ==> ctids@[j] != x);
    }
    false
}

/// Keep the documents of `docs` whose key is not in `ctids`, in order.
fn filter_out(docs: Vec<SearchDocument>, ctids: &Vec<u64>) -> (r: Vec<SearchDocument>)
    ensures
        docs_of(r@) == remove_ctids(docs_of(docs@), ctids@),
{
    let ghost all = docs_of(docs@);
    let mut rest = docs;
    let total: usize = rest.len();
    let mut r: Vec<SearchDocument> = Vec::new();
    let mut k: usize = 0;
    proof {
        assert(all.take(0) =~= Seq::<DocModel>::empty());
        assert(remove_ctids(Seq::<DocModel>::empty(), ctids@) =~= Seq::<DocModel>::empty());
        assert(docs_of(r@) =~= Seq::<DocModel>::empty());
    }
    while rest.len() > 0
        invariant
            all.len() == total,
            k as int + rest@.len() == all.len(),
            docs_of(rest@) == all.skip(k as int),
            docs_of(r@) == remove_ctids(all.take(k as int), ctids@),
        decreases rest@.len(),
    {
        let ghost remaining = rest@;
        let doc = rest.remove(0);
        proof {
            assert(remaining.len() > 0);
            assert(doc == remaining[0]);
            assert(docs_of(remaining)[0] == remaining[0]@);
            assert(all.skip(k as int)[0] == all[k as int + 0]);
            assert(doc@ == all[k as int]);
            assert(rest@ =~= remaining.skip(1));
            assert(docs_of(rest@) =~= all.skip(k as int + 1)) by {
                assert forall|i: int| 0 <= i < rest@.len() implies docs_of(rest@)[i] == all.skip(
                    k as int + 1,
                )[i] by {
                    assert(rest@[i] == remaining[i + 1]);
                    assert(docs_of(remaining)[i + 1] == remaining[i + 1]@);
                    assert(all.skip(k as int)[i + 1] == all[k as int + (i + 1)]);
                    assert(all.skip(k as int + 1)[i] == all[k as int + 1 + i]);
                }
            }
            assert(all.take(k as int + 1).drop_last() =~= all.take(k as int));
            assert(all.take(k as int + 1).last() == all[k as int]);
        }
        let keep = !ctids_contain(ctids, doc.ctid);
        if keep {
            let ghost prev = r@;
            r.push(doc);
            proof {
                assert(docs_of(r@) =~= docs_of(prev).push(doc@));
                assert(remove_ctids(all.take(k as int + 1), ctids@) =~= remove_ctids(
                    all.take(k as int),
                    ctids@,
                ).push(all[k as int]));
            }
        } else {
            proof {
                assert(remove_ctids(all.take(k as int + 1), ctids@) =~= remove_ctids(
                    all.take(k as int),
                    ctids@,
                ));
            }
        }
        k = k + 1;
    }
    proof {
        assert(all.take(k as int) =~= all);
    }
    r
}

/// The index writer's store: one process-wide value owns the writer
/// state of every index it has been asked to mutate.  Its map model
/// is keyed by directory; a directory appears at most once.
pub struct Writer {
    entries: Vec<IndexEntry>,
}

impl Writer {
    #[verifier::type_invariant]
    spec fn wf(&self) -> bool {
        unique_dirs(self.entries@)
    }

    pub fn new() -> (w: Writer)
        ensures
            w.store_model() == Map::<WriterDirectory, IndexModel>::empty(),
    {
        let w = Writer { entries: Vec::new() };
        proof {
            assert(w.store_model() =~= Map::<WriterDirectory, IndexModel>::empty());
        }
        w
    }

    fn do_insert(&mut self, directory: WriterDirectory, document: SearchDocument)
        ensures
            final(self).store_model() == apply_request(
                old(self).store_model(),
                ReqModel::Insert { directory, document: document@ },
            ),
    {
        proof {
            use_type_invariant(&*self);
        }
        let mut entries: Vec<IndexEntry> = Vec::new();
        std::mem::swap(&mut entries, &mut self.entries);
        let ghost s0 = entries@;
        let ghost doc = document@;
        match find_entry(&entries, &directory) {
            Some(i) => {
                proof {
                    lemma_map_of_get(s0, i as int);
                }
                let ghost old_entry = entries@[i as int];
                let e = entry_at_mut(&mut entries, i);
                e.live.push(document);
                e.touched = true;
                proof {
                    assert(entries@ =~= s0.update(i as int, entries@[i as int]));
                    assert(docs_of(entries@[i as int].live@) =~= docs_of(old_entry.live@).push(
                        doc,
                    ));
                    lemma_map_of_update(s0, i as int, entries@[i as int]);
                    assert(unique_dirs(entries@));
                }
            },
            None => {
                proof {
                    lemma_map_of_absent(s0, directory);
                }
                let mut live: Vec<SearchDocument> = Vec::new();
                live.push(document);
                let entry = IndexEntry { directory, live, committed: Vec::new(), touched: true };
                entries.push(entry);
                proof {
                    assert(entries@.drop_last() =~= s0);
                    assert(entries@.last() == entry);
                    assert(map_of(entries@) == map_of(s0).insert(directory, entry.model()));
                    assert(entry.model().live =~= empty_index().live.push(doc));
                    assert(entry.model().committed =~= empty_index().committed);
                    assert(unique_dirs(entries@));
                }
            },
        }
        self.entries = entries;
    }

    fn do_delete(&mut self, directory: WriterDirectory, field: u32, ctids: Vec<u64>)
        ensures
            final(self).store_model() == apply_request(
                old(self).store_model(),
                ReqModel::Delete { directory, field, ctids: ctids@ },
            ),
    {
        proof {
            use_type_invariant(&*self);
        }
        let mut entries: Vec<IndexEntry> = Vec::new();
        std::mem::swap(&mut entries, &mut self.entries);
        let ghost s0 = entries@;
        match find_entry(&entries, &directory) {
            Some(i) => {
                proof {
                    lemma_map_of_get(s0, i as int);
                }
                let ghost old_entry = entries@[i as int];
                let e = entry_at_mut(&mut entries, i);
                let mut live: Vec<SearchDocument> = Vec::new();
                std::mem::swap(&mut live, &mut e.live);
                let filtered = filter_out(live, &ctids);
                e.live = filtered;
                e.touched = true;
                proof {
                    assert(entries@ =~= s0.update(i as int, entries@[i as int]));
                    lemma_map_of_update(s0, i as int, entries@[i as int]);
                    assert(unique_dirs(entries@));
                }
            },
            None => {
                proof {
                    lemma_map_of_absent(s0, directory);
                }
                let entry = IndexEntry {
                    directory,
                    live: Vec::new(),
                    committed: Vec::new(),
                    touched: true,
                };
                entries.push(entry);
                proof {
                    assert(entries@.drop_last() =~= s0);
                    assert(map_of(entries@) == map_of(s0).insert(directory, entry.model()));
                    assert(remove_ctids(empty_index().live, ctids@) =~= Seq::<DocModel>::empty());
                    assert(entry.model().live =~= remove_ctids(empty_index().live, ctids@));
                    assert(entry.model().committed =~= empty_index().committed);
                    assert(unique_dirs(entries@));
                }
            },
        }
        self.entries = entries;
    }

    fn do_drop_index(&mut self, directory: WriterDirectory)
        ensures
            final(self).store_model() == apply_request(
                old(self).store_model(),
                ReqModel::DropIndex { directory },
            ),
    {
        proof {
            use_type_invariant(&*self);
        }
        let mut entries: Vec<IndexEntry> = Vec::new();
        std::mem::swap(&mut entries, &mut self.entries);
        let ghost s0 = entries@;
        match find_entry(&entries, &directory) {
            Some(i) => {
                proof {
                    lemma_map_of_remove(s0, i as int);
                }
                let _ = entries.remove(i);
                proof {
                    assert(unique_dirs(entries@));
                }
            },
            None => {
                proof {
                    lemma_map_of_absent(s0, directory);
                    assert(map_of(s0).remove(directory) =~= map_of(s0));
                }
            },
        }
        self.entries = entries;
    }

    fn transform_all(&mut self, commit: bool)
        ensures
            commit ==> final(self).store_model() == commit_store(old(self).store_model()),
            !commit ==> final(self).store_model() == abort_store(old(self).store_model()),
    {
        proof {
            use_type_invariant(&*self);
        }
        let mut entries: Vec<IndexEntry> = Vec::new();
        std::mem::swap(&mut entries, &mut self.entries);
        let ghost s0 = entries@;
        let n = entries.len();
        let mut k: usize = 0;
        while k < n
            invariant
                k <= n,
                n == entries@.len(),
                entries@.len() == s0.len(),
                forall|j: int| k <= j < s0.len() ==> entries@[j] == s0[j],
                forall|j: int|
                    0 <= j < k ==> (#[trigger] entries@[j]).directory == s0[j].directory
                        && entries@[j].model() == (if commit {
                        commit_index(s0[j].model())
                    } else {
                        abort_index(s0[j].model())
                    }),
            decreases n - k,
        {
            let e = entry_at_mut(&mut entries, k);
            if commit {
                let c = clone_docs(&e.live);
                e.committed = c;
                e.touched = false;
            } else {
                let c = clone_docs(&e.committed);
                e.live = c;
                e.touched = false;
            }
            k = k + 1;
        }
        proof {
            if commit {
                lemma_map_of_transform(s0, entries@, |m: IndexModel| commit_index(m));
                assert(map_of(entries@) =~= commit_store(map_of(s0)));
            } else {
                lemma_map_of_transform(s0, entries@, |m: IndexModel| abort_index(m));
                assert(map_of(entries@) =~= abort_store(map_of(s0)));
            }
            assert(unique_dirs(entries@));
        }
        self.entries = entries;
    }

    /// Durably commit every index touched since the last boundary:
    /// the buffered state becomes the committed state everywhere.
    pub fn commit(&mut self)
        ensures
            final(self).store_model() == commit_store(old(self).store_model()),
    {
        self.transform_all(true);
    }

    /// Discard buffered, uncommitted mutations: every index rolls
    /// back to its last committed state.
    pub fn abort(&mut self)
        ensures
            final(self).store_model() == abort_store(old(self).store_model()),
    {
        self.transform_all(false);
    }

    /// Whether a document with key `ctid` is live in index `d`.
    pub fn contains_live(&self, d: &WriterDirectory, ctid: u64) -> (b: bool)
        ensures
            b == live_contains(self.store_model(), *d, ctid),
    {
        proof {
            use_type_invariant(&*self);
        }
        match find_entry(&self.entries, d) {
            Some(i) => {
                proof {
                    lemma_map_of_get(self.entries@, i as int);
                }
                let e = &self.entries[i];
                let mut k: usize = 0;
                while k < e.live.len()
                    invariant
                        k <= e.live@.len(),
                        self.store_model().dom().contains(*d),
                        self.store_model()[*d].live == docs_of(e.live@),
                        forall|j: int| 0 <= j < k ==> (#[trigger] e.live@[j]).ctid != ctid,
                    decreases e.live@.len() - k,
                {
                    if e.live[k].ctid == ctid {
                        proof {
                            assert(docs_of(e.live@)[k as int].ctid == ctid);
                        }
                        return true;
                    }
                    k = k + 1;
                }
                proof {
                    assert(forall|j: int|
                        0 <= j < docs_of(e.live@).len() ==> (#[trigger] docs_of(e.live@)[j]).ctid
                            != ctid);
                }
                false
            },
            None => {
                proof {
                    lemma_map_of_absent(self.entries@, *d);
                }
                false
            },
        }
    }

    /// How many documents are live in index `d`, if the writer holds it.
    pub fn live_len(&self, d: &WriterDirectory) -> (r: Option<usize>)
        ensures
            match r {
                Some(n) => self.store_model().dom().contains(*d) && n
                    == self.store_model()[*d].live.len(),
                None => !self.store_model().dom().contains(*d),
            },
    {
        proof {
            use_type_invariant(&*self);
        }
        match find_entry(&self.entries, d) {
            Some(i) => {
                proof {
                    lemma_map_of_get(self.entries@, i as int);
                }
                Some(self.entries[i].live.len())
            },
            None => {
                proof {
                    lemma_map_of_absent(self.entries@, *d);
                }
                None
            },
        }
    }
}

impl Handler for Writer {
    closed spec fn store_model(&self) -> StoreModel {
        map_of(self.entries@)
    }

    fn handle(&mut self, request: WriterRequest) -> (r: Result<(), ServerError>) {
        match request {
            WriterRequest::Insert { directory, document } => {
                self.do_insert(directory, document);
            },
            WriterRequest::Delete { directory, field, ctids } => {
                self.do_delete(directory, field, ctids);
            },
            WriterRequest::DropIndex { directory } => {
                self.do_drop_index(directory);
            },
            WriterRequest::Abort => {
                self.abort();
            },
            WriterRequest::Commit => {
                self.commit();
            },
            WriterRequest::Vacuum { directory } => {},
        }
        Ok(())
    }
}

/// Whether anything needs committing: true exactly when some index was
/// touched since the last flushing boundary.  Asked by the host at
/// transaction-commit time.
pub fn needs_commit(writer: &Writer) -> (b: bool)
    ensures
        b == store_needs_commit(writer.store_model()),
{
    proof {
        use_type_invariant(&*writer);
    }
    let ghost s = writer.entries@;
    let mut k: usize = 0;
    while k < writer.entries.len()
        invariant
            k <= s.len(),
            s == writer.entries@,
            unique_dirs(s),
            forall|j: int| 0 <= j < k ==> !(#[trigger] s[j]).touched,
        decreases s.len() - k,
    {
        if writer.entries[k].touched {
            proof {
                lemma_map_of_get(s, k as int);
                assert(writer.store_model().dom().contains(s[k as int].directory) && writer.store_model()[s[
                    k as int].directory].touched);
            }
            return true;
        }
        k = k + 1;
    }
    proof {
        if store_needs_commit(writer.store_model()) {
            let d = choose|d: WriterDirectory|
                writer.store_model().dom().contains(d) && (#[trigger] writer.store_model()[d]).touched;
            lemma_map_of_value_from_entry(s, d);
        }
    }
    false
}

} // verus!
