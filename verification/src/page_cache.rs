//! The versioned page cache: an in-memory multi-version index of page
//! modifications, keyed by `(BufferTag, Lsn)`, together with a relation-size
//! cache and the two valid-LSN watermarks.
//!
//! Each entry holds either a ready-made page image or a WAL record to be
//! applied on top of an older version. Reconstruction is cooperative: a
//! lookup that lands on a WAL record marks the entry `apply_pending` and
//! publishes its position on the redo queue; a redo worker collects the base
//! image and the records with `collect_records_for_apply`, reconstructs the
//! page, and stores it back with `complete_redo`.

use vstd::prelude::*;

use crate::buf::{bytes_clone, bytes_from_vec, bytes_view, option_bytes_view};
use crate::redo::{redo_queue_new, redo_queue_send, redo_queue_try_recv, redo_queue_view, RedoQueue};
use crate::Lsn;
use crate::PAGE_SZ;

verus! {

/// Identity of a relation fork: a `BufferTag` without the block number.
#[derive(Clone, Copy, PartialEq, Eq, Structural, Debug)]
pub struct RelTag {
    pub spcnode: u32,
    pub dbnode: u32,
    pub relnode: u32,
    pub forknum: u8,
}

/// Identity of a single page: relation fork plus block number.
#[derive(Clone, Copy, PartialEq, Eq, Structural, Debug)]
pub struct BufferTag {
    pub spcnode: u32,
    pub dbnode: u32,
    pub relnode: u32,
    pub forknum: u8,
    pub blknum: u32,
}

/// Key of one page version in the cache.
#[derive(Clone, Copy, PartialEq, Eq, Structural, Debug)]
pub struct CacheKey {
    pub tag: BufferTag,
    pub lsn: Lsn,
}

/// A WAL record as attached to one affected page: the record payload, its
/// position, and whether it initializes the page from scratch (no
/// predecessor version is needed before applying it).
pub struct WALRecord {
    pub lsn: Lsn,
    pub will_init: bool,
    pub rec: bytes::Bytes,
}

/// Mathematical value of a `WALRecord`.
pub struct WalRecordView {
    pub lsn: Lsn,
    pub will_init: bool,
    pub rec: Seq<u8>,
}

impl View for WALRecord {
    type V = WalRecordView;

    open spec fn view(&self) -> WalRecordView {
        WalRecordView { lsn: self.lsn, will_init: self.will_init, rec: bytes_view(self.rec) }
    }
}

/// Mutable payload of a cache entry: at creation exactly one of `page_image`
/// and `wal_record` is set; the redo worker may later store a reconstructed
/// image into `page_image` and clear `apply_pending`.
pub struct CacheEntryContent {
    pub page_image: Option<bytes::Bytes>,
    pub wal_record: Option<WALRecord>,
    pub apply_pending: bool,
}

/// One versioned cell of the cache.
pub struct CacheEntry {
    pub key: CacheKey,
    pub content: CacheEntryContent,
}

/// Mathematical value of a `CacheEntry`.
#[verifier::ext_equal]
pub struct EntryView {
    pub tag: BufferTag,
    pub lsn: Lsn,
    pub page_image: Option<Seq<u8>>,
    pub wal_record: Option<WalRecordView>,
    pub apply_pending: bool,
}

impl View for CacheEntry {
    type V = EntryView;

    open spec fn view(&self) -> EntryView {
        EntryView {
            tag: self.key.tag,
            lsn: self.key.lsn,
            page_image: option_bytes_view(self.content.page_image),
            wal_record: match self.content.wal_record {
                None => None,
                Some(r) => Some(r@),
            },
            apply_pending: self.content.apply_pending,
        }
    }
}

impl CacheEntry {
    /// A fresh cell for `key`, with no payload yet.
    fn new(key: CacheKey) -> (e: CacheEntry)
        ensures
            e@.tag == key.tag,
            e@.lsn == key.lsn,
            e@.page_image is None,
            e@.wal_record is None,
            !e@.apply_pending,
    {
        CacheEntry {
            key,
            content: CacheEntryContent { page_image: None, wal_record: None, apply_pending: false },
        }
    }
}

/// Mathematical state of the whole cache.
#[verifier::ext_equal]
pub struct CacheView {
    pub entries: Seq<EntryView>,
    pub relsizes: Map<RelTag, u32>,
    pub first_valid_lsn: Lsn,
    pub last_valid_lsn: Lsn,
    pub redo_queue: Seq<usize>,
}

/// The versioned page cache.
pub struct PageCache {
    entries: Vec<CacheEntry>,
    relsize_cache: Vec<(RelTag, u32)>,
    first_valid_lsn: Lsn,
    last_valid_lsn: Lsn,
    walredo_queue: RedoQueue,
}

/// The relation-size map described by a sequence of `(relation, size)`
/// pairs, later pairs shadowing earlier ones.
pub open spec fn rel_map(pairs: Seq<(RelTag, u32)>) -> Map<RelTag, u32>
    decreases pairs.len(),
{
    if pairs.len() == 0 {
        Map::empty()
    } else {
        rel_map(pairs.drop_last()).insert(pairs.last().0, pairs.last().1)
    }
}

impl View for PageCache {
    type V = CacheView;

    closed spec fn view(&self) -> CacheView {
        CacheView {
            entries: self.entries@.map_values(|e: CacheEntry| e@),
            relsizes: rel_map(self.relsize_cache@),
            first_valid_lsn: self.first_valid_lsn,
            last_valid_lsn: self.last_valid_lsn,
            redo_queue: redo_queue_view(self.walredo_queue),
        }
    }
}

/// The relation a page belongs to.
pub open spec fn rel_of(tag: BufferTag) -> RelTag {
    RelTag { spcnode: tag.spcnode, dbnode: tag.dbnode, relnode: tag.relnode, forknum: tag.forknum }
}

/// Whether the cache holds an entry at exactly `(tag, lsn)`.
pub open spec fn has_version(entries: Seq<EntryView>, tag: BufferTag, lsn: Lsn) -> bool {
    exists|i: int| 0 <= i < entries.len() && entries[i].tag == tag && entries[i].lsn == lsn
}

/// Well-formedness of a single entry.
pub open spec fn entry_wf(e: EntryView) -> bool {
    &&& e.page_image is Some || e.wal_record is Some
    &&& e.wal_record is Some ==> e.wal_record->Some_0.lsn == e.lsn
    &&& e.apply_pending ==> e.wal_record is Some
    &&& e.page_image is Some ==> !e.apply_pending
}

/// Internal consistency of a cache state:
/// - at most one entry per `(tag, lsn)` key;
/// - every entry has a payload, and a pending entry is a WAL record whose
///   image has not been reconstructed yet;
/// - the relation-size cache covers every block that was ever inserted;
/// - once `last_valid_lsn` is set, the watermarks are ordered;
/// - the redo queue holds positions of pending entries.
pub open spec fn view_wf(v: CacheView) -> bool {
    &&& forall|i: int, j: int|
        0 <= i < v.entries.len() && 0 <= j < v.entries.len() && i != j ==> !((
        #[trigger] v.entries[i]).tag == (#[trigger] v.entries[j]).tag && v.entries[i].lsn
            == v.entries[j].lsn)
    &&& forall|i: int| 0 <= i < v.entries.len() ==> entry_wf(#[trigger] v.entries[i])
    &&& forall|i: int|
        0 <= i < v.entries.len() ==> v.relsizes.contains_key(
            rel_of((#[trigger] v.entries[i]).tag),
        ) && v.entries[i].tag.blknum < v.relsizes[rel_of(v.entries[i].tag)]
    &&& v.last_valid_lsn == 0 || v.first_valid_lsn <= v.last_valid_lsn
    &&& forall|k: int|
        0 <= k < v.redo_queue.len() ==> (#[trigger] v.redo_queue[k]) < v.entries.len()
            && v.entries[v.redo_queue[k] as int].apply_pending
    &&& forall|k1: int, k2: int|
        0 <= k1 < v.redo_queue.len() && 0 <= k2 < v.redo_queue.len() && k1 != k2 ==> (
        #[trigger] v.redo_queue[k1]) != (#[trigger] v.redo_queue[k2])
}

/// What the relation-size cache maps `rel` to, or zero if `rel` is absent.
pub open spec fn relsize_get_or_zero(m: Map<RelTag, u32>, rel: RelTag) -> u32 {
    if m.contains_key(rel) {
        m[rel]
    } else {
        0
    }
}

/// The relation size after touching `rel`: absent relations are recorded at
/// zero, and a touch at block `t` raises the size to at least `t + 1`.
pub open spec fn relsize_after(m: Map<RelTag, u32>, rel: RelTag, to: Option<u32>) -> u32 {
    let cur = relsize_get_or_zero(m, rel);
    match to {
        None => cur,
        Some(t) => if t >= cur {
            (t + 1) as u32
        } else {
            cur
        },
    }
}

/// The entry created by storing a full page image.
pub open spec fn image_entry(tag: BufferTag, lsn: Lsn, img: Seq<u8>) -> EntryView {
    EntryView { tag, lsn, page_image: Some(img), wal_record: None, apply_pending: false }
}

/// The entry created by storing a WAL record.
pub open spec fn record_entry(tag: BufferTag, rec: WalRecordView) -> EntryView {
    EntryView { tag, lsn: rec.lsn, page_image: None, wal_record: Some(rec), apply_pending: false }
}

/// The position of the version that a read of `tag` at `lsn` answers with:
/// among the entries for `tag` with LSN at most `lsn`, the one whose LSN is
/// greatest (`lemma_newest_index_is_max` proves this reading).
pub open spec fn newest_index(entries: Seq<EntryView>, tag: BufferTag, lsn: Lsn) -> Option<int>
    decreases entries.len(),
{
    if entries.len() == 0 {
        None
    } else {
        let prev = newest_index(entries.drop_last(), tag, lsn);
        let l = entries.len() - 1;
        if entries[l].tag == tag && entries[l].lsn <= lsn {
            match prev {
                None => Some(l),
                Some(p) => if entries[l].lsn >= entries[p].lsn {
                    Some(l)
                } else {
                    Some(p)
                },
            }
        } else {
            prev
        }
    }
}

/// A read of `tag` at position `lsn` is answered by the version with the
/// greatest LSN not exceeding `lsn`: `newest_index` points at an entry of
/// that tag whose LSN is maximal among those at or below `lsn`, and is
/// `None` exactly when the tag has no such version.
pub proof fn lemma_newest_index_is_max(entries: Seq<EntryView>, tag: BufferTag, lsn: Lsn)
    ensures
        match newest_index(entries, tag, lsn) {
            None => forall|i: int|
                0 <= i < entries.len() ==> !((#[trigger] entries[i]).tag == tag && entries[i].lsn
                    <= lsn),
            Some(p) => 0 <= p < entries.len() && entries[p].tag == tag && entries[p].lsn <= lsn
                && forall|i: int|
                0 <= i < entries.len() && (#[trigger] entries[i]).tag == tag && entries[i].lsn
                    <= lsn ==> entries[i].lsn <= entries[p].lsn,
        },
    decreases entries.len(),
{
    if entries.len() > 0 {
        lemma_newest_index_is_max(entries.drop_last(), tag, lsn);
        assert(forall|i: int| 0 <= i < entries.len() - 1 ==> entries.drop_last()[i] == entries[i]);
    }
}

/// The all-zero page: what a read of a never-written block returns.
pub open spec fn zero_page() -> Seq<u8> {
    Seq::new(crate::PAGE_SZ as nat, |i: int| 0u8)
}

/// The views of a list of WAL records.
pub open spec fn recs_view(recs: Seq<WALRecord>) -> Seq<WalRecordView> {
    recs.map_values(|w: WALRecord| w@)
}

/// What reconstruction of `tag` as of `lsn` needs: the newest base image at
/// or below `lsn` (if the walk back reaches one), and the WAL records to
/// apply on top of it, in ascending LSN order. The walk stops at an entry
/// carrying a page image, at a record that initializes the page, and at the
/// bottom of the LSN range.
pub open spec fn collect_spec(entries: Seq<EntryView>, tag: BufferTag, lsn: Lsn) -> (Option<
    Seq<u8>,
>, Seq<WalRecordView>)
    decreases lsn,
    via collect_spec_decreases
{
    match newest_index(entries, tag, lsn) {
        None => (None, Seq::empty()),
        Some(p) => {
            let e = entries[p];
            match e.page_image {
                Some(img) => (Some(img), Seq::empty()),
                None => {
                    let r = e.wal_record->Some_0;
                    if r.will_init || e.lsn == 0 {
                        (None, seq![r])
                    } else {
                        let rest = collect_spec(entries, tag, (e.lsn - 1) as u64);
                        (rest.0, rest.1.push(r))
                    }
                },
            }
        },
    }
}

#[via_fn]
proof fn collect_spec_decreases(entries: Seq<EntryView>, tag: BufferTag, lsn: Lsn) {
    lemma_newest_index_is_max(entries, tag, lsn);
}

/// Outcome of a page lookup. `Page` carries the finished image;
/// `WaitForWal` asks the caller to wait until `last_valid_lsn` reaches the
/// requested position and retry; `AwaitRedo(pos)` reports that entry `pos`
/// is being reconstructed — the caller waits for `complete_redo(pos, ..)`
/// and retries.
pub enum GetPageOutcome {
    Page(bytes::Bytes),
    WaitForWal,
    AwaitRedo(usize),
}

/// Client-facing failures of the query path. The cache itself reports only
/// `LsnEvicted`; the waiting layer around it reports `Timeout` when a
/// watermark or redo wait exceeds its deadline, and `RedoFailed` when the
/// redo worker reports failure for the entry it was waiting on.
pub enum PageError {
    LsnEvicted,
    Timeout,
    RedoFailed,
}

proof fn lemma_rel_map_contains(pairs: Seq<(RelTag, u32)>, rel: RelTag)
    ensures
        rel_map(pairs).contains_key(rel) <==> exists|i: int|
            0 <= i < pairs.len() && (#[trigger] pairs[i]).0 == rel,
    decreases pairs.len(),
{
    if pairs.len() > 0 {
        lemma_rel_map_contains(pairs.drop_last(), rel);
        assert(forall|i: int| 0 <= i < pairs.len() - 1 ==> pairs.drop_last()[i] == pairs[i]);
        if rel_map(pairs).contains_key(rel) {
            if pairs.last().0 == rel {
                assert(pairs[pairs.len() - 1].0 == rel);
            } else {
                let i = choose|i: int|
                    0 <= i < pairs.drop_last().len() && (#[trigger] pairs.drop_last()[i]).0 == rel;
                assert(pairs[i].0 == rel);
            }
        }
    }
}

proof fn lemma_rel_map_last_found(pairs: Seq<(RelTag, u32)>, rel: RelTag, i: int)
    requires
        0 <= i < pairs.len(),
        pairs[i].0 == rel,
        forall|j: int| i < j < pairs.len() ==> (#[trigger] pairs[j]).0 != rel,
    ensures
        rel_map(pairs).contains_key(rel),
        rel_map(pairs)[rel] == pairs[i].1,
    decreases pairs.len(),
{
    assert(forall|a: int| 0 <= a < pairs.len() - 1 ==> pairs.drop_last()[a] == pairs[a]);
    if i < pairs.len() - 1 {
        lemma_rel_map_last_found(pairs.drop_last(), rel, i);
        assert(pairs.last().0 != rel);
    }
}

proof fn lemma_rel_map_update_last(pairs: Seq<(RelTag, u32)>, rel: RelTag, i: int, v: u32)
    requires
        0 <= i < pairs.len(),
        pairs[i].0 == rel,
        forall|j: int| i < j < pairs.len() ==> (#[trigger] pairs[j]).0 != rel,
    ensures
        rel_map(pairs.update(i, (rel, v))) == rel_map(pairs).insert(rel, v),
    decreases pairs.len(),
{
    let upd = pairs.update(i, (rel, v));
    assert(forall|a: int| 0 <= a < pairs.len() - 1 ==> pairs.drop_last()[a] == pairs[a]);
    if i == pairs.len() - 1 {
        assert(upd.drop_last() =~= pairs.drop_last());
        assert(rel_map(pairs).insert(rel, v) =~= rel_map(pairs.drop_last()).insert(rel, v));
    } else {
        assert(upd.drop_last() =~= pairs.drop_last().update(i, (rel, v)));
        lemma_rel_map_update_last(pairs.drop_last(), rel, i, v);
        assert(upd.last() == pairs.last());
        assert(pairs.last().0 != rel);
        assert(rel_map(pairs.drop_last()).insert(rel, v).insert(pairs.last().0, pairs.last().1)
            =~= rel_map(pairs).insert(rel, v));
    }
}

proof fn lemma_relsize_insert_view_wf(v: CacheView, w: CacheView, rel: RelTag, sz: u32)
    requires
        view_wf(v),
        w.entries == v.entries,
        w.relsizes == v.relsizes.insert(rel, sz),
        w.first_valid_lsn == v.first_valid_lsn,
        w.last_valid_lsn == v.last_valid_lsn,
        w.redo_queue == v.redo_queue,
        sz >= relsize_get_or_zero(v.relsizes, rel),
    ensures
        view_wf(w),
{
    assert forall|i: int| 0 <= i < w.entries.len() implies w.relsizes.contains_key(
        rel_of((#[trigger] w.entries[i]).tag),
    ) && w.entries[i].tag.blknum < w.relsizes[rel_of(w.entries[i].tag)] by {
        assert(v.relsizes.contains_key(rel_of(v.entries[i].tag)));
    }
}

proof fn lemma_push_entry_view_wf(v: CacheView, w: CacheView, e: EntryView)
    requires
        view_wf(v),
        w.entries == v.entries.push(e),
        w.relsizes == v.relsizes,
        w.first_valid_lsn == v.first_valid_lsn,
        w.last_valid_lsn == v.last_valid_lsn,
        w.redo_queue == v.redo_queue,
        entry_wf(e),
        !has_version(v.entries, e.tag, e.lsn),
        v.relsizes.contains_key(rel_of(e.tag)),
        e.tag.blknum < v.relsizes[rel_of(e.tag)],
    ensures
        view_wf(w),
{
    assert(forall|i: int| 0 <= i < v.entries.len() ==> w.entries[i] == v.entries[i]);
    assert(w.entries[v.entries.len() as int] == e);
    assert forall|i: int, j: int|
        0 <= i < w.entries.len() && 0 <= j < w.entries.len() && i != j implies !((
    #[trigger] w.entries[i]).tag == (#[trigger] w.entries[j]).tag && w.entries[i].lsn
        == w.entries[j].lsn) by {
        if i < v.entries.len() && j < v.entries.len() {
        } else if i == v.entries.len() {
            assert(!(v.entries[j].tag == e.tag && v.entries[j].lsn == e.lsn));
        } else {
            assert(!(v.entries[i].tag == e.tag && v.entries[i].lsn == e.lsn));
        }
    }
    assert forall|k: int| 0 <= k < w.redo_queue.len() implies (#[trigger] w.redo_queue[k])
        < w.entries.len() && w.entries[w.redo_queue[k] as int].apply_pending by {
        assert(v.redo_queue[k] < v.entries.len() && v.entries[v.redo_queue[k] as int].apply_pending);
    }
}

impl PageCache {
    /// Internal consistency of the cache; see `view_wf`.
    pub open spec fn wf(&self) -> bool {
        view_wf(self@)
    }

    /// The number of entries in the cache.
    pub fn len(&self) -> (n: usize)
        ensures
            n == self@.entries.len(),
    {
        self.entries.len()
    }

    /// Whether an entry exists at exactly `(tag, lsn)`.
    pub fn contains_version(&self, tag: BufferTag, lsn: Lsn) -> (r: bool)
        ensures
            r == has_version(self@.entries, tag, lsn),
    {
        let n = self.entries.len();
        let mut i: usize = 0;
        while i < n
            invariant
                n == self.entries@.len(),
                i <= n,
                forall|j: int|
                    0 <= j < i ==> !((#[trigger] self@.entries[j]).tag == tag
                        && self@.entries[j].lsn == lsn),
            decreases n - i,
        {
            if self.entries[i].key.tag == tag && self.entries[i].key.lsn == lsn {
                assert(self@.entries[i as int].tag == tag && self@.entries[i as int].lsn == lsn);
                return true;
            }
            i = i + 1;
        }
        false
    }

    /// The most recent ingested position.
    pub fn get_last_valid_lsn(&self) -> (lsn: Lsn)
        ensures
            lsn == self@.last_valid_lsn,
    {
        self.last_valid_lsn
    }

    /// The oldest position still answerable.
    pub fn get_first_valid_lsn(&self) -> (lsn: Lsn)
        ensures
            lsn == self@.first_valid_lsn,
    {
        self.first_valid_lsn
    }

    /// Moves `last_valid_lsn` forward, never backward; the watermarks stay
    /// ordered.
    pub fn advance_last_valid_lsn(&mut self, lsn: Lsn)
        requires
            old(self).wf(),
            lsn >= old(self)@.last_valid_lsn,
            lsn >= old(self)@.first_valid_lsn,
        ensures
            final(self).wf(),
            final(self)@ == (CacheView { last_valid_lsn: lsn, ..old(self)@ }),
    {
        self.last_valid_lsn = lsn;
        assert(self@ =~= (CacheView { last_valid_lsn: lsn, ..old(self)@ }));
    }

    /// Moves `first_valid_lsn` forward, never backward and never past
    /// `last_valid_lsn` once that is set.
    pub fn _advance_first_valid_lsn(&mut self, lsn: Lsn)
        requires
            old(self).wf(),
            lsn >= old(self)@.first_valid_lsn,
            old(self)@.last_valid_lsn == 0 || lsn < old(self)@.last_valid_lsn,
        ensures
            final(self).wf(),
            final(self)@ == (CacheView { first_valid_lsn: lsn, ..old(self)@ }),
    {
        self.first_valid_lsn = lsn;
        assert(self@ =~= (CacheView { first_valid_lsn: lsn, ..old(self)@ }));
    }

    /// One-shot initialization of both watermarks, at bootstrap only.
    pub fn init_valid_lsn(&mut self, lsn: Lsn)
        requires
            old(self).wf(),
            old(self)@.first_valid_lsn == 0,
            old(self)@.last_valid_lsn == 0,
        ensures
            final(self).wf(),
            final(self)@ == (CacheView { first_valid_lsn: lsn, last_valid_lsn: lsn, ..old(self)@ }),
    {
        self.first_valid_lsn = lsn;
        self.last_valid_lsn = lsn;
        assert(self@ =~= (CacheView { first_valid_lsn: lsn, last_valid_lsn: lsn, ..old(self)@ }));
    }

    /// Position of the newest pair for `rel` in the relation-size cache.
    fn relsize_find(&self, rel: RelTag) -> (r: Option<usize>)
        ensures
            match r {
                None => forall|j: int|
                    0 <= j < self.relsize_cache@.len() ==> (#[trigger] self.relsize_cache@[j]).0
                        != rel,
                Some(i) => i < self.relsize_cache@.len() && self.relsize_cache@[i as int].0 == rel
                    && forall|j: int|
                    i < j < self.relsize_cache@.len() ==> (#[trigger] self.relsize_cache@[j]).0
                        != rel,
            },
    {
        let mut i: usize = self.relsize_cache.len();
        while i > 0
            invariant
                i <= self.relsize_cache@.len(),
                forall|j: int|
                    i <= j < self.relsize_cache@.len() ==> (#[trigger] self.relsize_cache@[j]).0
                        != rel,
            decreases i,
        {
            i = i - 1;
            if self.relsize_cache[i].0 == rel {
                return Some(i);
            }
        }
        None
    }

    /// Looks `rel` up, recording it at size zero if absent, and raises its
    /// size to `t + 1` when touched at block `t`; returns the new size.
    fn relsize_update(&mut self, rel: RelTag, to: Option<u32>) -> (sz: u32)
        requires
            old(self).wf(),
            (to is Some ==> to->Some_0 < u32::MAX),
        ensures
            final(self).wf(),
            sz == relsize_after(old(self)@.relsizes, rel, to),
            final(self)@ == (CacheView {
                relsizes: old(self)@.relsizes.insert(rel, sz),
                ..old(self)@
            }),
    {
        proof {
            lemma_rel_map_contains(self.relsize_cache@, rel);
        }
        match self.relsize_find(rel) {
            None => {
                let sz: u32 = match to {
                    None => 0,
                    Some(t) => t + 1,
                };
                self.relsize_cache.push((rel, sz));
                proof {
                    assert(self.relsize_cache@.drop_last() =~= old(self).relsize_cache@);
                    assert(self@.relsizes == old(self)@.relsizes.insert(rel, sz));
                    assert(self@ =~= (CacheView {
                        relsizes: old(self)@.relsizes.insert(rel, sz),
                        ..old(self)@
                    }));
                    lemma_relsize_insert_view_wf(old(self)@, self@, rel, sz);
                }
                sz
            },
            Some(i) => {
                proof {
                    lemma_rel_map_last_found(self.relsize_cache@, rel, i as int);
                }
                let cur: u32 = self.relsize_cache[i].1;
                let sz: u32 = match to {
                    None => cur,
                    Some(t) => if t >= cur {
                        t + 1
                    } else {
                        cur
                    },
                };
                self.relsize_cache[i] = (rel, sz);
                proof {
                    lemma_rel_map_update_last(old(self).relsize_cache@, rel, i as int, sz);
                    assert(self@ =~= (CacheView {
                        relsizes: old(self)@.relsizes.insert(rel, sz),
                        ..old(self)@
                    }));
                    lemma_relsize_insert_view_wf(old(self)@, self@, rel, sz);
                }
                sz
            },
        }
    }

    /// Records that relation `rel` reaches at least block `to`: its cached
    /// size rises to `to + 1` if that is larger, and an absent relation is
    /// recorded even when `to` is `None`.
    pub fn relsize_inc(&mut self, rel: &RelTag, to: Option<u32>)
        requires
            old(self).wf(),
            (to is Some ==> to->Some_0 < u32::MAX),
        ensures
            final(self).wf(),
            final(self)@ == (CacheView {
                relsizes: old(self)@.relsizes.insert(
                    *rel,
                    relsize_after(old(self)@.relsizes, *rel, to),
                ),
                ..old(self)@
            }),
    {
        self.relsize_update(*rel, to);
    }

    /// The cached size of `rel`, in blocks; an absent relation is recorded
    /// at (and reported as) zero.
    pub fn relsize_get(&mut self, rel: &RelTag) -> (sz: u32)
        requires
            old(self).wf(),
        ensures
            final(self).wf(),
            sz == relsize_get_or_zero(old(self)@.relsizes, *rel),
            final(self)@ == (CacheView {
                relsizes: old(self)@.relsizes.insert(*rel, sz),
                ..old(self)@
            }),
    {
        self.relsize_update(*rel, None)
    }

    /// Whether a size is cached for `rel`.
    pub fn relsize_exist(&self, rel: &RelTag) -> (r: bool)
        ensures
            r == self@.relsizes.contains_key(*rel),
    {
        proof {
            lemma_rel_map_contains(self.relsize_cache@, *rel);
        }
        match self.relsize_find(*rel) {
            None => false,
            Some(_) => true,
        }
    }

    /// Stores a full page image as the version of `tag` at `lsn`. The key
    /// must be fresh; the relation-size cache is raised to cover the block.
    pub fn put_page_image(&mut self, tag: BufferTag, lsn: Lsn, img: bytes::Bytes)
        requires
            old(self).wf(),
            !has_version(old(self)@.entries, tag, lsn),
            tag.blknum < u32::MAX,
        ensures
            final(self).wf(),
            final(self)@ == (CacheView {
                entries: old(self)@.entries.push(image_entry(tag, lsn, bytes_view(img))),
                relsizes: old(self)@.relsizes.insert(
                    rel_of(tag),
                    relsize_after(old(self)@.relsizes, rel_of(tag), Some(tag.blknum)),
                ),
                ..old(self)@
            }),
    {
        let mut entry = CacheEntry::new(CacheKey { tag, lsn });
        entry.content.page_image = Some(img);
        let rel = RelTag {
            spcnode: tag.spcnode,
            dbnode: tag.dbnode,
            relnode: tag.relnode,
            forknum: tag.forknum,
        };
        let sz = self.relsize_update(rel, Some(tag.blknum));
        let ghost mid = self@;
        self.entries.push(entry);
        proof {
            let e = image_entry(tag, lsn, bytes_view(img));
            assert(self@.entries =~= mid.entries.push(e));
            lemma_push_entry_view_wf(mid, self@, e);
            assert(self@ =~= (CacheView {
                entries: old(self)@.entries.push(e),
                relsizes: old(self)@.relsizes.insert(
                    rel_of(tag),
                    relsize_after(old(self)@.relsizes, rel_of(tag), Some(tag.blknum)),
                ),
                ..old(self)@
            }));
        }
    }

    /// Stores a WAL record as the version of `tag` at the record's own
    /// position. The key must be fresh; the relation-size cache is raised to
    /// cover the block.
    pub fn put_wal_record(&mut self, tag: BufferTag, rec: WALRecord)
        requires
            old(self).wf(),
            !has_version(old(self)@.entries, tag, rec@.lsn),
            tag.blknum < u32::MAX,
        ensures
            final(self).wf(),
            final(self)@ == (CacheView {
                entries: old(self)@.entries.push(record_entry(tag, rec@)),
                relsizes: old(self)@.relsizes.insert(
                    rel_of(tag),
                    relsize_after(old(self)@.relsizes, rel_of(tag), Some(tag.blknum)),
                ),
                ..old(self)@
            }),
    {
        let ghost recv = rec@;
        let mut entry = CacheEntry::new(CacheKey { tag, lsn: rec.lsn });
        entry.content.wal_record = Some(rec);
        let rel = RelTag {
            spcnode: tag.spcnode,
            dbnode: tag.dbnode,
            relnode: tag.relnode,
            forknum: tag.forknum,
        };
        let sz = self.relsize_update(rel, Some(tag.blknum));
        let ghost mid = self@;
        self.entries.push(entry);
        proof {
            let e = record_entry(tag, recv);
            assert(self@.entries =~= mid.entries.push(e));
            lemma_push_entry_view_wf(mid, self@, e);
            assert(self@ =~= (CacheView {
                entries: old(self)@.entries.push(e),
                relsizes: old(self)@.relsizes.insert(
                    rel_of(tag),
                    relsize_after(old(self)@.relsizes, rel_of(tag), Some(tag.blknum)),
                ),
                ..old(self)@
            }));
        }
    }
    /// Position of the newest version of `tag` at or below `lsn`.
    fn lookup_newest(&self, tag: BufferTag, lsn: Lsn) -> (r: Option<usize>)
        ensures
            match r {
                None => newest_index(self@.entries, tag, lsn) is None,
                Some(p) => newest_index(self@.entries, tag, lsn) == Some(p as int),
            },
    {
        let ghost entries = self@.entries;
        let n = self.entries.len();
        let mut best: Option<usize> = None;
        let mut i: usize = 0;
        while i < n
            invariant
                n == entries.len(),
                entries == self@.entries,
                i <= n,
                match best {
                    None => newest_index(entries.take(i as int), tag, lsn) is None,
                    Some(b) => b < i && newest_index(entries.take(i as int), tag, lsn) == Some(
                        b as int,
                    ),
                },
            decreases n - i,
        {
            proof {
                assert(entries.take(i as int + 1).drop_last() =~= entries.take(i as int));
                assert(forall|j: int|
                    0 <= j <= i ==> entries.take(i as int + 1)[j] == entries[j]);
                lemma_newest_index_is_max(entries.take(i as int), tag, lsn);
            }
            let e_tag = self.entries[i].key.tag;
            let e_lsn = self.entries[i].key.lsn;
            if e_tag == tag && e_lsn <= lsn {
                match best {
                    None => {
                        best = Some(i);
                    },
                    Some(b) => {
                        if e_lsn >= self.entries[b].key.lsn {
                            best = Some(i);
                        }
                    },
                }
            }
            i = i + 1;
        }
        proof {
            assert(entries.take(n as int) =~= entries);
        }
        best
    }

    /// Serves a read of `tag` as of position `lsn`.
    ///
    /// A request ahead of `last_valid_lsn` asks the caller to wait; one
    /// behind `first_valid_lsn` fails with `LsnEvicted`. Otherwise the
    /// newest version at or below `lsn` answers: a never-written page reads
    /// as all zeroes, a stored or reconstructed image is returned as it is,
    /// and a WAL record is dispatched for reconstruction — the entry is
    /// marked `apply_pending`, queued for the redo worker if it was not
    /// already, and the caller awaits `complete_redo` on it.
    pub fn get_page_at_lsn(&mut self, tag: BufferTag, lsn: Lsn) -> (r: Result<
        GetPageOutcome,
        PageError,
    >)
        requires
            old(self).wf(),
        ensures
            final(self).wf(),
            final(self)@.first_valid_lsn == old(self)@.first_valid_lsn,
            final(self)@.last_valid_lsn == old(self)@.last_valid_lsn,
            final(self)@.relsizes == old(self)@.relsizes,
            final(self)@.entries.len() == old(self)@.entries.len(),
            match r {
                Ok(GetPageOutcome::WaitForWal) => lsn > old(self)@.last_valid_lsn && final(self)@
                    == old(self)@,
                Err(PageError::LsnEvicted) => lsn <= old(self)@.last_valid_lsn && lsn < old(
                    self,
                )@.first_valid_lsn && final(self)@ == old(self)@,
                Ok(GetPageOutcome::Page(b)) => {
                    &&& lsn <= old(self)@.last_valid_lsn
                    &&& lsn >= old(self)@.first_valid_lsn
                    &&& final(self)@ == old(self)@
                    &&& match newest_index(old(self)@.entries, tag, lsn) {
                        None => bytes_view(b) == zero_page(),
                        Some(p) => old(self)@.entries[p].page_image == Some(bytes_view(b)),
                    }
                },
                Ok(GetPageOutcome::AwaitRedo(pos)) => {
                    &&& lsn <= old(self)@.last_valid_lsn
                    &&& lsn >= old(self)@.first_valid_lsn
                    &&& newest_index(old(self)@.entries, tag, lsn) == Some(pos as int)
                    &&& old(self)@.entries[pos as int].page_image is None
                    &&& final(self)@.entries == old(self)@.entries.update(
                        pos as int,
                        (EntryView { apply_pending: true, ..old(self)@.entries[pos as int] }),
                    )
                    &&& if old(self)@.entries[pos as int].apply_pending {
                        final(self)@.redo_queue == old(self)@.redo_queue
                    } else {
                        final(self)@.redo_queue == old(self)@.redo_queue.push(pos)
                    }
                },
                Err(_) => false,
            },
    {
        if lsn > self.last_valid_lsn {
            return Ok(GetPageOutcome::WaitForWal);
        }
        if lsn < self.first_valid_lsn {
            return Err(PageError::LsnEvicted);
        }
        match self.lookup_newest(tag, lsn) {
            None => {
                let zeroes: Vec<u8> = vec![0u8; PAGE_SZ];
                let page = bytes_from_vec(zeroes);
                assert(bytes_view(page) =~= zero_page());
                Ok(GetPageOutcome::Page(page))
            },
            Some(p) => {
                proof {
                    lemma_newest_index_is_max(self@.entries, tag, lsn);
                }
                if self.entries[p].content.page_image.is_some() {
                    let img = self.entries[p].content.page_image.as_ref().unwrap();
                    Ok(GetPageOutcome::Page(bytes_clone(img)))
                } else {
                    let was_pending = self.entries[p].content.apply_pending;
                    if !was_pending {
                        self.entries[p].content.apply_pending = true;
                        proof {
                            assert(self@.entries[p as int] =~= (EntryView {
                                apply_pending: true,
                                ..old(self)@.entries[p as int]
                            }));
                            assert(self@.entries =~= old(self)@.entries.update(
                                p as int,
                                (EntryView {
                                    apply_pending: true,
                                    ..old(self)@.entries[p as int]
                                }),
                            ));
                        }
                        redo_queue_send(&mut self.walredo_queue, p);
                        proof {
                            lemma_await_redo_wf(old(self)@, self@, p);
                        }
                    } else {
                        proof {
                            assert((EntryView {
                                apply_pending: true,
                                ..old(self)@.entries[p as int]
                            }) =~= old(self)@.entries[p as int]);
                            assert(self@.entries =~= old(self)@.entries.update(
                                p as int,
                                (EntryView {
                                    apply_pending: true,
                                    ..old(self)@.entries[p as int]
                                }),
                            ));
                        }
                    }
                    Ok(GetPageOutcome::AwaitRedo(p))
                }
            },
        }
    }

    /// Called by the redo worker once reconstruction of entry `pos` is
    /// done: stores the reconstructed image and clears `apply_pending`. The
    /// waiting layer then wakes every reader blocked on the entry.
    pub fn complete_redo(&mut self, pos: usize, img: bytes::Bytes)
        requires
            old(self).wf(),
            pos < old(self)@.entries.len(),
            old(self)@.entries[pos as int].apply_pending,
            forall|k: int|
                0 <= k < old(self)@.redo_queue.len() ==> old(self)@.redo_queue[k] != pos,
        ensures
            final(self).wf(),
            final(self)@ == (CacheView {
                entries: old(self)@.entries.update(
                    pos as int,
                    (EntryView {
                        page_image: Some(bytes_view(img)),
                        apply_pending: false,
                        ..old(self)@.entries[pos as int]
                    }),
                ),
                ..old(self)@
            }),
    {
        self.entries[pos].content.page_image = Some(img);
        self.entries[pos].content.apply_pending = false;
        proof {
            let e = (EntryView {
                page_image: Some(bytes_view(img)),
                apply_pending: false,
                ..old(self)@.entries[pos as int]
            });
            assert(self@.entries[pos as int] =~= e);
            assert(self@.entries =~= old(self)@.entries.update(pos as int, e));
            assert(self@ =~= (CacheView {
                entries: old(self)@.entries.update(pos as int, e),
                ..old(self)@
            }));
            lemma_complete_redo_wf(old(self)@, self@, pos as int);
        }
    }

    /// Collects what the redo worker needs in order to reconstruct entry
    /// `pos`: the newest base image its chain reaches (if any), and the
    /// records to apply over it, in ascending LSN order.
    pub fn collect_records_for_apply(&self, pos: usize) -> (r: (
        Option<bytes::Bytes>,
        Vec<WALRecord>,
    ))
        requires
            self.wf(),
            pos < self@.entries.len(),
        ensures
            option_bytes_view(r.0) == collect_spec(
                self@.entries,
                self@.entries[pos as int].tag,
                self@.entries[pos as int].lsn,
            ).0,
            recs_view(r.1@) == collect_spec(
                self@.entries,
                self@.entries[pos as int].tag,
                self@.entries[pos as int].lsn,
            ).1,
    {
        let tag = self.entries[pos].key.tag;
        let lsn0 = self.entries[pos].key.lsn;
        let ghost entries = self@.entries;
        let ghost goal = collect_spec(entries, tag, lsn0);
        let mut base: Option<bytes::Bytes> = None;
        let mut recs: Vec<WALRecord> = Vec::new();
        let mut bound: Lsn = lsn0;
        let mut active: bool = true;
        proof {
            assert(goal.1 =~= collect_spec(entries, tag, bound).1 + recs_view(recs@));
        }
        while active
            invariant
                self.wf(),
                entries == self@.entries,
                goal == collect_spec(entries, tag, lsn0),
                active ==> base is None,
                active ==> goal.0 == collect_spec(entries, tag, bound).0,
                active ==> goal.1 == collect_spec(entries, tag, bound).1 + recs_view(recs@),
                !active ==> option_bytes_view(base) == goal.0,
                !active ==> recs_view(recs@) == goal.1,
            decreases (if active {
                1int
            } else {
                0int
            }), bound,
        {
            let ghost sb = collect_spec(entries, tag, bound);
            match self.lookup_newest(tag, bound) {
                None => {
                    proof {
                        assert(sb.1.len() == 0);
                        assert(recs_view(recs@) =~= goal.1);
                    }
                    active = false;
                },
                Some(p) => {
                    proof {
                        lemma_newest_index_is_max(entries, tag, bound);
                        assert(entry_wf(entries[p as int]));
                    }
                    if self.entries[p].content.page_image.is_some() {
                        let img = self.entries[p].content.page_image.as_ref().unwrap();
                        base = Some(bytes_clone(img));
                        proof {
                            assert(sb.0 == Some(bytes_view(base->Some_0)));
                            assert(sb.1.len() == 0);
                            assert(recs_view(recs@) =~= goal.1);
                        }
                        active = false;
                    } else {
                        let rec = self.entries[p].content.wal_record.as_ref().unwrap();
                        let copied = WALRecord {
                            lsn: rec.lsn,
                            will_init: rec.will_init,
                            rec: bytes_clone(&rec.rec),
                        };
                        let e_lsn = self.entries[p].key.lsn;
                        let stop = rec.will_init || e_lsn == 0;
                        let ghost prev_recs = recs@;
                        let ghost rv = entries[p as int].wal_record->Some_0;
                        recs.insert(0, copied);
                        proof {
                            assert(recs@ == prev_recs.insert(0, copied));
                            assert(copied@ == rv);
                            assert forall|j: int| 0 <= j < recs@.len() implies recs_view(recs@)[j]
                                == (seq![rv] + recs_view(prev_recs))[j] by {
                                if j > 0 {
                                    assert(recs@[j] == prev_recs[j - 1]);
                                } else {
                                    assert(recs@[0] == copied);
                                }
                            }
                            assert(recs_view(recs@) =~= seq![rv] + recs_view(prev_recs));
                        }
                        if stop {
                            proof {
                                assert(sb.1 =~= seq![rv]);
                                assert(recs_view(recs@) =~= goal.1);
                            }
                            active = false;
                        } else {
                            proof {
                                let snext = collect_spec(entries, tag, (e_lsn - 1) as u64);
                                assert(sb.0 == snext.0);
                                assert(sb.1 =~= snext.1.push(rv));
                                assert(snext.1.push(rv) =~= snext.1 + seq![rv]);
                                assert(goal.1 =~= snext.1 + recs_view(recs@));
                            }
                            bound = e_lsn - 1;
                        }
                    }
                },
            }
        }
        (base, recs)
    }

    /// Smoke test of the lookup path: picks a cached page at random and
    /// asks for its version as of a far-future position.
    pub fn _test_get_page_at_lsn(&mut self) -> (r: Option<Result<GetPageOutcome, PageError>>)
        requires
            old(self).wf(),
        ensures
            final(self).wf(),
            (r is None <==> old(self)@.entries.len() == 0),
            final(self)@.first_valid_lsn == old(self)@.first_valid_lsn,
            final(self)@.last_valid_lsn == old(self)@.last_valid_lsn,
            final(self)@.relsizes == old(self)@.relsizes,
            final(self)@.entries.len() == old(self)@.entries.len(),
    {
        let n = self.entries.len();
        if n == 0 {
            return None;
        }
        let pick = random_below(n);
        let tag = self.entries[pick].key.tag;
        Some(self.get_page_at_lsn(tag, 0xffff_ffff_ffff_eeee))
    }

    /// Hands the next redo request to a worker: the position of an entry
    /// whose image must be reconstructed, in dispatch order.
    pub fn take_redo_request(&mut self) -> (r: Option<usize>)
        requires
            old(self).wf(),
        ensures
            final(self).wf(),
            match r {
                None => old(self)@.redo_queue.len() == 0 && final(self)@ == old(self)@,
                Some(pos) => old(self)@.redo_queue.len() > 0 && pos == old(self)@.redo_queue[0]
                    && pos < final(self)@.entries.len()
                    && final(self)@.entries[pos as int].apply_pending && final(self)@
                    == (CacheView {
                    redo_queue: old(self)@.redo_queue.subrange(
                        1,
                        old(self)@.redo_queue.len() as int,
                    ),
                    ..old(self)@
                }) && (forall|k: int|
                    0 <= k < final(self)@.redo_queue.len() ==> final(self)@.redo_queue[k] != pos),
            },
    {
        let r = redo_queue_try_recv(&mut self.walredo_queue);
        proof {
            if old(self)@.redo_queue.len() == 0 {
                assert(self@ =~= old(self)@);
            } else {
                assert(self@ =~= (CacheView {
                    redo_queue: old(self)@.redo_queue.subrange(
                        1,
                        old(self)@.redo_queue.len() as int,
                    ),
                    ..old(self)@
                }));
                assert(forall|k: int|
                    0 <= k < self@.redo_queue.len() ==> self@.redo_queue[k] == old(
                        self,
                    )@.redo_queue[k + 1]);
            }
        }
        r
    }
}

proof fn lemma_await_redo_wf(v: CacheView, w: CacheView, p: usize)
    requires
        view_wf(v),
        p < v.entries.len(),
        !v.entries[p as int].apply_pending,
        v.entries[p as int].page_image is None,
        w.entries == v.entries.update(
            p as int,
            (EntryView { apply_pending: true, ..v.entries[p as int] }),
        ),
        w.relsizes == v.relsizes,
        w.first_valid_lsn == v.first_valid_lsn,
        w.last_valid_lsn == v.last_valid_lsn,
        w.redo_queue == v.redo_queue.push(p),
    ensures
        view_wf(w),
{
    assert(forall|i: int|
        0 <= i < v.entries.len() && i != p as int ==> w.entries[i] == v.entries[i]);
    assert(entry_wf(v.entries[p as int]));
    assert(entry_wf(w.entries[p as int]));
    assert(w.redo_queue[v.redo_queue.len() as int] == p);
    assert forall|k: int| 0 <= k < w.redo_queue.len() implies (#[trigger] w.redo_queue[k])
        < w.entries.len() && w.entries[w.redo_queue[k] as int].apply_pending by {
        if k < v.redo_queue.len() {
            assert(v.entries[v.redo_queue[k] as int].apply_pending);
        }
    }
    assert forall|k1: int, k2: int|
        0 <= k1 < w.redo_queue.len() && 0 <= k2 < w.redo_queue.len() && k1 != k2 implies (
    #[trigger] w.redo_queue[k1]) != (#[trigger] w.redo_queue[k2]) by {
        if k1 < v.redo_queue.len() && k2 < v.redo_queue.len() {
        } else if k1 == v.redo_queue.len() {
            // a queued position is pending, and `p` was not
            assert(v.entries[v.redo_queue[k2] as int].apply_pending);
        } else {
            assert(v.entries[v.redo_queue[k1] as int].apply_pending);
        }
    }
}

proof fn lemma_complete_redo_wf(v: CacheView, w: CacheView, p: int)
    requires
        view_wf(v),
        0 <= p < v.entries.len(),
        v.entries[p].apply_pending,
        forall|k: int| 0 <= k < v.redo_queue.len() ==> v.redo_queue[k] != p,
        w.entries[p].tag == v.entries[p].tag,
        w.entries[p].lsn == v.entries[p].lsn,
        w.entries[p].page_image is Some,
        w.entries[p].wal_record == v.entries[p].wal_record,
        !w.entries[p].apply_pending,
        w.entries == v.entries.update(p, w.entries[p]),
        w.relsizes == v.relsizes,
        w.first_valid_lsn == v.first_valid_lsn,
        w.last_valid_lsn == v.last_valid_lsn,
        w.redo_queue == v.redo_queue,
    ensures
        view_wf(w),
{
    assert(forall|i: int| 0 <= i < v.entries.len() && i != p ==> w.entries[i] == v.entries[i]);
    assert(entry_wf(v.entries[p]));
    assert(entry_wf(w.entries[p]));
    assert forall|k: int| 0 <= k < w.redo_queue.len() implies (#[trigger] w.redo_queue[k])
        < w.entries.len() && w.entries[w.redo_queue[k] as int].apply_pending by {
        assert(v.entries[v.redo_queue[k] as int].apply_pending);
    }
}

/// Any two positions holding the same `(tag, lsn)` key coincide: the cache
/// keeps at most one entry per key.
pub proof fn lemma_version_unique(v: CacheView, i: int, j: int)
    requires
        view_wf(v),
        0 <= i < v.entries.len(),
        0 <= j < v.entries.len(),
        v.entries[i].tag == v.entries[j].tag,
        v.entries[i].lsn == v.entries[j].lsn,
    ensures
        i == j,
{
}

/// Once `last_valid_lsn` is set, the watermarks stay ordered: reads are
/// answerable on the whole range between them.
pub proof fn lemma_watermarks_ordered(v: CacheView)
    requires
        view_wf(v),
        v.last_valid_lsn > 0,
    ensures
        v.first_valid_lsn <= v.last_valid_lsn,
{
}

/// Storing an image at a fresh `(tag, lsn)` key makes it the version that a
/// read of `tag` at `lsn` answers with: the newest entry at or below `lsn`
/// is the stored image itself, byte for byte.
pub proof fn lemma_image_read_back(entries: Seq<EntryView>, tag: BufferTag, lsn: Lsn, img: Seq<u8>)
    requires
        !has_version(entries, tag, lsn),
    ensures
        newest_index(entries.push(image_entry(tag, lsn, img)), tag, lsn) == Some(
            entries.len() as int,
        ),
        entries.push(image_entry(tag, lsn, img))[entries.len() as int].page_image == Some(img),
{
    let pushed = entries.push(image_entry(tag, lsn, img));
    lemma_newest_index_is_max(pushed, tag, lsn);
    assert(pushed[entries.len() as int] == image_entry(tag, lsn, img));
    match newest_index(pushed, tag, lsn) {
        None => {
            assert(pushed[entries.len() as int].tag == tag && pushed[entries.len() as int].lsn
                <= lsn);
        },
        Some(p) => {
            if p < entries.len() {
                assert(pushed[p] == entries[p]);
                assert(pushed[entries.len() as int].lsn <= pushed[p].lsn);
                assert(entries[p].tag == tag && entries[p].lsn == lsn);
                assert(has_version(entries, tag, lsn));
            }
        },
    }
}

/// A record that initializes its page makes reconstruction start from it:
/// when the version a read lands on is a `will_init` record, collecting
/// yields no base image and that record alone, whatever older versions of
/// the page exist.
pub proof fn lemma_will_init_skips_base(entries: Seq<EntryView>, tag: BufferTag, lsn: Lsn)
    requires
        newest_index(entries, tag, lsn) is Some,
        entries[newest_index(entries, tag, lsn)->Some_0].page_image is None,
        entries[newest_index(entries, tag, lsn)->Some_0].wal_record is Some,
        entries[newest_index(entries, tag, lsn)->Some_0].wal_record->Some_0.will_init,
    ensures
        collect_spec(entries, tag, lsn) == (
            None::<Seq<u8>>,
            seq![entries[newest_index(entries, tag, lsn)->Some_0].wal_record->Some_0],
        ),
{
}

/// A tag that was never written has no version at any position, so a read
/// of it answers with the zero page.
pub proof fn lemma_unseen_tag_has_no_version(entries: Seq<EntryView>, tag: BufferTag, lsn: Lsn)
    requires
        forall|i: int| 0 <= i < entries.len() ==> (#[trigger] entries[i]).tag != tag,
    ensures
        newest_index(entries, tag, lsn) is None,
{
    lemma_newest_index_is_max(entries, tag, lsn);
    if newest_index(entries, tag, lsn) is Some {
        let p = newest_index(entries, tag, lsn)->Some_0;
        assert(entries[p].tag == tag);
    }
}

/// The cached relation size strictly exceeds every block number ever
/// inserted for that relation.
pub proof fn lemma_relsize_covers(v: CacheView, i: int)
    requires
        view_wf(v),
        0 <= i < v.entries.len(),
    ensures
        v.relsizes.contains_key(rel_of(v.entries[i].tag)),
        v.entries[i].tag.blknum < v.relsizes[rel_of(v.entries[i].tag)],
        relsize_get_or_zero(v.relsizes, rel_of(v.entries[i].tag)) > v.entries[i].tag.blknum,
{
}

/// Relies on `rand::Rng::gen_range` over `0..n`: the result is below `n`.
/// The range must be non-empty, or the call panics.
#[verifier::external_body]
fn random_below(n: usize) -> (r: usize)
    requires
        n > 0,
    ensures
        r < n,
{
    rand::Rng::gen_range(&mut rand::thread_rng(), 0..n)
}

/// An empty page cache: no versions, no relation sizes, both watermarks
/// zero, nothing queued for redo.
pub fn init_page_cache() -> (pcache: PageCache)
    ensures
        pcache.wf(),
        pcache@.entries.len() == 0,
        pcache@.relsizes == Map::<RelTag, u32>::empty(),
        pcache@.first_valid_lsn == 0,
        pcache@.last_valid_lsn == 0,
        pcache@.redo_queue.len() == 0,
{
    PageCache {
        entries: Vec::new(),
        relsize_cache: Vec::new(),
        first_valid_lsn: 0,
        last_valid_lsn: 0,
        walredo_queue: redo_queue_new(),
    }
}

} // verus!
