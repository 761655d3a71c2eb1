//! The pager: a sharded page buffer pool over a fixed-slot disk image.
//!
//! The pager owns the in-memory disk image (one byte string per page slot)
//! and the sharded cache of decoded pages. Reading the image from the
//! backing file at startup, and writing it back, is the process edge's job;
//! everything the pool decides — hits, misses, allocation, dirty tracking,
//! padding — is verified here.

use vstd::prelude::*;
use crate::error::TitanError;
use crate::page::{spec_fresh, Page, PageId, PageType, PageV, PAGE_SIZE};
use crate::codec::{lemma_round_trip, lens_fit, spec_deserialize, spec_serialize};

verus! {

/// Number of independently locked partitions of the page cache.
pub const SHARD_COUNT: usize = 16;

/// One cache partition: its pages, keyed by page id.
struct Shard {
    entries: Vec<(u64, Page)>,
}

/// The buffer pool: sharded cache, disk image, page counter, and the two
/// observability counters for physical slot reads and writes.
pub struct Pager {
    shards: Vec<Shard>,
    disk: Vec<Vec<u8>>,
    total_pages: u64,
    disk_reads: u64,
    disk_writes: u64,
}

/// First page stored under `id` in a shard's entry list.
spec fn find_in(entries: Seq<(u64, Page)>, id: u64) -> Option<Page>
    decreases entries.len(),
{
    if entries.len() == 0 {
        None
    } else if entries[0].0 == id {
        Some(entries[0].1)
    } else {
        find_in(entries.drop_first(), id)
    }
}

/// A saturating counter step.
pub open spec fn bump(x: u64) -> u64 {
    if x < 0xffff_ffff_ffff_ffff {
        (x + 1) as u64
    } else {
        x
    }
}

/// A page slot image: the encoded page padded with zeros to the slot size.
pub open spec fn padded(s: Seq<u8>) -> Seq<u8> {
    s + Seq::new((PAGE_SIZE - s.len()) as nat, |i: int| 0u8)
}

/// An all-zero page slot.
pub open spec fn zero_slot() -> Seq<u8> {
    Seq::new(PAGE_SIZE as nat, |i: int| 0u8)
}

proof fn lemma_find_in_from(entries: Seq<(u64, Page)>, id: u64, i: int)
    requires
        0 <= i <= entries.len(),
        forall|j: int| 0 <= j < i ==> (#[trigger] entries[j]).0 != id,
    ensures
        find_in(entries, id) == find_in(entries.skip(i), id),
    decreases i,
{
    if i > 0 {
        assert(entries[0].0 != id);
        assert(entries.len() > 0);
        let t = entries.drop_first();
        assert forall|j: int| 0 <= j < i - 1 implies (#[trigger] t[j]).0 != id by {
            assert(t[j] == entries[j + 1]);
        }
        lemma_find_in_from(t, id, i - 1);
        assert(t.skip(i - 1) =~= entries.skip(i));
    } else {
        assert(entries.skip(0) =~= entries);
    }
}

proof fn lemma_find_in_push(entries: Seq<(u64, Page)>, e: (u64, Page), id: u64)
    ensures
        find_in(entries.push(e), id) == if find_in(entries, id) is Some {
            find_in(entries, id)
        } else if e.0 == id {
            Some(e.1)
        } else {
            None::<Page>
        },
    decreases entries.len(),
{
    reveal_with_fuel(find_in, 3);
    if entries.len() == 0 {
        assert(entries.push(e)[0] == e);
        assert(entries.push(e).drop_first() =~= Seq::<(u64, Page)>::empty());
    } else {
        assert(entries.push(e)[0] == entries[0]);
        assert(entries.push(e).drop_first() =~= entries.drop_first().push(e));
        lemma_find_in_push(entries.drop_first(), e, id);
    }
}

proof fn lemma_find_in_update(entries: Seq<(u64, Page)>, j: int, e: (u64, Page), id: u64)
    requires
        0 <= j < entries.len(),
        entries[j].0 == e.0,
        forall|k: int| 0 <= k < j ==> (#[trigger] entries[k]).0 != e.0,
    ensures
        find_in(entries.update(j, e), e.0) == Some(e.1),
        id != e.0 ==> find_in(entries.update(j, e), id) == find_in(entries, id),
    decreases j,
{
    let u = entries.update(j, e);
    if j == 0 {
        assert(u[0] == e);
        assert(u.drop_first() =~= entries.drop_first());
    } else {
        assert(u[0] == entries[0]);
        assert(entries[0].0 != e.0);
        let t = entries.drop_first();
        assert forall|k: int| 0 <= k < j - 1 implies (#[trigger] t[k]).0 != e.0 by {
            assert(t[k] == entries[k + 1]);
        }
        assert(t[j - 1] == entries[j]);
        lemma_find_in_update(t, j - 1, e, id);
        assert(u.drop_first() =~= t.update(j - 1, e));
    }
}

impl Pager {
    /// Which shard a page id lives in.
    pub closed spec fn shard_of(id: u64) -> int {
        (id as int) % (SHARD_COUNT as int)
    }

    /// The monotonically allocated page counter.
    pub closed spec fn spec_total_pages(self) -> u64 {
        self.total_pages
    }

    /// The disk image: one byte string per page slot.
    pub closed spec fn spec_disk(self) -> Seq<Seq<u8>> {
        Seq::new(self.disk@.len(), |i: int| self.disk@[i]@)
    }

    /// How many physical slot reads have happened.
    pub closed spec fn spec_reads(self) -> u64 {
        self.disk_reads
    }

    /// How many physical slot writes have happened.
    pub closed spec fn spec_writes(self) -> u64 {
        self.disk_writes
    }

    /// Whether the cache holds an entry for `id`.
    pub closed spec fn in_cache(self, id: u64) -> bool {
        &&& 0 <= Self::shard_of(id) < self.shards@.len()
        &&& find_in(self.shards@[Self::shard_of(id)].entries@, id) is Some
    }

    /// The cached page under `id`.
    pub closed spec fn cached(self, id: u64) -> PageV {
        find_in(self.shards@[Self::shard_of(id)].entries@, id)->0@
    }

    /// Pool invariant: sixteen shards; every cached page well formed, keyed
    /// by its own id, resident in its id's shard, and allocated, with at
    /// most one entry per id; every disk slot exactly one page in size; the
    /// counter covers the disk extent.
    pub closed spec fn wf(self) -> bool {
        &&& self.shards@.len() == SHARD_COUNT
        &&& forall|s: int, j: int|
            0 <= s < self.shards@.len() && 0 <= j < self.shards@[s].entries@.len() ==> {
                let e = #[trigger] self.shards@[s].entries@[j];
                &&& e.1@.header.page_id == e.0
                &&& e.1.wf()
                &&& Self::shard_of(e.0) == s
                &&& e.0 < self.total_pages
            }
        &&& forall|s: int, j1: int, j2: int|
            0 <= s < self.shards@.len() && 0 <= j1 < j2 < self.shards@[s].entries@.len()
                ==> (#[trigger] self.shards@[s].entries@[j1]).0 != (
            #[trigger] self.shards@[s].entries@[j2]).0
        &&& forall|d: int|
            0 <= d < self.disk@.len() ==> (#[trigger] self.disk@[d])@.len() == PAGE_SIZE
        &&& self.disk@.len() <= self.total_pages
    }

    /// The page counter, as the callers may observe it.
    pub fn total_pages(&self) -> (r: u64)
        ensures
            r == self.spec_total_pages(),
    {
        self.total_pages
    }

    /// The physical read counter.
    pub fn disk_reads(&self) -> (r: u64)
        ensures
            r == self.spec_reads(),
    {
        self.disk_reads
    }

    /// The physical write counter.
    pub fn disk_writes(&self) -> (r: u64)
        ensures
            r == self.spec_writes(),
    {
        self.disk_writes
    }

    /// The current disk image, for the process edge to persist after
    /// flushing.
    pub fn slots(&self) -> (r: &Vec<Vec<u8>>)
        ensures
            r@.len() == self.spec_disk().len(),
            forall|d: int| 0 <= d < r@.len() ==> (#[trigger] r@[d])@ == self.spec_disk()[d],
    {
        &self.disk
    }

    /// Opens a pool over the slots read from the backing file. The page
    /// counter starts at the file extent; the cache starts empty.
    pub fn open(slots: Vec<Vec<u8>>) -> (p: Pager)
        requires
            forall|d: int| 0 <= d < slots@.len() ==> (#[trigger] slots@[d])@.len() == PAGE_SIZE,
        ensures
            p.wf(),
            p.spec_total_pages() == slots@.len(),
            p.spec_disk().len() == slots@.len(),
            forall|d: int| 0 <= d < slots@.len() ==> p.spec_disk()[d] == (#[trigger] slots@[d])@,
            p.spec_reads() == 0,
            p.spec_writes() == 0,
            forall|id: u64| !p.in_cache(id),
    {
        let total = slots.len() as u64;
        let mut shards: Vec<Shard> = Vec::new();
        let mut s: usize = 0;
        while s < SHARD_COUNT
            invariant
                s <= SHARD_COUNT,
                shards@.len() == s,
                forall|t: int| 0 <= t < s ==> (#[trigger] shards@[t]).entries@.len() == 0,
            decreases SHARD_COUNT - s,
        {
            shards.push(Shard { entries: Vec::new() });
            s = s + 1;
        }
        let p = Pager { shards, disk: slots, total_pages: total, disk_reads: 0, disk_writes: 0 };
        p
    }

    /// Looks `page_id` up in its shard; tells exactly whether and where it
    /// is cached.
    fn find_entry(&self, page_id: u64) -> (r: Option<usize>)
        requires
            self.wf(),
        ensures
            match r {
                Some(j) => {
                    let entries = self.shards@[Self::shard_of(page_id)].entries@;
                    &&& self.in_cache(page_id)
                    &&& 0 <= j < entries.len()
                    &&& entries[j as int].0 == page_id
                    &&& entries[j as int].1@ == self.cached(page_id)
                    &&& forall|k: int| 0 <= k < j ==> (#[trigger] entries[k]).0 != page_id
                },
                None => !self.in_cache(page_id),
            },
    {
        let s = (page_id % (SHARD_COUNT as u64)) as usize;
        proof {
            assert(s as int == Self::shard_of(page_id));
        }
        let shard = &self.shards[s];
        let n = shard.entries.len();
        let mut j: usize = 0;
        while j < n
            invariant
                self.wf(),
                s < SHARD_COUNT,
                s as int == Self::shard_of(page_id),
                shard.entries@ == self.shards@[s as int].entries@,
                j <= n,
                n == shard.entries@.len(),
                forall|k: int| 0 <= k < j ==> (#[trigger] shard.entries@[k]).0 != page_id,
            decreases n - j,
        {
            if shard.entries[j].0 == page_id {
                proof {
                    lemma_find_in_from(shard.entries@, page_id, j as int);
                    assert(shard.entries@.skip(j as int)[0] == shard.entries@[j as int]);
                    assert(find_in(shard.entries@, page_id) == Some(
                        shard.entries@[j as int].1,
                    ));
                }
                return Some(j);
            }
            j = j + 1;
        }
        proof {
            lemma_find_in_from(shard.entries@, page_id, n as int);
            assert(shard.entries@.skip(n as int) =~= Seq::<(u64, Page)>::empty());
        }
        None
    }

    /// Serves a page. A cache hit returns the cached page with no disk
    /// access and no state change. A miss beyond the disk extent fails with
    /// `PageNotFound`: the id was never allocated. A miss within the extent
    /// reads the slot, decodes it — a page that does not decode to its own
    /// id is `CorruptPage`, never a synthesized blank — and fills the cache,
    /// leaving the fresh entry clean.
    pub fn fetch_page(&mut self, page_id: u64) -> (r: Result<Page, TitanError>)
        requires
            old(self).wf(),
        ensures
            final(self).wf(),
            final(self).spec_total_pages() == old(self).spec_total_pages(),
            final(self).spec_disk() == old(self).spec_disk(),
            final(self).spec_writes() == old(self).spec_writes(),
            (r matches Ok(p) ==> p.wf() && final(self).in_cache(page_id) && final(self).cached(
                page_id,
            ) == p@),
            forall|id: u64| #[trigger]
                old(self).in_cache(id) ==> final(self).in_cache(id) && final(self).cached(id)
                    == old(self).cached(id),
            forall|id: u64|
                id != page_id && !old(self).in_cache(id) ==> !(#[trigger] final(self).in_cache(
                    id,
                )),
            old(self).in_cache(page_id) ==> (match r {
                Ok(p) => p@ == old(self).cached(page_id),
                Err(_) => false,
            }) && *final(self) == *old(self),
            !old(self).in_cache(page_id) && page_id >= old(self).spec_disk().len() ==> r == Err::<
                Page,
                TitanError,
            >(TitanError::PageNotFound(page_id)) && final(self).spec_reads() == old(self).spec_reads() && !final(self).in_cache(page_id),
            !old(self).in_cache(page_id) && page_id < old(self).spec_disk().len() ==> final(self).spec_reads() == bump(old(self).spec_reads()) && (match spec_deserialize(
                old(self).spec_disk()[page_id as int],
            ) {
                Some(pv) => if pv.header.page_id == page_id {
                    &&& (match r {
                        Ok(p) => p@ == pv,
                        Err(_) => false,
                    })
                    &&& final(self).in_cache(page_id)
                    &&& final(self).cached(page_id) == pv
                } else {
                    r == Err::<Page, TitanError>(TitanError::CorruptPage) && !final(self).in_cache(page_id)
                },
                None => r == Err::<Page, TitanError>(TitanError::CorruptPage) && !final(self).in_cache(page_id),
            }),
    {
        match self.find_entry(page_id) {
            Some(j) => {
                let s = (page_id % (SHARD_COUNT as u64)) as usize;
                proof {
                    assert(s as int == Self::shard_of(page_id));
                    assert(self.shards@[s as int].entries@[j as int].1.wf());
                }
                let p = self.shards[s].entries[j].1.duplicate();
                return Ok(p);
            },
            None => {},
        }
        if page_id >= self.disk.len() as u64 {
            return Err(TitanError::PageNotFound(page_id));
        }
        let slot = &self.disk[page_id as usize];
        proof {
            assert(slot@ =~= self.spec_disk()[page_id as int]);
        }
        let decoded = match Page::deserialize(slot.as_slice()) {
            Ok(p) => p,
            Err(_) => {
                self.disk_reads = saturating_bump(self.disk_reads);
                return Err(TitanError::CorruptPage);
            },
        };
        self.disk_reads = saturating_bump(self.disk_reads);
        if decoded.header.page_id != page_id {
            return Err(TitanError::CorruptPage);
        }
        let copy = decoded.duplicate();
        let s = (page_id % (SHARD_COUNT as u64)) as usize;
        proof {
            assert(s as int == Self::shard_of(page_id));
            let entries = self.shards@[s as int].entries@;
            lemma_find_in_push(entries, (page_id, decoded), page_id);
            assert forall|id: u64| id != page_id implies find_in(
                entries.push((page_id, decoded)),
                id,
            ) == find_in(entries, id) by {
                lemma_find_in_push(entries, (page_id, decoded), id);
            }
            assert forall|j1: int|
                0 <= j1 < entries.len() implies (#[trigger] entries[j1]).0 != page_id by {
                if entries[j1].0 == page_id {
                    lemma_entry_means_find_in_some(entries, page_id, j1);
                }
            }
        }
        let shard = &mut self.shards[s];
        shard.entries.push((page_id, decoded));
        Ok(copy)
    }

    /// Allocates a fresh page: increments the counter, caches a new empty
    /// dirty page of the given type, and returns it. No disk access occurs.
    pub fn allocate_page(&mut self, page_type: PageType) -> (r: Result<Page, TitanError>)
        requires
            old(self).wf(),
            old(self).spec_total_pages() < 0xffff_ffff_ffff_ffff,
        ensures
            final(self).wf(),
            final(self).spec_total_pages() == old(self).spec_total_pages() + 1,
            final(self).spec_disk() == old(self).spec_disk(),
            final(self).spec_reads() == old(self).spec_reads(),
            final(self).spec_writes() == old(self).spec_writes(),
            (match r {
                Ok(p) => p@ == spec_fresh(old(self).spec_total_pages(), page_type),
                Err(_) => false,
            }),
            final(self).in_cache(old(self).spec_total_pages()),
            final(self).cached(old(self).spec_total_pages()) == spec_fresh(
                old(self).spec_total_pages(),
                page_type,
            ),
            forall|id: u64| #[trigger]
                old(self).in_cache(id) ==> final(self).in_cache(id) && final(self).cached(id)
                    == old(self).cached(id),
            forall|id: u64|
                id != old(self).spec_total_pages() && !old(self).in_cache(id) ==> !(
                #[trigger] final(self).in_cache(id)),
    {
        let page_id = self.total_pages;
        self.total_pages = self.total_pages + 1;
        let page = Page::new(page_id, page_type);
        let copy = page.duplicate();
        let s = (page_id % (SHARD_COUNT as u64)) as usize;
        proof {
            assert(s as int == Self::shard_of(page_id));
            let entries = self.shards@[s as int].entries@;
            lemma_find_in_push(entries, (page_id, page), page_id);
            assert forall|id: u64| id != page_id implies find_in(
                entries.push((page_id, page)),
                id,
            ) == find_in(entries, id) by {
                lemma_find_in_push(entries, (page_id, page), id);
            }
            assert(find_in(entries, page_id) is None) by {
                if find_in(entries, page_id) is Some {
                    lemma_find_in_some_means_entry(entries, page_id);
                }
            }
            assert forall|j1: int|
                0 <= j1 < entries.len() implies (#[trigger] entries[j1]).0 != page_id by {
                if entries[j1].0 == page_id {
                    lemma_entry_means_find_in_some(entries, page_id, j1);
                }
            }
        }
        let shard = &mut self.shards[s];
        shard.entries.push((page_id, page));
        Ok(copy)
    }

    /// Writes a mutated page back into the cache under its own id and marks
    /// it dirty; the caller must have fetched or allocated the id first.
    pub fn update_page(&mut self, page: Page) -> (r: Result<(), TitanError>)
        requires
            old(self).wf(),
            page.wf(),
        ensures
            final(self).wf(),
            final(self).spec_total_pages() == old(self).spec_total_pages(),
            final(self).spec_disk() == old(self).spec_disk(),
            final(self).spec_reads() == old(self).spec_reads(),
            final(self).spec_writes() == old(self).spec_writes(),
            forall|id: u64|
                #[trigger] final(self).in_cache(id) <==> old(self).in_cache(id),
            !old(self).in_cache(page@.header.page_id) ==> r == Err::<(), TitanError>(
                TitanError::PageNotFound(page@.header.page_id),
            ) && *final(self) == *old(self),
            old(self).in_cache(page@.header.page_id) ==> {
                &&& r == Ok::<(), TitanError>(())
                &&& final(self).cached(page@.header.page_id) == (PageV { dirty: true, ..page@ })
                &&& forall|id: u64|
                    id != page@.header.page_id ==> #[trigger] final(self).cached(id) == old(self).cached(id)
            },
    {
        let page_id = page.header.page_id;
        let j = match self.find_entry(page_id) {
            Some(j) => j,
            None => {
                return Err(TitanError::PageNotFound(page_id));
            },
        };
        let s = (page_id % (SHARD_COUNT as u64)) as usize;
        let mut stored = page;
        stored.dirty = true;
        proof {
            assert(s as int == Self::shard_of(page_id));
            let entries = self.shards@[s as int].entries@;
            assert forall|id: u64| true implies find_in(
                entries.update(j as int, (page_id, stored)),
                id,
            ) == if id == page_id {
                Some(stored)
            } else {
                find_in(entries, id)
            } by {
                lemma_find_in_update(entries, j as int, (page_id, stored), id);
            }
        }
        let shard = &mut self.shards[s];
        shard.entries[j] = (page_id, stored);
        Ok(())
    }

    /// Flushes a page. An id the pool has never seen is `PageNotFound`. A
    /// clean page is a no-op: no disk write happens, observable on the
    /// write counter. A dirty page is encoded, padded to exactly one slot,
    /// written at its slot offset — growing the extent with zero slots if
    /// needed — and its dirty flag is cleared.
    pub fn flush_page(&mut self, page_id: u64) -> (r: Result<(), TitanError>)
        requires
            old(self).wf(),
        ensures
            final(self).wf(),
            final(self).spec_total_pages() == old(self).spec_total_pages(),
            final(self).spec_reads() == old(self).spec_reads(),
            forall|id: u64| #[trigger] final(self).in_cache(id) <==> old(self).in_cache(id),
            !old(self).in_cache(page_id) ==> r == Err::<(), TitanError>(TitanError::PageNotFound(
                page_id,
            )) && *final(self) == *old(self),
            old(self).in_cache(page_id) && !old(self).cached(page_id).dirty ==> r == Ok::<
                (),
                TitanError,
            >(()) && *final(self) == *old(self),
            old(self).in_cache(page_id) && old(self).cached(page_id).dirty ==> {
                let encoded = spec_serialize(old(self).cached(page_id));
                if encoded.len() <= PAGE_SIZE {
                    &&& r == Ok::<(), TitanError>(())
                    &&& final(self).spec_writes() == bump(old(self).spec_writes())
                    &&& spec_deserialize(final(self).spec_disk()[page_id as int]) == Some(
                        (PageV { dirty: false, ..old(self).cached(page_id) }),
                    )
                    &&& final(self).spec_disk().len() == vstd::math::max(
                        old(self).spec_disk().len() as int,
                        page_id + 1,
                    )
                    &&& final(self).spec_disk()[page_id as int] == padded(encoded)
                    &&& forall|d: int|
                        0 <= d < old(self).spec_disk().len() && d != page_id
                            ==> #[trigger] final(self).spec_disk()[d] == old(self).spec_disk()[d]
                    &&& forall|d: int|
                        old(self).spec_disk().len() <= d < final(self).spec_disk().len() && d
                            != page_id ==> #[trigger] final(self).spec_disk()[d] == zero_slot()
                    &&& final(self).cached(page_id) == (PageV {
                        dirty: false,
                        ..old(self).cached(page_id)
                    })
                    &&& forall|id: u64|
                        id != page_id ==> #[trigger] final(self).cached(id) == old(self).cached(
                            id,
                        )
                } else {
                    r == Err::<(), TitanError>(TitanError::CapacityExceeded) && *final(self)
                        == *old(self)
                }
            },
    {
        let j = match self.find_entry(page_id) {
            Some(j) => j,
            None => {
                return Err(TitanError::PageNotFound(page_id));
            },
        };
        let s = (page_id % (SHARD_COUNT as u64)) as usize;
        if !self.shards[s].entries[j].1.dirty {
            return Ok(());
        }
        let data = match self.shards[s].entries[j].1.serialize() {
            Ok(d) => d,
            Err(e) => {
                return Err(e);
            },
        };
        let mut data = data;
        let ghost encoded = data@;
        data.resize(PAGE_SIZE, 0u8);
        proof {
            assert(data@ =~= padded(encoded));
        }
        while (self.disk.len() as u64) <= page_id
            invariant
                old(self).wf(),
                self.shards == old(self).shards,
                self.total_pages == old(self).total_pages,
                self.disk_reads == old(self).disk_reads,
                self.disk_writes == old(self).disk_writes,
                self.disk@.len() >= old(self).disk@.len(),
                page_id < self.total_pages,
                self.disk@.len() <= vstd::math::max(
                    old(self).disk@.len() as int,
                    page_id as int + 1,
                ),
                forall|d: int|
                    0 <= d < old(self).disk@.len() ==> #[trigger] self.disk@[d]
                        == old(self).disk@[d],
                forall|d: int|
                    old(self).disk@.len() <= d < self.disk@.len() ==> (#[trigger] self.disk@[d])@
                        =~= zero_slot(),
            decreases page_id as int - self.disk@.len() + 1,
        {
            let mut z: Vec<u8> = Vec::new();
            z.resize(PAGE_SIZE, 0u8);
            proof {
                assert(z@ =~= zero_slot());
            }
            self.disk.push(z);
        }
        let idx = page_id as usize;
        proof {
            assert(idx as int == page_id as int);
        }
        self.disk[idx] = data;
        self.disk_writes = saturating_bump(self.disk_writes);
        proof {
            let stored = self.shards@[s as int].entries@[j as int].1;
            lemma_page_lens_fit(stored);
            lemma_round_trip(stored@, Seq::new((PAGE_SIZE - encoded.len()) as nat, |i: int| 0u8));
        }
        let mut cleared = self.shards[s].entries[j].1.duplicate();
        cleared.dirty = false;
        proof {
            let entries = self.shards@[s as int].entries@;
            assert forall|id: u64| true implies find_in(
                entries.update(j as int, (page_id, cleared)),
                id,
            ) == if id == page_id {
                Some(cleared)
            } else {
                find_in(entries, id)
            } by {
                lemma_find_in_update(entries, j as int, (page_id, cleared), id);
            }
        }
        let shard = &mut self.shards[s];
        shard.entries[j] = (page_id, cleared);
        Ok(())
    }
}

proof fn lemma_entry_means_find_in_some(entries: Seq<(u64, Page)>, id: u64, j: int)
    requires
        0 <= j < entries.len(),
        entries[j].0 == id,
    ensures
        find_in(entries, id) is Some,
    decreases j,
{
    if entries[0].0 != id {
        assert(entries.drop_first()[j - 1] == entries[j]);
        lemma_entry_means_find_in_some(entries.drop_first(), id, j - 1);
    }
}

proof fn lemma_find_in_some_means_entry(entries: Seq<(u64, Page)>, id: u64)
    requires
        find_in(entries, id) is Some,
    ensures
        exists|j: int| 0 <= j < entries.len() && (#[trigger] entries[j]).0 == id,
    decreases entries.len(),
{
    if entries.len() > 0 {
        if entries[0].0 == id {
            assert(entries[0].0 == id);
        } else {
            lemma_find_in_some_means_entry(entries.drop_first(), id);
            let j = choose|j: int|
                0 <= j < entries.drop_first().len() && (#[trigger] entries.drop_first()[j]).0
                    == id;
            assert(entries[j + 1].0 == id);
        }
    }
}

impl Pager {
    /// Every cached page id was allocated: it lies below the page counter.
    pub proof fn lemma_cached_ids_bounded(self, id: u64)
        requires
            self.wf(),
            self.in_cache(id),
        ensures
            id < self.spec_total_pages(),
    {
        let entries = self.shards@[Self::shard_of(id)].entries@;
        lemma_find_in_some_means_entry(entries, id);
        let j = choose|j: int| 0 <= j < entries.len() && (#[trigger] entries[j]).0 == id;
        assert(entries[j].0 < self.total_pages);
    }

    /// A cached page is well formed and keyed by its own id.
    pub proof fn lemma_cached_wf(self, id: u64)
        requires
            self.wf(),
            self.in_cache(id),
        ensures
            self.cached(id).wf(),
            self.cached(id).header.page_id == id,
    {
        let entries = self.shards@[Self::shard_of(id)].entries@;
        lemma_find_in_first(entries, id);
    }
}

/// The page `find_in` returns is an entry of the list, under its own key.
proof fn lemma_find_in_first(entries: Seq<(u64, Page)>, id: u64)
    requires
        find_in(entries, id) is Some,
    ensures
        exists|j: int|
            0 <= j < entries.len() && (#[trigger] entries[j]).0 == id && entries[j].1
                == find_in(entries, id)->0,
    decreases entries.len(),
{
    if entries.len() > 0 {
        if entries[0].0 == id {
            assert(entries[0].0 == id && entries[0].1 == find_in(entries, id)->0);
        } else {
            lemma_find_in_first(entries.drop_first(), id);
            let t = entries.drop_first();
            let j = choose|j: int|
                0 <= j < t.len() && (#[trigger] t[j]).0 == id && t[j].1 == find_in(t, id)->0;
            assert(entries[j + 1].0 == id && entries[j + 1].1 == find_in(entries, id)->0);
        }
    }
}

/// Every part of a page held in executable vectors is shorter than the
/// wire format's length words can count.
proof fn lemma_page_lens_fit(p: Page)
    ensures
        lens_fit(p@),
{
    assert(vstd::std_specs::vec::spec_vec_len(&p.content.keys) == p.content.keys@.len());
    assert forall|i: int| 0 <= i < p@.content.keys.len() implies (#[trigger] p@.content.keys[i]).len()
        < 0x1_0000_0000_0000_0000 by {
        assert(p@.content.keys[i] == p.content.keys@[i].deep_view());
        assert(p@.content.keys[i] =~= p.content.keys@[i]@);
        assert(vstd::std_specs::vec::spec_vec_len(&p.content.keys@[i]) == p.content.keys@[i]@.len());
    }
    assert forall|i: int|
        0 <= i < p@.content.values.len() implies (#[trigger] p@.content.values[i]).len()
        < 0x1_0000_0000_0000_0000 by {
        assert(p@.content.values[i] == p.content.values@[i].deep_view());
        assert(p@.content.values[i] =~= p.content.values@[i]@);
        let vi = p.content.values@[i];
        assert(vstd::std_specs::vec::spec_vec_len(&vi) == vi@.len());
    }
    match p.header.high_key {
        Some(hk) => {
            assert(vstd::std_specs::vec::spec_vec_len(&hk) == hk@.len());
        },
        None => {},
    }
}

/// One saturating counter step.
fn saturating_bump(x: u64) -> (r: u64)
    ensures
        r == bump(x),
{
    if x < 0xffff_ffff_ffff_ffff {
        x + 1
    } else {
        x
    }
}

} // verus!
