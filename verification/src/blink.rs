//! The B-link ordered index: Lehman–Yao style nodes with high keys and
//! right links, node-local ordered insertion, splitting, and the move-right
//! traversal, built on the pager exclusively through `fetch_page`,
//! `allocate_page` and `update_page`.

use vstd::prelude::*;
use vstd::bytes::{
    lemma_auto_spec_u64_to_from_le_bytes, spec_u64_to_le_bytes, u64_from_le_bytes, u64_to_le_bytes,
};
use crate::error::TitanError;
use crate::keys::{
    compare_keys, lemma_lex_trans, lemma_lex_trichotomy, lex_le, lex_lt, sorted_strict, KeyOrder,
};
use crate::page::{
    copy_bytes, spec_fresh, NodeContent, NodeContentV, Page, PageHeader, PageHeaderV, PageId,
    PageType, PageV, CAPACITY_THRESHOLD, MAX_KEY_LEN, MAX_VALUE_LEN,
};
use crate::pager::Pager;
use crate::codec::{lemma_bounded_fits, spec_deserialize, spec_serialize};
use crate::page::PAGE_SIZE;

verus! {

/// Most fetches a single traversal or move-right chain may make before it
/// reports the transient `Retry` failure.
pub const TRAVERSAL_BUDGET: usize = 128;

/// First position of `k` in `keys`, or `-1` if absent.
pub open spec fn index_of_key(keys: Seq<Seq<u8>>, k: Seq<u8>) -> int
    decreases keys.len(),
{
    if keys.len() == 0 {
        -1
    } else if keys[0] == k {
        0
    } else {
        let r = index_of_key(keys.drop_first(), k);
        if r < 0 {
            -1
        } else {
            r + 1
        }
    }
}

/// Where `k` belongs in the sorted key sequence: the first position whose
/// key is not lexicographically below it.
pub open spec fn insert_pos(ks: Seq<Seq<u8>>, k: Seq<u8>) -> int
    decreases ks.len(),
{
    if ks.len() == 0 {
        0
    } else if lex_lt(ks[0], k) {
        1 + insert_pos(ks.drop_first(), k)
    } else {
        0
    }
}

/// The keys of a sorted node after binding `k`: unchanged when `k` is
/// already present, else `k` spliced in at its sorted position.
pub open spec fn inserted_keys(ks: Seq<Seq<u8>>, k: Seq<u8>) -> Seq<Seq<u8>> {
    let pos = insert_pos(ks, k);
    if pos < ks.len() && ks[pos] == k {
        ks
    } else {
        ks.insert(pos, k)
    }
}

/// The values of a sorted node after binding `k` to `v`: overwritten in
/// place for a present key, else spliced in beside it.
pub open spec fn inserted_vals(ks: Seq<Seq<u8>>, vs: Seq<Seq<u8>>, k: Seq<u8>, v: Seq<u8>) -> Seq<
    Seq<u8>,
> {
    let pos = insert_pos(ks, k);
    if pos < ks.len() && ks[pos] == k {
        vs.update(pos, v)
    } else {
        vs.insert(pos, v)
    }
}

proof fn lemma_insert_pos_first(ks: Seq<Seq<u8>>, k: Seq<u8>, pos: int)
    requires
        0 <= pos <= ks.len(),
        forall|j: int| 0 <= j < pos ==> lex_lt(#[trigger] ks[j], k),
        pos < ks.len() ==> !lex_lt(ks[pos as int], k),
    ensures
        insert_pos(ks, k) == pos,
    decreases pos,
{
    if ks.len() > 0 {
        if pos == 0 {
        } else {
            let t = ks.drop_first();
            assert(lex_lt(ks[0], k));
            assert forall|j: int| 0 <= j < pos - 1 implies lex_lt(#[trigger] t[j], k) by {
                assert(t[j] == ks[j + 1]);
            }
            if pos - 1 < t.len() {
                assert(t[pos - 1] == ks[pos as int]);
            }
            lemma_insert_pos_first(t, k, pos - 1);
        }
    }
}

/// The value a node associates with `k`, if any.
pub open spec fn spec_lookup(p: PageV, k: Seq<u8>) -> Option<Seq<u8>> {
    let i = index_of_key(p.content.keys, k);
    if i >= 0 {
        Some(p.content.values[i])
    } else {
        None
    }
}

/// A node at rest: structurally well formed, sorted, within the length
/// caps, and not beyond the split threshold.
pub open spec fn node_ok(p: PageV) -> bool {
    &&& p.wf()
    &&& p.sorted()
    &&& p.bounded()
    &&& p.content.keys.len() <= CAPACITY_THRESHOLD
}

/// The node is responsible for `k`: either it has no high key, or `k` does
/// not exceed it.
pub open spec fn covers(p: PageV, k: Seq<u8>) -> bool {
    p.header.high_key matches Some(hk) ==> lex_le(k, hk)
}

/// How one pager state may evolve from another during read-only index
/// traffic: no allocation, no disk change, no write, every cached page kept
/// as it was.
pub open spec fn pager_frame(a: Pager, b: Pager) -> bool {
    &&& b.wf()
    &&& b.spec_total_pages() == a.spec_total_pages()
    &&& b.spec_disk() == a.spec_disk()
    &&& b.spec_writes() == a.spec_writes()
    &&& forall|id: u64| #[trigger]
        a.in_cache(id) ==> b.in_cache(id) && b.cached(id) == a.cached(id)
}

/// How one pager state may evolve from another during an insert: pages may
/// be allocated and cached pages rewritten, but nothing touches the disk
/// image or the write counter.
pub open spec fn pager_frame_mut(a: Pager, b: Pager) -> bool {
    &&& b.wf()
    &&& b.spec_total_pages() >= a.spec_total_pages()
    &&& b.spec_disk() == a.spec_disk()
    &&& b.spec_writes() == a.spec_writes()
    &&& forall|id: u64| #[trigger] a.in_cache(id) ==> b.in_cache(id)
}

/// The lower half of an over-full node after its split: it keeps rows
/// `0..mid`, its new high key is its last retained key, and its right link
/// points at the new sibling.
pub open spec fn split_left(l0: PageV, mid: int, sib: u64) -> PageV {
    PageV {
        header: PageHeaderV {
            page_id: l0.header.page_id,
            page_type: l0.header.page_type,
            lsn: l0.header.lsn,
            high_key: Some(l0.content.keys[mid - 1]),
            right_link: Some(sib),
        },
        content: NodeContentV {
            keys: l0.content.keys.take(mid),
            values: l0.content.values.take(mid),
        },
        dirty: true,
    }
}

/// The new right sibling after a split: rows `mid..`, inheriting the split
/// node's previous high key and right link.
pub open spec fn split_right(l0: PageV, mid: int, sib: u64) -> PageV {
    PageV {
        header: PageHeaderV {
            page_id: sib,
            page_type: l0.header.page_type,
            lsn: 0,
            high_key: l0.header.high_key,
            right_link: l0.header.right_link,
        },
        content: NodeContentV {
            keys: l0.content.keys.skip(mid),
            values: l0.content.values.skip(mid),
        },
        dirty: true,
    }
}

/// The interior root installed when the root splits: one separator key and
/// two children, the split node below the separator and the sibling above
/// it; the leading empty key is the unbounded low separator.
pub open spec fn root_after_split(newroot: u64, left_id: u64, sep: Seq<u8>, sib: u64) -> PageV {
    PageV {
        header: PageHeaderV {
            page_id: newroot,
            page_type: PageType::Interior,
            lsn: 0,
            high_key: None,
            right_link: None,
        },
        content: NodeContentV {
            keys: seq![Seq::<u8>::empty(), sep],
            values: seq![spec_u64_to_le_bytes(left_id), spec_u64_to_le_bytes(sib)],
        },
        dirty: true,
    }
}

/// How the cache's contents may change across one index operation: no page
/// leaves the cache, and every cached page afterwards is an untouched old
/// page, a page the operation wrote — dirty, well formed, sorted and within
/// the caps — or a clean fill: a page that was not cached before and equals
/// the decode of its own disk slot. A page cached before is therefore
/// either unchanged or rewritten dirty and valid.
pub open spec fn pages_ok_step(a: Pager, b: Pager) -> bool {
    &&& forall|id: u64| #[trigger] a.in_cache(id) ==> b.in_cache(id)
    &&& forall|id: u64| #[trigger]
        b.in_cache(id) ==> {
            ||| (a.in_cache(id) && b.cached(id) == a.cached(id))
            ||| (b.cached(id).dirty && b.cached(id).wf() && b.cached(id).sorted() && b.cached(
                id,
            ).bounded())
            ||| (!a.in_cache(id) && !b.cached(id).dirty && b.cached(id).wf() && b.cached(
                id,
            ).header.page_id == id && id < a.spec_disk().len() && spec_deserialize(
                a.spec_disk()[id as int],
            ) == Some(b.cached(id)))
        }
}

proof fn lemma_pages_ok_trans(a: Pager, b: Pager, c: Pager)
    requires
        pages_ok_step(a, b),
        pages_ok_step(b, c),
        a.spec_disk() == b.spec_disk(),
    ensures
        pages_ok_step(a, c),
{
    assert forall|id: u64| #[trigger] c.in_cache(id) implies {
        ||| (a.in_cache(id) && c.cached(id) == a.cached(id))
        ||| (c.cached(id).dirty && c.cached(id).wf() && c.cached(id).sorted() && c.cached(
            id,
        ).bounded())
        ||| (!a.in_cache(id) && !c.cached(id).dirty && c.cached(id).wf() && c.cached(
            id,
        ).header.page_id == id && id < a.spec_disk().len() && spec_deserialize(
            a.spec_disk()[id as int],
        ) == Some(c.cached(id)))
    } by {
        assert(c.in_cache(id));
        if b.in_cache(id) && c.cached(id) == b.cached(id) {
            assert(b.in_cache(id));
        }
    }
}

/// The pool state the first root split leaves behind, and that in-place
/// inserts preserve: an interior root with one separator routing to two
/// chained leaves. The left leaf is responsible for keys up to its high
/// key; the right leaf, unbounded above, for every key beyond it; the
/// separator is the right leaf's first key, above the left leaf's high key.
pub open spec fn two_leaf_state(p: Pager, root: u64, l: u64, rr: u64) -> bool {
    &&& p.in_cache(root) && p.in_cache(l) && p.in_cache(rr)
    &&& root != l && root != rr && l != rr
    &&& p.cached(root).header.page_type == PageType::Interior
    &&& p.cached(root).header.high_key is None
    &&& p.cached(root).content.keys.len() == 2
    &&& p.cached(root).content.values.len() == 2
    &&& p.cached(root).content.values[0] == spec_u64_to_le_bytes(l)
    &&& p.cached(root).content.values[1] == spec_u64_to_le_bytes(rr)
    &&& p.cached(l).header.page_type == PageType::Leaf
    &&& p.cached(rr).header.page_type == PageType::Leaf
    &&& p.cached(l).header.high_key is Some
    &&& p.cached(l).header.right_link == Some(rr)
    &&& p.cached(rr).header.high_key is None
    &&& node_ok(p.cached(l))
    &&& node_ok(p.cached(rr))
    &&& lex_lt(p.cached(l).header.high_key->0, p.cached(root).content.keys[1])
}

/// The first root split leaves the pool in the two-leaf state: the bridge
/// from the split clause of `insert` to the split-tree clauses of `search`
/// and `insert`.
pub proof fn lemma_split_yields_two_leaf_state(
    p: Pager,
    newroot: u64,
    lid: u64,
    sib: u64,
    l1: PageV,
    mid: int,
)
    requires
        l1.content.keys.len() == l1.content.values.len(),
        l1.content.keys.len() <= CAPACITY_THRESHOLD + 1,
        mid == l1.content.keys.len() as int / 2,
        2 <= l1.content.keys.len(),
        l1.sorted(),
        l1.bounded(),
        l1.header.page_type == PageType::Leaf,
        l1.header.high_key is None,
        l1.header.right_link is None,
        lid != sib && lid != newroot && sib != newroot,
        p.in_cache(lid) && p.cached(lid) == split_left(l1, mid, sib),
        p.in_cache(sib) && p.cached(sib) == split_right(l1, mid, sib),
        p.in_cache(newroot) && p.cached(newroot) == root_after_split(
            newroot,
            lid,
            l1.content.keys[mid],
            sib,
        ),
    ensures
        two_leaf_state(p, newroot, lid, sib),
{
    let ks = l1.content.keys;
    assert forall|a: int, b: int| 0 <= a < b < mid implies lex_lt(
        #[trigger] ks.take(mid)[a],
        #[trigger] ks.take(mid)[b],
    ) by {}
    assert forall|a: int, b: int| 0 <= a < b < ks.len() - mid implies lex_lt(
        #[trigger] ks.skip(mid)[a],
        #[trigger] ks.skip(mid)[b],
    ) by {
        assert(ks.skip(mid)[a] == ks[mid + a]);
        assert(ks.skip(mid)[b] == ks[mid + b]);
    }
    assert(p.cached(lid).header.high_key->0 == ks[mid - 1]);
    assert(p.cached(newroot).content.keys[1] == ks[mid]);
    assert(lex_lt(ks[mid - 1], ks[mid]));
}

/// What a lookup answers on a two-leaf tree: the left leaf decides for
/// keys it is responsible for, the right leaf for the rest.
pub open spec fn two_leaf_result(p: Pager, l: u64, rr: u64, k: Seq<u8>) -> Option<Seq<u8>> {
    if lex_le(k, p.cached(l).header.high_key->0) {
        spec_lookup(p.cached(l), k)
    } else {
        spec_lookup(p.cached(rr), k)
    }
}

// ---- lemmas about first-position lookup ----

proof fn lemma_index_props(keys: Seq<Seq<u8>>, k: Seq<u8>)
    ensures
        ({
            let i = index_of_key(keys, k);
            &&& i >= 0 ==> 0 <= i < keys.len() && keys[i] == k && forall|j: int|
                0 <= j < i ==> keys[j] != k
            &&& i < 0 ==> i == -1 && forall|j: int| 0 <= j < keys.len() ==> keys[j] != k
        }),
    decreases keys.len(),
{
    if keys.len() > 0 && keys[0] != k {
        lemma_index_props(keys.drop_first(), k);
        let t = keys.drop_first();
        let r = index_of_key(t, k);
        if r >= 0 {
            assert forall|j: int| 0 <= j < r + 1 implies keys[j] != k by {
                if j > 0 {
                    assert(t[j - 1] == keys[j]);
                }
            }
        } else {
            assert forall|j: int| 0 <= j < keys.len() implies keys[j] != k by {
                if j > 0 {
                    assert(t[j - 1] == keys[j]);
                }
            }
        }
    }
}

proof fn lemma_index_first(keys: Seq<Seq<u8>>, k: Seq<u8>, i: int)
    requires
        0 <= i < keys.len(),
        keys[i] == k,
        forall|j: int| 0 <= j < i ==> keys[j] != k,
    ensures
        index_of_key(keys, k) == i,
    decreases i,
{
    if i == 0 {
    } else {
        let t = keys.drop_first();
        assert(keys[0] != k);
        assert(t[i - 1] == keys[i]);
        assert forall|j: int| 0 <= j < i - 1 implies t[j] != k by {
            assert(t[j] == keys[j + 1]);
        }
        lemma_index_first(t, k, i - 1);
    }
}

proof fn lemma_index_none(keys: Seq<Seq<u8>>, k: Seq<u8>)
    requires
        forall|j: int| 0 <= j < keys.len() ==> keys[j] != k,
    ensures
        index_of_key(keys, k) == -1,
    decreases keys.len(),
{
    if keys.len() > 0 {
        let t = keys.drop_first();
        assert forall|j: int| 0 <= j < t.len() implies t[j] != k by {
            assert(t[j] == keys[j + 1]);
        }
        lemma_index_none(t, k);
    }
}

/// Chains adjacent order through a strictly sorted prefix.
proof fn lemma_chain(keys: Seq<Seq<u8>>, i: int, j: int)
    requires
        forall|t: int| 0 <= t < keys.len() - 1 ==> lex_lt(#[trigger] keys[t], keys[t + 1]),
        0 <= i < j < keys.len(),
    ensures
        lex_lt(keys[i], keys[j]),
    decreases j - i,
{
    if j == i + 1 {
        assert(lex_lt(keys[i], keys[i + 1]));
    } else {
        lemma_chain(keys, i, j - 1);
        assert(lex_lt(keys[j - 1], keys[j]));
        lemma_lex_trans(keys[i], keys[j - 1], keys[j]);
    }
}

/// Splitting a sorted sequence of keys at any point preserves the key set
/// exactly: the two halves together hold the keys held before, no key is
/// lost, and — for strictly sorted keys — none is duplicated across the
/// halves.
pub proof fn lemma_split_preserves_key_set(
    before: Seq<Seq<u8>>,
    left: Seq<Seq<u8>>,
    right: Seq<Seq<u8>>,
)
    requires
        before == left + right,
    ensures
        left.to_set().union(right.to_set()) == before.to_set(),
        sorted_strict(before) ==> left.to_set().intersect(right.to_set()) == Set::<
            Seq<u8>,
        >::empty(),
{
    assert forall|x: Seq<u8>| #[trigger]
        before.to_set().contains(x) implies left.to_set().union(right.to_set()).contains(x) by {
        let i = choose|i: int| 0 <= i < before.len() && before[i] == x;
        if i < left.len() {
            assert(left[i] == x);
            assert(left.contains(x));
        } else {
            assert(right[i - left.len()] == x);
            assert(right.contains(x));
        }
    }
    assert forall|x: Seq<u8>| #[trigger]
        left.to_set().union(right.to_set()).contains(x) implies before.to_set().contains(x) by {
        if left.contains(x) {
            let i = choose|i: int| 0 <= i < left.len() && left[i] == x;
            assert(before[i] == x);
        } else {
            let i = choose|i: int| 0 <= i < right.len() && right[i] == x;
            assert(before[left.len() + i] == x);
        }
        assert(before.contains(x));
    }
    assert(left.to_set().union(right.to_set()) =~= before.to_set());
    if sorted_strict(before) {
        assert forall|x: Seq<u8>| !(left.to_set().contains(x)
            && right.to_set().contains(x)) by {
            if left.to_set().contains(x) && right.to_set().contains(x) {
                let i = choose|i: int| 0 <= i < left.len() && left[i] == x;
                let j = choose|j: int| 0 <= j < right.len() && right[j] == x;
                assert(before[i] == x);
                assert(before[left.len() + j] == x);
                assert(lex_lt(x, x));
                lemma_lex_trichotomy(x, x);
            }
        }
        assert(left.to_set().intersect(right.to_set()) =~= Set::<Seq<u8>>::empty());
    }
}

// ---- node-local operations ----

/// Finds `key` within one node by ordered search; no mutation.
pub fn page_lookup(page: &Page, key: &[u8]) -> (r: Option<Vec<u8>>)
    requires
        page.wf(),
    ensures
        match r {
            Some(v) => spec_lookup(page@, key@) == Some(v@),
            None => spec_lookup(page@, key@) is None,
        },
{
    let n = page.content.keys.len();
    let mut i: usize = 0;
    while i < n
        invariant
            page.wf(),
            i <= n,
            n == page@.content.keys.len(),
            forall|j: int| 0 <= j < i ==> #[trigger] page@.content.keys[j] != key@,
        decreases n - i,
    {
        let c = compare_keys(page.content.keys[i].as_slice(), key);
        proof {
            assert(page.content.keys[i as int]@ =~= page@.content.keys[i as int]);
        }
        if matches!(c, KeyOrder::Equal) {
            let v = copy_bytes(&page.content.values[i]);
            proof {
                assert(page.content.values[i as int]@ =~= page@.content.values[i as int]);
                lemma_index_first(page@.content.keys, key@, i as int);
            }
            return Some(v);
        }
        i = i + 1;
    }
    proof {
        lemma_index_none(page@.content.keys, key@);
    }
    None
}

/// Where `key` belongs in the sorted key sequence: the first position not
/// lexicographically below it.
fn find_position(page: &Page, key: &[u8]) -> (pos: usize)
    requires
        page.wf(),
        page.sorted(),
    ensures
        0 <= pos <= page@.content.keys.len(),
        forall|j: int| 0 <= j < pos ==> lex_lt(#[trigger] page@.content.keys[j], key@),
        pos < page@.content.keys.len() ==> !lex_lt(page@.content.keys[pos as int], key@),
{
    let n = page.content.keys.len();
    let mut i: usize = 0;
    while i < n
        invariant
            page.wf(),
            page.sorted(),
            i <= n,
            n == page@.content.keys.len(),
            forall|j: int| 0 <= j < i ==> lex_lt(#[trigger] page@.content.keys[j], key@),
        decreases n - i,
    {
        let c = compare_keys(page.content.keys[i].as_slice(), key);
        proof {
            assert(page.content.keys[i as int]@ =~= page@.content.keys[i as int]);
        }
        if !matches!(c, KeyOrder::Less) {
            return i;
        }
        i = i + 1;
    }
    i
}

/// Inserts `key`/`value` into one sorted node at its correct position,
/// shifting, or overwrites the value of an equal key; marks the node dirty.
/// The node's association list afterwards is exactly the old one with
/// `key` bound to `value`.
pub fn page_insert(page: &mut Page, key: Vec<u8>, value: Vec<u8>)
    requires
        old(page).wf(),
        old(page).sorted(),
        old(page)@.content.keys.len() <= CAPACITY_THRESHOLD,
        key@.len() <= MAX_KEY_LEN,
        value@.len() <= MAX_VALUE_LEN,
        old(page).bounded(),
    ensures
        final(page).wf(),
        final(page).sorted(),
        final(page).bounded(),
        final(page)@.header == old(page)@.header,
        final(page)@.dirty,
        final(page)@.content.keys.len() <= old(page)@.content.keys.len() + 1,
        old(page)@.content.keys.len() <= final(page)@.content.keys.len(),
        spec_lookup(final(page)@, key@) == Some(value@),
        forall|k: Seq<u8>|
            k != key@ ==> #[trigger] spec_lookup(final(page)@, k) == spec_lookup(old(page)@, k),
        index_of_key(old(page)@.content.keys, key@) >= 0 ==> final(page)@.content.keys == old(
            page,
        )@.content.keys,
        final(page)@.content.keys == inserted_keys(old(page)@.content.keys, key@),
        final(page)@.content.values == inserted_vals(
            old(page)@.content.keys,
            old(page)@.content.values,
            key@,
            value@,
        ),
        spec_serialize(final(page)@).len() <= PAGE_SIZE,
{
    let pos = find_position(page, key.as_slice());
    let ghost ks = page@.content.keys;
    let ghost vs = page@.content.values;
    let ghost kq = key@;
    let ghost vq = value@;
    proof {
        lemma_index_props(ks, kq);
        assert forall|j: int| 0 <= j < pos implies ks[j] != kq by {
            lemma_lex_trichotomy(ks[j], kq);
        }
    }
    proof {
        lemma_insert_pos_first(ks, kq, pos as int);
    }
    let n = page.content.keys.len();
    let mut overwrite = false;
    if pos < n {
        let c = compare_keys(page.content.keys[pos].as_slice(), key.as_slice());
        proof {
            assert(page.content.keys[pos as int]@ =~= ks[pos as int]);
        }
        if matches!(c, KeyOrder::Equal) {
            overwrite = true;
        }
    }
    if overwrite {
        page.content.values[pos] = value;
        page.dirty = true;
        proof {
            assert(page@.content.keys =~~= ks);
            assert(page@.content.values =~~= vs.update(pos as int, vq));
            lemma_index_first(ks, kq, pos as int);
            assert forall|k: Seq<u8>| k != kq implies #[trigger] spec_lookup(page@, k)
                == spec_lookup(old(page)@, k) by {
                lemma_index_props(ks, k);
                let i0 = index_of_key(ks, k);
                if i0 >= 0 {
                    assert(ks[i0] == k);
                    assert(i0 != pos);
                }
            }
        }
    } else {
        let ghost posi = pos as int;
        proof {
            if pos < n {
                lemma_lex_trichotomy(ks[posi], kq);
                assert(lex_lt(kq, ks[posi]));
            }
        }
        page.content.keys.insert(pos, key);
        page.content.values.insert(pos, value);
        page.dirty = true;
        proof {
            let nk = page@.content.keys;
            let nv = page@.content.values;
            assert(nk =~~= ks.insert(posi, kq));
            assert(nv =~~= vs.insert(posi, vq));
            assert(nk.len() == ks.len() + 1);
            assert forall|j: int| 0 <= j < nk.len() implies nk[j] == (if j < posi {
                ks[j]
            } else if j == posi {
                kq
            } else {
                ks[j - 1]
            }) by {}
            // strict order is preserved around the insertion point
            assert forall|a: int, b: int| 0 <= a < b < nk.len() implies lex_lt(
                #[trigger] nk[a],
                #[trigger] nk[b],
            ) by {
                if b < posi {
                } else if a < posi && b == posi {
                } else if a < posi && b > posi {
                    if a < b - 1 {
                    } else {
                    }
                } else if a == posi && b > posi {
                    assert(lex_lt(kq, ks[posi]));
                    if b - 1 > posi {
                        lemma_lex_trans(kq, ks[posi], ks[b - 1]);
                    }
                } else {
                }
            }
            // all prior keys differ from the inserted one
            assert forall|j: int| 0 <= j < ks.len() implies ks[j] != kq by {
                if j < posi {
                    lemma_lex_trichotomy(ks[j], kq);
                } else if j == posi {
                    assert(ks[posi] != kq);
                } else {
                    if posi < n {
                        assert(lex_lt(ks[posi], ks[j]));
                        lemma_lex_trans(kq, ks[posi], ks[j]);
                        lemma_lex_trichotomy(kq, ks[j]);
                    }
                }
            }
            lemma_index_none(ks, kq);
            assert forall|j: int| 0 <= j < posi implies nk[j] != kq by {
                lemma_lex_trichotomy(ks[j], kq);
            }
            lemma_index_first(nk, kq, posi);
            assert(spec_lookup(page@, kq) == Some(vq));
            assert forall|k: Seq<u8>| k != kq implies #[trigger] spec_lookup(page@, k)
                == spec_lookup(old(page)@, k) by {
                lemma_index_props(ks, k);
                let i0 = index_of_key(ks, k);
                if i0 < 0 {
                    assert forall|j: int| 0 <= j < nk.len() implies nk[j] != k by {}
                    lemma_index_none(nk, k);
                } else if i0 < posi {
                    lemma_index_first(nk, k, i0);
                } else {
                    assert(nk[i0 + 1] == k);
                    assert forall|j: int| 0 <= j < i0 + 1 implies nk[j] != k by {}
                    lemma_index_first(nk, k, i0 + 1);
                    assert(nv[i0 + 1] == vs[i0]);
                }
            }
        }
    }
    proof {
        lemma_bounded_fits(page@);
    }
}

/// Where a key lands after the rows are cut at `mid`: its first position
/// moves unchanged into the left half or shifts by `mid` into the right.
proof fn lemma_lookup_after_split(ks: Seq<Seq<u8>>, vs: Seq<Seq<u8>>, mid: int, k: Seq<u8>)
    requires
        0 <= mid <= ks.len(),
        ks.len() == vs.len(),
    ensures
        ({
            let i0 = index_of_key(ks, k);
            i0 >= 0 ==> if i0 < mid {
                index_of_key(ks.take(mid), k) == i0 && vs.take(mid)[i0] == vs[i0]
            } else {
                index_of_key(ks.skip(mid), k) == i0 - mid && vs.skip(mid)[i0 - mid] == vs[i0]
            }
        }),
{
    lemma_index_props(ks, k);
    let i0 = index_of_key(ks, k);
    if i0 >= 0 {
        if i0 < mid {
            assert(ks.take(mid)[i0] == k);
            assert forall|j: int| 0 <= j < i0 implies ks.take(mid)[j] != k by {}
            lemma_index_first(ks.take(mid), k, i0);
        } else {
            assert(ks.skip(mid)[i0 - mid] == k);
            assert forall|j: int| 0 <= j < i0 - mid implies ks.skip(mid)[j] != k by {
                assert(ks.skip(mid)[j] == ks[mid + j]);
            }
            lemma_index_first(ks.skip(mid), k, i0 - mid);
        }
    }
}

/// Splits an over-full node: the upper half of its rows moves into a new
/// right sibling. The sibling inherits the node's high key and right link;
/// the node's new high key becomes its own last retained key — the maximum
/// it still holds — and its right link points at the sibling, whose least
/// key immediately follows that high key in sort order. Together the two
/// nodes hold exactly the rows held before; both are dirty.
pub fn split_page(page: &mut Page, new_id: u64) -> (sibling: Page)
    requires
        old(page).wf(),
        old(page).sorted(),
        old(page).bounded(),
        old(page)@.content.keys.len() >= 2,
    ensures
        ({
            let mid = old(page)@.content.keys.len() as int / 2;
            let ks = old(page)@.content.keys;
            let vs = old(page)@.content.values;
            &&& final(page).wf() && final(page).sorted() && final(page).bounded()
            &&& sibling.wf() && sibling.sorted() && sibling.bounded()
            &&& final(page)@.content.keys == ks.take(mid)
            &&& final(page)@.content.values == vs.take(mid)
            &&& sibling@.content.keys == ks.skip(mid)
            &&& sibling@.content.values == vs.skip(mid)
            &&& final(page)@.content.keys + sibling@.content.keys == ks
            &&& final(page)@.content.values + sibling@.content.values == vs
            &&& final(page)@.header.page_id == old(page)@.header.page_id
            &&& final(page)@.header.page_type == old(page)@.header.page_type
            &&& final(page)@.header.lsn == old(page)@.header.lsn
            &&& final(page)@.header.high_key == Some(ks[mid - 1])
            &&& final(page)@.header.high_key == Some(final(page)@.content.keys.last())
            &&& final(page)@.header.right_link == Some(new_id)
            &&& sibling@.header.page_id == new_id
            &&& sibling@.header.page_type == old(page)@.header.page_type
            &&& sibling@.header.lsn == 0
            &&& sibling@.header.high_key == old(page)@.header.high_key
            &&& sibling@.header.right_link == old(page)@.header.right_link
            &&& sibling@.content.keys[0] == ks[mid]
            &&& lex_lt(ks[mid - 1], ks[mid])
            &&& final(page)@.dirty && sibling@.dirty
            &&& final(page)@.content.keys.len() <= CAPACITY_THRESHOLD
            &&& sibling@.content.keys.len() <= CAPACITY_THRESHOLD
            &&& final(page)@ == split_left(old(page)@, mid, new_id)
            &&& sibling@ == split_right(old(page)@, mid, new_id)
        }),
{
    let n = page.content.keys.len();
    let mid = n / 2;
    let ghost ks = page@.content.keys;
    let ghost vs = page@.content.values;
    let mut sib_keys: Vec<Vec<u8>> = Vec::new();
    let mut sib_vals: Vec<Vec<u8>> = Vec::new();
    let mut i: usize = mid;
    while i < n
        invariant
            mid <= i <= n,
            n == page@.content.keys.len(),
            page.wf(),
            ks == page@.content.keys,
            vs == page@.content.values,
            sib_keys@.len() == i - mid,
            sib_vals@.len() == i - mid,
            forall|j: int|
                0 <= j < i - mid ==> #[trigger] sib_keys.deep_view()[j] == ks[mid + j],
            forall|j: int|
                0 <= j < i - mid ==> #[trigger] sib_vals.deep_view()[j] == vs[mid + j],
        decreases n - i,
    {
        let ghost pk = sib_keys.deep_view();
        let ghost pv = sib_vals.deep_view();
        sib_keys.push(copy_bytes(&page.content.keys[i]));
        sib_vals.push(copy_bytes(&page.content.values[i]));
        proof {
            assert forall|j: int| 0 <= j < i + 1 - mid implies #[trigger] sib_keys.deep_view()[j]
                == ks[mid + j] by {
                if j < i - mid {
                    assert(sib_keys.deep_view()[j] == pk[j]);
                } else {
                    assert(sib_keys.deep_view()[j] =~= ks[mid + j]);
                }
            }
            assert forall|j: int| 0 <= j < i + 1 - mid implies #[trigger] sib_vals.deep_view()[j]
                == vs[mid + j] by {
                if j < i - mid {
                    assert(sib_vals.deep_view()[j] == pv[j]);
                } else {
                    assert(sib_vals.deep_view()[j] =~= vs[mid + j]);
                }
            }
        }
        i = i + 1;
    }
    let sib_high = match &page.header.high_key {
        Some(h) => Some(copy_bytes(h)),
        None => None,
    };
    let sibling = Page {
        header: PageHeader {
            page_id: new_id,
            page_type: page.header.page_type,
            lsn: 0,
            high_key: sib_high,
            right_link: page.header.right_link,
        },
        content: NodeContent { keys: sib_keys, values: sib_vals },
        dirty: true,
    };
    page.content.keys.truncate(mid);
    page.content.values.truncate(mid);
    let new_high = copy_bytes(&page.content.keys[mid - 1]);
    page.header.high_key = Some(new_high);
    page.header.right_link = Some(new_id);
    page.dirty = true;
    proof {
        let midi = mid as int;
        assert(page@.content.keys =~~= ks.take(midi));
        assert(page@.content.values =~~= vs.take(midi));
        assert(sibling@.content.keys =~~= ks.skip(midi));
        assert(sibling@.content.values =~~= vs.skip(midi));
        assert(ks.take(midi) + ks.skip(midi) =~= ks);
        assert(vs.take(midi) + vs.skip(midi) =~= vs);
        assert(page@.header.high_key == Some(ks[midi - 1])) by {
            assert(ks.take(midi)[midi - 1] == ks[midi - 1]);
        }
        assert forall|a: int, b: int|
            0 <= a < b < midi implies lex_lt(
                #[trigger] ks.take(midi)[a],
                #[trigger] ks.take(midi)[b],
            ) by {}
        assert forall|a: int, b: int|
            0 <= a < b < ks.len() - midi implies lex_lt(
                #[trigger] ks.skip(midi)[a],
                #[trigger] ks.skip(midi)[b],
            ) by {
            assert(ks.skip(midi)[a] == ks[midi + a]);
            assert(ks.skip(midi)[b] == ks[midi + b]);
        }
        assert(sibling@.content.keys[0] == ks[midi]);
        assert(lex_lt(ks[midi - 1], ks[midi]));
        assert(page@ =~~= split_left(old(page)@, midi, new_id));
        assert(sibling@ =~~= split_right(old(page)@, midi, new_id));
    }
    sibling
}

/// Validates a node loaded from the pool: structure, order, and length
/// caps. A node that fails this check is corrupt.
fn check_node(page: &Page) -> (ok: bool)
    ensures
        ok <==> node_ok(page@),
{
    let paired = match (&page.header.high_key, &page.header.right_link) {
        (Some(_), Some(_)) => true,
        (None, None) => true,
        _ => false,
    };
    if !paired {
        return false;
    }
    let n = page.content.keys.len();
    if page.content.values.len() != n {
        return false;
    }
    if n > CAPACITY_THRESHOLD {
        return false;
    }
    match &page.header.high_key {
        Some(h) => {
            if h.len() > MAX_KEY_LEN {
                return false;
            }
        },
        None => {},
    }
    let mut i: usize = 0;
    while i < n
        invariant
            i <= n,
            n == page@.content.keys.len(),
            n == page@.content.values.len(),
            forall|j: int|
                0 <= j < i ==> (#[trigger] page@.content.keys[j]).len() <= MAX_KEY_LEN,
            forall|j: int|
                0 <= j < i ==> (#[trigger] page@.content.values[j]).len() <= MAX_VALUE_LEN,
            forall|j: int|
                0 <= j < i && j + 1 < n ==> lex_lt(
                    #[trigger] page@.content.keys[j],
                    page@.content.keys[j + 1],
                ),
        decreases n - i,
    {
        proof {
            assert(page.content.keys[i as int]@ =~= page@.content.keys[i as int]);
            assert(page.content.values[i as int]@ =~= page@.content.values[i as int]);
        }
        if page.content.keys[i].len() > MAX_KEY_LEN {
            return false;
        }
        if page.content.values[i].len() > MAX_VALUE_LEN {
            return false;
        }
        if i + 1 < n {
            let c = compare_keys(
                page.content.keys[i].as_slice(),
                page.content.keys[i + 1].as_slice(),
            );
            proof {
                assert(page.content.keys[i + 1]@ =~= page@.content.keys[i + 1]);
            }
            if !matches!(c, KeyOrder::Less) {
                return false;
            }
        }
        i = i + 1;
    }
    proof {
        let ks = page@.content.keys;
        assert forall|a: int, b: int| 0 <= a < b < ks.len() implies lex_lt(
            #[trigger] ks[a],
            #[trigger] ks[b],
        ) by {
            lemma_chain(ks, a, b);
        }
    }
    true
}

/// The concurrent ordered index: a handle holding the current root page id.
/// All page traffic goes through the pager.
pub struct BLinkTree {
    root: u64,
}

impl BLinkTree {
    /// The current root page id.
    pub closed spec fn spec_root(self) -> u64 {
        self.root
    }

    /// An index handle over an existing root page, as recorded in the
    /// catalog.
    pub fn reopen(root: PageId) -> (t: BLinkTree)
        ensures
            t.spec_root() == root,
    {
        BLinkTree { root }
    }

    /// The current root page id.
    pub fn root_id(&self) -> (r: u64)
        ensures
            r == self.spec_root(),
    {
        self.root
    }

    /// Creates an index over a single fresh, empty leaf root.
    pub fn new(pager: &mut Pager) -> (r: Result<BLinkTree, TitanError>)
        requires
            old(pager).wf(),
            old(pager).spec_total_pages() < 0xffff_ffff_ffff_ffff,
        ensures
            pager_frame_mut(*old(pager), *final(pager)),
            final(pager).spec_reads() == old(pager).spec_reads(),
            final(pager).spec_total_pages() == old(pager).spec_total_pages() + 1,
            match r {
                Ok(t) => {
                    &&& t.spec_root() == old(pager).spec_total_pages()
                    &&& final(pager).in_cache(t.spec_root())
                    &&& final(pager).cached(t.spec_root()) == spec_fresh(
                        t.spec_root(),
                        PageType::Leaf,
                    )
                },
                Err(_) => false,
            },
    {
        let page = match pager.allocate_page(PageType::Leaf) {
            Ok(p) => p,
            Err(e) => {
                return Err(e);
            },
        };
        Ok(BLinkTree { root: page.header.page_id })
    }

    /// Walks from the root to the leaf responsible for `key`: move right
    /// past nodes whose high key the key exceeds, descend through interior
    /// nodes by separator range. Returns the leaf id and the interior ids
    /// descended through. No lock is held across levels; the budget bounds
    /// the walk.
    fn find_leaf(&self, pager: &mut Pager, key: &[u8]) -> (r: Result<
        (u64, Vec<u64>),
        TitanError,
    >)
        requires
            old(pager).wf(),
        ensures
            pager_frame(*old(pager), *final(pager)),
            pages_ok_step(*old(pager), *final(pager)),
            match r {
                Ok(lp) => {
                    &&& final(pager).in_cache(lp.0)
                    &&& final(pager).cached(lp.0).header.page_type == PageType::Leaf
                    &&& covers(final(pager).cached(lp.0), key@)
                },
                Err(e) => e != TitanError::CapacityExceeded,
            },
            leaf_root_ready(*old(pager), self.spec_root()) ==> (r matches Ok(lp) && lp.0
                == self.spec_root() && lp.1@.len() == 0 && *final(pager) == *old(pager)),
            forall|l: u64, rr: u64| #![auto]
                two_leaf_state(*old(pager), self.spec_root(), l, rr) ==> (r matches Ok(lp)
                    && lp.0 == (if lex_le(key@, old(pager).cached(l).header.high_key->0) {
                    l
                } else {
                    rr
                }) && *final(pager) == *old(pager)),
    {
        let mut current: u64 = self.root;
        let mut path: Vec<u64> = Vec::new();
        let mut steps: usize = 0;
        while steps < TRAVERSAL_BUDGET
            invariant
                pager.wf(),
                pager_frame(*old(pager), *pager),
                pages_ok_step(*old(pager), *pager),
                leaf_root_ready(*old(pager), self.spec_root()) ==> current == self.spec_root()
                    && path@.len() == 0 && *pager == *old(pager),
                steps > 0 ==> !leaf_root_ready(*old(pager), self.spec_root()),
                forall|l: u64, rr: u64| #![auto]
                    two_leaf_state(*old(pager), self.spec_root(), l, rr) ==> ({
                        let high_l = old(pager).cached(l).header.high_key->0;
                        let sep = old(pager).cached(self.spec_root()).content.keys[1];
                        &&& *pager == *old(pager)
                        &&& (current == self.spec_root() || current == l || current == rr)
                        &&& (current == self.spec_root() ==> steps == 0 && path@.len() == 0)
                        &&& (current == l ==> steps == 1 && lex_lt(key@, sep))
                        &&& (current == rr ==> (steps == 1 && lex_le(sep, key@)) || (steps == 2
                            && !lex_le(key@, high_l)))
                    }),
            decreases TRAVERSAL_BUDGET - steps,
        {
            let ghost pprev = *pager;
            let page = match pager.fetch_page(current) {
                Ok(p) => p,
                Err(e) => {
                    proof {
                        lemma_pages_ok_trans(*old(pager), pprev, *pager);
                    }
                    return Err(e);
                },
            };
            proof {
                lemma_pages_ok_trans(*old(pager), pprev, *pager);
            }
            let mut moved = false;
            match (&page.header.high_key, &page.header.right_link) {
                (Some(hk), Some(rl)) => {
                    if matches!(compare_keys(key, hk.as_slice()), KeyOrder::Greater) {
                        current = *rl;
                        moved = true;
                    }
                },
                _ => {},
            }
            if !moved {
                if matches!(page.header.page_type, PageType::Leaf) {
                    proof {
                        assert forall|l: u64, rr: u64| #![auto]
                            two_leaf_state(*old(pager), self.spec_root(), l, rr) implies current
                            == (if lex_le(key@, old(pager).cached(l).header.high_key->0) {
                            l
                        } else {
                            rr
                        }) by {
                            let high_l = old(pager).cached(l).header.high_key->0;
                            let sep = old(pager).cached(self.spec_root()).content.keys[1];
                            if current == rr {
                                if lex_le(sep, key@) {
                                    if sep != key@ {
                                        lemma_lex_trans(high_l, sep, key@);
                                    }
                                }
                                lemma_lex_trichotomy(key@, high_l);
                            }
                        }
                    }
                    return Ok((current, path));
                }
                if matches!(page.header.page_type, PageType::Overflow) {
                    return Err(TitanError::CorruptPage);
                }
                let m = page.content.keys.len();
                if m == 0 || page.content.values.len() != m {
                    return Err(TitanError::CorruptPage);
                }
                let mut child: usize = 0;
                let mut i: usize = 1;
                while i < m
                    invariant
                        1 <= i <= m,
                        m == page@.content.keys.len(),
                        child < i,
                        forall|l: u64, rr: u64| #![auto]
                            two_leaf_state(*old(pager), self.spec_root(), l, rr) && page@ == old(
                                pager,
                            ).cached(self.spec_root()) ==> ({
                                let sep = old(pager).cached(self.spec_root()).content.keys[1];
                                (i == 1 && child == 0) || (i == 2 && ((child == 1 && lex_le(
                                    sep,
                                    key@,
                                )) || (child == 0 && lex_lt(key@, sep))))
                            }),
                    decreases m - i,
                {
                    proof {
                        assert(page.content.keys[i as int]@ =~= page@.content.keys[i as int]);
                    }
                    if !matches!(
                        compare_keys(page.content.keys[i].as_slice(), key),
                        KeyOrder::Greater,
                    ) {
                        child = i;
                    }
                    i = i + 1;
                }
                proof {
                    lemma_auto_spec_u64_to_from_le_bytes();
                    assert(page.content.values[child as int]@ =~= page@.content.values[child as int]);
                }
                if page.content.values[child].len() != 8 {
                    return Err(TitanError::CorruptPage);
                }
                let cid = u64_from_le_bytes(page.content.values[child].as_slice());
                path.push(current);
                current = cid;
            }
            steps = steps + 1;
        }
        Err(TitanError::Retry)
    }

    /// Packs what a successful search reports of the leaf it read.
    pub open spec fn search_hit(pv: PageV, key: Seq<u8>, res: Option<Vec<u8>>) -> bool {
        &&& pv.header.page_type == PageType::Leaf
        &&& covers(pv, key)
        &&& (match res {
            Some(v) => spec_lookup(pv, key) == Some(v@),
            None => spec_lookup(pv, key) is None,
        })
    }

    /// Looks `key` up: traverse to the responsible leaf, then search it in
    /// order. Returns the paired value, or nothing when the key is absent
    /// from the leaf responsible for it. Never mutates a page.
    pub fn search(&self, pager: &mut Pager, key: &[u8]) -> (r: Result<
        Option<Vec<u8>>,
        TitanError,
    >)
        requires
            old(pager).wf(),
        ensures
            pager_frame(*old(pager), *final(pager)),
            match r {
                Ok(res) => exists|id: u64|
                    #[trigger] final(pager).in_cache(id) && Self::search_hit(
                        final(pager).cached(id),
                        key@,
                        res,
                    ),
                Err(_) => true,
            },
            leaf_root_ready(*old(pager), self.spec_root()) ==> (r matches Ok(res) && (match res {
                Some(v) => spec_lookup(old(pager).cached(self.spec_root()), key@) == Some(v@),
                None => spec_lookup(old(pager).cached(self.spec_root()), key@) is None,
            })),
            forall|l: u64, rr: u64| #![auto]
                two_leaf_state(*old(pager), self.spec_root(), l, rr) ==> (r matches Ok(res) && (
                match res {
                    Some(v) => two_leaf_result(*old(pager), l, rr, key@) == Some(v@),
                    None => two_leaf_result(*old(pager), l, rr, key@) is None,
                })),
    {
        let lp = match self.find_leaf(pager, key) {
            Ok(x) => x,
            Err(e) => {
                return Err(e);
            },
        };
        let leaf_id = lp.0;
        let page = match pager.fetch_page(leaf_id) {
            Ok(p) => p,
            Err(e) => {
                return Err(e);
            },
        };
        let res = page_lookup(&page, key);
        proof {
            assert(final(pager).in_cache(leaf_id) && Self::search_hit(
                final(pager).cached(leaf_id),
                key@,
                res,
            ));
        }
        Ok(res)
    }
}

/// The pool caches `root` as a leaf that is not bounded above: no split
/// has moved any of its range away, so it is responsible for every key.
pub open spec fn leaf_root_ready(p: Pager, root: u64) -> bool {
    &&& p.in_cache(root)
    &&& p.cached(root).header.page_type == PageType::Leaf
    &&& p.cached(root).header.high_key is None
}

/// The cache holds some well-formed leaf that binds `k` to `v`.
pub open spec fn has_entry(p: Pager, k: Seq<u8>, v: Seq<u8>) -> bool {
    exists|id: u64|
        #[trigger] p.in_cache(id) && p.cached(id).header.page_type == PageType::Leaf
            && spec_lookup(p.cached(id), k) == Some(v)
}

/// A leaf binding survives any step that keeps every cached page.
proof fn lemma_witness_frame(pre: Pager, post: Pager, k: Seq<u8>, v: Seq<u8>)
    requires
        has_entry(pre, k, v),
        forall|id: u64| #[trigger]
            pre.in_cache(id) ==> post.in_cache(id) && post.cached(id) == pre.cached(id),
    ensures
        has_entry(post, k, v),
{
    let w = choose|id: u64|
        #[trigger] pre.in_cache(id) && pre.cached(id).header.page_type == PageType::Leaf
            && spec_lookup(pre.cached(id), k) == Some(v);
    assert(post.in_cache(w) && post.cached(w).header.page_type == PageType::Leaf
        && spec_lookup(post.cached(w), k) == Some(v));
}

/// A leaf binding survives a step that rewrites or creates at most one
/// page, provided that page is not cached as a leaf beforehand.
proof fn lemma_witness_step(pre: Pager, post: Pager, k: Seq<u8>, v: Seq<u8>, touched: u64)
    requires
        has_entry(pre, k, v),
        forall|id: u64|
            id != touched && #[trigger] pre.in_cache(id) ==> post.in_cache(id) && post.cached(id)
                == pre.cached(id),
        pre.in_cache(touched) ==> pre.cached(touched).header.page_type != PageType::Leaf,
    ensures
        has_entry(post, k, v),
{
    let w = choose|id: u64|
        #[trigger] pre.in_cache(id) && pre.cached(id).header.page_type == PageType::Leaf
            && spec_lookup(pre.cached(id), k) == Some(v);
    assert(w != touched);
    assert(post.in_cache(w) && post.cached(w).header.page_type == PageType::Leaf
        && spec_lookup(post.cached(w), k) == Some(v));
}

impl BLinkTree {
    /// Follows right links from `start` until reaching the node responsible
    /// for `key`, fetching each node; bounded by the traversal budget.
    fn fetch_responsible(pager: &mut Pager, start: u64, key: &[u8]) -> (r: Result<
        (u64, Page),
        TitanError,
    >)
        requires
            old(pager).wf(),
        ensures
            pager_frame(*old(pager), *final(pager)),
            pages_ok_step(*old(pager), *final(pager)),
            match r {
                Ok(ip) => {
                    &&& final(pager).in_cache(ip.0)
                    &&& final(pager).cached(ip.0) == ip.1@
                    &&& ip.1.wf()
                    &&& covers(ip.1@, key@)
                },
                Err(e) => e != TitanError::CapacityExceeded,
            },
            (old(pager).in_cache(start) && covers(old(pager).cached(start), key@)) ==> (
            r matches Ok(ip) && ip.0 == start && ip.1@ == old(pager).cached(start)
                && *final(pager) == *old(pager)),
    {
        let ghost ready = old(pager).in_cache(start) && covers(
            old(pager).cached(start),
            key@,
        );
        let mut current = start;
        let mut steps: usize = 0;
        while steps < TRAVERSAL_BUDGET
            invariant
                pager.wf(),
                pager_frame(*old(pager), *pager),
                pages_ok_step(*old(pager), *pager),
                ready == (old(pager).in_cache(start) && covers(
                    old(pager).cached(start),
                    key@,
                )),
                ready ==> current == start && *pager == *old(pager),
                steps > 0 ==> !ready,
            decreases TRAVERSAL_BUDGET - steps,
        {
            let ghost pprev = *pager;
            let page = match pager.fetch_page(current) {
                Ok(p) => p,
                Err(e) => {
                    proof {
                        lemma_pages_ok_trans(*old(pager), pprev, *pager);
                    }
                    return Err(e);
                },
            };
            proof {
                lemma_pages_ok_trans(*old(pager), pprev, *pager);
            }
            let mut moved = false;
            let mut next: u64 = 0;
            match (&page.header.high_key, &page.header.right_link) {
                (Some(hk), Some(rl)) => {
                    proof {
                        lemma_lex_trichotomy(key@, hk@);
                    }
                    if matches!(compare_keys(key, hk.as_slice()), KeyOrder::Greater) {
                        moved = true;
                        next = *rl;
                    }
                },
                _ => {},
            }
            if !moved {
                return Ok((current, page));
            }
            current = next;
            steps = steps + 1;
        }
        Err(TitanError::Retry)
    }

    /// Inserts `key` → `value`: traverse to the responsible leaf, re-check
    /// its high key on the write path — moving right if the range shifted —
    /// insert in sorted position (an equal key has its value overwritten),
    /// and split on overflow, propagating the separator upward; a split of
    /// the root installs a new interior root. Oversized keys or values are
    /// rejected with `CapacityExceeded`, and only they are. On success the
    /// pool holds a leaf binding `key` to `value`; no disk write happens.
    pub fn insert(&mut self, pager: &mut Pager, key: Vec<u8>, value: Vec<u8>) -> (r: Result<
        (),
        TitanError,
    >)
        requires
            old(pager).wf(),
        ensures
            pager_frame_mut(*old(pager), *final(pager)),
            pages_ok_step(*old(pager), *final(pager)),
            (key@.len() > MAX_KEY_LEN || value@.len() > MAX_VALUE_LEN) <==> r == Err::<
                (),
                TitanError,
            >(TitanError::CapacityExceeded),
            (r matches Ok(u) ==> has_entry(*final(pager), key@, value@)),
            ({
                let root = old(self).spec_root();
                let l0 = old(pager).cached(root);
                let nk = inserted_keys(l0.content.keys, key@);
                let nv = inserted_vals(l0.content.keys, l0.content.values, key@, value@);
                (leaf_root_ready(*old(pager), root) && node_ok(l0) && key@.len() <= MAX_KEY_LEN
                    && value@.len() <= MAX_VALUE_LEN && nk.len() <= CAPACITY_THRESHOLD) ==> {
                    &&& r == Ok::<(), TitanError>(())
                    &&& final(self).spec_root() == root
                    &&& final(pager).spec_total_pages() == old(pager).spec_total_pages()
                    &&& final(pager).in_cache(root)
                    &&& final(pager).cached(root) == (PageV {
                        header: l0.header,
                        content: NodeContentV { keys: nk, values: nv },
                        dirty: true,
                    })
                    &&& leaf_root_ready(*final(pager), root)
                    &&& node_ok(final(pager).cached(root))
                    &&& spec_lookup(final(pager).cached(root), key@) == Some(value@)
                    &&& forall|k: Seq<u8>|
                        k != key@ ==> #[trigger] spec_lookup(final(pager).cached(root), k)
                            == spec_lookup(l0, k)
                    &&& forall|id: u64|
                        id != root && old(pager).in_cache(id) ==> final(pager).in_cache(id)
                            && final(pager).cached(id) == old(pager).cached(id)
                    &&& forall|id: u64|
                        id != root && !old(pager).in_cache(id) ==> !(final(pager).in_cache(id))
                }
            }),
            ({
                let root = old(self).spec_root();
                let l0 = old(pager).cached(root);
                let nk = inserted_keys(l0.content.keys, key@);
                let nv = inserted_vals(l0.content.keys, l0.content.values, key@, value@);
                let l1 = PageV {
                    header: l0.header,
                    content: NodeContentV { keys: nk, values: nv },
                    dirty: true,
                };
                let mid = nk.len() as int / 2;
                let sib = old(pager).spec_total_pages();
                let newroot = (sib + 1) as u64;
                (leaf_root_ready(*old(pager), root) && node_ok(l0) && key@.len() <= MAX_KEY_LEN
                    && value@.len() <= MAX_VALUE_LEN && nk.len() == CAPACITY_THRESHOLD + 1 && old(
                    pager,
                ).spec_total_pages() < 0xffff_ffff_ffff_fffd) ==> {
                    &&& r == Ok::<(), TitanError>(())
                    &&& final(self).spec_root() == newroot
                    &&& final(pager).spec_total_pages() == old(pager).spec_total_pages() + 2
                    &&& final(pager).in_cache(root) && final(pager).cached(root) == split_left(
                        l1,
                        mid,
                        sib,
                    )
                    &&& final(pager).in_cache(sib) && final(pager).cached(sib) == split_right(
                        l1,
                        mid,
                        sib,
                    )
                    &&& final(pager).in_cache(newroot) && final(pager).cached(newroot)
                        == root_after_split(newroot, root, nk[mid], sib)
                    &&& forall|id: u64|
                        id != root && id != sib && id != newroot && old(pager).in_cache(id)
                            ==> final(pager).in_cache(id) && final(pager).cached(id) == old(
                            pager,
                        ).cached(id)
                    &&& forall|id: u64|
                        id != root && id != sib && id != newroot && !old(pager).in_cache(id)
                            ==> !(final(pager).in_cache(id))
                }
            }),
            forall|l: u64, rr: u64|
                #[trigger] two_leaf_state(*old(pager), old(self).spec_root(), l, rr) ==> ({
                    let p0 = *old(pager);
                    let root = old(self).spec_root();
                    let w = if lex_le(key@, p0.cached(l).header.high_key->0) {
                        l
                    } else {
                        rr
                    };
                    let l0 = p0.cached(w);
                    let nk = inserted_keys(l0.content.keys, key@);
                    let nv = inserted_vals(l0.content.keys, l0.content.values, key@, value@);
                    (key@.len() <= MAX_KEY_LEN && value@.len() <= MAX_VALUE_LEN && nk.len()
                        <= CAPACITY_THRESHOLD) ==> {
                        &&& r == Ok::<(), TitanError>(())
                        &&& final(self).spec_root() == root
                        &&& final(pager).spec_total_pages() == p0.spec_total_pages()
                        &&& two_leaf_state(*final(pager), root, l, rr)
                        &&& final(pager).cached(w) == (PageV {
                            header: l0.header,
                            content: NodeContentV { keys: nk, values: nv },
                            dirty: true,
                        })
                        &&& two_leaf_result(*final(pager), l, rr, key@) == Some(value@)
                        &&& forall|k2: Seq<u8>|
                            k2 != key@ ==> #[trigger] two_leaf_result(*final(pager), l, rr, k2)
                                == two_leaf_result(p0, l, rr, k2)
                        &&& forall|id: u64|
                            id != w && p0.in_cache(id) ==> final(pager).in_cache(id)
                                && final(pager).cached(id) == p0.cached(id)
                        &&& forall|id: u64|
                            id != w && !p0.in_cache(id) ==> !(final(pager).in_cache(id))
                    }
                }),
    {
        let ghost kq = key@;
        let ghost vq = value@;
        if key.len() > MAX_KEY_LEN || value.len() > MAX_VALUE_LEN {
            return Err(TitanError::CapacityExceeded);
        }
        let lp = match self.find_leaf(pager, key.as_slice()) {
            Ok(x) => x,
            Err(e) => {
                return Err(e);
            },
        };
        let path = lp.1;
        let ghost pafter_fl = *pager;
        let rp = match Self::fetch_responsible(pager, lp.0, key.as_slice()) {
            Ok(x) => x,
            Err(e) => {
                proof {
                    lemma_pages_ok_trans(*old(pager), pafter_fl, *pager);
                }
                return Err(e);
            },
        };
        proof {
            lemma_pages_ok_trans(*old(pager), pafter_fl, *pager);
        }
        let current = rp.0;
        let mut page = rp.1;
        if !matches!(page.header.page_type, PageType::Leaf) {
            return Err(TitanError::CorruptPage);
        }
        if !check_node(&page) {
            return Err(TitanError::CorruptPage);
        }
        proof {
            pager.lemma_cached_wf(current);
        }
        page_insert(&mut page, key, value);
        proof {
            if leaf_root_ready(*old(pager), old(self).spec_root()) && node_ok(
                old(pager).cached(old(self).spec_root()),
            ) {
                let root = old(self).spec_root();
                let l0 = old(pager).cached(root);
                let nk = inserted_keys(l0.content.keys, kq);
                let nv = inserted_vals(l0.content.keys, l0.content.values, kq, vq);
                assert(page@ =~~= (PageV {
                    header: l0.header,
                    content: NodeContentV { keys: nk, values: nv },
                    dirty: true,
                }));
            }
        }
        if page.content.keys.len() <= CAPACITY_THRESHOLD {
            let ghost pbefore_up = *pager;
            let ghost stored = page@;
            match pager.update_page(page) {
                Ok(_) => {},
                Err(e) => {
                    return Err(e);
                },
            }
            proof {
                assert(pager.in_cache(current) && pager.cached(current).header.page_type
                    == PageType::Leaf && spec_lookup(pager.cached(current), kq) == Some(vq));
                assert(pages_ok_step(pbefore_up, *pager)) by {
                    assert(pager.cached(current).dirty && pager.cached(current).wf()
                        && pager.cached(current).sorted() && pager.cached(current).bounded());
                }
                lemma_pages_ok_trans(*old(pager), pbefore_up, *pager);
            }
            return Ok(());
        }
        let ghost pbefore_sp = *pager;
        let r = self.split_and_propagate(pager, page, path, Ghost(kq), Ghost(vq));
        proof {
            lemma_pages_ok_trans(*old(pager), pbefore_sp, *pager);
        }
        r
    }

    /// Splits an over-full leaf and carries the separator upward: each
    /// ancestor level inserts (separator → new child) with the same
    /// move-right protocol, splitting in turn if over-full; when the split
    /// node was the root, a new interior root with one separator and two
    /// children takes its place.
    fn split_and_propagate(
        &mut self,
        pager: &mut Pager,
        page: Page,
        path: Vec<u64>,
        kq: Ghost<Seq<u8>>,
        vq: Ghost<Seq<u8>>,
    ) -> (r: Result<(), TitanError>)
        requires
            old(pager).wf(),
            old(pager).in_cache(page@.header.page_id),
            page.wf(),
            page.sorted(),
            page.bounded(),
            page@.header.page_type == PageType::Leaf,
            page@.content.keys.len() >= 2,
            spec_lookup(page@, kq@) == Some(vq@),
        ensures
            pager_frame_mut(*old(pager), *final(pager)),
            pages_ok_step(*old(pager), *final(pager)),
            match r {
                Ok(u) => has_entry(*final(pager), kq@, vq@),
                Err(e) => e != TitanError::CapacityExceeded,
            },
            ({
                let l0 = page@;
                let lid = l0.header.page_id;
                let mid = l0.content.keys.len() as int / 2;
                let sib = old(pager).spec_total_pages();
                let newroot = (sib + 1) as u64;
                (path@.len() == 0 && lid == old(self).spec_root() && old(
                    pager,
                ).spec_total_pages() < 0xffff_ffff_ffff_fffd) ==> {
                    &&& r == Ok::<(), TitanError>(())
                    &&& final(self).spec_root() == newroot
                    &&& final(pager).spec_total_pages() == old(pager).spec_total_pages() + 2
                    &&& final(pager).in_cache(lid) && final(pager).cached(lid) == split_left(
                        l0,
                        mid,
                        sib,
                    )
                    &&& final(pager).in_cache(sib) && final(pager).cached(sib) == split_right(
                        l0,
                        mid,
                        sib,
                    )
                    &&& final(pager).in_cache(newroot) && final(pager).cached(newroot)
                        == root_after_split(newroot, lid, l0.content.keys[mid], sib)
                    &&& forall|id: u64|
                        id != lid && id != sib && id != newroot && old(pager).in_cache(id)
                            ==> final(pager).in_cache(id) && final(pager).cached(id) == old(
                            pager,
                        ).cached(id)
                    &&& forall|id: u64|
                        id != lid && id != sib && id != newroot && !old(pager).in_cache(id)
                            ==> !(final(pager).in_cache(id))
                }
            }),
    {
        let left_id = page.header.page_id;
        if pager.total_pages() >= 0xffff_ffff_ffff_fffe {
            return Err(TitanError::Retry);
        }
        let ghost p0 = *pager;
        proof {
            p0.lemma_cached_ids_bounded(left_id);
        }
        let sib_handle = match pager.allocate_page(page.header.page_type) {
            Ok(p) => p,
            Err(e) => {
                return Err(e);
            },
        };
        proof {
            assert(pages_ok_step(p0, *pager));
        }
        let sib_id = sib_handle.header.page_id;
        let mut left = page;
        let sibling = split_page(&mut left, sib_id);
        let mut sep_key = copy_bytes(&sibling.content.keys[0]);
        let ghost pre_split = left@;
        let ghost pg1 = *pager;
        match pager.update_page(left) {
            Ok(_) => {},
            Err(e) => {
                return Err(e);
            },
        }
        proof {
            assert(pages_ok_step(pg1, *pager));
            lemma_pages_ok_trans(p0, pg1, *pager);
        }
        let ghost pg2 = *pager;
        match pager.update_page(sibling) {
            Ok(_) => {},
            Err(e) => {
                return Err(e);
            },
        }
        proof {
            assert(pages_ok_step(pg2, *pager));
            lemma_pages_ok_trans(p0, pg2, *pager);
            assert(sep_key@.len() > 0);
        }
        proof {
            let ks = page@.content.keys;
            let vs = page@.content.values;
            let mid = ks.len() as int / 2;
            lemma_index_props(ks, kq@);
            lemma_lookup_after_split(ks, vs, mid, kq@);
            let i0 = index_of_key(ks, kq@);
            if i0 < mid {
                assert(pager.in_cache(left_id) && pager.cached(left_id).header.page_type
                    == PageType::Leaf && spec_lookup(pager.cached(left_id), kq@) == Some(vq@));
            } else {
                assert(pager.in_cache(sib_id) && pager.cached(sib_id).header.page_type
                    == PageType::Leaf && spec_lookup(pager.cached(sib_id), kq@) == Some(vq@));
            }
            assert(has_entry(*pager, kq@, vq@));
        }
        let ghost aroot = path@.len() == 0 && left_id == old(self).spec_root() && p0
            .spec_total_pages() < 0xffff_ffff_ffff_fffd;
        proof {
            if aroot {
                let l0 = page@;
                let mid = l0.content.keys.len() as int / 2;
                assert(pre_split == split_left(l0, mid, sib_id));
                assert(pager.cached(left_id) =~~= split_left(l0, mid, sib_id));
                assert(pager.cached(sib_id) =~~= split_right(l0, mid, sib_id));
                assert(sep_key@ == l0.content.keys.skip(mid)[0]);
                assert(sep_key@ == l0.content.keys[mid]);
            }
        }
        let mut child_id = sib_id;
        let mut split_node_id = left_id;
        let mut path = path;
        let mut pending = true;
        #[verifier::loop_isolation(false)]
        while pending
            invariant
                pager.wf(),
                pager_frame_mut(*old(pager), *pager),
                pages_ok_step(*old(pager), *pager),
                has_entry(*pager, kq@, vq@),
                pending ==> sep_key@.len() <= MAX_KEY_LEN && sep_key@.len() > 0,
                aroot && pending ==> ({
                    let l0 = page@;
                    let lid = l0.header.page_id;
                    let mid = l0.content.keys.len() as int / 2;
                    &&& path@.len() == 0
                    &&& lid < sib_id
                    &&& child_id == sib_id
                    &&& split_node_id == lid
                    &&& sep_key@ == l0.content.keys[mid]
                    &&& self.spec_root() == old(self).spec_root()
                    &&& pager.spec_total_pages() == sib_id + 1
                    &&& pager.in_cache(lid) && pager.cached(lid) == split_left(l0, mid, sib_id)
                    &&& pager.in_cache(sib_id) && pager.cached(sib_id) == split_right(
                        l0,
                        mid,
                        sib_id,
                    )
                    &&& forall|id: u64|
                        id != lid && id != sib_id && p0.in_cache(id) ==> pager.in_cache(id)
                            && pager.cached(id) == p0.cached(id)
                    &&& forall|id: u64|
                        id != lid && id != sib_id && !p0.in_cache(id) ==> !(pager.in_cache(id))
                }),
                aroot && !pending ==> ({
                    let l0 = page@;
                    let lid = l0.header.page_id;
                    let mid = l0.content.keys.len() as int / 2;
                    let newroot = (sib_id + 1) as u64;
                    &&& self.spec_root() == newroot
                    &&& pager.spec_total_pages() == sib_id + 2
                    &&& pager.in_cache(lid) && pager.cached(lid) == split_left(l0, mid, sib_id)
                    &&& pager.in_cache(sib_id) && pager.cached(sib_id) == split_right(
                        l0,
                        mid,
                        sib_id,
                    )
                    &&& pager.in_cache(newroot) && pager.cached(newroot) == root_after_split(
                        newroot,
                        lid,
                        l0.content.keys[mid],
                        sib_id,
                    )
                    &&& forall|id: u64|
                        id != lid && id != sib_id && id != newroot && p0.in_cache(id)
                            ==> pager.in_cache(id) && pager.cached(id) == p0.cached(id)
                    &&& forall|id: u64|
                        id != lid && id != sib_id && id != newroot && !p0.in_cache(id) ==> !(
                        pager.in_cache(id))
                }),
            decreases path@.len() + (if pending { 1int } else { 0int }),
        {
            if path.len() == 0 {
                if pager.total_pages() >= 0xffff_ffff_ffff_fffe {
                    return Err(TitanError::Retry);
                }
                let ghost pa = *pager;
                let mut root_page = match pager.allocate_page(PageType::Interior) {
                    Ok(p) => p,
                    Err(e) => {
                        return Err(e);
                    },
                };
                proof {
                    if pa.in_cache(root_page@.header.page_id) {
                        pa.lemma_cached_ids_bounded(root_page@.header.page_id);
                    }
                    lemma_witness_step(pa, *pager, kq@, vq@, root_page@.header.page_id);
                    assert(pages_ok_step(pa, *pager));
                    lemma_pages_ok_trans(*old(pager), pa, *pager);
                }
                let new_root_id = root_page.header.page_id;
                proof {
                    assert(root_page@.content.keys =~= Seq::<Seq<u8>>::empty());
                    assert(root_page.content.keys@.len() == 0);
                    assert(root_page.content.values@.len() == 0);
                }
                let sk = sep_key;
                sep_key = Vec::new();
                root_page.content.keys.push(Vec::new());
                root_page.content.values.push(u64_to_le_bytes(split_node_id));
                root_page.content.keys.push(sk);
                root_page.content.values.push(u64_to_le_bytes(child_id));
                root_page.dirty = true;
                proof {
                    assert(root_page@.header.high_key is None);
                    assert(root_page@.content.keys.len() == 2);
                    assert(root_page@.content.values.len() == 2);
                    assert(root_page.wf());
                }
                let ghost pb = *pager;
                let ghost rootv = root_page@;
                match pager.update_page(root_page) {
                    Ok(_) => {},
                    Err(e) => {
                        return Err(e);
                    },
                }
                proof {
                    lemma_witness_step(pb, *pager, kq@, vq@, new_root_id);
                    assert(rootv.sorted()) by {
                        assert(lex_lt(rootv.content.keys[0], rootv.content.keys[1]));
                    }
                    assert(rootv.bounded());
                    assert(pages_ok_step(pb, *pager)) by {
                        assert(pager.cached(new_root_id).dirty && pager.cached(new_root_id).wf()
                            && pager.cached(new_root_id).sorted() && pager.cached(
                            new_root_id,
                        ).bounded());
                    }
                    lemma_pages_ok_trans(*old(pager), pb, *pager);
                    if aroot {
                        let l0 = page@;
                        let lid = l0.header.page_id;
                        let mid = l0.content.keys.len() as int / 2;
                        assert(new_root_id == sib_id + 1);
                        assert(rootv.content.keys =~~= seq![
                            Seq::<u8>::empty(),
                            l0.content.keys[mid],
                        ]);
                        assert(rootv.content.values =~~= seq![
                            spec_u64_to_le_bytes(lid),
                            spec_u64_to_le_bytes(sib_id),
                        ]);
                        assert(pager.cached(new_root_id) =~~= root_after_split(
                            new_root_id,
                            lid,
                            l0.content.keys[mid],
                            sib_id,
                        ));
                    }
                }
                self.root = new_root_id;
                pending = false;
            } else {
                let parent_hint = match path.pop() {
                    Some(x) => x,
                    None => {
                        return Err(TitanError::Retry);
                    },
                };
                let ghost pc = *pager;
                let rp = match Self::fetch_responsible(pager, parent_hint, sep_key.as_slice()) {
                    Ok(x) => x,
                    Err(e) => {
                        proof {
                            lemma_pages_ok_trans(*old(pager), pc, *pager);
                        }
                        return Err(e);
                    },
                };
                proof {
                    lemma_witness_frame(pc, *pager, kq@, vq@);
                    lemma_pages_ok_trans(*old(pager), pc, *pager);
                }
                let pid = rp.0;
                let mut ppage = rp.1;
                if !matches!(ppage.header.page_type, PageType::Interior) {
                    return Err(TitanError::CorruptPage);
                }
                if !check_node(&ppage) {
                    return Err(TitanError::CorruptPage);
                }
                proof {
                    pager.lemma_cached_wf(pid);
                }
                let ghost skq = sep_key@;
                let sk = sep_key;
                sep_key = Vec::new();
                page_insert(&mut ppage, sk, u64_to_le_bytes(child_id));
                if ppage.content.keys.len() <= CAPACITY_THRESHOLD {
                    let ghost pd = *pager;
                    match pager.update_page(ppage) {
                        Ok(_) => {},
                        Err(e) => {
                            return Err(e);
                        },
                    }
                    proof {
                        lemma_witness_step(pd, *pager, kq@, vq@, pid);
                        assert(pages_ok_step(pd, *pager));
                        lemma_pages_ok_trans(*old(pager), pd, *pager);
                    }
                    pending = false;
                    sep_key = Vec::new();
                } else {
                    if pager.total_pages() >= 0xffff_ffff_ffff_fffe {
                        return Err(TitanError::Retry);
                    }
                    let ghost pe = *pager;
                    proof {
                        pe.lemma_cached_ids_bounded(pid);
                    }
                    let sh = match pager.allocate_page(PageType::Interior) {
                        Ok(p) => p,
                        Err(e) => {
                            return Err(e);
                        },
                    };
                    let new_sib_id = sh.header.page_id;
                    proof {
                        if pe.in_cache(new_sib_id) {
                            pe.lemma_cached_ids_bounded(new_sib_id);
                        }
                        lemma_witness_step(pe, *pager, kq@, vq@, new_sib_id);
                        assert(pages_ok_step(pe, *pager));
                        lemma_pages_ok_trans(*old(pager), pe, *pager);
                    }
                    let psib = split_page(&mut ppage, new_sib_id);
                    let new_sep = copy_bytes(&psib.content.keys[0]);
                    let ghost pf = *pager;
                    match pager.update_page(ppage) {
                        Ok(_) => {},
                        Err(e) => {
                            return Err(e);
                        },
                    }
                    proof {
                        lemma_witness_step(pf, *pager, kq@, vq@, pid);
                        assert(pages_ok_step(pf, *pager));
                        lemma_pages_ok_trans(*old(pager), pf, *pager);
                    }
                    let ghost pg = *pager;
                    match pager.update_page(psib) {
                        Ok(_) => {},
                        Err(e) => {
                            return Err(e);
                        },
                    }
                    proof {
                        lemma_witness_step(pg, *pager, kq@, vq@, new_sib_id);
                        assert(pages_ok_step(pg, *pager));
                        lemma_pages_ok_trans(*old(pager), pg, *pager);
                        assert(new_sep@.len() > 0);
                    }
                    sep_key = new_sep;
                    child_id = new_sib_id;
                    split_node_id = pid;
                }
            }
        }
        Ok(())
    }
}

} // verus!
