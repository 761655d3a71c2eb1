//! The page: the atomic unit of persistence, and its invariants.

use vstd::prelude::*;
use crate::keys::sorted_strict;

verus! {

/// Fixed size of one on-disk page slot, in bytes.
pub const PAGE_SIZE: usize = 4096;

/// Longest key a page accepts, in bytes: the per-row budget that follows
/// from the fixed page slot and the fixed split fan-out. A node holds at
/// most [`CAPACITY_THRESHOLD`] + 1 rows before it splits, each row costs
/// its key, its value and two length words, and the header carries one
/// key as its high key; nine maximal rows plus the header must fit in
/// [`PAGE_SIZE`].
pub const MAX_KEY_LEN: usize = 128;

/// Longest value a page accepts, in bytes; see [`MAX_KEY_LEN`] for the
/// budget this is drawn from.
pub const MAX_VALUE_LEN: usize = 288;

/// A node is split as soon as it holds more than this many entries.
pub const CAPACITY_THRESHOLD: usize = 8;

/// Stable 64-bit address of a page; also its file-offset multiplier.
pub type PageId = u64;

/// Role of a node; immutable after page creation.
#[derive(Debug, Clone, Copy, PartialEq, Eq, Structural)]
pub enum PageType {
    Leaf,
    Interior,
    Overflow,
}

/// Node metadata. `high_key` is the exclusive upper bound on the keys the
/// node is currently responsible for, and `right_link` the id of the node
/// holding the next range; the two are set together or not at all.
#[derive(Debug, Clone)]
pub struct PageHeader {
    pub page_id: PageId,
    pub page_type: PageType,
    pub lsn: u64,
    pub high_key: Option<Vec<u8>>,
    pub right_link: Option<PageId>,
}

/// Node payload: parallel sequences of keys and values. In a leaf the values
/// are user data; in an interior node each value encodes a child `PageId`.
#[derive(Debug, Clone)]
pub struct NodeContent {
    pub keys: Vec<Vec<u8>>,
    pub values: Vec<Vec<u8>>,
}

/// One persistable unit: header, payload, and the in-memory dirty flag.
#[derive(Debug, Clone)]
pub struct Page {
    pub header: PageHeader,
    pub content: NodeContent,
    pub dirty: bool,
}

/// Mathematical model of a page header.
#[verifier::ext_equal]
pub struct PageHeaderV {
    pub page_id: u64,
    pub page_type: PageType,
    pub lsn: u64,
    pub high_key: Option<Seq<u8>>,
    pub right_link: Option<u64>,
}

/// Mathematical model of a page payload.
#[verifier::ext_equal]
pub struct NodeContentV {
    pub keys: Seq<Seq<u8>>,
    pub values: Seq<Seq<u8>>,
}

/// Mathematical model of a page.
#[verifier::ext_equal]
pub struct PageV {
    pub header: PageHeaderV,
    pub content: NodeContentV,
    pub dirty: bool,
}

impl View for PageHeader {
    type V = PageHeaderV;

    open spec fn view(&self) -> PageHeaderV {
        PageHeaderV {
            page_id: self.page_id,
            page_type: self.page_type,
            lsn: self.lsn,
            high_key: match self.high_key {
                Some(hk) => Some(hk@),
                None => None,
            },
            right_link: self.right_link,
        }
    }
}

impl View for NodeContent {
    type V = NodeContentV;

    open spec fn view(&self) -> NodeContentV {
        NodeContentV { keys: self.keys.deep_view(), values: self.values.deep_view() }
    }
}

impl View for Page {
    type V = PageV;

    open spec fn view(&self) -> PageV {
        PageV { header: self.header@, content: self.content@, dirty: self.dirty }
    }
}

impl PageHeaderV {
    /// The B-link pairing invariant: `right_link` is set whenever `high_key`
    /// is, and vice versa.
    pub open spec fn links_paired(self) -> bool {
        self.high_key is Some <==> self.right_link is Some
    }
}

impl PageV {
    /// Structural well-formedness: paired links, and paired key/value rows.
    pub open spec fn wf(self) -> bool {
        &&& self.header.links_paired()
        &&& self.content.keys.len() == self.content.values.len()
    }

    /// Keys strictly ascending, no duplicates within the node.
    pub open spec fn sorted(self) -> bool {
        sorted_strict(self.content.keys)
    }

    /// Every key, value and the high key lie within the fixed length caps,
    /// and the entry count has not outrun the split threshold by more than
    /// the one insertion that triggers a split. Pages kept in this region
    /// always fit in a page slot once encoded.
    pub open spec fn bounded(self) -> bool {
        &&& self.content.keys.len() <= CAPACITY_THRESHOLD + 1
        &&& forall|i: int|
            0 <= i < self.content.keys.len() ==> (#[trigger] self.content.keys[i]).len()
                <= MAX_KEY_LEN
        &&& forall|i: int|
            0 <= i < self.content.values.len() ==> (#[trigger] self.content.values[i]).len()
                <= MAX_VALUE_LEN
        &&& self.header.high_key matches Some(hk) ==> hk.len() <= MAX_KEY_LEN
    }
}

/// The model of a fresh, empty, dirty page of the given type, as
/// [`Page::new`] builds it.
pub open spec fn spec_fresh(page_id: u64, page_type: PageType) -> PageV {
    PageV {
        header: PageHeaderV {
            page_id,
            page_type,
            lsn: 0,
            high_key: None,
            right_link: None,
        },
        content: NodeContentV { keys: Seq::empty(), values: Seq::empty() },
        dirty: true,
    }
}

/// Copies a byte string.
pub fn copy_bytes(v: &Vec<u8>) -> (r: Vec<u8>)
    ensures
        r@ == v@,
{
    let mut r: Vec<u8> = Vec::new();
    r.extend_from_slice(v.as_slice());
    proof {
        assert(r@ =~= v@);
    }
    r
}

/// Copies a sequence of byte strings.
pub fn copy_byte_rows(v: &Vec<Vec<u8>>) -> (r: Vec<Vec<u8>>)
    ensures
        r.deep_view() == v.deep_view(),
        r@.len() == v@.len(),
{
    let mut r: Vec<Vec<u8>> = Vec::new();
    let n = v.len();
    let mut i: usize = 0;
    while i < n
        invariant
            i <= n,
            n == v@.len(),
            r@.len() == i,
            forall|j: int| 0 <= j < i ==> #[trigger] r.deep_view()[j] == v.deep_view()[j],
        decreases n - i,
    {
        let ghost prev = r.deep_view();
        r.push(copy_bytes(&v[i]));
        proof {
            assert forall|j: int| 0 <= j <= i implies #[trigger] r.deep_view()[j]
                == v.deep_view()[j] by {
                if j < i {
                    assert(r.deep_view()[j] == prev[j]);
                } else {
                    assert(r.deep_view()[j] =~= v.deep_view()[j]);
                }
            }
        }
        i = i + 1;
    }
    proof {
        assert(r.deep_view() =~~= v.deep_view());
    }
    r
}

impl Page {
    /// Structural well-formedness of the in-memory page.
    pub open spec fn wf(self) -> bool {
        self@.wf()
    }

    /// Keys strictly ascending, no duplicates within the node.
    pub open spec fn sorted(self) -> bool {
        self@.sorted()
    }

    /// The page lies within the fixed length caps; see [`PageV::bounded`].
    pub open spec fn bounded(self) -> bool {
        self@.bounded()
    }

    /// A fresh, empty, dirty page of the given type.
    pub fn new(page_id: PageId, page_type: PageType) -> (p: Page)
        ensures
            p@.header.page_id == page_id,
            p@.header.page_type == page_type,
            p@.header.lsn == 0,
            p@.header.high_key is None,
            p@.header.right_link is None,
            p@.content.keys.len() == 0,
            p@.content.values.len() == 0,
            p@.dirty,
            p.wf(),
            p.sorted(),
            p.bounded(),
            p@ == spec_fresh(page_id, page_type),
    {
        let p = Page {
            header: PageHeader {
                page_id,
                page_type,
                lsn: 0,
                high_key: None,
                right_link: None,
            },
            content: NodeContent { keys: Vec::new(), values: Vec::new() },
            dirty: true,
        };
        proof {
            assert(p@ =~~= spec_fresh(page_id, page_type));
        }
        p
    }

    /// A structural copy of this page, with an equal model.
    pub fn duplicate(&self) -> (r: Page)
        ensures
            r@ == self@,
    {
        let high_key = match &self.header.high_key {
            Some(hk) => Some(copy_bytes(hk)),
            None => None,
        };
        let r = Page {
            header: PageHeader {
                page_id: self.header.page_id,
                page_type: self.header.page_type,
                lsn: self.header.lsn,
                high_key,
                right_link: self.header.right_link,
            },
            content: NodeContent {
                keys: copy_byte_rows(&self.content.keys),
                values: copy_byte_rows(&self.content.values),
            },
            dirty: self.dirty,
        };
        r
    }
}

} // verus!
