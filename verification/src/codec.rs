//! The page wire format: a deterministic, self-describing binary encoding of
//! header then content, with explicit lengths for variable-size keys and
//! values, proved to round-trip.

use vstd::prelude::*;
use vstd::bytes::{
    lemma_auto_spec_u64_to_from_le_bytes, spec_u64_from_le_bytes, spec_u64_to_le_bytes,
    u64_from_le_bytes, u64_to_le_bytes,
};
use vstd::slice::{slice_index_get, slice_subrange, slice_to_vec};
use crate::error::TitanError;
use crate::page::{
    NodeContent, NodeContentV, Page, PageHeader, PageHeaderV, PageType, PageV, CAPACITY_THRESHOLD,
    MAX_KEY_LEN, MAX_VALUE_LEN, PAGE_SIZE,
};

verus! {

/// One-byte tag of a page type on the wire.
pub open spec fn type_tag(t: PageType) -> u8 {
    match t {
        PageType::Leaf => 0,
        PageType::Interior => 1,
        PageType::Overflow => 2,
    }
}

/// Inverse of [`type_tag`]; unknown tags decode to nothing.
pub open spec fn dec_type(t: u8) -> Option<PageType> {
    if t == 0 {
        Some(PageType::Leaf)
    } else if t == 1 {
        Some(PageType::Interior)
    } else if t == 2 {
        Some(PageType::Overflow)
    } else {
        None
    }
}

/// A 64-bit integer on the wire: eight bytes, little endian.
pub open spec fn enc_u64(x: u64) -> Seq<u8> {
    spec_u64_to_le_bytes(x)
}

/// A byte string on the wire: its length, then its bytes.
pub open spec fn enc_bytes(s: Seq<u8>) -> Seq<u8> {
    enc_u64(s.len() as u64) + s
}

/// The optional B-link pair on the wire: a presence flag, then the right
/// link and the high key when present.
pub open spec fn enc_links(h: PageHeaderV) -> Seq<u8> {
    match (h.high_key, h.right_link) {
        (Some(hk), Some(rl)) => seq![1u8] + enc_u64(rl) + enc_bytes(hk),
        _ => seq![0u8],
    }
}

/// A page header on the wire.
pub open spec fn enc_header(h: PageHeaderV) -> Seq<u8> {
    enc_u64(h.page_id) + seq![type_tag(h.page_type)] + enc_u64(h.lsn) + enc_links(h)
}

/// The key/value rows on the wire, in order.
pub open spec fn enc_pairs(ks: Seq<Seq<u8>>, vs: Seq<Seq<u8>>) -> Seq<u8>
    decreases ks.len(),
{
    if ks.len() == 0 {
        Seq::<u8>::empty()
    } else {
        enc_bytes(ks[0]) + enc_bytes(vs[0]) + enc_pairs(ks.drop_first(), vs.drop_first())
    }
}

/// A whole page on the wire: header, row count, rows. Padding to the page
/// slot size is applied by the pager, not here.
pub open spec fn spec_serialize(p: PageV) -> Seq<u8> {
    enc_header(p.header) + enc_u64(p.content.keys.len() as u64) + enc_pairs(
        p.content.keys,
        p.content.values,
    )
}

/// Reads a 64-bit integer at offset `i`.
pub open spec fn dec_u64_at(b: Seq<u8>, i: int) -> Option<(u64, int)> {
    if 0 <= i && i + 8 <= b.len() {
        Some((spec_u64_from_le_bytes(b.subrange(i, i + 8)), i + 8))
    } else {
        None
    }
}

/// Reads a length-prefixed byte string at offset `i`.
pub open spec fn dec_bytes_at(b: Seq<u8>, i: int) -> Option<(Seq<u8>, int)> {
    match dec_u64_at(b, i) {
        Some((n, j)) => if j + n <= b.len() {
            Some((b.subrange(j, j + n), j + n))
        } else {
            None
        },
        None => None,
    }
}

/// Reads a page header at offset `i`.
pub open spec fn dec_header_at(b: Seq<u8>, i: int) -> Option<(PageHeaderV, int)> {
    match dec_u64_at(b, i) {
        None => None,
        Some((page_id, i1)) => if i1 + 1 <= b.len() {
            match dec_type(b[i1]) {
                None => None,
                Some(page_type) => match dec_u64_at(b, i1 + 1) {
                    None => None,
                    Some((lsn, i2)) => if i2 + 1 <= b.len() {
                        if b[i2] == 0 {
                            Some(
                                (
                                    PageHeaderV {
                                        page_id,
                                        page_type,
                                        lsn,
                                        high_key: None,
                                        right_link: None,
                                    },
                                    i2 + 1,
                                ),
                            )
                        } else if b[i2] == 1 {
                            match dec_u64_at(b, i2 + 1) {
                                None => None,
                                Some((rl, i3)) => match dec_bytes_at(b, i3) {
                                    None => None,
                                    Some((hk, i4)) => Some(
                                        (
                                            PageHeaderV {
                                                page_id,
                                                page_type,
                                                lsn,
                                                high_key: Some(hk),
                                                right_link: Some(rl),
                                            },
                                            i4,
                                        ),
                                    ),
                                },
                            }
                        } else {
                            None
                        }
                    } else {
                        None
                    },
                },
            }
        } else {
            None
        },
    }
}

/// Reads `n` key/value rows starting at offset `i`.
pub open spec fn dec_pairs_at(b: Seq<u8>, i: int, n: nat) -> Option<
    (Seq<Seq<u8>>, Seq<Seq<u8>>, int),
>
    decreases n,
{
    if n == 0 {
        Some((Seq::<Seq<u8>>::empty(), Seq::<Seq<u8>>::empty(), i))
    } else {
        match dec_bytes_at(b, i) {
            None => None,
            Some((k, j)) => match dec_bytes_at(b, j) {
                None => None,
                Some((v, j2)) => match dec_pairs_at(b, j2, (n - 1) as nat) {
                    None => None,
                    Some((ks, vs, end)) => Some((seq![k] + ks, seq![v] + vs, end)),
                },
            },
        }
    }
}

/// The inverse of [`spec_serialize`]: decodes a page from the front of a
/// byte string, ignoring any trailing padding; a freshly decoded page is
/// never dirty.
pub open spec fn spec_deserialize(b: Seq<u8>) -> Option<PageV> {
    match dec_header_at(b, 0) {
        None => None,
        Some((header, i)) => match dec_u64_at(b, i) {
            None => None,
            Some((n, j)) => match dec_pairs_at(b, j, n as nat) {
                None => None,
                Some((ks, vs, _end)) => Some(
                    PageV { header, content: NodeContentV { keys: ks, values: vs }, dirty: false },
                ),
            },
        },
    }
}

/// All variable-length parts of the page are shorter than 2^64, so their
/// lengths fit in the wire format's length words.
pub open spec fn lens_fit(p: PageV) -> bool {
    &&& p.content.keys.len() < 0x1_0000_0000_0000_0000
    &&& forall|i: int|
        0 <= i < p.content.keys.len() ==> (#[trigger] p.content.keys[i]).len()
            < 0x1_0000_0000_0000_0000
    &&& forall|i: int|
        0 <= i < p.content.values.len() ==> (#[trigger] p.content.values[i]).len()
            < 0x1_0000_0000_0000_0000
    &&& p.header.high_key matches Some(hk) ==> hk.len() < 0x1_0000_0000_0000_0000
}

// ---- lemmas about the format ----

/// A subrange equal to a concatenation splits into subranges equal to the
/// two halves.
proof fn lemma_split_concat(b: Seq<u8>, i: int, s1: Seq<u8>, s2: Seq<u8>)
    requires
        0 <= i,
        i + s1.len() + s2.len() <= b.len(),
        b.subrange(i, i + s1.len() + s2.len()) == s1 + s2,
    ensures
        b.subrange(i, i + s1.len()) == s1,
        b.subrange(i + s1.len(), i + s1.len() + s2.len()) == s2,
{
    let whole = b.subrange(i, i + s1.len() + s2.len());
    assert forall|k: int| 0 <= k < s1.len() implies b.subrange(i, i + s1.len())[k] == s1[k] by {
        assert(whole[k] == (s1 + s2)[k]);
    }
    assert(b.subrange(i, i + s1.len()) =~= s1);
    assert forall|k: int|
        0 <= k < s2.len() implies b.subrange(i + s1.len(), i + s1.len() + s2.len())[k] == s2[k] by {
        assert(whole[s1.len() + k] == (s1 + s2)[s1.len() + k]);
    }
    assert(b.subrange(i + s1.len(), i + s1.len() + s2.len()) =~= s2);
}

proof fn lemma_dec_u64_at(b: Seq<u8>, i: int, x: u64)
    requires
        0 <= i,
        i + 8 <= b.len(),
        b.subrange(i, i + 8) == enc_u64(x),
    ensures
        dec_u64_at(b, i) == Some((x, i + 8)),
{
    lemma_auto_spec_u64_to_from_le_bytes();
}

proof fn lemma_dec_bytes_at(b: Seq<u8>, i: int, s: Seq<u8>)
    requires
        0 <= i,
        s.len() < 0x1_0000_0000_0000_0000,
        i + 8 + s.len() <= b.len(),
        b.subrange(i, i + 8 + s.len()) == enc_bytes(s),
    ensures
        dec_bytes_at(b, i) == Some((s, i + 8 + s.len())),
{
    lemma_auto_spec_u64_to_from_le_bytes();
    lemma_split_concat(b, i, enc_u64(s.len() as u64), s);
    lemma_dec_u64_at(b, i, s.len() as u64);
}

proof fn lemma_dec_header_at(b: Seq<u8>, i: int, h: PageHeaderV)
    requires
        0 <= i,
        h.links_paired(),
        h.high_key matches Some(hk) ==> hk.len() < 0x1_0000_0000_0000_0000,
        i + enc_header(h).len() <= b.len(),
        b.subrange(i, i + enc_header(h).len()) == enc_header(h),
    ensures
        dec_header_at(b, i) == Some((h, i + enc_header(h).len())),
{
    lemma_auto_spec_u64_to_from_le_bytes();
    let rest = seq![type_tag(h.page_type)] + enc_u64(h.lsn) + enc_links(h);
    assert(enc_header(h) =~= enc_u64(h.page_id) + rest);
    lemma_split_concat(b, i, enc_u64(h.page_id), rest);
    lemma_dec_u64_at(b, i, h.page_id);
    let a1 = i + 8;
    let rest2 = enc_u64(h.lsn) + enc_links(h);
    assert(rest =~= seq![type_tag(h.page_type)] + rest2);
    lemma_split_concat(b, a1, seq![type_tag(h.page_type)], rest2);
    assert(b[a1] == b.subrange(a1, a1 + 1)[0]);
    assert(b[a1] == type_tag(h.page_type));
    let a2 = a1 + 1;
    lemma_split_concat(b, a2, enc_u64(h.lsn), enc_links(h));
    lemma_dec_u64_at(b, a2, h.lsn);
    let a3 = a2 + 8;
    match (h.high_key, h.right_link) {
        (Some(hk), Some(rl)) => {
            let rest3 = enc_u64(rl) + enc_bytes(hk);
            assert(enc_links(h) =~= seq![1u8] + rest3);
            lemma_split_concat(b, a3, seq![1u8], rest3);
            assert(b[a3] == b.subrange(a3, a3 + 1)[0]);
            assert(b[a3] == 1u8);
            lemma_split_concat(b, a3 + 1, enc_u64(rl), enc_bytes(hk));
            lemma_dec_u64_at(b, a3 + 1, rl);
            lemma_dec_bytes_at(b, a3 + 9, hk);
        },
        _ => {
            assert(h.high_key is None && h.right_link is None);
            assert(b[a3] == b.subrange(a3, a3 + 1)[0]);
            assert(b[a3] == 0u8);
        },
    }
}

proof fn lemma_dec_pairs_at(b: Seq<u8>, i: int, ks: Seq<Seq<u8>>, vs: Seq<Seq<u8>>)
    requires
        0 <= i,
        ks.len() == vs.len(),
        forall|t: int| 0 <= t < ks.len() ==> (#[trigger] ks[t]).len() < 0x1_0000_0000_0000_0000,
        forall|t: int| 0 <= t < vs.len() ==> (#[trigger] vs[t]).len() < 0x1_0000_0000_0000_0000,
        i + enc_pairs(ks, vs).len() <= b.len(),
        b.subrange(i, i + enc_pairs(ks, vs).len()) == enc_pairs(ks, vs),
    ensures
        dec_pairs_at(b, i, ks.len()) == Some((ks, vs, i + enc_pairs(ks, vs).len())),
    decreases ks.len(),
{
    lemma_auto_spec_u64_to_from_le_bytes();
    if ks.len() == 0 {
        assert(ks =~= Seq::<Seq<u8>>::empty());
        assert(vs =~= Seq::<Seq<u8>>::empty());
    } else {
        let k = ks[0];
        let v = vs[0];
        let kt = ks.drop_first();
        let vt = vs.drop_first();
        let rest = enc_bytes(v) + enc_pairs(kt, vt);
        assert(enc_pairs(ks, vs) =~= enc_bytes(k) + rest);
        lemma_split_concat(b, i, enc_bytes(k), rest);
        lemma_dec_bytes_at(b, i, k);
        let j = i + 8 + k.len();
        lemma_split_concat(b, j, enc_bytes(v), enc_pairs(kt, vt));
        lemma_dec_bytes_at(b, j, v);
        let j2 = j + 8 + v.len();
        assert forall|t: int| 0 <= t < kt.len() implies (#[trigger] kt[t]).len()
            < 0x1_0000_0000_0000_0000 by {
            assert(kt[t] == ks[t + 1]);
        }
        assert forall|t: int| 0 <= t < vt.len() implies (#[trigger] vt[t]).len()
            < 0x1_0000_0000_0000_0000 by {
            assert(vt[t] == vs[t + 1]);
        }
        lemma_dec_pairs_at(b, j2, kt, vt);
        assert(seq![k] + kt =~= ks);
        assert(seq![v] + vt =~= vs);
    }
}

/// The round-trip law: decoding an encoded page, with any trailing padding,
/// reproduces its header and content exactly; the decoded page is clean.
pub proof fn lemma_round_trip(p: PageV, tail: Seq<u8>)
    requires
        p.wf(),
        lens_fit(p),
    ensures
        spec_deserialize(spec_serialize(p) + tail) == Some(
            PageV { header: p.header, content: p.content, dirty: false },
        ),
{
    lemma_auto_spec_u64_to_from_le_bytes();
    let b = spec_serialize(p) + tail;
    let n = p.content.keys.len();
    let hlen = enc_header(p.header).len();
    let rest = enc_u64(n as u64) + enc_pairs(p.content.keys, p.content.values);
    assert(b.subrange(0, spec_serialize(p).len() as int) =~= spec_serialize(p));
    assert(spec_serialize(p) =~= enc_header(p.header) + rest);
    assert(b.subrange(0, (hlen + rest.len()) as int) =~= enc_header(p.header) + rest);
    lemma_split_concat(b, 0, enc_header(p.header), rest);
    lemma_dec_header_at(b, 0, p.header);
    lemma_split_concat(b, hlen as int, enc_u64(n as u64), enc_pairs(p.content.keys, p.content.values));
    lemma_dec_u64_at(b, hlen as int, n as u64);
    lemma_dec_pairs_at(b, hlen as int + 8, p.content.keys, p.content.values);
    assert((n as u64) as nat == n);
}

// ---- executable codec ----

/// One-byte tag of a page type.
fn tag_of(t: PageType) -> (r: u8)
    ensures
        r == type_tag(t),
{
    match t {
        PageType::Leaf => 0,
        PageType::Interior => 1,
        PageType::Overflow => 2,
    }
}

/// Appends a 64-bit integer, little endian.
fn push_u64(out: &mut Vec<u8>, x: u64)
    ensures
        final(out)@ == old(out)@ + enc_u64(x),
{
    let mut b = u64_to_le_bytes(x);
    out.append(&mut b);
}

/// Appends a length-prefixed byte string.
fn push_bytes(out: &mut Vec<u8>, s: &[u8])
    ensures
        final(out)@ == old(out)@ + enc_bytes(s@),
{
    let ghost o = out@;
    push_u64(out, s.len() as u64);
    out.extend_from_slice(s);
    proof {
        assert(out@ =~= o + enc_bytes(s@));
    }
}

impl Page {
    /// Encodes the page for its disk slot. Fails with `CapacityExceeded`
    /// exactly when the encoded form would not fit within [`PAGE_SIZE`].
    pub fn serialize(&self) -> (r: Result<Vec<u8>, TitanError>)
        requires
            self.wf(),
        ensures
            match r {
                Ok(bytes) => bytes@ == spec_serialize(self@) && bytes@.len() <= PAGE_SIZE,
                Err(e) => e == TitanError::CapacityExceeded && spec_serialize(self@).len()
                    > PAGE_SIZE,
            },
    {
        let mut out: Vec<u8> = Vec::new();
        push_u64(&mut out, self.header.page_id);
        let tag = tag_of(self.header.page_type);
        out.push(tag);
        push_u64(&mut out, self.header.lsn);
        match (&self.header.high_key, &self.header.right_link) {
            (Some(hk), Some(rl)) => {
                out.push(1u8);
                push_u64(&mut out, *rl);
                push_bytes(&mut out, hk.as_slice());
            },
            _ => {
                out.push(0u8);
            },
        }
        proof {
            assert(out@ =~= enc_header(self@.header));
        }
        let n = self.content.keys.len();
        push_u64(&mut out, n as u64);
        let ghost prefix = enc_header(self@.header) + enc_u64(n as u64);
        proof {
            assert(out@ =~= prefix);
            assert(self@.content.keys.take(0) =~= Seq::<Seq<u8>>::empty());
            assert(self@.content.values.take(0) =~= Seq::<Seq<u8>>::empty());
        }
        let mut t: usize = 0;
        while t < n
            invariant
                t <= n,
                n == self.content.keys.len(),
                self.wf(),
                prefix == enc_header(self@.header) + enc_u64(n as u64),
                out@ == prefix + enc_pairs(
                    self@.content.keys.take(t as int),
                    self@.content.values.take(t as int),
                ),
            decreases n - t,
        {
            let k: &Vec<u8> = &self.content.keys[t];
            let v: &Vec<u8> = &self.content.values[t];
            proof {
                assert(k@ =~= self@.content.keys[t as int]);
                assert(v@ =~= self@.content.values[t as int]);
            }
            push_bytes(&mut out, k.as_slice());
            push_bytes(&mut out, v.as_slice());
            proof {
                let ks = self@.content.keys;
                let vs = self@.content.values;
                lemma_enc_pairs_snoc(ks.take(t as int), vs.take(t as int), ks[t as int], vs[t as int]);
                assert(ks.take(t + 1) =~= ks.take(t as int).push(ks[t as int]));
                assert(vs.take(t + 1) =~= vs.take(t as int).push(vs[t as int]));
                assert(out@ =~= prefix + enc_pairs(ks.take(t + 1), vs.take(t + 1)));
            }
            t = t + 1;
        }
        proof {
            assert(self@.content.keys.take(n as int) =~= self@.content.keys);
            assert(self@.content.values.take(n as int) =~= self@.content.values);
            assert(out@ =~= spec_serialize(self@));
        }
        if out.len() > PAGE_SIZE {
            Err(TitanError::CapacityExceeded)
        } else {
            Ok(out)
        }
    }

    /// Decodes a page from its stored bytes; the decoded page is clean.
    /// Fails with `CorruptPage` exactly when the byte layout cannot be
    /// decoded; it never synthesizes a default page.
    pub fn deserialize(bytes: &[u8]) -> (r: Result<Page, TitanError>)
        ensures
            match r {
                Ok(p) => spec_deserialize(bytes@) == Some(p@) && p.wf() && !p@.dirty,
                Err(e) => e == TitanError::CorruptPage && spec_deserialize(bytes@) is None,
            },
    {
        let hdr = match read_header(bytes) {
            None => {
                return Err(TitanError::CorruptPage);
            },
            Some(x) => x,
        };
        let header = hdr.0;
        let after_header = hdr.1;
        let cnt = match read_u64(bytes, after_header) {
            None => {
                return Err(TitanError::CorruptPage);
            },
            Some(x) => x,
        };
        let n = cnt.0;
        let mut pos = cnt.1;
        let mut ks: Vec<Vec<u8>> = Vec::new();
        let mut vs: Vec<Vec<u8>> = Vec::new();
        let mut t: u64 = 0;
        proof {
            assert(ks.deep_view() =~= Seq::<Seq<u8>>::empty());
            assert(vs.deep_view() =~= Seq::<Seq<u8>>::empty());
            if dec_pairs_at(bytes@, pos as int, n as nat) is Some {
                let (ks2, vs2, _end) = dec_pairs_at(bytes@, pos as int, n as nat)->0;
                assert(ks.deep_view() + ks2 =~= ks2);
                assert(vs.deep_view() + vs2 =~= vs2);
            }
        }
        while t < n
            invariant
                t <= n,
                pos <= bytes@.len(),
                ks@.len() == t,
                vs@.len() == t,
                header@.links_paired(),
                spec_deserialize(bytes@) == glue(
                    bytes@,
                    header@,
                    ks.deep_view(),
                    vs.deep_view(),
                    pos as int,
                    (n - t) as nat,
                ),
            decreases n - t,
        {
            let kk = match read_bytes(bytes, pos) {
                None => {
                    proof {
                        assert(dec_pairs_at(bytes@, pos as int, (n - t) as nat) is None);
                    }
                    return Err(TitanError::CorruptPage);
                },
                Some(x) => x,
            };
            let vv = match read_bytes(bytes, kk.1) {
                None => {
                    proof {
                        assert(dec_pairs_at(bytes@, pos as int, (n - t) as nat) is None);
                    }
                    return Err(TitanError::CorruptPage);
                },
                Some(x) => x,
            };
            let ghost old_ks = ks.deep_view();
            let ghost old_vs = vs.deep_view();
            let ghost old_pos = pos as int;
            let ghost rem = (n - t) as nat;
            ks.push(kk.0);
            vs.push(vv.0);
            pos = vv.1;
            t = t + 1;
            proof {
                assert(ks.deep_view() =~~= old_ks.push(kk.0@));
                assert(vs.deep_view() =~~= old_vs.push(vv.0@));
                if dec_pairs_at(bytes@, pos as int, (rem - 1) as nat) is Some {
                    let (ks2, vs2, _end) = dec_pairs_at(bytes@, pos as int, (rem - 1) as nat)->0;
                    assert(dec_pairs_at(bytes@, old_pos, rem) matches Some((ka, va, _e2))
                        && ka == seq![kk.0@] + ks2 && va == seq![vv.0@] + vs2);
                    assert(old_ks + (seq![kk.0@] + ks2) =~= ks.deep_view() + ks2);
                    assert(old_vs + (seq![vv.0@] + vs2) =~= vs.deep_view() + vs2);
                } else {
                    assert(dec_pairs_at(bytes@, old_pos, rem) is None);
                }
            }
        }
        proof {
            assert(dec_pairs_at(bytes@, pos as int, 0) == Some(
                (Seq::<Seq<u8>>::empty(), Seq::<Seq<u8>>::empty(), pos as int),
            ));
            assert(ks.deep_view() + Seq::<Seq<u8>>::empty() =~= ks.deep_view());
            assert(vs.deep_view() + Seq::<Seq<u8>>::empty() =~= vs.deep_view());
        }
        let p = Page { header, content: NodeContent { keys: ks, values: vs }, dirty: false };
        Ok(p)
    }
}

/// Glues rows already decoded onto the result of decoding the remaining
/// rows; used to state the decoder's loop invariant.
spec fn glue(
    b: Seq<u8>,
    header: PageHeaderV,
    ks_acc: Seq<Seq<u8>>,
    vs_acc: Seq<Seq<u8>>,
    pos: int,
    rem: nat,
) -> Option<PageV> {
    match dec_pairs_at(b, pos, rem) {
        None => None,
        Some((ks2, vs2, _end)) => Some(
            PageV {
                header,
                content: NodeContentV { keys: ks_acc + ks2, values: vs_acc + vs2 },
                dirty: false,
            },
        ),
    }
}

proof fn lemma_enc_pairs_snoc(ks: Seq<Seq<u8>>, vs: Seq<Seq<u8>>, k: Seq<u8>, v: Seq<u8>)
    requires
        ks.len() == vs.len(),
    ensures
        enc_pairs(ks.push(k), vs.push(v)) == enc_pairs(ks, vs) + enc_bytes(k) + enc_bytes(v),
    decreases ks.len(),
{
    reveal_with_fuel(enc_pairs, 3);
    if ks.len() == 0 {
        assert(ks.push(k)[0] == k);
        assert(vs.push(v)[0] == v);
        assert(ks.push(k).drop_first() =~= Seq::<Seq<u8>>::empty());
        assert(vs.push(v).drop_first() =~= Seq::<Seq<u8>>::empty());
        assert(enc_pairs(ks.push(k), vs.push(v)) =~= enc_pairs(ks, vs) + enc_bytes(k) + enc_bytes(
            v,
        ));
    } else {
        assert(ks.push(k).drop_first() =~= ks.drop_first().push(k));
        assert(vs.push(v).drop_first() =~= vs.drop_first().push(v));
        lemma_enc_pairs_snoc(ks.drop_first(), vs.drop_first(), k, v);
        assert(ks.push(k)[0] == ks[0]);
        assert(vs.push(v)[0] == vs[0]);
        assert(enc_pairs(ks.push(k), vs.push(v)) =~= enc_pairs(ks, vs) + enc_bytes(k) + enc_bytes(
            v,
        ));
    }
}

/// Reads a 64-bit integer at offset `i`.
fn read_u64(bytes: &[u8], i: usize) -> (r: Option<(u64, usize)>)
    requires
        i <= bytes@.len(),
    ensures
        match r {
            Some(xj) => dec_u64_at(bytes@, i as int) == Some((xj.0, xj.1 as int)) && xj.1
                <= bytes@.len(),
            None => dec_u64_at(bytes@, i as int) is None,
        },
{
    if bytes.len() - i < 8 {
        None
    } else {
        let s = slice_subrange(bytes, i, i + 8);
        let x = u64_from_le_bytes(s);
        Some((x, i + 8))
    }
}

/// Reads a length-prefixed byte string at offset `i`.
fn read_bytes(bytes: &[u8], i: usize) -> (r: Option<(Vec<u8>, usize)>)
    requires
        i <= bytes@.len(),
    ensures
        match r {
            Some(vj) => dec_bytes_at(bytes@, i as int) == Some((vj.0@, vj.1 as int)) && vj.1
                <= bytes@.len(),
            None => dec_bytes_at(bytes@, i as int) is None,
        },
{
    match read_u64(bytes, i) {
        None => None,
        Some((n, j)) => {
            if n > (bytes.len() - j) as u64 {
                None
            } else {
                let end = j + (n as usize);
                let v = slice_to_vec(slice_subrange(bytes, j, end));
                Some((v, end))
            }
        },
    }
}

/// Reads a page header from the front of the bytes.
fn read_header(bytes: &[u8]) -> (r: Option<(PageHeader, usize)>)
    ensures
        match r {
            Some(hj) => dec_header_at(bytes@, 0) == Some((hj.0@, hj.1 as int)) && hj.1
                <= bytes@.len() && hj.0@.links_paired(),
            None => dec_header_at(bytes@, 0) is None,
        },
{
    let (page_id, i1) = match read_u64(bytes, 0) {
        None => {
            return None;
        },
        Some(x) => x,
    };
    if bytes.len() - i1 < 1 {
        return None;
    }
    let tag = *slice_index_get(bytes, i1);
    let page_type = if tag == 0 {
        PageType::Leaf
    } else if tag == 1 {
        PageType::Interior
    } else if tag == 2 {
        PageType::Overflow
    } else {
        return None;
    };
    let (lsn, i2) = match read_u64(bytes, i1 + 1) {
        None => {
            return None;
        },
        Some(x) => x,
    };
    if bytes.len() - i2 < 1 {
        return None;
    }
    let flag = *slice_index_get(bytes, i2);
    if flag == 0 {
        let h = PageHeader { page_id, page_type, lsn, high_key: None, right_link: None };
        Some((h, i2 + 1))
    } else if flag == 1 {
        let (rl, i3) = match read_u64(bytes, i2 + 1) {
            None => {
                return None;
            },
            Some(x) => x,
        };
        let (hk, i4) = match read_bytes(bytes, i3) {
            None => {
                return None;
            },
            Some(x) => x,
        };
        let h = PageHeader { page_id, page_type, lsn, high_key: Some(hk), right_link: Some(rl) };
        Some((h, i4))
    } else {
        None
    }
}

/// Length of the encoded rows, bounded by the per-entry caps.
proof fn lemma_enc_pairs_len(ks: Seq<Seq<u8>>, vs: Seq<Seq<u8>>)
    requires
        ks.len() == vs.len(),
        forall|i: int| 0 <= i < ks.len() ==> (#[trigger] ks[i]).len() <= MAX_KEY_LEN,
        forall|i: int| 0 <= i < vs.len() ==> (#[trigger] vs[i]).len() <= MAX_VALUE_LEN,
    ensures
        enc_pairs(ks, vs).len() <= ks.len() * (16 + MAX_KEY_LEN + MAX_VALUE_LEN),
    decreases ks.len(),
{
    lemma_auto_spec_u64_to_from_le_bytes();
    if ks.len() == 0 {
    } else {
        let kt = ks.drop_first();
        let vt = vs.drop_first();
        assert forall|i: int| 0 <= i < kt.len() implies (#[trigger] kt[i]).len() <= MAX_KEY_LEN by {
            assert(kt[i] == ks[i + 1]);
        }
        assert forall|i: int| 0 <= i < vt.len() implies (#[trigger] vt[i]).len()
            <= MAX_VALUE_LEN by {
            assert(vt[i] == vs[i + 1]);
        }
        lemma_enc_pairs_len(kt, vt);
        assert(ks.len() * (16 + MAX_KEY_LEN + MAX_VALUE_LEN) == kt.len() * (16 + MAX_KEY_LEN
            + MAX_VALUE_LEN) + (16 + MAX_KEY_LEN + MAX_VALUE_LEN)) by (nonlinear_arith)
            requires ks.len() == kt.len() + 1;
    }
}

/// A well-formed page within the length caps always fits in one page slot
/// once encoded.
pub proof fn lemma_bounded_fits(p: PageV)
    requires
        p.wf(),
        p.bounded(),
    ensures
        spec_serialize(p).len() <= PAGE_SIZE,
{
    lemma_auto_spec_u64_to_from_le_bytes();
    lemma_enc_pairs_len(p.content.keys, p.content.values);
    assert(p.content.keys.len() * (16 + MAX_KEY_LEN + MAX_VALUE_LEN) <= (CAPACITY_THRESHOLD + 1) * (
    16 + MAX_KEY_LEN + MAX_VALUE_LEN)) by (nonlinear_arith)
        requires p.content.keys.len() <= CAPACITY_THRESHOLD + 1;
}

} // verus!
