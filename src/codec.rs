use vstd::prelude::*;

use crate::trie::{Node, Trie};

verus! {

// Serialized layout of one node, nodes written in arena order from offset 0:
//   3 bytes          value count N, little-endian
//   4 * N bytes      record identifiers, each little-endian
//   1 byte           child count M
//   12 * M bytes     per child: character code, arena position and byte
//                    offset of the child node, each 4 bytes little-endian
//
// The character code is the full Unicode scalar value. Earlier index files
// stored only its low byte (9 bytes per child), which made distinct
// characters collide as edges; files in that format cannot be read by this
// codec and have to be rebuilt from the record store.

/// The largest value count that fits the 3-byte count field.
pub const MAX_VALUES: usize = 0xff_ffff;

/// The largest child count that fits the 1-byte count field.
pub const MAX_CHILDREN: usize = 0xff;

/// The four little-endian bytes of `v`.
pub open spec fn u32_bytes(v: u32) -> Seq<u8> {
    seq![(v & 0xff) as u8, ((v >> 8u32) & 0xff) as u8, ((v >> 16u32) & 0xff) as u8, ((v >> 24u32) & 0xff) as u8]
}

/// The three low little-endian bytes of `v`.
pub open spec fn u24_bytes(v: u32) -> Seq<u8> {
    seq![(v & 0xff) as u8, ((v >> 8u32) & 0xff) as u8, ((v >> 16u32) & 0xff) as u8]
}

/// The little-endian number held by the four bytes of `b` at `at`.
pub open spec fn read_u32(b: Seq<u8>, at: int) -> u32 {
    (b[at] as u32) | ((b[at + 1] as u32) << 8u32) | ((b[at + 2] as u32) << 16u32) | ((b[at + 3] as u32) << 24u32)
}

/// The little-endian number held by the three bytes of `b` at `at`.
pub open spec fn read_u24(b: Seq<u8>, at: int) -> u32 {
    (b[at] as u32) | ((b[at + 1] as u32) << 8u32) | ((b[at + 2] as u32) << 16u32)
}

/// Reading back the four bytes of `v` gives `v`.
pub proof fn lemma_u32_round_trip(v: u32)
    ensures
        read_u32(u32_bytes(v), 0) == v,
{
    let b = u32_bytes(v);
    let b0 = v & 0xff;
    let b1 = (v >> 8u32) & 0xff;
    let b2 = (v >> 16u32) & 0xff;
    let b3 = (v >> 24u32) & 0xff;
    assert(b0 < 256 && b1 < 256 && b2 < 256 && b3 < 256) by (bit_vector)
        requires
            b0 == v & 0xff,
            b1 == (v >> 8u32) & 0xff,
            b2 == (v >> 16u32) & 0xff,
            b3 == (v >> 24u32) & 0xff,
    ;
    assert(b[0] as u32 == b0 && b[1] as u32 == b1 && b[2] as u32 == b2 && b[3] as u32 == b3);
    assert(b0 | (b1 << 8u32) | (b2 << 16u32) | (b3 << 24u32) == v) by (bit_vector)
        requires
            b0 == v & 0xff,
            b1 == (v >> 8u32) & 0xff,
            b2 == (v >> 16u32) & 0xff,
            b3 == (v >> 24u32) & 0xff,
    ;
}

/// Reading back the three bytes of a 24-bit `v` gives `v`.
pub proof fn lemma_u24_round_trip(v: u32)
    requires
        v <= 0xff_ffff,
    ensures
        read_u24(u24_bytes(v), 0) == v,
{
    let b = u24_bytes(v);
    let b0 = v & 0xff;
    let b1 = (v >> 8u32) & 0xff;
    let b2 = (v >> 16u32) & 0xff;
    assert(b0 < 256 && b1 < 256 && b2 < 256) by (bit_vector)
        requires
            b0 == v & 0xff,
            b1 == (v >> 8u32) & 0xff,
            b2 == (v >> 16u32) & 0xff,
    ;
    assert(b[0] as u32 == b0 && b[1] as u32 == b1 && b[2] as u32 == b2);
    assert(b0 | (b1 << 8u32) | (b2 << 16u32) == v) by (bit_vector)
        requires
            v <= 0xff_ffff,
            b0 == v & 0xff,
            b1 == (v >> 8u32) & 0xff,
            b2 == (v >> 16u32) & 0xff,
    ;
}

/// Encoded size of a node.
pub open spec fn node_size(n: Node) -> nat {
    4 + 4 * n.val@.len() + 12 * n.chars@.len()
}

/// Byte offset of the `k`-th node: the sizes of the nodes before it.
pub open spec fn offset_of(ns: Seq<Node>, k: int) -> nat
    decreases k,
{
    if k <= 0 || ns.len() < k {
        0
    } else {
        offset_of(ns, k - 1) + node_size(ns[k - 1])
    }
}

/// The identifiers, four bytes each.
pub open spec fn values_bytes(vs: Seq<u32>) -> Seq<u8>
    decreases vs.len(),
{
    if vs.len() == 0 {
        Seq::empty()
    } else {
        values_bytes(vs.drop_last()) + u32_bytes(vs.last())
    }
}

/// One child entry: character code, arena position, byte offset.
pub open spec fn edge_bytes(ns: Seq<Node>, e: (char, u32)) -> Seq<u8> {
    u32_bytes(e.0 as u32) + u32_bytes(e.1) + u32_bytes(offset_of(ns, e.1 as int) as u32)
}

/// The child entries `es`, one after another.
pub open spec fn edges_bytes(ns: Seq<Node>, es: Seq<(char, u32)>) -> Seq<u8>
    decreases es.len(),
{
    if es.len() == 0 {
        Seq::empty()
    } else {
        edges_bytes(ns, es.drop_last()) + edge_bytes(ns, es.last())
    }
}

/// The encoding of one node of the arena `ns`.
pub open spec fn node_bytes(ns: Seq<Node>, n: Node) -> Seq<u8> {
    u24_bytes(n.val@.len() as u32) + values_bytes(n.val@) + seq![n.chars@.len() as u8] + edges_bytes(ns, n.chars@)
}

/// The encoding of the first `count` nodes of the arena `ns`.
pub open spec fn nodes_bytes(ns: Seq<Node>, count: int) -> Seq<u8>
    decreases count,
{
    if count <= 0 || ns.len() < count {
        Seq::empty()
    } else {
        nodes_bytes(ns, count - 1) + node_bytes(ns, ns[count - 1])
    }
}

/// The file that stores the trie `t`.
pub open spec fn trie_bytes(t: Trie) -> Seq<u8> {
    nodes_bytes(t.node_seq(), t.node_seq().len() as int)
}

/// Whether every count fits its field and every byte offset fits 4 bytes.
pub open spec fn encodable(t: Trie) -> bool {
    let ns = t.node_seq();
    &&& forall|k: int| 0 <= k < ns.len() ==> (#[trigger] ns[k]).val@.len() <= MAX_VALUES
    &&& forall|k: int| 0 <= k < ns.len() ==> (#[trigger] ns[k]).chars@.len() <= MAX_CHILDREN
    &&& offset_of(ns, ns.len() as int) <= u32::MAX
}

/// Appends the four little-endian bytes of `v`.
fn push_u32(out: &mut Vec<u8>, v: u32)
    ensures
        final(out)@ == old(out)@ + u32_bytes(v),
{
    out.push((v & 0xff) as u8);
    out.push(((v >> 8u32) & 0xff) as u8);
    out.push(((v >> 16u32) & 0xff) as u8);
    out.push(((v >> 24u32) & 0xff) as u8);
    assert(final(out)@ =~= old(out)@ + u32_bytes(v));
}

/// Later nodes sit at larger offsets, each node taking at least 4 bytes.
pub proof fn lemma_offset_monotone(ns: Seq<Node>, j: int, k: int)
    requires
        0 <= j <= k <= ns.len(),
    ensures
        offset_of(ns, j) <= offset_of(ns, k),
        j < k ==> offset_of(ns, j) + 4 <= offset_of(ns, k),
    decreases k - j,
{
    if j < k {
        lemma_offset_monotone(ns, j, k - 1);
    }
}

/// Offsets depend on the sizes of the nodes alone.
pub proof fn lemma_offset_same_sizes(a: Seq<Node>, b: Seq<Node>, k: int)
    requires
        a.len() == b.len(),
        forall|m: int| 0 <= m < a.len() ==> node_size(#[trigger] a[m]) == node_size(b[m]),
    ensures
        offset_of(a, k) == offset_of(b, k),
    decreases k,
{
    if k > 0 && k <= a.len() {
        lemma_offset_same_sizes(a, b, k - 1);
    }
}

impl Trie {
    /// Serializes the trie: a first pass records in each node the byte offset
    /// at which it will be written, a second pass writes the nodes in arena
    /// order with those offsets in the child entries. Fails, changing no
    /// offset that matters, when a count or an offset does not fit its field.
    pub fn serialize(&mut self) -> (r: Option<Vec<u8>>)
        requires
            old(self).wf(),
        ensures
            final(self).wf(),
            final(self).node_seq().len() == old(self).node_seq().len(),
            forall|k: int| 0 <= k < old(self).node_seq().len() ==> (#[trigger] final(self).node_seq()[k]).chars@
                == old(self).node_seq()[k].chars@ && final(self).node_seq()[k].val@ == old(self).node_seq()[k].val@,
            final(self).paths@ == old(self).paths@,
            r is Some <==> encodable(*old(self)),
            r matches Some(b) ==> b@ == trie_bytes(*old(self)),
            r is Some ==> forall|k: int| 0 <= k < old(self).node_seq().len() ==> (#[trigger] final(self).node_seq()[k]).address
                == offset_of(old(self).node_seq(), k),
    {
        let n = self.nodes.nodes.len();
        let ghost ns0 = self.node_seq();
        // Address pass.
        let mut counter: u64 = 0;
        let mut k: usize = 0;
        while k < n
            invariant
                n == self.node_seq().len(),
                ns0.len() == n,
                self.wf(),
                self.paths@ == old(self).paths@,
                old(self).node_seq() == ns0,
                0 <= k <= n,
                forall|m: int| 0 <= m < n ==> (#[trigger] self.node_seq()[m]).chars@ == ns0[m].chars@
                    && self.node_seq()[m].val@ == ns0[m].val@,
                forall|m: int| 0 <= m < k ==> (#[trigger] self.node_seq()[m]).address == offset_of(ns0, m),
                counter == offset_of(ns0, k as int),
                counter <= u32::MAX,
                forall|m: int| 0 <= m < k ==> (#[trigger] ns0[m]).val@.len() <= MAX_VALUES
                    && ns0[m].chars@.len() <= MAX_CHILDREN,
            decreases n - k,
        {
            let vlen = self.nodes.nodes[k].val.len();
            let clen = self.nodes.nodes[k].chars.len();
            if vlen > MAX_VALUES || clen > MAX_CHILDREN {
                proof {
                    assert(!encodable(*old(self)) ) by {
                        assert(ns0[k as int].val@.len() == vlen);
                    }
                }
                return None;
            }
            let next: u64 = counter + 4 + 4 * (vlen as u64) + 12 * (clen as u64);
            if next > u32::MAX as u64 {
                proof {
                    lemma_offset_monotone(ns0, k + 1, n as int);
                }
                return None;
            }
            let ghost before = self.node_seq();
            let ghost before_t = *self;
            self.nodes.nodes[k].address = counter as u32;
            assert forall|m: int| 0 <= m < n implies (#[trigger] self.node_seq()[m]).chars@ == ns0[m].chars@
                && self.node_seq()[m].val@ == ns0[m].val@ by {
                assert(m != k ==> self.node_seq()[m] == before[m]);
            }
            proof {
                assert forall|m: int| 0 <= m < n implies (#[trigger] before_t.node_seq()[m]).chars@
                    == self.node_seq()[m].chars@ by {
                    assert(m != k ==> self.node_seq()[m] == before[m]);
                }
                crate::trie::lemma_same_edges_wf(&before_t, self);
            }
            counter = next;
            k = k + 1;
        }
        let ghost ns1 = self.node_seq();
        assert forall|m: int| 0 <= m < n implies node_size(#[trigger] ns1[m]) == node_size(ns0[m]) by {}
        assert forall|m: int| 0 <= m <= n implies #[trigger] offset_of(ns1, m) == offset_of(ns0, m) by {
            lemma_offset_same_sizes(ns1, ns0, m);
        }
        assert(encodable(*old(self)));
        // Write pass.
        let mut out: Vec<u8> = Vec::new();
        let mut k: usize = 0;
        while k < n
            invariant
                n == self.node_seq().len(),
                self.node_seq() == ns1,
                ns0.len() == n,
                0 <= k <= n,
                forall|m: int| 0 <= m < n ==> (#[trigger] ns1[m]).chars@ == ns0[m].chars@ && ns1[m].val@ == ns0[m].val@,
                forall|m: int| 0 <= m < n ==> (#[trigger] ns1[m]).address == offset_of(ns0, m),
                forall|m: int| 0 <= m <= n ==> #[trigger] offset_of(ns1, m) == offset_of(ns0, m),
                encodable(*old(self)),
                old(self).node_seq() == ns0,
                self.wf(),
                out@ == nodes_bytes(ns0, k as int),
            decreases n - k,
        {
            let node = &self.nodes.nodes[k];
            let vlen = node.val.len();
            let ghost start = out@;
            assert(vlen <= MAX_VALUES);
            out.push((vlen as u32 & 0xff) as u8);
            out.push(((vlen as u32 >> 8u32) & 0xff) as u8);
            out.push(((vlen as u32 >> 16u32) & 0xff) as u8);
            assert(out@ =~= start + u24_bytes(vlen as u32));
            let mut i: usize = 0;
            while i < vlen
                invariant
                    node == &self.nodes.nodes[k as int],
                    vlen == node.val@.len(),
                    0 <= i <= vlen,
                    out@ == start + u24_bytes(vlen as u32) + values_bytes(node.val@.subrange(0, i as int)),
                decreases vlen - i,
            {
                push_u32(&mut out, node.val[i]);
                assert(node.val@.subrange(0, i + 1).drop_last() =~= node.val@.subrange(0, i as int));
                assert(out@ =~= start + u24_bytes(vlen as u32) + values_bytes(node.val@.subrange(0, i + 1)));
                i = i + 1;
            }
            assert(node.val@.subrange(0, vlen as int) =~= node.val@);
            let clen = node.chars.len();
            out.push(clen as u8);
            let ghost mid = out@;
            let mut i: usize = 0;
            while i < clen
                invariant
                    node == &self.nodes.nodes[k as int],
                    self.node_seq() == ns1,
                    n == ns1.len(),
                    self.wf(),
                    forall|m: int| 0 <= m < n ==> (#[trigger] ns1[m]).address == offset_of(ns0, m),
                    clen == node.chars@.len(),
                    0 <= k < n,
                    0 <= i <= clen,
                    out@ == mid + edges_bytes(ns0, node.chars@.subrange(0, i as int)),
                decreases clen - i,
            {
                let (c, idx) = node.chars[i];
                assert(node.chars@[i as int] == ns1[k as int].chars@[i as int]);
                push_u32(&mut out, c as u32);
                push_u32(&mut out, idx);
                push_u32(&mut out, self.nodes.nodes[idx as usize].address);
                assert(node.chars@.subrange(0, i + 1).drop_last() =~= node.chars@.subrange(0, i as int));
                assert(out@ =~= mid + edges_bytes(ns0, node.chars@.subrange(0, i + 1)));
                i = i + 1;
            }
            assert(node.chars@.subrange(0, clen as int) =~= node.chars@);
            assert(out@ =~= nodes_bytes(ns0, k + 1)) by {
                assert(ns1[k as int].chars@ == ns0[k as int].chars@);
                assert(ns1[k as int].val@ == ns0[k as int].val@);
            }
            k = k + 1;
        }
        Some(out)
    }
}

} // verus!
