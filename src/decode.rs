use vstd::prelude::*;

use vstd::utf8::is_scalar;

use crate::reader::{parse_node, read_node, LookupError, NodeImage};
use crate::trie::{distinct_labels, has_parents, is_target, single_parents, Arena, Node, Trie};

verus! {

/// Bytes taken by a node with this image.
pub open spec fn image_size(img: NodeImage) -> nat {
    4 + 4 * img.values.len() + 12 * img.edges.len()
}

/// The nodes stored one after another from byte `off` to the end of `b`;
/// `None` where they do not fill the bytes exactly.
pub open spec fn parse_all(b: Seq<u8>, off: int) -> Option<Seq<NodeImage>>
    decreases b.len() - off,
{
    if off >= b.len() {
        if off == b.len() {
            Some(Seq::empty())
        } else {
            None
        }
    } else if off < 0 {
        None
    } else {
        match parse_node(b, off) {
            None => None,
            Some(img) => match parse_all(b, off + image_size(img)) {
                Some(rest) => Some(seq![img] + rest),
                None => None,
            },
        }
    }
}

/// The child entries of `imgs` link them into a tree rooted at the first:
/// each names a later node by its position and a Unicode scalar value as
/// its character, and no node has two parents.
pub open spec fn links_ok(imgs: Seq<NodeImage>) -> bool {
    &&& 1 <= imgs.len() <= u32::MAX
    &&& forall|k: int, i: int| 0 <= k < imgs.len() && 0 <= i < imgs[k].edges.len() ==> {
        let e = #[trigger] imgs[k].edges[i];
        &&& k < e.1 < imgs.len()
        &&& is_scalar(e.0)
    }
    &&& forall|k1: int, i1: int, k2: int, i2: int|
        0 <= k1 < imgs.len() && 0 <= i1 < imgs[k1].edges.len() && 0 <= k2 < imgs.len() && 0 <= i2
            < imgs[k2].edges.len() && (#[trigger] imgs[k1].edges[i1]).1 == (#[trigger] imgs[k2].edges[i2]).1
            ==> k1 == k2 && i1 == i2
    &&& forall|j: int| 1 <= j < imgs.len() ==> #[trigger] image_target(imgs, j)
    &&& forall|k: int, i1: int, i2: int|
        0 <= k < imgs.len() && 0 <= i1 < imgs[k].edges.len() && 0 <= i2 < imgs[k].edges.len() && i1 != i2
            ==> (#[trigger] imgs[k].edges[i1]).0 != (#[trigger] imgs[k].edges[i2]).0
}

/// Node `j` is named by a child entry.
pub open spec fn image_target(imgs: Seq<NodeImage>, j: int) -> bool {
    exists|k: int, i: int| 0 <= k < imgs.len() && 0 <= i < imgs[k].edges.len() && #[trigger] imgs[k].edges[i].1 == j
}

/// Whether every node but the first is claimed.
fn all_claimed(claimed: &Vec<bool>) -> (r: bool)
    ensures
        r == forall|x: int| 1 <= x < claimed@.len() ==> #[trigger] claimed@[x],
{
    let mut j: usize = 1;
    while j < claimed.len()
        invariant
            1 <= j,
            forall|x: int| 1 <= x < j && x < claimed@.len() ==> #[trigger] claimed@[x],
        decreases claimed@.len() - j,
    {
        if !claimed[j] {
            return false;
        }
        j = j + 1;
    }
    true
}

/// Whether one of the first `upto` child entries has character code `code`.
fn has_code(edges: &Vec<(u32, u32, u32)>, upto: usize, code: u32) -> (r: bool)
    requires
        upto <= edges@.len(),
    ensures
        r == exists|e: int| 0 <= e < upto && (#[trigger] edges@[e]).0 == code,
{
    let mut e: usize = 0;
    while e < upto
        invariant
            upto <= edges@.len(),
            0 <= e <= upto,
            forall|f: int| 0 <= f < e ==> (#[trigger] edges@[f]).0 != code,
        decreases upto - e,
    {
        if edges[e].0 == code {
            return true;
        }
        e = e + 1;
    }
    false
}

/// The edges of a node, read back from its child entries.
pub open spec fn edges_of(img: NodeImage) -> Seq<(char, u32)> {
    img.edges.map_values(|e: (u32, u32, u32)| (e.0 as char, e.1))
}

/// `t` holds, node for node, what the file `b` stores.
pub open spec fn decodes_to(b: Seq<u8>, t: Trie) -> bool {
    &&& parse_all(b, 0) matches Some(imgs)
    &&& t.node_seq().len() == imgs.len()
    &&& forall|k: int| 0 <= k < imgs.len() ==> (#[trigger] t.node_seq()[k]).val@ == imgs[k].values
        && t.node_seq()[k].chars@ == edges_of(imgs[k])
}

/// Relies on `char::from_u32`: it gives a character exactly for the Unicode
/// scalar values, the one with that code.
#[verifier::external_body]
fn char_from_code(u: u32) -> (r: Option<char>)
    ensures
        r is Some <==> is_scalar(u),
        r matches Some(c) ==> c as u32 == u,
{
    char::from_u32(u)
}

impl Trie {
    /// Reads back a serialized trie: every node, in arena order, with its
    /// identifiers and its edges. Fails on bytes that are not a sequence of
    /// whole nodes linked into a tree.
    pub fn new_from_bytes(b: &[u8]) -> (r: Result<Trie, LookupError>)
        ensures
            r is Ok <==> (parse_all(b@, 0) matches Some(imgs) && links_ok(imgs)),
            r matches Ok(t) ==> t.wf() && decodes_to(b@, t),
    {
        // Read the nodes one after another.
        let mut reads: Vec<crate::reader::NodeRead> = Vec::new();
        let mut off: usize = 0;
        let len = b.len();
        while off < len
            invariant
                len == b@.len(),
                off <= len,
                parse_all(b@, 0) == match parse_all(b@, off as int) {
                    Some(rest) => Some(reads@.map_values(|n: crate::reader::NodeRead| n.image()) + rest),
                    None => None,
                },
            decreases len - off,
        {
            match read_node(b, off) {
                None => {
                    return Err(LookupError::Malformed);
                },
                Some(node) => {
                    let size = 4 + 4 * node.values.len() + 12 * node.edges.len();
                    let ghost img = node.image();
                    let ghost prev = reads@.map_values(|n: crate::reader::NodeRead| n.image());
                    reads.push(node);
                    assert(reads@.map_values(|n: crate::reader::NodeRead| n.image()) =~= prev + seq![img]);
                    proof {
                        if let Some(rest) = parse_all(b@, off + size) {
                            assert(prev + (seq![img] + rest) =~= (prev + seq![img]) + rest);
                        }
                    }
                    off = off + size;
                },
            }
        }
        assert(parse_all(b@, off as int) == Some(Seq::<NodeImage>::empty()));
        let ghost imgs = reads@.map_values(|n: crate::reader::NodeRead| n.image());
        assert(imgs + Seq::<NodeImage>::empty() =~= imgs);
        assert(parse_all(b@, 0) == Some(imgs));
        let count = reads.len();
        if count == 0 || count > u32::MAX as usize {
            return Err(LookupError::Malformed);
        }
        // Link the nodes, checking that they form a tree.
        let mut claimed: Vec<bool> = Vec::new();
        let mut c: usize = 0;
        while c < count
            invariant
                count == reads@.len(),
                0 <= c <= count,
                claimed@.len() == c,
                forall|j: int| 0 <= j < c ==> !(#[trigger] claimed@[j]),
            decreases count - c,
        {
            claimed.push(false);
            c = c + 1;
        }
        let ghost mut paths: Seq<Seq<char>> = Seq::new(count as nat, |j: int| Seq::<char>::empty());
        let mut nodes: Vec<Node> = Vec::new();
        let mut k: usize = 0;
        while k < count
            invariant
                count == reads@.len(),
                imgs == reads@.map_values(|n: crate::reader::NodeRead| n.image()),
                parse_all(b@, 0) == Some(imgs),
                1 <= count <= u32::MAX,
                0 <= k <= count,
                nodes@.len() == k,
                claimed@.len() == count,
                paths.len() == count,
                paths[0] == Seq::<char>::empty(),
                forall|m: int| 0 <= m < k ==> (#[trigger] nodes@[m]).val@ == imgs[m].values && nodes@[m].chars@
                    == edges_of(imgs[m]),
                // The edges read so far are those of a tree.
                forall|m: int, i: int| 0 <= m < k && 0 <= i < imgs[m].edges.len() ==> {
                    let e = #[trigger] imgs[m].edges[i];
                    &&& m < e.1 < count
                    &&& is_scalar(e.0)
                    &&& claimed@[e.1 as int]
                    &&& paths[e.1 as int] == paths[m].push(e.0 as char)
                },
                forall|m1: int, i1: int, m2: int, i2: int|
                    0 <= m1 < k && 0 <= i1 < imgs[m1].edges.len() && 0 <= m2 < k && 0 <= i2 < imgs[m2].edges.len()
                        && (#[trigger] imgs[m1].edges[i1]).1 == (#[trigger] imgs[m2].edges[i2]).1 ==> m1 == m2 && i1 == i2,
                // A node is claimed by an edge read so far, and only then.
                forall|j: int| 0 <= j < count && #[trigger] claimed@[j] ==> exists|m: int, i: int|
                    0 <= m < k && 0 <= i < imgs[m].edges.len() && #[trigger] imgs[m].edges[i].1 == j,
                forall|j: int| 0 <= j < count && #[trigger] claimed@[j] ==> j >= 1,
                forall|m: int, e: int| 0 <= m < k && 0 <= e < imgs[m].edges.len() ==> (#[trigger] nodes@[m].chars@[e]).0 as u32
                    == imgs[m].edges[e].0,
                forall|m: int, e1: int, e2: int|
                    0 <= m < k && 0 <= e1 < imgs[m].edges.len() && 0 <= e2 < imgs[m].edges.len() && e1 != e2
                        ==> (#[trigger] imgs[m].edges[e1]).0 != (#[trigger] imgs[m].edges[e2]).0,
            decreases count - k,
        {
            let read = &reads[k];
            let mut chars: Vec<(char, u32)> = Vec::new();
            let mut i: usize = 0;
            let ghost paths_k = paths;
            while i < read.edges.len()
                invariant
                    count == reads@.len(),
                    imgs == reads@.map_values(|n: crate::reader::NodeRead| n.image()),
                    parse_all(b@, 0) == Some(imgs),
                    read == &reads@[k as int],
                    0 <= k < count,
                    0 <= i <= read.edges@.len(),
                    claimed@.len() == count,
                    paths.len() == count,
                    paths[0] == Seq::<char>::empty(),
                    forall|j: int| 0 <= j <= k ==> #[trigger] paths[j] == paths_k[j],
                    chars@ == edges_of(imgs[k as int]).subrange(0, i as int),
                    forall|m: int, e: int| 0 <= m < k && 0 <= e < imgs[m].edges.len() ==> {
                        let x = #[trigger] imgs[m].edges[e];
                        &&& m < x.1 < count
                        &&& is_scalar(x.0)
                        &&& claimed@[x.1 as int]
                        &&& paths[x.1 as int] == paths[m].push(x.0 as char)
                    },
                    forall|e: int| 0 <= e < i ==> {
                        let x = #[trigger] imgs[k as int].edges[e];
                        &&& k < x.1 < count
                        &&& is_scalar(x.0)
                        &&& claimed@[x.1 as int]
                        &&& paths[x.1 as int] == paths[k as int].push(x.0 as char)
                    },
                    forall|m1: int, i1: int, m2: int, i2: int|
                        (0 <= m1 < k && 0 <= i1 < imgs[m1].edges.len() || m1 == k && 0 <= i1 < i) && (0 <= m2 < k
                            && 0 <= i2 < imgs[m2].edges.len() || m2 == k && 0 <= i2 < i) && (#[trigger] imgs[m1].edges[i1]).1
                            == (#[trigger] imgs[m2].edges[i2]).1 ==> m1 == m2 && i1 == i2,
                    forall|j: int| 0 <= j < count && #[trigger] claimed@[j] ==> exists|m: int, e: int|
                        ((0 <= m < k && 0 <= e < imgs[m].edges.len()) || (m == k && 0 <= e < i))
                            && #[trigger] imgs[m].edges[e].1 == j,
                    forall|j: int| 0 <= j < count && #[trigger] claimed@[j] ==> j >= 1,
                    nodes@.len() == k,
                    forall|m: int, e: int| 0 <= m < k && 0 <= e < imgs[m].edges.len() ==> (#[trigger] nodes@[m].chars@[e]).0 as u32
                        == imgs[m].edges[e].0,
                    forall|m: int| 0 <= m < k ==> (#[trigger] nodes@[m]).val@ == imgs[m].values && nodes@[m].chars@
                        == edges_of(imgs[m]),
                    forall|m: int, e1: int, e2: int|
                        0 <= m < k && 0 <= e1 < imgs[m].edges.len() && 0 <= e2 < imgs[m].edges.len() && e1 != e2
                            ==> (#[trigger] imgs[m].edges[e1]).0 != (#[trigger] imgs[m].edges[e2]).0,
                    forall|e: int| 0 <= e < i ==> (#[trigger] chars@[e]).0 as u32 == imgs[k as int].edges[e].0,
                    forall|e1: int, e2: int| 0 <= e1 < i && 0 <= e2 < i && e1 != e2
                        ==> (#[trigger] imgs[k as int].edges[e1]).0 != (#[trigger] imgs[k as int].edges[e2]).0,
                decreases read.edges@.len() - i,
            {
                let (code, child, _address) = read.edges[i];
                let ghost x = imgs[k as int].edges[i as int];
                assert(x == (code, child, _address));
                let cu = child as usize;
                if cu <= k || cu >= count || claimed[cu] {
                    proof {
                        if cu > k && cu < count && claimed@[cu as int] {
                            let (m, e) = choose|m: int, e: int|
                                ((0 <= m < k && 0 <= e < imgs[m].edges.len()) || (m == k && 0 <= e < i))
                                    && #[trigger] imgs[m].edges[e].1 == cu as int;
                            assert(imgs[m].edges[e].1 == imgs[k as int].edges[i as int].1);
                        }
                    }
                    return Err(LookupError::Malformed);
                }
                if has_code(&read.edges, i, code) {
                    proof {
                        let e = choose|e: int| 0 <= e < i && (#[trigger] read.edges@[e]).0 == code;
                        assert(imgs[k as int].edges[e].0 == imgs[k as int].edges[i as int].0);
                    }
                    return Err(LookupError::Malformed);
                }
                match char_from_code(code) {
                    None => {
                        return Err(LookupError::Malformed);
                    },
                    Some(ch) => {
                        proof {
                            vstd::utf8::char_u32_cast(ch, code);
                        }
                        chars.push((ch, child));
                        claimed.set(cu, true);
                        proof {
                            paths = paths.update(cu as int, paths[k as int].push(ch));
                        }
                        assert(chars@ =~= edges_of(imgs[k as int]).subrange(0, i + 1));
                    },
                }
                i = i + 1;
            }
            assert(chars@ =~= edges_of(imgs[k as int]));
            let vals = read.values.clone();
            assert(vals@ == read.values@);
            nodes.push(Node { chars, val: vals, address: 0 });
            k = k + 1;
        }
        if !all_claimed(&claimed) {
            proof {
                let j = choose|x: int| 1 <= x < claimed@.len() && !#[trigger] claimed@[x];
                if image_target(imgs, j) {
                    let (m, i) = choose|m: int, i: int| 0 <= m < imgs.len() && 0 <= i < imgs[m].edges.len() && #[trigger] imgs[m].edges[i].1 == j;
                    assert(claimed@[imgs[m].edges[i].1 as int]);
                }
                assert(!links_ok(imgs));
            }
            return Err(LookupError::Malformed);
        }
        let t = Trie { nodes: Arena { nodes }, root: 0, paths: Ghost(paths) };
        assert(has_parents(t.node_seq())) by {
            let n = t.node_seq();
            assert forall|x: int| 1 <= x < n.len() implies #[trigger] is_target(n, x) by {
                assert(claimed@[x]);
                let (m, i) = choose|m: int, i: int| 0 <= m < count && 0 <= i < imgs[m].edges.len() && #[trigger] imgs[m].edges[i].1 == x;
                assert(n[m].chars@[i].1 == imgs[m].edges[i].1);
            }
        }
        assert(links_ok(imgs)) by {
            assert forall|x: int| 1 <= x < imgs.len() implies #[trigger] image_target(imgs, x) by {
                assert(claimed@[x]);
            }
        }
        assert(distinct_labels(t.node_seq())) by {
            let n = t.node_seq();
            assert forall|m: int, i1: int, i2: int|
                0 <= m < n.len() && 0 <= i1 < n[m].chars@.len() && 0 <= i2 < n[m].chars@.len() && i1 != i2
                    implies (#[trigger] n[m].chars@[i1]).0 != (#[trigger] n[m].chars@[i2]).0 by {
                assert(n[m].chars@[i1].0 as u32 == imgs[m].edges[i1].0);
                assert(n[m].chars@[i2].0 as u32 == imgs[m].edges[i2].0);
            }
        }
        assert forall|m: int, i: int|
            0 <= m < t.node_seq().len() && 0 <= i < t.node_seq()[m].chars@.len() implies {
                let e = #[trigger] t.node_seq()[m].chars@[i];
                &&& m < e.1 < t.node_seq().len()
                &&& t.paths@[e.1 as int] == t.paths@[m].push(e.0)
            } by {
            assert(t.node_seq()[m].chars@[i] == (imgs[m].edges[i].0 as char, imgs[m].edges[i].1));
        }
        assert(single_parents(t.node_seq())) by {
            let n = t.node_seq();
            assert forall|k1: int, i1: int, k2: int, i2: int|
                0 <= k1 < n.len() && 0 <= i1 < n[k1].chars@.len() && 0 <= k2 < n.len() && 0 <= i2 < n[k2].chars@.len()
                    && (#[trigger] n[k1].chars@[i1]).1 == (#[trigger] n[k2].chars@[i2]).1 implies k1 == k2 && i1 == i2 by {
                assert(n[k1].chars@[i1].1 == imgs[k1].edges[i1].1);
                assert(n[k2].chars@[i2].1 == imgs[k2].edges[i2].1);
            }
        }
        Ok(t)
    }
}

} // verus!
