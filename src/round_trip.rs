use vstd::prelude::*;

use crate::codec::{
    edge_bytes, edges_bytes, encodable, lemma_offset_monotone, lemma_offset_same_sizes, lemma_u24_round_trip, lemma_u32_round_trip,
    node_bytes, node_size, nodes_bytes, offset_of, read_u24, read_u32, trie_bytes, u32_bytes, values_bytes,
};
use crate::reader::{
    breadth_first, descend, edge_entries, first_edge, level, parse_node, query_result, value_entries, NodeImage,
};
use crate::builder::store_values;
use crate::decode::{image_target, decodes_to, edges_of, image_size, links_ok, parse_all};
use crate::trie::{edge_target, lemma_edge_target_member, Node, Trie};

verus! {

broadcast use vstd::utf8::char_u32_cast;

/// The node reached from node `k` by following `q` front to back.
pub open spec fn walk(t: Trie, k: int, q: Seq<char>) -> Option<int>
    decreases q.len(),
{
    if q.len() == 0 {
        Some(k)
    } else if 0 <= k < t.node_seq().len() {
        match t.node_seq()[k].child(q[0]) {
            Some(j) => walk(t, j as int, q.drop_first()),
            None => None,
        }
    } else {
        None
    }
}

/// What the file holds for the child entries `es`.
pub open spec fn edge_images(ns: Seq<Node>, es: Seq<(char, u32)>) -> Seq<(u32, u32, u32)> {
    Seq::new(es.len(), |i: int| (es[i].0 as u32, es[i].1, offset_of(ns, es[i].1 as int) as u32))
}

/// What the file holds for node `k`.
pub open spec fn node_image(ns: Seq<Node>, k: int) -> NodeImage {
    NodeImage { values: ns[k].val@, edges: edge_images(ns, ns[k].chars@) }
}

proof fn lemma_walk_push(t: Trie, k: int, q: Seq<char>, c: char)
    ensures
        walk(t, k, q.push(c)) == match walk(t, k, q) {
            Some(m) => if 0 <= m < t.node_seq().len() {
                match t.node_seq()[m].child(c) {
                    Some(j) => Some(j as int),
                    None => None,
                }
            } else {
                None
            },
            None => None,
        },
    decreases q.len(),
{
    if q.len() > 0 {
        assert(q.push(c).drop_first() =~= q.drop_first().push(c));
        assert(q.push(c)[0] == q[0]);
        if 0 <= k < t.node_seq().len() {
            if let Some(j) = t.node_seq()[k].child(q[0]) {
                lemma_walk_push(t, j as int, q.drop_first(), c);
            }
        }
    } else {
        assert(q.push(c).drop_first() =~= Seq::<char>::empty());
        assert(q.push(c)[0] == c);
        if 0 <= k < t.node_seq().len() {
            if let Some(j) = t.node_seq()[k].child(c) {
                assert(walk(t, j as int, Seq::<char>::empty()) == Some(j as int));
            }
        }
    }
}

/// Walking from the root is `node_at`.
pub(crate) proof fn lemma_walk_node_at(t: Trie, s: Seq<char>)
    ensures
        walk(t, 0, s) == t.node_at(s),
    decreases s.len(),
{
    if s.len() > 0 {
        lemma_walk_node_at(t, s.drop_last());
        lemma_walk_push(t, 0, s.drop_last(), s.last());
        assert(s.drop_last().push(s.last()) =~= s);
    }
}

proof fn lemma_values_bytes(vs: Seq<u32>, i: int, j: int)
    requires
        0 <= i < vs.len(),
        0 <= j < 4,
    ensures
        values_bytes(vs).len() == 4 * vs.len(),
        values_bytes(vs)[4 * i + j] == u32_bytes(vs[i])[j],
    decreases vs.len(),
{
    lemma_values_bytes_len(vs);
    if i < vs.len() - 1 {
        lemma_values_bytes(vs.drop_last(), i, j);
    }
}

proof fn lemma_values_bytes_len(vs: Seq<u32>)
    ensures
        values_bytes(vs).len() == 4 * vs.len(),
    decreases vs.len(),
{
    if vs.len() > 0 {
        lemma_values_bytes_len(vs.drop_last());
    }
}

proof fn lemma_edges_bytes_len(ns: Seq<Node>, es: Seq<(char, u32)>)
    ensures
        edges_bytes(ns, es).len() == 12 * es.len(),
    decreases es.len(),
{
    if es.len() > 0 {
        lemma_edges_bytes_len(ns, es.drop_last());
    }
}

proof fn lemma_edges_bytes(ns: Seq<Node>, es: Seq<(char, u32)>, i: int, j: int)
    requires
        0 <= i < es.len(),
        0 <= j < 12,
    ensures
        edges_bytes(ns, es)[12 * i + j] == edge_bytes(ns, es[i])[j],
    decreases es.len(),
{
    lemma_edges_bytes_len(ns, es.drop_last());
    if i < es.len() - 1 {
        lemma_edges_bytes(ns, es.drop_last(), i, j);
    }
}

proof fn lemma_node_bytes_len(ns: Seq<Node>, n: Node)
    ensures
        node_bytes(ns, n).len() == node_size(n),
{
    lemma_values_bytes_len(n.val@);
    lemma_edges_bytes_len(ns, n.chars@);
}

proof fn lemma_nodes_bytes_len(ns: Seq<Node>, c: int)
    requires
        0 <= c <= ns.len(),
    ensures
        nodes_bytes(ns, c).len() == offset_of(ns, c),
    decreases c,
{
    if c > 0 {
        lemma_nodes_bytes_len(ns, c - 1);
        lemma_node_bytes_len(ns, ns[c - 1]);
    }
}

/// Node `k` lies in the file at its offset.
proof fn lemma_node_in_file(ns: Seq<Node>, c: int, k: int, j: int)
    requires
        0 <= k < c <= ns.len(),
        0 <= j < node_size(ns[k]),
    ensures
        nodes_bytes(ns, c)[offset_of(ns, k) + j] == node_bytes(ns, ns[k])[j],
    decreases c,
{
    lemma_nodes_bytes_len(ns, c - 1);
    lemma_nodes_bytes_len(ns, k);
    assert(nodes_bytes(ns, c) == nodes_bytes(ns, c - 1) + node_bytes(ns, ns[c - 1]));
    assert(offset_of(ns, k + 1) == offset_of(ns, k) + node_size(ns[k]));
    let a = nodes_bytes(ns, c - 1);
    let nb = node_bytes(ns, ns[c - 1]);
    if k < c - 1 {
        lemma_offset_monotone(ns, k + 1, c - 1);
        lemma_node_in_file(ns, c - 1, k, j);
        assert((a + nb)[offset_of(ns, k) + j] == a[offset_of(ns, k) + j]);
    } else {
        lemma_node_bytes_len(ns, ns[k]);
        assert((a + nb)[offset_of(ns, k) + j] == nb[j]);
    }
}

proof fn lemma_read_u32_at(b: Seq<u8>, at: int, v: u32)
    requires
        0 <= at,
        at + 4 <= b.len(),
        forall|j: int| 0 <= j < 4 ==> b[at + j] == #[trigger] u32_bytes(v)[j],
    ensures
        read_u32(b, at) == v,
{
    lemma_u32_round_trip(v);
    assert(b[at] == u32_bytes(v)[0]);
    assert(b[at + 1] == u32_bytes(v)[1]);
    assert(b[at + 2] == u32_bytes(v)[2]);
    assert(b[at + 3] == u32_bytes(v)[3]);
}

/// The bytes of node `k` sit in the file at its offset.
proof fn lemma_node_bytes_at(t: Trie, k: int)
    requires
        t.wf(),
        encodable(t),
        0 <= k < t.node_seq().len(),
    ensures
        offset_of(t.node_seq(), k) + node_size(t.node_seq()[k]) <= trie_bytes(t).len(),
        forall|j: int| 0 <= j < node_size(t.node_seq()[k]) ==> trie_bytes(t)[offset_of(t.node_seq(), k) + j]
            == #[trigger] node_bytes(t.node_seq(), t.node_seq()[k])[j],
        node_bytes(t.node_seq(), t.node_seq()[k]).len() == node_size(t.node_seq()[k]),
        values_bytes(t.node_seq()[k].val@).len() == 4 * t.node_seq()[k].val@.len(),
        edges_bytes(t.node_seq(), t.node_seq()[k].chars@).len() == 12 * t.node_seq()[k].chars@.len(),
        offset_of(t.node_seq(), k) + node_size(t.node_seq()[k]) == offset_of(t.node_seq(), k + 1),
        offset_of(t.node_seq(), k + 1) <= offset_of(t.node_seq(), t.node_seq().len() as int),
{
    let ns = t.node_seq();
    let len = ns.len() as int;
    lemma_nodes_bytes_len(ns, len);
    lemma_offset_monotone(ns, k + 1, len);
    lemma_node_bytes_len(ns, ns[k]);
    lemma_values_bytes_len(ns[k].val@);
    lemma_edges_bytes_len(ns, ns[k].chars@);
    assert forall|j: int| 0 <= j < node_size(ns[k]) implies trie_bytes(t)[offset_of(ns, k) + j]
        == #[trigger] node_bytes(ns, ns[k])[j] by {
        lemma_node_in_file(ns, len, k, j);
    }
}

/// The identifiers of node `k` read back from the file.
proof fn lemma_values_read(t: Trie, k: int)
    requires
        t.wf(),
        encodable(t),
        0 <= k < t.node_seq().len(),
    ensures
        read_u24(trie_bytes(t), offset_of(t.node_seq(), k) as int) == t.node_seq()[k].val@.len(),
        value_entries(trie_bytes(t), offset_of(t.node_seq(), k) + 3int, t.node_seq()[k].val@.len()) == t.node_seq()[k].val@,
        trie_bytes(t)[offset_of(t.node_seq(), k) + 3int + 4 * t.node_seq()[k].val@.len()] == t.node_seq()[k].chars@.len(),
{
    let ns = t.node_seq();
    let b = trie_bytes(t);
    let off = offset_of(ns, k) as int;
    let node = ns[k];
    let nb = node_bytes(ns, node);
    let vlen = node.val@.len() as int;
    lemma_node_bytes_at(t, k);
    lemma_u24_round_trip(vlen as u32);
    assert(b[off + 0] == nb[0] && b[off + 1] == nb[1] && b[off + 2] == nb[2]);
    assert(read_u24(b, off) == vlen);
    assert forall|i: int| 0 <= i < vlen implies #[trigger] value_entries(b, off + 3, vlen as nat)[i] == node.val@[i] by {
        assert forall|j: int| 0 <= j < 4 implies b[off + 3 + 4 * i + j] == #[trigger] u32_bytes(node.val@[i])[j] by {
            lemma_values_bytes(node.val@, i, j);
            assert(b[off + (3 + 4 * i + j)] == nb[3 + 4 * i + j]);
        }
        lemma_read_u32_at(b, off + 3 + 4 * i, node.val@[i]);
    }
    assert(value_entries(b, off + 3, vlen as nat) =~= node.val@);
    assert(b[off + (3 + 4 * vlen)] == nb[3 + 4 * vlen]);
}

/// The child entries of node `k` read back from the file.
proof fn lemma_edges_read(t: Trie, k: int)
    requires
        t.wf(),
        encodable(t),
        0 <= k < t.node_seq().len(),
    ensures
        edge_entries(trie_bytes(t), offset_of(t.node_seq(), k) + 4int + 4 * t.node_seq()[k].val@.len(), t.node_seq()[k].chars@.len())
            == edge_images(t.node_seq(), t.node_seq()[k].chars@),
{
    let ns = t.node_seq();
    let b = trie_bytes(t);
    let off = offset_of(ns, k) as int;
    let node = ns[k];
    let nb = node_bytes(ns, node);
    let vlen = node.val@.len() as int;
    let clen = node.chars@.len() as int;
    let cpos = off + 3 + 4 * vlen;
    lemma_node_bytes_at(t, k);
    let edges = edge_entries(b, cpos + 1, clen as nat);
    assert forall|i: int| 0 <= i < clen implies #[trigger] edges[i] == edge_images(ns, node.chars@)[i] by {
        let e = node.chars@[i];
        let eb = edge_bytes(ns, e);
        let base = cpos + 1 + 12 * i;
        assert forall|j: int| 0 <= j < 12 implies b[base + j] == #[trigger] eb[j] by {
            lemma_edges_bytes(ns, node.chars@, i, j);
            assert(b[off + (4 + 4 * vlen + 12 * i + j)] == nb[4 + 4 * vlen + 12 * i + j]);
        }
        assert forall|j: int| 0 <= j < 4 implies b[base + j] == #[trigger] u32_bytes(e.0 as u32)[j] by {
            assert(b[base + j] == eb[j]);
        }
        assert forall|j: int| 0 <= j < 4 implies b[base + 4 + j] == #[trigger] u32_bytes(e.1)[j] by {
            assert(b[base + (4 + j)] == eb[4 + j]);
        }
        assert forall|j: int| 0 <= j < 4 implies b[base + 8 + j] == #[trigger] u32_bytes(offset_of(ns, e.1 as int) as u32)[j] by {
            assert(b[base + (8 + j)] == eb[8 + j]);
        }
        lemma_read_u32_at(b, base, e.0 as u32);
        lemma_read_u32_at(b, base + 4, e.1);
        lemma_read_u32_at(b, base + 8, offset_of(ns, e.1 as int) as u32);
    }
    assert(edges =~= edge_images(ns, node.chars@));
}

/// In the file of a well-formed trie, each node reads back as itself.
pub proof fn lemma_parse_encoded(t: Trie, k: int)
    requires
        t.wf(),
        encodable(t),
        0 <= k < t.node_seq().len(),
    ensures
        parse_node(trie_bytes(t), offset_of(t.node_seq(), k) as int) == Some(node_image(t.node_seq(), k)),
        offset_of(t.node_seq(), k) + node_size(t.node_seq()[k]) <= trie_bytes(t).len(),
{
    let ns = t.node_seq();
    let len = ns.len() as int;
    let off = offset_of(ns, k) as int;
    let node = ns[k];
    lemma_node_bytes_at(t, k);
    lemma_values_read(t, k);
    lemma_edges_read(t, k);
    let edges = edge_images(ns, node.chars@);
    assert forall|i: int| 0 <= i < node.chars@.len() implies (#[trigger] edges[i]).2 > off by {
        let e = node.chars@[i];
        assert(k < e.1 < len);
        lemma_offset_monotone(ns, k, e.1 as int);
        lemma_offset_monotone(ns, e.1 as int, len);
    }
}

/// The first child entry for `c` in the file is the child `edge_target` picks.
proof fn lemma_first_edge_image(ns: Seq<Node>, es: Seq<(char, u32)>, c: char)
    ensures
        first_edge(edge_images(ns, es), c as u32) == match edge_target(es, c) {
            Some(j) => Some(offset_of(ns, j as int) as u32),
            None => None,
        },
    decreases es.len(),
{
    if es.len() > 0 {
        assert(edge_images(ns, es).drop_first() =~= edge_images(ns, es.drop_first()));
        lemma_first_edge_image(ns, es.drop_first(), c);
        vstd::utf8::char_u32_cast(es[0].0, es[0].0 as u32);
        vstd::utf8::char_u32_cast(c, c as u32);
    }
}

/// Following a string through the file of a well-formed trie lands at the
/// offset of the node that the string leads to.
pub proof fn lemma_descend_encoded(t: Trie, k: int, q: Seq<char>)
    requires
        t.wf(),
        encodable(t),
        0 <= k < t.node_seq().len(),
    ensures
        descend(trie_bytes(t), offset_of(t.node_seq(), k) as int, q) == match walk(t, k, q) {
            Some(m) => Some(Some(offset_of(t.node_seq(), m) as u32)),
            None => Some(None::<u32>),
        },
        walk(t, k, q) matches Some(m) ==> 0 <= m < t.node_seq().len(),
    decreases q.len(),
{
    let ns = t.node_seq();
    if q.len() > 0 {
        lemma_parse_encoded(t, k);
        lemma_first_edge_image(ns, ns[k].chars@, q[0]);
        if let Some(j) = ns[k].child(q[0]) {
            lemma_edge_target_member(ns[k].chars@, q[0]);
            lemma_offset_monotone(ns, j as int, ns.len() as int);
            lemma_descend_encoded(t, j as int, q.drop_first());
        }
    }
}

/// An exact query on the file of a well-formed trie answers with the
/// identifiers stored under the query, and with no result (not an error)
/// where the trie has no path for it.
pub proof fn lemma_exact_query(t: Trie, s: Seq<char>)
    requires
        t.wf(),
        encodable(t),
        s.len() > 0,
    ensures
        query_result(trie_bytes(t), s, false) == if t.has_path(s) {
            Some(Some(t.values_at(s)))
        } else {
            Some(None::<Seq<u32>>)
        },
{
    lemma_walk_node_at(t, s);
    lemma_descend_encoded(t, 0, s);
    if let Some(m) = t.node_at(s) {
        lemma_parse_encoded(t, m);
        lemma_offset_monotone(t.node_seq(), m, t.node_seq().len() as int);
    }
}

/// An identifier stored under `s` is found by an exact query for `s` on
/// the file of the trie.
pub proof fn lemma_stored_is_found(t: Trie, s: Seq<char>, id: u32)
    requires
        t.wf(),
        encodable(t),
        s.len() > 0,
        t.values_at(s).contains(id),
    ensures
        query_result(trie_bytes(t), s, false) matches Some(Some(r)) && r.contains(id),
{
    lemma_exact_query(t, s);
}

/// After `add(s, id)` (its postcondition relates `before` and `after`), an
/// exact query for a non-empty `s` on the saved file finds `id`.
pub proof fn lemma_added_is_found(before: Trie, after: Trie, s: Seq<char>, id: u32)
    requires
        after.wf(),
        encodable(after),
        s.len() > 0,
        forall|q: Seq<char>| #[trigger] after.values_at(q) == if q == s {
            before.values_at(q).push(id)
        } else {
            before.values_at(q)
        },
    ensures
        query_result(trie_bytes(after), s, false) matches Some(Some(r)) && r.contains(id),
{
    assert(after.values_at(s).last() == id);
    lemma_stored_is_found(after, s, id);
}

/// A query, exact or by prefix, for a string that has no path gives no
/// result and no error.
pub proof fn lemma_missing_path_is_empty(t: Trie, s: Seq<char>, prefix_search: bool)
    requires
        t.wf(),
        encodable(t),
        !t.has_path(s),
    ensures
        query_result(trie_bytes(t), s, prefix_search) == Some(None::<Seq<u32>>),
{
    lemma_walk_node_at(t, s);
    if s.len() > 0 {
        lemma_descend_encoded(t, 0, s);
    }
}

/// The byte offsets of the nodes `idx`.
pub open spec fn offsets_of(ns: Seq<Node>, idx: Seq<int>) -> Seq<u32> {
    idx.map_values(|m: int| offset_of(ns, m) as u32)
}

/// The identifiers of the nodes `idx`, in order.
pub open spec fn level_values(ns: Seq<Node>, idx: Seq<int>) -> Seq<u32>
    decreases idx.len(),
{
    if idx.len() == 0 {
        Seq::empty()
    } else {
        level_values(ns, idx.drop_last()) + ns[idx.last()].val@
    }
}

/// The children of the nodes `idx`, in order.
pub open spec fn level_children(ns: Seq<Node>, idx: Seq<int>) -> Seq<int>
    decreases idx.len(),
{
    if idx.len() == 0 {
        Seq::empty()
    } else {
        level_children(ns, idx.drop_last()) + ns[idx.last()].chars@.map_values(|e: (char, u32)| e.1 as int)
    }
}

/// Node positions of the arena, each at byte offset `depth` or later.
pub open spec fn valid_level(t: Trie, idx: Seq<int>, depth: int) -> bool {
    forall|i: int| 0 <= i < idx.len() ==> 0 <= #[trigger] idx[i] < t.node_seq().len()
        && offset_of(t.node_seq(), idx[i]) >= depth
}

pub(crate) proof fn lemma_level_encoded(t: Trie, idx: Seq<int>, depth: int)
    requires
        t.wf(),
        encodable(t),
        valid_level(t, idx, depth),
    ensures
        level(trie_bytes(t), offsets_of(t.node_seq(), idx)) == Some(
            (level_values(t.node_seq(), idx), offsets_of(t.node_seq(), level_children(t.node_seq(), idx))),
        ),
        valid_level(t, level_children(t.node_seq(), idx), depth + 1),
    decreases idx.len(),
{
    let ns = t.node_seq();
    if idx.len() > 0 {
        let k = idx.last();
        assert(valid_level(t, idx.drop_last(), depth)) by {
            assert forall|i: int| 0 <= i < idx.drop_last().len() implies 0 <= #[trigger] idx.drop_last()[i] < ns.len()
                && offset_of(ns, idx.drop_last()[i]) >= depth by {
                assert(idx.drop_last()[i] == idx[i]);
            }
        }
        lemma_level_encoded(t, idx.drop_last(), depth);
        assert(offsets_of(ns, idx).drop_last() =~= offsets_of(ns, idx.drop_last()));
        assert(offsets_of(ns, idx).last() == offset_of(ns, k) as u32);
        lemma_offset_monotone(ns, k, ns.len() as int);
        lemma_parse_encoded(t, k);
        let kids = ns[k].chars@.map_values(|e: (char, u32)| e.1 as int);
        assert(edge_images(ns, ns[k].chars@).map_values(|e: (u32, u32, u32)| e.2) =~= offsets_of(ns, kids));
        assert(offsets_of(ns, level_children(ns, idx.drop_last())) + offsets_of(ns, kids)
            =~= offsets_of(ns, level_children(ns, idx)));
        let c = level_children(ns, idx);
        let c0 = level_children(ns, idx.drop_last());
        assert forall|i: int| 0 <= i < c.len() implies 0 <= #[trigger] c[i] < ns.len()
            && offset_of(ns, c[i]) >= depth + 1 by {
            if i >= c0.len() {
                let e = ns[k].chars@[i - c0.len()];
                assert(c[i] == e.1 as int);
                assert(k < e.1 < ns.len());
                lemma_offset_monotone(ns, k, e.1 as int);
            } else {
                assert(c[i] == c0[i]);
            }
        }
    }
}

proof fn lemma_level_values_contain(ns: Seq<Node>, idx: Seq<int>, i: int, x: u32)
    requires
        0 <= i < idx.len(),
        ns[idx[i]].val@.contains(x),
    ensures
        level_values(ns, idx).contains(x),
    decreases idx.len(),
{
    let v0 = level_values(ns, idx.drop_last());
    let last = ns[idx.last()].val@;
    if i < idx.len() - 1 {
        assert(idx.drop_last()[i] == idx[i]);
        lemma_level_values_contain(ns, idx.drop_last(), i, x);
        let p = choose|p: int| 0 <= p < v0.len() && v0[p] == x;
        assert((v0 + last)[p] == x);
    } else {
        let p = choose|p: int| 0 <= p < last.len() && last[p] == x;
        assert((v0 + last)[v0.len() + p] == x);
    }
}

proof fn lemma_level_children_contain(ns: Seq<Node>, idx: Seq<int>, i: int, e: int)
    requires
        0 <= i < idx.len(),
        0 <= e < ns[idx[i]].chars@.len(),
    ensures
        level_children(ns, idx).contains(ns[idx[i]].chars@[e].1 as int),
    decreases idx.len(),
{
    let c0 = level_children(ns, idx.drop_last());
    let last = ns[idx.last()].chars@.map_values(|x: (char, u32)| x.1 as int);
    if i < idx.len() - 1 {
        assert(idx.drop_last()[i] == idx[i]);
        lemma_level_children_contain(ns, idx.drop_last(), i, e);
        let p = choose|p: int| 0 <= p < c0.len() && c0[p] == ns[idx[i]].chars@[e].1 as int;
        assert((c0 + last)[p] == c0[p]);
    } else {
        assert((c0 + last)[c0.len() + e] == last[e]);
    }
}

/// Breadth-first collection below nodes of the file succeeds.
pub(crate) proof fn lemma_breadth_first_succeeds(t: Trie, idx: Seq<int>, depth: int)
    requires
        t.wf(),
        encodable(t),
        valid_level(t, idx, depth),
        0 <= depth,
    ensures
        breadth_first(trie_bytes(t), offsets_of(t.node_seq(), idx), depth) matches Some(r)
            && r == level_values(t.node_seq(), idx) + breadth_first(
            trie_bytes(t),
            offsets_of(t.node_seq(), level_children(t.node_seq(), idx)),
            depth + 1,
        )->0,
    decreases trie_bytes(t).len() - depth,
{
    let ns = t.node_seq();
    let b = trie_bytes(t);
    if idx.len() > 0 {
        lemma_parse_encoded(t, idx[0]);
        lemma_level_encoded(t, idx, depth);
        lemma_breadth_first_succeeds(t, level_children(ns, idx), depth + 1);
    } else {
        lemma_level_encoded(t, idx, depth);
        assert(level_children(ns, idx).len() == 0);
        assert(offsets_of(ns, level_children(ns, idx)) =~= Seq::<u32>::empty());
        assert(level_values(ns, idx) + Seq::<u32>::empty() =~= Seq::<u32>::empty());
    }
}

/// Every identifier stored below one of the nodes `idx` is collected.
proof fn lemma_breadth_first_covers(t: Trie, idx: Seq<int>, depth: int, i: int, q: Seq<char>, x: u32)
    requires
        t.wf(),
        encodable(t),
        valid_level(t, idx, depth),
        0 <= depth,
        0 <= i < idx.len(),
        walk(t, idx[i], q) matches Some(m) && t.node_seq()[m].val@.contains(x),
    ensures
        breadth_first(trie_bytes(t), offsets_of(t.node_seq(), idx), depth) matches Some(r) && r.contains(x),
    decreases q.len(),
{
    let ns = t.node_seq();
    let b = trie_bytes(t);
    lemma_breadth_first_succeeds(t, idx, depth);
    lemma_level_encoded(t, idx, depth);
    lemma_breadth_first_succeeds(t, level_children(ns, idx), depth + 1);
    let v = level_values(ns, idx);
    let rest = breadth_first(b, offsets_of(ns, level_children(ns, idx)), depth + 1)->0;
    if q.len() == 0 {
        lemma_level_values_contain(ns, idx, i, x);
        let p = choose|p: int| 0 <= p < v.len() && v[p] == x;
        assert((v + rest)[p] == x);
    } else {
        let j = ns[idx[i]].child(q[0])->0;
        lemma_edge_target_member(ns[idx[i]].chars@, q[0]);
        let e = choose|e: int| 0 <= e < ns[idx[i]].chars@.len() && #[trigger] ns[idx[i]].chars@[e] == (q[0], j);
        lemma_level_children_contain(ns, idx, i, e);
        let c = level_children(ns, idx);
        let p = choose|p: int| 0 <= p < c.len() && c[p] == j as int;
        lemma_breadth_first_covers(t, c, depth + 1, p, q.drop_first(), x);
        let pr = choose|pr: int| 0 <= pr < rest.len() && rest[pr] == x;
        assert((v + rest)[v.len() + pr] == x);
    }
}

proof fn lemma_walk_concat(t: Trie, k: int, p: Seq<char>, r: Seq<char>)
    ensures
        walk(t, k, p + r) == match walk(t, k, p) {
            Some(m) => walk(t, m, r),
            None => None,
        },
    decreases p.len(),
{
    if p.len() > 0 {
        assert((p + r).drop_first() =~= p.drop_first() + r);
        assert((p + r)[0] == p[0]);
        if 0 <= k < t.node_seq().len() {
            if let Some(j) = t.node_seq()[k].child(p[0]) {
                lemma_walk_concat(t, j as int, p.drop_first(), r);
            }
        }
    } else {
        assert(p + r =~= r);
    }
}

/// A prefix query for `p` finds every identifier stored under any string
/// that `p` is a prefix of.
pub proof fn lemma_prefix_query_covers(t: Trie, p: Seq<char>, s: Seq<char>, x: u32)
    requires
        t.wf(),
        encodable(t),
        p.len() > 0,
        p.is_prefix_of(s),
        t.values_at(s).contains(x),
    ensures
        query_result(trie_bytes(t), p, true) matches Some(Some(r)) && r.contains(x),
{
    let ns = t.node_seq();
    let rest = s.subrange(p.len() as int, s.len() as int);
    assert(p + rest =~= s);
    lemma_walk_node_at(t, s);
    lemma_walk_node_at(t, p);
    lemma_walk_concat(t, 0, p, rest);
    lemma_descend_encoded(t, 0, p);
    let k = t.node_at(p)->0;
    lemma_descend_encoded(t, k, rest);
    assert(offsets_of(ns, seq![k]) =~= seq![offset_of(ns, k) as u32]);
    lemma_breadth_first_covers(t, seq![k], 0, 0, rest, x);
}

/// The nodes of the file of `t` from node `k` on, one after another.
proof fn lemma_parse_all_encoded(t: Trie, k: int)
    requires
        t.wf(),
        encodable(t),
        0 <= k <= t.node_seq().len(),
    ensures
        parse_all(trie_bytes(t), offset_of(t.node_seq(), k) as int) == Some(
            Seq::new((t.node_seq().len() - k) as nat, |i: int| node_image(t.node_seq(), k + i)),
        ),
    decreases t.node_seq().len() - k,
{
    let ns = t.node_seq();
    let len = ns.len() as int;
    lemma_nodes_bytes_len(ns, len);
    if k < len {
        lemma_parse_encoded(t, k);
        lemma_node_bytes_at(t, k);
        lemma_offset_monotone(ns, k + 1, len);
        assert(image_size(node_image(ns, k)) == node_size(ns[k]));
        lemma_parse_all_encoded(t, k + 1);
        let rest = Seq::new((len - (k + 1)) as nat, |i: int| node_image(ns, k + 1 + i));
        assert(seq![node_image(ns, k)] + rest =~= Seq::new((len - k) as nat, |i: int| node_image(ns, k + i)));
    } else {
        assert(Seq::new((len - k) as nat, |i: int| node_image(ns, k + i)) =~= Seq::<NodeImage>::empty());
    }
}

/// The file of a well-formed trie reads back: its bytes are whole nodes,
/// linked into a tree.
pub proof fn lemma_decode_succeeds(t: Trie)
    requires
        t.wf(),
        encodable(t),
    ensures
        parse_all(trie_bytes(t), 0) matches Some(imgs) && links_ok(imgs) && imgs.len() == t.node_seq().len()
            && forall|k: int| 0 <= k < imgs.len() ==> #[trigger] imgs[k] == node_image(t.node_seq(), k),
{
    let ns = t.node_seq();
    lemma_parse_all_encoded(t, 0);
    let imgs = Seq::new(ns.len(), |i: int| node_image(ns, 0 + i));
    assert forall|k: int, i: int| 0 <= k < imgs.len() && 0 <= i < imgs[k].edges.len() implies {
        let e = #[trigger] imgs[k].edges[i];
        &&& k < e.1 < imgs.len()
        &&& vstd::utf8::is_scalar(e.0)
    } by {
        let c = ns[k].chars@[i];
        assert(imgs[k].edges[i] == (c.0 as u32, c.1, offset_of(ns, c.1 as int) as u32));
        vstd::utf8::char_is_scalar(c.0);
    }
    assert forall|k1: int, i1: int, k2: int, i2: int|
        0 <= k1 < imgs.len() && 0 <= i1 < imgs[k1].edges.len() && 0 <= k2 < imgs.len() && 0 <= i2 < imgs[k2].edges.len()
            && (#[trigger] imgs[k1].edges[i1]).1 == (#[trigger] imgs[k2].edges[i2]).1 implies k1 == k2 && i1 == i2 by {
        assert(imgs[k1].edges[i1].1 == ns[k1].chars@[i1].1);
        assert(imgs[k2].edges[i2].1 == ns[k2].chars@[i2].1);
    }
    assert forall|j: int| 1 <= j < imgs.len() implies #[trigger] image_target(imgs, j) by {
        assert(crate::trie::is_target(ns, j));
        let (k, i) = choose|k: int, i: int| 0 <= k < ns.len() && 0 <= i < ns[k].chars@.len() && #[trigger] ns[k].chars@[i].1 == j;
        assert(imgs[k].edges[i].1 == ns[k].chars@[i].1);
    }
    assert forall|k: int, i1: int, i2: int|
        0 <= k < imgs.len() && 0 <= i1 < imgs[k].edges.len() && 0 <= i2 < imgs[k].edges.len() && i1 != i2
            implies (#[trigger] imgs[k].edges[i1]).0 != (#[trigger] imgs[k].edges[i2]).0 by {
        let c1 = ns[k].chars@[i1].0;
        let c2 = ns[k].chars@[i2].0;
        assert(imgs[k].edges[i1].0 == c1 as u32);
        assert(imgs[k].edges[i2].0 == c2 as u32);
        vstd::utf8::char_u32_cast(c1, c1 as u32);
        vstd::utf8::char_u32_cast(c2, c2 as u32);
    }
}

proof fn lemma_edges_bytes_same(a: Seq<Node>, b: Seq<Node>, es: Seq<(char, u32)>)
    requires
        forall|m: int| #[trigger] offset_of(a, m) == offset_of(b, m),
    ensures
        edges_bytes(a, es) == edges_bytes(b, es),
    decreases es.len(),
{
    if es.len() > 0 {
        lemma_edges_bytes_same(a, b, es.drop_last());
        assert(offset_of(a, es.last().1 as int) == offset_of(b, es.last().1 as int));
    }
}

proof fn lemma_nodes_bytes_same(a: Seq<Node>, b: Seq<Node>, c: int)
    requires
        a.len() == b.len(),
        0 <= c <= a.len(),
        forall|k: int| 0 <= k < a.len() ==> (#[trigger] a[k]).chars@ == b[k].chars@ && a[k].val@ == b[k].val@,
        forall|m: int| #[trigger] offset_of(a, m) == offset_of(b, m),
    ensures
        nodes_bytes(a, c) == nodes_bytes(b, c),
    decreases c,
{
    if c > 0 {
        lemma_nodes_bytes_same(a, b, c - 1);
        lemma_edges_bytes_same(a, b, a[c - 1].chars@);
    }
}

/// Encoding, reading back and encoding again gives the same file: the trie
/// read back from the file of `t` is encodable, and its file is that of `t`.
pub proof fn lemma_reencode_identical(t: Trie, t2: Trie)
    requires
        t.wf(),
        encodable(t),
        decodes_to(trie_bytes(t), t2),
    ensures
        encodable(t2),
        trie_bytes(t2) == trie_bytes(t),
{
    let ns = t.node_seq();
    let n2 = t2.node_seq();
    lemma_decode_succeeds(t);
    assert forall|k: int| 0 <= k < ns.len() implies (#[trigger] ns[k]).chars@ == n2[k].chars@ && ns[k].val@ == n2[k].val@ by {
        let img = node_image(ns, k);
        assert(n2[k].chars@ == edges_of(img));
        assert forall|i: int| 0 <= i < ns[k].chars@.len() implies #[trigger] edges_of(img)[i] == ns[k].chars@[i] by {
            let c = ns[k].chars@[i].0;
            vstd::utf8::char_u32_cast(c, c as u32);
        }
        assert(edges_of(img) =~= ns[k].chars@);
    }
    assert forall|m: int| 0 <= m < ns.len() implies node_size(#[trigger] ns[m]) == node_size(n2[m]) by {}
    assert forall|m: int| #[trigger] offset_of(ns, m) == offset_of(n2, m) by {
        lemma_offset_same_sizes(ns, n2, m);
    }
    lemma_nodes_bytes_same(ns, n2, ns.len() as int);
    assert forall|k: int| 0 <= k < n2.len() implies (#[trigger] n2[k]).val@.len() <= crate::codec::MAX_VALUES
        && n2[k].chars@.len() <= crate::codec::MAX_CHILDREN by {
        assert(ns[k].chars@ == n2[k].chars@);
    }
}

/// The identifiers that a query answer holds; none where it holds no
/// result or is an error.
pub open spec fn answer_ids(a: Option<Option<Seq<u32>>>) -> Seq<u32> {
    match a {
        Some(Some(v)) => v,
        _ => Seq::empty(),
    }
}

/// Two indices of the same field built from the same record store (as
/// `new_from_database` builds them, in whatever order or task) answer every
/// exact query with the same identifiers.
pub proof fn lemma_rebuilds_agree(store: Seq<u8>, field: int, t1: Trie, t2: Trie, s: Seq<char>)
    requires
        t1.wf(),
        t2.wf(),
        encodable(t1),
        encodable(t2),
        s.len() > 0,
        forall|q: Seq<char>| #[trigger] t1.values_at(q) == store_values(store, field, q, crate::builder::record_count(store)),
        forall|q: Seq<char>| #[trigger] t2.values_at(q) == store_values(store, field, q, crate::builder::record_count(store)),
    ensures
        answer_ids(query_result(trie_bytes(t1), s, false)) == answer_ids(query_result(trie_bytes(t2), s, false)),
        answer_ids(query_result(trie_bytes(t1), s, false)) == store_values(store, field, s, crate::builder::record_count(store)),
{
    lemma_exact_query(t1, s);
    lemma_exact_query(t2, s);
    assert(t1.values_at(s) == t2.values_at(s));
}

} // verus!
