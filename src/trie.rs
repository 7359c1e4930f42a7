use vstd::prelude::*;

use crate::text::chars_of;

verus! {

/// The child reached from a node by the character `c`: the first edge
/// labelled `c`, if any.
pub open spec fn edge_target(edges: Seq<(char, u32)>, c: char) -> Option<u32>
    decreases edges.len(),
{
    if edges.len() == 0 {
        None
    } else if edges[0].0 == c {
        Some(edges[0].1)
    } else {
        edge_target(edges.drop_first(), c)
    }
}

/// Appending an edge changes only the lookup of a character that had no edge.
pub proof fn lemma_edge_target_push(edges: Seq<(char, u32)>, e: (char, u32), c: char)
    ensures
        edge_target(edges.push(e), c) == (match edge_target(edges, c) {
            Some(j) => Some(j),
            None => if e.0 == c { Some(e.1) } else { None },
        }),
    decreases edges.len(),
{
    let pushed = edges.push(e);
    if edges.len() > 0 {
        assert(pushed[0] == edges[0]);
        assert(pushed.drop_first() =~= edges.drop_first().push(e));
        lemma_edge_target_push(edges.drop_first(), e, c);
        if edges[0].0 != c {
            assert(edge_target(pushed, c) == edge_target(pushed.drop_first(), c));
        }
    } else {
        assert(pushed.drop_first() =~= Seq::<(char, u32)>::empty());
        assert(pushed[0] == e);
        assert(edge_target(pushed.drop_first(), c) is None);
    }
}

/// The edge that `edge_target` picks is one of the edges.
pub proof fn lemma_edge_target_member(edges: Seq<(char, u32)>, c: char)
    ensures
        edge_target(edges, c) matches Some(j) ==> exists|i: int|
            0 <= i < edges.len() && #[trigger] edges[i] == (c, j),
    decreases edges.len(),
{
    if edges.len() > 0 && edges[0].0 != c {
        lemma_edge_target_member(edges.drop_first(), c);
        if let Some(j) = edge_target(edges, c) {
            let i = choose|i: int| 0 <= i < edges.len() - 1 && #[trigger] edges.drop_first()[i] == (c, j);
            assert(edges[i + 1] == (c, j));
        }
    }
}

/// No node is the target of two edges.
pub open spec fn single_parents(n: Seq<Node>) -> bool {
    forall|k1: int, i1: int, k2: int, i2: int|
        0 <= k1 < n.len() && 0 <= i1 < n[k1].chars@.len() && 0 <= k2 < n.len() && 0 <= i2 < n[k2].chars@.len()
            && (#[trigger] n[k1].chars@[i1]).1 == (#[trigger] n[k2].chars@[i2]).1 ==> k1 == k2 && i1 == i2
}

/// Node `j` is the target of an edge.
pub open spec fn is_target(n: Seq<Node>, j: int) -> bool {
    exists|k: int, i: int| 0 <= k < n.len() && 0 <= i < n[k].chars@.len() && #[trigger] n[k].chars@[i].1 == j
}

/// Every node but the root is the target of an edge.
pub open spec fn has_parents(n: Seq<Node>) -> bool {
    forall|j: int| 1 <= j < n.len() ==> #[trigger] is_target(n, j)
}

/// No node has two edges with the same character.
pub open spec fn distinct_labels(n: Seq<Node>) -> bool {
    forall|k: int, i1: int, i2: int|
        0 <= k < n.len() && 0 <= i1 < n[k].chars@.len() && 0 <= i2 < n[k].chars@.len() && i1 != i2
            ==> (#[trigger] n[k].chars@[i1]).0 != (#[trigger] n[k].chars@[i2]).0
}

/// A character with no edge is on no edge.
pub proof fn lemma_edge_target_none(edges: Seq<(char, u32)>, c: char)
    ensures
        edge_target(edges, c) is None ==> forall|i: int| 0 <= i < edges.len() ==> (#[trigger] edges[i]).0 != c,
    decreases edges.len(),
{
    if edges.len() > 0 {
        lemma_edge_target_none(edges.drop_first(), c);
        if edge_target(edges, c) is None {
            assert forall|i: int| 0 <= i < edges.len() implies (#[trigger] edges[i]).0 != c by {
                if i > 0 {
                    assert(edges[i] == edges.drop_first()[i - 1]);
                }
            }
        }
    }
}

/// The number of non-empty prefixes of `s` of length at most `n` that `t`
/// has no path for.
pub open spec fn missing_prefixes(t: Trie, s: Seq<char>, n: int) -> nat
    decreases n,
{
    if n <= 0 {
        0
    } else {
        missing_prefixes(t, s, n - 1) + if t.has_path(s.subrange(0, n)) { 0nat } else { 1nat }
    }
}

/// How `add(s, val)` changes the arena from `old` to `new`: one node is
/// appended for each prefix of `s` that had no path; every old node keeps
/// its position and its edges, gaining at most one edge, which leads to a
/// new node; and only the node of `s` gains `val`.
pub open spec fn arena_grows(old: Trie, new: Trie, s: Seq<char>, val: u32) -> bool {
    let n0 = old.node_seq();
    let n1 = new.node_seq();
    &&& n1.len() == n0.len() + missing_prefixes(old, s, s.len() as int)
    &&& forall|k: int| 0 <= k < n0.len() ==> {
        &&& n0[k].chars@.is_prefix_of((#[trigger] n1[k]).chars@)
        &&& n1[k].chars@.len() <= n0[k].chars@.len() + 1
        &&& n1[k].chars@.len() > n0[k].chars@.len() ==> n1[k].chars@.last().1 >= n0.len()
        &&& n1[k].val@ == if new.node_at(s) == Some(k) {
            n0[k].val@.push(val)
        } else {
            n0[k].val@
        }
    }
}

/// A trie node: outgoing edges, each labelled by one character and naming
/// the child's position in the arena, and the record identifiers that end
/// at this node. `address` is the node's byte offset in its serialized form.
pub struct Node {
    pub chars: Vec<(char, u32)>,
    pub val: Vec<u32>,
    pub address: u32,
}

/// The append-only store of a trie's nodes; a node's handle is its position.
pub struct Arena {
    pub nodes: Vec<Node>,
}

/// A trie of characters over an arena, rooted at position 0.
///
/// `paths` records, for each node, the string spelled by the edges from the
/// root to it; it is what makes every node reachable by one path only.
pub struct Trie {
    pub nodes: Arena,
    pub root: u32,
    pub paths: Ghost<Seq<Seq<char>>>,
}

impl Node {
    /// A node with no edges and no identifiers.
    pub fn empty() -> (r: Node)
        ensures
            r.chars@.len() == 0,
            r.val@.len() == 0,
            r.address == 0,
    {
        Node { chars: Vec::new(), val: Vec::new(), address: 0 }
    }

    /// The child reached by `c`.
    pub open spec fn child(&self, c: char) -> Option<u32> {
        edge_target(self.chars@, c)
    }

    /// Looks up the child reached by `c`.
    pub fn find_child(&self, c: char) -> (r: Option<u32>)
        ensures
            r == self.child(c),
    {
        let mut i: usize = 0;
        assert(self.chars@.subrange(0, self.chars@.len() as int) =~= self.chars@);
        while i < self.chars.len()
            invariant
                i <= self.chars@.len(),
                edge_target(self.chars@, c) == edge_target(self.chars@.subrange(i as int, self.chars@.len() as int), c),
            decreases self.chars@.len() - i,
        {
            let ghost rest = self.chars@.subrange(i as int, self.chars@.len() as int);
            assert(rest.drop_first() =~= self.chars@.subrange(i + 1, self.chars@.len() as int));
            if self.chars[i].0 == c {
                return Some(self.chars[i].1);
            }
            i = i + 1;
        }
        None
    }
}

impl Trie {
    /// The nodes, by arena position.
    pub open spec fn node_seq(&self) -> Seq<Node> {
        self.nodes.nodes@
    }

    /// Well-formedness: the root sits at position 0, every edge leads to a
    /// node further on in the arena, and each node's recorded path is its
    /// parent's path followed by the edge's character.
    pub open spec fn wf(&self) -> bool {
        let n = self.node_seq();
        let p = self.paths@;
        &&& self.root == 0
        &&& 1 <= n.len() <= u32::MAX
        &&& p.len() == n.len()
        &&& p[0] == Seq::<char>::empty()
        &&& forall|k: int, i: int|
            0 <= k < n.len() && 0 <= i < n[k].chars@.len() ==> {
                let e = #[trigger] n[k].chars@[i];
                &&& k < e.1 < n.len()
                &&& p[e.1 as int] == p[k].push(e.0)
            }
        &&& single_parents(n)
        &&& has_parents(n)
        &&& distinct_labels(n)
    }

    /// The node that the string `s` leads to from the root, if its path exists.
    pub open spec fn node_at(&self, s: Seq<char>) -> Option<int>
        decreases s.len(),
    {
        if s.len() == 0 {
            Some(0)
        } else {
            match self.node_at(s.drop_last()) {
                Some(k) => if 0 <= k < self.node_seq().len() {
                    match self.node_seq()[k].child(s.last()) {
                        Some(j) => Some(j as int),
                        None => None,
                    }
                } else {
                    None
                },
                None => None,
            }
        }
    }

    /// The record identifiers stored under the string `s` (empty where the
    /// trie has no path for `s`).
    pub open spec fn values_at(&self, s: Seq<char>) -> Seq<u32> {
        match self.node_at(s) {
            Some(k) => self.node_seq()[k].val@,
            None => Seq::empty(),
        }
    }

    /// Whether the trie has a path for `s`.
    pub open spec fn has_path(&self, s: Seq<char>) -> bool {
        self.node_at(s) is Some
    }

    /// A string leads to a node whose recorded path is that string.
    pub proof fn lemma_node_at_path(&self, s: Seq<char>)
        requires
            self.wf(),
        ensures
            self.node_at(s) matches Some(k) ==> 0 <= k < self.node_seq().len() && self.paths@[k] == s,
        decreases s.len(),
    {
        if s.len() > 0 {
            self.lemma_node_at_path(s.drop_last());
            if let Some(k) = self.node_at(s.drop_last()) {
                if 0 <= k < self.node_seq().len() {
                    lemma_edge_target_member(self.node_seq()[k].chars@, s.last());
                    assert(s.drop_last().push(s.last()) =~= s);
                }
            }
        }
    }

    /// A trie holding only an empty root.
    pub fn new() -> (r: Trie)
        ensures
            r.wf(),
            r.node_seq().len() == 1,
            forall|s: Seq<char>| #[trigger] r.values_at(s) == Seq::<u32>::empty(),
            forall|s: Seq<char>| #[trigger] r.has_path(s) <==> s.len() == 0,
    {
        let mut nodes: Vec<Node> = Vec::new();
        nodes.push(Node::empty());
        let ghost paths = seq![Seq::<char>::empty()];
        let r = Trie { nodes: Arena { nodes }, root: 0, paths: Ghost(paths) };
        assert forall|s: Seq<char>| #[trigger] r.has_path(s) <==> s.len() == 0 by {
            if s.len() > 0 {
                r.lemma_node_at_path(s);
            }
        }
        r
    }

    /// Stores `val` under `string`, extending the path for it with new nodes
    /// where the trie lacks one; nothing else changes.
    pub fn add(&mut self, string: String, val: u32)
        requires
            old(self).wf(),
            old(self).node_seq().len() + string@.len() <= u32::MAX,
        ensures
            final(self).wf(),
            final(self).node_seq().len() <= old(self).node_seq().len() + string@.len(),
            arena_grows(*old(self), *final(self), string@, val),
            forall|s: Seq<char>| #[trigger] final(self).values_at(s) == if s == string@ {
                old(self).values_at(s).push(val)
            } else {
                old(self).values_at(s)
            },
            forall|s: Seq<char>| #[trigger] final(self).has_path(s) <==> (old(self).has_path(s) || s.is_prefix_of(string@)),
    {
        let text = chars_of(string.as_str());
        self.add_chars(&text, val);
    }

    /// Stores `val` under the string spelled by `text`; see `add`.
    pub fn add_chars(&mut self, text: &Vec<char>, val: u32)
        requires
            old(self).wf(),
            old(self).node_seq().len() + text@.len() <= u32::MAX,
        ensures
            final(self).wf(),
            final(self).node_seq().len() <= old(self).node_seq().len() + text@.len(),
            arena_grows(*old(self), *final(self), text@, val),
            forall|s: Seq<char>| #[trigger] final(self).values_at(s) == if s == text@ {
                old(self).values_at(s).push(val)
            } else {
                old(self).values_at(s)
            },
            forall|s: Seq<char>| #[trigger] final(self).has_path(s) <==> (old(self).has_path(s) || s.is_prefix_of(text@)),
    {
        let mut node: u32 = self.root;
        let mut i: usize = 0;
        assert(text@.subrange(0, 0) =~= Seq::<char>::empty());
        while i < text.len()
            invariant
                self.wf(),
                i <= text@.len(),
                self.node_seq().len() <= old(self).node_seq().len() + i,
                old(self).wf(),
                old(self).node_seq().len() + text@.len() <= u32::MAX,
                self.node_at(text@.subrange(0, i as int)) == Some(node as int),
                old(self).node_seq().len() <= self.node_seq().len(),
                forall|k: int| 0 <= k < old(self).node_seq().len() ==>
                    (#[trigger] self.node_seq()[k]).val@ == old(self).node_seq()[k].val@,
                forall|k: int| old(self).node_seq().len() <= k < self.node_seq().len() ==>
                    (#[trigger] self.node_seq()[k]).val@.len() == 0,
                forall|s: Seq<char>| (#[trigger] old(self).node_at(s)) is Some ==> self.node_at(s) == old(self).node_at(s),
                forall|s: Seq<char>| (#[trigger] self.node_at(s)) is Some && old(self).node_at(s) is None
                    ==> self.node_at(s)->0 >= old(self).node_seq().len(),
                forall|s: Seq<char>| #[trigger] self.has_path(s) <==> (old(self).has_path(s) || s.is_prefix_of(text@.subrange(0, i as int))),
                self.node_seq().len() == old(self).node_seq().len() + missing_prefixes(*old(self), text@, i as int),
                forall|k: int| 0 <= k < old(self).node_seq().len() ==> self.paths@[k] == old(self).paths@[k],
                forall|k: int| 0 <= k < old(self).node_seq().len() ==> {
                    let n0 = old(self).node_seq()[k].chars@;
                    let n1 = (#[trigger] self.node_seq()[k]).chars@;
                    &&& n0.is_prefix_of(n1)
                    &&& n1.len() <= n0.len() + 1
                    &&& n1.len() > n0.len() ==> n1.last().1 >= old(self).node_seq().len() && self.paths@[k].len() < i
                },
            decreases text@.len() - i,
        {
            let c = text[i];
            let ghost prefix = text@.subrange(0, i as int);
            let ghost next = text@.subrange(0, i + 1);
            assert(next.drop_last() =~= prefix);
            assert(next.last() == c);
            assert(next =~= prefix.push(c));
            proof {
                self.lemma_node_at_path(prefix);
            }
            match self.nodes.nodes[node as usize].find_child(c) {
                Some(j) => {
                    assert(self.node_at(next) == Some(j as int));
                    assert(old(self).has_path(next)) by {
                        assert(self.has_path(next));
                        if next.is_prefix_of(prefix) {
                            assert(next.len() <= prefix.len());
                        }
                    }
                    node = j;
                    assert forall|s: Seq<char>| #[trigger] self.has_path(s) <==> (old(self).has_path(s) || s.is_prefix_of(next)) by {
                        lemma_prefix_step(s, text@, i as int);
                    }
                },
                None => {
                    let ghost before = *self;
                    let len = self.nodes.nodes.len();
                    self.nodes.nodes[node as usize].chars.push((c, len as u32));
                    self.nodes.nodes.push(Node::empty());
                    let ghost grown = self.paths@.push(self.paths@[node as int].push(c));
                    self.paths = Ghost(grown);
                    assert forall|k: int, e: int|
                        0 <= k < self.node_seq().len() && 0 <= e < self.node_seq()[k].chars@.len() implies {
                            let x = #[trigger] self.node_seq()[k].chars@[e];
                            &&& k < x.1 < self.node_seq().len()
                            &&& self.paths@[x.1 as int] == self.paths@[k].push(x.0)
                        } by {
                        if k != node as int && k < len as int {
                            assert(self.node_seq()[k].chars@[e] == before.node_seq()[k].chars@[e]);
                        }
                    }
                    assert(single_parents(self.node_seq())) by {
                        let n0 = before.node_seq();
                        let n1 = self.node_seq();
                        assert forall|k1: int, i1: int, k2: int, i2: int|
                            0 <= k1 < n1.len() && 0 <= i1 < n1[k1].chars@.len() && 0 <= k2 < n1.len() && 0 <= i2
                                < n1[k2].chars@.len() && (#[trigger] n1[k1].chars@[i1]).1 == (#[trigger] n1[k2].chars@[i2]).1
                            implies k1 == k2 && i1 == i2 by {
                            let new1 = k1 == node as int && i1 == n0[k1].chars@.len();
                            let new2 = k2 == node as int && i2 == n0[k2].chars@.len();
                            if !new1 {
                                assert(n1[k1].chars@[i1] == n0[k1].chars@[i1]);
                            }
                            if !new2 {
                                assert(n1[k2].chars@[i2] == n0[k2].chars@[i2]);
                            }
                        }
                    }
                    assert(has_parents(self.node_seq())) by {
                        let n0 = before.node_seq();
                        let n1 = self.node_seq();
                        assert forall|j: int| 1 <= j < n1.len() implies #[trigger] is_target(n1, j) by {
                            if j == len as int {
                                let e = n0[node as int].chars@.len() as int;
                                assert(n1[node as int].chars@[e].1 == j);
                            } else {
                                assert(is_target(n0, j));
                                let (k, e) = choose|k: int, e: int|
                                    0 <= k < n0.len() && 0 <= e < n0[k].chars@.len() && #[trigger] n0[k].chars@[e].1 == j;
                                assert(n1[k].chars@[e] == n0[k].chars@[e]);
                            }
                        }
                    }
                    assert(distinct_labels(self.node_seq())) by {
                        let n0 = before.node_seq();
                        let n1 = self.node_seq();
                        lemma_edge_target_none(n0[node as int].chars@, c);
                        assert forall|k: int, i1: int, i2: int|
                            0 <= k < n1.len() && 0 <= i1 < n1[k].chars@.len() && 0 <= i2 < n1[k].chars@.len() && i1 != i2
                            implies (#[trigger] n1[k].chars@[i1]).0 != (#[trigger] n1[k].chars@[i2]).0 by {
                            if k < len as int {
                                if i1 < n0[k].chars@.len() {
                                    assert(n1[k].chars@[i1] == n0[k].chars@[i1]);
                                }
                                if i2 < n0[k].chars@.len() {
                                    assert(n1[k].chars@[i2] == n0[k].chars@[i2]);
                                }
                            }
                        }
                    }
                    assert(self.wf());
                    assert forall|s: Seq<char>| #[trigger] self.node_at(s) == (if before.node_at(s) is Some {
                        before.node_at(s)
                    } else if s == next {
                        Some(len as int)
                    } else {
                        None::<int>
                    }) by {
                        lemma_grow(&before, self, node as int, c, s);
                    }
                    assert forall|s: Seq<char>| #[trigger] self.has_path(s) <==> (old(self).has_path(s) || s.is_prefix_of(next)) by {
                        lemma_prefix_step(s, text@, i as int);
                        assert(before.has_path(s) <==> (old(self).has_path(s) || s.is_prefix_of(prefix)));
                    }
                    assert(!old(self).has_path(next)) by {
                        assert(!before.has_path(next));
                    }
                    assert forall|k: int| 0 <= k < old(self).node_seq().len() implies {
                        let n0 = old(self).node_seq()[k].chars@;
                        let n1 = (#[trigger] self.node_seq()[k]).chars@;
                        &&& n0.is_prefix_of(n1)
                        &&& n1.len() <= n0.len() + 1
                        &&& n1.len() > n0.len() ==> n1.last().1 >= old(self).node_seq().len() && self.paths@[k].len() < i + 1
                    } by {
                        let n0 = old(self).node_seq()[k].chars@;
                        let b1 = before.node_seq()[k].chars@;
                        if k == node as int {
                            assert(before.paths@[k] == prefix);
                            assert(b1.len() == n0.len());
                            assert(n0 =~= b1);
                        } else {
                            assert(self.node_seq()[k] == before.node_seq()[k]);
                        }
                    }
                    node = len as u32;
                },
            }
            i = i + 1;
        }
        assert(text@.subrange(0, text@.len() as int) =~= text@);
        proof {
            self.lemma_node_at_path(text@);
        }
        let ghost before = *self;
        self.nodes.nodes[node as usize].val.push(val);
        proof {
            assert forall|k: int| 0 <= k < before.node_seq().len() implies (#[trigger] before.node_seq()[k]).chars@
                == self.node_seq()[k].chars@ by {}
            lemma_same_edges_wf(&before, self);
        }
        assert forall|s: Seq<char>| #[trigger] self.node_at(s) == before.node_at(s) by {
            lemma_same_edges(&before, self, s);
        }
        assert forall|s: Seq<char>| #[trigger] self.values_at(s) == if s == text@ {
                old(self).values_at(s).push(val)
            } else {
                old(self).values_at(s)
            } by {
            before.lemma_node_at_path(s);
            old(self).lemma_node_at_path(s);
            if let Some(k) = before.node_at(s) {
                if let Some(k0) = old(self).node_at(s) {
                    assert(k == k0);
                } else {
                    assert(k >= old(self).node_seq().len());
                }
            } else {
                assert(old(self).node_at(s) is None);
            }
        }
        assert forall|k: int| 0 <= k < old(self).node_seq().len() implies (#[trigger] self.node_seq()[k]).val@ == if self.node_at(text@) == Some(k) {
            old(self).node_seq()[k].val@.push(val)
        } else {
            old(self).node_seq()[k].val@
        } by {
            if k != node as int {
                assert(self.node_seq()[k] == before.node_seq()[k]);
            }
        }
        assert forall|k: int| 0 <= k < old(self).node_seq().len() implies old(self).node_seq()[k].chars@.is_prefix_of((#[trigger] self.node_seq()[k]).chars@) by {
            assert(self.node_seq()[k].chars@ == before.node_seq()[k].chars@);
        }
        assert forall|s: Seq<char>| #[trigger] self.has_path(s) <==> (old(self).has_path(s) || s.is_prefix_of(text@)) by {
            assert(before.has_path(s) <==> (old(self).has_path(s) || s.is_prefix_of(text@.subrange(0, text@.len() as int))));
        }
    }
}

/// One more character of `text` extends the prefixes of the part read so far
/// by exactly one string.
pub proof fn lemma_prefix_step(s: Seq<char>, text: Seq<char>, i: int)
    requires
        0 <= i < text.len(),
    ensures
        s.is_prefix_of(text.subrange(0, i + 1)) <==> (s.is_prefix_of(text.subrange(0, i)) || s == text.subrange(0, i + 1)),
{
    if s.is_prefix_of(text.subrange(0, i + 1)) && s.len() <= i {
        assert(s =~= text.subrange(0, i).subrange(0, s.len() as int));
    }
    if s.is_prefix_of(text.subrange(0, i + 1)) && s.len() == i + 1 {
        assert(s =~= text.subrange(0, i + 1));
    }
    if s.is_prefix_of(text.subrange(0, i)) {
        assert(s =~= text.subrange(0, i + 1).subrange(0, s.len() as int));
    }
}

/// Well-formedness depends on the edges and the recorded paths alone.
pub proof fn lemma_same_edges_wf(a: &Trie, b: &Trie)
    requires
        a.wf(),
        a.node_seq().len() == b.node_seq().len(),
        forall|k: int| 0 <= k < a.node_seq().len() ==> (#[trigger] a.node_seq()[k]).chars@ == b.node_seq()[k].chars@,
        a.paths@ == b.paths@,
        a.root == b.root,
    ensures
        b.wf(),
{
    let n0 = a.node_seq();
    let n1 = b.node_seq();
    assert forall|k: int, i: int| 0 <= k < n1.len() && 0 <= i < n1[k].chars@.len() implies {
        let e = #[trigger] n1[k].chars@[i];
        &&& k < e.1 < n1.len()
        &&& b.paths@[e.1 as int] == b.paths@[k].push(e.0)
    } by {
        assert(n1[k].chars@[i] == n0[k].chars@[i]);
    }
    assert forall|k1: int, i1: int, k2: int, i2: int|
        0 <= k1 < n1.len() && 0 <= i1 < n1[k1].chars@.len() && 0 <= k2 < n1.len() && 0 <= i2 < n1[k2].chars@.len()
            && (#[trigger] n1[k1].chars@[i1]).1 == (#[trigger] n1[k2].chars@[i2]).1 implies k1 == k2 && i1 == i2 by {
        assert(n1[k1].chars@[i1] == n0[k1].chars@[i1]);
        assert(n1[k2].chars@[i2] == n0[k2].chars@[i2]);
    }
    assert forall|j: int| 1 <= j < n1.len() implies #[trigger] is_target(n1, j) by {
        assert(is_target(n0, j));
        let (k, i) = choose|k: int, i: int| 0 <= k < n0.len() && 0 <= i < n0[k].chars@.len() && #[trigger] n0[k].chars@[i].1 == j;
        assert(n1[k].chars@[i] == n0[k].chars@[i]);
    }
    assert forall|k: int, i1: int, i2: int|
        0 <= k < n1.len() && 0 <= i1 < n1[k].chars@.len() && 0 <= i2 < n1[k].chars@.len() && i1 != i2
            implies (#[trigger] n1[k].chars@[i1]).0 != (#[trigger] n1[k].chars@[i2]).0 by {
        assert(n1[k].chars@[i1] == n0[k].chars@[i1]);
        assert(n1[k].chars@[i2] == n0[k].chars@[i2]);
    }
}

/// Two tries whose nodes have the same edges lead each string to the same node.
pub proof fn lemma_same_edges(a: &Trie, b: &Trie, s: Seq<char>)
    requires
        a.node_seq().len() == b.node_seq().len(),
        forall|k: int| 0 <= k < a.node_seq().len() ==> (#[trigger] a.node_seq()[k]).chars@ == b.node_seq()[k].chars@,
    ensures
        a.node_at(s) == b.node_at(s),
    decreases s.len(),
{
    if s.len() > 0 {
        lemma_same_edges(a, b, s.drop_last());
    }
}

/// Adding a fresh leaf under node `k` by the character `c` gives a path to
/// exactly one more string, and leaves every other path where it was.
pub proof fn lemma_grow(a: &Trie, b: &Trie, k: int, c: char, s: Seq<char>)
    requires
        a.wf(),
        0 <= k < a.node_seq().len(),
        a.node_at(a.paths@[k]) == Some(k),
        a.node_seq()[k].child(c) is None,
        b.node_seq().len() == a.node_seq().len() + 1,
        b.node_seq()[k].chars@ == a.node_seq()[k].chars@.push((c, a.node_seq().len() as u32)),
        forall|m: int| 0 <= m < a.node_seq().len() && m != k ==> (#[trigger] b.node_seq()[m]).chars@ == a.node_seq()[m].chars@,
        b.node_seq()[a.node_seq().len() as int].chars@.len() == 0,
    ensures
        b.node_at(s) == (if a.node_at(s) is Some {
            a.node_at(s)
        } else if s == a.paths@[k].push(c) {
            Some(a.node_seq().len() as int)
        } else {
            None::<int>
        }),
    decreases s.len(),
{
    let n = a.node_seq().len() as int;
    if s.len() > 0 {
        let s1 = s.drop_last();
        let x = s.last();
        lemma_grow(a, b, k, c, s1);
        a.lemma_node_at_path(s1);
        a.lemma_node_at_path(s);
        assert(s1.push(x) =~= s);
        if let Some(m) = a.node_at(s1) {
            if m == k {
                lemma_edge_target_push(a.node_seq()[k].chars@, (c, n as u32), x);
            }
            if s == a.paths@[k].push(c) {
                assert(s1 =~= a.paths@[k]);
            }
        } else {
            if s == a.paths@[k].push(c) {
                assert(s1 =~= a.paths@[k]);
            }
            if s1 == a.paths@[k].push(c) {
                assert(b.node_seq()[n].child(x) is None);
            }
        }
    }
}

} // verus!
