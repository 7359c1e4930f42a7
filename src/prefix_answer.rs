use vstd::prelude::*;

use vstd::multiset::Multiset;

use crate::codec::{encodable, trie_bytes};
use crate::reader::{breadth_first, query_result};
use crate::round_trip::{
    lemma_breadth_first_succeeds, lemma_descend_encoded, lemma_level_encoded, lemma_walk_node_at, level_children,
    level_values, offsets_of, valid_level,
};
use crate::builder::{copies, occurrences, record_count, record_text, store_values, text_phrases};
use crate::trie::{edge_target, is_target, Trie};

verus! {

broadcast use {vstd::multiset::group_multiset_axioms, vstd::seq_lib::lemma_multiset_commutative};

/// The identifiers stored at node `k`, as a multiset.
pub open spec fn node_ids(t: Trie, k: int) -> Multiset<u32> {
    t.node_seq()[k].val@.to_multiset()
}

/// The children of node `k`, in edge order.
pub open spec fn kids(t: Trie, k: int) -> Seq<int> {
    t.node_seq()[k].chars@.map_values(|e: (char, u32)| e.1 as int)
}

/// The identifiers of node `k` and of the subtrees below its first `i`
/// children.
pub open spec fn unfold_upto(t: Trie, k: int, i: int) -> Multiset<u32>
    decreases t.node_seq().len() - k, i,
{
    if !(0 <= k < t.node_seq().len()) {
        Multiset::empty()
    } else if i <= 0 {
        node_ids(t, k)
    } else {
        let rest = unfold_upto(t, k, i - 1);
        if i <= t.node_seq()[k].chars@.len() {
            let c = t.node_seq()[k].chars@[i - 1].1 as int;
            if k < c < t.node_seq().len() {
                rest.add(unfold_upto(t, c, t.node_seq()[c].chars@.len() as int))
            } else {
                rest
            }
        } else {
            rest
        }
    }
}

/// The identifiers of the subtree below node `k`.
pub open spec fn unfold(t: Trie, k: int) -> Multiset<u32> {
    unfold_upto(t, k, t.node_seq()[k].chars@.len() as int)
}

/// The identifiers of the subtrees below the nodes `s`.
pub open spec fn sum_unfold(t: Trie, s: Seq<int>) -> Multiset<u32>
    decreases s.len(),
{
    if s.len() == 0 {
        Multiset::empty()
    } else {
        sum_unfold(t, s.drop_last()).add(unfold(t, s.last()))
    }
}

/// The identifiers stored at the nodes among the first `m` whose string
/// extends the string `p`.
pub open spec fn stored_below(t: Trie, p: Seq<char>, m: int) -> Multiset<u32>
    decreases m,
{
    if m <= 0 {
        Multiset::empty()
    } else {
        let rest = stored_below(t, p, m - 1);
        if p.is_prefix_of(t.paths@[m - 1]) {
            rest.add(node_ids(t, m - 1))
        } else {
            rest
        }
    }
}

proof fn lemma_sum_unfold_concat(t: Trie, a: Seq<int>, b: Seq<int>)
    ensures
        sum_unfold(t, a + b) =~= sum_unfold(t, a).add(sum_unfold(t, b)),
    decreases b.len(),
{
    if b.len() == 0 {
        assert(a + b =~= a);
    } else {
        assert((a + b).drop_last() =~= a + b.drop_last());
        lemma_sum_unfold_concat(t, a, b.drop_last());
    }
}

proof fn lemma_unfold_kids(t: Trie, k: int, i: int)
    requires
        t.wf(),
        0 <= k < t.node_seq().len(),
        0 <= i <= t.node_seq()[k].chars@.len(),
    ensures
        unfold_upto(t, k, i) =~= node_ids(t, k).add(sum_unfold(t, kids(t, k).subrange(0, i))),
    decreases i,
{
    if i > 0 {
        lemma_unfold_kids(t, k, i - 1);
        let e = t.node_seq()[k].chars@[i - 1];
        assert(k < e.1 < t.node_seq().len());
        assert(kids(t, k).subrange(0, i).drop_last() =~= kids(t, k).subrange(0, i - 1));
    } else {
        assert(kids(t, k).subrange(0, 0) =~= Seq::<int>::empty());
    }
}

/// One level of the walk: the identifiers of a level and the subtrees of
/// its children make up the subtrees of the level.
proof fn lemma_level_unfold(t: Trie, idx: Seq<int>)
    requires
        t.wf(),
        forall|i: int| 0 <= i < idx.len() ==> 0 <= #[trigger] idx[i] < t.node_seq().len(),
    ensures
        level_values(t.node_seq(), idx).to_multiset().add(sum_unfold(t, level_children(t.node_seq(), idx)))
            =~= sum_unfold(t, idx),
    decreases idx.len(),
{
    let ns = t.node_seq();
    if idx.len() > 0 {
        let k = idx.last();
        assert(0 <= k < ns.len());
        lemma_level_unfold(t, idx.drop_last());
        lemma_sum_unfold_concat(t, level_children(ns, idx.drop_last()), kids(t, k));
        lemma_unfold_kids(t, k, ns[k].chars@.len() as int);
        assert(kids(t, k).subrange(0, ns[k].chars@.len() as int) =~= kids(t, k));
        assert(level_children(ns, idx) == level_children(ns, idx.drop_last()) + kids(t, k));
        let lv0 = level_values(ns, idx.drop_last());
        assert(level_values(ns, idx) == lv0 + ns[k].val@);
        assert((lv0 + ns[k].val@).to_multiset() =~= lv0.to_multiset().add(node_ids(t, k)));
        assert(sum_unfold(t, idx) == sum_unfold(t, idx.drop_last()).add(unfold(t, k)));
        assert(unfold(t, k) =~= node_ids(t, k).add(sum_unfold(t, kids(t, k))));
    } else {
        let lv = level_values(ns, idx);
        assert(lv.len() == 0);
        lv.to_multiset_ensures();
        assert forall|x: u32| lv.to_multiset().count(x) == 0 by {
            assert(!lv.contains(x));
        }
        assert(lv.to_multiset() =~= Multiset::empty());
    }
}

/// The breadth-first walk from the nodes `idx` collects exactly the
/// identifiers of their subtrees.
proof fn lemma_breadth_first_exact(t: Trie, idx: Seq<int>, depth: int)
    requires
        t.wf(),
        encodable(t),
        valid_level(t, idx, depth),
        0 <= depth,
    ensures
        breadth_first(trie_bytes(t), offsets_of(t.node_seq(), idx), depth) matches Some(r)
            && r.to_multiset() =~= sum_unfold(t, idx),
    decreases trie_bytes(t).len() - depth,
{
    let ns = t.node_seq();
    lemma_breadth_first_succeeds(t, idx, depth);
    lemma_level_encoded(t, idx, depth);
    if idx.len() > 0 {
        lemma_breadth_first_succeeds(t, level_children(ns, idx), depth + 1);
        lemma_breadth_first_exact(t, level_children(ns, idx), depth + 1);
        lemma_level_unfold(t, idx);
    } else {
        assert(sum_unfold(t, idx) =~= Multiset::empty());
    }
}

/// The first edge labelled `c` is the one edge labelled `c`.
proof fn lemma_labelled_edge(edges: Seq<(char, u32)>, e: int)
    requires
        0 <= e < edges.len(),
        forall|i1: int, i2: int|
            0 <= i1 < edges.len() && 0 <= i2 < edges.len() && i1 != i2 ==> (#[trigger] edges[i1]).0 != (#[trigger] edges[i2]).0,
    ensures
        edge_target(edges, edges[e].0) == Some(edges[e].1),
    decreases edges.len(),
{
    if e > 0 {
        assert(edges[0].0 != edges[e].0);
        assert forall|i1: int, i2: int|
            0 <= i1 < edges.drop_first().len() && 0 <= i2 < edges.drop_first().len() && i1 != i2 implies (
            #[trigger] edges.drop_first()[i1]).0 != (#[trigger] edges.drop_first()[i2]).0 by {
            assert(edges.drop_first()[i1] == edges[i1 + 1]);
            assert(edges.drop_first()[i2] == edges[i2 + 1]);
        }
        lemma_labelled_edge(edges.drop_first(), e - 1);
    }
}

/// Every node is reached by its recorded string.
pub proof fn lemma_reachable(t: Trie, k: int)
    requires
        t.wf(),
        0 <= k < t.node_seq().len(),
    ensures
        t.node_at(t.paths@[k]) == Some(k),
    decreases k,
{
    let ns = t.node_seq();
    if k > 0 {
        assert(is_target(ns, k));
        let (m, e) = choose|m: int, e: int| 0 <= m < ns.len() && 0 <= e < ns[m].chars@.len() && #[trigger] ns[m].chars@[e].1 == k;
        let x = ns[m].chars@[e];
        assert(m < x.1);
        lemma_reachable(t, m);
        let s = t.paths@[k];
        assert(s == t.paths@[m].push(x.0));
        assert(s.drop_last() =~= t.paths@[m]);
        assert(s.last() == x.0);
        assert forall|i1: int, i2: int|
            0 <= i1 < ns[m].chars@.len() && 0 <= i2 < ns[m].chars@.len() && i1 != i2 implies (
            #[trigger] ns[m].chars@[i1]).0 != (#[trigger] ns[m].chars@[i2]).0 by {}
        lemma_labelled_edge(ns[m].chars@, e);
    } else {
        assert(t.paths@[0].len() == 0);
    }
}

/// A string that leads to a node has paths for all its prefixes.
proof fn lemma_prefix_has_path(t: Trie, s: Seq<char>, j: int)
    requires
        t.node_at(s) is Some,
        0 <= j <= s.len(),
    ensures
        t.node_at(s.subrange(0, j)) is Some,
    decreases s.len(),
{
    if j < s.len() {
        lemma_prefix_has_path(t, s.drop_last(), j);
        assert(s.drop_last().subrange(0, j) =~= s.subrange(0, j));
    } else {
        assert(s.subrange(0, j) =~= s);
    }
}

/// The sum over children `cs` of the identifiers stored below each child.
pub open spec fn sum_below(t: Trie, cs: Seq<int>, m: int) -> Multiset<u32>
    decreases cs.len(),
{
    if cs.len() == 0 {
        Multiset::empty()
    } else {
        sum_below(t, cs.drop_last(), m).add(stored_below(t, t.paths@[cs.last()], m))
    }
}

/// Adding node `x` to the count adds its identifiers once per child whose
/// string `x` extends.
proof fn lemma_sum_below_step(t: Trie, cs: Seq<int>, m: int)
    requires
        0 <= m,
    ensures
        (forall|i: int| 0 <= i < cs.len() ==> !(#[trigger] t.paths@[cs[i]]).is_prefix_of(t.paths@[m])) ==> sum_below(
            t,
            cs,
            m + 1,
        ) =~= sum_below(t, cs, m),
        forall|i: int|
            0 <= i < cs.len() && (#[trigger] t.paths@[cs[i]]).is_prefix_of(t.paths@[m]) && (forall|j: int|
                0 <= j < cs.len() && j != i ==> !(#[trigger] t.paths@[cs[j]]).is_prefix_of(t.paths@[m])) ==> sum_below(
                t,
                cs,
                m + 1,
            ) =~= sum_below(t, cs, m).add(node_ids(t, m)),
    decreases cs.len(),
{
    if cs.len() > 0 {
        let d = cs.drop_last();
        let l = cs.last();
        lemma_sum_below_step(t, d, m);
        assert forall|i: int| 0 <= i < d.len() implies #[trigger] d[i] == cs[i] by {}
        assert forall|i: int|
            0 <= i < cs.len() && (#[trigger] t.paths@[cs[i]]).is_prefix_of(t.paths@[m]) && (forall|j: int|
                0 <= j < cs.len() && j != i ==> !(#[trigger] t.paths@[cs[j]]).is_prefix_of(t.paths@[m])) implies sum_below(
            t,
            cs,
            m + 1,
        ) =~= sum_below(t, cs, m).add(node_ids(t, m)) by {
            if i == cs.len() - 1 {
                assert forall|j: int| 0 <= j < d.len() implies !(#[trigger] t.paths@[d[j]]).is_prefix_of(t.paths@[m]) by {
                    assert(!t.paths@[cs[j]].is_prefix_of(t.paths@[m]));
                }
            } else {
                assert(t.paths@[d[i]].is_prefix_of(t.paths@[m]));
                assert forall|j: int| 0 <= j < d.len() && j != i implies !(#[trigger] t.paths@[d[j]]).is_prefix_of(
                    t.paths@[m],
                ) by {
                    assert(!t.paths@[cs[j]].is_prefix_of(t.paths@[m]));
                }
                assert(!t.paths@[cs[cs.len() - 1]].is_prefix_of(t.paths@[m]));
            }
        }
    }
}

/// The identifiers stored below node `k` are its own and those stored
/// below each of its children.
proof fn lemma_stored_split(t: Trie, k: int, m: int)
    requires
        t.wf(),
        0 <= k < t.node_seq().len(),
        0 <= m <= t.node_seq().len(),
    ensures
        stored_below(t, t.paths@[k], m) =~= (if k < m {
            node_ids(t, k)
        } else {
            Multiset::empty()
        }).add(sum_below(t, kids(t, k), m)),
    decreases m,
{
    let ns = t.node_seq();
    let cs = kids(t, k);
    let pk = t.paths@[k];
    if m == 0 {
        lemma_sum_below_zero(t, cs);
    } else {
        let x = m - 1;
        lemma_stored_split(t, k, x);
        lemma_sum_below_step(t, cs, x);
        lemma_reachable(t, x);
        lemma_reachable(t, k);
        let px = t.paths@[x];
        // A child's string is `pk` and its edge's label.
        assert forall|i: int| 0 <= i < cs.len() implies t.paths@[#[trigger] cs[i]] == pk.push(ns[k].chars@[i].0) && k
            < cs[i] < ns.len() by {
            let e = ns[k].chars@[i];
            assert(cs[i] == e.1 as int);
        }
        // At most one child's string is a prefix of `px`.
        assert forall|i: int, j: int|
            0 <= i < cs.len() && 0 <= j < cs.len() && i != j && (#[trigger] t.paths@[cs[i]]).is_prefix_of(px) implies !(
            #[trigger] t.paths@[cs[j]]).is_prefix_of(px) by {
            let a = t.paths@[cs[i]];
            let b = t.paths@[cs[j]];
            if b.is_prefix_of(px) {
                assert(a[pk.len() as int] == px[pk.len() as int]);
                assert(b[pk.len() as int] == px[pk.len() as int]);
                assert(ns[k].chars@[i].0 != ns[k].chars@[j].0);
            }
        }
        if x == k {
            assert forall|i: int| 0 <= i < cs.len() implies !(#[trigger] t.paths@[cs[i]]).is_prefix_of(px) by {}
            assert(pk.is_prefix_of(px));
        } else if pk.is_prefix_of(px) {
            // `px` is longer than `pk`: equal strings lead to the same node.
            if px.len() == pk.len() {
                assert(px =~= pk);
            }
            let c = px[pk.len() as int];
            let q = px.subrange(0, pk.len() + 1int);
            lemma_prefix_has_path(t, px, pk.len() + 1int);
            assert(q.drop_last() =~= pk);
            assert(q.last() == c);
            let j = ns[k].child(c)->0;
            crate::trie::lemma_edge_target_member(ns[k].chars@, c);
            let i = choose|i: int| 0 <= i < ns[k].chars@.len() && #[trigger] ns[k].chars@[i] == (c, j);
            assert(cs[i] == j as int);
            assert(t.paths@[cs[i]] =~= q);
            assert(t.paths@[cs[i]].is_prefix_of(px));
        } else {
            assert forall|i: int| 0 <= i < cs.len() implies !(#[trigger] t.paths@[cs[i]]).is_prefix_of(px) by {
                if t.paths@[cs[i]].is_prefix_of(px) {
                    assert(pk.is_prefix_of(px));
                }
            }
        }
    }
}

proof fn lemma_sum_below_zero(t: Trie, cs: Seq<int>)
    ensures
        sum_below(t, cs, 0) =~= Multiset::empty(),
    decreases cs.len(),
{
    if cs.len() > 0 {
        lemma_sum_below_zero(t, cs.drop_last());
    }
}

/// Summing over children agrees when each child's terms agree.
proof fn lemma_sum_unfold_below(t: Trie, cs: Seq<int>)
    requires
        t.wf(),
        forall|i: int| 0 <= i < cs.len() ==> unfold(t, #[trigger] cs[i]) == stored_below(
            t,
            t.paths@[cs[i]],
            t.node_seq().len() as int,
        ),
    ensures
        sum_unfold(t, cs) == sum_below(t, cs, t.node_seq().len() as int),
    decreases cs.len(),
{
    if cs.len() > 0 {
        let d = cs.drop_last();
        assert forall|i: int| 0 <= i < d.len() implies unfold(t, #[trigger] d[i]) == stored_below(
            t,
            t.paths@[d[i]],
            t.node_seq().len() as int,
        ) by {
            assert(d[i] == cs[i]);
        }
        lemma_sum_unfold_below(t, d);
        assert(unfold(t, cs.last()) == stored_below(t, t.paths@[cs.last()], t.node_seq().len() as int));
    }
}

/// The subtree below node `k` holds exactly the identifiers stored at the
/// nodes whose string extends that of `k`.
pub proof fn lemma_unfold_is_stored_below(t: Trie, k: int)
    requires
        t.wf(),
        0 <= k < t.node_seq().len(),
    ensures
        unfold(t, k) == stored_below(t, t.paths@[k], t.node_seq().len() as int),
    decreases t.node_seq().len() - k,
{
    let ns = t.node_seq();
    let cs = kids(t, k);
    assert forall|i: int| 0 <= i < cs.len() implies unfold(t, #[trigger] cs[i]) == stored_below(
        t,
        t.paths@[cs[i]],
        ns.len() as int,
    ) by {
        let e = ns[k].chars@[i];
        assert(cs[i] == e.1 as int);
        assert(k < e.1 < ns.len());
        lemma_unfold_is_stored_below(t, cs[i]);
    }
    lemma_sum_unfold_below(t, cs);
    lemma_unfold_kids(t, k, ns[k].chars@.len() as int);
    assert(cs.subrange(0, ns[k].chars@.len() as int) =~= cs);
    lemma_stored_split(t, k, ns.len() as int);
}

/// A prefix query for a non-empty `p` on the file of a well-formed trie
/// answers, as a multiset, exactly the identifiers stored under the strings
/// that extend `p`: one node per such string. A `p` without a path gives no
/// result.
pub proof fn lemma_prefix_query_exact(t: Trie, p: Seq<char>)
    requires
        t.wf(),
        encodable(t),
        p.len() > 0,
    ensures
        t.has_path(p) ==> (query_result(trie_bytes(t), p, true) matches Some(Some(r)) && r.to_multiset()
            == stored_below(t, p, t.node_seq().len() as int)),
        !t.has_path(p) ==> query_result(trie_bytes(t), p, true) == Some(None::<Seq<u32>>),
{
    let ns = t.node_seq();
    lemma_walk_node_at(t, p);
    lemma_descend_encoded(t, 0, p);
    if let Some(k) = t.node_at(p) {
        t.lemma_node_at_path(p);
        assert(offsets_of(ns, seq![k]) =~= seq![crate::codec::offset_of(ns, k) as u32]);
        crate::codec::lemma_offset_monotone(ns, k, ns.len() as int);
        assert(valid_level(t, seq![k], 0));
        lemma_breadth_first_exact(t, seq![k], 0);
        assert(seq![k].drop_last() =~= Seq::<int>::empty());
        assert(seq![k].last() == k);
        assert(sum_unfold(t, Seq::<int>::empty()) == Multiset::<u32>::empty());
        assert(sum_unfold(t, seq![k]) =~= unfold(t, k));
        lemma_unfold_is_stored_below(t, k);
    }
}

proof fn lemma_empty_ms()
    ensures
        Seq::<u32>::empty().to_multiset() =~= Multiset::empty(),
{
    let e = Seq::<u32>::empty();
    e.to_multiset_ensures();
    assert forall|x: u32| e.to_multiset().count(x) == 0 by {
        assert(!e.contains(x));
    }
}

/// What the string `s` contributes to a prefix answer for `p`.
pub open spec fn share(t: Trie, p: Seq<char>, s: Seq<char>) -> Multiset<u32> {
    if p.is_prefix_of(s) {
        t.values_at(s).to_multiset()
    } else {
        Multiset::empty()
    }
}

/// The contributions of the strings `ss`.
pub open spec fn gather(t: Trie, p: Seq<char>, ss: Seq<Seq<char>>) -> Multiset<u32>
    decreases ss.len(),
{
    if ss.len() == 0 {
        Multiset::empty()
    } else {
        gather(t, p, ss.drop_last()).add(share(t, p, ss.last()))
    }
}

/// The recorded strings of the nodes.
pub open spec fn node_strings(t: Trie) -> Seq<Seq<char>> {
    Seq::new(t.node_seq().len(), |k: int| t.paths@[k])
}

proof fn lemma_gather_remove(t: Trie, p: Seq<char>, ss: Seq<Seq<char>>, i: int)
    requires
        0 <= i < ss.len(),
    ensures
        gather(t, p, ss) =~= gather(t, p, ss.remove(i)).add(share(t, p, ss[i])),
    decreases ss.len(),
{
    if i == ss.len() - 1 {
        assert(ss.remove(i) =~= ss.drop_last());
    } else {
        assert(ss.remove(i).drop_last() =~= ss.drop_last().remove(i));
        assert(ss.remove(i).last() == ss.last());
        lemma_gather_remove(t, p, ss.drop_last(), i);
    }
}

proof fn lemma_gather_empty(t: Trie, p: Seq<char>, ss: Seq<Seq<char>>)
    requires
        forall|i: int| 0 <= i < ss.len() ==> share(t, p, #[trigger] ss[i]) == Multiset::<u32>::empty(),
    ensures
        gather(t, p, ss) =~= Multiset::empty(),
    decreases ss.len(),
{
    if ss.len() > 0 {
        assert(ss.drop_last().len() < ss.len());
        assert forall|i: int| 0 <= i < ss.drop_last().len() implies share(t, p, #[trigger] ss.drop_last()[i])
            == Multiset::<u32>::empty() by {
            assert(ss.drop_last()[i] == ss[i]);
        }
        lemma_gather_empty(t, p, ss.drop_last());
        assert(share(t, p, ss[ss.len() - 1]) == Multiset::<u32>::empty());
    }
}

/// Two lists of distinct strings that hold the same contributing strings
/// gather the same, whatever their order and whatever else they hold.
proof fn lemma_gather_same(t1: Trie, t2: Trie, p: Seq<char>, a: Seq<Seq<char>>, b: Seq<Seq<char>>)
    requires
        a.no_duplicates(),
        b.no_duplicates(),
        forall|s: Seq<char>| #[trigger] share(t1, p, s) == share(t2, p, s),
        forall|s: Seq<char>| share(t1, p, s) != Multiset::<u32>::empty() ==> (a.contains(s) <==> b.contains(s)),
    ensures
        gather(t1, p, a) == gather(t2, p, b),
    decreases a.len() + b.len(),
{
    if a.len() == 0 {
        assert forall|i: int| 0 <= i < b.len() implies share(t2, p, #[trigger] b[i]) == Multiset::<u32>::empty() by {
            assert(b.contains(b[i]));
            if share(t1, p, b[i]) != Multiset::<u32>::empty() {
                assert(!a.contains(b[i]));
            }
        }
        lemma_gather_empty(t2, p, b);
    } else {
        let x = a.last();
        let a1 = a.drop_last();
        assert(a1.no_duplicates()) by {
            assert forall|i: int, j: int| 0 <= i < a1.len() && 0 <= j < a1.len() && i != j implies a1[i] != a1[j] by {
                assert(a1[i] == a[i] && a1[j] == a[j]);
            }
        }
        assert forall|s: Seq<char>| a.contains(s) <==> (a1.contains(s) || s == x) by {
            if a.contains(s) {
                let i = choose|i: int| 0 <= i < a.len() && a[i] == s;
                if i < a.len() - 1 {
                    assert(a1[i] == s);
                }
            }
            if a1.contains(s) {
                let i = choose|i: int| 0 <= i < a1.len() && a1[i] == s;
                assert(a[i] == s);
            }
            if s == x {
                assert(a[a.len() - 1] == s);
            }
        }
        assert(!a1.contains(x)) by {
            if a1.contains(x) {
                let i = choose|i: int| 0 <= i < a1.len() && a1[i] == x;
                assert(a[i] == a[a.len() - 1]);
            }
        }
        if share(t1, p, x) == Multiset::<u32>::empty() {
            lemma_gather_same(t1, t2, p, a1, b);
        } else {
            assert(a.contains(x));
            let i = choose|i: int| 0 <= i < b.len() && b[i] == x;
            let b1 = b.remove(i);
            lemma_gather_remove(t2, p, b, i);
            assert(b1.no_duplicates()) by {
                assert forall|u: int, v: int| 0 <= u < b1.len() && 0 <= v < b1.len() && u != v implies b1[u] != b1[v] by {
                    let u0 = if u < i { u } else { u + 1 };
                    let v0 = if v < i { v } else { v + 1 };
                    assert(b1[u] == b[u0] && b1[v] == b[v0]);
                }
            }
            assert forall|s: Seq<char>| b.contains(s) <==> (b1.contains(s) || s == x) by {
                if b.contains(s) {
                    let j = choose|j: int| 0 <= j < b.len() && b[j] == s;
                    if j < i {
                        assert(b1[j] == s);
                    } else if j > i {
                        assert(b1[j - 1] == s);
                    }
                }
                if b1.contains(s) {
                    let j = choose|j: int| 0 <= j < b1.len() && b1[j] == s;
                    if j < i {
                        assert(b[j] == s);
                    } else {
                        assert(b[j + 1] == s);
                    }
                }
            }
            assert(!b1.contains(x)) by {
                if b1.contains(x) {
                    let j = choose|j: int| 0 <= j < b1.len() && b1[j] == x;
                    let j0 = if j < i { j } else { j + 1 };
                    assert(b[j0] == b1[j]);
                }
            }
            lemma_gather_same(t1, t2, p, a1, b1);
        }
    }
}

/// The ids stored below `p`, counted node by node, are the contributions
/// of the nodes' strings.
proof fn lemma_stored_is_gather(t: Trie, p: Seq<char>, m: int)
    requires
        t.wf(),
        0 <= m <= t.node_seq().len(),
    ensures
        stored_below(t, p, m) == gather(t, p, node_strings(t).subrange(0, m)),
    decreases m,
{
    if m > 0 {
        lemma_stored_is_gather(t, p, m - 1);
        assert(node_strings(t).subrange(0, m).drop_last() =~= node_strings(t).subrange(0, m - 1));
        lemma_reachable(t, m - 1);
        assert(t.values_at(t.paths@[m - 1]) == t.node_seq()[m - 1].val@);
    } else {
        assert(node_strings(t).subrange(0, 0) =~= Seq::<Seq<char>>::empty());
    }
}

/// The recorded strings are distinct, and they are the strings with a path.
proof fn lemma_node_strings(t: Trie)
    requires
        t.wf(),
    ensures
        node_strings(t).no_duplicates(),
        forall|s: Seq<char>| t.has_path(s) <==> node_strings(t).contains(s),
{
    let ss = node_strings(t);
    assert forall|i: int, j: int| 0 <= i < ss.len() && 0 <= j < ss.len() && i != j implies ss[i] != ss[j] by {
        lemma_reachable(t, i);
        lemma_reachable(t, j);
    }
    assert forall|s: Seq<char>| t.has_path(s) <==> ss.contains(s) by {
        t.lemma_node_at_path(s);
        if let Some(k) = t.node_at(s) {
            assert(ss[k] == s);
        }
        if ss.contains(s) {
            let k = choose|k: int| 0 <= k < ss.len() && ss[k] == s;
            lemma_reachable(t, k);
        }
    }
}

/// The multiset that a prefix query for `p` answers on the file of `t`,
/// as the contributions of the strings of `t`.
proof fn lemma_prefix_answer_gather(t: Trie, p: Seq<char>)
    requires
        t.wf(),
        encodable(t),
        p.len() > 0,
    ensures
        crate::round_trip::answer_ids(query_result(trie_bytes(t), p, true)).to_multiset() == gather(t, p, node_strings(t)),
{
    let n = t.node_seq().len() as int;
    lemma_prefix_query_exact(t, p);
    lemma_stored_is_gather(t, p, n);
    assert(node_strings(t).subrange(0, n) =~= node_strings(t));
    if !t.has_path(p) {
        let ss = node_strings(t);
        assert forall|i: int| 0 <= i < ss.len() implies share(t, p, #[trigger] ss[i]) == Multiset::<u32>::empty() by {
            if p.is_prefix_of(ss[i]) {
                lemma_reachable(t, i);
                lemma_prefix_has_path(t, ss[i], p.len() as int);
                assert(ss[i].subrange(0, p.len() as int) =~= p);
            }
        }
        lemma_gather_empty(t, p, ss);
        lemma_empty_ms();
    }
}

/// Two well-formed tries that store the same identifiers under every string
/// (as two builds of one field over one record store do, run in whatever
/// order or task) answer every prefix query with the same identifiers.
pub proof fn lemma_prefix_answers_agree(t1: Trie, t2: Trie, p: Seq<char>)
    requires
        t1.wf(),
        t2.wf(),
        encodable(t1),
        encodable(t2),
        p.len() > 0,
        forall|s: Seq<char>| #[trigger] t1.values_at(s) == t2.values_at(s),
    ensures
        crate::round_trip::answer_ids(query_result(trie_bytes(t1), p, true)).to_multiset()
            == crate::round_trip::answer_ids(query_result(trie_bytes(t2), p, true)).to_multiset(),
{
    lemma_prefix_answer_gather(t1, p);
    lemma_prefix_answer_gather(t2, p);
    lemma_node_strings(t1);
    lemma_node_strings(t2);
    assert forall|s: Seq<char>| #[trigger] share(t1, p, s) == share(t2, p, s) by {
        assert(t1.values_at(s) == t2.values_at(s));
    }
    assert forall|s: Seq<char>| share(t1, p, s) != Multiset::<u32>::empty() implies (node_strings(t1).contains(s)
        <==> node_strings(t2).contains(s)) by {
        lemma_empty_ms();
        if !t1.has_path(s) {
            assert(t1.values_at(s) == Seq::<u32>::empty());
        }
        if !t2.has_path(s) {
            assert(t2.values_at(s) == Seq::<u32>::empty());
            assert(t1.values_at(s) == t2.values_at(s));
        }
    }
    lemma_gather_same(t1, t2, p, node_strings(t1), node_strings(t2));
}

/// Two indices of one field built from one record store (as
/// `new_from_database` builds them, in whatever order or task) answer every
/// prefix query with the same identifiers.
pub proof fn lemma_rebuilds_agree_by_prefix(store: Seq<u8>, field: int, t1: Trie, t2: Trie, p: Seq<char>)
    requires
        t1.wf(),
        t2.wf(),
        encodable(t1),
        encodable(t2),
        p.len() > 0,
        forall|q: Seq<char>| #[trigger] t1.values_at(q) == store_values(store, field, q, record_count(store)),
        forall|q: Seq<char>| #[trigger] t2.values_at(q) == store_values(store, field, q, record_count(store)),
    ensures
        crate::round_trip::answer_ids(query_result(trie_bytes(t1), p, true)).to_multiset()
            == crate::round_trip::answer_ids(query_result(trie_bytes(t2), p, true)).to_multiset(),
{
    assert forall|s: Seq<char>| #[trigger] t1.values_at(s) == t2.values_at(s) by {
        assert(t1.values_at(s) == store_values(store, field, s, record_count(store)));
    }
    lemma_prefix_answers_agree(t1, t2, p);
}

proof fn lemma_store_values_range(store: Seq<u8>, field: int, s: Seq<char>, n: int)
    requires
        n < u32::MAX,
    ensures
        forall|i: int| 0 <= i < store_values(store, field, s, n).len() ==> 1 <= #[trigger] store_values(store, field, s, n)[i] <= n,
    decreases n,
{
    if n > 0 {
        lemma_store_values_range(store, field, s, n - 1);
        let a = store_values(store, field, s, n - 1);
        let b = copies(n as u32, occurrences(text_phrases(record_text(store, field, n - 1)), s));
        assert forall|i: int| 0 <= i < (a + b).len() implies 1 <= #[trigger] (a + b)[i] <= n by {
            if i >= a.len() {
                assert((a + b)[i] == b[i - a.len()]);
            }
        }
    }
}

/// Every identifier that an index built from a store of `n` records holds,
/// at any node, lies in `1..=n`.
pub proof fn lemma_ids_in_range(store: Seq<u8>, field: int, t: Trie, k: int, i: int)
    requires
        t.wf(),
        record_count(store) < u32::MAX,
        forall|q: Seq<char>| #[trigger] t.values_at(q) == store_values(store, field, q, record_count(store)),
        0 <= k < t.node_seq().len(),
        0 <= i < t.node_seq()[k].val@.len(),
    ensures
        1 <= t.node_seq()[k].val@[i] <= record_count(store),
{
    lemma_reachable(t, k);
    assert(t.values_at(t.paths@[k]) == t.node_seq()[k].val@);
    lemma_store_values_range(store, field, t.paths@[k], record_count(store));
}

} // verus!
