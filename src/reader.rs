use vstd::prelude::*;

use crate::codec::{read_u24, read_u32};
use crate::text::chars_of;

verus! {

/// What a node of a serialized trie holds: its identifiers, and per child
/// the character code, arena position and byte offset.
pub struct NodeImage {
    pub values: Seq<u32>,
    pub edges: Seq<(u32, u32, u32)>,
}

/// The `n` identifiers stored from byte `start` on.
pub open spec fn value_entries(b: Seq<u8>, start: int, n: nat) -> Seq<u32> {
    Seq::new(n, |i: int| read_u32(b, start + 4 * i))
}

/// The `m` child entries stored from byte `start` on.
pub open spec fn edge_entries(b: Seq<u8>, start: int, m: nat) -> Seq<(u32, u32, u32)> {
    Seq::new(m, |i: int| (read_u32(b, start + 12 * i), read_u32(b, start + 12 * i + 4), read_u32(b, start + 12 * i + 8)))
}

/// The node stored at byte offset `off` of `b`, or `None` where the bytes do
/// not hold a whole node, or where a child entry points at or before `off`
/// (children are always written after their parent).
pub open spec fn parse_node(b: Seq<u8>, off: int) -> Option<NodeImage> {
    if 0 <= off && off + 3 <= b.len() {
        let n = read_u24(b, off) as int;
        let cpos = off + 3 + 4 * n;
        if cpos + 1 <= b.len() {
            let m = b[cpos] as int;
            if cpos + 1 + 12 * m <= b.len() {
                let edges = edge_entries(b, cpos + 1, m as nat);
                if forall|i: int| 0 <= i < m ==> (#[trigger] edges[i]).2 > off {
                    Some(NodeImage { values: value_entries(b, off + 3, n as nat), edges })
                } else {
                    None
                }
            } else {
                None
            }
        } else {
            None
        }
    } else {
        None
    }
}

/// The byte offset of the first child entry with character code `code`.
pub open spec fn first_edge(edges: Seq<(u32, u32, u32)>, code: u32) -> Option<u32>
    decreases edges.len(),
{
    if edges.len() == 0 {
        None
    } else if edges[0].0 == code {
        Some(edges[0].2)
    } else {
        first_edge(edges.drop_first(), code)
    }
}

/// Follows `q` from the node at `off`: `Some(Some(a))` is the offset of the
/// node reached, `Some(None)` that some character has no child entry, and
/// `None` that a node on the way is malformed.
pub open spec fn descend(b: Seq<u8>, off: int, q: Seq<char>) -> Option<Option<u32>>
    decreases q.len(),
{
    if q.len() == 0 {
        Some(Some(off as u32))
    } else {
        match parse_node(b, off) {
            None => None,
            Some(img) => match first_edge(img.edges, q[0] as u32) {
                None => Some(None),
                Some(a) => descend(b, a as int, q.drop_first()),
            },
        }
    }
}

/// The identifiers and the child offsets of the nodes at the offsets `f`, in
/// order; `None` if one of them is malformed.
pub open spec fn level(b: Seq<u8>, f: Seq<u32>) -> Option<(Seq<u32>, Seq<u32>)>
    decreases f.len(),
{
    if f.len() == 0 {
        Some((Seq::empty(), Seq::empty()))
    } else {
        match (level(b, f.drop_last()), parse_node(b, f.last() as int)) {
            (Some((v, nx)), Some(img)) => Some(
                (v + img.values, nx + img.edges.map_values(|e: (u32, u32, u32)| e.2)),
            ),
            _ => None,
        }
    }
}

/// Breadth-first collection of the identifiers below the nodes at `f`, one
/// level after another; `depth` counts the levels already taken.
pub open spec fn breadth_first(b: Seq<u8>, f: Seq<u32>, depth: int) -> Option<Seq<u32>>
    decreases b.len() - depth,
{
    if f.len() == 0 {
        Some(Seq::empty())
    } else if depth >= b.len() {
        None
    } else {
        match level(b, f) {
            None => None,
            Some((v, nx)) => match breadth_first(b, nx, depth + 1) {
                Some(r) => Some(v + r),
                None => None,
            },
        }
    }
}

/// The answer to a query for `q` on the serialized trie `b`: `None` where
/// the file is malformed along the way, `Some(None)` where `q` is empty or
/// has no path, else the identifiers stored under `q` (exact query) or in
/// the whole subtree below it, breadth first (prefix query).
pub open spec fn query_result(b: Seq<u8>, q: Seq<char>, prefix_search: bool) -> Option<Option<Seq<u32>>> {
    if q.len() == 0 {
        Some(None)
    } else {
        match descend(b, 0, q) {
            None => None,
            Some(None) => Some(None),
            Some(Some(a)) => if prefix_search {
                match breadth_first(b, seq![a], 0) {
                    None => None,
                    Some(r) => Some(Some(r)),
                }
            } else {
                match parse_node(b, a as int) {
                    None => None,
                    Some(img) => Some(Some(img.values)),
                }
            },
        }
    }
}

/// A serialized trie that cannot be read.
#[derive(Debug, PartialEq, Eq, Structural)]
pub enum LookupError {
    Malformed,
}

/// A node read from a serialized trie.
pub struct NodeRead {
    pub values: Vec<u32>,
    pub edges: Vec<(u32, u32, u32)>,
}

impl NodeRead {
    /// What the node read holds.
    pub open spec fn image(&self) -> NodeImage {
        NodeImage { values: self.values@, edges: self.edges@ }
    }
}

fn get_u32(b: &[u8], at: usize) -> (r: u32)
    requires
        at + 4 <= b@.len(),
    ensures
        r == read_u32(b@, at as int),
{
    (b[at] as u32) | ((b[at + 1] as u32) << 8u32) | ((b[at + 2] as u32) << 16u32) | ((b[at + 3] as u32) << 24u32)
}

fn get_u24(b: &[u8], at: usize) -> (r: u32)
    requires
        at + 3 <= b@.len(),
    ensures
        r == read_u24(b@, at as int),
        r <= 0xff_ffff,
{
    let r = (b[at] as u32) | ((b[at + 1] as u32) << 8u32) | ((b[at + 2] as u32) << 16u32);
    let (x0, x1, x2) = (b[at], b[at + 1], b[at + 2]);
    assert((x0 as u32) | ((x1 as u32) << 8u32) | ((x2 as u32) << 16u32) <= 0xff_ffff) by (bit_vector);
    r
}

/// Reads the node stored at byte offset `off`.
pub fn read_node(b: &[u8], off: usize) -> (r: Option<NodeRead>)
    ensures
        match r {
            None => parse_node(b@, off as int) is None,
            Some(n) => parse_node(b@, off as int) == Some(n.image()),
        },
{
    let len = b.len();
    if off > len || len - off < 3 {
        return None;
    }
    let n = get_u24(b, off) as usize;
    let pos = off + 3;
    if len - pos < 4 * n + 1 {
        return None;
    }
    let mut values: Vec<u32> = Vec::new();
    let mut i: usize = 0;
    while i < n
        invariant
            len == b@.len(),
            pos == off + 3,
            pos + 4 * n + 1 <= len,
            0 <= i <= n,
            values@ =~= value_entries(b@, off + 3, i as nat),
        decreases n - i,
    {
        values.push(get_u32(b, pos + 4 * i));
        i = i + 1;
    }
    let cpos = pos + 4 * n;
    let m = b[cpos] as usize;
    if len - (cpos + 1) < 12 * m {
        return None;
    }
    let mut edges: Vec<(u32, u32, u32)> = Vec::new();
    let mut i: usize = 0;
    while i < m
        invariant
            len == b@.len(),
            off + 3 <= len,
            n == read_u24(b@, off as int),
            cpos == off + 3 + 4 * n,
            m == b@[cpos as int],
            cpos + 1 + 12 * m <= len,
            0 <= i <= m,
            edges@ =~= edge_entries(b@, cpos + 1, i as nat),
            forall|j: int| 0 <= j < i ==> (#[trigger] edges@[j]).2 > off,
        decreases m - i,
    {
        let at = cpos + 1 + 12 * i;
        let e = (get_u32(b, at), get_u32(b, at + 4), get_u32(b, at + 8));
        if e.2 as usize <= off {
            assert(edge_entries(b@, cpos + 1, m as nat)[i as int].2 <= off);
            return None;
        }
        edges.push(e);
        i = i + 1;
    }
    let r = NodeRead { values, edges };
    assert(r.edges@ =~= edge_entries(b@, cpos + 1, m as nat));
    assert(r.values@ =~= value_entries(b@, off + 3, n as nat));
    assert(parse_node(b@, off as int) == Some(r.image()));
    Some(r)
}

/// The offset of the first child entry with code `code`.
fn find_edge(edges: &Vec<(u32, u32, u32)>, code: u32) -> (r: Option<u32>)
    ensures
        r == first_edge(edges@, code),
{
    let mut i: usize = 0;
    assert(edges@.subrange(0, edges@.len() as int) =~= edges@);
    while i < edges.len()
        invariant
            i <= edges@.len(),
            first_edge(edges@, code) == first_edge(edges@.subrange(i as int, edges@.len() as int), code),
        decreases edges@.len() - i,
    {
        let ghost rest = edges@.subrange(i as int, edges@.len() as int);
        assert(rest.drop_first() =~= edges@.subrange(i + 1, edges@.len() as int));
        if edges[i].0 == code {
            return Some(edges[i].2);
        }
        i = i + 1;
    }
    None
}

/// Follows `q` from the root of the serialized trie `b`.
pub fn descend_bytes(b: &[u8], q: &Vec<char>) -> (r: Result<Option<u32>, LookupError>)
    ensures
        match r {
            Err(_) => descend(b@, 0, q@) is None,
            Ok(x) => descend(b@, 0, q@) == Some(x),
        },
{
    let mut off: u32 = 0;
    let mut i: usize = 0;
    assert(q@.subrange(0, q@.len() as int) =~= q@);
    while i < q.len()
        invariant
            i <= q@.len(),
            descend(b@, 0, q@) == descend(b@, off as int, q@.subrange(i as int, q@.len() as int)),
        decreases q@.len() - i,
    {
        let ghost rest = q@.subrange(i as int, q@.len() as int);
        assert(rest.drop_first() =~= q@.subrange(i + 1, q@.len() as int));
        assert(rest[0] == q@[i as int]);
        match read_node(b, off as usize) {
            None => return Err(LookupError::Malformed),
            Some(node) => match find_edge(&node.edges, q[i] as u32) {
                None => return Ok(None),
                Some(a) => {
                    off = a;
                },
            },
        }
        i = i + 1;
    }
    assert(q@.subrange(i as int, q@.len() as int) =~= Seq::<char>::empty());
    Ok(Some(off))
}

/// The identifiers of the subtree below the node at `start`, breadth first.
pub fn collect_breadth_first(b: &[u8], start: u32) -> (r: Result<Vec<u32>, LookupError>)
    ensures
        match r {
            Err(_) => breadth_first(b@, seq![start], 0) is None,
            Ok(v) => breadth_first(b@, seq![start], 0) == Some(v@),
        },
{
    let mut frontier: Vec<u32> = Vec::new();
    frontier.push(start);
    let mut out: Vec<u32> = Vec::new();
    let mut depth: usize = 0;
    assert(frontier@ =~= seq![start]);
    assert(out@ + Seq::<u32>::empty() =~= out@);
    while frontier.len() > 0
        invariant
            depth <= b@.len(),
            breadth_first(b@, seq![start], 0) == match breadth_first(b@, frontier@, depth as int) {
                Some(rest) => Some(out@ + rest),
                None => None,
            },
        decreases b@.len() - depth,
    {
        if depth >= b.len() {
            return Err(LookupError::Malformed);
        }
        let ghost out0 = out@;
        let mut next: Vec<u32> = Vec::new();
        let mut i: usize = 0;
        assert(frontier@.subrange(0, 0) =~= Seq::<u32>::empty());
        assert(out@ =~= out0 + Seq::<u32>::empty());
        while i < frontier.len()
            invariant
                depth < b@.len(),
                frontier@.len() > 0,
                breadth_first(b@, seq![start], 0) == match breadth_first(b@, frontier@, depth as int) {
                    Some(rest) => Some(out0 + rest),
                    None => None,
                },
                0 <= i <= frontier@.len(),
                level(b@, frontier@.subrange(0, i as int)) == Some((out@.subrange(out0.len() as int, out@.len() as int), next@)),
                out0.len() <= out@.len(),
                out@.subrange(0, out0.len() as int) == out0,
            decreases frontier@.len() - i,
        {
            let ghost part = frontier@.subrange(0, i + 1);
            assert(part.drop_last() =~= frontier@.subrange(0, i as int));
            match read_node(b, frontier[i] as usize) {
                None => {
                    proof {
                        lemma_level_prefix_fails(b@, frontier@, i as int + 1);
                    }
                    return Err(LookupError::Malformed);
                },
                Some(node) => {
                    let ghost lv = out@.subrange(out0.len() as int, out@.len() as int);
                    let ghost nx = next@;
                    let mut j: usize = 0;
                    while j < node.values.len()
                        invariant
                            0 <= j <= node.values@.len(),
                            out0.len() <= out@.len(),
                            out@.subrange(0, out0.len() as int) == out0,
                            out@.subrange(out0.len() as int, out@.len() as int) == lv + node.values@.subrange(0, j as int),
                        decreases node.values@.len() - j,
                    {
                        let ghost o = out@;
                        out.push(node.values[j]);
                        assert(out@.subrange(0, out0.len() as int) =~= o.subrange(0, out0.len() as int));
                        assert(out@.subrange(out0.len() as int, out@.len() as int) =~= o.subrange(out0.len() as int, o.len() as int).push(node.values[j as int]));
                        assert(node.values@.subrange(0, j + 1) =~= node.values@.subrange(0, j as int).push(node.values[j as int]));
                        assert(out@.subrange(out0.len() as int, out@.len() as int) =~= lv + node.values@.subrange(0, j + 1));
                        j = j + 1;
                    }
                    let mut j: usize = 0;
                    while j < node.edges.len()
                        invariant
                            0 <= j <= node.edges@.len(),
                            next@ == nx + node.edges@.subrange(0, j as int).map_values(|e: (u32, u32, u32)| e.2),
                        decreases node.edges@.len() - j,
                    {
                        next.push(node.edges[j].2);
                        assert(next@ =~= nx + node.edges@.subrange(0, j + 1).map_values(|e: (u32, u32, u32)| e.2));
                        j = j + 1;
                    }
                    assert(node.values@.subrange(0, node.values@.len() as int) =~= node.values@);
                    assert(node.edges@.subrange(0, node.edges@.len() as int) =~= node.edges@);
                },
            }
            i = i + 1;
        }
        assert(frontier@.subrange(0, frontier@.len() as int) =~= frontier@);
        let ghost lv = out@.subrange(out0.len() as int, out@.len() as int);
        assert(out@ =~= out0 + lv);
        proof {
            if let Some(rest) = breadth_first(b@, next@, depth + 1) {
                assert(out0 + (lv + rest) =~= out@ + rest);
            }
        }
        frontier = next;
        depth = depth + 1;
    }
    assert(out@ + Seq::<u32>::empty() =~= out@);
    Ok(out)
}

/// Once a node of `f` is malformed, so is every longer part of the level.
pub proof fn lemma_level_prefix_fails(b: Seq<u8>, f: Seq<u32>, i: int)
    requires
        0 < i <= f.len(),
        parse_node(b, f[i - 1] as int) is None,
    ensures
        level(b, f) is None,
    decreases f.len() - i,
{
    if i < f.len() {
        lemma_level_prefix_fails(b, f.drop_last(), i);
    }
}

/// Looks `string` up in the serialized trie `bytes`: the identifiers stored
/// under it (`prefix_search` false), or under it and every string that
/// extends it, breadth first (`prefix_search` true). An empty query, or one
/// whose path is missing, gives `Ok(None)`; a malformed file an error.
pub fn at_from_bytes(string: &str, bytes: &[u8], prefix_search: bool) -> (r: Result<Option<Vec<u32>>, LookupError>)
    ensures
        r is Err <==> query_result(bytes@, string@, prefix_search) is None,
        r matches Ok(None) ==> query_result(bytes@, string@, prefix_search) == Some(None::<Seq<u32>>),
        r matches Ok(Some(v)) ==> query_result(bytes@, string@, prefix_search) == Some(Some(v@)),
{
    let q = chars_of(string);
    if q.len() == 0 {
        return Ok(None);
    }
    match descend_bytes(bytes, &q) {
        Err(e) => Err(e),
        Ok(None) => Ok(None),
        Ok(Some(a)) => {
            if prefix_search {
                match collect_breadth_first(bytes, a) {
                    Err(e) => Err(e),
                    Ok(v) => Ok(Some(v)),
                }
            } else {
                match read_node(bytes, a as usize) {
                    None => Err(LookupError::Malformed),
                    Some(node) => Ok(Some(node.values)),
                }
            }
        },
    }
}

} // verus!
