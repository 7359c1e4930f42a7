use vstd::prelude::*;

verus! {

/// Strictly ascending: sorted, and no identifier twice.
pub open spec fn strictly_sorted(s: Seq<u32>) -> bool {
    forall|i: int, j: int| 0 <= i < j < s.len() ==> s[i] < s[j]
}

/// Relies on `slice::sort_unstable`: the same identifiers, in ascending
/// order.
#[verifier::external_body]
fn sort_ids(v: &mut Vec<u32>)
    ensures
        final(v)@.to_multiset() == old(v)@.to_multiset(),
        forall|i: int, j: int| 0 <= i < j < final(v)@.len() ==> final(v)@[i] <= final(v)@[j],
{
    v.sort_unstable();
}

/// The identifiers of `v` in ascending order, each once.
pub fn normalize(v: Vec<u32>) -> (r: Vec<u32>)
    ensures
        strictly_sorted(r@),
        forall|x: u32| r@.contains(x) <==> v@.contains(x),
{
    let mut v = v;
    let ghost orig = v@;
    sort_ids(&mut v);
    assert forall|x: u32| v@.contains(x) <==> orig.contains(x) by {
        orig.to_multiset_ensures();
        v@.to_multiset_ensures();
        assert(orig.to_multiset().count(x) == v@.to_multiset().count(x));
    }
    let mut r: Vec<u32> = Vec::new();
    let mut i: usize = 0;
    while i < v.len()
        invariant
            0 <= i <= v@.len(),
            forall|a: int, b: int| 0 <= a < b < v@.len() ==> v@[a] <= v@[b],
            strictly_sorted(r@),
            forall|x: u32| r@.contains(x) <==> v@.subrange(0, i as int).contains(x),
            i > 0 ==> r@.len() > 0 && r@.last() == v@[i - 1],
            i == 0 ==> r@.len() == 0,
        decreases v@.len() - i,
    {
        let x = v[i];
        assert forall|y: u32| v@.subrange(0, i + 1).contains(y) <==> (v@.subrange(0, i as int).contains(y) || y == x) by {
            if v@.subrange(0, i + 1).contains(y) {
                let k = choose|k: int| 0 <= k < i + 1 && #[trigger] v@.subrange(0, i + 1)[k] == y;
                if k < i {
                    assert(v@.subrange(0, i as int)[k] == y);
                }
            }
            if v@.subrange(0, i as int).contains(y) {
                let k = choose|k: int| 0 <= k < i && #[trigger] v@.subrange(0, i as int)[k] == y;
                assert(v@.subrange(0, i + 1)[k] == y);
            }
            if y == x {
                assert(v@.subrange(0, i + 1)[i as int] == y);
            }
        }
        if r.len() == 0 || r[r.len() - 1] != x {
            let ghost old_r = r@;
            r.push(x);
            assert forall|a: int, b: int| 0 <= a < b < r@.len() implies r@[a] < r@[b] by {
                if b == r@.len() - 1 && a < b {
                    assert(old_r.last() == v@[i - 1]);
                    if a < old_r.len() - 1 {
                        assert(old_r[a] < old_r.last());
                    }
                }
            }
            assert forall|y: u32| r@.contains(y) <==> v@.subrange(0, i + 1).contains(y) by {
                if r@.contains(y) {
                    let k = choose|k: int| 0 <= k < r@.len() && #[trigger] r@[k] == y;
                    if k < old_r.len() {
                        assert(old_r.contains(y));
                    }
                }
                if old_r.contains(y) {
                    let k = choose|k: int| 0 <= k < old_r.len() && #[trigger] old_r[k] == y;
                    assert(r@[k] == y);
                }
                if y == x {
                    assert(r@[old_r.len() as int] == y);
                }
            }
        } else {
            assert(r@.contains(x)) by {
                assert(r@[r@.len() - 1] == x);
            }
        }
        i = i + 1;
    }
    assert(v@.subrange(0, v@.len() as int) =~= v@);
    r
}

/// Whether the strictly ascending `v` holds `x` (binary search).
pub fn contains_sorted(v: &Vec<u32>, x: u32) -> (r: bool)
    requires
        strictly_sorted(v@),
    ensures
        r == v@.contains(x),
{
    let mut lo: usize = 0;
    let mut hi: usize = v.len();
    while lo < hi
        invariant
            0 <= lo <= hi <= v@.len(),
            strictly_sorted(v@),
            forall|k: int| 0 <= k < lo ==> v@[k] < x,
            forall|k: int| hi <= k < v@.len() ==> v@[k] > x,
        decreases hi - lo,
    {
        let mid = lo + (hi - lo) / 2;
        if v[mid] == x {
            return true;
        } else if v[mid] < x {
            lo = mid + 1;
        } else {
            hi = mid;
        }
    }
    assert forall|k: int| 0 <= k < v@.len() implies v@[k] != x by {}
    false
}

/// Whether a queried field (`Some`) found `x`.
pub open spec fn field_has(f: Option<Vec<u32>>, x: u32) -> bool {
    match f {
        Some(v) => v@.contains(x),
        None => false,
    }
}

/// Whether one of the queried fields found `x`.
pub open spec fn found_by_any(fields: Seq<Option<Vec<u32>>>, x: u32) -> bool {
    exists|i: int| 0 <= i < fields.len() && #[trigger] field_has(fields[i], x)
}

/// Whether some field was queried and every queried field found `x`.
pub open spec fn found_by_all(fields: Seq<Option<Vec<u32>>>, x: u32) -> bool {
    &&& exists|i: int| 0 <= i < fields.len() && (#[trigger] fields[i]) is Some
    &&& forall|i: int| 0 <= i < fields.len() && (#[trigger] fields[i]) is Some ==> field_has(fields[i], x)
}

/// Combines the identifiers found per field (`None` for a field that was
/// not queried): those found by any queried field (`or`), or by every
/// queried field; in ascending order, each once.
pub fn combine_entries(fields: &Vec<Option<Vec<u32>>>, or: bool) -> (r: Vec<u32>)
    ensures
        strictly_sorted(r@),
        forall|x: u32| #[trigger] r@.contains(x) <==> if or {
            found_by_any(fields@, x)
        } else {
            found_by_all(fields@, x)
        },
{
    if or {
        let mut all: Vec<u32> = Vec::new();
        let mut i: usize = 0;
        while i < fields.len()
            invariant
                0 <= i <= fields@.len(),
                forall|x: u32| #[trigger] all@.contains(x) <==> found_by_any(fields@.subrange(0, i as int), x),
            decreases fields@.len() - i,
        {
            let ghost before = all@;
            if let Some(v) = &fields[i] {
                let mut j: usize = 0;
                while j < v.len()
                    invariant
                        0 <= j <= v@.len(),
                        forall|x: u32| #[trigger] all@.contains(x) <==> (before.contains(x) || v@.subrange(0, j as int).contains(x)),
                    decreases v@.len() - j,
                {
                    let ghost b = all@;
                    all.push(v[j]);
                    assert forall|x: u32| #[trigger] all@.contains(x) <==> (before.contains(x) || v@.subrange(0, j + 1).contains(x)) by {
                        if all@.contains(x) {
                            let k = choose|k: int| 0 <= k < all@.len() && #[trigger] all@[k] == x;
                            if k < b.len() {
                                assert(b.contains(x));
                            } else {
                                assert(v@.subrange(0, j + 1)[j as int] == x);
                            }
                        }
                        if b.contains(x) {
                            let k = choose|k: int| 0 <= k < b.len() && #[trigger] b[k] == x;
                            assert(all@[k] == x);
                        }
                        if v@.subrange(0, j + 1).contains(x) {
                            let k = choose|k: int| 0 <= k < j + 1 && #[trigger] v@.subrange(0, j + 1)[k] == x;
                            if k < j {
                                assert(v@.subrange(0, j as int)[k] == x);
                            } else {
                                assert(all@[b.len() as int] == x);
                            }
                        }
                        if v@.subrange(0, j as int).contains(x) {
                            let k = choose|k: int| 0 <= k < j && #[trigger] v@.subrange(0, j as int)[k] == x;
                            assert(v@.subrange(0, j + 1)[k] == x);
                        }
                    }
                    j = j + 1;
                }
                assert(v@.subrange(0, v@.len() as int) =~= v@);
            }
            assert forall|x: u32| #[trigger] all@.contains(x) <==> found_by_any(fields@.subrange(0, i + 1), x) by {
                let f = fields@.subrange(0, i + 1);
                let g = fields@.subrange(0, i as int);
                if found_by_any(f, x) {
                    let k = choose|k: int| 0 <= k < f.len() && #[trigger] field_has(f[k], x);
                    if k < i {
                        assert(g[k] == f[k]);
                    }
                }
                if found_by_any(g, x) {
                    let k = choose|k: int| 0 <= k < g.len() && #[trigger] field_has(g[k], x);
                    assert(f[k] == g[k]);
                }
                if field_has(fields@[i as int], x) {
                    assert(f[i as int] == fields@[i as int]);
                }
            }
            i = i + 1;
        }
        assert(fields@.subrange(0, fields@.len() as int) =~= fields@);
        normalize(all)
    } else {
        let mut acc: Vec<u32> = Vec::new();
        let mut started = false;
        let mut i: usize = 0;
        while i < fields.len()
            invariant
                0 <= i <= fields@.len(),
                strictly_sorted(acc@),
                started <==> exists|k: int| 0 <= k < i && (#[trigger] fields@[k]) is Some,
                !started ==> acc@.len() == 0,
                started ==> forall|x: u32| #[trigger] acc@.contains(x) <==> found_by_all(fields@.subrange(0, i as int), x),
            decreases fields@.len() - i,
        {
            let g = Ghost(fields@.subrange(0, i as int));
            let f = Ghost(fields@.subrange(0, i + 1));
            assert forall|k: int| 0 <= k < i implies f@[k] == g@[k] by {}
            assert(f@[i as int] == fields@[i as int]);
            if let Some(v) = &fields[i] {
                let vs = normalize(v.clone());
                if !started {
                    acc = vs;
                    started = true;
                    assert forall|x: u32| #[trigger] acc@.contains(x) <==> found_by_all(f@, x) by {
                        assert forall|k: int| 0 <= k < i implies (#[trigger] fields@[k]) is None by {}
                        if acc@.contains(x) {
                            assert forall|k: int| 0 <= k < f@.len() implies ((#[trigger] f@[k]) is Some ==> field_has(f@[k], x)) by {}
                        }
                    }
                } else {
                    let mut kept: Vec<u32> = Vec::new();
                    let mut j: usize = 0;
                    while j < acc.len()
                        invariant
                            0 <= j <= acc@.len(),
                            strictly_sorted(acc@),
                            strictly_sorted(vs@),
                            strictly_sorted(kept@),
                            forall|x: u32| #[trigger] kept@.contains(x) <==> (acc@.subrange(0, j as int).contains(x) && vs@.contains(x)),
                        decreases acc@.len() - j,
                    {
                        let x = acc[j];
                        let ghost before = kept@;
                        if contains_sorted(&vs, x) {
                            kept.push(x);
                            assert forall|a: int, b: int| 0 <= a < b < kept@.len() implies kept@[a] < kept@[b] by {
                                if b == kept@.len() - 1 && a < b {
                                    assert(before.contains(before[a]));
                                    assert(acc@.subrange(0, j as int).contains(before[a]));
                                    let k = choose|k: int| 0 <= k < j && #[trigger] acc@.subrange(0, j as int)[k] == before[a];
                                    assert(acc@[k] == before[a]);
                                }
                            }
                        }
                        assert forall|y: u32| #[trigger] kept@.contains(y) <==> (acc@.subrange(0, j + 1).contains(y) && vs@.contains(y)) by {
                            if acc@.subrange(0, j + 1).contains(y) {
                                let k = choose|k: int| 0 <= k < j + 1 && #[trigger] acc@.subrange(0, j + 1)[k] == y;
                                if k < j {
                                    assert(acc@.subrange(0, j as int)[k] == y);
                                }
                            }
                            if acc@.subrange(0, j as int).contains(y) {
                                let k = choose|k: int| 0 <= k < j && #[trigger] acc@.subrange(0, j as int)[k] == y;
                                assert(acc@.subrange(0, j + 1)[k] == y);
                            }
                            if y == x {
                                assert(acc@.subrange(0, j + 1)[j as int] == y);
                            }
                            if kept@.contains(y) {
                                let k = choose|k: int| 0 <= k < kept@.len() && #[trigger] kept@[k] == y;
                                if k < before.len() {
                                    assert(before.contains(y));
                                }
                            }
                            if before.contains(y) {
                                let k = choose|k: int| 0 <= k < before.len() && #[trigger] before[k] == y;
                                assert(kept@[k] == y);
                            }
                            if y == x && vs@.contains(x) {
                                assert(kept@[before.len() as int] == y);
                            }
                        }
                        j = j + 1;
                    }
                    assert(acc@.subrange(0, acc@.len() as int) =~= acc@);
                    acc = kept;
                    assert forall|x: u32| #[trigger] acc@.contains(x) <==> found_by_all(f@, x) by {
                        if found_by_all(f@, x) {
                            assert(f@[i as int] is Some ==> field_has(f@[i as int], x));
                            let k = choose|k: int| 0 <= k < i && (#[trigger] fields@[k]) is Some;
                            assert(g@[k] is Some);
                            assert forall|m: int| 0 <= m < g@.len() implies ((#[trigger] g@[m]) is Some ==> field_has(g@[m], x)) by {
                                assert(f@[m] == g@[m]);
                            }
                        }
                        if acc@.contains(x) {
                            let k = choose|k: int| 0 <= k < i && (#[trigger] fields@[k]) is Some;
                            assert(f@[k] is Some);
                            assert forall|m: int| 0 <= m < f@.len() implies ((#[trigger] f@[m]) is Some ==> field_has(f@[m], x)) by {
                                if m < i {
                                    assert(g@[m] is Some ==> field_has(g@[m], x));
                                }
                            }
                        }
                    }
                }
            } else {
                assert forall|x: u32| found_by_all(f@, x) <==> found_by_all(g@, x) by {
                    if found_by_all(g@, x) {
                        let k = choose|k: int| 0 <= k < g@.len() && (#[trigger] g@[k]) is Some;
                        assert(f@[k] is Some);
                        assert forall|m: int| 0 <= m < f@.len() implies ((#[trigger] f@[m]) is Some ==> field_has(f@[m], x)) by {
                            if m < i {
                                assert(g@[m] is Some ==> field_has(g@[m], x));
                            }
                        }
                    }
                    if found_by_all(f@, x) {
                        let k = choose|k: int| 0 <= k < f@.len() && (#[trigger] f@[k]) is Some;
                        assert(g@[k] is Some);
                        assert forall|m: int| 0 <= m < g@.len() implies ((#[trigger] g@[m]) is Some ==> field_has(g@[m], x)) by {
                            assert(f@[m] is Some ==> field_has(f@[m], x));
                        }
                    }
                }
            }
            i = i + 1;
        }
        assert(fields@.subrange(0, fields@.len() as int) =~= fields@);
        if !started {
            assert forall|x: u32| #[trigger] acc@.contains(x) <==> found_by_all(fields@, x) by {}
        }
        acc
    }
}

} // verus!
