//! Paths through a grammar's node types: from a type up through the types that can hold it,
//! until a type where the search stops. Types are numbered; `holders[t]` lists the types that
//! can hold a node of type `t` (as a subtype, in a field or as a child), and `stop[t]` marks the
//! types where a path ends.

use vstd::prelude::*;

verus! {

/// The lists of holders as sequences.
pub open spec fn holder_views(holders: Seq<Vec<usize>>) -> Seq<Seq<usize>> {
    holders.map_values(|v: Vec<usize>| v@)
}

/// Whether every holder named is a type of the grammar, and each type has a stop mark.
pub open spec fn grammar_fits(holders: Seq<Seq<usize>>, stop: Seq<bool>) -> bool {
    &&& holders.len() == stop.len()
    &&& forall|t: int, j: int|
        0 <= t < holders.len() && 0 <= j < holders[t].len() ==> #[trigger] holders[t][j]
            < holders.len()
}

/// Whether `p` is a path of at most `limit` types, none twice, each held by the next, that ends
/// at its first type with a stop mark.
pub open spec fn back_path(holders: Seq<Seq<usize>>, stop: Seq<bool>, limit: nat, p: Seq<usize>) -> bool {
    &&& 0 < p.len() <= limit
    &&& p.no_duplicates()
    &&& forall|i: int| 0 <= i < p.len() ==> #[trigger] p[i] < stop.len()
    &&& forall|i: int|
        0 <= i < p.len() - 1 ==> holders[p[i] as int].contains(#[trigger] p[i + 1]) && !stop[p[i] as int]
    &&& stop[p.last() as int]
}

/// The paths that begin with `prefix`.
pub open spec fn completions(holders: Seq<Seq<usize>>, stop: Seq<bool>, limit: nat, prefix: Seq<usize>) -> Set<
    Seq<usize>,
> {
    Set::new(
        |q: Seq<usize>|
            back_path(holders, stop, limit, q) && prefix.len() <= q.len() && q.take(prefix.len() as int)
                == prefix,
    )
}

/// The paths that begin with one of `starts`.
pub open spec fn paths_from(holders: Seq<Seq<usize>>, stop: Seq<bool>, limit: nat, starts: Seq<usize>) -> Set<
    Seq<usize>,
> {
    Set::new(|q: Seq<usize>| back_path(holders, stop, limit, q) && starts.contains(q[0]))
}

/// The paths listed in `v`.
pub open spec fn listed_paths(v: Seq<Vec<usize>>) -> Set<Seq<usize>> {
    v.map_values(|x: Vec<usize>| x@).to_set()
}

/// Whether `path` can begin a path: its types are distinct types of the grammar without stop
/// marks, each held by the next.
pub open spec fn open_prefix(holders: Seq<Seq<usize>>, stop: Seq<bool>, path: Seq<usize>) -> bool {
    &&& path.no_duplicates()
    &&& forall|i: int| 0 <= i < path.len() ==> #[trigger] path[i] < stop.len() && !stop[path[i] as int]
    &&& forall|i: int| 0 <= i < path.len() - 1 ==> holders[path[i] as int].contains(#[trigger] path[i + 1])
}

proof fn lemma_listed_push(v: Seq<Vec<usize>>, x: Vec<usize>)
    ensures
        listed_paths(v.push(x)) == listed_paths(v).insert(x@),
{
    assert(v.push(x).map_values(|y: Vec<usize>| y@) =~= v.map_values(|y: Vec<usize>| y@).push(x@));
    v.map_values(|y: Vec<usize>| y@).lemma_push_to_set_commute(x@);
}

/// The paths through `node` after `path` split by the type after `node`.
proof fn lemma_completions_step(
    holders: Seq<Seq<usize>>,
    stop: Seq<bool>,
    limit: nat,
    path: Seq<usize>,
    node: usize,
)
    requires
        (node as int) < stop.len(),
        !stop[node as int],
    ensures
        forall|q: Seq<usize>|
            #[trigger] completions(holders, stop, limit, path.push(node)).contains(q) <==> exists|j: int|
                0 <= j < holders[node as int].len() && #[trigger] completions(
                    holders,
                    stop,
                    limit,
                    path.push(node).push(holders[node as int][j]),
                ).contains(q),
{
    let p = path.push(node);
    assert forall|q: Seq<usize>| #[trigger] completions(holders, stop, limit, p).contains(q) implies exists|j: int|
        0 <= j < holders[node as int].len() && #[trigger] completions(
            holders,
            stop,
            limit,
            p.push(holders[node as int][j]),
        ).contains(q) by {
        let k = path.len() as int;
        assert(q[k] == p[k]);
        if q.len() == k + 1 {
            assert(q.last() == node);
        }
        assert(q.len() > k + 1);
        assert(holders[q[k] as int].contains(q[k + 1]));
        let j = choose|j: int| 0 <= j < holders[node as int].len() && holders[node as int][j] == q[k + 1];
        assert(q.take(k + 2) =~= p.push(q[k + 1])) by {
            assert forall|i: int| 0 <= i < k + 1 implies #[trigger] q.take(k + 2)[i] == p.push(q[k + 1])[i] by {
                assert(q.take(k + 1)[i] == p[i]);
            }
        }
        assert(completions(holders, stop, limit, p.push(holders[node as int][j])).contains(q));
    }
    assert forall|q: Seq<usize>| (exists|j: int|
        0 <= j < holders[node as int].len() && #[trigger] completions(
            holders,
            stop,
            limit,
            p.push(holders[node as int][j]),
        ).contains(q)) implies #[trigger] completions(holders, stop, limit, p).contains(q) by {
        let j = choose|j: int|
            0 <= j < holders[node as int].len() && #[trigger] completions(
                holders,
                stop,
                limit,
                p.push(holders[node as int][j]),
            ).contains(q);
        let pp = p.push(holders[node as int][j]);
        assert(q.take(p.len() as int) =~= p) by {
            assert forall|i: int| 0 <= i < p.len() implies #[trigger] q.take(p.len() as int)[i] == p[i] by {
                assert(q.take(pp.len() as int)[i] == pp[i]);
            }
        }
    }
}

/// Adds to `out` the paths that begin with `path` followed by `node`.
fn visit(
    holders: &Vec<Vec<usize>>,
    stop: &Vec<bool>,
    limit: usize,
    node: usize,
    path: &mut Vec<usize>,
    out: &mut Vec<Vec<usize>>,
)
    requires
        grammar_fits(holder_views(holders@), stop@),
        (node as int) < stop@.len(),
        open_prefix(holder_views(holders@), stop@, old(path)@),
        old(path)@.len() > 0 ==> holder_views(holders@)[old(path)@.last() as int].contains(node),
        old(path)@.len() <= limit,
    ensures
        final(path)@ == old(path)@,
        listed_paths(final(out)@) == listed_paths(old(out)@).union(
            completions(holder_views(holders@), stop@, limit as nat, old(path)@.push(node)),
        ),
    decreases limit - old(path)@.len(),
{
    let ghost hv = holder_views(holders@);
    let ghost p0 = path@;
    let ghost target = completions(hv, stop@, limit as nat, p0.push(node));
    let mut seen = false;
    let mut i: usize = 0;
    while i < path.len()
        invariant
            i <= path@.len(),
            path@ == p0,
            seen == exists|k: int| 0 <= k < i && path@[k] == node,
        decreases path@.len() - i,
    {
        if path[i] == node {
            seen = true;
        }
        i = i + 1;
    }
    if seen || path.len() >= limit {
        proof {
            assert(target =~= Set::empty()) by {
                assert forall|q: Seq<usize>| !target.contains(q) by {
                    if target.contains(q) {
                        if seen {
                            let k = choose|k: int| 0 <= k < p0.len() && p0[k] == node;
                            assert(q[k] == p0.push(node)[k]);
                            assert(q[p0.len() as int] == p0.push(node)[p0.len() as int]);
                        }
                    }
                }
            }
            assert(listed_paths(out@).union(target) =~= listed_paths(out@));
        }
        return;
    }
    path.push(node);
    let ghost p1 = path@;
    assert(p1 == p0.push(node));
    if stop[node] {
        let ghost before = out@;
        out.push(path.clone());
        proof {
            lemma_listed_push(before, out@.last());
            assert(out@.last()@ == p1);
            assert(p1.no_duplicates());
            assert(back_path(hv, stop@, limit as nat, p1)) by {
                assert forall|k: int| 0 <= k < p1.len() - 1 implies hv[p1[k] as int].contains(
                    #[trigger] p1[k + 1],
                ) && !stop@[p1[k] as int] by {
                    if k + 1 < p0.len() {
                        assert(p1[k + 1] == p0[k + 1]);
                    }
                }
            }
            assert(p1.take(p1.len() as int) =~= p1);
            assert forall|q: Seq<usize>| target.contains(q) implies q == p1 by {
                let k = p0.len() as int;
                assert(q[k] == p1[k]);
                if q.len() > k + 1 {
                    assert(hv[q[k] as int].contains(q[k + 1]));
                    assert(!stop@[q[k] as int]);
                }
                assert(q =~= q.take(k + 1));
            }
            assert(target =~= set![p1]);
        }
    } else {
        let hs = &holders[node];
        let ghost h = hv[node as int];
        assert(h == hs@);
        proof {
            lemma_completions_step(hv, stop@, limit as nat, p0, node);
        }
        let ghost start_out = listed_paths(out@);
        let mut j: usize = 0;
        while j < hs.len()
            invariant
                grammar_fits(hv, stop@),
                hv == holder_views(holders@),
                h == hs@,
                h == hv[node as int],
                (node as int) < stop@.len(),
                !stop@[node as int],
                path@ == p1,
                p1 == p0.push(node),
                p0 == old(path)@,
                open_prefix(hv, stop@, p0),
                p0.len() > 0 ==> hv[p0.last() as int].contains(node),
                p0.len() < limit,
                !p0.contains(node),
                j <= h.len(),
                listed_paths(out@) == start_out.union(
                    Set::new(
                        |q: Seq<usize>|
                            exists|k: int|
                                0 <= k < j && #[trigger] completions(hv, stop@, limit as nat, p1.push(h[k])).contains(q),
                    ),
                ),
            decreases h.len() - j,
        {
            let next = hs[j];
            let ghost before = listed_paths(out@);
            proof {
                assert(open_prefix(hv, stop@, p1)) by {
                    assert forall|a: int, b: int| 0 <= a < p1.len() && 0 <= b < p1.len() && a != b implies p1[a] != p1[b] by {
                        if a < p0.len() && b < p0.len() {
                        } else if a == p0.len() {
                            assert(p0[b] != node);
                        } else {
                            assert(p0[a] != node);
                        }
                    }
                    assert forall|k: int| 0 <= k < p1.len() - 1 implies hv[p1[k] as int].contains(
                        #[trigger] p1[k + 1],
                    ) by {
                        if k + 1 < p0.len() {
                            assert(p1[k + 1] == p0[k + 1]);
                        }
                    }
                }
                assert(hv[p1.last() as int].contains(next)) by {
                    assert(h[j as int] == next);
                }
                assert(next < hv.len());
            }
            visit(holders, stop, limit, next, path, out);
            proof {
                assert(listed_paths(out@) =~= start_out.union(
                    Set::new(
                        |q: Seq<usize>|
                            exists|k: int|
                                0 <= k < j + 1 && #[trigger] completions(hv, stop@, limit as nat, p1.push(h[k])).contains(q),
                    ),
                )) by {
                    assert forall|q: Seq<usize>| #[trigger] listed_paths(out@).contains(q) == start_out.union(
                        Set::new(
                            |q: Seq<usize>|
                                exists|k: int|
                                    0 <= k < j + 1 && #[trigger] completions(hv, stop@, limit as nat, p1.push(h[k])).contains(q),
                        ),
                    ).contains(q) by {
                        if completions(hv, stop@, limit as nat, p1.push(h[j as int])).contains(q) {
                            assert(next == h[j as int]);
                        }
                    }
                }
            }
            j = j + 1;
        }
        proof {
            assert(listed_paths(out@) =~= start_out.union(target)) by {
                assert forall|q: Seq<usize>| #[trigger] target.contains(q) == Set::new(
                    |q: Seq<usize>|
                        exists|k: int|
                            0 <= k < h.len() && #[trigger] completions(hv, stop@, limit as nat, p1.push(h[k])).contains(q),
                ).contains(q) by {}
            }
        }
    }
    path.pop();
    proof {
        assert(path@ =~= p0);
    }
}

/// The paths that begin with one of the types `starts` (see `back_path`), start by start; the
/// contract states which paths are listed.
pub fn back_paths(holders: &Vec<Vec<usize>>, stop: &Vec<bool>, starts: &Vec<usize>, limit: usize) -> (r:
    Vec<Vec<usize>>)
    requires
        grammar_fits(holder_views(holders@), stop@),
        forall|q: int| 0 <= q < starts@.len() ==> #[trigger] starts@[q] < stop@.len(),
    ensures
        listed_paths(r@) == paths_from(holder_views(holders@), stop@, limit as nat, starts@),
{
    let ghost hv = holder_views(holders@);
    let mut out: Vec<Vec<usize>> = Vec::new();
    let mut path: Vec<usize> = Vec::with_capacity(limit);
    let mut i: usize = 0;
    proof {
        assert(listed_paths(out@) =~= Set::empty());
    }
    while i < starts.len()
        invariant
            hv == holder_views(holders@),
            grammar_fits(hv, stop@),
            forall|q: int| 0 <= q < starts@.len() ==> #[trigger] starts@[q] < stop@.len(),
            path@ == Seq::<usize>::empty(),
            i <= starts@.len(),
            listed_paths(out@) == Set::new(
                |q: Seq<usize>|
                    exists|k: int|
                        0 <= k < i && #[trigger] completions(hv, stop@, limit as nat, seq![starts@[k]]).contains(q),
            ),
        decreases starts@.len() - i,
    {
        let s = starts[i];
        proof {
            assert(open_prefix(hv, stop@, path@));
            assert(path@.push(s) =~= seq![s]);
        }
        visit(holders, stop, limit, s, &mut path, &mut out);
        proof {
            assert(listed_paths(out@) =~= Set::new(
                |q: Seq<usize>|
                    exists|k: int|
                        0 <= k < i + 1 && #[trigger] completions(hv, stop@, limit as nat, seq![starts@[k]]).contains(q),
            )) by {
                assert forall|q: Seq<usize>| completions(hv, stop@, limit as nat, seq![s]).contains(q) implies exists|k: int|
                    0 <= k < i + 1 && #[trigger] completions(hv, stop@, limit as nat, seq![starts@[k]]).contains(q) by {
                    assert(starts@[i as int] == s);
                }
            }
        }
        i = i + 1;
    }
    proof {
        assert(listed_paths(out@) =~= paths_from(hv, stop@, limit as nat, starts@)) by {
            assert forall|q: Seq<usize>| #[trigger] listed_paths(out@).contains(q) implies paths_from(hv, stop@, limit as nat, starts@).contains(q) by {
                let k = choose|k: int|
                    0 <= k < starts@.len() && #[trigger] completions(hv, stop@, limit as nat, seq![starts@[k]]).contains(q);
                assert(q[0] == q.take(1)[0]);
                assert(starts@.contains(q[0]));
            }
            assert forall|q: Seq<usize>| #[trigger] paths_from(hv, stop@, limit as nat, starts@).contains(q) implies listed_paths(out@).contains(q) by {
                let k = choose|k: int| 0 <= k < starts@.len() && starts@[k] == q[0];
                assert(q.take(1) =~= seq![starts@[k]]);
                assert(completions(hv, stop@, limit as nat, seq![starts@[k]]).contains(q));
            }
        }
    }
    out
}

/// A node type of a grammar as the holder lists need it: the types it names as its subtypes, as
/// the types of its fields, and as the types of its children, each by its number.
pub struct NodeTypeInfo {
    pub subtypes: Vec<usize>,
    pub field_types: Vec<usize>,
    pub children_types: Vec<usize>,
}

/// Whether the node type `info` names type `t` among its subtypes, field types or children types.
pub open spec fn names_type(info: NodeTypeInfo, t: usize) -> bool {
    info.subtypes@.contains(t) || info.field_types@.contains(t) || info.children_types@.contains(t)
}

/// Whether `v` holds `t`.
fn holds(v: &Vec<usize>, t: usize) -> (b: bool)
    ensures
        b == v@.contains(t),
{
    let mut i: usize = 0;
    while i < v.len()
        invariant
            i <= v@.len(),
            forall|k: int| 0 <= k < i ==> v@[k] != t,
        decreases v@.len() - i,
    {
        if v[i] == t {
            return true;
        }
        i = i + 1;
    }
    false
}

/// For each type `t`, the types that can hold a node of type `t`: those that name it among their
/// subtypes, field types or children types, each once, in increasing order.
pub fn holder_lists(types: &Vec<NodeTypeInfo>) -> (r: Vec<Vec<usize>>)
    ensures
        r@.len() == types@.len(),
        forall|t: int, h: int|
            0 <= t < r@.len() ==> (r@[t]@.contains(h as usize) && 0 <= h < types@.len() <==> (0
                <= h < types@.len() && #[trigger] names_type(types@[h], t as usize))),
        forall|t: int| 0 <= t < r@.len() ==> (#[trigger] r@[t])@.no_duplicates(),
        forall|t: int, j: int| 0 <= t < r@.len() && 0 <= j < r@[t]@.len() ==> #[trigger] r@[t]@[j]
            < types@.len(),
{
    let n = types.len();
    let mut r: Vec<Vec<usize>> = Vec::new();
    let mut t: usize = 0;
    while t < n
        invariant
            n == types@.len(),
            t <= n,
            r@.len() == t,
            forall|a: int, h: int|
                0 <= a < t ==> (r@[a]@.contains(h as usize) && 0 <= h < n <==> (0 <= h < n
                    && #[trigger] names_type(types@[h], a as usize))),
            forall|a: int| 0 <= a < t ==> (#[trigger] r@[a])@.no_duplicates(),
            forall|a: int, j: int| 0 <= a < t && 0 <= j < r@[a]@.len() ==> #[trigger] r@[a]@[j] < n,
        decreases n - t,
    {
        let mut hs: Vec<usize> = Vec::new();
        let mut h: usize = 0;
        while h < n
            invariant
                n == types@.len(),
                t < n,
                h <= n,
                forall|k: int| #![trigger hs@.contains(k as usize)]
                    0 <= k < n ==> (hs@.contains(k as usize) <==> (k < h && names_type(types@[k], t))),
                forall|j: int| 0 <= j < hs@.len() ==> #[trigger] hs@[j] < h,
                forall|i: int, j: int| 0 <= i < j < hs@.len() ==> hs@[i] < hs@[j],
            decreases n - h,
        {
            let info = &types[h];
            if holds(&info.subtypes, t) || holds(&info.field_types, t) || holds(&info.children_types, t) {
                let ghost before = hs@;
                hs.push(h);
                proof {
                    assert forall|k: int| 0 <= k < n implies (hs@.contains(k as usize) <==> (k < h + 1
                        && names_type(types@[k], t))) by {
                        if hs@.contains(k as usize) && k != h {
                            let j = choose|j: int| 0 <= j < hs@.len() && hs@[j] == k as usize;
                            assert(j < before.len());
                            assert(before.contains(k as usize));
                        }
                        if k < h && names_type(types@[k], t) {
                            assert(before.contains(k as usize));
                            let j = choose|j: int| 0 <= j < before.len() && before[j] == k as usize;
                            assert(hs@[j] == k as usize);
                        }
                        if k == h {
                            assert(hs@[before.len() as int] == h);
                        }
                    }
                }
            } else {
                proof {
                    assert(!names_type(types@[h as int], t));
                }
            }
            h = h + 1;
        }
        proof {
            assert forall|i: int, j: int| 0 <= i < hs@.len() && 0 <= j < hs@.len() && i != j implies hs@[i] != hs@[j] by {
                if i < j {
                    assert(hs@[i] < hs@[j]);
                } else {
                    assert(hs@[j] < hs@[i]);
                }
            }
        }
        let ghost before = r@;
        r.push(hs);
        proof {
            assert forall|a: int, h: int|
                0 <= a < t + 1 implies (r@[a]@.contains(h as usize) && 0 <= h < n <==> (0 <= h < n
                    && #[trigger] names_type(types@[h], a as usize))) by {
                if a < t {
                    assert(r@[a] == before[a]);
                }
            }
            assert forall|a: int| 0 <= a < t + 1 implies (#[trigger] r@[a])@.no_duplicates() by {
                if a < t {
                    assert(r@[a] == before[a]);
                }
            }
            assert forall|a: int, j: int| 0 <= a < t + 1 && 0 <= j < r@[a]@.len() implies #[trigger] r@[a]@[j] < n by {
                if a < t {
                    assert(r@[a] == before[a]);
                }
            }
        }
        t = t + 1;
    }
    r
}

} // verus!
