//! Walks over the relations of the database: everything that a set of assets contains, and the
//! nearest container of an asset that has a path.

use crate::asset::{ref_views, relation_views, Asset, AssetView, RelationKind, RelationView};
use crate::database::{asset_views, assets_wf, find_asset, Database};
use vstd::prelude::*;
use vstd::set_lib::{lemma_int_range, lemma_len_subset, set_int_range};

verus! {

/// Whether asset `a` of `v` has a relation of kind `kind`, declared by it or towards it, to
/// asset `b`.
pub open spec fn edge(v: Seq<AssetView>, a: int, kind: RelationKind, b: int) -> bool {
    &&& 0 <= a < v.len()
    &&& 0 <= b < v.len()
    &&& (v[a].relations.contains(RelationView { kind, target: v[b].id })
        || v[a].back_relations.contains(RelationView { kind, target: v[b].id }))
}

/// The assets that some asset of `xs` has an edge of kind `kind` to.
pub open spec fn step(v: Seq<AssetView>, xs: Set<int>, kind: RelationKind) -> Set<int> {
    Set::new(|b: int| exists|a: int| xs.contains(a) && #[trigger] edge(v, a, kind, b))
}

/// The assets at most `k` edges of kind `kind` away from `starts`.
pub open spec fn reach(v: Seq<AssetView>, starts: Set<int>, kind: RelationKind, k: nat) -> Set<
    int,
>
    decreases k,
{
    if k == 0 {
        starts
    } else {
        let p = reach(v, starts, kind, (k - 1) as nat);
        p.union(step(v, p, kind))
    }
}

/// Whether asset `b` can be reached from `starts` along edges of kind `kind`.
pub open spec fn reachable(v: Seq<AssetView>, starts: Set<int>, kind: RelationKind, b: int) -> bool {
    exists|k: nat| #[trigger] reach(v, starts, kind, k).contains(b)
}

/// Whether asset `b` is the nearest asset with a path among those that asset `start` lies in
/// (itself included), following containment relations of either side: it is in the first round
/// of the walk that meets an asset with a path, and the first such asset of that round in the
/// database.
pub open spec fn is_nearest(assets: Seq<Asset>, start: int, b: int) -> bool {
    &&& 0 <= b < assets.len()
    &&& assets[b].path is Some
    &&& exists|k: nat|
        {
            &&& #[trigger] reach(asset_views(assets), set![start], RelationKind::ContainedBy, k).contains(
                b,
            )
            &&& forall|c: int|
                reach(asset_views(assets), set![start], RelationKind::ContainedBy, k).contains(c)
                    && c < b ==> assets[c].path is None
            &&& k > 0 ==> forall|c: int|
                reach(
                    asset_views(assets),
                    set![start],
                    RelationKind::ContainedBy,
                    (k - 1) as nat,
                ).contains(c) ==> assets[c].path is None
        }
}

/// Whether `seen` marks exactly the positions in `s`.
pub open spec fn marks(seen: Seq<bool>, s: Set<int>) -> bool {
    forall|j: int| 0 <= j < seen.len() ==> (#[trigger] seen[j] <==> s.contains(j))
}

/// The positions listed in `list`.
pub open spec fn listed(list: Seq<usize>) -> Set<int> {
    Set::new(|j: int| exists|q: int| 0 <= q < list.len() && list[q] as int == j)
}

proof fn lemma_reach_grows(v: Seq<AssetView>, starts: Set<int>, kind: RelationKind, a: nat, b: nat)
    requires
        a <= b,
    ensures
        reach(v, starts, kind, a).subset_of(reach(v, starts, kind, b)),
    decreases b - a,
{
    if a < b {
        lemma_reach_grows(v, starts, kind, a, (b - 1) as nat);
    }
}

proof fn lemma_reach_stable(
    v: Seq<AssetView>,
    starts: Set<int>,
    kind: RelationKind,
    k: nat,
    j: nat,
)
    requires
        reach(v, starts, kind, k + 1) == reach(v, starts, kind, k),
        k <= j,
    ensures
        reach(v, starts, kind, j) == reach(v, starts, kind, k),
    decreases j - k,
{
    if k < j {
        lemma_reach_stable(v, starts, kind, k, (j - 1) as nat);
    }
}

/// There is at most one nearest asset with a path: the round of the walk and the position in the
/// database fix it.
pub proof fn law_nearest_unique(assets: Seq<Asset>, start: int, b1: int, b2: int)
    requires
        is_nearest(assets, start, b1),
        is_nearest(assets, start, b2),
    ensures
        b1 == b2,
{
    let v = asset_views(assets);
    let kind = RelationKind::ContainedBy;
    let st = set![start];
    let k1 = choose|k: nat|
        {
            &&& #[trigger] reach(v, st, kind, k).contains(b1)
            &&& forall|c: int| reach(v, st, kind, k).contains(c) && c < b1 ==> assets[c].path is None
            &&& k > 0 ==> forall|c: int|
                reach(v, st, kind, (k - 1) as nat).contains(c) ==> assets[c].path is None
        };
    let k2 = choose|k: nat|
        {
            &&& #[trigger] reach(v, st, kind, k).contains(b2)
            &&& forall|c: int| reach(v, st, kind, k).contains(c) && c < b2 ==> assets[c].path is None
            &&& k > 0 ==> forall|c: int|
                reach(v, st, kind, (k - 1) as nat).contains(c) ==> assets[c].path is None
        };
    if k1 < k2 {
        lemma_reach_grows(v, st, kind, k1, (k2 - 1) as nat);
        assert(reach(v, st, kind, (k2 - 1) as nat).contains(b1));
    } else if k2 < k1 {
        lemma_reach_grows(v, st, kind, k2, (k1 - 1) as nat);
        assert(reach(v, st, kind, (k1 - 1) as nat).contains(b2));
    } else {
        if b1 < b2 {
            assert(reach(v, st, kind, k2).contains(b1));
        } else if b2 < b1 {
            assert(reach(v, st, kind, k1).contains(b2));
        }
    }
}

/// The assets reached from `starts` include `starts` and everything one edge away from an asset
/// they include.
pub proof fn law_reachable_closed(
    v: Seq<AssetView>,
    starts: Set<int>,
    kind: RelationKind,
    a: int,
    b: int,
)
    ensures
        starts.contains(a) ==> reachable(v, starts, kind, a),
        reachable(v, starts, kind, a) && edge(v, a, kind, b) ==> reachable(v, starts, kind, b),
{
    if starts.contains(a) {
        assert(reach(v, starts, kind, 0).contains(a));
    }
    if reachable(v, starts, kind, a) && edge(v, a, kind, b) {
        let k = choose|k: nat| #[trigger] reach(v, starts, kind, k).contains(a);
        assert(step(v, reach(v, starts, kind, k), kind).contains(b));
        assert(reach(v, starts, kind, k + 1).contains(b));
    }
}

/// The assets whose identifier is the target of a relation of kind `kind` among the first `n`
/// of `rv`.
pub open spec fn targets_among(v: Seq<AssetView>, rv: Seq<RelationView>, kind: RelationKind, n: int) -> Set<
    int,
> {
    Set::new(
        |b: int|
            0 <= b < v.len() && exists|q: int|
                0 <= q < n && #[trigger] rv[q] == (RelationView { kind, target: v[b].id }),
    )
}

/// The assets that asset `a` has an edge of kind `kind` to.
pub open spec fn edges_from(v: Seq<AssetView>, a: int, kind: RelationKind) -> Set<int> {
    Set::new(|b: int| edge(v, a, kind, b))
}

proof fn lemma_step_insert(v: Seq<AssetView>, done: Set<int>, x: int, kind: RelationKind)
    ensures
        step(v, done.insert(x), kind) == step(v, done, kind).union(edges_from(v, x, kind)),
{
    let lhs = step(v, done.insert(x), kind);
    let rhs = step(v, done, kind).union(edges_from(v, x, kind));
    assert forall|b: int| lhs.contains(b) implies rhs.contains(b) by {
        let a = choose|a: int| done.insert(x).contains(a) && #[trigger] edge(v, a, kind, b);
        if a != x {
            assert(step(v, done, kind).contains(b));
        }
    }
    assert forall|b: int| rhs.contains(b) implies lhs.contains(b) by {
        if edges_from(v, x, kind).contains(b) {
            assert(done.insert(x).contains(x) && edge(v, x, kind, b));
        } else {
            let a = choose|a: int| done.contains(a) && #[trigger] edge(v, a, kind, b);
            assert(done.insert(x).contains(a));
        }
    }
    assert(lhs =~= rhs);
}

proof fn lemma_step_split(v: Seq<AssetView>, r: Set<int>, prev: Set<int>, kind: RelationKind)
    requires
        prev.subset_of(r),
        step(v, prev, kind).subset_of(r),
    ensures
        r.union(step(v, r, kind)) == r.union(step(v, r.difference(prev), kind)),
{
    let lhs = r.union(step(v, r, kind));
    let rhs = r.union(step(v, r.difference(prev), kind));
    assert forall|b: int| lhs.contains(b) implies rhs.contains(b) by {
        if !r.contains(b) {
            let a = choose|a: int| r.contains(a) && #[trigger] edge(v, a, kind, b);
            if prev.contains(a) {
                assert(step(v, prev, kind).contains(b));
            } else {
                assert(r.difference(prev).contains(a));
            }
        }
    }
    assert forall|b: int| rhs.contains(b) implies lhs.contains(b) by {
        if !r.contains(b) {
            let a = choose|a: int| r.difference(prev).contains(a) && #[trigger] edge(v, a, kind, b);
            assert(r.contains(a));
        }
    }
    assert(lhs =~= rhs);
}

proof fn lemma_listed_push(list: Seq<usize>, j: usize)
    ensures
        listed(list.push(j)) == listed(list).insert(j as int),
{
    let l2 = list.push(j);
    assert forall|b: int| listed(l2).contains(b) implies listed(list).insert(j as int).contains(b) by {
        let q = choose|q: int| 0 <= q < l2.len() && l2[q] as int == b;
        if q < list.len() {
            assert(list[q] == l2[q]);
        }
    }
    assert forall|b: int| listed(list).insert(j as int).contains(b) implies listed(l2).contains(b) by {
        if b == j as int {
            assert(l2[list.len() as int] == j);
        } else {
            let q = choose|q: int| 0 <= q < list.len() && list[q] as int == b;
            assert(l2[q] == list[q]);
        }
    }
    assert(listed(l2) =~= listed(list).insert(j as int));
}

proof fn lemma_listed_take(list: Seq<usize>, n: int)
    requires
        0 <= n < list.len(),
    ensures
        listed(list.take(n + 1)) == listed(list.take(n)).insert(list[n] as int),
{
    assert(list.take(n + 1) =~= list.take(n).push(list[n]));
    lemma_listed_push(list.take(n), list[n]);
}

proof fn lemma_targets_step(
    v: Seq<AssetView>,
    rv: Seq<RelationView>,
    kind: RelationKind,
    n: int,
    j: int,
)
    requires
        0 <= n < rv.len(),
        0 <= j < v.len(),
        rv[n] == (RelationView { kind, target: v[j].id }),
        forall|b: int| 0 <= b < v.len() && b != j ==> v[b].id != v[j].id,
    ensures
        targets_among(v, rv, kind, n + 1) == targets_among(v, rv, kind, n).insert(j),
{
    let lhs = targets_among(v, rv, kind, n + 1);
    let rhs = targets_among(v, rv, kind, n).insert(j);
    assert forall|b: int| lhs.contains(b) implies rhs.contains(b) by {
        let q = choose|q: int|
            0 <= q < n + 1 && #[trigger] rv[q] == (RelationView { kind, target: v[b].id });
        if q == n {
            assert(v[b].id == v[j].id);
        }
    }
    assert forall|b: int| rhs.contains(b) implies lhs.contains(b) by {
        if b == j {
            assert(rv[n] == (RelationView { kind, target: v[b].id }));
        } else {
            let q = choose|q: int|
                0 <= q < n && #[trigger] rv[q] == (RelationView { kind, target: v[b].id });
            assert(0 <= q < n + 1);
        }
    }
    assert(lhs =~= rhs);
}

proof fn lemma_targets_same(v: Seq<AssetView>, rv: Seq<RelationView>, kind: RelationKind, n: int)
    requires
        0 <= n < rv.len(),
        forall|b: int| 0 <= b < v.len() ==> rv[n] != (RelationView { kind, target: v[b].id }),
    ensures
        targets_among(v, rv, kind, n + 1) == targets_among(v, rv, kind, n),
{
    let lhs = targets_among(v, rv, kind, n + 1);
    let rhs = targets_among(v, rv, kind, n);
    assert forall|b: int| lhs.contains(b) implies rhs.contains(b) by {
        let q = choose|q: int|
            0 <= q < n + 1 && #[trigger] rv[q] == (RelationView { kind, target: v[b].id });
        assert(q != n);
    }
    assert(lhs =~= rhs);
}

proof fn lemma_targets_all(assets: Seq<Asset>, x: int, rv: Seq<RelationView>, kind: RelationKind)
    requires
        0 <= x < assets.len(),
        rv == relation_views(assets[x].relations@) + relation_views(assets[x].back_relations@),
    ensures
        targets_among(asset_views(assets), rv, kind, rv.len() as int) == edges_from(
            asset_views(assets),
            x,
            kind,
        ),
{
    let v = asset_views(assets);
    let rels = relation_views(assets[x].relations@);
    let backs = relation_views(assets[x].back_relations@);
    let lhs = targets_among(v, rv, kind, rv.len() as int);
    let rhs = edges_from(v, x, kind);
    assert(v[x] == assets[x]@);
    assert forall|b: int| lhs.contains(b) implies rhs.contains(b) by {
        let q = choose|q: int|
            0 <= q < rv.len() && #[trigger] rv[q] == (RelationView { kind, target: v[b].id });
        if q < rels.len() {
            assert(rels[q] == rv[q]);
            assert(rels.contains(rv[q]));
        } else {
            assert(backs[q - rels.len()] == rv[q]);
            assert(backs.contains(rv[q]));
        }
    }
    assert forall|b: int| rhs.contains(b) implies lhs.contains(b) by {
        let t = RelationView { kind, target: v[b].id };
        if rels.contains(t) {
            let q = choose|q: int| 0 <= q < rels.len() && rels[q] == t;
            assert(rv[q] == t);
        } else {
            assert(backs.contains(t));
            let q = choose|q: int| 0 <= q < backs.len() && backs[q] == t;
            assert(rv[rels.len() + q] == t);
        }
    }
    assert(lhs =~= rhs);
}

/// The assets one edge of kind `kind` away from the assets marked by `seen`, which are not marked
/// yet; marks them. `frontier` lists the marked assets that were not marked one round before.
pub(crate) fn expand(
    assets: &Vec<Asset>,
    seen: &mut Vec<bool>,
    frontier: &Vec<usize>,
    kind: RelationKind,
    Ghost(r): Ghost<Set<int>>,
    Ghost(prev): Ghost<Set<int>>,
) -> (next: Vec<usize>)
    requires
        assets_wf(assets@),
        old(seen)@.len() == assets@.len(),
        marks(old(seen)@, r),
        forall|q: int| 0 <= q < frontier@.len() ==> #[trigger] frontier@[q] < assets@.len(),
        listed(frontier@) == r.difference(prev),
        prev.subset_of(r),
        step(asset_views(assets@), prev, kind).subset_of(r),
    ensures
        final(seen)@.len() == assets@.len(),
        marks(final(seen)@, r.union(step(asset_views(assets@), r, kind))),
        forall|q: int| 0 <= q < next@.len() ==> #[trigger] next@[q] < assets@.len(),
        next@.no_duplicates(),
        listed(next@) == r.union(step(asset_views(assets@), r, kind)).difference(r),
{
    let ghost v = asset_views(assets@);
    let mut next: Vec<usize> = Vec::new();
    let mut fi: usize = 0;
    while fi < frontier.len()
        invariant
            v == asset_views(assets@),
            assets_wf(assets@),
            fi <= frontier@.len(),
            seen@.len() == assets@.len(),
            forall|q: int| 0 <= q < frontier@.len() ==> #[trigger] frontier@[q] < assets@.len(),
            marks(seen@, r.union(step(v, listed(frontier@.take(fi as int)), kind))),
            marks(old(seen)@, r),
            forall|q: int| 0 <= q < next@.len() ==> #[trigger] next@[q] < assets@.len(),
            next@.no_duplicates(),
            listed(next@) == step(v, listed(frontier@.take(fi as int)), kind).difference(r),
        decreases frontier@.len() - fi,
    {
        let x = frontier[fi];
        let ghost done = listed(frontier@.take(fi as int));
        let rels = assets[x].relations_iter();
        let ghost rv = ref_views(rels@);
        proof {
            assert(targets_among(v, rv, kind, 0) =~= Set::empty());
            assert(r.union(step(v, done, kind)).union(targets_among(v, rv, kind, 0)) =~= r.union(
                step(v, done, kind),
            ));
        }
        let mut ri: usize = 0;
        while ri < rels.len()
            invariant
                v == asset_views(assets@),
                assets_wf(assets@),
                x < assets@.len(),
                rv == ref_views(rels@),
                rv.len() == rels@.len(),
                rv == relation_views(assets@[x as int].relations@) + relation_views(
                    assets@[x as int].back_relations@,
                ),
                ri <= rels@.len(),
                seen@.len() == assets@.len(),
                marks(
                    seen@,
                    r.union(step(v, done, kind)).union(targets_among(v, rv, kind, ri as int)),
                ),
                forall|q: int| 0 <= q < next@.len() ==> #[trigger] next@[q] < assets@.len(),
                next@.no_duplicates(),
                listed(next@) == r.union(step(v, done, kind)).union(
                    targets_among(v, rv, kind, ri as int),
                ).difference(r),
            decreases rels@.len() - ri,
        {
            let rel = rels[ri];
            let ghost before = targets_among(v, rv, kind, ri as int);
            let ghost marked = r.union(step(v, done, kind)).union(before);
            assert(rv[ri as int] == rel@);
            if rel.kind() == kind {
                match find_asset(assets, rel.id()) {
                    Some(j) => {
                        proof {
                            assert(v[j as int].id == assets@[j as int].id@);
                            assert forall|b: int| 0 <= b < v.len() && b != j implies v[b].id
                                != v[j as int].id by {
                                assert(v[b].id == assets@[b].id@);
                                if b < j {
                                    assert(assets@[b].id@ != assets@[j as int].id@);
                                } else {
                                    assert(assets@[j as int].id@ != assets@[b].id@);
                                }
                            }
                            lemma_targets_step(v, rv, kind, ri as int, j as int);
                        }
                        if !seen[j] {
                            let ghost old_next = next@;
                            seen.set(j, true);
                            next.push(j);
                            proof {
                                lemma_listed_push(old_next, j);
                                assert(!marked.contains(j as int));
                                assert(!listed(old_next).contains(j as int));
                                assert forall|a: int, b: int|
                                    0 <= a < next@.len() && 0 <= b < next@.len() && a != b implies next@[a]
                                    != next@[b] by {
                                    if b == old_next.len() {
                                        assert(listed(old_next).contains(next@[a] as int));
                                    } else if a == old_next.len() {
                                        assert(listed(old_next).contains(next@[b] as int));
                                    }
                                }
                                assert(marked.insert(j as int).difference(r) =~= listed(
                                    old_next,
                                ).insert(j as int));
                                assert(r.union(step(v, done, kind)).union(before.insert(j as int))
                                    =~= marked.insert(j as int));
                            }
                        } else {
                            proof {
                                assert(marked.contains(j as int));
                                assert(r.union(step(v, done, kind)).union(before.insert(j as int))
                                    =~= marked);
                            }
                        }
                    },
                    None => {
                        proof {
                            assert forall|b: int| 0 <= b < v.len() implies rv[ri as int] != (
                            RelationView { kind, target: v[b].id }) by {
                                assert(v[b].id == assets@[b].id@);
                            }
                            lemma_targets_same(v, rv, kind, ri as int);
                        }
                    },
                }
            } else {
                proof {
                    lemma_targets_same(v, rv, kind, ri as int);
                }
            }
            ri = ri + 1;
        }
        proof {
            lemma_targets_all(assets@, x as int, rv, kind);
            lemma_listed_take(frontier@, fi as int);
            lemma_step_insert(v, done, x as int, kind);
            assert(r.union(step(v, done, kind)).union(edges_from(v, x as int, kind)) =~= r.union(
                step(v, done.insert(x as int), kind),
            ));
        }
        fi = fi + 1;
    }
    proof {
        assert(frontier@.take(fi as int) =~= frontier@);
        lemma_step_split(v, r, prev, kind);
        assert(step(v, r, kind).difference(r) =~= r.union(step(v, r, kind)).difference(r));
        assert(r.union(step(v, listed(frontier@), kind)).difference(r) =~= step(
            v,
            listed(frontier@),
            kind,
        ).difference(r));
    }
    next
}

proof fn lemma_distinct_bounded(s: Seq<usize>, n: nat)
    requires
        s.no_duplicates(),
        forall|q: int| 0 <= q < s.len() ==> #[trigger] s[q] < n,
    ensures
        s.len() <= n,
{
    let t = s.map_values(|x: usize| x as int);
    assert(t.no_duplicates()) by {
        assert forall|a: int, b: int| 0 <= a < t.len() && 0 <= b < t.len() && a != b implies t[a]
            != t[b] by {
            assert(s[a] != s[b]);
        }
    }
    t.unique_seq_to_set();
    lemma_int_range(0, n as int);
    assert forall|x: int| t.to_set().contains(x) implies set_int_range(0, n as int).contains(x) by {
        let q = choose|q: int| 0 <= q < t.len() && t[q] == x;
        assert(s[q] < n);
    }
    lemma_len_subset(t.to_set(), set_int_range(0, n as int));
}

/// A list of `n` unmarked positions.
pub(crate) fn unmarked(n: usize) -> (seen: Vec<bool>)
    ensures
        seen@.len() == n,
        marks(seen@, Set::empty()),
{
    let mut seen: Vec<bool> = Vec::new();
    while seen.len() < n
        invariant
            seen@.len() <= n,
            forall|j: int| 0 <= j < seen@.len() ==> !#[trigger] seen@[j],
        decreases n - seen@.len(),
    {
        seen.push(false);
    }
    seen
}

/// Marks the positions in `starts`, and lists each of them once.
pub(crate) fn mark_starts(seen: &mut Vec<bool>, starts: &Vec<usize>) -> (frontier: Vec<usize>)
    requires
        marks(old(seen)@, Set::empty()),
        forall|q: int| 0 <= q < starts@.len() ==> #[trigger] starts@[q] < old(seen)@.len(),
    ensures
        final(seen)@.len() == old(seen)@.len(),
        marks(final(seen)@, listed(starts@)),
        listed(frontier@) == listed(starts@),
        frontier@.no_duplicates(),
        forall|q: int| 0 <= q < frontier@.len() ==> #[trigger] frontier@[q] < old(seen)@.len(),
{
    let mut frontier: Vec<usize> = Vec::new();
    let mut q: usize = 0;
    proof {
        assert(listed(starts@.take(0)) =~= Set::empty());
        assert(listed(frontier@) =~= Set::empty());
    }
    while q < starts.len()
        invariant
            q <= starts@.len(),
            seen@.len() == old(seen)@.len(),
            forall|q: int| 0 <= q < starts@.len() ==> #[trigger] starts@[q] < seen@.len(),
            marks(seen@, listed(starts@.take(q as int))),
            listed(frontier@) == listed(starts@.take(q as int)),
            frontier@.no_duplicates(),
            forall|p: int| 0 <= p < frontier@.len() ==> #[trigger] frontier@[p] < seen@.len(),
        decreases starts@.len() - q,
    {
        let s = starts[q];
        proof {
            lemma_listed_take(starts@, q as int);
        }
        if !seen[s] {
            let ghost old_frontier = frontier@;
            seen.set(s, true);
            frontier.push(s);
            proof {
                lemma_listed_push(old_frontier, s);
                assert(!listed(old_frontier).contains(s as int));
                assert forall|a: int, b: int|
                    0 <= a < frontier@.len() && 0 <= b < frontier@.len() && a != b implies frontier@[a]
                    != frontier@[b] by {
                    if b == old_frontier.len() {
                        assert(listed(old_frontier).contains(frontier@[a] as int));
                    } else if a == old_frontier.len() {
                        assert(listed(old_frontier).contains(frontier@[b] as int));
                    }
                }
            }
        } else {
            proof {
                assert(listed(starts@.take(q as int)).insert(s as int) =~= listed(
                    starts@.take(q as int),
                ));
            }
        }
        q = q + 1;
    }
    proof {
        assert(starts@.take(q as int) =~= starts@);
    }
    frontier
}

/// Every asset that can be reached from the assets at `starts` along relations of kind `kind`
/// (declared by either side), each once; relations to identifiers that name no asset are passed
/// over.
pub fn closure(assets: &Vec<Asset>, starts: &Vec<usize>, kind: RelationKind) -> (r: Vec<usize>)
    requires
        assets_wf(assets@),
        forall|q: int| 0 <= q < starts@.len() ==> #[trigger] starts@[q] < assets@.len(),
    ensures
        forall|q: int| 0 <= q < r@.len() ==> #[trigger] r@[q] < assets@.len(),
        r@.no_duplicates(),
        forall|b: int|
            #[trigger] listed(r@).contains(b) <==> reachable(
                asset_views(assets@),
                listed(starts@),
                kind,
                b,
            ),
{
    let ghost v = asset_views(assets@);
    let ghost st = listed(starts@);
    let n = assets.len();
    let mut seen = unmarked(n);
    let mut frontier = mark_starts(&mut seen, starts);
    let mut result: Vec<usize> = Vec::new();
    let mut q: usize = 0;
    while q < frontier.len()
        invariant
            q <= frontier@.len(),
            result@ == frontier@.take(q as int),
        decreases frontier@.len() - q,
    {
        result.push(frontier[q]);
        proof {
            assert(frontier@.take(q as int + 1) =~= frontier@.take(q as int).push(frontier@[q as int]));
        }
        q = q + 1;
    }
    proof {
        assert(frontier@.take(q as int) =~= frontier@);
        assert(reach(v, st, kind, 0) == st);
        assert(st.difference(Set::empty()) =~= st);
        assert(step(v, Set::empty(), kind) =~= Set::empty());
        lemma_distinct_bounded(result@, n as nat);
    }
    let ghost mut k: nat = 0;
    let ghost mut prev: Set<int> = Set::empty();
    while frontier.len() > 0
        invariant
            v == asset_views(assets@),
            assets_wf(assets@),
            n == assets@.len(),
            seen@.len() == n,
            marks(seen@, reach(v, st, kind, k)),
            forall|q: int| 0 <= q < frontier@.len() ==> #[trigger] frontier@[q] < n,
            frontier@.no_duplicates(),
            listed(frontier@) == reach(v, st, kind, k).difference(prev),
            prev.subset_of(reach(v, st, kind, k)),
            step(v, prev, kind).subset_of(reach(v, st, kind, k)),
            k == 0 ==> prev == Set::<int>::empty(),
            k > 0 ==> prev == reach(v, st, kind, (k - 1) as nat),
            forall|q: int| 0 <= q < result@.len() ==> #[trigger] result@[q] < n,
            result@.no_duplicates(),
            result@.len() <= n,
            listed(result@) == reach(v, st, kind, k),
        decreases n - result@.len() + frontier@.len(),
    {
        let next = expand(assets, &mut seen, &frontier, kind, Ghost(reach(v, st, kind, k)), Ghost(prev));
        let ghost old_result = result@;
        let mut q: usize = 0;
        while q < next.len()
            invariant
                q <= next@.len(),
                result@ == old_result + next@.take(q as int),
            decreases next@.len() - q,
        {
            result.push(next[q]);
            proof {
                assert(next@.take(q as int + 1) =~= next@.take(q as int).push(next@[q as int]));
                assert(old_result + next@.take(q as int + 1) =~= (old_result + next@.take(q as int)).push(next@[q as int]));
            }
            q = q + 1;
        }
        proof {
            assert(next@.take(q as int) =~= next@);
            let r0 = reach(v, st, kind, k);
            let r1 = reach(v, st, kind, k + 1);
            assert(r1 == r0.union(step(v, r0, kind)));
            assert forall|q: int| 0 <= q < result@.len() implies #[trigger] result@[q] < n by {
                if q >= old_result.len() {
                    assert(result@[q] == next@[q - old_result.len()]);
                }
            }
            assert forall|a: int, b: int|
                0 <= a < result@.len() && 0 <= b < result@.len() && a != b implies result@[a]
                != result@[b] by {
                let m = old_result.len() as int;
                if a < m && b >= m {
                    assert(listed(old_result).contains(result@[a] as int));
                    assert(listed(next@).contains(result@[b] as int));
                } else if a >= m && b < m {
                    assert(listed(old_result).contains(result@[b] as int));
                    assert(listed(next@).contains(result@[a] as int));
                } else if a >= m && b >= m {
                    assert(next@[a - m] != next@[b - m]);
                }
            }
            assert forall|b: int| listed(result@).contains(b) <==> r1.contains(b) by {
                let m = old_result.len() as int;
                if listed(result@).contains(b) {
                    let q = choose|q: int| 0 <= q < result@.len() && result@[q] as int == b;
                    if q < m {
                        assert(listed(old_result).contains(b));
                    } else {
                        assert(listed(next@).contains(b));
                    }
                }
                if r1.contains(b) {
                    if r0.contains(b) {
                        let q = choose|q: int| 0 <= q < old_result.len() && old_result[q] as int == b;
                        assert(result@[q] == old_result[q]);
                    } else {
                        assert(listed(next@).contains(b));
                        let q = choose|q: int| 0 <= q < next@.len() && next@[q] as int == b;
                        assert(result@[m + q] == next@[q]);
                    }
                }
            }
            assert(listed(result@) =~= r1);
            lemma_distinct_bounded(result@, n as nat);
            prev = r0;
            k = k + 1;
        }
        frontier = next;
    }
    proof {
        let rk = reach(v, st, kind, k);
        assert(listed(frontier@) =~= Set::empty());
        assert forall|x: int| rk.contains(x) implies prev.contains(x) by {
            if !prev.contains(x) {
                assert(rk.difference(prev).contains(x));
            }
        }
        assert(rk =~= prev);
        if k == 0 {
            assert(step(v, rk, kind) =~= Set::empty());
            assert(reach(v, st, kind, 1) =~= rk);
        } else {
            assert(reach(v, st, kind, k) == reach(v, st, kind, (k - 1) as nat));
        }
        let kk: nat = if k == 0 { 0 } else { (k - 1) as nat };
        assert(reach(v, st, kind, kk + 1) == reach(v, st, kind, kk));
        assert forall|b: int|
            #[trigger] listed(result@).contains(b) <==> reachable(v, st, kind, b) by {
            if reachable(v, st, kind, b) {
                let j = choose|j: nat| #[trigger] reach(v, st, kind, j).contains(b);
                if j <= k {
                    lemma_reach_grows(v, st, kind, j, k);
                } else {
                    lemma_reach_stable(v, st, kind, kk, j);
                    lemma_reach_stable(v, st, kind, kk, k);
                }
            }
            if listed(result@).contains(b) {
                assert(reach(v, st, kind, k).contains(b));
            }
        }
    }
    result
}

/// The smallest position among `list` whose asset has a path.
fn first_with_path(assets: &Vec<Asset>, list: &Vec<usize>) -> (r: Option<usize>)
    requires
        forall|q: int| 0 <= q < list@.len() ==> #[trigger] list@[q] < assets@.len(),
    ensures
        r matches Some(b) ==> listed(list@).contains(b as int) && assets@[b as int].path is Some
            && forall|c: int|
            listed(list@).contains(c) && c < b ==> assets@[c].path is None,
        r is None ==> forall|c: int| listed(list@).contains(c) ==> assets@[c].path is None,
{
    let mut best: Option<usize> = None;
    let mut q: usize = 0;
    while q < list.len()
        invariant
            q <= list@.len(),
            forall|p: int| 0 <= p < list@.len() ==> #[trigger] list@[p] < assets@.len(),
            best matches Some(b) ==> listed(list@.take(q as int)).contains(b as int)
                && assets@[b as int].path is Some && forall|c: int|
                listed(list@.take(q as int)).contains(c) && c < b ==> assets@[c].path is None,
            best is None ==> forall|c: int|
                listed(list@.take(q as int)).contains(c) ==> assets@[c].path is None,
        decreases list@.len() - q,
    {
        let c = list[q];
        proof {
            lemma_listed_take(list@, q as int);
        }
        if assets[c].path.is_some() {
            match best {
                Some(b) => {
                    if c < b {
                        best = Some(c);
                    }
                },
                None => {
                    best = Some(c);
                },
            }
        }
        q = q + 1;
    }
    proof {
        assert(list@.take(q as int) =~= list@);
    }
    best
}

/// The nearest asset with a path among those that the asset at `start` lies in, directly or
/// through other containers, along containment relations declared by either side: the asset
/// itself when it has a path; otherwise, among the containers the fewest steps away that have a
/// path, the first in the database. Relations to identifiers that name no asset are passed over.
pub fn nearest_with_path(assets: &Vec<Asset>, start: usize) -> (r: Option<usize>)
    requires
        assets_wf(assets@),
        start < assets@.len(),
    ensures
        r matches Some(b) ==> is_nearest(assets@, start as int, b as int),
        r is None ==> forall|c: int|
            reachable(asset_views(assets@), set![start as int], RelationKind::ContainedBy, c)
                ==> assets@[c].path is None,
{
    let ghost v = asset_views(assets@);
    let ghost st = set![start as int];
    let kind = RelationKind::ContainedBy;
    let n = assets.len();
    let mut seen = unmarked(n);
    let starts = vec![start];
    proof {
        assert(listed(starts@) =~= st) by {
            assert(starts@[0] == start);
        }
    }
    let mut frontier = mark_starts(&mut seen, &starts);
    let mut visited: Vec<usize> = vec![start];
    proof {
        assert(reach(v, st, kind, 0) == st);
        assert(st.difference(Set::empty()) =~= st);
        assert(step(v, Set::empty(), kind) =~= Set::empty());
        assert(listed(visited@) =~= st) by {
            assert(visited@[0] == start);
        }
    }
    let ghost mut k: nat = 0;
    let ghost mut prev: Set<int> = Set::empty();
    while frontier.len() > 0
        invariant
            v == asset_views(assets@),
            assets_wf(assets@),
            n == assets@.len(),
            seen@.len() == n,
            marks(seen@, reach(v, st, kind, k)),
            forall|q: int| 0 <= q < frontier@.len() ==> #[trigger] frontier@[q] < n,
            frontier@.no_duplicates(),
            listed(frontier@) == reach(v, st, kind, k).difference(prev),
            prev.subset_of(reach(v, st, kind, k)),
            step(v, prev, kind).subset_of(reach(v, st, kind, k)),
            k == 0 ==> prev == Set::<int>::empty(),
            k > 0 ==> prev == reach(v, st, kind, (k - 1) as nat),
            forall|c: int| prev.contains(c) ==> assets@[c].path is None,
            st == set![start as int],
            kind == RelationKind::ContainedBy,
            forall|q: int| 0 <= q < visited@.len() ==> #[trigger] visited@[q] < n,
            visited@.no_duplicates(),
            visited@.len() <= n,
            listed(visited@) == reach(v, st, kind, k),
        decreases n - visited@.len() + frontier@.len(),
    {
        match first_with_path(assets, &frontier) {
            Some(b) => {
                proof {
                    assert(reach(v, st, kind, k).contains(b as int));
                    assert forall|c: int|
                        reach(v, st, kind, k).contains(c) && c < b implies assets@[c].path is None by {
                        if !prev.contains(c) {
                            assert(listed(frontier@).contains(c));
                        }
                    }
                    let kw = k;
                    assert(st == set![start as int]);
                    assert(exists|k2: nat|
                        {
                            &&& #[trigger] reach(
                                asset_views(assets@),
                                set![start as int],
                                RelationKind::ContainedBy,
                                k2,
                            ).contains(b as int)
                            &&& forall|c: int|
                                reach(
                                    asset_views(assets@),
                                    set![start as int],
                                    RelationKind::ContainedBy,
                                    k2,
                                ).contains(c) && c < b ==> assets@[c].path is None
                            &&& k2 > 0 ==> forall|c: int|
                                reach(
                                    asset_views(assets@),
                                    set![start as int],
                                    RelationKind::ContainedBy,
                                    (k2 - 1) as nat,
                                ).contains(c) ==> assets@[c].path is None
                        }) by {
                        assert(reach(v, st, kind, kw).contains(b as int));
                    }
                }
                return Some(b);
            },
            None => {},
        }
        let next = expand(assets, &mut seen, &frontier, kind, Ghost(reach(v, st, kind, k)), Ghost(prev));
        let ghost old_visited = visited@;
        let mut q: usize = 0;
        while q < next.len()
            invariant
                q <= next@.len(),
                visited@ == old_visited + next@.take(q as int),
            decreases next@.len() - q,
        {
            visited.push(next[q]);
            proof {
                assert(next@.take(q as int + 1) =~= next@.take(q as int).push(next@[q as int]));
                assert(old_visited + next@.take(q as int + 1) =~= (old_visited + next@.take(
                    q as int,
                )).push(next@[q as int]));
            }
            q = q + 1;
        }
        proof {
            assert(next@.take(q as int) =~= next@);
            let r0 = reach(v, st, kind, k);
            let r1 = reach(v, st, kind, k + 1);
            assert(r1 == r0.union(step(v, r0, kind)));
            assert forall|c: int| r0.contains(c) implies assets@[c].path is None by {
                if !prev.contains(c) {
                    assert(listed(frontier@).contains(c));
                }
            }
            assert forall|q: int| 0 <= q < visited@.len() implies #[trigger] visited@[q] < n by {
                if q >= old_visited.len() {
                    assert(visited@[q] == next@[q - old_visited.len()]);
                }
            }
            assert forall|a: int, b: int|
                0 <= a < visited@.len() && 0 <= b < visited@.len() && a != b implies visited@[a]
                != visited@[b] by {
                let m = old_visited.len() as int;
                if a < m && b >= m {
                    assert(listed(old_visited).contains(visited@[a] as int));
                    assert(listed(next@).contains(visited@[b] as int));
                } else if a >= m && b < m {
                    assert(listed(old_visited).contains(visited@[b] as int));
                    assert(listed(next@).contains(visited@[a] as int));
                } else if a >= m && b >= m {
                    assert(next@[a - m] != next@[b - m]);
                }
            }
            assert forall|b: int| listed(visited@).contains(b) <==> r1.contains(b) by {
                let m = old_visited.len() as int;
                if listed(visited@).contains(b) {
                    let q = choose|q: int| 0 <= q < visited@.len() && visited@[q] as int == b;
                    if q < m {
                        assert(listed(old_visited).contains(b));
                    } else {
                        assert(listed(next@).contains(b));
                    }
                }
                if r1.contains(b) {
                    if r0.contains(b) {
                        let q = choose|q: int|
                            0 <= q < old_visited.len() && old_visited[q] as int == b;
                        assert(visited@[q] == old_visited[q]);
                    } else {
                        assert(listed(next@).contains(b));
                        let q = choose|q: int| 0 <= q < next@.len() && next@[q] as int == b;
                        assert(visited@[m + q] == next@[q]);
                    }
                }
            }
            assert(listed(visited@) =~= r1);
            lemma_distinct_bounded(visited@, n as nat);
            prev = r0;
            k = k + 1;
        }
        frontier = next;
    }
    proof {
        let rk = reach(v, st, kind, k);
        assert(listed(frontier@) =~= Set::empty());
        assert forall|x: int| rk.contains(x) implies prev.contains(x) by {
            if !prev.contains(x) {
                assert(rk.difference(prev).contains(x));
            }
        }
        assert(rk =~= prev);
        if k == 0 {
            assert(step(v, rk, kind) =~= Set::empty());
            assert(reach(v, st, kind, 1) =~= rk);
        }
        let kk: nat = if k == 0 { 0 } else { (k - 1) as nat };
        assert(reach(v, st, kind, kk + 1) == reach(v, st, kind, kk));
        assert forall|c: int| reachable(v, st, kind, c) implies assets@[c].path is None by {
            let j = choose|j: nat| #[trigger] reach(v, st, kind, j).contains(c);
            if j <= k {
                lemma_reach_grows(v, st, kind, j, k);
            } else {
                lemma_reach_stable(v, st, kind, kk, j);
                lemma_reach_stable(v, st, kind, kk, k);
            }
        }
    }
    None
}

} // verus!
