//! The asset database: every asset of a project, keyed by identifier, with the relations
//! between them.

use crate::asset::{
    inverse_kind, opt_text, relation_views, Asset, AssetView, Relation, RelationKind,
    RelationView,
};
use crate::asset_type::AssetType;
use crate::id::{Id, IdView};
use crate::project::NameSet;
use vstd::prelude::*;

verus! {

/// The abstract contents of a list of assets.
pub open spec fn asset_views(s: Seq<Asset>) -> Seq<AssetView> {
    s.map_values(|a: Asset| a@)
}

/// Whether no identifier occurs twice among `s`.
pub open spec fn ids_distinct(s: Seq<Asset>) -> bool {
    forall|a: int, b: int| 0 <= a < b < s.len() ==> s[a].id@ != s[b].id@
}

/// Whether the assets are keyed consistently: each identifier once, each asset well formed.
pub open spec fn assets_wf(s: Seq<Asset>) -> bool {
    &&& ids_distinct(s)
    &&& forall|k: int| 0 <= k < s.len() ==> #[trigger] s[k].wf()
}

/// Whether some asset of `v` has identifier `id`.
pub open spec fn has_asset(v: Seq<AssetView>, id: IdView) -> bool {
    exists|k: int| 0 <= k < v.len() && #[trigger] v[k].id == id
}

/// Whether asset `j` of `v` declares relation `f` towards `t`, a different asset.
pub open spec fn declares_towards(v: Seq<AssetView>, j: int, f: RelationView, t: IdView) -> bool {
    &&& 0 <= j < v.len()
    &&& v[j].relations.contains(f)
    &&& f.target == t
    &&& v[j].id != t
}

/// The relation that mirrors `f`, declared by an asset with identifier `source`.
pub open spec fn mirror(f: RelationView, source: IdView) -> RelationView {
    RelationView { kind: inverse_kind(f.kind), target: source }
}

/// The relations that mirror, on the asset `t`, the relations that other assets of `v` declare
/// towards it.
pub open spec fn mirrors(v: Seq<AssetView>, t: IdView) -> Set<RelationView> {
    Set::new(
        |x: RelationView|
            exists|j: int, f: RelationView| declares_towards(v, j, f, t) && x == mirror(f, v[j].id),
    )
}

/// Whether some asset of `v` declares a relation towards `t`, which is not among `v`.
pub open spec fn dangling(v: Seq<AssetView>, t: IdView) -> bool {
    &&& exists|j: int, f: RelationView| declares_towards(v, j, f, t)
    &&& !has_asset(v, t)
}

/// Whether every relation that an asset of `v` declares towards another asset is mirrored there.
pub open spec fn mirrored(v: Seq<AssetView>) -> bool {
    forall|j: int, f: RelationView|
        #![trigger v[j].relations.contains(f)]
        0 <= j < v.len() && v[j].relations.contains(f) && f.target != v[j].id ==> exists|k: int|
            0 <= k < v.len() && v[k].id == f.target && v[k].back_relations.contains(
                mirror(f, v[j].id),
            )
}

/// Whether the target of every relation declared in `v` is an asset of `v`.
pub open spec fn targets_present(v: Seq<AssetView>) -> bool {
    forall|j: int, f: RelationView|
        #![trigger v[j].relations.contains(f)]
        0 <= j < v.len() && v[j].relations.contains(f) ==> has_asset(v, f.target)
}

/// The asset database.
#[derive(Debug)]
pub struct Database {
    pub relative_to: Option<String>,
    pub roots: NameSet,
    pub loc_roots: NameSet,
    pub assets: Vec<Asset>,
}

impl RelationKind {
    /// The kind of the relation that mirrors a relation of this kind.
    pub fn inverse(self) -> (k: RelationKind)
        ensures
            k == inverse_kind(self),
    {
        match self {
            RelationKind::Uses => RelationKind::UsedBy,
            RelationKind::UsedBy => RelationKind::Uses,
            RelationKind::Contains => RelationKind::ContainedBy,
            RelationKind::ContainedBy => RelationKind::Contains,
        }
    }
}

/// A copy of a list of relations.
pub fn clone_relations(v: &Vec<Relation>) -> (r: Vec<Relation>)
    ensures
        r@.len() == v@.len(),
        forall|k: int| 0 <= k < v@.len() ==> #[trigger] r@[k]@ == v@[k]@,
{
    let mut r: Vec<Relation> = Vec::new();
    let mut i: usize = 0;
    while i < v.len()
        invariant
            i <= v.len(),
            r@.len() == i,
            forall|k: int| 0 <= k < i ==> #[trigger] r@[k]@ == v@[k]@,
        decreases v.len() - i,
    {
        r.push(v[i].clone());
        i = i + 1;
    }
    r
}

/// The position of the asset with identifier `id` among `assets`.
pub fn find_asset(assets: &Vec<Asset>, id: &Id) -> (r: Option<usize>)
    ensures
        r matches Some(i) ==> i < assets@.len() && assets@[i as int].id@ == id@,
        r is None ==> forall|k: int| 0 <= k < assets@.len() ==> assets@[k].id@ != id@,
{
    let mut i: usize = 0;
    while i < assets.len()
        invariant
            i <= assets.len(),
            forall|k: int| 0 <= k < i ==> assets@[k].id@ != id@,
        decreases assets.len() - i,
    {
        if assets[i].id.same(id) {
            return Some(i);
        }
        i = i + 1;
    }
    None
}

// ----------------------------------------------------------------------------------------------
// Mirroring relations
// ----------------------------------------------------------------------------------------------

/// Whether relation `k` of asset `j` comes before relation `m` of asset `i`, in the order in
/// which [`mirror_relations`] visits them.
pub open spec fn visited(o: Seq<Asset>, i: int, m: int, j: int, k: int) -> bool {
    &&& 0 <= j < o.len()
    &&& 0 <= k < o[j].relations@.len()
    &&& (j < i || (j == i && k < m))
}

/// Whether relation `k` of asset `j` points at `t`, another asset.
pub open spec fn points_at(o: Seq<Asset>, j: int, k: int, t: IdView) -> bool {
    o[j].relations@[k]@.target == t && o[j].id@ != t
}

/// The mirror of relation `k` of asset `j`.
pub open spec fn mirror_at(o: Seq<Asset>, j: int, k: int) -> RelationView {
    mirror(o[j].relations@[k]@, o[j].id@)
}

/// The mirrors on `t` of the relations visited before relation `m` of asset `i`.
pub open spec fn mirrors_before(o: Seq<Asset>, i: int, m: int, t: IdView) -> Set<RelationView> {
    Set::new(
        |x: RelationView|
            exists|j: int, k: int|
                #![trigger o[j].relations@[k]]
                visited(o, i, m, j, k) && points_at(o, j, k, t) && x == mirror_at(o, j, k),
    )
}

/// Whether a relation visited before relation `m` of asset `i` points at `t`, which is not
/// among `o`.
pub open spec fn dangling_before(o: Seq<Asset>, i: int, m: int, t: IdView) -> bool {
    &&& exists|j: int, k: int|
        #![trigger o[j].relations@[k]]
        visited(o, i, m, j, k) && points_at(o, j, k, t)
    &&& !has_asset(asset_views(o), t)
}

proof fn lemma_step(o: Seq<Asset>, i: int, m: int)
    requires
        0 <= i < o.len(),
        0 <= m < o[i].relations@.len(),
    ensures
        forall|t: IdView|
            #[trigger] mirrors_before(o, i, m + 1, t) == if points_at(o, i, m, t) {
                mirrors_before(o, i, m, t).insert(mirror_at(o, i, m))
            } else {
                mirrors_before(o, i, m, t)
            },
        forall|t: IdView|
            #[trigger] dangling_before(o, i, m + 1, t) == (dangling_before(o, i, m, t) || (
            points_at(o, i, m, t) && !has_asset(asset_views(o), t))),
{
    assert forall|t: IdView|
        #[trigger] mirrors_before(o, i, m + 1, t) == if points_at(o, i, m, t) {
            mirrors_before(o, i, m, t).insert(mirror_at(o, i, m))
        } else {
            mirrors_before(o, i, m, t)
        } by {
        let lhs = mirrors_before(o, i, m + 1, t);
        let rhs = if points_at(o, i, m, t) {
            mirrors_before(o, i, m, t).insert(mirror_at(o, i, m))
        } else {
            mirrors_before(o, i, m, t)
        };
        assert forall|x: RelationView| lhs.contains(x) implies rhs.contains(x) by {
            let (j, k) = choose|j: int, k: int|
                #![trigger o[j].relations@[k]]
                visited(o, i, m + 1, j, k) && points_at(o, j, k, t) && x == mirror_at(o, j, k);
            if !(j == i && k == m) {
                assert(visited(o, i, m, j, k));
            }
        }
        assert forall|x: RelationView| rhs.contains(x) implies lhs.contains(x) by {
            if points_at(o, i, m, t) && x == mirror_at(o, i, m) {
                assert(visited(o, i, m + 1, i, m));
                let _ = o[i].relations@[m];
            } else {
                let (j, k) = choose|j: int, k: int|
                    #![trigger o[j].relations@[k]]
                    visited(o, i, m, j, k) && points_at(o, j, k, t) && x == mirror_at(o, j, k);
                assert(visited(o, i, m + 1, j, k));
            }
        }
        assert(lhs =~= rhs);
    }
    assert forall|t: IdView|
        #[trigger] dangling_before(o, i, m + 1, t) == (dangling_before(o, i, m, t) || (
        points_at(o, i, m, t) && !has_asset(asset_views(o), t))) by {
        if dangling_before(o, i, m + 1, t) {
            let (j, k) = choose|j: int, k: int|
                #![trigger o[j].relations@[k]]
                visited(o, i, m + 1, j, k) && points_at(o, j, k, t);
            if !(j == i && k == m) {
                assert(visited(o, i, m, j, k));
            }
        }
        if dangling_before(o, i, m, t) {
            let (j, k) = choose|j: int, k: int|
                #![trigger o[j].relations@[k]]
                visited(o, i, m, j, k) && points_at(o, j, k, t);
            assert(visited(o, i, m + 1, j, k));
        }
        if points_at(o, i, m, t) && !has_asset(asset_views(o), t) {
            assert(visited(o, i, m + 1, i, m));
            let _ = o[i].relations@[m];
        }
    }
}

proof fn lemma_next_source(o: Seq<Asset>, i: int)
    requires
        0 <= i < o.len(),
    ensures
        forall|t: IdView|
            #[trigger] mirrors_before(o, i + 1, 0, t) == mirrors_before(
                o,
                i,
                o[i].relations@.len() as int,
                t,
            ),
        forall|t: IdView|
            #[trigger] dangling_before(o, i + 1, 0, t) == dangling_before(
                o,
                i,
                o[i].relations@.len() as int,
                t,
            ),
{
    let n = o[i].relations@.len() as int;
    assert forall|j: int, k: int| visited(o, i + 1, 0, j, k) == visited(o, i, n, j, k) by {}
    assert forall|t: IdView|
        #[trigger] mirrors_before(o, i + 1, 0, t) == mirrors_before(o, i, n, t) by {
        assert(mirrors_before(o, i + 1, 0, t) =~= mirrors_before(o, i, n, t));
    }
}

proof fn lemma_all_visited(o: Seq<Asset>, t: IdView)
    ensures
        mirrors_before(o, o.len() as int, 0, t) == mirrors(asset_views(o), t),
        dangling_before(o, o.len() as int, 0, t) == dangling(asset_views(o), t),
{
    let v = asset_views(o);
    let n = o.len() as int;
    let lhs = mirrors_before(o, n, 0, t);
    let rhs = mirrors(v, t);
    assert forall|x: RelationView| lhs.contains(x) implies rhs.contains(x) by {
        let (j, k) = choose|j: int, k: int|
            #![trigger o[j].relations@[k]]
            visited(o, n, 0, j, k) && points_at(o, j, k, t) && x == mirror_at(o, j, k);
        let f = o[j].relations@[k]@;
        assert(relation_views(o[j].relations@)[k] == f);
        assert(v[j].relations.contains(f));
        assert(declares_towards(v, j, f, t));
    }
    assert forall|x: RelationView| rhs.contains(x) implies lhs.contains(x) by {
        let (j, f) = choose|j: int, f: RelationView|
            declares_towards(v, j, f, t) && x == mirror(f, v[j].id);
        assert(relation_views(o[j].relations@).contains(f));
        let k = choose|k: int|
            0 <= k < relation_views(o[j].relations@).len() && relation_views(o[j].relations@)[k]
                == f;
        assert(o[j].relations@[k]@ == f);
        assert(visited(o, n, 0, j, k) && points_at(o, j, k, t) && x == mirror_at(o, j, k));
    }
    assert(lhs =~= rhs);
    if dangling_before(o, n, 0, t) {
        let (j, k) = choose|j: int, k: int|
            #![trigger o[j].relations@[k]]
            visited(o, n, 0, j, k) && points_at(o, j, k, t);
        let f = o[j].relations@[k]@;
        assert(relation_views(o[j].relations@)[k] == f);
        assert(declares_towards(v, j, f, t));
    }
    if dangling(v, t) {
        let (j, f) = choose|j: int, f: RelationView| declares_towards(v, j, f, t);
        assert(relation_views(o[j].relations@).contains(f));
        let k = choose|k: int|
            0 <= k < relation_views(o[j].relations@).len() && relation_views(o[j].relations@)[k]
                == f;
        assert(visited(o, n, 0, j, k) && points_at(o, j, k, t));
    }
}

/// Mirrors every relation that an asset declares towards another asset on that asset, as a
/// back relation; where the target is missing, adds it as a broken reference. The assets that
/// were there keep their place; the broken references come after them.
pub fn mirror_relations(assets: &mut Vec<Asset>)
    requires
        assets_wf(old(assets)@),
    ensures
        assets_wf(final(assets)@),
        final(assets)@.len() >= old(assets)@.len(),
        forall|k: int|
            0 <= k < old(assets)@.len() ==> #[trigger] final(assets)@[k]@ == (AssetView {
                back_relations: old(assets)@[k]@.back_relations.union(
                    mirrors(asset_views(old(assets)@), old(assets)@[k]@.id),
                ),
                ..old(assets)@[k]@
            }),
        forall|k: int|
            old(assets)@.len() <= k < final(assets)@.len() ==> #[trigger] final(assets)@[k]@ == (
            AssetView {
                id: final(assets)@[k]@.id,
                asset_type: AssetType::BrokenRef,
                path: None,
                relations: Set::empty(),
                back_relations: mirrors(asset_views(old(assets)@), final(assets)@[k]@.id),
            }),
        forall|t: IdView|
            #[trigger] dangling(asset_views(old(assets)@), t) <==> exists|k: int|
                old(assets)@.len() <= k < final(assets)@.len() && final(assets)@[k]@.id == t,
{
    let ghost o = assets@;
    let n0 = assets.len();
    let mut i: usize = 0;
    while i < n0
        invariant
            n0 == o.len(),
            i <= n0,
            assets_wf(assets@),
            n0 <= assets@.len(),
            forall|k: int|
                0 <= k < n0 ==> {
                    &&& #[trigger] assets@[k].id@ == o[k].id@
                    &&& assets@[k].asset_type == o[k].asset_type
                    &&& assets@[k].path == o[k].path
                    &&& assets@[k].relations@ == o[k].relations@
                    &&& assets@[k]@.back_relations == o[k]@.back_relations.union(
                        mirrors_before(o, i as int, 0, o[k].id@),
                    )
                },
            forall|k: int|
                n0 <= k < assets@.len() ==> {
                    &&& !has_asset(asset_views(o), #[trigger] assets@[k].id@)
                    &&& assets@[k].asset_type == AssetType::BrokenRef
                    &&& assets@[k].path is None
                    &&& assets@[k].relations@.len() == 0
                    &&& assets@[k]@.back_relations == mirrors_before(
                        o,
                        i as int,
                        0,
                        assets@[k].id@,
                    )
                },
            forall|t: IdView|
                #[trigger] dangling_before(o, i as int, 0, t) <==> exists|k: int|
                    n0 <= k < assets@.len() && assets@[k].id@ == t,
        decreases n0 - i,
    {
        let rels = clone_relations(&assets[i].relations);
        let source = assets[i].id.clone();
        let mut m: usize = 0;
        while m < rels.len()
            invariant
                n0 == o.len(),
                i < n0,
                m <= rels@.len(),
                rels@.len() == o[i as int].relations@.len(),
                forall|k: int| 0 <= k < rels@.len() ==> #[trigger] rels@[k]@ == o[i as int].relations@[k]@,
                source@ == o[i as int].id@,
                assets_wf(assets@),
                n0 <= assets@.len(),
                forall|k: int|
                    0 <= k < n0 ==> {
                        &&& #[trigger] assets@[k].id@ == o[k].id@
                        &&& assets@[k].asset_type == o[k].asset_type
                        &&& assets@[k].path == o[k].path
                        &&& assets@[k].relations@ == o[k].relations@
                        &&& assets@[k]@.back_relations == o[k]@.back_relations.union(
                            mirrors_before(o, i as int, m as int, o[k].id@),
                        )
                    },
                forall|k: int|
                    n0 <= k < assets@.len() ==> {
                        &&& !has_asset(asset_views(o), #[trigger] assets@[k].id@)
                        &&& assets@[k].asset_type == AssetType::BrokenRef
                        &&& assets@[k].path is None
                        &&& assets@[k].relations@.len() == 0
                        &&& assets@[k]@.back_relations == mirrors_before(
                            o,
                            i as int,
                            m as int,
                            assets@[k].id@,
                        )
                    },
                forall|t: IdView|
                    #[trigger] dangling_before(o, i as int, m as int, t) <==> exists|k: int|
                        n0 <= k < assets@.len() && assets@[k].id@ == t,
            decreases rels@.len() - m,
        {
            proof {
                lemma_step(o, i as int, m as int);
            }
            let rel = &rels[m];
            let ghost t = rel@.target;
            let ghost before = assets@;
            if !rel.id().same(&source) {
                let inv = Relation::new(rel.kind().inverse(), source.clone());
                proof {
                    assert(points_at(o, i as int, m as int, t));
                    assert(inv@ == mirror_at(o, i as int, m as int));
                    assert(mirrors_before(o, i as int, m + 1, t) == mirrors_before(
                        o,
                        i as int,
                        m as int,
                        t,
                    ).insert(inv@));
                }
                match find_asset(assets, rel.id()) {
                    Some(j) => {
                        assets[j].insert_back_relation(inv);
                        proof {
                            assert(assets@.len() == before.len());
                            assert forall|k: int|
                                0 <= k < assets@.len() && k != j implies assets@[k]
                                == before[k] by {}
                            assert forall|k: int|
                                0 <= k < assets@.len() implies #[trigger] assets@[k].wf() by {
                                if k != j {
                                    assert(before[k].wf());
                                }
                            }
                            assert forall|k: int| 0 <= k < assets@.len() && k != j implies (
                            #[trigger] assets@[k]).id@ != t by {
                                assert(before[k].id@ != before[j as int].id@);
                            }
                            if (j as int) < n0 {
                                assert(has_asset(asset_views(o), t)) by {
                                    assert(asset_views(o)[j as int].id == t);
                                }
                            } else {
                                assert(dangling_before(o, i as int, m as int, t));
                            }
                            assert forall|k: int| 0 <= k < n0 implies {
                                &&& #[trigger] assets@[k].id@ == o[k].id@
                                &&& assets@[k].asset_type == o[k].asset_type
                                &&& assets@[k].path == o[k].path
                                &&& assets@[k].relations@ == o[k].relations@
                                &&& assets@[k]@.back_relations == o[k]@.back_relations.union(
                                    mirrors_before(o, i as int, m + 1, o[k].id@),
                                )
                            } by {
                                assert(before[k].id@ == o[k].id@);
                                if k == j {
                                    assert(assets@[k]@.back_relations =~= o[k]@.back_relations.union(
                                        mirrors_before(o, i as int, m + 1, o[k].id@),
                                    ));
                                } else {
                                    assert(!points_at(o, i as int, m as int, o[k].id@));
                                }
                            }
                            assert forall|k: int| n0 <= k < assets@.len() implies {
                                &&& !has_asset(asset_views(o), #[trigger] assets@[k].id@)
                                &&& assets@[k].asset_type == AssetType::BrokenRef
                                &&& assets@[k].path is None
                                &&& assets@[k].relations@.len() == 0
                                &&& assets@[k]@.back_relations == mirrors_before(
                                    o,
                                    i as int,
                                    m + 1,
                                    assets@[k].id@,
                                )
                            } by {
                                assert(!has_asset(asset_views(o), before[k].id@));
                                if k == j {
                                    assert(assets@[k]@.back_relations =~= mirrors_before(
                                        o,
                                        i as int,
                                        m + 1,
                                        assets@[k].id@,
                                    ));
                                } else {
                                    assert(!points_at(o, i as int, m as int, assets@[k].id@));
                                }
                            }
                            assert forall|t2: IdView|
                                #[trigger] dangling_before(o, i as int, m + 1, t2) <==> exists|
                                    k: int,
                                | n0 <= k < assets@.len() && assets@[k].id@ == t2 by {
                                if exists|k: int| n0 <= k < assets@.len() && assets@[k].id@ == t2 {
                                    let k = choose|k: int|
                                        n0 <= k < assets@.len() && assets@[k].id@ == t2;
                                    assert(before[k].id@ == t2);
                                }
                                if exists|k: int| n0 <= k < before.len() && before[k].id@ == t2 {
                                    let k = choose|k: int|
                                        n0 <= k < before.len() && before[k].id@ == t2;
                                    assert(assets@[k].id@ == t2);
                                }
                            }
                        }
                    },
                    None => {
                        proof {
                            assert(!has_asset(asset_views(o), t)) by {
                                if has_asset(asset_views(o), t) {
                                    let k = choose|k: int|
                                        0 <= k < asset_views(o).len() && #[trigger] asset_views(
                                            o,
                                        )[k].id == t;
                                    assert(assets@[k].id@ == t);
                                }
                            }
                            assert(!dangling_before(o, i as int, m as int, t));
                            assert(mirrors_before(o, i as int, m as int, t) =~= Set::empty()) by {
                                assert forall|x: RelationView|
                                    !mirrors_before(o, i as int, m as int, t).contains(x) by {
                                    if mirrors_before(o, i as int, m as int, t).contains(x) {
                                        let (j, k) = choose|j: int, k: int|
                                            #![trigger o[j].relations@[k]]
                                            visited(o, i as int, m as int, j, k) && points_at(
                                                o,
                                                j,
                                                k,
                                                t,
                                            ) && x == mirror_at(o, j, k);
                                        assert(dangling_before(o, i as int, m as int, t));
                                    }
                                }
                            }
                        }
                        let broken = Asset {
                            id: rel.id().clone(),
                            asset_type: AssetType::BrokenRef,
                            path: None,
                            relations: Vec::new(),
                            back_relations: vec![inv],
                        };
                        proof {
                            assert(relation_views(broken.back_relations@) =~= seq![inv@]);
                            assert(seq![inv@].to_set() =~= Set::<RelationView>::empty().insert(
                                inv@,
                            )) by {
                                assert(seq![inv@][0] == inv@);
                            }
                            assert(broken@.back_relations =~= mirrors_before(
                                o,
                                i as int,
                                m + 1,
                                t,
                            ));
                        }
                        assets.push(broken);
                        proof {
                            let nb = before.len() as int;
                            assert forall|k: int| 0 <= k < nb implies assets@[k] == before[k] by {}
                            assert forall|k: int|
                                0 <= k < assets@.len() implies #[trigger] assets@[k].wf() by {
                                if k < nb {
                                    assert(before[k].wf());
                                }
                            }
                            assert forall|a: int, b: int|
                                0 <= a < b < assets@.len() implies assets@[a].id@
                                != assets@[b].id@ by {
                                if b == nb {
                                    assert(before[a].id@ != t);
                                }
                            }
                            assert forall|k: int| 0 <= k < n0 implies {
                                &&& #[trigger] assets@[k].id@ == o[k].id@
                                &&& assets@[k].asset_type == o[k].asset_type
                                &&& assets@[k].path == o[k].path
                                &&& assets@[k].relations@ == o[k].relations@
                                &&& assets@[k]@.back_relations == o[k]@.back_relations.union(
                                    mirrors_before(o, i as int, m + 1, o[k].id@),
                                )
                            } by {
                                assert(before[k].id@ == o[k].id@);
                                assert(o[k].id@ != t) by {
                                    assert(asset_views(o)[k].id == o[k].id@);
                                }
                                assert(!points_at(o, i as int, m as int, o[k].id@));
                            }
                            assert forall|k: int| n0 <= k < assets@.len() implies {
                                &&& !has_asset(asset_views(o), #[trigger] assets@[k].id@)
                                &&& assets@[k].asset_type == AssetType::BrokenRef
                                &&& assets@[k].path is None
                                &&& assets@[k].relations@.len() == 0
                                &&& assets@[k]@.back_relations == mirrors_before(
                                    o,
                                    i as int,
                                    m + 1,
                                    assets@[k].id@,
                                )
                            } by {
                                if k < nb {
                                    assert(!has_asset(asset_views(o), before[k].id@));
                                    assert(before[k].id@ != t);
                                    assert(!points_at(o, i as int, m as int, assets@[k].id@));
                                }
                            }
                            assert forall|t2: IdView|
                                #[trigger] dangling_before(o, i as int, m + 1, t2) <==> exists|
                                    k: int,
                                | n0 <= k < assets@.len() && assets@[k].id@ == t2 by {
                                if t2 == t {
                                    assert(assets@[nb].id@ == t);
                                }
                                if exists|k: int| n0 <= k < assets@.len() && assets@[k].id@ == t2 {
                                    let k = choose|k: int|
                                        n0 <= k < assets@.len() && assets@[k].id@ == t2;
                                    if k < nb {
                                        assert(before[k].id@ == t2);
                                    }
                                }
                                if exists|k: int| n0 <= k < before.len() && before[k].id@ == t2 {
                                    let k = choose|k: int|
                                        n0 <= k < before.len() && before[k].id@ == t2;
                                    assert(assets@[k].id@ == t2);
                                }
                            }
                        }
                    },
                }
            } else {
                proof {
                    assert forall|t2: IdView| !points_at(o, i as int, m as int, t2) by {}
                    assert forall|k: int| 0 <= k < n0 implies #[trigger] mirrors_before(
                        o,
                        i as int,
                        m + 1,
                        o[k].id@,
                    ) == mirrors_before(o, i as int, m as int, o[k].id@) by {}
                    assert forall|k: int| n0 <= k < assets@.len() implies #[trigger] mirrors_before(
                        o,
                        i as int,
                        m + 1,
                        assets@[k].id@,
                    ) == mirrors_before(o, i as int, m as int, assets@[k].id@) by {}
                }
            }
            m = m + 1;
        }
        proof {
            lemma_next_source(o, i as int);
        }
        i = i + 1;
    }
    proof {
        assert forall|t: IdView|
            mirrors_before(o, n0 as int, 0, t) == mirrors(asset_views(o), t) && dangling_before(
                o,
                n0 as int,
                0,
                t,
            ) == dangling(asset_views(o), t) by {
            lemma_all_visited(o, t);
        }
        assert forall|k: int| n0 <= k < assets@.len() implies relation_views(
            #[trigger] assets@[k].relations@,
        ).to_set() =~= Set::<RelationView>::empty() by {
            assert(!has_asset(asset_views(o), assets@[k].id@));
            assert(assets@[k].relations@.len() == 0);
        }
    }
}

/// The items of `s` whose entry of `keep` is true, in order.
pub open spec fn kept_only<T>(s: Seq<T>, keep: Seq<bool>) -> Seq<T>
    decreases s.len(),
{
    if s.len() == 0 {
        Seq::empty()
    } else {
        (if keep.len() > 0 && keep[0] {
            seq![s[0]]
        } else {
            Seq::empty()
        }) + kept_only(s.drop_first(), keep.drop_first())
    }
}

/// What becomes of a package on disk that a manifest or a package file depends on.
#[derive(PartialEq, Eq, Structural, Debug, Clone, Copy)]
pub enum FollowAction {
    /// Its directory is a root already.
    Known,
    /// Its directory exists and is to be added as a root, with its own dependencies.
    Add,
    /// Its directory does not exist; the dependency is noted as not found.
    Missing,
}

impl Database {
    /// Whether each identifier names one asset and every asset is well formed.
    pub open spec fn wf(&self) -> bool {
        assets_wf(self.assets@)
    }

    /// An empty database whose paths are relative to `relative_to`.
    pub fn new(relative_to: Option<String>) -> (r: Database)
        ensures
            r.wf(),
            r.relative_to == relative_to,
            r.roots@ == Set::<Seq<char>>::empty(),
            r.loc_roots@ == Set::<Seq<char>>::empty(),
            r.assets@.len() == 0,
    {
        Database { relative_to, roots: NameSet::new(), loc_roots: NameSet::new(), assets: Vec::new() }
    }

    /// The position of the asset with identifier `id`.
    pub fn find(&self, id: &Id) -> (r: Option<usize>)
        ensures
            r matches Some(i) ==> i < self.assets@.len() && self.assets@[i as int].id@ == id@,
            r is None ==> !has_asset(asset_views(self.assets@), id@),
    {
        let r = find_asset(&self.assets, id);
        proof {
            if r is None {
                assert(!has_asset(asset_views(self.assets@), id@)) by {
                    if has_asset(asset_views(self.assets@), id@) {
                        let k = choose|k: int|
                            0 <= k < asset_views(self.assets@).len() && #[trigger] asset_views(
                                self.assets@,
                            )[k].id == id@;
                        assert(self.assets@[k].id@ == id@);
                    }
                }
            }
        }
        r
    }

    /// The asset with identifier `id`.
    pub fn asset(&self, id: &Id) -> (r: Option<&Asset>)
        ensures
            r matches Some(a) ==> a.id@ == id@ && exists|k: int|
                0 <= k < self.assets@.len() && self.assets@[k] == *a,
            r is None ==> !has_asset(asset_views(self.assets@), id@),
    {
        match self.find(id) {
            Some(i) => Some(&self.assets[i]),
            None => None,
        }
    }

    /// The assets, in the order in which they were added.
    pub fn assets(&self) -> (r: &Vec<Asset>)
        ensures
            r == &self.assets,
    {
        &self.assets
    }

    /// The root directories of the project.
    pub fn roots(&self) -> (r: &NameSet)
        ensures
            r == &self.roots,
    {
        &self.roots
    }

    /// The root directories of localization resources.
    pub fn loc_roots(&self) -> (r: &NameSet)
        ensures
            r == &self.loc_roots,
    {
        &self.loc_roots
    }

    /// Adds a root directory; tells whether it was not a root yet.
    pub fn insert_root(&mut self, path: String) -> (added: bool)
        ensures
            final(self).roots@ == old(self).roots@.insert(path@),
            added == !old(self).roots@.contains(path@),
            final(self).loc_roots == old(self).loc_roots,
            final(self).assets == old(self).assets,
            final(self).relative_to == old(self).relative_to,
    {
        self.roots.insert(path)
    }

    /// Whether `path` is a root directory.
    pub fn has_root(&self, path: &str) -> (b: bool)
        ensures
            b == self.roots@.contains(path@),
    {
        self.roots.contains(path)
    }

    /// What to do with the dependency `name` on the package directory `path` (which exists or
    /// not, as `exists` says): nothing where it is a root already; add it where it exists; and
    /// otherwise note `name` in `unresolved`, as a dependency that is not found.
    pub fn follow_local(&self, name: String, path: &str, exists: bool, unresolved: &mut NameSet) -> (r:
        FollowAction)
        ensures
            self.roots@.contains(path@) ==> r == FollowAction::Known && final(unresolved)@ == old(
                unresolved,
            )@,
            !self.roots@.contains(path@) && exists ==> r == FollowAction::Add && final(unresolved)@
                == old(unresolved)@,
            !self.roots@.contains(path@) && !exists ==> r == FollowAction::Missing
                && final(unresolved)@ == old(unresolved)@.insert(name@),
    {
        if self.has_root(path) {
            FollowAction::Known
        } else if exists {
            FollowAction::Add
        } else {
            unresolved.insert(name);
            FollowAction::Missing
        }
    }

    /// Keeps the assets whose entry of `keep` is true (those that were read), in order, and drops
    /// the others.
    pub fn retain_assets(&mut self, keep: &Vec<bool>)
        requires
            old(self).wf(),
            keep@.len() == old(self).assets@.len(),
        ensures
            final(self).wf(),
            final(self).roots == old(self).roots,
            final(self).loc_roots == old(self).loc_roots,
            final(self).relative_to == old(self).relative_to,
            final(self).assets@ == kept_only(old(self).assets@, keep@),
    {
        let ghost s = self.assets@;
        let ghost k = keep@;
        let mut i: usize = self.assets.len();
        proof {
            assert(s.skip(i as int) =~= Seq::<Asset>::empty());
            assert(s.take(i as int) =~= s);
            assert(kept_only(s.skip(i as int), k.skip(i as int)) =~= Seq::<Asset>::empty());
        }
        while i > 0
            invariant
                i <= s.len(),
                k.len() == s.len(),
                k == keep@,
                assets_wf(self.assets@),
                self.assets@ == s.take(i as int) + kept_only(s.skip(i as int), k.skip(i as int)),
                self.roots == old(self).roots,
                self.loc_roots == old(self).loc_roots,
                self.relative_to == old(self).relative_to,
            decreases i,
        {
            let ghost rest = kept_only(s.skip(i as int), k.skip(i as int));
            i = i - 1;
            proof {
                assert(s.skip(i as int).drop_first() =~= s.skip(i + 1));
                assert(k.skip(i as int).drop_first() =~= k.skip(i + 1));
                assert(s.skip(i as int)[0] == s[i as int]);
                assert(k.skip(i as int)[0] == k[i as int]);
                assert(s.take(i + 1) =~= s.take(i as int).push(s[i as int]));
            }
            if keep[i] {
                proof {
                    assert(kept_only(s.skip(i as int), k.skip(i as int)) =~= seq![s[i as int]] + rest);
                    assert(s.take(i + 1) + rest =~= s.take(i as int) + (seq![s[i as int]] + rest));
                }
            } else {
                let ghost before = self.assets@;
                self.assets.remove(i);
                proof {
                    assert(kept_only(s.skip(i as int), k.skip(i as int)) =~= rest);
                    assert(before.remove(i as int) =~= s.take(i as int) + rest);
                    assert forall|a: int, b: int| 0 <= a < b < self.assets@.len() implies self.assets@[a].id@
                        != self.assets@[b].id@ by {
                        let a2 = if a < i { a } else { a + 1 };
                        let b2 = if b < i { b } else { b + 1 };
                        assert(self.assets@[a] == before[a2]);
                        assert(self.assets@[b] == before[b2]);
                    }
                    assert forall|q: int| 0 <= q < self.assets@.len() implies #[trigger] self.assets@[q].wf() by {
                        let q2 = if q < i { q } else { q + 1 };
                        assert(self.assets@[q] == before[q2]);
                    }
                }
            }
        }
        proof {
            assert(s.take(0) =~= Seq::<Asset>::empty());
            assert(s.skip(0) =~= s);
            assert(k.skip(0) =~= k);
            assert(self.assets@ =~= kept_only(s, k));
        }
    }

    /// Stores `asset` under its identifier; an asset that was stored under it is replaced, in its
    /// place, and handed back.
    pub fn insert_asset(&mut self, asset: Asset) -> (r: Option<Asset>)
        requires
            old(self).wf(),
            asset.wf(),
        ensures
            final(self).wf(),
            final(self).roots == old(self).roots,
            final(self).loc_roots == old(self).loc_roots,
            final(self).relative_to == old(self).relative_to,
            match r {
                Some(prev) => exists|k: int|
                    0 <= k < old(self).assets@.len() && old(self).assets@[k] == prev
                        && prev.id@ == asset.id@ && final(self).assets@ == old(self).assets@.update(
                        k,
                        asset,
                    ),
                None => !has_asset(asset_views(old(self).assets@), asset.id@)
                    && final(self).assets@ == old(self).assets@.push(asset),
            },
    {
        match self.find(&asset.id) {
            Some(i) => {
                let ghost before = self.assets@;
                let mut asset = asset;
                std::mem::swap(&mut self.assets[i], &mut asset);
                proof {
                    assert(self.assets@ == before.update(i as int, self.assets@[i as int]));
                    assert forall|k: int|
                        0 <= k < self.assets@.len() implies #[trigger] self.assets@[k].wf() by {
                        if k != i {
                            assert(before[k].wf());
                        }
                    }
                    assert forall|a: int, b: int|
                        0 <= a < b < self.assets@.len() implies self.assets@[a].id@
                        != self.assets@[b].id@ by {
                        assert(before[a].id@ != before[b].id@);
                    }
                }
                Some(asset)
            },
            None => {
                let ghost before = self.assets@;
                self.assets.push(asset);
                proof {
                    assert forall|k: int|
                        0 <= k < self.assets@.len() implies #[trigger] self.assets@[k].wf() by {
                        if k < before.len() {
                            assert(before[k].wf());
                        }
                    }
                    assert forall|a: int, b: int|
                        0 <= a < b < self.assets@.len() implies self.assets@[a].id@
                        != self.assets@[b].id@ by {
                        if b == before.len() {
                            assert(asset_views(before)[a].id == before[a].id@);
                        }
                    }
                }
                None
            },
        }
    }

    /// Adds a relation that the asset with identifier `id` declares; tells whether there is such
    /// an asset and the relation was not there yet.
    pub fn add_relation(&mut self, id: &Id, relation: Relation) -> (added: bool)
        requires
            old(self).wf(),
        ensures
            final(self).wf(),
            final(self).roots == old(self).roots,
            final(self).loc_roots == old(self).loc_roots,
            final(self).relative_to == old(self).relative_to,
            final(self).assets@.len() == old(self).assets@.len(),
            forall|k: int|
                0 <= k < old(self).assets@.len() ==> #[trigger] final(self).assets@[k]@ == if old(self).assets@[k].id@ == id@ {
                    AssetView {
                        relations: old(self).assets@[k]@.relations.insert(relation@),
                        ..old(self).assets@[k]@
                    }
                } else {
                    old(self).assets@[k]@
                },
            added == (has_asset(asset_views(old(self).assets@), id@) && !exists|k: int|
                0 <= k < old(self).assets@.len() && old(self).assets@[k].id@ == id@ && old(self).assets@[k]@.relations.contains(relation@)),
    {
        match self.find(id) {
            Some(i) => {
                let ghost before = self.assets@;
                let added = self.assets[i].insert_relation(relation);
                proof {
                    assert forall|k: int|
                        0 <= k < self.assets@.len() implies #[trigger] self.assets@[k].wf() by {
                        if k != i {
                            assert(before[k].wf());
                        }
                    }
                    assert forall|k: int| 0 <= k < before.len() && k != i implies before[k].id@
                        != id@ by {
                        assert(before[k].id@ != before[i as int].id@);
                    }
                    assert(asset_views(before)[i as int].id == id@);
                }
                added
            },
            None => {
                proof {
                    assert forall|k: int| 0 <= k < self.assets@.len() implies self.assets@[k].id@
                        != id@ by {
                        assert(asset_views(self.assets@)[k].id == self.assets@[k].id@);
                    }
                }
                false
            },
        }
    }

    /// Mirrors every relation that an asset declares towards another asset on that asset, as a
    /// back relation; where the target is missing, adds it as a broken reference after the
    /// assets that were there. Afterwards every relation's target is an asset of the database
    /// and carries the mirror of the relation.
    pub fn populate_reverse_dependencies(&mut self)
        requires
            old(self).wf(),
        ensures
            final(self).wf(),
            final(self).roots == old(self).roots,
            final(self).loc_roots == old(self).loc_roots,
            final(self).relative_to == old(self).relative_to,
            final(self).assets@.len() >= old(self).assets@.len(),
            forall|k: int|
                0 <= k < old(self).assets@.len() ==> #[trigger] final(self).assets@[k]@ == (
                AssetView {
                    back_relations: old(self).assets@[k]@.back_relations.union(
                        mirrors(asset_views(old(self).assets@), old(self).assets@[k]@.id),
                    ),
                    ..old(self).assets@[k]@
                }),
            forall|k: int|
                old(self).assets@.len() <= k < final(self).assets@.len() ==> #[trigger] final(self).assets@[k]@ == (AssetView {
                    id: final(self).assets@[k]@.id,
                    asset_type: AssetType::BrokenRef,
                    path: None,
                    relations: Set::empty(),
                    back_relations: mirrors(
                        asset_views(old(self).assets@),
                        final(self).assets@[k]@.id,
                    ),
                }),
            forall|t: IdView|
                #[trigger] dangling(asset_views(old(self).assets@), t) <==> exists|k: int|
                    old(self).assets@.len() <= k < final(self).assets@.len()
                        && final(self).assets@[k]@.id == t,
            mirrored(asset_views(final(self).assets@)),
            targets_present(asset_views(final(self).assets@)),
    {
        let ghost o = self.assets@;
        mirror_relations(&mut self.assets);
        proof {
            let ov = asset_views(o);
            let v = asset_views(self.assets@);
            let n0 = o.len() as int;
            assert forall|j: int, f: RelationView|
                0 <= j < v.len() && #[trigger] v[j].relations.contains(f) implies exists|k: int|
                0 <= k < v.len() && v[k].id == f.target && (f.target == v[j].id
                    || v[k].back_relations.contains(mirror(f, v[j].id))) by {
                if j >= n0 {
                    assert(v[j] == self.assets@[j]@);
                    assert(!Set::<RelationView>::empty().contains(f));
                } else {
                    assert(v[j] == self.assets@[j]@);
                    assert(ov[j] == o[j]@);
                    let t = f.target;
                    if t == v[j].id {
                        assert(v[j].id == f.target);
                    } else {
                        assert(declares_towards(ov, j, f, t));
                        assert(mirrors(ov, t).contains(mirror(f, ov[j].id)));
                        if has_asset(ov, t) {
                            let k = choose|k: int| 0 <= k < ov.len() && #[trigger] ov[k].id == t;
                            assert(self.assets@[k]@.id == t);
                            assert(v[k] == self.assets@[k]@);
                        } else {
                            assert(dangling(ov, t));
                            let k = choose|k: int|
                                n0 <= k < self.assets@.len() && self.assets@[k]@.id == t;
                            assert(v[k] == self.assets@[k]@);
                        }
                    }
                }
            }
        }
    }
}

/// Mirroring the relations of a database whose relations are already mirrored and whose
/// targets are all present changes nothing: every back relation it would add is there, and no
/// broken reference is added.
pub proof fn law_mirroring_settles(v: Seq<AssetView>)
    requires
        forall|a: int, b: int| 0 <= a < b < v.len() ==> v[a].id != v[b].id,
        mirrored(v),
        targets_present(v),
    ensures
        forall|k: int|
            0 <= k < v.len() ==> #[trigger] v[k].back_relations.union(mirrors(v, v[k].id))
                == v[k].back_relations,
        forall|t: IdView| !#[trigger] dangling(v, t),
{
    assert forall|k: int| 0 <= k < v.len() implies #[trigger] v[k].back_relations.union(
        mirrors(v, v[k].id),
    ) == v[k].back_relations by {
        assert forall|x: RelationView| mirrors(v, v[k].id).contains(x) implies v[k].back_relations.contains(
            x,
        ) by {
            let (j, f) = choose|j: int, f: RelationView|
                declares_towards(v, j, f, v[k].id) && x == mirror(f, v[j].id);
            assert(v[j].relations.contains(f));
            let k2 = choose|k2: int|
                0 <= k2 < v.len() && v[k2].id == f.target && v[k2].back_relations.contains(
                    mirror(f, v[j].id),
                );
            if k2 != k {
                if k2 < k {
                    assert(v[k2].id != v[k].id);
                } else {
                    assert(v[k].id != v[k2].id);
                }
            }
        }
        assert(v[k].back_relations.union(mirrors(v, v[k].id)) =~= v[k].back_relations);
    }
    assert forall|t: IdView| !#[trigger] dangling(v, t) by {
        if dangling(v, t) {
            let (j, f) = choose|j: int, f: RelationView| declares_towards(v, j, f, t);
            assert(v[j].relations.contains(f));
            assert(has_asset(v, f.target));
        }
    }
}

} // verus!
