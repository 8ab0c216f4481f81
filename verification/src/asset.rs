//! Assets and the relations between them.

use crate::asset_type::AssetType;
use crate::filter::{ascii_regex_matches, AssetFilter};
use crate::id::{id_displayable, id_text, Id, IdView};
use vstd::prelude::*;

verus! {

/// The kind of a relation between two assets.
#[derive(PartialEq, Eq, Structural, Debug, Clone, Copy, Hash)]
pub enum RelationKind {
    Uses,
    UsedBy,
    Contains,
    ContainedBy,
}

/// The kind of the relation that mirrors a relation of kind `k` on its target.
pub open spec fn inverse_kind(k: RelationKind) -> RelationKind {
    match k {
        RelationKind::Uses => RelationKind::UsedBy,
        RelationKind::UsedBy => RelationKind::Uses,
        RelationKind::Contains => RelationKind::ContainedBy,
        RelationKind::ContainedBy => RelationKind::Contains,
    }
}

/// The text shown for a kind of relation.
pub open spec fn kind_label(k: RelationKind) -> Seq<char> {
    match k {
        RelationKind::Uses => "Uses"@,
        RelationKind::UsedBy => "Used By"@,
        RelationKind::Contains => "Contains"@,
        RelationKind::ContainedBy => "Contained By"@,
    }
}

/// A relation of an asset to the asset with the given identifier.
#[derive(Debug, Hash)]
pub enum Relation {
    Uses(Id),
    UsedBy(Id),
    Contains(Id),
    ContainedBy(Id),
}

/// The abstract content of a relation: its kind and the identifier of its target.
pub struct RelationView {
    pub kind: RelationKind,
    pub target: IdView,
}

impl View for Relation {
    type V = RelationView;

    open spec fn view(&self) -> RelationView {
        match self {
            Relation::Uses(id) => RelationView { kind: RelationKind::Uses, target: id@ },
            Relation::UsedBy(id) => RelationView { kind: RelationKind::UsedBy, target: id@ },
            Relation::Contains(id) => RelationView { kind: RelationKind::Contains, target: id@ },
            Relation::ContainedBy(id) => RelationView {
                kind: RelationKind::ContainedBy,
                target: id@,
            },
        }
    }
}

impl Clone for Relation {
    fn clone(&self) -> (r: Self)
        ensures
            r@ == self@,
    {
        Relation::new(self.kind(), self.id().clone())
    }
}

impl Relation {
    /// The relation of the given kind to `id`.
    pub fn new(kind: RelationKind, id: Id) -> (r: Relation)
        ensures
            r@ == (RelationView { kind, target: id@ }),
    {
        match kind {
            RelationKind::Uses => Relation::Uses(id),
            RelationKind::UsedBy => Relation::UsedBy(id),
            RelationKind::Contains => Relation::Contains(id),
            RelationKind::ContainedBy => Relation::ContainedBy(id),
        }
    }

    /// The kind of this relation.
    pub fn kind(&self) -> (k: RelationKind)
        ensures
            k == self@.kind,
    {
        match self {
            Relation::Uses(_) => RelationKind::Uses,
            Relation::UsedBy(_) => RelationKind::UsedBy,
            Relation::Contains(_) => RelationKind::Contains,
            Relation::ContainedBy(_) => RelationKind::ContainedBy,
        }
    }

    /// The identifier of the related asset.
    pub fn id(&self) -> (r: &Id)
        ensures
            r@ == self@.target,
    {
        match self {
            Relation::Uses(id) => id,
            Relation::UsedBy(id) => id,
            Relation::Contains(id) => id,
            Relation::ContainedBy(id) => id,
        }
    }

    /// The identifier of the related asset when `other` is a relation of the same kind.
    pub fn matches_type(&self, other: &Relation) -> (r: Option<&Id>)
        ensures
            r is Some <==> self@.kind == other@.kind,
            r matches Some(id) ==> id@ == self@.target,
    {
        if self.kind() == other.kind() {
            Some(self.id())
        } else {
            None
        }
    }

    /// Whether both relations are of the same kind and have the same target.
    pub fn same(&self, other: &Relation) -> (b: bool)
        ensures
            b == (self@ == other@),
    {
        self.kind() == other.kind() && self.id().same(other.id())
    }

    /// The text shown for the kind of this relation.
    pub fn label(&self) -> (s: &'static str)
        ensures
            s@ == kind_label(self@.kind),
    {
        match self {
            Relation::Uses(_) => "Uses",
            Relation::UsedBy(_) => "Used By",
            Relation::Contains(_) => "Contains",
            Relation::ContainedBy(_) => "Contained By",
        }
    }
}

/// The abstract contents of a list of relations.
pub open spec fn relation_views(v: Seq<Relation>) -> Seq<RelationView> {
    v.map_values(|r: Relation| r@)
}

/// The abstract contents of a list of borrowed relations.
pub open spec fn ref_views(v: Seq<&Relation>) -> Seq<RelationView> {
    v.map_values(|r: &Relation| r@)
}

/// The text of an optional string.
pub open spec fn opt_text(s: Option<String>) -> Option<Seq<char>> {
    match s {
        Some(t) => Some(t@),
        None => None,
    }
}

/// An asset of a Unity project, with the relations that it declares (`relations`) and those
/// that other assets declare towards it (`back_relations`).
#[derive(Debug)]
pub struct Asset {
    pub id: Id,
    pub asset_type: AssetType,
    pub path: Option<String>,
    pub relations: Vec<Relation>,
    pub back_relations: Vec<Relation>,
}

/// The abstract content of an asset; relations form sets.
pub struct AssetView {
    pub id: IdView,
    pub asset_type: AssetType,
    pub path: Option<Seq<char>>,
    pub relations: Set<RelationView>,
    pub back_relations: Set<RelationView>,
}

impl View for Asset {
    type V = AssetView;

    open spec fn view(&self) -> AssetView {
        AssetView {
            id: self.id@,
            asset_type: self.asset_type,
            path: opt_text(self.path),
            relations: relation_views(self.relations@).to_set(),
            back_relations: relation_views(self.back_relations@).to_set(),
        }
    }
}

/// Pushes `r` onto `v` unless a relation equal to it is already there; tells whether it was
/// pushed.
pub fn insert_relation_into(v: &mut Vec<Relation>, r: Relation) -> (added: bool)
    requires
        relation_views(old(v)@).no_duplicates(),
    ensures
        relation_views(final(v)@).no_duplicates(),
        relation_views(final(v)@).to_set() == relation_views(old(v)@).to_set().insert(r@),
        added == !relation_views(old(v)@).contains(r@),
        added ==> relation_views(final(v)@) == relation_views(old(v)@).push(r@),
        !added ==> final(v)@ == old(v)@,
{
    let mut i: usize = 0;
    while i < v.len()
        invariant
            i <= v.len(),
            v@ == old(v)@,
            relation_views(v@).no_duplicates(),
            forall|j: int| 0 <= j < i ==> v@[j]@ != r@,
        decreases v.len() - i,
    {
        if v[i].same(&r) {
            proof {
                assert(relation_views(v@)[i as int] == r@);
                assert(relation_views(v@).to_set().insert(r@) =~= relation_views(v@).to_set());
            }
            return false;
        }
        i = i + 1;
    }
    let ghost before = v@;
    proof {
        assert(!relation_views(before).contains(r@)) by {
            if relation_views(before).contains(r@) {
                let j = choose|j: int| 0 <= j < before.len() && relation_views(before)[j] == r@;
                assert(before[j]@ == r@);
            }
        }
    }
    v.push(r);
    proof {
        assert(relation_views(v@) =~= relation_views(before).push(r@));
        relation_views(before).lemma_push_to_set_commute(r@);
    }
    true
}

impl Asset {
    /// Whether no relation occurs twice in either list.
    pub open spec fn wf(&self) -> bool {
        &&& relation_views(self.relations@).no_duplicates()
        &&& relation_views(self.back_relations@).no_duplicates()
    }

    /// Whether `filter` selects this asset by the text of its identifier.
    pub fn id_matches(&self, filter: &AssetFilter) -> (b: bool)
        requires
            id_displayable(self.id@),
        ensures
            b == (filter.inverted() != ascii_regex_matches(filter.source(), id_text(self.id@))),
    {
        let text = self.id.to_text();
        filter.matches(text.as_str())
    }

    /// An asset with the given relations and no back relations; a relation that occurs more
    /// than once is kept once.
    pub fn new(id: Id, typ: AssetType, path: Option<String>, relations: Vec<Relation>) -> (r: Asset)
        ensures
            r.wf(),
            r@ == (AssetView {
                id: id@,
                asset_type: typ,
                path: opt_text(path),
                relations: relation_views(relations@).to_set(),
                back_relations: Set::empty(),
            }),
    {
        let mut rels: Vec<Relation> = Vec::new();
        let mut input = relations;
        let ghost all = relations@;
        proof {
            assert(relation_views(rels@).to_set() =~= Set::empty());
        }
        let mut i: usize = 0;
        let n = input.len();
        while i < n
            invariant
                n == all.len(),
                input@.len() == n,
                i <= n,
                forall|j: int| i <= j < n ==> input@[j]@ == all[j]@,
                relation_views(rels@).no_duplicates(),
                relation_views(rels@).to_set() == relation_views(all.take(i as int)).to_set(),
            decreases n - i,
        {
            let r = input[i].clone();
            let ghost before = rels@;
            insert_relation_into(&mut rels, r);
            proof {
                let prev = all.take(i as int);
                assert(all.take(i as int + 1) =~= prev.push(all[i as int]));
                assert(relation_views(prev.push(all[i as int])) =~= relation_views(prev).push(
                    all[i as int]@,
                ));
                relation_views(prev).lemma_push_to_set_commute(all[i as int]@);
            }
            i = i + 1;
        }
        proof {
            assert(all.take(n as int) =~= all);
        }
        let back: Vec<Relation> = Vec::new();
        proof {
            assert(relation_views(back@).to_set() =~= Set::empty());
        }
        Asset { id, asset_type: typ, path, relations: rels, back_relations: back }
    }

    /// Adds a relation that this asset declares; tells whether it was not there yet.
    pub fn insert_relation(&mut self, r: Relation) -> (added: bool)
        requires
            old(self).wf(),
        ensures
            final(self).wf(),
            final(self)@ == (AssetView {
                relations: old(self)@.relations.insert(r@),
                ..old(self)@
            }),
            added == !old(self)@.relations.contains(r@),
            final(self).id == old(self).id,
            final(self).asset_type == old(self).asset_type,
            final(self).path == old(self).path,
            final(self).back_relations@ == old(self).back_relations@,
    {
        insert_relation_into(&mut self.relations, r)
    }

    /// Adds a relation that another asset declares towards this one; tells whether it was not
    /// there yet.
    pub fn insert_back_relation(&mut self, r: Relation) -> (added: bool)
        requires
            old(self).wf(),
        ensures
            final(self).wf(),
            final(self)@ == (AssetView {
                back_relations: old(self)@.back_relations.insert(r@),
                ..old(self)@
            }),
            added == !old(self)@.back_relations.contains(r@),
            final(self).id == old(self).id,
            final(self).asset_type == old(self).asset_type,
            final(self).path == old(self).path,
            final(self).relations@ == old(self).relations@,
    {
        insert_relation_into(&mut self.back_relations, r)
    }

    /// The relation that mirrors `relation` on its target: of the inverse kind, towards this
    /// asset.
    pub fn invert_relation(&self, relation: &Relation) -> (r: Relation)
        ensures
            r@ == (RelationView { kind: inverse_kind(relation@.kind), target: self.id@ }),
    {
        let id = self.id.clone();
        match relation {
            Relation::Uses(_) => Relation::UsedBy(id),
            Relation::UsedBy(_) => Relation::Uses(id),
            Relation::Contains(_) => Relation::ContainedBy(id),
            Relation::ContainedBy(_) => Relation::Contains(id),
        }
    }

    /// All relations of this asset: those it declares, then those declared towards it.
    pub fn relations_iter(&self) -> (v: Vec<&Relation>)
        ensures
            ref_views(v@) == relation_views(self.relations@) + relation_views(
                self.back_relations@,
            ),
    {
        let mut v: Vec<&Relation> = Vec::new();
        let ghost rels = relation_views(self.relations@);
        let ghost backs = relation_views(self.back_relations@);
        proof {
            assert(ref_views(v@) =~= rels.take(0));
        }
        let mut i: usize = 0;
        while i < self.relations.len()
            invariant
                i <= self.relations.len(),
                rels == relation_views(self.relations@),
                ref_views(v@) == rels.take(i as int),
            decreases self.relations.len() - i,
        {
            let ghost before = v@;
            v.push(&self.relations[i]);
            proof {
                assert(ref_views(v@) =~= ref_views(before).push(self.relations@[i as int]@));
                assert(rels.take(i as int + 1) =~= rels.take(i as int).push(rels[i as int]));
            }
            i = i + 1;
        }
        proof {
            assert(rels.take(i as int) =~= rels);
            assert(rels =~= rels + backs.take(0));
        }
        let mut k: usize = 0;
        while k < self.back_relations.len()
            invariant
                k <= self.back_relations.len(),
                rels == relation_views(self.relations@),
                backs == relation_views(self.back_relations@),
                ref_views(v@) == rels + backs.take(k as int),
            decreases self.back_relations.len() - k,
        {
            let ghost before = v@;
            v.push(&self.back_relations[k]);
            proof {
                assert(ref_views(v@) =~= ref_views(before).push(self.back_relations@[k as int]@));
                assert(rels + backs.take(k as int + 1) =~= (rels + backs.take(k as int)).push(
                    backs[k as int],
                ));
            }
            k = k + 1;
        }
        proof {
            assert(backs.take(k as int) =~= backs);
        }
        v
    }

    /// Whether some relation of this asset, declared by it or towards it, is of kind `kind`.
    pub fn has_relation_of_kind(&self, kind: RelationKind) -> (b: bool)
        ensures
            b == exists|r: RelationView|
                (self@.relations.contains(r) || self@.back_relations.contains(r)) && r.kind
                    == kind,
    {
        let all = self.relations_iter();
        let ghost rels = relation_views(self.relations@);
        let ghost backs = relation_views(self.back_relations@);
        let ghost views = ref_views(all@);
        assert(views.len() == all@.len());
        let mut i: usize = 0;
        while i < all.len()
            invariant
                i <= all.len(),
                views == ref_views(all@),
                views.len() == all@.len(),
                views == rels + backs,
                rels == relation_views(self.relations@),
                backs == relation_views(self.back_relations@),
                forall|j: int| 0 <= j < i ==> views[j].kind != kind,
            decreases all.len() - i,
        {
            if all[i].kind() == kind {
                proof {
                    let r = views[i as int];
                    assert(r == all@[i as int]@);
                    if (i as int) < rels.len() {
                        assert(rels[i as int] == r);
                        assert(rels.contains(r));
                        assert(self@.relations.contains(r));
                    } else {
                        assert(backs[i - rels.len()] == r);
                        assert(backs.contains(r));
                        assert(self@.back_relations.contains(r));
                    }
                }
                return true;
            }
            i = i + 1;
        }
        proof {
            assert forall|r: RelationView|
                (self@.relations.contains(r) || self@.back_relations.contains(r)) implies r.kind
                != kind by {
                if self@.relations.contains(r) {
                    let j = choose|j: int| 0 <= j < rels.len() && rels[j] == r;
                    assert(views[j] == r);
                } else {
                    let j = choose|j: int| 0 <= j < backs.len() && backs[j] == r;
                    assert(views[rels.len() + j] == r);
                }
            }
        }
        false
    }
}

} // verus!
