//! Brokering of C# type references: a file that uses a type it does not declare files a request,
//! and once every declared type is known the requests are matched against them.

use crate::asset::{AssetView, Relation, RelationKind, RelationView};
use crate::database::{asset_views, Database};
use crate::id::{Id, IdView};
use crate::qualified_name::search::{
    fresh_in, inserted_all_view, inserted_view, is_prefix, is_proper_prefix, law_node_at_names,
    law_prefix_reaches_node, QualifiedNameSearchTree,
};
use crate::qualified_name::{
    names_equal, names_match, NameView, PartView, QualifiedName, QualifiedNameOwned,
    QualifiedNameRef,
};
use vstd::prelude::*;

verus! {

/// A reference to a type that the file which makes it does not declare.
#[derive(Debug)]
pub struct TypeRequest {
    /// The asset that uses the type.
    pub requester: Id,
    /// The name of the type as written, unqualified or partly qualified.
    pub partial_name: QualifiedNameOwned,
    /// The namespaces in scope where the type is used.
    pub scoped_namespaces: Vec<QualifiedNameOwned>,
}

/// The abstract content of a type request.
pub struct RequestView {
    pub requester: IdView,
    pub partial: NameView,
    pub scoped: Seq<NameView>,
}

/// The abstract contents of a list of names.
pub open spec fn name_views(v: Seq<QualifiedNameOwned>) -> Seq<NameView> {
    v.map_values(|n: QualifiedNameOwned| n@)
}

impl View for TypeRequest {
    type V = RequestView;

    open spec fn view(&self) -> RequestView {
        RequestView {
            requester: self.requester@,
            partial: self.partial_name@,
            scoped: name_views(self.scoped_namespaces@),
        }
    }
}

/// A copy of a list of names.
fn clone_names(v: &Vec<QualifiedNameOwned>) -> (r: Vec<QualifiedNameOwned>)
    ensures
        name_views(r@) == name_views(v@),
{
    let mut r: Vec<QualifiedNameOwned> = Vec::new();
    let mut i: usize = 0;
    while i < v.len()
        invariant
            i <= v@.len(),
            name_views(r@) == name_views(v@.take(i as int)),
        decreases v@.len() - i,
    {
        let ghost before = r@;
        r.push(v[i].clone());
        proof {
            assert(name_views(r@) =~= name_views(before).push(v@[i as int]@));
            assert(name_views(v@.take(i + 1)) =~= name_views(v@.take(i as int)).push(
                v@[i as int]@,
            ));
        }
        i = i + 1;
    }
    proof {
        assert(v@.take(i as int) =~= v@);
    }
    r
}

impl Clone for TypeRequest {
    fn clone(&self) -> (r: Self)
        ensures
            r@ == self@,
    {
        TypeRequest {
            requester: self.requester.clone(),
            partial_name: self.partial_name.clone(),
            scoped_namespaces: clone_names(&self.scoped_namespaces),
        }
    }
}

/// Whether the type named `t` answers the request `req`: for some split of `t` into a namespace
/// and a rest, the rest is the requested name and the namespace is empty or one of those in
/// scope (names compared as `==` compares them, see `names_match`).
pub open spec fn satisfies(req: RequestView, t: IdView) -> bool {
    match t {
        IdView::CsType(f) => exists|i: int|
            0 <= i < f.parts.len() && (i == 0 || exists|q: int|
                0 <= q < req.scoped.len() && #[trigger] names_match(
                    req.scoped[q],
                    NameView { alias: f.alias, parts: f.parts.take(i) },
                )) && #[trigger] names_match(
                req.partial,
                NameView { alias: None, parts: f.parts.skip(i) },
            ),
        _ => false,
    }
}

/// One line `  - n` for each namespace `n` of `scoped`.
pub open spec fn scope_lines(scoped: Seq<NameView>) -> Seq<char>
    decreases scoped.len(),
{
    if scoped.len() == 0 {
        Seq::empty()
    } else {
        scope_lines(scoped.drop_last()) + "  - "@ + crate::qualified_name::name_text(scoped.last())
            + "\n"@
    }
}

/// The text shown for a request: who wants which name, and the namespaces in scope.
pub open spec fn request_text(r: RequestView) -> Seq<char> {
    crate::id::id_text(r.requester) + " wants "@ + crate::qualified_name::name_text(r.partial)
        + "\n  Namespaces in scope ("@ + crate::display::decimal(r.scoped.len()) + "):\n"@
        + scope_lines(r.scoped)
}

/// Whether every name of a request can be shown.
pub open spec fn request_displayable(r: RequestView) -> bool {
    &&& crate::id::id_displayable(r.requester)
    &&& crate::qualified_name::names_displayable(r.partial)
    &&& forall|k: int| 0 <= k < r.scoped.len() ==> crate::qualified_name::names_displayable(#[trigger] r.scoped[k])
}

impl TypeRequest {
    /// The text shown for this request (see `request_text`).
    pub fn to_text(&self) -> (s: String)
        requires
            request_displayable(self@),
        ensures
            s@ == request_text(self@),
    {
        let mut s = self.requester.to_text();
        s.append(" wants ");
        let p = self.partial_name.to_text();
        s.append(p.as_str());
        s.append("\n  Namespaces in scope (");
        let n = crate::display::decimal_text(self.scoped_namespaces.len());
        s.append(n.as_str());
        s.append("):\n");
        let ghost head = s@;
        let ghost scoped = self@.scoped;
        let mut k: usize = 0;
        proof {
            assert(scoped.take(0) =~= Seq::<NameView>::empty());
        }
        while k < self.scoped_namespaces.len()
            invariant
                scoped == self@.scoped,
                request_displayable(self@),
                k <= scoped.len(),
                s@ == head + scope_lines(scoped.take(k as int)),
            decreases scoped.len() - k,
        {
            proof {
                assert(scoped.take(k + 1).drop_last() =~= scoped.take(k as int));
                assert(scoped.take(k + 1).last() == scoped[k as int]);
                assert(scoped[k as int] == self.scoped_namespaces@[k as int]@);
                assert(crate::qualified_name::names_displayable(scoped[k as int]));
            }
            s.append("  - ");
            let t = self.scoped_namespaces[k].to_text();
            s.append(t.as_str());
            s.append("\n");
            k = k + 1;
        }
        proof {
            assert(scoped.take(scoped.len() as int) =~= scoped);
        }
        s
    }

    /// Whether both requests are made by the same asset, for the same name, with the same
    /// namespaces in scope.
    pub fn same(&self, other: &TypeRequest) -> (b: bool)
        ensures
            b == (self@ == other@),
    {
        if !self.requester.same(&other.requester) || !self.partial_name.same(&other.partial_name)
            || self.scoped_namespaces.len() != other.scoped_namespaces.len() {
            return false;
        }
        let mut i: usize = 0;
        while i < self.scoped_namespaces.len()
            invariant
                i <= self.scoped_namespaces@.len(),
                self.scoped_namespaces@.len() == other.scoped_namespaces@.len(),
                forall|j: int| 0 <= j < i ==> self.scoped_namespaces@[j]@ == other.scoped_namespaces@[j]@,
            decreases self.scoped_namespaces@.len() - i,
        {
            if !self.scoped_namespaces[i].same(&other.scoped_namespaces[i]) {
                assert(name_views(self.scoped_namespaces@)[i as int] != name_views(
                    other.scoped_namespaces@,
                )[i as int]);
                return false;
            }
            i = i + 1;
        }
        assert(name_views(self.scoped_namespaces@) =~= name_views(other.scoped_namespaces@));
        true
    }

    /// Whether the type `type_id` answers this request (see `satisfies`).
    pub fn satisfied_by(&self, type_id: &Id) -> (b: bool)
        ensures
            b == satisfies(self@, type_id@),
    {
        match type_id {
            Id::CsType(owned) => {
                let fqn = owned.as_ref();
                let ghost f = owned@;
                let n = fqn.len();
                let mut i: usize = 0;
                while i < n
                    invariant
                        fqn@ == f,
                        n == f.parts.len(),
                        type_id@ == IdView::CsType(f),
                        i <= n,
                        forall|j: int|
                            0 <= j < i ==> !((j == 0 || exists|q: int|
                                0 <= q < self@.scoped.len() && #[trigger] names_match(
                                    self@.scoped[q],
                                    NameView { alias: f.alias, parts: f.parts.take(j) },
                                )) && #[trigger] names_match(
                                self@.partial,
                                NameView { alias: None, parts: f.parts.skip(j) },
                            )),
                    decreases n - i,
                {
                    let (ns, name) = fqn.split(i);
                    let mut in_scope = ns.len() == 0;
                    let mut q: usize = 0;
                    while q < self.scoped_namespaces.len() && !in_scope
                        invariant
                            q <= self.scoped_namespaces@.len(),
                            ns@ == (NameView { alias: f.alias, parts: f.parts.take(i as int) }),
                            in_scope == (i == 0 || exists|p: int|
                                0 <= p < q && #[trigger] names_match(
                                    self@.scoped[p],
                                    NameView { alias: f.alias, parts: f.parts.take(i as int) },
                                )),
                        decreases self.scoped_namespaces@.len() - q,
                    {
                        let m = names_equal(&self.scoped_namespaces[q], &ns);
                        assert(self@.scoped[q as int] == self.scoped_namespaces@[q as int]@);
                        if m {
                            in_scope = true;
                        }
                        q = q + 1;
                    }
                    if in_scope && names_equal(&self.partial_name, &name) {
                        return true;
                    }
                    i = i + 1;
                }
                false
            },
            _ => false,
        }
    }

    /// The identifier of the requested type, as written.
    pub fn into_id(self) -> (r: Id)
        ensures
            r@ == IdView::CsType(self@.partial),
    {
        Id::CsType(self.partial_name)
    }
}

/// The parts of the type names among `ids`, in order.
pub open spec fn declared_types(ids: Seq<Id>) -> Seq<Seq<PartView>>
    decreases ids.len(),
{
    if ids.len() == 0 {
        Seq::empty()
    } else {
        let rest = declared_types(ids.drop_last());
        match ids.last()@ {
            IdView::CsType(n) => rest.push(n.parts),
            _ => rest,
        }
    }
}

/// The names held by the search tree built from the type names among `ids`.
pub open spec fn type_index(ids: Seq<Id>) -> Set<Seq<PartView>> {
    inserted_all_view(set![Seq::<PartView>::empty()], declared_types(ids))
}

/// Whether the namespace at position `q` of the request, followed by the requested name, is a
/// name held by `index`.
pub open spec fn scope_hit(index: Set<Seq<PartView>>, req: RequestView, q: int) -> bool {
    index.contains(req.scoped[q].parts + req.partial.parts)
}

/// Whether some namespace in scope of the request, followed by the requested name, is held by
/// `index`.
pub open spec fn matched(index: Set<Seq<PartView>>, req: RequestView) -> bool {
    exists|q: int| 0 <= q < req.scoped.len() && #[trigger] scope_hit(index, req, q)
}

/// The first namespace in scope of a matched request that gives a held name.
pub open spec fn first_hit(index: Set<Seq<PartView>>, req: RequestView) -> int {
    choose|q: int|
        0 <= q < req.scoped.len() && scope_hit(index, req, q) && forall|p: int|
            0 <= p < q ==> !#[trigger] scope_hit(index, req, p)
}

/// The relation that a matched request adds to its requester: it uses the type named by the
/// first namespace that matched, followed by the requested name.
pub open spec fn resolved_use(index: Set<Seq<PartView>>, req: RequestView) -> RelationView {
    let ns = req.scoped[first_hit(index, req)];
    RelationView {
        kind: RelationKind::Uses,
        target: IdView::CsType(NameView { alias: ns.alias, parts: ns.parts + req.partial.parts }),
    }
}

/// The relations that the matched requests of `reqs` made by `id` add to it.
pub open spec fn uses_added(index: Set<Seq<PartView>>, reqs: Set<RequestView>, id: IdView) -> Set<
    RelationView,
> {
    Set::new(
        |r: RelationView|
            exists|req: RequestView|
                #[trigger] reqs.contains(req) && req.requester == id && matched(index, req) && r
                    == resolved_use(index, req),
    )
}

/// The views of a list of requests.
pub open spec fn request_views(v: Seq<TypeRequest>) -> Seq<RequestView> {
    v.map_values(|r: TypeRequest| r@)
}

/// The requests filed while the files are parsed, each once.
#[derive(Debug)]
pub struct TypeBroker {
    requests: Vec<TypeRequest>,
}

impl TypeBroker {
    /// The requests waiting to be matched.
    pub closed spec fn pending(&self) -> Set<RequestView> {
        request_views(self.requests@).to_set()
    }
}

impl View for TypeBroker {
    type V = Set<RequestView>;

    open spec fn view(&self) -> Set<RequestView> {
        self.pending()
    }
}

proof fn lemma_views_push(v: Seq<TypeRequest>, r: TypeRequest)
    ensures
        request_views(v.push(r)).to_set() == request_views(v).to_set().insert(r@),
{
    assert(request_views(v.push(r)) =~= request_views(v).push(r@));
    request_views(v).lemma_push_to_set_commute(r@);
}

impl TypeBroker {
    /// A broker without requests.
    pub fn new() -> (r: TypeBroker)
        ensures
            r@ == Set::<RequestView>::empty(),
    {
        let r = TypeBroker { requests: Vec::new() };
        assert(request_views(r.requests@).to_set() =~= Set::empty());
        r
    }

    /// Files a request, unless the same request was filed before.
    pub fn push(&mut self, request: TypeRequest)
        ensures
            final(self)@ == old(self)@.insert(request@),
    {
        let mut i: usize = 0;
        while i < self.requests.len()
            invariant
                i <= self.requests@.len(),
                self.requests@ == old(self).requests@,
            decreases self.requests@.len() - i,
        {
            if self.requests[i].same(&request) {
                proof {
                    assert(request_views(self.requests@)[i as int] == request@);
                    assert(self@.insert(request@) =~= self@);
                }
                return;
            }
            i = i + 1;
        }
        proof {
            lemma_views_push(self.requests@, request);
        }
        self.requests.push(request);
    }

    /// Files the request of `requester` for the type `name`, used where the namespaces
    /// `scoped_namespaces` are in scope.
    pub fn request(
        &mut self,
        requester: &Id,
        name: QualifiedNameOwned,
        scoped_namespaces: Vec<QualifiedNameOwned>,
    )
        ensures
            final(self)@ == old(self)@.insert(
                RequestView {
                    requester: requester@,
                    partial: name@,
                    scoped: name_views(scoped_namespaces@),
                },
            ),
    {
        self.push(
            TypeRequest {
                requester: requester.clone(),
                partial_name: name,
                scoped_namespaces,
            },
        );
    }

    /// The requests waiting to be matched.
    pub fn requests(&self) -> (r: &Vec<TypeRequest>)
        ensures
            request_views(r@).to_set() == self@,
    {
        &self.requests
    }
}

/// The search tree of the type names among `ids`.
fn type_tree<'a>(ids: &'a Vec<Id>) -> (t: QualifiedNameSearchTree<'a>)
    ensures
        t.wf(),
        t@ == type_index(ids@),
{
    let mut names: Vec<QualifiedNameRef<'a>> = Vec::new();
    let mut i: usize = 0;
    while i < ids.len()
        invariant
            i <= ids@.len(),
            names@.map_values(|n: QualifiedNameRef<'a>| n@.parts) == declared_types(ids@.take(i as int)),
        decreases ids@.len() - i,
    {
        let ghost before = names@;
        proof {
            assert(ids@.take(i + 1).drop_last() =~= ids@.take(i as int));
            assert(ids@.take(i + 1).last() == ids@[i as int]);
        }
        match &ids[i] {
            Id::CsType(n) => {
                names.push(n.as_ref());
                proof {
                    assert(names@.map_values(|n: QualifiedNameRef<'a>| n@.parts) =~= before.map_values(
                        |n: QualifiedNameRef<'a>| n@.parts,
                    ).push(n@.parts));
                }
            },
            _ => {},
        }
        i = i + 1;
    }
    proof {
        assert(ids@.take(i as int) =~= ids@);
    }
    QualifiedNameSearchTree::from_iter(names)
}

/// Whether `ns` followed by `name` is a name held by the tree.
fn scope_matches(tree: &QualifiedNameSearchTree, ns: &QualifiedNameOwned, name: &QualifiedNameOwned) -> (b: bool)
    requires
        tree.wf(),
    ensures
        b == tree@.contains(ns@.parts + name@.parts),
{
    match tree.get(ns) {
        Some(t) => {
            let c = t.contains(name);
            proof {
                law_node_at_names(*tree, ns@.parts, *t);
                assert(t@.contains(name@.parts) == t.has_path(name@.parts));
            }
            c
        },
        None => {
            proof {
                if tree@.contains(ns@.parts + name@.parts) {
                    law_prefix_reaches_node(*tree, ns@.parts, name@.parts);
                }
            }
            false
        },
    }
}

proof fn lemma_uses_added_insert(
    index: Set<Seq<PartView>>,
    reqs: Set<RequestView>,
    x: RequestView,
    id: IdView,
)
    ensures
        uses_added(index, reqs.insert(x), id) == if x.requester == id && matched(index, x) {
            uses_added(index, reqs, id).insert(resolved_use(index, x))
        } else {
            uses_added(index, reqs, id)
        },
{
    let lhs = uses_added(index, reqs.insert(x), id);
    let rhs = if x.requester == id && matched(index, x) {
        uses_added(index, reqs, id).insert(resolved_use(index, x))
    } else {
        uses_added(index, reqs, id)
    };
    assert forall|r: RelationView| lhs.contains(r) implies rhs.contains(r) by {
        let req = choose|req: RequestView|
            #[trigger] reqs.insert(x).contains(req) && req.requester == id && matched(index, req)
                && r == resolved_use(index, req);
        if req != x {
            assert(reqs.contains(req));
        }
    }
    assert forall|r: RelationView| rhs.contains(r) implies lhs.contains(r) by {
        if x.requester == id && matched(index, x) && r == resolved_use(index, x) {
            assert(reqs.insert(x).contains(x));
        } else {
            let req = choose|req: RequestView|
                #[trigger] reqs.contains(req) && req.requester == id && matched(index, req) && r
                    == resolved_use(index, req);
            assert(reqs.insert(x).contains(req));
        }
    }
    assert(lhs =~= rhs);
}

impl TypeBroker {
    /// Whether every request that the type names among `ids` answer asks for a name without an
    /// alias, as `fulfill` needs: a type is named by joining a namespace and the requested name,
    /// which cannot carry an alias there.
    pub fn can_fulfill(&self, ids: &Vec<Id>) -> (b: bool)
        ensures
            b == forall|req: RequestView|
                self@.contains(req) && matched(type_index(ids@), req) ==> req.partial.alias is None,
    {
        let tree = type_tree(ids);
        let ghost index = type_index(ids@);
        let ghost all = request_views(self.requests@);
        let mut i: usize = 0;
        while i < self.requests.len()
            invariant
                tree.wf(),
                tree@ == index,
                index == type_index(ids@),
                all == request_views(self.requests@),
                i <= self.requests@.len(),
                forall|k: int|
                    0 <= k < i && matched(index, #[trigger] all[k]) ==> all[k].partial.alias is None,
            decreases self.requests@.len() - i,
        {
            let req = &self.requests[i];
            let ghost rv = req@;
            assert(all[i as int] == rv);
            if req.partial_name.alias.is_some() {
                let mut q: usize = 0;
                while q < req.scoped_namespaces.len()
                    invariant
                        tree.wf(),
                        tree@ == index,
                        rv == req@,
                        all == request_views(self.requests@),
                        i < self.requests@.len(),
                        all[i as int] == rv,
                        index == type_index(ids@),
                        req.partial_name.alias is Some,
                        q <= req.scoped_namespaces@.len(),
                        forall|p: int| 0 <= p < q ==> !#[trigger] scope_hit(index, rv, p),
                    decreases req.scoped_namespaces@.len() - q,
                {
                    assert(rv.scoped[q as int] == req.scoped_namespaces@[q as int]@);
                    if scope_matches(&tree, &req.scoped_namespaces[q], &req.partial_name) {
                        proof {
                            assert(scope_hit(index, rv, q as int));
                            assert(matched(index, rv));
                            assert(rv.partial.alias is Some);
                            assert(self@.contains(rv)) by {
                                assert(all[i as int] == rv);
                                assert(all.contains(rv));
                            }
                        }
                        return false;
                    }
                    q = q + 1;
                }
                assert(!matched(index, rv));
            }
            i = i + 1;
        }
        proof {
            assert forall|req: RequestView|
                self@.contains(req) && matched(index, req) implies req.partial.alias is None by {
                let k = choose|k: int| 0 <= k < all.len() && all[k] == req;
                assert(matched(index, all[k]));
            }
        }
        true
    }

    /// Matches the requests against the type names among `ids`: a request is answered by the
    /// first namespace in scope that, followed by the requested name, names a type; its
    /// requester, where it is an asset of `database`, then uses that type. Answered requests
    /// are dropped, the others stay.
    pub fn fulfill(&mut self, ids: &Vec<Id>, database: &mut Database)
        requires
            old(database).wf(),
            forall|req: RequestView|
                old(self)@.contains(req) && matched(type_index(ids@), req) ==> req.partial.alias is None,
        ensures
            final(self)@ == old(self)@.filter(|req: RequestView| !matched(type_index(ids@), req)),
            final(database).wf(),
            final(database).roots == old(database).roots,
            final(database).loc_roots == old(database).loc_roots,
            final(database).relative_to == old(database).relative_to,
            final(database).assets@.len() == old(database).assets@.len(),
            forall|k: int|
                0 <= k < old(database).assets@.len() ==> #[trigger] final(database).assets@[k]@ == (
                AssetView {
                    relations: old(database).assets@[k]@.relations.union(
                        uses_added(type_index(ids@), old(self)@, old(database).assets@[k]@.id),
                    ),
                    ..old(database).assets@[k]@
                }),
    {
        let tree = type_tree(ids);
        let ghost index = type_index(ids@);
        let ghost reqs = request_views(self.requests@);
        let ghost db0 = database.assets@;
        let mut kept: Vec<TypeRequest> = Vec::new();
        proof {
            assert(reqs.take(0).to_set() =~= Set::empty());
            assert(request_views(kept@).to_set() =~= Set::empty());
            assert(Set::<RequestView>::empty().filter(|req: RequestView| !matched(index, req))
                =~= Set::empty());
            assert forall|k: int| 0 <= k < db0.len() implies #[trigger] database.assets@[k]@ == (
            AssetView {
                relations: db0[k]@.relations.union(uses_added(index, reqs.take(0).to_set(), db0[k]@.id)),
                ..db0[k]@
            }) by {
                assert(uses_added(index, reqs.take(0).to_set(), db0[k]@.id) =~= Set::empty());
                assert(db0[k]@.relations.union(Set::empty()) =~= db0[k]@.relations);
            }
        }
        let mut i: usize = 0;
        while i < self.requests.len()
            invariant
                i <= self.requests@.len(),
                self.requests@ == old(self).requests@,
                reqs == request_views(self.requests@),
                old(self)@ == reqs.to_set(),
                tree.wf(),
                tree@ == index,
                index == type_index(ids@),
                forall|req: RequestView|
                    old(self)@.contains(req) && matched(index, req) ==> req.partial.alias is None,
                database.wf(),
                database.roots == old(database).roots,
                database.loc_roots == old(database).loc_roots,
                database.relative_to == old(database).relative_to,
                db0 == old(database).assets@,
                database.assets@.len() == db0.len(),
                forall|k: int|
                    0 <= k < db0.len() ==> #[trigger] database.assets@[k]@ == (AssetView {
                        relations: db0[k]@.relations.union(
                            uses_added(index, reqs.take(i as int).to_set(), db0[k]@.id),
                        ),
                        ..db0[k]@
                    }),
                request_views(kept@).to_set() == reqs.take(i as int).to_set().filter(
                    |req: RequestView| !matched(index, req),
                ),
            decreases self.requests@.len() - i,
        {
            let req = &self.requests[i];
            let ghost rv = req@;
            assert(reqs[i as int] == rv);
            let mut q: usize = 0;
            let mut hit = false;
            while q < req.scoped_namespaces.len() && !hit
                invariant
                    q <= req.scoped_namespaces@.len(),
                    tree.wf(),
                    tree@ == index,
                    rv == req@,
                    hit ==> q > 0 && scope_hit(index, rv, q - 1) && forall|p: int|
                        0 <= p < q - 1 ==> !#[trigger] scope_hit(index, rv, p),
                    !hit ==> forall|p: int| 0 <= p < q ==> !#[trigger] scope_hit(index, rv, p),
                decreases req.scoped_namespaces@.len() - q,
            {
                let m = scope_matches(&tree, &req.scoped_namespaces[q], &req.partial_name);
                assert(rv.scoped[q as int] == req.scoped_namespaces@[q as int]@);
                if m {
                    hit = true;
                }
                q = q + 1;
            }
            proof {
                assert(reqs.take(i + 1).to_set() =~= reqs.take(i as int).to_set().insert(rv)) by {
                    assert(reqs.take(i + 1) =~= reqs.take(i as int).push(rv));
                    reqs.take(i as int).lemma_push_to_set_commute(rv);
                }
                assert(old(self)@.contains(rv)) by {
                    assert(reqs.contains(rv));
                }
            }
            if hit {
                let ns = &req.scoped_namespaces[q - 1];
                proof {
                    assert(matched(index, rv));
                    let c = first_hit(index, rv);
                    assert(0 <= c < rv.scoped.len() && scope_hit(index, rv, c) && forall|p: int|
                        0 <= p < c ==> !#[trigger] scope_hit(index, rv, p));
                    if c < q - 1 {
                        assert(!scope_hit(index, rv, c));
                    } else if c > q - 1 {
                        assert(!scope_hit(index, rv, q - 1));
                    }
                    assert(c == q - 1);
                    assert(rv.scoped[q - 1] == ns@);
                }
                let target = QualifiedNameOwned::concat(ns.clone(), req.partial_name.clone());
                let relation = Relation::Uses(Id::CsType(target));
                let ghost before = database.assets@;
                assert(relation@ == resolved_use(index, rv));
                database.add_relation(&req.requester, relation);
                proof {
                    assert forall|k: int| 0 <= k < db0.len() implies #[trigger] database.assets@[k]@
                        == (AssetView {
                        relations: db0[k]@.relations.union(
                            uses_added(index, reqs.take(i + 1).to_set(), db0[k]@.id),
                        ),
                        ..db0[k]@
                    }) by {
                        lemma_uses_added_insert(index, reqs.take(i as int).to_set(), rv, db0[k]@.id);
                        assert(before[k]@.id == db0[k]@.id);
                        assert(before[k].id@ == db0[k]@.id);
                        assert(rv.requester == req.requester@);
                        let u0 = uses_added(index, reqs.take(i as int).to_set(), db0[k]@.id);
                        if db0[k]@.id == rv.requester {
                            assert(db0[k]@.relations.union(u0).insert(relation@) =~= db0[k]@.relations.union(
                                u0.insert(resolved_use(index, rv)),
                            ));
                        }
                        assert(database.assets@[k]@ =~~= (AssetView {
                            relations: db0[k]@.relations.union(
                                uses_added(index, reqs.take(i + 1).to_set(), db0[k]@.id),
                            ),
                            ..db0[k]@
                        }));
                    }
                    assert(reqs.take(i as int).to_set().insert(rv).filter(
                        |req: RequestView| !matched(index, req),
                    ) =~= reqs.take(i as int).to_set().filter(|req: RequestView| !matched(index, req)));
                }
            } else {
                let copy = req.clone();
                let ghost before_kept = kept@;
                kept.push(copy);
                proof {
                    assert(!matched(index, rv));
                    lemma_views_push(before_kept, copy);
                    assert(reqs.take(i as int).to_set().insert(rv).filter(
                        |req: RequestView| !matched(index, req),
                    ) =~= reqs.take(i as int).to_set().filter(|req: RequestView| !matched(index, req)).insert(
                        rv,
                    ));
                    assert forall|k: int| 0 <= k < db0.len() implies #[trigger] database.assets@[k]@
                        == (AssetView {
                        relations: db0[k]@.relations.union(
                            uses_added(index, reqs.take(i + 1).to_set(), db0[k]@.id),
                        ),
                        ..db0[k]@
                    }) by {
                        lemma_uses_added_insert(index, reqs.take(i as int).to_set(), rv, db0[k]@.id);
                    }
                }
            }
            i = i + 1;
        }
        proof {
            assert(reqs.take(i as int) =~= reqs);
        }
        self.requests = kept;
    }
}


/// Fulfilling twice with the same declared types does nothing the second time: the requests
/// left are those no type answers, so none is dropped and no relation is added.
pub proof fn law_fulfill_settles(index: Set<Seq<PartView>>, reqs: Set<RequestView>, id: IdView)
    ensures
        reqs.filter(|req: RequestView| !matched(index, req)).filter(
            |req: RequestView| !matched(index, req),
        ) == reqs.filter(|req: RequestView| !matched(index, req)),
        uses_added(index, reqs.filter(|req: RequestView| !matched(index, req)), id) == Set::<
            RelationView,
        >::empty(),
{
    let left = reqs.filter(|req: RequestView| !matched(index, req));
    assert(left.filter(|req: RequestView| !matched(index, req)) =~= left);
    assert(uses_added(index, left, id) =~= Set::<RelationView>::empty());
}

/// Each name held after inserting `qs` in turn into `base` comes from `base` or from `qs`.
proof fn lemma_inserted_from(base: Set<Seq<PartView>>, qs: Seq<Seq<PartView>>)
    ensures
        forall|p: Seq<PartView>|
            #[trigger] inserted_all_view(base, qs).contains(p) ==> base.contains(p) || qs.contains(p),
    decreases qs.len(),
{
    if qs.len() > 0 {
        let d = qs.drop_last();
        lemma_inserted_from(base, d);
        assert forall|p: Seq<PartView>| #[trigger] inserted_all_view(base, qs).contains(p) implies base.contains(p)
            || qs.contains(p) by {
            if inserted_all_view(base, d).contains(p) {
                if d.contains(p) {
                    let j = choose|j: int| 0 <= j < d.len() && d[j] == p;
                    assert(qs[j] == p);
                }
            } else {
                assert(p == qs.last());
                assert(qs[qs.len() - 1] == p);
            }
        }
    }
}

/// Inserting `qs` in turn into `base`, where no name of `base` extends another name: each name
/// of `qs` is held at the end, unless a later or earlier name of `qs` extends it.
proof fn lemma_inserted_kept(base: Set<Seq<PartView>>, qs: Seq<Seq<PartView>>)
    requires
        forall|p: Seq<PartView>, q: Seq<PartView>| base.contains(p) ==> !#[trigger] is_proper_prefix(q, p),
    ensures
        forall|i: int|
            0 <= i < qs.len() ==> inserted_all_view(base, qs).contains(#[trigger] qs[i]) || exists|j: int|
                0 <= j < qs.len() && is_proper_prefix(qs[i], #[trigger] qs[j]),
    decreases qs.len(),
{
    if qs.len() > 0 {
        let d = qs.drop_last();
        let x = qs.last();
        let before = inserted_all_view(base, d);
        lemma_inserted_kept(base, d);
        lemma_inserted_from(base, d);
        assert forall|i: int| 0 <= i < qs.len() implies inserted_all_view(base, qs).contains(
            #[trigger] qs[i],
        ) || exists|j: int| 0 <= j < qs.len() && is_proper_prefix(qs[i], #[trigger] qs[j]) by {
            let q = qs[i];
            if i == qs.len() - 1 {
                if !fresh_in(before, x) {
                    let p = choose|p: Seq<PartView>| before.contains(p) && is_prefix(x, p);
                    if p != x {
                        if base.contains(p) {
                            assert(!is_proper_prefix(x, p));
                        } else {
                            assert(d.contains(p));
                            let j = choose|j: int| 0 <= j < d.len() && d[j] == p;
                            assert(qs[j] == p);
                            assert(is_proper_prefix(qs[i], qs[j]));
                        }
                    }
                }
            } else {
                assert(d[i] == q);
                if before.contains(q) {
                    if fresh_in(before, x) && is_proper_prefix(q, x) {
                        assert(qs[qs.len() - 1] == x);
                        assert(is_proper_prefix(qs[i], qs[qs.len() - 1]));
                    }
                } else {
                    let j = choose|j: int| 0 <= j < d.len() && is_proper_prefix(d[i], #[trigger] d[j]);
                    assert(qs[j] == d[j]);
                    assert(is_proper_prefix(qs[i], qs[j]));
                }
            }
        }
    }
}

/// Whether `p` is the parts of a type name among `ids`.
pub open spec fn declared_among(ids: Seq<Id>, p: Seq<PartView>) -> bool {
    exists|r: int| 0 <= r < ids.len() && (#[trigger] ids[r])@ is CsType && ids[r]@->CsType_0.parts == p
}

/// The parts of each type name among `ids` are among the declared types, and each declared
/// type is the parts of a type name among `ids`.
proof fn lemma_declared_types(ids: Seq<Id>)
    ensures
        forall|q: int|
            0 <= q < ids.len() && (#[trigger] ids[q])@ is CsType ==> declared_types(ids).contains(
                ids[q]@->CsType_0.parts,
            ),
        forall|j: int|
            0 <= j < declared_types(ids).len() ==> declared_among(ids, #[trigger] declared_types(ids)[j]),
    decreases ids.len(),
{
    if ids.len() > 0 {
        let d = ids.drop_last();
        lemma_declared_types(d);
        let rest = declared_types(d);
        let all = declared_types(ids);
        assert forall|q: int|
            0 <= q < ids.len() && (#[trigger] ids[q])@ is CsType implies all.contains(ids[q]@->CsType_0.parts) by {
            if q < ids.len() - 1 {
                assert(d[q] == ids[q]);
                let j = choose|j: int| 0 <= j < rest.len() && rest[j] == d[q]@->CsType_0.parts;
                assert(all[j] == rest[j]);
            } else {
                assert(all[all.len() - 1] == ids[q]@->CsType_0.parts);
            }
        }
        assert forall|j: int| 0 <= j < declared_types(ids).len() implies declared_among(
            ids,
            #[trigger] declared_types(ids)[j],
        ) by {
            if j < rest.len() {
                assert(all[j] == rest[j]);
                assert(declared_among(d, rest[j]));
                let r = choose|r: int|
                    0 <= r < d.len() && (#[trigger] d[r])@ is CsType && d[r]@->CsType_0.parts == rest[j];
                assert(ids[r] == d[r]);
                assert(ids[r]@ is CsType && ids[r]@->CsType_0.parts == all[j]);
            } else {
                let r = ids.len() - 1;
                assert(ids[r] == ids.last());
                if ids.last()@ is CsType {
                    assert(all == rest.push(ids.last()@->CsType_0.parts));
                    assert(ids[r]@ is CsType && ids[r]@->CsType_0.parts == all[j]);
                } else {
                    assert(all == rest);
                }
            }
        }
    }
}

/// The index that `fulfill` searches holds the name of every type declared among `ids`, except
/// one that another declared type name extends (a type named like the namespace of another).
pub proof fn law_type_index_holds_declared(ids: Seq<Id>, q: int, n: NameView)
    requires
        0 <= q < ids.len(),
        ids[q]@ == IdView::CsType(n),
    ensures
        type_index(ids).contains(n.parts) || exists|r: int|
            0 <= r < ids.len() && (#[trigger] ids[r])@ is CsType && is_proper_prefix(
                n.parts,
                ids[r]@->CsType_0.parts,
            ),
{
    let base = set![Seq::<PartView>::empty()];
    let qs = declared_types(ids);
    lemma_declared_types(ids);
    assert forall|p: Seq<PartView>, x: Seq<PartView>| base.contains(p) implies !#[trigger] is_proper_prefix(x, p) by {
        if is_proper_prefix(x, p) {
            assert(p =~= Seq::<PartView>::empty());
            assert(x.len() == 0);
            assert(x =~= p);
        }
    }
    lemma_inserted_kept(base, qs);
    assert(ids[q]@ is CsType);
    assert(qs.contains(n.parts));
    let i = choose|i: int| 0 <= i < qs.len() && qs[i] == n.parts;
    if !type_index(ids).contains(n.parts) {
        assert(!inserted_all_view(base, qs).contains(qs[i]));
        let j = choose|j: int| 0 <= j < qs.len() && is_proper_prefix(qs[i], #[trigger] qs[j]);
        assert(declared_among(ids, qs[j]));
        let r = choose|r: int|
            0 <= r < ids.len() && (#[trigger] ids[r])@ is CsType && ids[r]@->CsType_0.parts == qs[j];
        assert(is_proper_prefix(n.parts, ids[r]@->CsType_0.parts));
    }
}

/// Where no declared type name among `ids` extends another, the index holds every one of them.
pub proof fn law_type_index_holds_all(ids: Seq<Id>)
    requires
        forall|a: int, b: int|
            0 <= a < ids.len() && 0 <= b < ids.len() && (#[trigger] ids[a])@ is CsType
                && (#[trigger] ids[b])@ is CsType ==> !is_proper_prefix(
                ids[a]@->CsType_0.parts,
                ids[b]@->CsType_0.parts,
            ),
    ensures
        forall|q: int|
            0 <= q < ids.len() && (#[trigger] ids[q])@ is CsType ==> type_index(ids).contains(
                ids[q]@->CsType_0.parts,
            ),
{
    assert forall|q: int| 0 <= q < ids.len() && (#[trigger] ids[q])@ is CsType implies type_index(
        ids,
    ).contains(ids[q]@->CsType_0.parts) by {
        law_type_index_holds_declared(ids, q, ids[q]@->CsType_0);
    }
}

} // verus!
