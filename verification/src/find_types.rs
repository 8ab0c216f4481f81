//! The types that a C# file declares and uses: full names for its top-level declarations, which
//! become assets contained by the file, and requests for the types it uses but does not declare.

use crate::asset::{Asset, AssetView, Relation};
use crate::asset_type::AssetType;
use crate::id::{Id, IdView};
use crate::qualified_name::{NameError, NameErrorView, NameView, QualifiedNameOwned};
use crate::structure::{
    add_name, eval_from, evaluate_structure, empty_info, info_sized, match_captures, matches_fit,
    opt_slots, CaptureIds, InfoView, QueryMatch, StructureError, StructureInfo,
};
use crate::syntax::SyntaxTree;
use crate::type_broker::{name_views, RequestView, TypeBroker, TypeRequest};
use vstd::prelude::*;

verus! {

/// Walking up from node `cur` with name `acc`: a type declaration above makes the declaration
/// nested (none); each namespace declaration above puts its name in front (failing where the
/// name so far carries an alias); at the top the name is complete. A link that does not lead to
/// an earlier node counts as the top.
pub open spec fn qualify_upward(t: &SyntaxTree, s: InfoView, cur: int, acc: NameView) -> Option<
    Result<NameView, NameErrorView>,
>
    decreases cur,
{
    match t.nodes@[cur].parent {
        Some(p) => if 0 <= p < cur {
            if s.type_decl_nodes[p as int] is Some {
                None
            } else {
                match s.ns_decl_nodes[p as int] {
                    Some(ns) => match acc.alias {
                        Some(a) => Some(Err(NameErrorView::BadAlias(a))),
                        None => qualify_upward(
                            t,
                            s,
                            p as int,
                            NameView { alias: ns.alias, parts: ns.parts + acc.parts },
                        ),
                    },
                    None => qualify_upward(t, s, p as int, acc),
                }
            }
        } else {
            Some(Ok(acc))
        },
        None => Some(Ok(acc)),
    }
}

/// The full name of the type declared at node `k` with name `name`: qualified by the namespaces
/// around it and by the file-scoped namespace; none for a nested type.
pub open spec fn declared_full_name(t: &SyntaxTree, s: InfoView, k: int, name: NameView) -> Option<
    Result<NameView, NameErrorView>,
> {
    match qualify_upward(t, s, k, name) {
        None => None,
        Some(Err(e)) => Some(Err(e)),
        Some(Ok(full)) => match s.fsns_decl {
            Some(f) => match full.alias {
                Some(a) => Some(Err(NameErrorView::BadAlias(a))),
                None => Some(Ok(NameView { alias: f.alias, parts: f.parts + full.parts })),
            },
            None => Some(Ok(full)),
        },
    }
}

/// The full names of the top-level type declarations among nodes `k` on, set in `acc`; the
/// first failure stops.
pub open spec fn declarations_from(t: &SyntaxTree, s: InfoView, k: int, acc: Seq<Option<NameView>>) -> Result<
    Seq<Option<NameView>>,
    NameErrorView,
>
    decreases t.nodes@.len() - k,
{
    if k < 0 || k >= t.nodes@.len() {
        Ok(acc)
    } else {
        match s.type_decl_nodes[k] {
            None => declarations_from(t, s, k + 1, acc),
            Some(name) => match declared_full_name(t, s, k, name) {
                None => declarations_from(t, s, k + 1, acc),
                Some(Err(e)) => Err(e),
                Some(Ok(f)) => declarations_from(t, s, k + 1, acc.update(k, Some(f))),
            },
        }
    }
}

/// `ns` with each of `xs` added in turn (see `add_name`).
pub open spec fn add_names(ns: Seq<NameView>, xs: Seq<NameView>) -> Seq<NameView>
    decreases xs.len(),
{
    if xs.len() == 0 {
        ns
    } else {
        add_names(add_name(ns, xs[0]), xs.drop_first())
    }
}

/// The context of a use of `name`, walking up from node `cur`: none where a scope above declares
/// a type of that name; otherwise the innermost top-level declaration that holds the use and the
/// namespaces imported on the way up.
pub open spec fn usage_context(
    t: &SyntaxTree,
    s: InfoView,
    decls: Seq<Option<NameView>>,
    name: NameView,
    cur: int,
    container: Option<NameView>,
    ns: Seq<NameView>,
) -> Option<(Option<NameView>, Seq<NameView>)>
    decreases cur,
{
    match t.nodes@[cur].parent {
        Some(p) => if 0 <= p < cur {
            if s.type_decl_names[p as int].contains(name) {
                None
            } else {
                usage_context(
                    t,
                    s,
                    decls,
                    name,
                    p as int,
                    if container is Some {
                        container
                    } else {
                        decls[p as int]
                    },
                    add_names(ns, s.ns_usages[p as int]),
                )
            }
        } else {
            Some((container, ns))
        },
        None => Some((container, ns)),
    }
}

/// The namespaces that a use of `name` is looked up in, of those `ns` that the `using`
/// directives around it import: a `using` directive imports the types of a namespace and not
/// its nested namespaces, so a name written with a qualifier (more than one part) is looked up
/// in none of them.
pub open spec fn imported_for(name: NameView, ns: Seq<NameView>) -> Seq<NameView> {
    if name.parts.len() > 1 {
        Seq::empty()
    } else {
        ns
    }
}

/// The request that the use of a type at node `k` files, if any: one for each use held by a
/// top-level declaration and not answered by a local declaration.
pub open spec fn usage_request(t: &SyntaxTree, s: InfoView, decls: Seq<Option<NameView>>, k: int) -> Option<
    RequestView,
> {
    match s.type_usages[k] {
        Some(name) => match usage_context(t, s, decls, name, k, None, Seq::empty()) {
            Some((Some(c), ns)) => Some(
                RequestView { requester: IdView::CsType(c), partial: name, scoped: imported_for(name, ns) },
            ),
            _ => None,
        },
        None => None,
    }
}

/// The requests filed by the uses of types at nodes `k` on, in order.
pub open spec fn requests_from(t: &SyntaxTree, s: InfoView, decls: Seq<Option<NameView>>, k: int) -> Seq<
    RequestView,
>
    decreases t.nodes@.len() - k,
{
    if k < 0 || k >= t.nodes@.len() {
        Seq::empty()
    } else {
        match usage_request(t, s, decls, k) {
            Some(r) => seq![r] + requests_from(t, s, decls, k + 1),
            None => requests_from(t, s, decls, k + 1),
        }
    }
}

/// The abstract content of per-node optional names is read slot by slot.
proof fn lemma_opt_slot(v: Seq<Option<QualifiedNameOwned>>, k: int)
    requires
        0 <= k < v.len(),
    ensures
        opt_slots(v)[k] == match v[k] {
            Some(q) => Some(q@),
            None => None::<NameView>,
        },
{
}

fn qualify(t: &SyntaxTree, info: &StructureInfo, cur: usize, acc: QualifiedNameOwned) -> (r: Option<
    Result<QualifiedNameOwned, NameError>,
>)
    requires
        t.wf(),
        cur < t.nodes@.len(),
        info_sized(info@, t.nodes@.len()),
    ensures
        match qualify_upward(t, info@, cur as int, acc@) {
            None => r is None,
            Some(Ok(v)) => r matches Some(Ok(q)) && q@ == v,
            Some(Err(e)) => r matches Some(Err(e2)) && e2@ == e,
        },
    decreases cur,
{
    match t.nodes[cur].parent {
        Some(p) => {
            if p < cur {
                proof {
                    lemma_opt_slot(info.type_decl_nodes@, p as int);
                    lemma_opt_slot(info.ns_decl_nodes@, p as int);
                }
                if info.type_decl_nodes[p].is_some() {
                    return None;
                }
                match &info.ns_decl_nodes[p] {
                    Some(ns) => match QualifiedNameOwned::try_concat(ns.clone(), acc) {
                        Ok(a2) => qualify(t, info, p, a2),
                        Err(e) => Some(Err(e)),
                    },
                    None => qualify(t, info, p, acc),
                }
            } else {
                Some(Ok(acc))
            }
        },
        None => Some(Ok(acc)),
    }
}

/// The full name of the type declared at node `k` (see `declared_full_name`).
fn full_name(t: &SyntaxTree, info: &StructureInfo, k: usize, name: QualifiedNameOwned) -> (r: Option<
    Result<QualifiedNameOwned, NameError>,
>)
    requires
        t.wf(),
        k < t.nodes@.len(),
        info_sized(info@, t.nodes@.len()),
    ensures
        match declared_full_name(t, info@, k as int, name@) {
            None => r is None,
            Some(Ok(v)) => r matches Some(Ok(q)) && q@ == v,
            Some(Err(e)) => r matches Some(Err(e2)) && e2@ == e,
        },
{
    match qualify(t, info, k, name) {
        None => None,
        Some(Err(e)) => Some(Err(e)),
        Some(Ok(full)) => match &info.fsns_decl {
            Some(f) => match QualifiedNameOwned::try_concat(f.clone(), full) {
                Ok(q) => Some(Ok(q)),
                Err(e) => Some(Err(e)),
            },
            None => Some(Ok(full)),
        },
    }
}

/// The full names of the top-level type declarations of the file, per declaration node (see
/// `declarations_from`).
pub fn process_declarations(t: &SyntaxTree, info: &StructureInfo) -> (r: Result<
    Vec<Option<QualifiedNameOwned>>,
    NameError,
>)
    requires
        t.wf(),
        info_sized(info@, t.nodes@.len()),
    ensures
        match declarations_from(
            t,
            info@,
            0,
            Seq::new(t.nodes@.len(), |i: int| None::<NameView>),
        ) {
            Ok(v) => r matches Ok(d) && opt_slots(d@) == v,
            Err(e) => r matches Err(e2) && e2@ == e,
        },
        r matches Ok(d) ==> d@.len() == t.nodes@.len(),
{
    let n = t.nodes.len();
    let mut out = crate::structure::empty_names(n);
    assert(opt_slots(out@).len() == out@.len());
    let mut k: usize = 0;
    while k < n
        invariant
            t.wf(),
            n == t.nodes@.len(),
            info_sized(info@, t.nodes@.len()),
            k <= n,
            out@.len() == n,
            declarations_from(t, info@, 0, Seq::new(n as nat, |i: int| None::<NameView>))
                == declarations_from(t, info@, k as int, opt_slots(out@)),
        decreases n - k,
    {
        proof {
            lemma_opt_slot(info.type_decl_nodes@, k as int);
        }
        match &info.type_decl_nodes[k] {
            Some(name) => match full_name(t, info, k, name.clone()) {
                None => {},
                Some(Err(e)) => {
                    return Err(e);
                },
                Some(Ok(f)) => {
                    let ghost before = opt_slots(out@);
                    let ghost fv = f@;
                    out.set(k, Some(f));
                    proof {
                        assert(opt_slots(out@) =~= before.update(k as int, Some(fv)));
                    }
                },
            },
            None => {},
        }
        k = k + 1;
    }
    Ok(out)
}

/// Whether `name` is among `names`.
fn has_name(names: &Vec<QualifiedNameOwned>, name: &QualifiedNameOwned) -> (b: bool)
    ensures
        b == name_views(names@).contains(name@),
{
    let mut i: usize = 0;
    while i < names.len()
        invariant
            i <= names@.len(),
            forall|j: int| 0 <= j < i ==> names@[j]@ != name@,
        decreases names@.len() - i,
    {
        if names[i].same(name) {
            assert(name_views(names@)[i as int] == name@);
            return true;
        }
        i = i + 1;
    }
    proof {
        if name_views(names@).contains(name@) {
            let j = choose|j: int| 0 <= j < names@.len() && name_views(names@)[j] == name@;
            assert(names@[j]@ == name@);
        }
    }
    false
}

/// Adds each of `xs` to `ns` (see `add_names`).
fn add_all(ns: &mut Vec<QualifiedNameOwned>, xs: &Vec<QualifiedNameOwned>)
    ensures
        name_views(final(ns)@) == add_names(name_views(old(ns)@), name_views(xs@)),
{
    let ghost target = add_names(name_views(ns@), name_views(xs@));
    let mut i: usize = 0;
    proof {
        assert(name_views(xs@).skip(0) =~= name_views(xs@));
    }
    while i < xs.len()
        invariant
            i <= xs@.len(),
            target == add_names(name_views(ns@), name_views(xs@).skip(i as int)),
        decreases xs@.len() - i,
    {
        let x = xs[i].clone();
        let ghost xv = x@;
        let ghost before = name_views(ns@);
        proof {
            assert(name_views(xs@).skip(i as int)[0] == xv);
            assert(name_views(xs@).skip(i as int).drop_first() =~= name_views(xs@).skip(i + 1));
        }
        if !has_name(ns, &x) {
            ns.push(x);
            proof {
                assert(name_views(ns@) =~= before.push(xv));
            }
        }
        i = i + 1;
    }
    proof {
        assert(name_views(xs@).skip(i as int) =~= Seq::<NameView>::empty());
    }
}

fn context(
    t: &SyntaxTree,
    info: &StructureInfo,
    decls: &Vec<Option<QualifiedNameOwned>>,
    name: &QualifiedNameOwned,
    cur: usize,
    container: Option<QualifiedNameOwned>,
    ns: Vec<QualifiedNameOwned>,
) -> (r: Option<(Option<QualifiedNameOwned>, Vec<QualifiedNameOwned>)>)
    requires
        t.wf(),
        cur < t.nodes@.len(),
        info_sized(info@, t.nodes@.len()),
        decls@.len() == t.nodes@.len(),
    ensures
        match usage_context(
            t,
            info@,
            opt_slots(decls@),
            name@,
            cur as int,
            match container {
                Some(c) => Some(c@),
                None => None,
            },
            name_views(ns@),
        ) {
            None => r is None,
            Some((c, v)) => r matches Some((c2, v2)) && match c2 {
                Some(q) => Some(q@),
                None => None,
            } == c && name_views(v2@) == v,
        },
    decreases cur,
{
    match t.nodes[cur].parent {
        Some(p) => {
            if p < cur {
                proof {
                    assert(info@.type_decl_names[p as int] == name_views(info.type_decl_names@[p as int]@));
                    assert(info@.ns_usages[p as int] == name_views(info.ns_usages@[p as int]@));
                    lemma_opt_slot(decls@, p as int);
                }
                if has_name(&info.type_decl_names[p], name) {
                    return None;
                }
                let next_container = match container {
                    Some(c) => Some(c),
                    None => match &decls[p] {
                        Some(d) => Some(d.clone()),
                        None => None,
                    },
                };
                let mut next_ns = ns;
                add_all(&mut next_ns, &info.ns_usages[p]);
                context(t, info, decls, name, p, next_container, next_ns)
            } else {
                Some((container, ns))
            }
        },
        None => Some((container, ns)),
    }
}

/// The requests filed by the uses of types in the file, in node order (see `requests_from`).
pub fn process_type_usages(
    t: &SyntaxTree,
    info: &StructureInfo,
    decls: &Vec<Option<QualifiedNameOwned>>,
) -> (r: Vec<TypeRequest>)
    requires
        t.wf(),
        info_sized(info@, t.nodes@.len()),
        decls@.len() == t.nodes@.len(),
    ensures
        r@.map_values(|q: TypeRequest| q@) == requests_from(t, info@, opt_slots(decls@), 0),
{
    let n = t.nodes.len();
    let mut r: Vec<TypeRequest> = Vec::new();
    let mut k: usize = 0;
    while k < n
        invariant
            t.wf(),
            n == t.nodes@.len(),
            info_sized(info@, t.nodes@.len()),
            decls@.len() == t.nodes@.len(),
            k <= n,
            requests_from(t, info@, opt_slots(decls@), 0) == r@.map_values(|q: TypeRequest| q@)
                + requests_from(t, info@, opt_slots(decls@), k as int),
        decreases n - k,
    {
        proof {
            lemma_opt_slot(info.type_usages@, k as int);
        }
        match &info.type_usages[k] {
            Some(name) => {
                let start: Vec<QualifiedNameOwned> = Vec::new();
                assert(name_views(start@) =~= Seq::<NameView>::empty());
                match context(t, info, decls, name, k, None, start) {
                    Some((Some(c), imported)) => {
                        let scoped = if name.parts.len() > 1 {
                            let none: Vec<QualifiedNameOwned> = Vec::new();
                            assert(name_views(none@) =~= Seq::<NameView>::empty());
                            none
                        } else {
                            imported
                        };
                        let ghost before = r@.map_values(|q: TypeRequest| q@);
                        let req = TypeRequest {
                            requester: Id::CsType(c),
                            partial_name: name.clone(),
                            scoped_namespaces: scoped,
                        };
                        let ghost rv = req@;
                        r.push(req);
                        proof {
                            assert(r@.map_values(|q: TypeRequest| q@) =~= before.push(rv));
                            assert(before.push(rv) + requests_from(t, info@, opt_slots(decls@), k + 1)
                                =~= before + (seq![rv] + requests_from(t, info@, opt_slots(decls@), k + 1)));
                        }
                    },
                    _ => {},
                }
            },
            None => {},
        }
        k = k + 1;
    }
    proof {
        assert(r@.map_values(|q: TypeRequest| q@) + Seq::<RequestView>::empty() =~= r@.map_values(
            |q: TypeRequest| q@,
        ));
    }
    r
}

/// Failures while the types of a C# file are gathered.
#[derive(Debug)]
pub enum TypeScanError {
    /// The structure of the file could not be gathered.
    Structure(StructureError),
    /// The full name of a declaration could not be formed.
    Names(NameError),
}

/// The asset of a type declared at top level of the file `file`.
pub open spec fn declared_asset(name: NameView, file: IdView) -> AssetView {
    AssetView {
        id: IdView::CsType(name),
        asset_type: AssetType::Unknown,
        path: None,
        relations: set![crate::asset::RelationView { kind: crate::asset::RelationKind::ContainedBy, target: file }],
        back_relations: Set::empty(),
    }
}

/// The assets of the declarations named in `d`, from node `k` on, in node order.
pub open spec fn declared_assets(d: Seq<Option<NameView>>, file: IdView, k: int) -> Seq<AssetView>
    decreases d.len() - k,
{
    if k < 0 || k >= d.len() {
        Seq::empty()
    } else {
        match d[k] {
            Some(name) => seq![declared_asset(name, file)] + declared_assets(d, file, k + 1),
            None => declared_assets(d, file, k + 1),
        }
    }
}

/// Gathers the types of a C# file: the structure from the query matches, the full names of its
/// top-level declarations, which become assets contained by the file `file` (in node order),
/// and the requests for the types it uses, filed with `broker`.
pub fn find_types(
    t: &SyntaxTree,
    matches: &Vec<QueryMatch>,
    ids: CaptureIds,
    file: &Id,
    broker: &mut TypeBroker,
) -> (r: Result<Vec<Asset>, TypeScanError>)
    requires
        t.wf(),
        4 * t.nodes@.len() + 4 <= usize::MAX,
        matches_fit(t, match_captures(matches@), ids),
    ensures
        match eval_from(t, match_captures(matches@), ids, 0, 0, empty_info(t.nodes@.len())) {
            Err(e) => r matches Err(TypeScanError::Structure(e2)) && e2@ == e && final(broker)@
                == old(broker)@,
            Ok(s) => match declarations_from(
                t,
                s,
                0,
                Seq::new(t.nodes@.len(), |i: int| None::<NameView>),
            ) {
                Err(e) => r matches Err(TypeScanError::Names(e2)) && e2@ == e && final(broker)@
                    == old(broker)@,
                Ok(d) => r matches Ok(assets) && (forall|q: int|
                    0 <= q < assets@.len() ==> #[trigger] assets@[q].wf()) && assets@.map_values(
                    |a: Asset| a@,
                ) == declared_assets(d, file@, 0) && final(broker)@ == old(broker)@.union(
                    requests_from(t, s, d, 0).to_set(),
                ),
            },
        },
{
    let info = match evaluate_structure(t, matches, ids) {
        Ok(info) => info,
        Err(e) => {
            return Err(TypeScanError::Structure(e));
        },
    };
    proof {
        assert(empty_info(t.nodes@.len()).aliases.len() == t.nodes@.len());
    }
    let ghost s = info@;
    let decls = match process_declarations(t, &info) {
        Ok(d) => d,
        Err(e) => {
            return Err(TypeScanError::Names(e));
        },
    };
    let ghost d = opt_slots(decls@);
    let mut assets: Vec<Asset> = Vec::new();
    let mut k: usize = 0;
    proof {
        assert(assets@.map_values(|a: Asset| a@) =~= Seq::<AssetView>::empty());
    }
    while k < decls.len()
        invariant
            k <= decls@.len(),
            d == opt_slots(decls@),
            forall|q: int| 0 <= q < assets@.len() ==> #[trigger] assets@[q].wf(),
            declared_assets(d, file@, 0) == assets@.map_values(|a: Asset| a@) + declared_assets(
                d,
                file@,
                k as int,
            ),
        decreases decls@.len() - k,
    {
        proof {
            lemma_opt_slot(decls@, k as int);
        }
        match &decls[k] {
            Some(name) => {
                let ghost before = assets@.map_values(|a: Asset| a@);
                let rels = vec![Relation::ContainedBy(file.clone())];
                let a = Asset::new(Id::CsType(name.clone()), AssetType::Unknown, None, rels);
                proof {
                    let rv = crate::asset::relation_views(rels@);
                    assert(rv =~= seq![crate::asset::RelationView { kind: crate::asset::RelationKind::ContainedBy, target: file@ }]);
                    assert(rv.to_set() =~= set![crate::asset::RelationView { kind: crate::asset::RelationKind::ContainedBy, target: file@ }]) by {
                        assert(rv[0] == crate::asset::RelationView { kind: crate::asset::RelationKind::ContainedBy, target: file@ });
                    }
                    assert(a@ == declared_asset(name@, file@));
                }
                let ghost av = a@;
                assets.push(a);
                proof {
                    assert(assets@.map_values(|a: Asset| a@) =~= before.push(av));
                    assert(before.push(av) + declared_assets(d, file@, k + 1) =~= before + (seq![av]
                        + declared_assets(d, file@, k + 1)));
                }
            },
            None => {},
        }
        k = k + 1;
    }
    proof {
        assert(assets@.map_values(|a: Asset| a@) + declared_assets(d, file@, k as int)
            =~= assets@.map_values(|a: Asset| a@));
    }
    let reqs = process_type_usages(t, &info, &decls);
    let ghost rv = reqs@.map_values(|q: TypeRequest| q@);
    let ghost b0 = broker@;
    let mut i: usize = 0;
    let mut reqs = reqs;
    let total = reqs.len();
    proof {
        assert(b0.union(rv.take(0).to_set()) =~= b0);
    }
    while reqs.len() > 0
        invariant
            rv.len() == total,
            rv.len() == i + reqs@.len(),
            forall|q: int| 0 <= q < reqs@.len() ==> #[trigger] reqs@[q]@ == rv[i + q],
            i <= rv.len(),
            broker@ == b0.union(rv.take(i as int).to_set()),
        decreases reqs@.len(),
    {
        let req = reqs.remove(0);
        let ghost x = req@;
        assert(x == rv[i as int]);
        broker.push(req);
        proof {
            assert(rv.take(i + 1) =~= rv.take(i as int).push(x));
            rv.take(i as int).lemma_push_to_set_commute(x);
            assert(b0.union(rv.take(i as int).to_set()).insert(x) =~= b0.union(rv.take(i + 1).to_set()));
            assert forall|q: int| 0 <= q < reqs@.len() implies #[trigger] reqs@[q]@ == rv[i + 1 + q] by {}
        }
        i = i + 1;
    }
    proof {
        assert(rv.take(i as int) =~= rv);
    }
    Ok(assets)
}

} // verus!
