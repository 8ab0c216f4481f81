//! Questions asked of a populated database: which assets a filter selects, which are never used,
//! which are broken references, and which assets outside a group the group uses.

use crate::asset::{Asset, AssetView, RelationKind, RelationView};
use crate::asset_type::AssetType;
use crate::database::{asset_views, assets_wf, Database};
use crate::filter::{ascii_regex_matches, AssetFilter};
use crate::graph::{
    closure, edge, expand, is_nearest, listed, mark_starts, marks, nearest_with_path, reachable,
    step, unmarked,
};
use crate::id::{id_displayable, id_text, Id, IdView};
use vstd::prelude::*;

verus! {

/// The kind of identifier that a query keeps.
#[derive(PartialEq, Eq, Structural, Debug, Clone, Copy, Hash)]
pub enum OrphanFilter {
    UnityGuid,
    Loc,
    CsDeclaration,
}

/// Whether identifier `id` is of the kind that `f` keeps.
pub open spec fn filter_accepts(f: OrphanFilter, id: IdView) -> bool {
    match f {
        OrphanFilter::UnityGuid => id is Guid,
        OrphanFilter::Loc => id is Loc,
        OrphanFilter::CsDeclaration => id is CsType,
    }
}

/// The lowercase form of an ASCII letter; any other character as it is.
pub open spec fn ascii_lower(c: char) -> char {
    if 'A' <= c <= 'Z' {
        ((c as int) + 32) as char
    } else {
        c
    }
}

/// Whether `a` and `b` are equal up to the case of ASCII letters.
pub open spec fn ascii_case_eq(a: Seq<char>, b: Seq<char>) -> bool {
    a.len() == b.len() && forall|i: int| 0 <= i < a.len() ==> ascii_lower(a[i]) == ascii_lower(b[i])
}

/// The filter named `s`: `guid` or `loc`, in any case of ASCII letters.
pub open spec fn orphan_filter_named(s: Seq<char>) -> Option<OrphanFilter> {
    if ascii_case_eq(s, seq!['g', 'u', 'i', 'd']) {
        Some(OrphanFilter::UnityGuid)
    } else if ascii_case_eq(s, seq!['l', 'o', 'c']) {
        Some(OrphanFilter::Loc)
    } else {
        None
    }
}

/// Whether `s` equals the lowercase word `word` up to the case of ASCII letters.
fn eq_ignore_ascii_case(s: &str, word: &Vec<char>) -> (b: bool)
    requires
        forall|i: int| 0 <= i < word@.len() ==> 'a' <= #[trigger] word@[i] <= 'z',
    ensures
        b == ascii_case_eq(s@, word@),
{
    let cs = crate::text::chars_of(s);
    if cs.len() != word.len() {
        return false;
    }
    let mut i: usize = 0;
    while i < cs.len()
        invariant
            cs@ == s@,
            cs@.len() == word@.len(),
            i <= cs@.len(),
            forall|j: int| 0 <= j < word@.len() ==> 'a' <= #[trigger] word@[j] <= 'z',
            forall|j: int| 0 <= j < i ==> ascii_lower(#[trigger] cs@[j]) == ascii_lower(word@[j]),
        decreases cs@.len() - i,
    {
        let c = cs[i];
        let w = word[i];
        let lower_c = if 'A' <= c && c <= 'Z' {
            ((c as u32) + 32) == (w as u32)
        } else {
            c == w
        };
        if !lower_c {
            proof {
                assert(ascii_lower(word@[i as int]) == w);
                if 'A' <= c && c <= 'Z' {
                    assert(ascii_lower(c) as u32 == c as u32 + 32);
                }
            }
            return false;
        }
        proof {
            if 'A' <= c && c <= 'Z' {
                assert(ascii_lower(c) as u32 == w as u32);
            }
        }
        i = i + 1;
    }
    true
}

impl OrphanFilter {
    /// Whether `id` is of the kind that this filter keeps.
    pub fn matches(&self, id: &Id) -> (b: bool)
        ensures
            b == filter_accepts(*self, id@),
    {
        match self {
            OrphanFilter::UnityGuid => matches!(id, Id::Guid(_)),
            OrphanFilter::Loc => matches!(id, Id::Loc(_)),
            OrphanFilter::CsDeclaration => matches!(id, Id::CsType(_)),
        }
    }

    /// The filter named `value`: `guid` or `loc`, in any case of ASCII letters.
    pub fn from_name(value: &str) -> (r: OrphanFilter)
        requires
            orphan_filter_named(value@) is Some,
        ensures
            orphan_filter_named(value@) == Some(r),
    {
        let guid = vec!['g', 'u', 'i', 'd'];
        proof {
            assert(guid@ == seq!['g', 'u', 'i', 'd']);
        }
        if eq_ignore_ascii_case(value, &guid) {
            OrphanFilter::UnityGuid
        } else {
            OrphanFilter::Loc
        }
    }

    /// The filter that keeps identifiers of the kind of `value`, which is not the empty
    /// identifier.
    pub fn from_id(value: &Id) -> (r: OrphanFilter)
        requires
            !(value@ is Empty),
        ensures
            filter_accepts(r, value@),
    {
        match value {
            Id::Guid(_) => OrphanFilter::UnityGuid,
            Id::Loc(_) => OrphanFilter::Loc,
            _ => OrphanFilter::CsDeclaration,
        }
    }

    /// The text shown for this filter.
    pub fn label(&self) -> (s: &'static str)
        ensures
            s@ == match *self {
                OrphanFilter::UnityGuid => "Unity object"@,
                OrphanFilter::Loc => "Localized string"@,
                OrphanFilter::CsDeclaration => "C# declaration"@,
            },
    {
        match self {
            OrphanFilter::UnityGuid => "Unity object",
            OrphanFilter::Loc => "Localized string",
            OrphanFilter::CsDeclaration => "C# declaration",
        }
    }
}

/// Whether every identifier in `s` has a text.
pub open spec fn ids_displayable(s: Seq<Asset>) -> bool {
    forall|k: int| 0 <= k < s.len() ==> id_displayable(#[trigger] s[k].id@)
}

/// Whether `filter` selects the asset at `k` by its identifier.
pub open spec fn selected_by_id(s: Seq<Asset>, filter: AssetFilter, k: int) -> bool {
    filter.inverted() != ascii_regex_matches(filter.source(), id_text(s[k].id@))
}

/// Whether `filter` selects the asset at `k` by its path: the path of the nearest asset with a
/// path that it lies in (see `is_nearest`).
pub open spec fn selected_by_path(s: Seq<Asset>, filter: AssetFilter, k: int) -> bool {
    exists|b: int|
        #[trigger] is_nearest(s, k, b) && filter.inverted() != ascii_regex_matches(
            filter.source(),
            s[b].path.unwrap()@,
        )
}

/// Whether a list of positions holds each position below `n` at most once, in increasing order.
pub open spec fn increasing_below(r: Seq<usize>, n: int) -> bool {
    &&& forall|q: int| 0 <= q < r.len() ==> #[trigger] r[q] < n
    &&& forall|a: int, b: int| 0 <= a < b < r.len() ==> r[a] < r[b]
}

proof fn lemma_increasing_push(r: Seq<usize>, n: int, k: usize)
    requires
        increasing_below(r, n),
        k < n,
        forall|q: int| 0 <= q < r.len() ==> r[q] < k,
    ensures
        increasing_below(r.push(k), n),
        listed(r.push(k)) == listed(r).insert(k as int),
{
    let r2 = r.push(k);
    assert forall|b: int| listed(r2).contains(b) implies listed(r).insert(k as int).contains(b) by {
        let q = choose|q: int| 0 <= q < r2.len() && r2[q] as int == b;
        if q < r.len() {
            assert(r[q] == r2[q]);
        }
    }
    assert forall|b: int| listed(r).insert(k as int).contains(b) implies listed(r2).contains(b) by {
        if b == k as int {
            assert(r2[r.len() as int] == k);
        } else {
            let q = choose|q: int| 0 <= q < r.len() && r[q] as int == b;
            assert(r2[q] == r[q]);
        }
    }
    assert(listed(r2) =~= listed(r).insert(k as int));
}

impl Database {
    /// The assets of the group: those at `roots` and everything they contain, directly or
    /// through other assets, along containment relations declared by either side.
    pub fn find_all(&self, roots: &Vec<usize>) -> (r: Vec<usize>)
        requires
            self.wf(),
            forall|q: int| 0 <= q < roots@.len() ==> #[trigger] roots@[q] < self.assets@.len(),
        ensures
            forall|q: int| 0 <= q < r@.len() ==> #[trigger] r@[q] < self.assets@.len(),
            r@.no_duplicates(),
            forall|b: int|
                #[trigger] listed(r@).contains(b) <==> reachable(
                    asset_views(self.assets@),
                    listed(roots@),
                    RelationKind::Contains,
                    b,
                ),
    {
        closure(&self.assets, roots, RelationKind::Contains)
    }

    /// The path of the asset at `index`: its own, or else that of the nearest asset that it lies
    /// in which has one (see `is_nearest`).
    pub fn asset_path(&self, index: usize) -> (r: Option<&String>)
        requires
            self.wf(),
            index < self.assets@.len(),
        ensures
            r matches Some(p) ==> exists|b: int|
                is_nearest(self.assets@, index as int, b) && self.assets@[b].path == Some(*p),
            r is None ==> forall|b: int| !is_nearest(self.assets@, index as int, b),
    {
        match nearest_with_path(&self.assets, index) {
            Some(b) => match &self.assets[b].path {
                Some(p) => Some(p),
                None => None,
            },
            None => {
                proof {
                    assert forall|b: int| !is_nearest(self.assets@, index as int, b) by {
                        if is_nearest(self.assets@, index as int, b) {
                            let k = choose|k: nat|
                                #[trigger] crate::graph::reach(
                                    asset_views(self.assets@),
                                    set![index as int],
                                    RelationKind::ContainedBy,
                                    k,
                                ).contains(b) && (forall|c: int|
                                    crate::graph::reach(
                                        asset_views(self.assets@),
                                        set![index as int],
                                        RelationKind::ContainedBy,
                                        k,
                                    ).contains(c) && c < b ==> self.assets@[c].path is None) && (k
                                    > 0 ==> forall|c: int|
                                    crate::graph::reach(
                                        asset_views(self.assets@),
                                        set![index as int],
                                        RelationKind::ContainedBy,
                                        (k - 1) as nat,
                                    ).contains(c) ==> self.assets@[c].path is None);
                            assert(reachable(
                                asset_views(self.assets@),
                                set![index as int],
                                RelationKind::ContainedBy,
                                b,
                            ));
                        }
                    }
                }
                None
            },
        }
    }

    /// Whether the asset at `index` is selected by `filter` through its path (see
    /// `selected_by_path`); an asset without a path is not.
    pub fn path_matches(&self, index: usize, filter: &AssetFilter) -> (b: bool)
        requires
            self.wf(),
            index < self.assets@.len(),
        ensures
            b == selected_by_path(self.assets@, *filter, index as int),
    {
        match nearest_with_path(&self.assets, index) {
            Some(b) => match &self.assets[b].path {
                Some(p) => {
                    let m = filter.matches(p.as_str());
                    proof {
                        if !m {
                            assert forall|c: int| !(#[trigger] is_nearest(
                                self.assets@,
                                index as int,
                                c,
                            ) && filter.inverted() != ascii_regex_matches(
                                filter.source(),
                                self.assets@[c].path.unwrap()@,
                            )) by {
                                if is_nearest(self.assets@, index as int, c) {
                                    crate::graph::law_nearest_unique(
                                        self.assets@,
                                        index as int,
                                        b as int,
                                        c,
                                    );
                                }
                            }
                        }
                    }
                    m
                },
                None => false,
            },
            None => {
                proof {
                    assert forall|c: int| !(#[trigger] is_nearest(self.assets@, index as int, c)
                        && filter.inverted() != ascii_regex_matches(
                        filter.source(),
                        self.assets@[c].path.unwrap()@,
                    )) by {
                        if is_nearest(self.assets@, index as int, c) {
                            let k = choose|k: nat|
                                #[trigger] crate::graph::reach(
                                    asset_views(self.assets@),
                                    set![index as int],
                                    RelationKind::ContainedBy,
                                    k,
                                ).contains(c) && (forall|d: int|
                                    crate::graph::reach(
                                        asset_views(self.assets@),
                                        set![index as int],
                                        RelationKind::ContainedBy,
                                        k,
                                    ).contains(d) && d < c ==> self.assets@[d].path is None) && (k
                                    > 0 ==> forall|d: int|
                                    crate::graph::reach(
                                        asset_views(self.assets@),
                                        set![index as int],
                                        RelationKind::ContainedBy,
                                        (k - 1) as nat,
                                    ).contains(d) ==> self.assets@[d].path is None);
                            assert(reachable(
                                asset_views(self.assets@),
                                set![index as int],
                                RelationKind::ContainedBy,
                                c,
                            ));
                        }
                    }
                }
                false
            },
        }
    }

    /// The positions of the assets whose identifier `filter` selects, in order.
    pub fn find_assets_by_id(&self, filter: &AssetFilter) -> (r: Vec<usize>)
        requires
            self.wf(),
            ids_displayable(self.assets@),
        ensures
            increasing_below(r@, self.assets@.len() as int),
            forall|k: int|
                0 <= k < self.assets@.len() ==> (#[trigger] listed(r@).contains(k)
                    <==> selected_by_id(self.assets@, *filter, k)),
    {
        let mut r: Vec<usize> = Vec::new();
        let mut k: usize = 0;
        proof {
            assert(listed(r@) =~= Set::empty());
        }
        while k < self.assets.len()
            invariant
                k <= self.assets@.len(),
                ids_displayable(self.assets@),
                increasing_below(r@, self.assets@.len() as int),
                forall|q: int| 0 <= q < r@.len() ==> r@[q] < k,
                forall|j: int|
                    #[trigger] listed(r@).contains(j) <==> (0 <= j < k && selected_by_id(
                        self.assets@,
                        *filter,
                        j,
                    )),
            decreases self.assets@.len() - k,
        {
            let text = self.assets[k].id.to_text();
            if filter.matches(text.as_str()) {
                proof {
                    lemma_increasing_push(r@, self.assets@.len() as int, k);
                }
                r.push(k);
            }
            k = k + 1;
        }
        r
    }

    /// The positions of the assets whose path `filter` selects (see `selected_by_path`), in
    /// order.
    pub fn find_assets_by_path(&self, filter: &AssetFilter) -> (r: Vec<usize>)
        requires
            self.wf(),
        ensures
            increasing_below(r@, self.assets@.len() as int),
            forall|k: int|
                0 <= k < self.assets@.len() ==> (#[trigger] listed(r@).contains(k)
                    <==> selected_by_path(self.assets@, *filter, k)),
    {
        let mut r: Vec<usize> = Vec::new();
        let mut k: usize = 0;
        proof {
            assert(listed(r@) =~= Set::empty());
        }
        while k < self.assets.len()
            invariant
                self.wf(),
                k <= self.assets@.len(),
                increasing_below(r@, self.assets@.len() as int),
                forall|q: int| 0 <= q < r@.len() ==> r@[q] < k,
                forall|j: int|
                    #[trigger] listed(r@).contains(j) <==> (0 <= j < k && selected_by_path(
                        self.assets@,
                        *filter,
                        j,
                    )),
            decreases self.assets@.len() - k,
        {
            if self.path_matches(k, filter) {
                proof {
                    lemma_increasing_push(r@, self.assets@.len() as int, k);
                }
                r.push(k);
            }
            k = k + 1;
        }
        r
    }
}

/// Whether the asset at `b` declares, or is the target of, no relation of kind `UsedBy`.
pub open spec fn unused(s: Seq<Asset>, b: int) -> bool {
    !exists|r: RelationView|
        (s[b]@.relations.contains(r) || s[b]@.back_relations.contains(r)) && r.kind
            == RelationKind::UsedBy
}

/// Whether a query for kind `id_type` keeps the asset at `b`.
pub open spec fn kind_kept(s: Seq<Asset>, id_type: Option<OrphanFilter>, b: int) -> bool {
    match id_type {
        Some(f) => filter_accepts(f, s[b].id@),
        None => true,
    }
}

/// Whether the broken-reference query for kind `id_type` keeps the asset at `b`: a GUID filter
/// passes over localization keys only, a localization filter passes over GUIDs only.
pub open spec fn broken_kept(s: Seq<Asset>, id_type: Option<OrphanFilter>, b: int) -> bool {
    match id_type {
        Some(OrphanFilter::UnityGuid) => !(s[b].id@ is Loc),
        Some(OrphanFilter::Loc) => !(s[b].id@ is Guid),
        _ => true,
    }
}

/// Whether some filter among `filters` selects the asset at `b` by its identifier.
pub open spec fn any_by_id(s: Seq<Asset>, filters: Seq<AssetFilter>, b: int) -> bool {
    exists|q: int| 0 <= q < filters.len() && #[trigger] selected_by_id(s, filters[q], b)
}

/// Whether some filter among `filters` selects the asset at `b` by its path.
pub open spec fn any_by_path(s: Seq<Asset>, filters: Seq<AssetFilter>, b: int) -> bool {
    exists|q: int| 0 <= q < filters.len() && #[trigger] selected_by_path(s, filters[q], b)
}

/// Whether the asset at `b` is outside the group `inside`, used by an asset of the group, and
/// selected by the out-group filters (an empty list of filters selects everything).
pub open spec fn used_from_outside(
    s: Seq<Asset>,
    inside: Set<int>,
    out_id: Seq<AssetFilter>,
    out_path: Seq<AssetFilter>,
    b: int,
) -> bool {
    &&& 0 <= b < s.len()
    &&& !inside.contains(b)
    &&& exists|a: int| inside.contains(a) && #[trigger] edge(asset_views(s), a, RelationKind::Uses, b)
    &&& (out_id.len() == 0 || any_by_id(s, out_id, b))
    &&& (out_path.len() == 0 || any_by_path(s, out_path, b))
}

/// The number of positions among `list` whose asset's identifier is of the kind `f` keeps.
pub open spec fn count_kind(s: Seq<Asset>, list: Seq<usize>, f: OrphanFilter) -> nat
    decreases list.len(),
{
    if list.len() == 0 {
        0
    } else {
        count_kind(s, list.drop_last(), f) + if filter_accepts(f, s[list.last() as int].id@) {
            1nat
        } else {
            0nat
        }
    }
}

proof fn lemma_count_bound(s: Seq<Asset>, list: Seq<usize>, f: OrphanFilter)
    ensures
        count_kind(s, list, f) <= list.len(),
    decreases list.len(),
{
    if list.len() > 0 {
        lemma_count_bound(s, list.drop_last(), f);
    }
}

/// Every identifier but the empty one is of exactly one kind: exactly one filter keeps it (the
/// GUID filter the GUIDs, the localization filter the keys, the declaration filter the C#
/// types), and no filter keeps the empty identifier.
pub proof fn law_one_kind_per_id(id: IdView, f: OrphanFilter, g: OrphanFilter)
    ensures
        filter_accepts(f, id) && filter_accepts(g, id) ==> f == g,
        !(id is Empty) ==> filter_accepts(OrphanFilter::UnityGuid, id) || filter_accepts(
            OrphanFilter::Loc,
            id,
        ) || filter_accepts(OrphanFilter::CsDeclaration, id),
        id is Empty ==> !filter_accepts(f, id),
        id is Guid ==> filter_accepts(OrphanFilter::UnityGuid, id),
        id is Loc ==> filter_accepts(OrphanFilter::Loc, id),
        id is CsType ==> filter_accepts(OrphanFilter::CsDeclaration, id),
{
}

/// Counting the assets of a list by kind counts each asset with a non-empty identifier once:
/// the three counts add up to the length of the list.
pub proof fn law_kind_counts_add_up(s: Seq<Asset>, list: Seq<usize>)
    requires
        forall|i: int| 0 <= i < list.len() ==> !(s[#[trigger] list[i] as int].id@ is Empty),
    ensures
        count_kind(s, list, OrphanFilter::UnityGuid) + count_kind(s, list, OrphanFilter::Loc)
            + count_kind(s, list, OrphanFilter::CsDeclaration) == list.len(),
    decreases list.len(),
{
    if list.len() > 0 {
        let d = list.drop_last();
        assert forall|i: int| 0 <= i < d.len() implies !(s[#[trigger] d[i] as int].id@ is Empty) by {
            assert(d[i] == list[i]);
        }
        law_kind_counts_add_up(s, d);
        assert(!(s[list[list.len() - 1] as int].id@ is Empty));
    }
}

impl Database {
    /// The assets that no relation of kind `UsedBy` touches, among those whose identifier is of
    /// kind `id_type` (all when it is `None`), in order.
    pub fn find_unused(&self, id_type: Option<OrphanFilter>) -> (r: Vec<usize>)
        ensures
            increasing_below(r@, self.assets@.len() as int),
            forall|k: int|
                0 <= k < self.assets@.len() ==> (#[trigger] listed(r@).contains(k) <==> (kind_kept(
                    self.assets@,
                    id_type,
                    k,
                ) && unused(self.assets@, k))),
    {
        let mut r: Vec<usize> = Vec::new();
        let mut k: usize = 0;
        proof {
            assert(listed(r@) =~= Set::empty());
        }
        while k < self.assets.len()
            invariant
                k <= self.assets@.len(),
                increasing_below(r@, self.assets@.len() as int),
                forall|q: int| 0 <= q < r@.len() ==> r@[q] < k,
                forall|j: int|
                    #[trigger] listed(r@).contains(j) <==> (0 <= j < k && kind_kept(
                        self.assets@,
                        id_type,
                        j,
                    ) && unused(self.assets@, j)),
            decreases self.assets@.len() - k,
        {
            let kept = match id_type {
                Some(f) => f.matches(&self.assets[k].id),
                None => true,
            };
            if kept && !self.assets[k].has_relation_of_kind(RelationKind::UsedBy) {
                proof {
                    lemma_increasing_push(r@, self.assets@.len() as int, k);
                }
                r.push(k);
            }
            k = k + 1;
        }
        r
    }

    /// How many of the assets at `list` have an identifier of each kind: GUIDs, localization
    /// keys and C# declarations.
    pub fn count_kinds(&self, list: &Vec<usize>) -> (r: (usize, usize, usize))
        requires
            forall|q: int| 0 <= q < list@.len() ==> #[trigger] list@[q] < self.assets@.len(),
            forall|q: int|
                0 <= q < list@.len() ==> !(self.assets@[#[trigger] list@[q] as int].id@ is Empty),
        ensures
            r.0 == count_kind(self.assets@, list@, OrphanFilter::UnityGuid),
            r.1 == count_kind(self.assets@, list@, OrphanFilter::Loc),
            r.2 == count_kind(self.assets@, list@, OrphanFilter::CsDeclaration),
    {
        let mut guids: usize = 0;
        let mut locs: usize = 0;
        let mut types: usize = 0;
        let mut q: usize = 0;
        while q < list.len()
            invariant
                q <= list@.len(),
                forall|p: int| 0 <= p < list@.len() ==> #[trigger] list@[p] < self.assets@.len(),
                forall|p: int|
                    0 <= p < list@.len() ==> !(self.assets@[#[trigger] list@[p] as int].id@ is Empty),
                guids == count_kind(self.assets@, list@.take(q as int), OrphanFilter::UnityGuid),
                locs == count_kind(self.assets@, list@.take(q as int), OrphanFilter::Loc),
                types == count_kind(self.assets@, list@.take(q as int), OrphanFilter::CsDeclaration),
            decreases list@.len() - q,
        {
            let ghost prefix = list@.take(q as int + 1);
            proof {
                assert(prefix.drop_last() =~= list@.take(q as int));
                lemma_count_bound(self.assets@, list@.take(q as int), OrphanFilter::UnityGuid);
                lemma_count_bound(self.assets@, list@.take(q as int), OrphanFilter::Loc);
                lemma_count_bound(self.assets@, list@.take(q as int), OrphanFilter::CsDeclaration);
            }
            match OrphanFilter::from_id(&self.assets[list[q]].id) {
                OrphanFilter::UnityGuid => {
                    guids = guids + 1;
                },
                OrphanFilter::Loc => {
                    locs = locs + 1;
                },
                OrphanFilter::CsDeclaration => {
                    types = types + 1;
                },
            }
            q = q + 1;
        }
        proof {
            assert(list@.take(q as int) =~= list@);
        }
        (guids, locs, types)
    }

    /// The broken references kept by the query for kind `id_type` (see `broken_kept`), in
    /// order.
    pub fn find_broken_refs(&self, id_type: Option<OrphanFilter>) -> (r: Vec<usize>)
        ensures
            increasing_below(r@, self.assets@.len() as int),
            forall|k: int|
                0 <= k < self.assets@.len() ==> (#[trigger] listed(r@).contains(k) <==> (
                broken_kept(self.assets@, id_type, k) && self.assets@[k].asset_type
                    == AssetType::BrokenRef)),
    {
        let mut r: Vec<usize> = Vec::new();
        let mut k: usize = 0;
        proof {
            assert(listed(r@) =~= Set::empty());
        }
        while k < self.assets.len()
            invariant
                k <= self.assets@.len(),
                increasing_below(r@, self.assets@.len() as int),
                forall|q: int| 0 <= q < r@.len() ==> r@[q] < k,
                forall|j: int|
                    #[trigger] listed(r@).contains(j) <==> (0 <= j < k && broken_kept(
                        self.assets@,
                        id_type,
                        j,
                    ) && self.assets@[j].asset_type == AssetType::BrokenRef),
            decreases self.assets@.len() - k,
        {
            let id = &self.assets[k].id;
            let kept = match id_type {
                Some(OrphanFilter::UnityGuid) => !matches!(id, Id::Loc(_)),
                Some(OrphanFilter::Loc) => !matches!(id, Id::Guid(_)),
                _ => true,
            };
            if kept && self.assets[k].asset_type == AssetType::BrokenRef {
                proof {
                    lemma_increasing_push(r@, self.assets@.len() as int, k);
                }
                r.push(k);
            }
            k = k + 1;
        }
        r
    }

    /// The assets selected by some identifier filter or some path filter, in order.
    pub fn select(&self, id_filters: &Vec<AssetFilter>, path_filters: &Vec<AssetFilter>) -> (r:
        Vec<usize>)
        requires
            self.wf(),
            ids_displayable(self.assets@),
        ensures
            increasing_below(r@, self.assets@.len() as int),
            forall|k: int|
                0 <= k < self.assets@.len() ==> (#[trigger] listed(r@).contains(k) <==> (any_by_id(
                    self.assets@,
                    id_filters@,
                    k,
                ) || any_by_path(self.assets@, path_filters@, k))),
    {
        let mut r: Vec<usize> = Vec::new();
        let mut k: usize = 0;
        proof {
            assert(listed(r@) =~= Set::empty());
        }
        while k < self.assets.len()
            invariant
                self.wf(),
                ids_displayable(self.assets@),
                k <= self.assets@.len(),
                increasing_below(r@, self.assets@.len() as int),
                forall|q: int| 0 <= q < r@.len() ==> r@[q] < k,
                forall|j: int|
                    #[trigger] listed(r@).contains(j) <==> (0 <= j < k && (any_by_id(
                        self.assets@,
                        id_filters@,
                        j,
                    ) || any_by_path(self.assets@, path_filters@, j))),
            decreases self.assets@.len() - k,
        {
            let text = self.assets[k].id.to_text();
            let mut hit = false;
            let mut q: usize = 0;
            while q < id_filters.len() && !hit
                invariant
                    q <= id_filters@.len(),
                    text@ == id_text(self.assets@[k as int].id@),
                    hit == exists|p: int| 0 <= p < q && #[trigger] selected_by_id(
                        self.assets@,
                        id_filters@[p],
                        k as int,
                    ),
                decreases id_filters@.len() - q,
            {
                let m = id_filters[q].matches(text.as_str());
                assert(selected_by_id(self.assets@, id_filters@[q as int], k as int) == m);
                if m {
                    hit = true;
                }
                q = q + 1;
            }
            let mut p: usize = 0;
            while p < path_filters.len() && !hit
                invariant
                    self.wf(),
                    k < self.assets@.len(),
                    p <= path_filters@.len(),
                    hit == (any_by_id(self.assets@, id_filters@, k as int) || exists|t: int|
                        0 <= t < p && #[trigger] selected_by_path(
                            self.assets@,
                            path_filters@[t],
                            k as int,
                        )),
                decreases path_filters@.len() - p,
            {
                if self.path_matches(k, &path_filters[p]) {
                    hit = true;
                }
                p = p + 1;
            }
            if hit {
                proof {
                    lemma_increasing_push(r@, self.assets@.len() as int, k);
                }
                r.push(k);
            }
            k = k + 1;
        }
        r
    }

    /// The assets outside the group `inside` that assets of the group use (relations of kind
    /// `Uses` declared by either side), kept when some filter of `out_id` selects their identifier
    /// and some filter of `out_path` their path (an empty list keeps everything), in order.
    pub fn find_outside_refs(
        &self,
        inside: &Vec<usize>,
        out_id: &Vec<AssetFilter>,
        out_path: &Vec<AssetFilter>,
    ) -> (r: Vec<usize>)
        requires
            self.wf(),
            ids_displayable(self.assets@),
            forall|q: int| 0 <= q < inside@.len() ==> #[trigger] inside@[q] < self.assets@.len(),
        ensures
            increasing_below(r@, self.assets@.len() as int),
            forall|k: int|
                #[trigger] listed(r@).contains(k) <==> used_from_outside(
                    self.assets@,
                    listed(inside@),
                    out_id@,
                    out_path@,
                    k,
                ),
    {
        let n = self.assets.len();
        let ghost v = asset_views(self.assets@);
        let mut in_group = unmarked(n);
        let _ = mark_starts(&mut in_group, inside);
        let mut used = unmarked(n);
        let frontier = mark_starts(&mut used, inside);
        proof {
            assert(listed(inside@).difference(Set::empty()) =~= listed(inside@));
            assert(step(v, Set::empty(), RelationKind::Uses) =~= Set::empty());
        }
        let _ = expand(
            &self.assets,
            &mut used,
            &frontier,
            RelationKind::Uses,
            Ghost(listed(inside@)),
            Ghost(Set::empty()),
        );
        let mut r: Vec<usize> = Vec::new();
        proof {
            assert(listed(r@) =~= Set::empty());
        }
        let mut k: usize = 0;
        while k < n
            invariant
                self.wf(),
                ids_displayable(self.assets@),
                n == self.assets@.len(),
                k <= n,
                in_group@.len() == n,
                used@.len() == n,
                marks(in_group@, listed(inside@)),
                v == asset_views(self.assets@),
                marks(used@, listed(inside@).union(step(v, listed(inside@), RelationKind::Uses))),
                increasing_below(r@, n as int),
                forall|p: int| 0 <= p < r@.len() ==> r@[p] < k,
                forall|j: int|
                    #[trigger] listed(r@).contains(j) <==> (j < k && used_from_outside(
                        self.assets@,
                        listed(inside@),
                        out_id@,
                        out_path@,
                        j,
                    )),
            decreases n - k,
        {
            if used[k] && !in_group[k] {
                let text = self.assets[k].id.to_text();
                let mut id_ok = out_id.len() == 0;
                let mut q: usize = 0;
                while q < out_id.len() && !id_ok
                    invariant
                        q <= out_id@.len(),
                        text@ == id_text(self.assets@[k as int].id@),
                        id_ok == (out_id@.len() == 0 || exists|p: int|
                            0 <= p < q && #[trigger] selected_by_id(
                                self.assets@,
                                out_id@[p],
                                k as int,
                            )),
                    decreases out_id@.len() - q,
                {
                    let m = out_id[q].matches(text.as_str());
                    assert(selected_by_id(self.assets@, out_id@[q as int], k as int) == m);
                    if m {
                        id_ok = true;
                    }
                    q = q + 1;
                }
                let mut path_ok = out_path.len() == 0;
                let mut p: usize = 0;
                while p < out_path.len() && !path_ok
                    invariant
                        self.wf(),
                        k < self.assets@.len(),
                        p <= out_path@.len(),
                        path_ok == (out_path@.len() == 0 || exists|t: int|
                            0 <= t < p && #[trigger] selected_by_path(
                                self.assets@,
                                out_path@[t],
                                k as int,
                            )),
                    decreases out_path@.len() - p,
                {
                    if self.path_matches(k, &out_path[p]) {
                        path_ok = true;
                    }
                    p = p + 1;
                }
                if id_ok && path_ok {
                    proof {
                        lemma_increasing_push(r@, n as int, k);
                    }
                    r.push(k);
                }
            }
            k = k + 1;
        }
        r
    }
}


/// Whether the identifier filters `filters` keep the asset at `b`: some filter selects it, or
/// there are none.
pub open spec fn id_kept(s: Seq<Asset>, filters: Seq<AssetFilter>, b: int) -> bool {
    filters.len() == 0 || any_by_id(s, filters, b)
}

/// The number of positions among `list` whose asset is of kind `t`.
pub open spec fn count_type(s: Seq<Asset>, list: Seq<usize>, t: AssetType) -> nat
    decreases list.len(),
{
    if list.len() == 0 {
        0
    } else {
        count_type(s, list.drop_last(), t) + if s[list.last() as int].asset_type == t {
            1nat
        } else {
            0nat
        }
    }
}

proof fn lemma_count_type_bound(s: Seq<Asset>, list: Seq<usize>, t: AssetType)
    ensures
        count_type(s, list, t) <= list.len(),
    decreases list.len(),
{
    if list.len() > 0 {
        lemma_count_type_bound(s, list.drop_last(), t);
    }
}

impl Database {
    /// Whether the identifier filters `filters` keep the asset at `k` (see `id_kept`).
    fn kept_by_ids(&self, k: usize, filters: &Vec<AssetFilter>) -> (b: bool)
        requires
            k < self.assets@.len(),
            ids_displayable(self.assets@),
        ensures
            b == id_kept(self.assets@, filters@, k as int),
    {
        if filters.len() == 0 {
            return true;
        }
        let text = self.assets[k].id.to_text();
        let mut q: usize = 0;
        while q < filters.len()
            invariant
                q <= filters@.len(),
                text@ == id_text(self.assets@[k as int].id@),
                forall|p: int| 0 <= p < q ==> !#[trigger] selected_by_id(self.assets@, filters@[p], k as int),
            decreases filters@.len() - q,
        {
            if filters[q].matches(text.as_str()) {
                assert(selected_by_id(self.assets@, filters@[q as int], k as int));
                return true;
            }
            q = q + 1;
        }
        false
    }

    /// The assets that no relation of kind `UsedBy` touches, among those the identifier filters
    /// keep (see `id_kept`), in order.
    pub fn find_unused_by_id(&self, filters: &Vec<AssetFilter>) -> (r: Vec<usize>)
        requires
            ids_displayable(self.assets@),
        ensures
            increasing_below(r@, self.assets@.len() as int),
            forall|k: int|
                0 <= k < self.assets@.len() ==> (#[trigger] listed(r@).contains(k) <==> (id_kept(
                    self.assets@,
                    filters@,
                    k,
                ) && unused(self.assets@, k))),
    {
        let mut r: Vec<usize> = Vec::new();
        let mut k: usize = 0;
        proof {
            assert(listed(r@) =~= Set::empty());
        }
        while k < self.assets.len()
            invariant
                k <= self.assets@.len(),
                ids_displayable(self.assets@),
                increasing_below(r@, self.assets@.len() as int),
                forall|q: int| 0 <= q < r@.len() ==> r@[q] < k,
                forall|j: int|
                    #[trigger] listed(r@).contains(j) <==> (0 <= j < k && id_kept(
                        self.assets@,
                        filters@,
                        j,
                    ) && unused(self.assets@, j)),
            decreases self.assets@.len() - k,
        {
            if self.kept_by_ids(k, filters) && !self.assets[k].has_relation_of_kind(RelationKind::UsedBy) {
                proof {
                    lemma_increasing_push(r@, self.assets@.len() as int, k);
                }
                r.push(k);
            }
            k = k + 1;
        }
        r
    }

    /// The broken references among the assets the identifier filters keep (see `id_kept`), in
    /// order.
    pub fn find_broken_by_id(&self, filters: &Vec<AssetFilter>) -> (r: Vec<usize>)
        requires
            ids_displayable(self.assets@),
        ensures
            increasing_below(r@, self.assets@.len() as int),
            forall|k: int|
                0 <= k < self.assets@.len() ==> (#[trigger] listed(r@).contains(k) <==> (id_kept(
                    self.assets@,
                    filters@,
                    k,
                ) && self.assets@[k].asset_type == AssetType::BrokenRef)),
    {
        let mut r: Vec<usize> = Vec::new();
        let mut k: usize = 0;
        proof {
            assert(listed(r@) =~= Set::empty());
        }
        while k < self.assets.len()
            invariant
                k <= self.assets@.len(),
                ids_displayable(self.assets@),
                increasing_below(r@, self.assets@.len() as int),
                forall|q: int| 0 <= q < r@.len() ==> r@[q] < k,
                forall|j: int|
                    #[trigger] listed(r@).contains(j) <==> (0 <= j < k && id_kept(
                        self.assets@,
                        filters@,
                        j,
                    ) && self.assets@[j].asset_type == AssetType::BrokenRef),
            decreases self.assets@.len() - k,
        {
            if self.kept_by_ids(k, filters) && self.assets[k].asset_type == AssetType::BrokenRef {
                proof {
                    lemma_increasing_push(r@, self.assets@.len() as int, k);
                }
                r.push(k);
            }
            k = k + 1;
        }
        r
    }

    /// How many assets of `list` are of each kind: each kind that occurs, once, with its count.
    pub fn count_types(&self, list: &Vec<usize>) -> (r: Vec<(AssetType, usize)>)
        requires
            forall|q: int| 0 <= q < list@.len() ==> #[trigger] list@[q] < self.assets@.len(),
        ensures
            forall|a: int, b: int| 0 <= a < b < r@.len() ==> r@[a].0 != r@[b].0,
            forall|q: int|
                0 <= q < r@.len() ==> #[trigger] r@[q].1 == count_type(self.assets@, list@, r@[q].0)
                    && r@[q].1 > 0,
            forall|t: AssetType|
                #[trigger] count_type(self.assets@, list@, t) > 0 ==> exists|q: int|
                    0 <= q < r@.len() && r@[q].0 == t,
    {
        let ghost s = self.assets@;
        let mut r: Vec<(AssetType, usize)> = Vec::new();
        let mut i: usize = 0;
        while i < list.len()
            invariant
                s == self.assets@,
                forall|q: int| 0 <= q < list@.len() ==> #[trigger] list@[q] < s.len(),
                i <= list@.len(),
                forall|a: int, b: int| 0 <= a < b < r@.len() ==> r@[a].0 != r@[b].0,
                forall|q: int|
                    0 <= q < r@.len() ==> #[trigger] r@[q].1 == count_type(s, list@.take(i as int), r@[q].0)
                        && r@[q].1 > 0,
                forall|t: AssetType|
                    #[trigger] count_type(s, list@.take(i as int), t) > 0 ==> exists|q: int|
                        0 <= q < r@.len() && r@[q].0 == t,
            decreases list@.len() - i,
        {
            let t = self.assets[list[i]].asset_type;
            let ghost prev = list@.take(i as int);
            let ghost next = list@.take(i + 1);
            proof {
                assert(next.drop_last() =~= prev);
                assert(next.last() == list@[i as int]);
                assert forall|u: AssetType| #[trigger] count_type(s, next, u) == count_type(s, prev, u) + if u == t {
                    1nat
                } else {
                    0nat
                } by {}
                lemma_count_type_bound(s, prev, t);
            }
            let mut q: usize = 0;
            while q < r.len() && r[q].0 != t
                invariant
                    q <= r@.len(),
                    forall|p: int| 0 <= p < q ==> r@[p].0 != t,
                decreases r@.len() - q,
            {
                q = q + 1;
            }
            let ghost r0 = r@;
            if q < r.len() {
                let c = r[q].1;
                assert(c == count_type(s, prev, t));
                r.set(q, (t, c + 1));
            } else {
                proof {
                    if count_type(s, prev, t) > 0 {
                        let p = choose|p: int| 0 <= p < r@.len() && r@[p].0 == t;
                    }
                }
                r.push((t, 1));
            }
            proof {
                assert forall|u: AssetType| #[trigger] count_type(s, next, u) > 0 implies exists|p: int|
                    0 <= p < r@.len() && r@[p].0 == u by {
                    if u != t {
                        assert(count_type(s, prev, u) > 0);
                        let p = choose|p: int| 0 <= p < r0.len() && r0[p].0 == u;
                        assert(r@[p].0 == u);
                    } else {
                        assert(r@[q as int].0 == t);
                    }
                }
            }
            i = i + 1;
        }
        proof {
            assert(list@.take(list@.len() as int) =~= list@);
        }
        r
    }
}

} // verus!
