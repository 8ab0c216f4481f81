//! The text shown for assets: a short form that names an asset, and a full form that lists its
//! relations grouped by kind, each group in text order.

use crate::asset::{kind_label, ref_views, relation_views, Asset, RelationKind, RelationView};
use crate::asset_type::asset_type_label;
use crate::database::{asset_views, has_asset, Database};
use crate::graph::{is_nearest, law_nearest_unique};
use crate::id::{id_text, Id, IdView};
use crate::qualified_name::name_text;
use crate::query::ids_displayable;
use crate::text::{chars_of, string_views};
use vstd::prelude::*;
use vstd::string::*;

verus! {

broadcast use vstd::seq_lib::to_multiset_insert;

/// Whether text `a` comes before text `b` in the order of `str`: character by character, a
/// proper prefix first.
pub open spec fn text_lt(a: Seq<char>, b: Seq<char>) -> bool
    decreases a.len(),
{
    if a.len() == 0 {
        b.len() > 0
    } else if b.len() == 0 {
        false
    } else if a[0] != b[0] {
        (a[0] as int) < (b[0] as int)
    } else {
        text_lt(a.drop_first(), b.drop_first())
    }
}

/// Whether the texts of `d` are in text order.
pub open spec fn texts_sorted(d: Seq<Seq<char>>) -> bool {
    forall|i: int, j: int| 0 <= i < j < d.len() ==> !text_lt(#[trigger] d[j], #[trigger] d[i])
}

/// Whether `d` holds the texts of `x`, each as often, in text order.
pub open spec fn sorted_form(x: Seq<Seq<char>>, d: Seq<Seq<char>>) -> bool {
    d.to_multiset() == x.to_multiset() && texts_sorted(d)
}

proof fn lemma_text_lt_irreflexive(a: Seq<char>)
    ensures
        !text_lt(a, a),
    decreases a.len(),
{
    if a.len() > 0 {
        lemma_text_lt_irreflexive(a.drop_first());
    }
}

proof fn lemma_text_lt_transitive(a: Seq<char>, b: Seq<char>, c: Seq<char>)
    requires
        text_lt(a, b),
        text_lt(b, c),
    ensures
        text_lt(a, c),
    decreases a.len(),
{
    if a.len() > 0 && a[0] == b[0] && b[0] == c[0] {
        lemma_text_lt_transitive(a.drop_first(), b.drop_first(), c.drop_first());
    }
}

proof fn lemma_text_lt_total(a: Seq<char>, b: Seq<char>)
    requires
        a != b,
    ensures
        text_lt(a, b) || text_lt(b, a),
    decreases a.len(),
{
    if a.len() > 0 && b.len() > 0 && a[0] == b[0] {
        if a.drop_first() == b.drop_first() {
            assert(a =~= seq![a[0]] + a.drop_first());
            assert(b =~= seq![b[0]] + b.drop_first());
        }
        lemma_text_lt_total(a.drop_first(), b.drop_first());
    } else if a.len() == 0 && b.len() == 0 {
        assert(a =~= b);
    } else if a.len() > 0 && b.len() > 0 {
        assert((a[0] as int) != (b[0] as int));
    }
}

/// Text order lists a collection of texts in one way only: two lists that hold the same texts,
/// each as often, both in text order, are equal. So the sections of the full text of an asset do
/// not depend on the order in which its relations are kept.
pub proof fn law_sorted_form_unique(x: Seq<Seq<char>>, d1: Seq<Seq<char>>, d2: Seq<Seq<char>>)
    requires
        sorted_form(x, d1),
        sorted_form(x, d2),
    ensures
        d1 == d2,
    decreases d1.len(),
{
    broadcast use vstd::seq_lib::to_multiset_contains, vstd::seq_lib::to_multiset_len, vstd::seq_lib::to_multiset_remove;

    assert(d1.len() == d1.to_multiset().len());
    assert(d2.len() == d2.to_multiset().len());
    if d1.len() == 0 {
        assert(d1 =~= d2);
    } else {
        let a = d1[0];
        let b = d2[0];
        assert(d1.to_multiset().count(a) > 0);
        assert(d2.contains(a));
        let j = choose|j: int| 0 <= j < d2.len() && d2[j] == a;
        assert(d1.to_multiset().count(b) > 0);
        assert(d1.contains(b));
        let i = choose|i: int| 0 <= i < d1.len() && d1[i] == b;
        if a != b {
            lemma_text_lt_total(a, b);
            assert(i != 0 && j != 0);
            assert(!text_lt(d1[i], d1[0]));
            assert(!text_lt(d2[j], d2[0]));
        }
        let r1 = d1.remove(0);
        let r2 = d2.remove(0);
        assert(r1 =~= d1.drop_first());
        assert(r2 =~= d2.drop_first());
        assert(r1.to_multiset() == r2.to_multiset());
        assert(texts_sorted(r1)) by {
            assert forall|p: int, q: int| 0 <= p < q < r1.len() implies !text_lt(#[trigger] r1[q], #[trigger] r1[p]) by {
                assert(r1[q] == d1[q + 1] && r1[p] == d1[p + 1]);
            }
        }
        assert(texts_sorted(r2)) by {
            assert forall|p: int, q: int| 0 <= p < q < r2.len() implies !text_lt(#[trigger] r2[q], #[trigger] r2[p]) by {
                assert(r2[q] == d2[q + 1] && r2[p] == d2[p + 1]);
            }
        }
        law_sorted_form_unique(r1, r1, r2);
        assert(d1 =~= seq![a] + r1);
        assert(d2 =~= seq![b] + r2);
    }
}

/// Whether `a` comes before `b` in text order (see `text_lt`).
pub fn text_less(a: &str, b: &str) -> (r: bool)
    ensures
        r == text_lt(a@, b@),
{
    let x = chars_of(a);
    let y = chars_of(b);
    let mut i: usize = 0;
    proof {
        assert(a@.skip(0) =~= a@);
        assert(b@.skip(0) =~= b@);
    }
    while i < x.len() && i < y.len() && x[i] == y[i]
        invariant
            x@ == a@,
            y@ == b@,
            i <= x@.len(),
            i <= y@.len(),
            text_lt(a@, b@) == text_lt(a@.skip(i as int), b@.skip(i as int)),
        decreases x@.len() - i,
    {
        proof {
            assert(a@.skip(i as int).drop_first() =~= a@.skip(i + 1));
            assert(b@.skip(i as int).drop_first() =~= b@.skip(i + 1));
        }
        i = i + 1;
    }
    proof {
        if i < x@.len() {
            assert(a@.skip(i as int)[0] == x@[i as int]);
        }
        if i < y@.len() {
            assert(b@.skip(i as int)[0] == y@[i as int]);
        }
    }
    if i == x.len() {
        i < y.len()
    } else if i == y.len() {
        false
    } else {
        x[i] < y[i]
    }
}

/// The texts of `v` in text order; equal texts keep their order.
pub fn sort_texts(v: Vec<String>) -> (r: Vec<String>)
    ensures
        sorted_form(string_views(v@), string_views(r@)),
{
    let ghost all = string_views(v@);
    let mut r: Vec<String> = Vec::new();
    let mut i: usize = 0;
    proof {
        assert(string_views(r@) =~= all.take(0));
    }
    while i < v.len()
        invariant
            all == string_views(v@),
            i <= v@.len(),
            texts_sorted(string_views(r@)),
            string_views(r@).to_multiset() == all.take(i as int).to_multiset(),
        decreases v@.len() - i,
    {
        let e = v[i].clone();
        let mut p: usize = 0;
        while p < r.len() && !text_less(e.as_str(), r[p].as_str())
            invariant
                p <= r@.len(),
                forall|q: int| 0 <= q < p ==> !text_lt(e@, #[trigger] string_views(r@)[q]),
            decreases r@.len() - p,
        {
            p = p + 1;
        }
        let ghost before = string_views(r@);
        r.insert(p, e);
        proof {
            let after = string_views(r@);
            assert(after =~= before.insert(p as int, e@));
            assert(all.take(i + 1) =~= all.take(i as int).push(all[i as int]));
            vstd::seq_lib::to_multiset_build(all.take(i as int), all[i as int]);
            assert forall|a: int, b: int| 0 <= a < b < after.len() implies !text_lt(
                #[trigger] after[b],
                #[trigger] after[a],
            ) by {
                if b < p {
                    assert(after[a] == before[a] && after[b] == before[b]);
                } else if b == p {
                    assert(after[a] == before[a]);
                } else if a == p {
                    assert(after[b] == before[b - 1]);
                    if text_lt(before[b - 1], e@) {
                        if b - 1 == p {
                            lemma_text_lt_transitive(e@, before[p as int], e@);
                            lemma_text_lt_irreflexive(e@);
                        } else {
                            lemma_text_lt_transitive(before[b - 1], e@, before[p as int]);
                        }
                    }
                } else if a < p {
                    assert(after[a] == before[a] && after[b] == before[b - 1]);
                } else {
                    assert(after[a] == before[a - 1] && after[b] == before[b - 1]);
                }
            }
        }
        i = i + 1;
    }
    proof {
        assert(all.take(v@.len() as int) =~= all);
    }
    r
}

/// The character of digit `d`.
pub open spec fn digit_char(d: nat) -> char {
    if d == 0 {
        '0'
    } else if d == 1 {
        '1'
    } else if d == 2 {
        '2'
    } else if d == 3 {
        '3'
    } else if d == 4 {
        '4'
    } else if d == 5 {
        '5'
    } else if d == 6 {
        '6'
    } else if d == 7 {
        '7'
    } else if d == 8 {
        '8'
    } else {
        '9'
    }
}

/// The decimal text of `n`.
pub open spec fn decimal(n: nat) -> Seq<char>
    decreases n,
{
    if n < 10 {
        seq![digit_char(n)]
    } else {
        decimal(n / 10).push(digit_char(n % 10))
    }
}

/// The text of digit `d`.
fn digit_text(d: usize) -> (s: &'static str)
    requires
        d < 10,
    ensures
        s@ == seq![digit_char(d as nat)],
{
    proof {
        reveal_strlit("0");
        reveal_strlit("1");
        reveal_strlit("2");
        reveal_strlit("3");
        reveal_strlit("4");
        reveal_strlit("5");
        reveal_strlit("6");
        reveal_strlit("7");
        reveal_strlit("8");
        reveal_strlit("9");
    }
    if d == 0 {
        "0"
    } else if d == 1 {
        "1"
    } else if d == 2 {
        "2"
    } else if d == 3 {
        "3"
    } else if d == 4 {
        "4"
    } else if d == 5 {
        "5"
    } else if d == 6 {
        "6"
    } else if d == 7 {
        "7"
    } else if d == 8 {
        "8"
    } else {
        "9"
    }
}

/// The decimal text of `n` (see `decimal`).
pub fn decimal_text(n: usize) -> (s: String)
    ensures
        s@ == decimal(n as nat),
    decreases n,
{
    if n < 10 {
        String::from_str(digit_text(n))
    } else {
        let mut s = decimal_text(n / 10);
        s.append(digit_text(n % 10));
        s
    }
}


/// The path shown for the asset at `i`: that of the nearest asset with a path that it lies in
/// (see `is_nearest`), itself first.
pub open spec fn nearest_path(s: Seq<Asset>, i: int) -> Option<Seq<char>> {
    if exists|b: int| is_nearest(s, i, b) {
        let b = choose|b: int| is_nearest(s, i, b);
        Some(s[b].path.unwrap()@)
    } else {
        None
    }
}

/// The last component of path `p`: what follows its last `/`.
pub open spec fn file_name_of(p: Seq<char>) -> Seq<char>
    decreases p.len(),
{
    if p.len() == 0 || p.last() == '/' {
        Seq::empty()
    } else {
        file_name_of(p.drop_last()).push(p.last())
    }
}

/// The short text of the asset at `i`: for a C# type with a path, its name and the file name
/// of the path; for another asset with a path, the path; else its identifier.
pub open spec fn short_text(s: Seq<Asset>, i: int) -> Seq<char> {
    match nearest_path(s, i) {
        Some(p) => match s[i].id@ {
            IdView::CsType(n) => name_text(n) + " in "@ + file_name_of(p),
            _ => p,
        },
        None => id_text(s[i].id@),
    }
}

/// The position of the asset with identifier `id`.
pub open spec fn position_of(s: Seq<Asset>, id: IdView) -> int {
    choose|k: int| 0 <= k < s.len() && s[k].id@ == id
}

/// The relations of an asset as they are listed: those it declares, then those declared
/// towards it.
pub open spec fn asset_relations(a: Asset) -> Seq<RelationView> {
    relation_views(a.relations@) + relation_views(a.back_relations@)
}

/// Whether relation `r` is shown: with no group, every relation is; with a group (positions of
/// assets), only a `UsedBy` relation whose target is in the group.
pub open spec fn admitted(s: Seq<Asset>, r: RelationView, group: Option<Seq<usize>>) -> bool {
    match group {
        None => true,
        Some(g) => r.kind == RelationKind::UsedBy && exists|q: int|
            0 <= q < g.len() && #[trigger] s[g[q] as int].id@ == r.target,
    }
}

/// The short texts of the targets of the relations `rels` of kind `kind` that are in the
/// database and shown, in the order of `rels`.
pub open spec fn related_texts(
    s: Seq<Asset>,
    rels: Seq<RelationView>,
    kind: RelationKind,
    group: Option<Seq<usize>>,
) -> Seq<Seq<char>>
    decreases rels.len(),
{
    if rels.len() == 0 {
        Seq::empty()
    } else {
        let r = rels.last();
        let rest = related_texts(s, rels.drop_last(), kind, group);
        if r.kind == kind && has_asset(asset_views(s), r.target) && admitted(s, r, group) {
            rest.push(short_text(s, position_of(s, r.target)))
        } else {
            rest
        }
    }
}

/// The indentation of `n` levels.
pub open spec fn spaces(n: nat) -> Seq<char>
    decreases n,
{
    if n == 0 {
        Seq::empty()
    } else {
        spaces((n - 1) as nat) + "  "@
    }
}

/// One line `- t` for each text `t` of `d`, after `prefix`.
pub open spec fn lines_of(prefix: Seq<char>, d: Seq<Seq<char>>) -> Seq<char>
    decreases d.len(),
{
    if d.len() == 0 {
        Seq::empty()
    } else {
        lines_of(prefix, d.drop_last()) + prefix + "- "@ + d.last() + "\n"@
    }
}

/// The section of the full text that lists the texts `d` under relation kind `kind`: nothing
/// when there are none, else a heading with their number and one line each.
pub open spec fn section_text(indent: nat, kind: RelationKind, d: Seq<Seq<char>>) -> Seq<char> {
    if d.len() == 0 {
        Seq::empty()
    } else {
        spaces(indent + 1) + kind_label(kind) + " ("@ + decimal(d.len()) + "):\n"@ + lines_of(
            spaces(indent + 1),
            d,
        )
    }
}

/// The first lines of the full text of the asset at `i`: identifier, kind and path.
pub open spec fn header_text(s: Seq<Asset>, i: int, indent: nat) -> Seq<char> {
    spaces(indent) + "- Asset ID: "@ + id_text(s[i].id@) + "\n"@ + spaces(indent + 1) + "Type: "@
        + asset_type_label(s[i].asset_type) + "\n"@ + match nearest_path(s, i) {
        Some(p) => spaces(indent + 1) + "Path: "@ + p + "\n"@,
        None => Seq::empty(),
    }
}

/// Whether `d1` to `d4` hold, in text order, the texts listed for the asset at `i` under the
/// relation kinds contained by, contains, used by and uses (see `related_texts`).
pub open spec fn grouped_forms(
    s: Seq<Asset>,
    i: int,
    group: Option<Seq<usize>>,
    d1: Seq<Seq<char>>,
    d2: Seq<Seq<char>>,
    d3: Seq<Seq<char>>,
    d4: Seq<Seq<char>>,
) -> bool {
    let rels = asset_relations(s[i]);
    &&& sorted_form(related_texts(s, rels, RelationKind::ContainedBy, group), d1)
    &&& sorted_form(related_texts(s, rels, RelationKind::Contains, group), d2)
    &&& sorted_form(related_texts(s, rels, RelationKind::UsedBy, group), d3)
    &&& sorted_form(related_texts(s, rels, RelationKind::Uses, group), d4)
}

/// The full text of the asset at `i`: the header, then the sections for the texts `d1` to `d4`
/// under contained by, contains, used by and uses.
pub open spec fn full_text(
    s: Seq<Asset>,
    i: int,
    indent: nat,
    d1: Seq<Seq<char>>,
    d2: Seq<Seq<char>>,
    d3: Seq<Seq<char>>,
    d4: Seq<Seq<char>>,
) -> Seq<char> {
    header_text(s, i, indent) + section_text(indent, RelationKind::ContainedBy, d1) + section_text(
        indent,
        RelationKind::Contains,
        d2,
    ) + section_text(indent, RelationKind::UsedBy, d3) + section_text(
        indent,
        RelationKind::Uses,
        d4,
    )
}

/// The positions of a group, if one is given.
pub open spec fn group_view(group: Option<&Vec<usize>>) -> Option<Seq<usize>> {
    match group {
        Some(g) => Some(g@),
        None => None,
    }
}

/// The last component of path `p` (see `file_name_of`).
pub fn file_name(p: &str) -> (r: String)
    ensures
        r@ == file_name_of(p@),
{
    let cs = chars_of(p);
    let n = cs.len();
    let mut k: usize = n;
    proof {
        assert(p@.take(n as int) =~= p@);
        assert(p@.subrange(n as int, n as int) =~= Seq::<char>::empty());
    }
    while k > 0 && cs[k - 1] != '/'
        invariant
            cs@ == p@,
            n == p@.len(),
            k <= n,
            file_name_of(p@) == file_name_of(p@.take(k as int)) + p@.subrange(k as int, n as int),
        decreases k,
    {
        proof {
            let t = p@.take(k as int);
            assert(t.drop_last() =~= p@.take(k - 1));
            assert(t.last() == cs@[k - 1]);
            assert(p@.subrange(k - 1, n as int) =~= seq![cs@[k - 1]] + p@.subrange(k as int, n as int));
        }
        k = k - 1;
    }
    proof {
        if k > 0 {
            assert(p@.take(k as int).last() == cs@[k - 1]);
        }
        assert(file_name_of(p@.take(k as int)) =~= Seq::<char>::empty());
    }
    String::from_str(p.substring_char(k, n))
}

/// The text of `n` levels of indentation.
fn spaces_text(n: usize) -> (s: String)
    ensures
        s@ == spaces(n as nat),
{
    let mut s = String::new();
    let mut i: usize = 0;
    while i < n
        invariant
            i <= n,
            s@ == spaces(i as nat),
        decreases n - i,
    {
        s.append("  ");
        i = i + 1;
    }
    s
}

/// The text of a kind of relation.
fn kind_text(k: RelationKind) -> (s: &'static str)
    ensures
        s@ == kind_label(k),
{
    match k {
        RelationKind::Uses => "Uses",
        RelationKind::UsedBy => "Used By",
        RelationKind::Contains => "Contains",
        RelationKind::ContainedBy => "Contained By",
    }
}

impl Database {
    /// The path shown for the asset at `index` (see `nearest_path`).
    fn path_shown(&self, index: usize) -> (r: Option<&String>)
        requires
            self.wf(),
            index < self.assets@.len(),
        ensures
            match nearest_path(self.assets@, index as int) {
                Some(p) => r matches Some(q) && q@ == p,
                None => r is None,
            },
    {
        let r = self.asset_path(index);
        proof {
            let s = self.assets@;
            match r {
                Some(q) => {
                    let b = choose|b: int| is_nearest(s, index as int, b) && s[b].path == Some(*q);
                    let c = choose|c: int| is_nearest(s, index as int, c);
                    law_nearest_unique(s, index as int, b, c);
                },
                None => {},
            }
        }
        r
    }

    /// The short text of the asset at `index` (see `short_text`).
    pub fn display_short(&self, index: usize) -> (r: String)
        requires
            self.wf(),
            index < self.assets@.len(),
            ids_displayable(self.assets@),
        ensures
            r@ == short_text(self.assets@, index as int),
    {
        assert(crate::id::id_displayable(self.assets@[index as int].id@));
        match self.path_shown(index) {
            Some(p) => match &self.assets[index].id {
                Id::CsType(name) => {
                    let mut s = name.to_text();
                    s.append(" in ");
                    let f = file_name(p.as_str());
                    s.append(f.as_str());
                    s
                },
                _ => p.clone(),
            },
            None => self.assets[index].id.to_text(),
        }
    }

    /// Whether `id` is the identifier of an asset of the group `g` (positions of assets).
    fn in_group(&self, g: &Vec<usize>, id: &Id) -> (b: bool)
        requires
            forall|q: int| 0 <= q < g@.len() ==> #[trigger] g@[q] < self.assets@.len(),
        ensures
            b == exists|q: int| 0 <= q < g@.len() && #[trigger] self.assets@[g@[q] as int].id@ == id@,
    {
        let mut q: usize = 0;
        while q < g.len()
            invariant
                q <= g@.len(),
                forall|c: int| 0 <= c < g@.len() ==> #[trigger] g@[c] < self.assets@.len(),
                forall|c: int| 0 <= c < q ==> #[trigger] self.assets@[g@[c] as int].id@ != id@,
            decreases g@.len() - q,
        {
            if self.assets[g[q]].id.same(id) {
                return true;
            }
            q = q + 1;
        }
        false
    }

    /// The short texts of the targets of the relations of kind `kind` of the asset at `index`
    /// that are in the database and shown (see `related_texts` and `admitted`), in the order
    /// in which the asset lists its relations.
    pub fn related_short_texts(
        &self,
        index: usize,
        kind: RelationKind,
        group: Option<&Vec<usize>>,
    ) -> (r: Vec<String>)
        requires
            self.wf(),
            index < self.assets@.len(),
            ids_displayable(self.assets@),
            group matches Some(g) ==> forall|q: int|
                0 <= q < g@.len() ==> #[trigger] g@[q] < self.assets@.len(),
        ensures
            string_views(r@) == related_texts(
                self.assets@,
                asset_relations(self.assets@[index as int]),
                kind,
                group_view(group),
            ),
    {
        let ghost s = self.assets@;
        let ghost gv = group_view(group);
        let rels = self.assets[index].relations_iter();
        let ghost all = ref_views(rels@);
        let mut r: Vec<String> = Vec::new();
        let mut k: usize = 0;
        proof {
            assert(all.take(0) =~= Seq::<RelationView>::empty());
            assert(string_views(r@) =~= Seq::<Seq<char>>::empty());
        }
        while k < rels.len()
            invariant
                s == self.assets@,
                self.wf(),
                ids_displayable(self.assets@),
                gv == group_view(group),
                group matches Some(g) ==> forall|q: int|
                    0 <= q < g@.len() ==> #[trigger] g@[q] < self.assets@.len(),
                all == ref_views(rels@),
                k <= rels@.len(),
                string_views(r@) == related_texts(s, all.take(k as int), kind, gv),
            decreases rels@.len() - k,
        {
            let rel = rels[k];
            let ghost rv = all[k as int];
            assert(rel@ == rv);
            assert(all.take(k + 1).drop_last() =~= all.take(k as int));
            assert(all.take(k + 1).last() == rv);
            if rel.kind() == kind {
                match self.find(rel.id()) {
                    Some(j) => {
                        let shown = match group {
                            None => true,
                            Some(g) => kind == RelationKind::UsedBy && self.in_group(g, rel.id()),
                        };
                        proof {
                            assert(asset_views(s)[j as int].id == rv.target);
                            let c = position_of(s, rv.target);
                            assert(0 <= c < s.len() && s[c].id@ == rv.target);
                            if c != j {
                                assert(s[c].id@ != s[j as int].id@);
                            }
                        }
                        if shown {
                            let ghost before = string_views(r@);
                            let t = self.display_short(j);
                            r.push(t);
                            proof {
                                assert(string_views(r@) =~= before.push(t@));
                            }
                        }
                    },
                    None => {},
                }
            }
            k = k + 1;
        }
        proof {
            assert(all.take(rels@.len() as int) =~= all);
        }
        r
    }

    /// The section of the full text of the asset at `index` for relation kind `kind` (see
    /// `section_text`), its texts in text order.
    fn section(
        &self,
        index: usize,
        indent: usize,
        kind: RelationKind,
        group: Option<&Vec<usize>>,
    ) -> (r: String)
        requires
            self.wf(),
            index < self.assets@.len(),
            indent < usize::MAX,
            ids_displayable(self.assets@),
            group matches Some(g) ==> forall|q: int|
                0 <= q < g@.len() ==> #[trigger] g@[q] < self.assets@.len(),
        ensures
            exists|d: Seq<Seq<char>>|
                sorted_form(
                    related_texts(
                        self.assets@,
                        asset_relations(self.assets@[index as int]),
                        kind,
                        group_view(group),
                    ),
                    d,
                ) && r@ == section_text(indent as nat, kind, d),
    {
        let texts = self.related_short_texts(index, kind, group);
        let sorted = sort_texts(texts);
        let ghost d = string_views(sorted@);
        if sorted.len() == 0 {
            let r = String::new();
            proof {
                assert(r@ =~= section_text(indent as nat, kind, d));
                assert(sorted_form(
                    related_texts(
                        self.assets@,
                        asset_relations(self.assets@[index as int]),
                        kind,
                        group_view(group),
                    ),
                    d,
                ));
            }
            return r;
        }
        let pad = spaces_text(indent + 1);
        let mut s = String::new();
        s.append(pad.as_str());
        s.append(kind_text(kind));
        s.append(" (");
        let count = decimal_text(sorted.len());
        s.append(count.as_str());
        s.append("):\n");
        let ghost head = s@;
        let mut k: usize = 0;
        proof {
            assert(d.take(0) =~= Seq::<Seq<char>>::empty());
        }
        while k < sorted.len()
            invariant
                d == string_views(sorted@),
                pad@ == spaces(indent as nat + 1),
                k <= sorted@.len(),
                s@ == head + lines_of(pad@, d.take(k as int)),
            decreases sorted@.len() - k,
        {
            proof {
                assert(d.take(k + 1).drop_last() =~= d.take(k as int));
                assert(d.take(k + 1).last() == sorted@[k as int]@);
            }
            s.append(pad.as_str());
            s.append("- ");
            s.append(sorted[k].as_str());
            s.append("\n");
            k = k + 1;
        }
        proof {
            assert(d.take(sorted@.len() as int) =~= d);
            assert(s@ =~= section_text(indent as nat, kind, d));
        }
        s
    }

    /// The full text of the asset at `index` at indentation `indent`: its identifier, kind and
    /// path, then the targets of its relations by kind (contained by, contains, used by, uses),
    /// each group in text order (see `header_text` and `section_text`). With a group of assets
    /// given, only its `UsedBy` relations towards assets of the group are listed (see
    /// `admitted`).
    pub fn display_full(&self, index: usize, indent: usize, group: Option<&Vec<usize>>) -> (r:
        String)
        requires
            self.wf(),
            index < self.assets@.len(),
            indent < usize::MAX,
            ids_displayable(self.assets@),
            group matches Some(g) ==> forall|q: int|
                0 <= q < g@.len() ==> #[trigger] g@[q] < self.assets@.len(),
        ensures
            exists|d1: Seq<Seq<char>>, d2: Seq<Seq<char>>, d3: Seq<Seq<char>>, d4: Seq<Seq<char>>|
                #[trigger] grouped_forms(self.assets@, index as int, group_view(group), d1, d2, d3, d4)
                    && r@ == full_text(self.assets@, index as int, indent as nat, d1, d2, d3, d4),
    {
        let ghost s = self.assets@;
        assert(crate::id::id_displayable(s[index as int].id@));
        let mut out = spaces_text(indent);
        out.append("- Asset ID: ");
        let id = self.assets[index].id.to_text();
        out.append(id.as_str());
        out.append("\n");
        let pad = spaces_text(indent + 1);
        out.append(pad.as_str());
        out.append("Type: ");
        let label = self.assets[index].asset_type.label();
        out.append(label.as_str());
        out.append("\n");
        match self.path_shown(index) {
            Some(p) => {
                out.append(pad.as_str());
                out.append("Path: ");
                out.append(p.as_str());
                out.append("\n");
            },
            None => {},
        }
        let ghost head = out@;
        assert(head =~= header_text(s, index as int, indent as nat));
        let a = self.section(index, indent, RelationKind::ContainedBy, group);
        let b = self.section(index, indent, RelationKind::Contains, group);
        let c = self.section(index, indent, RelationKind::UsedBy, group);
        let e = self.section(index, indent, RelationKind::Uses, group);
        out.append(a.as_str());
        out.append(b.as_str());
        out.append(c.as_str());
        out.append(e.as_str());
        proof {
            let rels = asset_relations(s[index as int]);
            let gv = group_view(group);
            let d1 = choose|d: Seq<Seq<char>>|
                sorted_form(related_texts(s, rels, RelationKind::ContainedBy, gv), d) && a@
                    == section_text(indent as nat, RelationKind::ContainedBy, d);
            let d2 = choose|d: Seq<Seq<char>>|
                sorted_form(related_texts(s, rels, RelationKind::Contains, gv), d) && b@
                    == section_text(indent as nat, RelationKind::Contains, d);
            let d3 = choose|d: Seq<Seq<char>>|
                sorted_form(related_texts(s, rels, RelationKind::UsedBy, gv), d) && c@
                    == section_text(indent as nat, RelationKind::UsedBy, d);
            let d4 = choose|d: Seq<Seq<char>>|
                sorted_form(related_texts(s, rels, RelationKind::Uses, gv), d) && e@
                    == section_text(indent as nat, RelationKind::Uses, d);
            assert(out@ =~= head + a@ + b@ + c@ + e@);
            assert(grouped_forms(s, index as int, gv, d1, d2, d3, d4));
        }
        out
    }
}

} // verus!
