//! The structure of a C# source file, gathered from the matches of the structure query: the
//! namespaces declared and imported in each scope, the aliases, the types declared and used, and
//! the variables declared and used.

use crate::qualified_name::{
    name_view_of, NameError, NameErrorView, NameView, QualifiedName, QualifiedNameOwned,
};
use crate::syntax::{
    name_at, name_fuel, node_text, range_text, spelled_name, NodeKind, SyntaxTree,
    law_spelled_name_nonempty,
};
use crate::type_broker::name_views;
use vstd::prelude::*;

verus! {

/// One capture of a query match: the index of the capture name and the captured node.
#[derive(Debug, Clone, Copy, PartialEq, Eq, Structural)]
pub struct Capture {
    pub index: u32,
    pub node: usize,
}

/// The captures of one match of the structure query.
#[derive(Debug)]
pub struct QueryMatch {
    pub captures: Vec<Capture>,
}

/// The capture indices of the names of the structure query.
#[derive(Debug, Clone, Copy, PartialEq, Eq, Structural)]
pub struct CaptureIds {
    pub ns_decl: u32,
    pub ns_use: u32,
    pub type_decl: u32,
    pub type_use: u32,
    pub var_decl: u32,
    pub var_use: u32,
    pub id: u32,
    pub alias: u32,
    pub generics: u32,
}

/// Failures while the structure of a file is gathered.
#[derive(Debug)]
pub enum StructureError {
    /// A match lacks the capture of this name.
    FieldName(&'static str),
    /// A capture of an index that the query does not name.
    FieldId(u32),
    /// Source text that is not UTF-8.
    Utf8,
    /// A `using static` directive whose parts cannot be told apart.
    BadStaticUsing(String),
    /// A name that cannot be read.
    BadName(NameError),
    /// A declaration whose name has no enclosing node.
    Unknown(String),
}

/// The abstract content of a structure failure.
pub enum StructureErrorView {
    FieldName(Seq<char>),
    FieldId(u32),
    Utf8,
    BadStaticUsing(Seq<char>),
    BadName(NameErrorView),
    Unknown(Seq<char>),
}

/// The message shown for a failure to gather the structure of a file.
pub open spec fn structure_error_text(e: StructureErrorView) -> Seq<char> {
    match e {
        StructureErrorView::FieldName(n) => "No such field '"@ + n + "'"@,
        StructureErrorView::FieldId(id) => "No such field "@ + crate::display::decimal(id as nat),
        StructureErrorView::Utf8 => "Failed to convert buffer to UTF-8"@,
        StructureErrorView::BadStaticUsing(s) => "Failed to parse static using '"@ + s + "'"@,
        StructureErrorView::BadName(n) => "Failed to parse name: "@ + crate::qualified_name::name_error_text(n),
        StructureErrorView::Unknown(s) => "Unknown error: "@ + s,
    }
}

impl StructureError {
    /// The message shown for this failure (see `structure_error_text`).
    pub fn message(&self) -> (s: String)
        ensures
            s@ == structure_error_text(self@),
    {
        match self {
            StructureError::FieldName(n) => {
                let mut r = String::from_str("No such field '");
                r.append(n);
                r.append("'");
                r
            },
            StructureError::FieldId(id) => {
                let mut r = String::from_str("No such field ");
                let d = crate::display::decimal_text(*id as usize);
                r.append(d.as_str());
                r
            },
            StructureError::Utf8 => String::from_str("Failed to convert buffer to UTF-8"),
            StructureError::BadStaticUsing(s) => {
                let mut r = String::from_str("Failed to parse static using '");
                r.append(s.as_str());
                r.append("'");
                r
            },
            StructureError::BadName(e) => {
                let mut r = String::from_str("Failed to parse name: ");
                let m = e.message();
                r.append(m.as_str());
                r
            },
            StructureError::Unknown(s) => {
                let mut r = String::from_str("Unknown error: ");
                r.append(s.as_str());
                r
            },
        }
    }
}

impl View for StructureError {
    type V = StructureErrorView;

    open spec fn view(&self) -> StructureErrorView {
        match self {
            StructureError::FieldName(s) => StructureErrorView::FieldName(s@),
            StructureError::FieldId(i) => StructureErrorView::FieldId(*i),
            StructureError::Utf8 => StructureErrorView::Utf8,
            StructureError::BadStaticUsing(s) => StructureErrorView::BadStaticUsing(s@),
            StructureError::BadName(e) => StructureErrorView::BadName(e@),
            StructureError::Unknown(s) => StructureErrorView::Unknown(s@),
        }
    }
}

/// What the structure query found, per node of the tree (lists hold each name once, in the
/// order found).
#[derive(Debug)]
pub struct StructureInfo {
    /// Per scope: aliases and the names they stand for.
    pub aliases: Vec<Vec<(QualifiedNameOwned, QualifiedNameOwned)>>,
    /// The file-scoped namespace, if declared.
    pub fsns_decl: Option<QualifiedNameOwned>,
    /// Per scope: the namespaces declared in it.
    pub ns_decl_names: Vec<Vec<QualifiedNameOwned>>,
    /// Per namespace declaration: its name.
    pub ns_decl_nodes: Vec<Option<QualifiedNameOwned>>,
    /// Per scope: the namespaces imported in it.
    pub ns_usages: Vec<Vec<QualifiedNameOwned>>,
    /// Per scope: the types declared in it.
    pub type_decl_names: Vec<Vec<QualifiedNameOwned>>,
    /// Per type declaration: its name.
    pub type_decl_nodes: Vec<Option<QualifiedNameOwned>>,
    /// Per type use: the name used.
    pub type_usages: Vec<Option<QualifiedNameOwned>>,
    /// Per scope: the variables declared in it.
    pub var_decl: Vec<Vec<QualifiedNameOwned>>,
    /// Per variable use: the name used.
    pub var_usages: Vec<Option<QualifiedNameOwned>>,
}

/// The abstract content of the structure of a file.
pub struct InfoView {
    pub aliases: Seq<Seq<(NameView, NameView)>>,
    pub fsns_decl: Option<NameView>,
    pub ns_decl_names: Seq<Seq<NameView>>,
    pub ns_decl_nodes: Seq<Option<NameView>>,
    pub ns_usages: Seq<Seq<NameView>>,
    pub type_decl_names: Seq<Seq<NameView>>,
    pub type_decl_nodes: Seq<Option<NameView>>,
    pub type_usages: Seq<Option<NameView>>,
    pub var_decl: Seq<Seq<NameView>>,
    pub var_usages: Seq<Option<NameView>>,
}

/// The abstract content of an optional name.
pub open spec fn opt_name(o: Option<QualifiedNameOwned>) -> Option<NameView> {
    match o {
        Some(n) => Some(n@),
        None => None,
    }
}

/// The abstract content of per-node lists of names.
pub open spec fn list_slots(v: Seq<Vec<QualifiedNameOwned>>) -> Seq<Seq<NameView>> {
    v.map_values(|l: Vec<QualifiedNameOwned>| name_views(l@))
}

/// The abstract content of per-node optional names.
pub open spec fn opt_slots(v: Seq<Option<QualifiedNameOwned>>) -> Seq<Option<NameView>> {
    v.map_values(|o: Option<QualifiedNameOwned>| opt_name(o))
}

/// The abstract content of a list of name pairs.
pub open spec fn pair_views(l: Seq<(QualifiedNameOwned, QualifiedNameOwned)>) -> Seq<(NameView, NameView)> {
    l.map_values(|p: (QualifiedNameOwned, QualifiedNameOwned)| (p.0@, p.1@))
}

/// The abstract content of per-node lists of name pairs.
pub open spec fn pair_slots(v: Seq<Vec<(QualifiedNameOwned, QualifiedNameOwned)>>) -> Seq<
    Seq<(NameView, NameView)>,
> {
    v.map_values(|l: Vec<(QualifiedNameOwned, QualifiedNameOwned)>| pair_views(l@))
}

impl View for StructureInfo {
    type V = InfoView;

    open spec fn view(&self) -> InfoView {
        InfoView {
            aliases: pair_slots(self.aliases@),
            fsns_decl: opt_name(self.fsns_decl),
            ns_decl_names: list_slots(self.ns_decl_names@),
            ns_decl_nodes: opt_slots(self.ns_decl_nodes@),
            ns_usages: list_slots(self.ns_usages@),
            type_decl_names: list_slots(self.type_decl_names@),
            type_decl_nodes: opt_slots(self.type_decl_nodes@),
            type_usages: opt_slots(self.type_usages@),
            var_decl: list_slots(self.var_decl@),
            var_usages: opt_slots(self.var_usages@),
        }
    }
}

/// Whether every per-node table of `s` has one entry per node of a tree of `n` nodes.
pub open spec fn info_sized(s: InfoView, n: nat) -> bool {
    &&& s.aliases.len() == n
    &&& s.ns_decl_names.len() == n
    &&& s.ns_decl_nodes.len() == n
    &&& s.ns_usages.len() == n
    &&& s.type_decl_names.len() == n
    &&& s.type_decl_nodes.len() == n
    &&& s.type_usages.len() == n
    &&& s.var_decl.len() == n
    &&& s.var_usages.len() == n
}

/// The structure of a file of `n` nodes before any match is read.
pub open spec fn empty_info(n: nat) -> InfoView {
    InfoView {
        aliases: Seq::new(n, |i: int| Seq::empty()),
        fsns_decl: None,
        ns_decl_names: Seq::new(n, |i: int| Seq::empty()),
        ns_decl_nodes: Seq::new(n, |i: int| None),
        ns_usages: Seq::new(n, |i: int| Seq::empty()),
        type_decl_names: Seq::new(n, |i: int| Seq::empty()),
        type_decl_nodes: Seq::new(n, |i: int| None),
        type_usages: Seq::new(n, |i: int| None),
        var_decl: Seq::new(n, |i: int| Seq::empty()),
        var_usages: Seq::new(n, |i: int| None),
    }
}

/// `s` with `x` appended unless it is there already.
pub open spec fn add_name(s: Seq<NameView>, x: NameView) -> Seq<NameView> {
    if s.contains(x) {
        s
    } else {
        s.push(x)
    }
}

/// The position of the first pair of `s` whose key is `k`.
pub open spec fn key_position(s: Seq<(NameView, NameView)>, k: NameView) -> Option<int>
    decreases s.len(),
{
    if s.len() == 0 {
        None
    } else if s.last().0 == k && key_position(s.drop_last(), k) is None {
        Some(s.len() - 1)
    } else {
        key_position(s.drop_last(), k)
    }
}

/// `s` with the value of key `k` set to `v`: the pair of that key replaced, or a new pair
/// appended.
pub open spec fn put_pair(s: Seq<(NameView, NameView)>, k: NameView, v: NameView) -> Seq<
    (NameView, NameView),
> {
    match key_position(s, k) {
        Some(i) => s.update(i, (k, v)),
        None => s.push((k, v)),
    }
}

/// The node of the first capture of `m` with index `k`.
pub open spec fn first_node(m: Seq<Capture>, k: u32) -> Option<usize>
    decreases m.len(),
{
    if m.len() == 0 {
        None
    } else if m[0].index == k {
        Some(m[0].node)
    } else {
        first_node(m.drop_first(), k)
    }
}

/// The name that node `n` spells.
pub open spec fn spelled(t: &SyntaxTree, n: int) -> Result<NameView, NameErrorView> {
    spelled_name(t, n, NameView { alias: None, parts: Seq::empty() }, name_fuel(t))
}

/// The failure that quotes node `n` with `f`, or the UTF-8 failure when it has no text.
pub open spec fn quote(t: &SyntaxTree, n: int, f: spec_fn(Seq<char>) -> StructureErrorView) -> StructureErrorView {
    match node_text(t, n) {
        Some(s) => f(s),
        None => StructureErrorView::Utf8,
    }
}

/// Whether a child of node `d` is the keyword `static`.
pub open spec fn has_static_child(t: &SyntaxTree, d: int) -> bool {
    exists|c: int|
        0 <= c < t.nodes@[d].children@.len() && t.nodes@[t.nodes@[d].children@[c] as int].kind
            == NodeKind::StaticKeyword
}

/// A namespace declaration in scope `scope`: a file-scoped one sets the file's namespace; any
/// other records the declaration's name and adds it to the scope.
pub open spec fn eval_ns_decl(t: &SyntaxTree, m: Seq<Capture>, ids: CaptureIds, scope: int, s: InfoView) -> Result<
    InfoView,
    StructureErrorView,
> {
    match first_node(m, ids.id) {
        None => Err(StructureErrorView::FieldName("id"@)),
        Some(idn) => match spelled(t, idn as int) {
            Err(e) => Err(StructureErrorView::BadName(e)),
            Ok(id) => match t.nodes@[idn as int].parent {
                None => Err(quote(t, idn as int, |x: Seq<char>| StructureErrorView::Unknown(x))),
                Some(decl) => if t.nodes@[decl as int].kind
                    == NodeKind::FileScopedNamespaceDeclaration {
                    Ok(InfoView { fsns_decl: Some(id), ..s })
                } else {
                    Ok(
                        InfoView {
                            ns_decl_nodes: s.ns_decl_nodes.update(decl as int, Some(id)),
                            ns_decl_names: s.ns_decl_names.update(
                                scope,
                                add_name(s.ns_decl_names[scope], id),
                            ),
                            ..s
                        },
                    )
                },
            },
        },
    }
}

/// A `using` directive in scope `scope`: with an alias, the alias stands for the name; a
/// `using static` directive makes its last part stand for the rest; any other imports the
/// namespace into the scope.
pub open spec fn eval_ns_usage(t: &SyntaxTree, m: Seq<Capture>, ids: CaptureIds, scope: int, s: InfoView) -> Result<
    InfoView,
    StructureErrorView,
> {
    match first_node(m, ids.id) {
        None => Err(StructureErrorView::FieldName("id"@)),
        Some(idn) => match spelled(t, idn as int) {
            Err(e) => Err(StructureErrorView::BadName(e)),
            Ok(id) => {
                let alias: Result<Option<NameView>, StructureErrorView> = match first_node(
                    m,
                    ids.alias,
                ) {
                    None => Ok(None),
                    Some(an) => match spelled(t, an as int) {
                        Ok(a) => Ok(Some(a)),
                        Err(e) => Err(StructureErrorView::BadName(e)),
                    },
                };
                match alias {
                    Err(e) => Err(e),
                    Ok(alias) => match t.nodes@[idn as int].parent {
                        None => Err(
                            quote(t, idn as int, |x: Seq<char>| StructureErrorView::BadStaticUsing(x)),
                        ),
                        Some(decl) => match alias {
                            Some(a) => Ok(
                                InfoView {
                                    aliases: s.aliases.update(
                                        scope,
                                        put_pair(s.aliases[scope], a, id),
                                    ),
                                    ..s
                                },
                            ),
                            None => if has_static_child(t, decl as int) {
                                let last = id.parts.len() - 1;
                                let field = NameView { alias: None, parts: id.parts.skip(last) };
                                let qual = NameView { alias: id.alias, parts: id.parts.take(last) };
                                Ok(
                                    InfoView {
                                        aliases: s.aliases.update(
                                            scope,
                                            put_pair(s.aliases[scope], field, qual),
                                        ),
                                        ..s
                                    },
                                )
                            } else {
                                Ok(
                                    InfoView {
                                        ns_usages: s.ns_usages.update(
                                            scope,
                                            add_name(s.ns_usages[scope], id),
                                        ),
                                        ..s
                                    },
                                )
                            },
                        },
                    },
                }
            },
        },
    }
}

/// A type declaration in scope `scope`: its name is its identifier, or the text from its
/// identifier to the end of its type parameter list; the declaration (the identifier's parent)
/// records it and the scope adds it.
pub open spec fn eval_type_decl(t: &SyntaxTree, m: Seq<Capture>, ids: CaptureIds, scope: int, s: InfoView) -> Result<
    InfoView,
    StructureErrorView,
> {
    let named: Result<(NameView, usize), StructureErrorView> = match (
        first_node(m, ids.id),
        first_node(m, ids.generics),
    ) {
        (Some(idn), Some(gn)) => match range_text(
            t,
            t.nodes@[idn as int].start as int,
            t.nodes@[gn as int].end as int,
        ) {
            Some(x) => Ok((name_view_of(x), idn)),
            None => Err(StructureErrorView::Utf8),
        },
        (Some(idn), None) => match spelled(t, idn as int) {
            Ok(x) => Ok((x, idn)),
            Err(e) => Err(StructureErrorView::BadName(e)),
        },
        (None, _) => Err(StructureErrorView::FieldName("id"@)),
    };
    match named {
        Err(e) => Err(e),
        Ok((name, idn)) => {
            let decl = t.nodes@[idn as int].parent.unwrap() as int;
            Ok(
                InfoView {
                    type_decl_nodes: s.type_decl_nodes.update(decl, Some(name)),
                    type_decl_names: s.type_decl_names.update(
                        scope,
                        add_name(s.type_decl_names[scope], name),
                    ),
                    ..s
                },
            )
        },
    }
}

/// A use of a type at node `n`, unless it is the target of a `using` alias directive.
pub open spec fn eval_type_usage(t: &SyntaxTree, n: int, s: InfoView) -> Result<
    InfoView,
    StructureErrorView,
> {
    let in_using = match t.nodes@[n].parent {
        Some(u) => t.nodes@[u as int].kind == NodeKind::UsingDirective,
        None => false,
    };
    if in_using {
        Ok(s)
    } else {
        match spelled(t, n) {
            Ok(x) => Ok(InfoView { type_usages: s.type_usages.update(n, Some(x)), ..s }),
            Err(e) => Err(StructureErrorView::BadName(e)),
        }
    }
}

/// A variable declared in scope `scope`.
pub open spec fn eval_var_decl(t: &SyntaxTree, m: Seq<Capture>, ids: CaptureIds, scope: int, s: InfoView) -> Result<
    InfoView,
    StructureErrorView,
> {
    match first_node(m, ids.id) {
        None => Err(StructureErrorView::FieldName("id"@)),
        Some(idn) => match spelled(t, idn as int) {
            Ok(x) => Ok(
                InfoView { var_decl: s.var_decl.update(scope, add_name(s.var_decl[scope], x)), ..s },
            ),
            Err(e) => Err(StructureErrorView::BadName(e)),
        },
    }
}

/// A use of a variable at node `n`.
pub open spec fn eval_var_usage(t: &SyntaxTree, n: int, s: InfoView) -> Result<
    InfoView,
    StructureErrorView,
> {
    match spelled(t, n) {
        Ok(x) => Ok(InfoView { var_usages: s.var_usages.update(n, Some(x)), ..s }),
        Err(e) => Err(StructureErrorView::BadName(e)),
    }
}

/// What capture `c` of match `m` adds, by the name of its capture; the names that only mark
/// parts of a match add nothing, any other index fails.
pub open spec fn eval_capture(t: &SyntaxTree, m: Seq<Capture>, ids: CaptureIds, c: Capture, s: InfoView) -> Result<
    InfoView,
    StructureErrorView,
> {
    if c.index == ids.ns_decl {
        eval_ns_decl(t, m, ids, c.node as int, s)
    } else if c.index == ids.ns_use {
        eval_ns_usage(t, m, ids, c.node as int, s)
    } else if c.index == ids.type_decl {
        eval_type_decl(t, m, ids, c.node as int, s)
    } else if c.index == ids.type_use {
        eval_type_usage(t, c.node as int, s)
    } else if c.index == ids.var_decl {
        eval_var_decl(t, m, ids, c.node as int, s)
    } else if c.index == ids.var_use {
        eval_var_usage(t, c.node as int, s)
    } else if c.index != ids.id && c.index != ids.alias && c.index != ids.generics {
        Err(StructureErrorView::FieldId(c.index))
    } else {
        Ok(s)
    }
}

/// The structure after reading the captures of the matches in order, from capture `j` of match
/// `i` on; the first failure stops the reading.
pub open spec fn eval_from(
    t: &SyntaxTree,
    ms: Seq<Seq<Capture>>,
    ids: CaptureIds,
    i: int,
    j: int,
    s: InfoView,
) -> Result<InfoView, StructureErrorView>
    decreases ms.len() - i, ms[i].len() - j,
{
    if i < 0 || i >= ms.len() {
        Ok(s)
    } else if j < 0 || j >= ms[i].len() {
        eval_from(t, ms, ids, i + 1, 0, s)
    } else {
        match eval_capture(t, ms[i], ids, ms[i][j], s) {
            Ok(s2) => eval_from(t, ms, ids, i, j + 1, s2),
            Err(e) => Err(e),
        }
    }
}

/// The captures of a list of matches.
pub open spec fn match_captures(ms: Seq<QueryMatch>) -> Seq<Seq<Capture>> {
    ms.map_values(|m: QueryMatch| m.captures@)
}

/// Whether the matches fit the tree: every capture names a node, and where a match captures a
/// type declaration, its identifier has an enclosing node and starts no later than the type
/// parameter list ends.
pub open spec fn matches_fit(t: &SyntaxTree, ms: Seq<Seq<Capture>>, ids: CaptureIds) -> bool {
    &&& forall|i: int, j: int|
        0 <= i < ms.len() && 0 <= j < ms[i].len() ==> #[trigger] ms[i][j].node < t.nodes@.len()
    &&& forall|i: int|
        0 <= i < ms.len() && (exists|j: int| 0 <= j < ms[i].len() && ms[i][j].index == ids.type_decl)
            ==> match first_node(#[trigger] ms[i], ids.id) {
            Some(idn) => t.nodes@[idn as int].parent is Some && match first_node(
                ms[i],
                ids.generics,
            ) {
                Some(gn) => t.nodes@[idn as int].start <= t.nodes@[gn as int].end,
                None => true,
            },
            None => true,
        }
}

proof fn lemma_key_position(s: Seq<(NameView, NameView)>, k: NameView)
    ensures
        match key_position(s, k) {
            Some(i) => 0 <= i < s.len() && s[i].0 == k && forall|j: int| 0 <= j < i ==> s[j].0 != k,
            None => forall|j: int| 0 <= j < s.len() ==> s[j].0 != k,
        },
    decreases s.len(),
{
    if s.len() > 0 {
        lemma_key_position(s.drop_last(), k);
        match key_position(s.drop_last(), k) {
            Some(i) => {
                assert(s.drop_last()[i] == s[i]);
                assert forall|j: int| 0 <= j < i implies s[j].0 != k by {
                    assert(s.drop_last()[j] == s[j]);
                }
            },
            None => {
                assert forall|j: int| 0 <= j < s.len() - 1 implies s[j].0 != k by {
                    assert(s.drop_last()[j] == s[j]);
                }
            },
        }
    }
}

/// The node of the first capture of `m` with index `k` (see `first_node`).
pub(crate) fn first_capture_node(m: &Vec<Capture>, k: u32) -> (r: Option<usize>)
    ensures
        r == first_node(m@, k),
{
    let mut i: usize = 0;
    assert(m@.skip(0) =~= m@);
    while i < m.len()
        invariant
            i <= m@.len(),
            first_node(m@, k) == first_node(m@.skip(i as int), k),
        decreases m@.len() - i,
    {
        assert(m@.skip(i as int)[0] == m@[i as int]);
        if m[i].index == k {
            return Some(m[i].node);
        }
        assert(m@.skip(i as int).drop_first() =~= m@.skip(i + 1));
        i = i + 1;
    }
    None
}

/// Adds `x` to the list of node `k`, unless it is there.
fn add_name_at(slots: &mut Vec<Vec<QualifiedNameOwned>>, k: usize, x: QualifiedNameOwned)
    requires
        k < old(slots)@.len(),
    ensures
        list_slots(final(slots)@) == list_slots(old(slots)@).update(
            k as int,
            add_name(list_slots(old(slots)@)[k as int], x@),
        ),
{
    let ghost before = list_slots(slots@);
    let mut i: usize = 0;
    while i < slots[k].len()
        invariant
            k < slots@.len(),
            slots@ == old(slots)@,
            before == list_slots(old(slots)@),
            i <= slots@[k as int]@.len(),
            forall|j: int| 0 <= j < i ==> slots@[k as int]@[j]@ != x@,
        decreases slots@[k as int]@.len() - i,
    {
        if slots[k][i].same(&x) {
            proof {
                assert(name_views(slots@[k as int]@)[i as int] == x@);
                assert(before[k as int] == name_views(slots@[k as int]@));
                assert(list_slots(slots@) =~= before.update(k as int, add_name(before[k as int], x@)));
            }
            return;
        }
        i = i + 1;
    }
    proof {
        assert(before[k as int] == name_views(slots@[k as int]@));
        assert(!before[k as int].contains(x@)) by {
            if before[k as int].contains(x@) {
                let j = choose|j: int| 0 <= j < before[k as int].len() && before[k as int][j] == x@;
                assert(slots@[k as int]@[j]@ == x@);
            }
        }
    }
    let ghost xv = x@;
    let ghost inner = slots@[k as int]@;
    slots[k].push(x);
    proof {
        assert(name_views(slots@[k as int]@) =~= name_views(inner).push(xv));
        assert(list_slots(slots@) =~= before.update(k as int, add_name(before[k as int], xv)));
    }
}

/// Sets the name of node `k`.
fn set_name_at(slots: &mut Vec<Option<QualifiedNameOwned>>, k: usize, x: QualifiedNameOwned)
    requires
        k < old(slots)@.len(),
    ensures
        opt_slots(final(slots)@) == opt_slots(old(slots)@).update(k as int, Some(x@)),
{
    let ghost before = opt_slots(slots@);
    let ghost xv = x@;
    slots.set(k, Some(x));
    proof {
        assert(opt_slots(slots@) =~= before.update(k as int, Some(xv)));
    }
}

/// Sets the value of `key` in the pairs of node `k` (see `put_pair`).
fn put_pair_at(
    slots: &mut Vec<Vec<(QualifiedNameOwned, QualifiedNameOwned)>>,
    k: usize,
    key: QualifiedNameOwned,
    value: QualifiedNameOwned,
)
    requires
        k < old(slots)@.len(),
    ensures
        pair_slots(final(slots)@) == pair_slots(old(slots)@).update(
            k as int,
            put_pair(pair_slots(old(slots)@)[k as int], key@, value@),
        ),
{
    let ghost before = pair_slots(slots@);
    let ghost kv = key@;
    let ghost vv = value@;
    proof {
        lemma_key_position(before[k as int], kv);
        assert(before[k as int] == pair_views(slots@[k as int]@));
    }
    let mut i: usize = 0;
    while i < slots[k].len()
        invariant
            k < slots@.len(),
            slots@ == old(slots)@,
            before == pair_slots(old(slots)@),
            kv == key@,
            vv == value@,
            i <= slots@[k as int]@.len(),
            forall|j: int| 0 <= j < i ==> slots@[k as int]@[j].0@ != kv,
        decreases slots@[k as int]@.len() - i,
    {
        if slots[k][i].0.same(&key) {
            let ghost inner = slots@[k as int]@;
            proof {
                lemma_key_position(before[k as int], kv);
                assert(before[k as int] == pair_views(inner));
                assert(pair_views(inner)[i as int].0 == kv);
                assert forall|j: int| 0 <= j < i implies pair_views(inner)[j].0 != kv by {
                    assert(inner[j].0@ != kv);
                }
                match key_position(before[k as int], kv) {
                    Some(p) => {
                        if p < i {
                            assert(pair_views(inner)[p].0 != kv);
                        } else if p > i {
                            assert(pair_views(inner)[i as int].0 != kv);
                        }
                    },
                    None => {
                        assert(pair_views(inner)[i as int].0 != kv);
                    },
                }
            }
            slots[k].set(i, (key, value));
            proof {
                assert(pair_views(slots@[k as int]@) =~= pair_views(inner).update(
                    i as int,
                    (kv, vv),
                ));
                assert(pair_slots(slots@) =~= before.update(
                    k as int,
                    put_pair(before[k as int], kv, vv),
                ));
            }
            return;
        }
        i = i + 1;
    }
    let ghost inner = slots@[k as int]@;
    proof {
        lemma_key_position(before[k as int], kv);
        assert(before[k as int] == pair_views(inner));
        match key_position(before[k as int], kv) {
            Some(p) => {
                assert(inner[p].0@ != kv);
            },
            None => {},
        }
    }
    slots[k].push((key, value));
    proof {
        assert(pair_views(slots@[k as int]@) =~= pair_views(inner).push((kv, vv)));
        assert(pair_slots(slots@) =~= before.update(k as int, put_pair(before[k as int], kv, vv)));
    }
}

/// Whether the captures of `m` name nodes of `t`.
pub open spec fn captures_fit(t: &SyntaxTree, m: Seq<Capture>) -> bool {
    forall|j: int| 0 <= j < m.len() ==> #[trigger] m[j].node < t.nodes@.len()
}

pub(crate) proof fn lemma_first_node_fits(t: &SyntaxTree, m: Seq<Capture>, k: u32)
    requires
        captures_fit(t, m),
    ensures
        first_node(m, k) matches Some(n) ==> n < t.nodes@.len(),
    decreases m.len(),
{
    if m.len() > 0 && m[0].index != k {
        assert forall|j: int| 0 <= j < m.drop_first().len() implies #[trigger] m.drop_first()[j].node
            < t.nodes@.len() by {
            assert(m.drop_first()[j] == m[j + 1]);
        }
        lemma_first_node_fits(t, m.drop_first(), k);
    }
}

/// The conditions under which the structure handlers read node `scope` of a tree with the
/// captures of `m`.
pub open spec fn handler_ready(t: &SyntaxTree, m: Seq<Capture>, scope: int, s: InfoView) -> bool {
    &&& t.wf()
    &&& 4 * t.nodes@.len() + 4 <= usize::MAX
    &&& 0 <= scope < t.nodes@.len()
    &&& captures_fit(t, m)
    &&& info_sized(s, t.nodes@.len())
}

/// Whether `r` is what the spec result `spec` says: the same new structure, or the same failure.
pub open spec fn handled(
    spec: Result<InfoView, StructureErrorView>,
    r: Result<(), StructureError>,
    after: InfoView,
) -> bool {
    match spec {
        Ok(v) => r is Ok && after == v,
        Err(e) => r matches Err(e2) && e2@ == e,
    }
}

fn read_name(t: &SyntaxTree, n: usize) -> (r: Result<QualifiedNameOwned, StructureError>)
    requires
        t.wf(),
        4 * t.nodes@.len() + 4 <= usize::MAX,
        n < t.nodes@.len(),
    ensures
        match spelled(t, n as int) {
            Ok(v) => r matches Ok(q) && q@ == v,
            Err(e) => r matches Err(e2) && e2@ == StructureErrorView::BadName(e),
        },
{
    match name_at(t, n) {
        Ok(q) => Ok(q),
        Err(e) => Err(StructureError::BadName(e)),
    }
}

impl StructureInfo {
    fn ns_decl(&mut self, t: &SyntaxTree, m: &Vec<Capture>, ids: CaptureIds, scope: usize) -> (r:
        Result<(), StructureError>)
        requires
            handler_ready(t, m@, scope as int, old(self)@),
        ensures
            handled(eval_ns_decl(t, m@, ids, scope as int, old(self)@), r, final(self)@),
            info_sized(final(self)@, t.nodes@.len()),
    {
        let idn = match first_capture_node(m, ids.id) {
            Some(n) => n,
            None => {
                return Err(StructureError::FieldName("id"));
            },
        };
        proof {
            lemma_first_node_fits(t, m@, ids.id);
        }
        let id = match read_name(t, idn) {
            Ok(q) => q,
            Err(e) => {
                return Err(e);
            },
        };
        match t.nodes[idn].parent {
            None => match t.text(idn) {
                Some(x) => Err(StructureError::Unknown(x)),
                None => Err(StructureError::Utf8),
            },
            Some(decl) => {
                if t.nodes[decl].kind == NodeKind::FileScopedNamespaceDeclaration {
                    self.fsns_decl = Some(id);
                } else {
                    let copy = id.clone();
                    set_name_at(&mut self.ns_decl_nodes, decl, copy);
                    add_name_at(&mut self.ns_decl_names, scope, id);
                }
                Ok(())
            },
        }
    }

    fn ns_usage(&mut self, t: &SyntaxTree, m: &Vec<Capture>, ids: CaptureIds, scope: usize) -> (r:
        Result<(), StructureError>)
        requires
            handler_ready(t, m@, scope as int, old(self)@),
        ensures
            handled(eval_ns_usage(t, m@, ids, scope as int, old(self)@), r, final(self)@),
            info_sized(final(self)@, t.nodes@.len()),
    {
        proof {
            lemma_first_node_fits(t, m@, ids.id);
            lemma_first_node_fits(t, m@, ids.alias);
        }
        let idn = match first_capture_node(m, ids.id) {
            Some(n) => n,
            None => {
                return Err(StructureError::FieldName("id"));
            },
        };
        let id = match read_name(t, idn) {
            Ok(q) => q,
            Err(e) => {
                return Err(e);
            },
        };
        let alias = match first_capture_node(m, ids.alias) {
            None => None,
            Some(an) => match read_name(t, an) {
                Ok(a) => Some(a),
                Err(e) => {
                    return Err(e);
                },
            },
        };
        let decl = match t.nodes[idn].parent {
            None => {
                return match t.text(idn) {
                    Some(x) => Err(StructureError::BadStaticUsing(x)),
                    None => Err(StructureError::Utf8),
                };
            },
            Some(d) => d,
        };
        let kids = &t.nodes[decl].children;
        let mut is_static = false;
        let mut c: usize = 0;
        while c < kids.len() && !is_static
            invariant
                t.wf(),
                decl < t.nodes@.len(),
                *kids == t.nodes@[decl as int].children,
                c <= kids@.len(),
                is_static == exists|q: int|
                    0 <= q < c && t.nodes@[t.nodes@[decl as int].children@[q] as int].kind
                        == NodeKind::StaticKeyword,
            decreases kids@.len() - c,
        {
            if t.nodes[kids[c]].kind == NodeKind::StaticKeyword {
                is_static = true;
            }
            c = c + 1;
        }
        proof {
            if !is_static {
                assert(!has_static_child(t, decl as int));
            }
        }
        match alias {
            Some(a) => {
                put_pair_at(&mut self.aliases, scope, a, id);
            },
            None => {
                if is_static {
                    proof {
                        law_spelled_name_nonempty(t, idn as int);
                    }
                    let mut qual = id;
                    let last = qual.len() - 1;
                    let field = qual.split_off(last);
                    put_pair_at(&mut self.aliases, scope, field, qual);
                } else {
                    add_name_at(&mut self.ns_usages, scope, id);
                }
            },
        }
        Ok(())
    }

    fn type_decl(&mut self, t: &SyntaxTree, m: &Vec<Capture>, ids: CaptureIds, scope: usize) -> (r:
        Result<(), StructureError>)
        requires
            handler_ready(t, m@, scope as int, old(self)@),
            match first_node(m@, ids.id) {
                Some(idn) => t.nodes@[idn as int].parent is Some && match first_node(
                    m@,
                    ids.generics,
                ) {
                    Some(gn) => t.nodes@[idn as int].start <= t.nodes@[gn as int].end,
                    None => true,
                },
                None => true,
            },
        ensures
            handled(eval_type_decl(t, m@, ids, scope as int, old(self)@), r, final(self)@),
            info_sized(final(self)@, t.nodes@.len()),
    {
        proof {
            lemma_first_node_fits(t, m@, ids.id);
            lemma_first_node_fits(t, m@, ids.generics);
        }
        let (name, idn) = match (first_capture_node(m, ids.id), first_capture_node(m, ids.generics)) {
            (Some(idn), Some(gn)) => {
                match t.range_text(t.nodes[idn].start, t.nodes[gn].end) {
                    Some(x) => (QualifiedNameOwned::from(x.as_str()), idn),
                    None => {
                        return Err(StructureError::Utf8);
                    },
                }
            },
            (Some(idn), None) => {
                match read_name(t, idn) {
                    Ok(q) => (q, idn),
                    Err(e) => {
                        return Err(e);
                    },
                }
            },
            (None, _) => {
                return Err(StructureError::FieldName("id"));
            },
        };
        let decl = match t.nodes[idn].parent {
            Some(d) => d,
            None => {
                return Err(StructureError::FieldName("id"));
            },
        };
        let copy = name.clone();
        set_name_at(&mut self.type_decl_nodes, decl, copy);
        add_name_at(&mut self.type_decl_names, scope, name);
        Ok(())
    }

    fn type_usage(&mut self, t: &SyntaxTree, n: usize) -> (r: Result<(), StructureError>)
        requires
            handler_ready(t, Seq::empty(), n as int, old(self)@),
        ensures
            handled(eval_type_usage(t, n as int, old(self)@), r, final(self)@),
            info_sized(final(self)@, t.nodes@.len()),
    {
        let in_using = match t.nodes[n].parent {
            Some(u) => t.nodes[u].kind == NodeKind::UsingDirective,
            None => false,
        };
        if in_using {
            return Ok(());
        }
        match read_name(t, n) {
            Ok(q) => {
                set_name_at(&mut self.type_usages, n, q);
                Ok(())
            },
            Err(e) => Err(e),
        }
    }

    fn var_decl(&mut self, t: &SyntaxTree, m: &Vec<Capture>, ids: CaptureIds, scope: usize) -> (r:
        Result<(), StructureError>)
        requires
            handler_ready(t, m@, scope as int, old(self)@),
        ensures
            handled(eval_var_decl(t, m@, ids, scope as int, old(self)@), r, final(self)@),
            info_sized(final(self)@, t.nodes@.len()),
    {
        proof {
            lemma_first_node_fits(t, m@, ids.id);
        }
        let idn = match first_capture_node(m, ids.id) {
            Some(n) => n,
            None => {
                return Err(StructureError::FieldName("id"));
            },
        };
        match read_name(t, idn) {
            Ok(q) => {
                add_name_at(&mut self.var_decl, scope, q);
                Ok(())
            },
            Err(e) => Err(e),
        }
    }

    fn var_usage(&mut self, t: &SyntaxTree, n: usize) -> (r: Result<(), StructureError>)
        requires
            handler_ready(t, Seq::empty(), n as int, old(self)@),
        ensures
            handled(eval_var_usage(t, n as int, old(self)@), r, final(self)@),
            info_sized(final(self)@, t.nodes@.len()),
    {
        match read_name(t, n) {
            Ok(q) => {
                set_name_at(&mut self.var_usages, n, q);
                Ok(())
            },
            Err(e) => Err(e),
        }
    }
}

/// A structure table of `n` empty lists.
fn empty_lists(n: usize) -> (r: Vec<Vec<QualifiedNameOwned>>)
    ensures
        list_slots(r@) == Seq::new(n as nat, |i: int| Seq::<NameView>::empty()),
{
    let mut r: Vec<Vec<QualifiedNameOwned>> = Vec::new();
    while r.len() < n
        invariant
            r@.len() <= n,
            list_slots(r@) == Seq::new(r@.len(), |i: int| Seq::<NameView>::empty()),
        decreases n - r@.len(),
    {
        let ghost before = r@;
        r.push(Vec::new());
        proof {
            assert(name_views(r@[before.len() as int]@) =~= Seq::<NameView>::empty());
            assert forall|q: int| 0 <= q < r@.len() implies #[trigger] list_slots(r@)[q]
                == Seq::<NameView>::empty() by {
                if q < before.len() {
                    assert(r@[q] == before[q]);
                    assert(list_slots(before)[q] == Seq::<NameView>::empty());
                }
            }
            assert(list_slots(r@) =~= Seq::new(r@.len(), |i: int| Seq::<NameView>::empty()));
        }
    }
    r
}

/// A structure table of `n` absent names.
pub(crate) fn empty_names(n: usize) -> (r: Vec<Option<QualifiedNameOwned>>)
    ensures
        opt_slots(r@) == Seq::new(n as nat, |i: int| None::<NameView>),
{
    let mut r: Vec<Option<QualifiedNameOwned>> = Vec::new();
    while r.len() < n
        invariant
            r@.len() <= n,
            opt_slots(r@) == Seq::new(r@.len(), |i: int| None::<NameView>),
        decreases n - r@.len(),
    {
        let ghost before = r@;
        r.push(None);
        proof {
            assert forall|q: int| 0 <= q < r@.len() implies #[trigger] opt_slots(r@)[q]
                == None::<NameView> by {
                if q < before.len() {
                    assert(r@[q] == before[q]);
                    assert(opt_slots(before)[q] == None::<NameView>);
                }
            }
            assert(opt_slots(r@) =~= Seq::new(r@.len(), |i: int| None::<NameView>));
        }
    }
    r
}

/// A structure table of `n` empty lists of pairs.
fn empty_pairs(n: usize) -> (r: Vec<Vec<(QualifiedNameOwned, QualifiedNameOwned)>>)
    ensures
        pair_slots(r@) == Seq::new(n as nat, |i: int| Seq::<(NameView, NameView)>::empty()),
{
    let mut r: Vec<Vec<(QualifiedNameOwned, QualifiedNameOwned)>> = Vec::new();
    while r.len() < n
        invariant
            r@.len() <= n,
            pair_slots(r@) == Seq::new(r@.len(), |i: int| Seq::<(NameView, NameView)>::empty()),
        decreases n - r@.len(),
    {
        let ghost before = r@;
        r.push(Vec::new());
        proof {
            assert(pair_views(r@[before.len() as int]@) =~= Seq::<(NameView, NameView)>::empty());
            assert forall|q: int| 0 <= q < r@.len() implies #[trigger] pair_slots(r@)[q]
                == Seq::<(NameView, NameView)>::empty() by {
                if q < before.len() {
                    assert(r@[q] == before[q]);
                    assert(pair_slots(before)[q] == Seq::<(NameView, NameView)>::empty());
                }
            }
            assert(pair_slots(r@) =~= Seq::new(
                r@.len(),
                |i: int| Seq::<(NameView, NameView)>::empty(),
            ));
        }
    }
    r
}

impl StructureInfo {
    /// The structure of a file of `n` nodes before any match is read.
    pub fn empty(n: usize) -> (r: StructureInfo)
        ensures
            r@ == empty_info(n as nat),
    {
        let r = StructureInfo {
            aliases: empty_pairs(n),
            fsns_decl: None,
            ns_decl_names: empty_lists(n),
            ns_decl_nodes: empty_names(n),
            ns_usages: empty_lists(n),
            type_decl_names: empty_lists(n),
            type_decl_nodes: empty_names(n),
            type_usages: empty_names(n),
            var_decl: empty_lists(n),
            var_usages: empty_names(n),
        };
        r
    }

    /// Reads capture `c` of match `m` (see `eval_capture`).
    fn capture(&mut self, t: &SyntaxTree, m: &Vec<Capture>, ids: CaptureIds, c: Capture) -> (r:
        Result<(), StructureError>)
        requires
            handler_ready(t, m@, c.node as int, old(self)@),
            c.index == ids.type_decl ==> match first_node(m@, ids.id) {
                Some(idn) => t.nodes@[idn as int].parent is Some && match first_node(
                    m@,
                    ids.generics,
                ) {
                    Some(gn) => t.nodes@[idn as int].start <= t.nodes@[gn as int].end,
                    None => true,
                },
                None => true,
            },
        ensures
            handled(eval_capture(t, m@, ids, c, old(self)@), r, final(self)@),
            info_sized(final(self)@, t.nodes@.len()),
    {
        if c.index == ids.ns_decl {
            self.ns_decl(t, m, ids, c.node)
        } else if c.index == ids.ns_use {
            self.ns_usage(t, m, ids, c.node)
        } else if c.index == ids.type_decl {
            self.type_decl(t, m, ids, c.node)
        } else if c.index == ids.type_use {
            self.type_usage(t, c.node)
        } else if c.index == ids.var_decl {
            self.var_decl(t, m, ids, c.node)
        } else if c.index == ids.var_use {
            self.var_usage(t, c.node)
        } else if c.index != ids.id && c.index != ids.alias && c.index != ids.generics {
            Err(StructureError::FieldId(c.index))
        } else {
            Ok(())
        }
    }
}

/// Gathers the structure of a file from the matches of the structure query, reading their
/// captures in order (see `eval_from`); the first failure is handed back.
pub fn evaluate_structure(t: &SyntaxTree, matches: &Vec<QueryMatch>, ids: CaptureIds) -> (r: Result<
    StructureInfo,
    StructureError,
>)
    requires
        t.wf(),
        4 * t.nodes@.len() + 4 <= usize::MAX,
        matches_fit(t, match_captures(matches@), ids),
    ensures
        match eval_from(t, match_captures(matches@), ids, 0, 0, empty_info(t.nodes@.len())) {
            Ok(v) => r matches Ok(info) && info@ == v,
            Err(e) => r matches Err(e2) && e2@ == e,
        },
        r matches Ok(info) ==> info_sized(info@, t.nodes@.len()),
{
    let ghost ms = match_captures(matches@);
    let n = t.nodes.len();
    let mut info = StructureInfo::empty(n);
    let mut i: usize = 0;
    while i < matches.len()
        invariant
            ms == match_captures(matches@),
            t.wf(),
            n == t.nodes@.len(),
            4 * t.nodes@.len() + 4 <= usize::MAX,
            matches_fit(t, ms, ids),
            i <= matches@.len(),
            info_sized(info@, t.nodes@.len()),
            eval_from(t, ms, ids, 0, 0, empty_info(n as nat)) == eval_from(t, ms, ids, i as int, 0, info@),
        decreases matches@.len() - i,
    {
        let m = &matches[i].captures;
        assert(ms[i as int] == m@);
        let mut j: usize = 0;
        while j < m.len()
            invariant
                ms == match_captures(matches@),
                ms[i as int] == m@,
                t.wf(),
                n == t.nodes@.len(),
                4 * t.nodes@.len() + 4 <= usize::MAX,
                matches_fit(t, ms, ids),
                i < matches@.len(),
                j <= m@.len(),
                info_sized(info@, t.nodes@.len()),
                eval_from(t, ms, ids, 0, 0, empty_info(n as nat)) == eval_from(t, ms, ids, i as int, j as int, info@),
            decreases m@.len() - j,
        {
            let c = m[j];
            proof {
                assert(ms[i as int][j as int].node < t.nodes@.len());
                assert forall|q: int| 0 <= q < m@.len() implies #[trigger] m@[q].node < t.nodes@.len() by {
                    assert(ms[i as int][q].node < t.nodes@.len());
                }
                if c.index == ids.type_decl {
                    assert(exists|q: int| 0 <= q < ms[i as int].len() && ms[i as int][q].index == ids.type_decl);
                }
            }
            match info.capture(t, m, ids, c) {
                Ok(()) => {},
                Err(e) => {
                    return Err(e);
                },
            }
            j = j + 1;
        }
        i = i + 1;
    }
    Ok(info)
}

} // verus!
