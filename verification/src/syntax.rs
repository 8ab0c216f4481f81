//! C# syntax trees, held as plain values: the nodes of a parsed source file with their kinds,
//! byte ranges, parents and the children that the analysis reads; and the reading of a
//! qualified name out of the nodes that spell it.

use crate::qualified_name::{
    NameError, NameErrorView, NamePart, NameView, PartView, QualifiedNameOwned,
};
use vstd::prelude::*;
use vstd::string::*;

verus! {

/// The kinds of syntax node that the analysis tells apart.
#[derive(PartialEq, Eq, Structural, Debug, Clone, Copy)]
pub enum NodeKind {
    Identifier,
    GenericName,
    TypeArgumentList,
    QualifiedName,
    AliasQualifiedName,
    MemberAccessExpression,
    InvocationExpression,
    ElementAccessExpression,
    UsingDirective,
    StaticKeyword,
    FileScopedNamespaceDeclaration,
    StringLiteral,
    Other,
}

/// A node of a syntax tree.
#[derive(Debug)]
pub struct SyntaxNode {
    /// The kind, as far as the analysis tells kinds apart.
    pub kind: NodeKind,
    /// The name of the kind in the grammar.
    pub kind_name: String,
    /// The byte range of the node in the source.
    pub start: usize,
    pub end: usize,
    /// The enclosing node.
    pub parent: Option<usize>,
    /// The children in the fields `name`, `qualifier` and `alias`.
    pub name: Option<usize>,
    pub qualifier: Option<usize>,
    pub alias: Option<usize>,
    /// All children, and the named children, in order.
    pub children: Vec<usize>,
    pub named_children: Vec<usize>,
}

/// A parsed source file: its bytes and its nodes, referred to by position.
#[derive(Debug)]
pub struct SyntaxTree {
    pub source: Vec<u8>,
    pub nodes: Vec<SyntaxNode>,
}

/// Whether `i` names a node of a tree with `n` nodes, where it names one.
pub open spec fn link_ok(i: Option<usize>, n: nat) -> bool {
    match i {
        Some(j) => j < n,
        None => true,
    }
}

impl SyntaxTree {
    /// Whether every node's range lies in the source and every link names a node.
    pub open spec fn wf(&self) -> bool {
        forall|k: int|
            0 <= k < self.nodes@.len() ==> {
                let node = #[trigger] self.nodes@[k];
                &&& node.start <= node.end <= self.source@.len()
                &&& link_ok(node.parent, self.nodes@.len())
                &&& link_ok(node.name, self.nodes@.len())
                &&& link_ok(node.qualifier, self.nodes@.len())
                &&& link_ok(node.alias, self.nodes@.len())
                &&& forall|c: int|
                    0 <= c < node.children@.len() ==> #[trigger] node.children@[c] < self.nodes@.len()
                &&& forall|c: int|
                    0 <= c < node.named_children@.len() ==> #[trigger] node.named_children@[c]
                        < self.nodes@.len()
            }
    }
}

/// The text that `bytes` decode to as UTF-8, as `std::str::from_utf8` decides; none when they
/// are not UTF-8.
pub uninterp spec fn utf8_decode(bytes: Seq<u8>) -> Option<Seq<char>>;

/// Decodes `bytes[start..end]` with `std::str::from_utf8`. The contract claims that the outcome
/// is a function of those bytes.
#[verifier::external_body]
fn utf8_slice(bytes: &Vec<u8>, start: usize, end: usize) -> (r: Option<String>)
    requires
        start <= end <= bytes@.len(),
    ensures
        match r {
            Some(s) => utf8_decode(bytes@.subrange(start as int, end as int)) == Some(s@),
            None => utf8_decode(bytes@.subrange(start as int, end as int)) is None,
        },
{
    match std::str::from_utf8(&bytes[start..end]) {
        Ok(s) => Some(s.to_string()),
        Err(_) => None,
    }
}

/// The source text of the bytes `start..end` of the tree.
pub open spec fn range_text(t: &SyntaxTree, start: int, end: int) -> Option<Seq<char>> {
    utf8_decode(t.source@.subrange(start, end))
}

/// The source text of node `n`.
pub open spec fn node_text(t: &SyntaxTree, n: int) -> Option<Seq<char>> {
    range_text(t, t.nodes@[n].start as int, t.nodes@[n].end as int)
}

impl SyntaxTree {
    /// The source text of the bytes `start..end`.
    pub fn range_text(&self, start: usize, end: usize) -> (r: Option<String>)
        requires
            start <= end <= self.source@.len(),
        ensures
            match r {
                Some(s) => range_text(self, start as int, end as int) == Some(s@),
                None => range_text(self, start as int, end as int) is None,
            },
    {
        utf8_slice(&self.source, start, end)
    }

    /// The source text of node `n`.
    pub fn text(&self, n: usize) -> (r: Option<String>)
        requires
            self.wf(),
            n < self.nodes@.len(),
        ensures
            match r {
                Some(s) => node_text(self, n as int) == Some(s@),
                None => node_text(self, n as int) is None,
            },
    {
        let node = &self.nodes[n];
        utf8_slice(&self.source, node.start, node.end)
    }
}

/// The failure that quotes the text of node `n`, or the UTF-8 failure when it has none.
pub open spec fn quoting(t: &SyntaxTree, n: int, f: spec_fn(Seq<char>) -> NameErrorView) -> NameErrorView {
    match node_text(t, n) {
        Some(s) => f(s),
        None => NameErrorView::Utf8,
    }
}

/// The part that the generic name `n` spells, from its named child at position `i` on, starting
/// from `acc`: its identifier gives the name, its type argument list the number of arguments;
/// any other child is a failure.
pub open spec fn generic_part(t: &SyntaxTree, n: int, i: int, acc: PartView) -> Result<
    PartView,
    NameErrorView,
>
    decreases t.nodes@[n].named_children@.len() - i,
{
    let kids = t.nodes@[n].named_children@;
    if i < 0 || i >= kids.len() {
        Ok(acc)
    } else {
        let c = kids[i] as int;
        match t.nodes@[c].kind {
            NodeKind::Identifier => match node_text(t, c) {
                Some(s) => generic_part(t, n, i + 1, PartView { name: s, ..acc }),
                None => Err(NameErrorView::Utf8),
            },
            NodeKind::TypeArgumentList => generic_part(
                t,
                n,
                i + 1,
                PartView { generics: t.nodes@[c].named_children@.len(), ..acc },
            ),
            _ => Err(quoting(t, n, |s: Seq<char>| NameErrorView::BadGeneric(s))),
        }
    }
}

/// `acc` with one more part.
pub open spec fn push_part(acc: NameView, p: PartView) -> NameView {
    NameView { parts: acc.parts.push(p), ..acc }
}

/// The name that node `n` spells, appended to `acc`, within `fuel` steps.
///
/// An identifier is one part; where it starts a chain of member accesses (whose syntax is that
/// of a qualified name), the names of the chain follow it (see `name_chain`). A generic name is
/// one part (see `generic_part`). A qualified name is its qualifier followed by its name. An
/// alias-qualified name sets the alias and continues with its name. Any other kind fails.
pub open spec fn spelled_name(t: &SyntaxTree, n: int, acc: NameView, fuel: nat) -> Result<
    NameView,
    NameErrorView,
>
    decreases fuel, 1nat,
{
    if fuel == 0 {
        Err(NameErrorView::TooDeep)
    } else {
        let node = t.nodes@[n];
        match node.kind {
            NodeKind::Identifier => match node_text(t, n) {
                Some(s) => name_chain(
                    t,
                    n,
                    n,
                    push_part(acc, PartView { name: s, generics: 0 }),
                    (fuel - 1) as nat,
                ),
                None => Err(NameErrorView::Utf8),
            },
            NodeKind::GenericName => match generic_part(
                t,
                n,
                0,
                PartView { name: Seq::empty(), generics: 0 },
            ) {
                Ok(p) => Ok(push_part(acc, p)),
                Err(e) => Err(e),
            },
            NodeKind::QualifiedName => match (node.name, node.qualifier) {
                (Some(nm), Some(q)) => match spelled_name(t, q as int, acc, (fuel - 1) as nat) {
                    Ok(a2) => spelled_name(t, nm as int, a2, (fuel - 1) as nat),
                    Err(e) => Err(e),
                },
                _ => Err(quoting(t, n, |s: Seq<char>| NameErrorView::BadQualified(s))),
            },
            NodeKind::AliasQualifiedName => match (node.alias, node.name) {
                (Some(al), Some(nm)) => match node_text(t, al as int) {
                    Some(a) => spelled_name(
                        t,
                        nm as int,
                        NameView { alias: Some(a), ..acc },
                        (fuel - 1) as nat,
                    ),
                    None => Err(NameErrorView::Utf8),
                },
                _ => Err(quoting(t, n, |s: Seq<char>| NameErrorView::BadQualified(s))),
            },
            _ => Err(NameErrorView::BadKind(node.kind_name@)),
        }
    }
}

/// The names that follow identifier `x` along the chain of member accesses above node `cur`,
/// appended to `acc`, within `fuel` steps. Climbing stops at a node that is no member access,
/// or at one whose parent is an invocation or an element access. The name of each member access
/// passed (other than `x` itself) is appended once: an identifier as one part, read where it
/// stands, anything else as `spelled_name` spells it; a generic name ends the chain.
pub open spec fn name_chain(t: &SyntaxTree, x: int, cur: int, acc: NameView, fuel: nat) -> Result<
    NameView,
    NameErrorView,
>
    decreases fuel, 0nat,
{
    if fuel == 0 {
        Err(NameErrorView::TooDeep)
    } else {
        match t.nodes@[cur].parent {
            Some(p) => if t.nodes@[p as int].kind == NodeKind::MemberAccessExpression {
                let ends = match t.nodes@[p as int].parent {
                    Some(a) => t.nodes@[a as int].kind == NodeKind::InvocationExpression
                        || t.nodes@[a as int].kind == NodeKind::ElementAccessExpression,
                    None => false,
                };
                if ends {
                    Ok(acc)
                } else {
                    match t.nodes@[p as int].name {
                        Some(pn) => if pn as int != x {
                            if t.nodes@[pn as int].kind == NodeKind::Identifier {
                                match node_text(t, pn as int) {
                                    Some(s) => name_chain(
                                        t,
                                        x,
                                        p as int,
                                        push_part(acc, PartView { name: s, generics: 0 }),
                                        (fuel - 1) as nat,
                                    ),
                                    None => Err(NameErrorView::Utf8),
                                }
                            } else {
                                match spelled_name(t, pn as int, acc, (fuel - 1) as nat) {
                                    Ok(a2) => if t.nodes@[pn as int].kind
                                        == NodeKind::GenericName {
                                        Ok(a2)
                                    } else {
                                        name_chain(t, x, p as int, a2, (fuel - 1) as nat)
                                    },
                                    Err(e) => Err(e),
                                }
                            }
                        } else {
                            name_chain(t, x, p as int, acc, (fuel - 1) as nat)
                        },
                        None => name_chain(t, x, p as int, acc, (fuel - 1) as nat),
                    }
                }
            } else {
                Ok(acc)
            },
            None => Ok(acc),
        }
    }
}

/// Appends `part` to the parts of `out`.
fn push_name_part(out: &mut QualifiedNameOwned, part: NamePart)
    ensures
        final(out)@ == push_part(old(out)@, part@),
{
    let ghost before = out.parts@;
    let ghost p = part@;
    out.parts.push(part);
    proof {
        assert(out.parts@.map_values(|q: NamePart| q@) =~= before.map_values(|q: NamePart| q@).push(
            p,
        ));
    }
}

/// The part that the generic name `n` spells (see `generic_part`).
fn read_generic_part(t: &SyntaxTree, n: usize) -> (r: Result<NamePart, NameError>)
    requires
        t.wf(),
        n < t.nodes@.len(),
    ensures
        match generic_part(t, n as int, 0, PartView { name: Seq::empty(), generics: 0 }) {
            Ok(p) => r matches Ok(q) && q@ == p,
            Err(e) => r matches Err(e2) && e2@ == e,
        },
{
    let node = &t.nodes[n];
    let mut name = String::new();
    let mut generics: usize = 0;
    let mut i: usize = 0;
    proof {
        assert(t.nodes@[n as int] == *node);
    }
    while i < node.named_children.len()
        invariant
            t.wf(),
            n < t.nodes@.len(),
            *node == t.nodes@[n as int],
            i <= node.named_children@.len(),
            generic_part(t, n as int, 0, PartView { name: Seq::empty(), generics: 0 })
                == generic_part(t, n as int, i as int, PartView { name: name@, generics: generics as nat }),
        decreases node.named_children@.len() - i,
    {
        let c = node.named_children[i];
        match t.nodes[c].kind {
            NodeKind::Identifier => {
                match t.text(c) {
                    Some(s) => {
                        name = s;
                    },
                    None => {
                        return Err(NameError::Utf8);
                    },
                }
            },
            NodeKind::TypeArgumentList => {
                generics = t.nodes[c].named_children.len();
            },
            _ => {
                return match t.text(n) {
                    Some(s) => Err(NameError::BadGeneric(s)),
                    None => Err(NameError::Utf8),
                };
            },
        }
        i = i + 1;
    }
    Ok(NamePart { name, generics })
}

/// The failure of kind `BadQualified` that quotes node `n`.
fn bad_qualified(t: &SyntaxTree, n: usize) -> (e: NameError)
    requires
        t.wf(),
        n < t.nodes@.len(),
    ensures
        e@ == quoting(t, n as int, |s: Seq<char>| NameErrorView::BadQualified(s)),
{
    match t.text(n) {
        Some(s) => NameError::BadQualified(s),
        None => NameError::Utf8,
    }
}

/// Appends the name that node `n` spells to `out` (see `spelled_name`).
fn spell(t: &SyntaxTree, n: usize, out: &mut QualifiedNameOwned, fuel: usize) -> (r: Result<
    (),
    NameError,
>)
    requires
        t.wf(),
        n < t.nodes@.len(),
    ensures
        match spelled_name(t, n as int, old(out)@, fuel as nat) {
            Ok(v) => r is Ok && final(out)@ == v,
            Err(e) => r matches Err(e2) && e2@ == e,
        },
    decreases fuel, 1nat,
{
    if fuel == 0 {
        return Err(NameError::TooDeep);
    }
    let node = &t.nodes[n];
    match node.kind {
        NodeKind::Identifier => {
            match t.text(n) {
                Some(s) => {
                    push_name_part(out, NamePart { name: s, generics: 0 });
                    chain(t, n, n, out, fuel - 1)
                },
                None => Err(NameError::Utf8),
            }
        },
        NodeKind::GenericName => {
            match read_generic_part(t, n) {
                Ok(p) => {
                    push_name_part(out, p);
                    Ok(())
                },
                Err(e) => Err(e),
            }
        },
        NodeKind::QualifiedName => {
            match (node.name, node.qualifier) {
                (Some(nm), Some(q)) => {
                    match spell(t, q, out, fuel - 1) {
                        Ok(()) => spell(t, nm, out, fuel - 1),
                        Err(e) => Err(e),
                    }
                },
                _ => Err(bad_qualified(t, n)),
            }
        },
        NodeKind::AliasQualifiedName => {
            match (node.alias, node.name) {
                (Some(al), Some(nm)) => {
                    match t.text(al) {
                        Some(a) => {
                            out.alias = Some(a);
                            spell(t, nm, out, fuel - 1)
                        },
                        None => Err(NameError::Utf8),
                    }
                },
                _ => Err(bad_qualified(t, n)),
            }
        },
        _ => Err(NameError::BadKind(node.kind_name.clone())),
    }
}

/// Appends the names of the chain of member accesses above `cur` to `out` (see
/// `name_chain`).
fn chain(t: &SyntaxTree, x: usize, cur: usize, out: &mut QualifiedNameOwned, fuel: usize) -> (r:
    Result<(), NameError>)
    requires
        t.wf(),
        x < t.nodes@.len(),
        cur < t.nodes@.len(),
    ensures
        match name_chain(t, x as int, cur as int, old(out)@, fuel as nat) {
            Ok(v) => r is Ok && final(out)@ == v,
            Err(e) => r matches Err(e2) && e2@ == e,
        },
    decreases fuel, 0nat,
{
    if fuel == 0 {
        return Err(NameError::TooDeep);
    }
    match t.nodes[cur].parent {
        Some(p) => {
            if t.nodes[p].kind != NodeKind::MemberAccessExpression {
                return Ok(());
            }
            let ends = match t.nodes[p].parent {
                Some(a) => t.nodes[a].kind == NodeKind::InvocationExpression || t.nodes[a].kind
                    == NodeKind::ElementAccessExpression,
                None => false,
            };
            if ends {
                return Ok(());
            }
            match t.nodes[p].name {
                Some(pn) => {
                    if pn != x && t.nodes[pn].kind == NodeKind::Identifier {
                        match t.text(pn) {
                            Some(s) => {
                                push_name_part(out, NamePart { name: s, generics: 0 });
                                chain(t, x, p, out, fuel - 1)
                            },
                            None => Err(NameError::Utf8),
                        }
                    } else if pn != x {
                        match spell(t, pn, out, fuel - 1) {
                            Ok(()) => {
                                if t.nodes[pn].kind == NodeKind::GenericName {
                                    Ok(())
                                } else {
                                    chain(t, x, p, out, fuel - 1)
                                }
                            },
                            Err(e) => Err(e),
                        }
                    } else {
                        chain(t, x, p, out, fuel - 1)
                    }
                },
                None => chain(t, x, p, out, fuel - 1),
            }
        },
        None => Ok(()),
    }
}

/// The number of steps that reading a name from `t` may take: enough for any name of a tree,
/// whose chains of calls are no longer than it is deep.
pub open spec fn name_fuel(t: &SyntaxTree) -> nat {
    4 * t.nodes@.len() + 4
}

/// The qualified name that node `n` spells (see `spelled_name`).
pub fn name_at(t: &SyntaxTree, n: usize) -> (r: Result<QualifiedNameOwned, NameError>)
    requires
        t.wf(),
        n < t.nodes@.len(),
        4 * t.nodes@.len() + 4 <= usize::MAX,
    ensures
        match spelled_name(
            t,
            n as int,
            NameView { alias: None, parts: Seq::empty() },
            name_fuel(t),
        ) {
            Ok(v) => r matches Ok(q) && q@ == v,
            Err(e) => r matches Err(e2) && e2@ == e,
        },
{
    let mut out = QualifiedNameOwned { parts: Vec::new(), alias: None };
    assert(out@.parts =~= Seq::<PartView>::empty());
    let fuel = 4 * t.nodes.len() + 4;
    match spell(t, n, &mut out, fuel) {
        Ok(()) => Ok(out),
        Err(e) => Err(e),
    }
}

proof fn lemma_spelled_grows(t: &SyntaxTree, n: int, acc: NameView, fuel: nat)
    ensures
        spelled_name(t, n, acc, fuel) matches Ok(v) ==> v.parts.len() >= acc.parts.len() + 1,
    decreases fuel, 1nat,
{
    if fuel > 0 {
        let node = t.nodes@[n];
        match node.kind {
            NodeKind::Identifier => {
                if let Some(s) = node_text(t, n) {
                    lemma_chain_grows(
                        t,
                        n,
                        n,
                        push_part(acc, PartView { name: s, generics: 0 }),
                        (fuel - 1) as nat,
                    );
                }
            },
            NodeKind::QualifiedName => {
                if let (Some(nm), Some(q)) = (node.name, node.qualifier) {
                    lemma_spelled_grows(t, q as int, acc, (fuel - 1) as nat);
                    if let Ok(a2) = spelled_name(t, q as int, acc, (fuel - 1) as nat) {
                        lemma_spelled_grows(t, nm as int, a2, (fuel - 1) as nat);
                    }
                }
            },
            NodeKind::AliasQualifiedName => {
                if let (Some(al), Some(nm)) = (node.alias, node.name) {
                    if let Some(a) = node_text(t, al as int) {
                        lemma_spelled_grows(
                            t,
                            nm as int,
                            NameView { alias: Some(a), ..acc },
                            (fuel - 1) as nat,
                        );
                    }
                }
            },
            _ => {},
        }
    }
}

proof fn lemma_chain_grows(t: &SyntaxTree, x: int, cur: int, acc: NameView, fuel: nat)
    ensures
        name_chain(t, x, cur, acc, fuel) matches Ok(v) ==> v.parts.len() >= acc.parts.len(),
    decreases fuel, 0nat,
{
    if fuel > 0 {
        if let Some(p) = t.nodes@[cur].parent {
            if t.nodes@[p as int].kind == NodeKind::MemberAccessExpression {
                if let Some(pn) = t.nodes@[p as int].name {
                    if pn as int != x && t.nodes@[pn as int].kind == NodeKind::Identifier {
                        if let Some(s) = node_text(t, pn as int) {
                            lemma_chain_grows(
                                t,
                                x,
                                p as int,
                                push_part(acc, PartView { name: s, generics: 0 }),
                                (fuel - 1) as nat,
                            );
                        }
                    } else if pn as int != x {
                        lemma_spelled_grows(t, pn as int, acc, (fuel - 1) as nat);
                        if let Ok(a2) = spelled_name(t, pn as int, acc, (fuel - 1) as nat) {
                            lemma_chain_grows(t, x, p as int, a2, (fuel - 1) as nat);
                        }
                    } else {
                        lemma_chain_grows(t, x, p as int, acc, (fuel - 1) as nat);
                    }
                } else {
                    lemma_chain_grows(t, x, p as int, acc, (fuel - 1) as nat);
                }
            }
        }
    }
}

/// A name read from a tree has at least one part.
pub proof fn law_spelled_name_nonempty(t: &SyntaxTree, n: int)
    ensures
        spelled_name(t, n, NameView { alias: None, parts: Seq::empty() }, name_fuel(t)) matches Ok(
            v,
        ) ==> v.parts.len() >= 1,
{
    lemma_spelled_grows(t, n, NameView { alias: None, parts: Seq::empty() }, name_fuel(t));
}

} // verus!
