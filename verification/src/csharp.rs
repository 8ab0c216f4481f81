//! Reading C# source: tree-sitter parses it with the C# grammar and runs the structure and
//! string-lookup queries; the results come back as the library's syntax tree (nodes in
//! pre-order) and query matches, on which the analysis is verified.

use crate::locstrings::lookups_fit;
use crate::structure::{
    captures_fit, first_capture_node, first_node, lemma_first_node_fits, match_captures, matches_fit,
    Capture, CaptureIds, QueryMatch,
};
use crate::syntax::{NodeKind, SyntaxNode, SyntaxTree};
use crate::text::str_equal;
use vstd::prelude::*;

verus! {

/// The structure query: namespace declarations (`ns_decl`, `id`), `using` directives (`ns_use`,
/// `id`, `alias`), top-level type declarations (`type_decl`, `id`, `generics`), uses of types
/// (`type_use`), variable declarations (`var_decl`, `id`) and uses of variables (`var_use`).
pub const STRUCTURE_QUERY: &'static str = r##"
    (compilation_unit [
        (namespace_declaration
            name: [(qualified_name) (identifier)] @id
        )
        (file_scoped_namespace_declaration
            name: (_) @id
        )
    ]) @ns_decl
    (declaration_list
        (namespace_declaration
            name: [(qualified_name) (identifier)] @id
        )
    ) @ns_decl

    (compilation_unit [
        (using_directive
            name: (identifier) @alias
            [(qualified_name) (identifier)] @id
        )
        (using_directive
            [(qualified_name) (identifier)] @id
            !name
        )
    ]) @ns_use
    (declaration_list [
        (using_directive
            name: (identifier) @alias
            [(qualified_name) (identifier)] @id
        )
        (using_directive
            [(qualified_name) (identifier)] @id
            !name
        )
    ]) @ns_use

    (declaration_list
        [
    (class_declaration
        name: (identifier) @id
        (type_parameter_list)? @generics
    )
    (delegate_declaration
        name: (identifier) @id
        (type_parameter_list)? @generics
    )
    (enum_declaration
        name: (identifier) @id
        (type_parameter_list)? @generics
    )
    (interface_declaration
        name: (identifier) @id
        (type_parameter_list)? @generics
    )
    (record_declaration
        name: (identifier) @id
        (type_parameter_list)? @generics
    )
    (struct_declaration
        name: (identifier) @id
        (type_parameter_list)? @generics
    )
]
    ) @type_decl
    (compilation_unit
        [
    (class_declaration
        name: (identifier) @id
        (type_parameter_list)? @generics
    )
    (delegate_declaration
        name: (identifier) @id
        (type_parameter_list)? @generics
    )
    (enum_declaration
        name: (identifier) @id
        (type_parameter_list)? @generics
    )
    (interface_declaration
        name: (identifier) @id
        (type_parameter_list)? @generics
    )
    (record_declaration
        name: (identifier) @id
        (type_parameter_list)? @generics
    )
    (struct_declaration
        name: (identifier) @id
        (type_parameter_list)? @generics
    )
]
    ) @type_decl
    
    (class_declaration
        (type_parameter_list
            (type_parameter name: (identifier) @id)
        )
    ) @type_decl
    (delegate_declaration
        (type_parameter_list
            (type_parameter name: (identifier) @id)
        )
    ) @type_decl
    (interface_declaration
        (type_parameter_list
            (type_parameter name: (identifier) @id)
        )
    ) @type_decl
    (record_declaration
        (type_parameter_list
            (type_parameter name: (identifier) @id)
        )
    ) @type_decl
    (struct_declaration
        (type_parameter_list
            (type_parameter name: (identifier) @id)
        )
    ) @type_decl


    (type/identifier) @type_use
    (type/generic_name) @type_use
    (type/alias_qualified_name) @type_use
    (type/qualified_name
        qualifier: [(identifier) (qualified_name) (generic_name)]
    ) @type_use
    (type/tuple_type
        (tuple_element
            type: [(identifier) (qualified_name) (generic_name)] @type_use
        )
    )
    (type/scoped_type
        type: [(identifier) (qualified_name) (generic_name)] @type_use
    )
    (type/array_type 
        type: [(identifier) (qualified_name) (generic_name)] @type_use
    )
    (type/nullable_type 
        type: [(identifier) (qualified_name) (generic_name)] @type_use
    )
    (type/ref_type 
        type: [(identifier) (qualified_name) (generic_name)] @type_use
    )
[
        (block [
            (local_declaration_statement 
    (variable_declaration
        (variable_declarator
            name: (identifier) @id
        )
    )
)
            (fixed_statement 
    (variable_declaration
        (variable_declarator
            name: (identifier) @id
        )
    )
)
            (using_statement
                
    (variable_declaration
        (variable_declarator
            name: (identifier) @id
        )
    )

                body: (empty_statement)
            )
        ])
    
        (for_statement initializer: 
    (variable_declaration
        (variable_declarator
            name: (identifier) @id
        )
    )
)
        (using_statement
            
    (variable_declaration
        (variable_declarator
            name: (identifier) @id
        )
    )

        )
    
        (declaration_list [
            (field_declaration 
    (variable_declaration
        (variable_declarator
            name: (identifier) @id
        )
    )
)
            (event_field_declaration 
    (variable_declaration
        (variable_declarator
            name: (identifier) @id
        )
    )
)
            (property_declaration name: (identifier) @id)
            (method_declaration name: (identifier) @id)
        ])
    
        (constructor_declaration parameters: 
    (parameter_list
        (parameter
            name: (identifier) @id
        )
    )
)
        (method_declaration parameters: 
    (parameter_list
        (parameter
            name: (identifier) @id
        )
    )
)
        (operator_declaration parameters: 
    (parameter_list
        (parameter
            name: (identifier) @id
        )
    )
)
        (lambda_expression parameters: 
    (parameter_list
        (parameter
            name: (identifier) @id
        )
    )
)
        (anonymous_method_expression parameters: 
    (parameter_list
        (parameter
            name: (identifier) @id
        )
    )
)
        (local_function_statement parameters: 
    (parameter_list
        (parameter
            name: (identifier) @id
        )
    )
)
        (indexer_declaration
            parameters: (bracketed_parameter_list
                (parameter
                    name: (identifier) @id
                )
            )
        )
    ] @var_decl
    (lvalue_expression/identifier) @var_use
    (lvalue_expression/generic_name) @var_use
"##;

/// The lookups of localized strings in the string cache; the key is captured as `loc-str`.
pub const LOOKUP_QUERY: &'static str = r##"
(invocation_expression
    function: (member_access_expression
        expression: (
            (identifier) @obj-name
            (#eq? @obj-name "LocStringCache")
        )
        name: (
            (identifier) @fn-name
            (#eq? @fn-name "Get")
        )
    )
    arguments: (argument_list
        [
            (argument
                .
                (string_literal) @loc-str
            )
            (argument
                ((identifier) @arg-name (#eq? @arg-name "key"))
                .
                (string_literal) @loc-str
            )
        ]
    )
)"##;

#[verifier::external_type_specification]
#[verifier::external_body]
pub struct ExTree(tree_sitter::Tree);

#[verifier::external_type_specification]
#[verifier::external_body]
pub struct ExQuery(tree_sitter::Query);

/// A C# source and the tree that tree-sitter parsed from it with the C# grammar. Such a tree is
/// a function of the source alone: the grammar is fixed, and no earlier tree or progress
/// callback takes part in the parse.
pub struct ParsedSource {
    tree: tree_sitter::Tree,
    source: Vec<u8>,
}

impl View for ParsedSource {
    type V = Seq<u8>;

    closed spec fn view(&self) -> Seq<u8> {
        self.source@
    }
}

impl ParsedSource {
    /// The length of the source.
    fn source_len(&self) -> (r: usize)
        ensures
            r == self@.len(),
    {
        self.source.len()
    }
}

/// A compiled tree-sitter query for the C# grammar, with the text it was compiled from.
pub struct CompiledQuery {
    query: tree_sitter::Query,
    text: String,
}

impl View for CompiledQuery {
    type V = Seq<char>;

    closed spec fn view(&self) -> Seq<char> {
        self.text@
    }
}

/// One capture of a query match: its capture index, and the byte range and the grammar's kind
/// name of the node it captured.
pub struct RawCapture {
    pub index: u32,
    pub start: usize,
    pub end: usize,
    pub kind: String,
}

/// The plain values of a capture.
pub open spec fn raw_capture_view(c: RawCapture) -> (u32, usize, usize, Seq<char>) {
    (c.index, c.start, c.end, c.kind@)
}

/// The plain values of a list of matches.
pub open spec fn raw_matches_view(v: Seq<Vec<RawCapture>>) -> Seq<Seq<(u32, usize, usize, Seq<char>)>> {
    v.map_values(|m: Vec<RawCapture>| m@.map_values(|c: RawCapture| raw_capture_view(c)))
}

/// The number of nodes (named and anonymous) of the tree that the C# grammar gives `source`.
pub uninterp spec fn cs_node_count(source: Seq<u8>) -> usize;

/// The grammar's kind name of node `i` of that tree, nodes being counted in pre-order from the
/// root (node 0).
pub uninterp spec fn cs_kind(source: Seq<u8>, i: usize) -> Seq<char>;

/// Whether node `i` of that tree is named.
pub uninterp spec fn cs_named(source: Seq<u8>, i: usize) -> bool;

/// The first byte of node `i` of that tree.
pub uninterp spec fn cs_start(source: Seq<u8>, i: usize) -> usize;

/// The byte after node `i` of that tree.
pub uninterp spec fn cs_end(source: Seq<u8>, i: usize) -> usize;

/// The parent of node `i` of that tree, by its number.
pub uninterp spec fn cs_parent(source: Seq<u8>, i: usize) -> Option<usize>;

/// The first child of node `i` of that tree, by its number.
pub uninterp spec fn cs_first_child(source: Seq<u8>, i: usize) -> Option<usize>;

/// The next sibling of node `i` of that tree, by its number.
pub uninterp spec fn cs_next_sibling(source: Seq<u8>, i: usize) -> Option<usize>;

/// The field of its parent that node `i` of that tree stands in, if any.
pub uninterp spec fn cs_field(source: Seq<u8>, i: usize) -> Option<Seq<char>>;

/// Whether the query `text` compiles for the C# grammar.
pub uninterp spec fn cs_query_compiles(text: Seq<char>) -> bool;

/// The index of the capture called `name` in the query `query`, if it has one.
pub uninterp spec fn cs_capture_index(query: Seq<char>, name: Seq<char>) -> Option<u32>;

/// The matches of the query `query` over the tree of `source`, each capture as its index and its
/// node's byte range and kind name.
pub uninterp spec fn cs_matches(query: Seq<char>, source: Seq<u8>) -> Seq<Seq<(u32, usize, usize, Seq<char>)>>;

/// Parses `source` with `tree_sitter::Parser`, after `Parser::set_language` with the grammar of
/// `tree_sitter_c_sharp`. That grammar's ABI version (15) lies in the range that this
/// tree-sitter accepts (13 to 15) and, compiled natively with its lexer, it is parseable, so
/// `set_language` succeeds; `Parser::parse` returns a tree whenever a language is set and no
/// progress callback stops it, so a tree always comes back, holding `source`.
#[verifier::external_body]
fn parse_source(source: Vec<u8>) -> (r: Option<ParsedSource>)
    ensures
        r is Some,
        r.unwrap()@ == source@,
{
    let mut parser = tree_sitter::Parser::new();
    parser.set_language(&tree_sitter_c_sharp::LANGUAGE.into()).ok()?;
    let tree = parser.parse(source.as_slice(), None)?;
    Some(ParsedSource { tree, source })
}

/// `Node::descendant_count` of the root: the number of nodes of the tree, the root included.
#[verifier::external_body]
fn node_count(p: &ParsedSource) -> (r: usize)
    ensures
        r == cs_node_count(p@),
        r >= 1,
{
    p.tree.root_node().descendant_count()
}

/// `Node::kind` of node `i`, which `TreeCursor::goto_descendant` reaches from the root.
#[verifier::external_body]
fn kind_at(p: &ParsedSource, i: usize) -> (r: String)
    requires
        i < cs_node_count(p@),
    ensures
        r@ == cs_kind(p@, i),
{
    let mut c = p.tree.walk();
    c.goto_descendant(i);
    c.node().kind().to_string()
}

/// `Node::is_named` of node `i` (reached as in `kind_at`).
#[verifier::external_body]
fn named_at(p: &ParsedSource, i: usize) -> (r: bool)
    requires
        i < cs_node_count(p@),
    ensures
        r == cs_named(p@, i),
{
    let mut c = p.tree.walk();
    c.goto_descendant(i);
    c.node().is_named()
}

/// `Node::start_byte` of node `i` (reached as in `kind_at`).
#[verifier::external_body]
fn start_at(p: &ParsedSource, i: usize) -> (r: usize)
    requires
        i < cs_node_count(p@),
    ensures
        r == cs_start(p@, i),
{
    let mut c = p.tree.walk();
    c.goto_descendant(i);
    c.node().start_byte()
}

/// `Node::end_byte` of node `i` (reached as in `kind_at`).
#[verifier::external_body]
fn end_at(p: &ParsedSource, i: usize) -> (r: usize)
    requires
        i < cs_node_count(p@),
    ensures
        r == cs_end(p@, i),
{
    let mut c = p.tree.walk();
    c.goto_descendant(i);
    c.node().end_byte()
}

/// The number of the parent of node `i`: `TreeCursor::goto_parent`, then
/// `TreeCursor::descendant_index`.
#[verifier::external_body]
fn parent_at(p: &ParsedSource, i: usize) -> (r: Option<usize>)
    requires
        i < cs_node_count(p@),
    ensures
        r == cs_parent(p@, i),
{
    let mut c = p.tree.walk();
    c.goto_descendant(i);
    if c.goto_parent() { Some(c.descendant_index()) } else { None }
}

/// The number of the first child of node `i`: `TreeCursor::goto_first_child`, then
/// `TreeCursor::descendant_index`.
#[verifier::external_body]
fn first_child_at(p: &ParsedSource, i: usize) -> (r: Option<usize>)
    requires
        i < cs_node_count(p@),
    ensures
        r == cs_first_child(p@, i),
{
    let mut c = p.tree.walk();
    c.goto_descendant(i);
    if c.goto_first_child() { Some(c.descendant_index()) } else { None }
}

/// The number of the next sibling of node `i`: `TreeCursor::goto_next_sibling`, then
/// `TreeCursor::descendant_index`.
#[verifier::external_body]
fn next_sibling_at(p: &ParsedSource, i: usize) -> (r: Option<usize>)
    requires
        i < cs_node_count(p@),
    ensures
        r == cs_next_sibling(p@, i),
{
    let mut c = p.tree.walk();
    c.goto_descendant(i);
    if c.goto_next_sibling() { Some(c.descendant_index()) } else { None }
}

/// `TreeCursor::field_name` at node `i`: the field of its parent that it stands in.
#[verifier::external_body]
fn field_at(p: &ParsedSource, i: usize) -> (r: Option<String>)
    requires
        i < cs_node_count(p@),
    ensures
        match r {
            Some(s) => cs_field(p@, i) == Some(s@),
            None => cs_field(p@, i) is None,
        },
{
    let mut c = p.tree.walk();
    c.goto_descendant(i);
    c.field_name().map(|f| f.to_string())
}

/// `tree_sitter::Query::new` for the C# grammar: a query exactly where the text compiles, which
/// keeps the text.
#[verifier::external_body]
fn compile_query(text: &str) -> (r: Option<CompiledQuery>)
    ensures
        r is Some <==> cs_query_compiles(text@),
        r matches Some(q) ==> q@ == text@,
{
    match tree_sitter::Query::new(&tree_sitter_c_sharp::LANGUAGE.into(), text) {
        Ok(query) => Some(CompiledQuery { query, text: text.to_string() }),
        Err(_) => None,
    }
}

/// `Query::capture_index_for_name`: the index of the capture called `name`, if the query has one.
#[verifier::external_body]
fn capture_index(q: &CompiledQuery, name: &str) -> (r: Option<u32>)
    ensures
        r == cs_capture_index(q@, name@),
{
    q.query.capture_index_for_name(name)
}

/// The matches of `q` over the whole tree of `p`, as `QueryCursor::matches` gives them, each
/// capture as its index and its node's byte range and kind name.
#[verifier::external_body]
fn query_matches(q: &CompiledQuery, p: &ParsedSource) -> (r: Vec<Vec<RawCapture>>)
    ensures
        raw_matches_view(r@) == cs_matches(q@, p@),
{
    let mut cursor = tree_sitter::QueryCursor::new();
    let mut it = cursor.matches(&q.query, p.tree.root_node(), p.source.as_slice());
    let mut out = Vec::new();
    while let Some(m) = tree_sitter::StreamingIterator::next(&mut it) {
        out.push(m.captures().iter().map(|c| RawCapture { index: c.index, start: c.node.start_byte(),
            end: c.node.end_byte(), kind: c.node.kind().to_string() }).collect());
    }
    out
}

/// The compiled structure and lookup queries, with the capture indices the analysis reads.
pub struct CsQueries {
    pub structure: CompiledQuery,
    pub lookup: CompiledQuery,
    pub ids: CaptureIds,
    pub key: u32,
}

/// A C# file as read: its syntax tree, the matches of the structure query and those of the
/// lookup query.
pub struct SourceRead {
    pub tree: SyntaxTree,
    pub matches: Vec<QueryMatch>,
    pub lookups: Vec<QueryMatch>,
}

/// The capture indices of the structure query `text`, when it has every capture the analysis
/// reads.
pub open spec fn capture_ids_of(text: Seq<char>) -> Option<CaptureIds> {
    match (
        cs_capture_index(text, "ns_decl"@),
        cs_capture_index(text, "ns_use"@),
        cs_capture_index(text, "type_decl"@),
        cs_capture_index(text, "type_use"@),
        cs_capture_index(text, "var_decl"@),
        cs_capture_index(text, "var_use"@),
        cs_capture_index(text, "id"@),
        cs_capture_index(text, "alias"@),
        cs_capture_index(text, "generics"@),
    ) {
        (
            Some(ns_decl),
            Some(ns_use),
            Some(type_decl),
            Some(type_use),
            Some(var_decl),
            Some(var_use),
            Some(id),
            Some(alias),
            Some(generics),
        ) => Some(
            CaptureIds { ns_decl, ns_use, type_decl, type_use, var_decl, var_use, id, alias, generics },
        ),
        _ => None,
    }
}

/// Whether both queries compile and have the captures the analysis reads.
pub open spec fn queries_ready() -> bool {
    &&& cs_query_compiles(STRUCTURE_QUERY@)
    &&& cs_query_compiles(LOOKUP_QUERY@)
    &&& capture_ids_of(STRUCTURE_QUERY@) is Some
    &&& cs_capture_index(LOOKUP_QUERY@, "loc-str"@) is Some
}

/// Whether every capture of `ms` names one of the first `count` nodes.
pub open spec fn captures_below(ms: Seq<QueryMatch>, count: nat) -> bool {
    forall|i: int, j: int|
        0 <= i < ms.len() && 0 <= j < ms[i].captures@.len() ==> #[trigger] ms[i].captures@[j].node
            < count
}

/// The kind the analysis tells apart for a node of the grammar's kind `kind` (named or not).
pub open spec fn kind_for(kind: Seq<char>, named: bool) -> NodeKind {
    if kind == "identifier"@ {
        NodeKind::Identifier
    } else if kind == "generic_name"@ {
        NodeKind::GenericName
    } else if kind == "type_argument_list"@ {
        NodeKind::TypeArgumentList
    } else if kind == "qualified_name"@ {
        NodeKind::QualifiedName
    } else if kind == "alias_qualified_name"@ {
        NodeKind::AliasQualifiedName
    } else if kind == "member_access_expression"@ {
        NodeKind::MemberAccessExpression
    } else if kind == "invocation_expression"@ {
        NodeKind::InvocationExpression
    } else if kind == "element_access_expression"@ {
        NodeKind::ElementAccessExpression
    } else if kind == "using_directive"@ {
        NodeKind::UsingDirective
    } else if kind == "static"@ && !named {
        NodeKind::StaticKeyword
    } else if kind == "file_scoped_namespace_declaration"@ {
        NodeKind::FileScopedNamespaceDeclaration
    } else if kind == "string_literal"@ {
        NodeKind::StringLiteral
    } else {
        NodeKind::Other
    }
}

/// The nodes from `start` on along the chain of next siblings, within `fuel` steps.
pub open spec fn sibling_chain(src: Seq<u8>, start: Option<usize>, fuel: nat) -> Seq<usize>
    decreases fuel,
{
    match start {
        Some(j) => if fuel == 0 {
            Seq::empty()
        } else {
            seq![j] + sibling_chain(src, cs_next_sibling(src, j), (fuel - 1) as nat)
        },
        None => Seq::empty(),
    }
}

/// The children of node `i` of the tree of `src`, in order: its first child and that child's
/// next siblings (a chain no longer than the tree).
pub open spec fn parsed_children(src: Seq<u8>, i: usize) -> Seq<usize> {
    sibling_chain(src, cs_first_child(src, i), cs_node_count(src) as nat)
}

/// The named nodes among `s`, in order.
pub open spec fn named_only(src: Seq<u8>, s: Seq<usize>) -> Seq<usize>
    decreases s.len(),
{
    if s.len() == 0 {
        Seq::empty()
    } else {
        let rest = named_only(src, s.drop_last());
        if cs_named(src, s.last()) {
            rest.push(s.last())
        } else {
            rest
        }
    }
}

/// The first node among `s` that stands in the field `f`.
pub open spec fn field_child(src: Seq<u8>, s: Seq<usize>, f: Seq<char>) -> Option<usize>
    decreases s.len(),
{
    if s.len() == 0 {
        None
    } else {
        match field_child(src, s.drop_last(), f) {
            Some(c) => Some(c),
            None => if cs_field(src, s.last()) == Some(f) {
                Some(s.last())
            } else {
                None
            },
        }
    }
}

/// Whether node `i` of the tree of `src` lies in the source and links only to nodes of the tree.
pub open spec fn node_in_range(src: Seq<u8>, i: usize) -> bool {
    &&& cs_start(src, i) <= cs_end(src, i) <= src.len()
    &&& (cs_parent(src, i) matches Some(p) ==> p < cs_node_count(src))
    &&& forall|c: int|
        0 <= c < parsed_children(src, i).len() ==> #[trigger] parsed_children(src, i)[c]
            < cs_node_count(src)
}

/// Whether every node of the tree of `src` is in range (see `node_in_range`).
pub open spec fn parse_in_range(src: Seq<u8>) -> bool {
    forall|i: usize| i < cs_node_count(src) ==> #[trigger] node_in_range(src, i)
}

/// Whether `node` is node `i` of the tree of `src` in the library's form.
pub open spec fn node_is_parse(node: SyntaxNode, src: Seq<u8>, i: usize) -> bool {
    let kids = parsed_children(src, i);
    &&& node.kind_name@ == cs_kind(src, i)
    &&& node.kind == kind_for(cs_kind(src, i), cs_named(src, i))
    &&& node.start == cs_start(src, i)
    &&& node.end == cs_end(src, i)
    &&& node.parent == cs_parent(src, i)
    &&& node.children@ == kids
    &&& node.named_children@ == named_only(src, kids)
    &&& node.name == field_child(src, kids, "name"@)
    &&& node.qualifier == field_child(src, kids, "qualifier"@)
    &&& node.alias == field_child(src, kids, "alias"@)
}

/// Whether `t` is the tree of `src` in the library's form, its nodes in pre-order.
pub open spec fn tree_is_parse(t: &SyntaxTree, src: Seq<u8>) -> bool {
    &&& t.source@ == src
    &&& t.nodes@.len() == cs_node_count(src)
    &&& forall|i: int| 0 <= i < t.nodes@.len() ==> node_is_parse(#[trigger] t.nodes@[i], src, i as usize)
}

/// The first node, from node `j` on, with the byte range `start..end` and the kind `kind`.
pub open spec fn node_with(src: Seq<u8>, start: usize, end: usize, kind: Seq<char>, j: nat) -> Option<usize>
    decreases cs_node_count(src) - j,
{
    if j >= cs_node_count(src) {
        None
    } else if cs_start(src, j as usize) == start && cs_end(src, j as usize) == end && cs_kind(
        src,
        j as usize,
    ) == kind {
        Some(j as usize)
    } else {
        node_with(src, start, end, kind, j + 1)
    }
}

/// The node that the capture `c` names: the first node with its range and kind.
pub open spec fn capture_node(src: Seq<u8>, c: (u32, usize, usize, Seq<char>)) -> Option<usize> {
    node_with(src, c.1, c.2, c.3, 0)
}

/// The capture that `c` becomes: its index and the number of its node.
pub open spec fn converted_capture(src: Seq<u8>, c: (u32, usize, usize, Seq<char>)) -> Capture {
    Capture { index: c.0, node: capture_node(src, c).unwrap() }
}

/// Whether every capture of `raw` names a node of the tree of `src`.
pub open spec fn captures_found(src: Seq<u8>, raw: Seq<Seq<(u32, usize, usize, Seq<char>)>>) -> bool {
    forall|i: int, j: int| 0 <= i < raw.len() && 0 <= j < raw[i].len() ==> #[trigger] capture_node(src, raw[i][j]) is Some
}

/// Whether `v` holds the matches `raw`, each capture naming its node by number.
pub open spec fn matches_are(src: Seq<u8>, raw: Seq<Seq<(u32, usize, usize, Seq<char>)>>, v: Seq<QueryMatch>) -> bool {
    &&& v.len() == raw.len()
    &&& forall|i: int| 0 <= i < v.len() ==> #[trigger] v[i].captures@.len() == raw[i].len()
    &&& forall|i: int, j: int|
        0 <= i < v.len() && 0 <= j < v[i].captures@.len() ==> #[trigger] v[i].captures@[j]
            == converted_capture(src, raw[i][j])
}

impl CsQueries {
    /// Compiles both queries and looks up their captures; none exactly where a query does not
    /// compile or lacks a capture.
    pub fn new() -> (r: Option<CsQueries>)
        ensures
            r is Some <==> queries_ready(),
            r matches Some(q) ==> {
                &&& q.structure@ == STRUCTURE_QUERY@
                &&& q.lookup@ == LOOKUP_QUERY@
                &&& capture_ids_of(STRUCTURE_QUERY@) == Some(q.ids)
                &&& cs_capture_index(LOOKUP_QUERY@, "loc-str"@) == Some(q.key)
            },
    {
        let structure = match compile_query(STRUCTURE_QUERY) {
            Some(q) => q,
            None => {
                return None;
            },
        };
        let lookup = match compile_query(LOOKUP_QUERY) {
            Some(q) => q,
            None => {
                return None;
            },
        };
        let ids = match (
            capture_index(&structure, "ns_decl"),
            capture_index(&structure, "ns_use"),
            capture_index(&structure, "type_decl"),
            capture_index(&structure, "type_use"),
            capture_index(&structure, "var_decl"),
            capture_index(&structure, "var_use"),
            capture_index(&structure, "id"),
            capture_index(&structure, "alias"),
            capture_index(&structure, "generics"),
        ) {
            (
                Some(ns_decl),
                Some(ns_use),
                Some(type_decl),
                Some(type_use),
                Some(var_decl),
                Some(var_use),
                Some(id),
                Some(alias),
                Some(generics),
            ) => CaptureIds {
                ns_decl,
                ns_use,
                type_decl,
                type_use,
                var_decl,
                var_use,
                id,
                alias,
                generics,
            },
            _ => {
                return None;
            },
        };
        let key = match capture_index(&lookup, "loc-str") {
            Some(k) => k,
            None => {
                return None;
            },
        };
        Some(CsQueries { structure, lookup, ids, key })
    }
}

/// The kind the analysis tells apart for a node of kind `kind`.
fn kind_of(kind: &str, named: bool) -> (r: NodeKind)
    ensures
        r == kind_for(kind@, named),
{
    if str_equal(kind, "identifier") {
        NodeKind::Identifier
    } else if str_equal(kind, "generic_name") {
        NodeKind::GenericName
    } else if str_equal(kind, "type_argument_list") {
        NodeKind::TypeArgumentList
    } else if str_equal(kind, "qualified_name") {
        NodeKind::QualifiedName
    } else if str_equal(kind, "alias_qualified_name") {
        NodeKind::AliasQualifiedName
    } else if str_equal(kind, "member_access_expression") {
        NodeKind::MemberAccessExpression
    } else if str_equal(kind, "invocation_expression") {
        NodeKind::InvocationExpression
    } else if str_equal(kind, "element_access_expression") {
        NodeKind::ElementAccessExpression
    } else if str_equal(kind, "using_directive") {
        NodeKind::UsingDirective
    } else if str_equal(kind, "static") && !named {
        NodeKind::StaticKeyword
    } else if str_equal(kind, "file_scoped_namespace_declaration") {
        NodeKind::FileScopedNamespaceDeclaration
    } else if str_equal(kind, "string_literal") {
        NodeKind::StringLiteral
    } else {
        NodeKind::Other
    }
}

/// The children of node `i` (see `parsed_children`); none exactly where one of them is no node
/// of the tree.
fn read_children(p: &ParsedSource, i: usize, n: usize) -> (r: Option<Vec<usize>>)
    requires
        n == cs_node_count(p@),
        i < n,
    ensures
        r is Some <==> forall|c: int|
            0 <= c < parsed_children(p@, i).len() ==> #[trigger] parsed_children(p@, i)[c] < n,
        r matches Some(v) ==> v@ == parsed_children(p@, i),
{
    let ghost full = parsed_children(p@, i);
    let mut kids: Vec<usize> = Vec::new();
    let mut cur = first_child_at(p, i);
    let mut fuel: usize = n;
    while fuel > 0 && cur.is_some()
        invariant
            n == cs_node_count(p@),
            full == parsed_children(p@, i),
            fuel <= n,
            kids@ + sibling_chain(p@, cur, fuel as nat) == full,
            forall|c: int| 0 <= c < kids@.len() ==> #[trigger] kids@[c] < n,
        decreases fuel,
    {
        let j = cur.unwrap();
        let ghost rest = sibling_chain(p@, cs_next_sibling(p@, j), (fuel - 1) as nat);
        assert(sibling_chain(p@, cur, fuel as nat) == seq![j] + rest);
        if j >= n {
            proof {
                assert(full[kids@.len() as int] == j);
            }
            return None;
        }
        let ghost before = kids@;
        kids.push(j);
        assert(kids@ + rest =~= before + (seq![j] + rest));
        cur = next_sibling_at(p, j);
        fuel = fuel - 1;
    }
    proof {
        assert(sibling_chain(p@, cur, fuel as nat) =~= Seq::<usize>::empty());
        assert(kids@ =~= full);
    }
    Some(kids)
}

/// The named nodes among `kids` (see `named_only`).
fn read_named(p: &ParsedSource, kids: &Vec<usize>, n: usize) -> (r: Vec<usize>)
    requires
        n == cs_node_count(p@),
        forall|c: int| 0 <= c < kids@.len() ==> #[trigger] kids@[c] < n,
    ensures
        r@ == named_only(p@, kids@),
{
    let mut out: Vec<usize> = Vec::new();
    let mut k: usize = 0;
    while k < kids.len()
        invariant
            n == cs_node_count(p@),
            forall|c: int| 0 <= c < kids@.len() ==> #[trigger] kids@[c] < n,
            k <= kids@.len(),
            out@ == named_only(p@, kids@.take(k as int)),
        decreases kids@.len() - k,
    {
        let c = kids[k];
        assert(kids@.take(k + 1).drop_last() =~= kids@.take(k as int));
        assert(kids@.take(k + 1).last() == c);
        if named_at(p, c) {
            out.push(c);
        }
        k = k + 1;
    }
    assert(kids@.take(kids@.len() as int) =~= kids@);
    out
}

/// The first of `kids` that stands in the field `f` (see `field_child`).
fn read_field(p: &ParsedSource, kids: &Vec<usize>, n: usize, f: &str) -> (r: Option<usize>)
    requires
        n == cs_node_count(p@),
        forall|c: int| 0 <= c < kids@.len() ==> #[trigger] kids@[c] < n,
    ensures
        r == field_child(p@, kids@, f@),
{
    let mut found: Option<usize> = None;
    let mut k: usize = 0;
    while k < kids.len()
        invariant
            n == cs_node_count(p@),
            forall|c: int| 0 <= c < kids@.len() ==> #[trigger] kids@[c] < n,
            k <= kids@.len(),
            found == field_child(p@, kids@.take(k as int), f@),
        decreases kids@.len() - k,
    {
        let c = kids[k];
        assert(kids@.take(k + 1).drop_last() =~= kids@.take(k as int));
        assert(kids@.take(k + 1).last() == c);
        if found.is_none() {
            match field_at(p, c) {
                Some(name) => {
                    if str_equal(name.as_str(), f) {
                        found = Some(c);
                    }
                },
                None => {},
            }
        }
        k = k + 1;
    }
    assert(kids@.take(kids@.len() as int) =~= kids@);
    found
}

/// Node `i` of the tree in the library's form (see `node_is_parse`); none exactly where it is
/// not in range (see `node_in_range`).
fn read_node(p: &ParsedSource, i: usize, n: usize) -> (r: Option<SyntaxNode>)
    requires
        n == cs_node_count(p@),
        i < n,
    ensures
        r is Some <==> node_in_range(p@, i),
        r matches Some(node) ==> node_is_parse(node, p@, i),
{
    let start = start_at(p, i);
    let end = end_at(p, i);
    if start > end || end > p.source_len() {
        return None;
    }
    let parent = parent_at(p, i);
    match parent {
        Some(q) => {
            if q >= n {
                return None;
            }
        },
        None => {},
    }
    let children = match read_children(p, i, n) {
        Some(v) => v,
        None => {
            return None;
        },
    };
    let named_children = read_named(p, &children, n);
    let name = read_field(p, &children, n, "name");
    let qualifier = read_field(p, &children, n, "qualifier");
    let alias = read_field(p, &children, n, "alias");
    let kind_name = kind_at(p, i);
    let kind = kind_of(kind_name.as_str(), named_at(p, i));
    Some(
        SyntaxNode {
            kind,
            kind_name,
            start,
            end,
            parent,
            name,
            qualifier,
            alias,
            children,
            named_children,
        },
    )
}

/// The first node of `nodes` from `j` on with the range `start..end` and the kind `kind` (see
/// `node_with`).
fn find_node(
    nodes: &Vec<SyntaxNode>,
    start: usize,
    end: usize,
    kind: &str,
    Ghost(src): Ghost<Seq<u8>>,
) -> (r: Option<usize>)
    requires
        nodes@.len() == cs_node_count(src),
        forall|i: int| 0 <= i < nodes@.len() ==> node_is_parse(#[trigger] nodes@[i], src, i as usize),
    ensures
        r == node_with(src, start, end, kind@, 0),
{
    let mut j: usize = 0;
    while j < nodes.len()
        invariant
            nodes@.len() == cs_node_count(src),
            forall|i: int| 0 <= i < nodes@.len() ==> node_is_parse(#[trigger] nodes@[i], src, i as usize),
            j <= nodes@.len(),
            node_with(src, start, end, kind@, 0) == node_with(src, start, end, kind@, j as nat),
        decreases nodes@.len() - j,
    {
        let node = &nodes[j];
        assert(node_is_parse(nodes@[j as int], src, j));
        if node.start == start && node.end == end && str_equal(node.kind_name.as_str(), kind) {
            return Some(j);
        }
        j = j + 1;
    }
    None
}

/// The matches `raw` with each capture's node given by its number (see `matches_are`); none
/// exactly where a capture names no node of the tree.
fn convert_matches(nodes: &Vec<SyntaxNode>, raw: &Vec<Vec<RawCapture>>, Ghost(src): Ghost<Seq<u8>>) -> (r:
    Option<Vec<QueryMatch>>)
    requires
        nodes@.len() == cs_node_count(src),
        forall|i: int| 0 <= i < nodes@.len() ==> node_is_parse(#[trigger] nodes@[i], src, i as usize),
    ensures
        r is Some <==> captures_found(src, raw_matches_view(raw@)),
        r matches Some(v) ==> matches_are(src, raw_matches_view(raw@), v@),
        r matches Some(v) ==> captures_below(v@, nodes@.len()),
{
    let ghost rv = raw_matches_view(raw@);
    let mut out: Vec<QueryMatch> = Vec::new();
    let mut i: usize = 0;
    while i < raw.len()
        invariant
            rv == raw_matches_view(raw@),
            nodes@.len() == cs_node_count(src),
            forall|k: int| 0 <= k < nodes@.len() ==> node_is_parse(#[trigger] nodes@[k], src, k as usize),
            i <= raw@.len(),
            out@.len() == i,
            forall|a: int| 0 <= a < i ==> #[trigger] out@[a].captures@.len() == rv[a].len(),
            forall|a: int, b: int|
                0 <= a < i && 0 <= b < out@[a].captures@.len() ==> #[trigger] out@[a].captures@[b]
                    == converted_capture(src, rv[a][b]),
            forall|a: int, b: int|
                0 <= a < i && 0 <= b < rv[a].len() ==> #[trigger] capture_node(src, rv[a][b]) is Some,
            captures_below(out@, nodes@.len()),
        decreases raw@.len() - i,
    {
        let m = &raw[i];
        assert(rv[i as int] == m@.map_values(|c: RawCapture| raw_capture_view(c)));
        let mut caps: Vec<Capture> = Vec::new();
        let mut j: usize = 0;
        while j < m.len()
            invariant
                rv == raw_matches_view(raw@),
                i < raw@.len(),
                *m == raw@[i as int],
                rv[i as int] == m@.map_values(|c: RawCapture| raw_capture_view(c)),
                nodes@.len() == cs_node_count(src),
                forall|k: int| 0 <= k < nodes@.len() ==> node_is_parse(#[trigger] nodes@[k], src, k as usize),
                j <= m@.len(),
                caps@.len() == j,
                forall|c: int| 0 <= c < j ==> #[trigger] caps@[c] == converted_capture(src, rv[i as int][c]),
                forall|c: int| 0 <= c < j ==> #[trigger] capture_node(src, rv[i as int][c]) is Some,
                forall|c: int| 0 <= c < j ==> #[trigger] caps@[c].node < nodes@.len(),
            decreases m@.len() - j,
        {
            let c = &m[j];
            assert(rv[i as int][j as int] == raw_capture_view(*c));
            match find_node(nodes, c.start, c.end, c.kind.as_str(), Ghost(src)) {
                Some(k) => {
                    proof {
                        lemma_node_with_below(src, c.start, c.end, c.kind@, 0);
                    }
                    caps.push(Capture { index: c.index, node: k });
                },
                None => {
                    proof {
                        assert(capture_node(src, rv[i as int][j as int]) is None);
                    }
                    return None;
                },
            }
            j = j + 1;
        }
        let ghost before = out@;
        out.push(QueryMatch { captures: caps });
        proof {
            assert forall|a: int, b: int| 0 <= a < out@.len() && 0 <= b < out@[a].captures@.len() implies #[trigger] out@[a].captures@[b].node < nodes@.len() by {
                if a < before.len() {
                    assert(out@[a] == before[a]);
                }
            }
            assert forall|a: int| 0 <= a < i + 1 implies #[trigger] out@[a].captures@.len() == rv[a].len() by {
                if a < before.len() {
                    assert(out@[a] == before[a]);
                }
            }
            assert forall|a: int, b: int|
                0 <= a < i + 1 && 0 <= b < out@[a].captures@.len() implies #[trigger] out@[a].captures@[b]
                    == converted_capture(src, rv[a][b]) by {
                if a < before.len() {
                    assert(out@[a] == before[a]);
                }
            }
        }
        i = i + 1;
    }
    Some(out)
}

/// A node found by `node_with` is a node of the tree.
proof fn lemma_node_with_below(src: Seq<u8>, start: usize, end: usize, kind: Seq<char>, j: nat)
    ensures
        node_with(src, start, end, kind, j) matches Some(k) ==> j <= k < cs_node_count(src),
    decreases cs_node_count(src) - j,
{
    if j < cs_node_count(src) {
        lemma_node_with_below(src, start, end, kind, j + 1);
    }
}

/// Reads `source` with tree-sitter and runs both queries over it (see `CsQueries`). It fails
/// exactly where a node of the tree lies outside the source or links outside the tree, or a
/// capture names no node; otherwise the tree read is the parse of `source` in pre-order (see
/// `tree_is_parse`) and the matches are those of each query (see `matches_are`).
pub fn read_source(queries: &CsQueries, source: Vec<u8>) -> (r: Option<SourceRead>)
    ensures
        r is Some <==> {
            &&& parse_in_range(source@)
            &&& captures_found(source@, cs_matches(queries.structure@, source@))
            &&& captures_found(source@, cs_matches(queries.lookup@, source@))
        },
        r matches Some(s) ==> {
            &&& tree_is_parse(&s.tree, source@)
            &&& s.tree.wf()
            &&& matches_are(source@, cs_matches(queries.structure@, source@), s.matches@)
            &&& matches_are(source@, cs_matches(queries.lookup@, source@), s.lookups@)
            &&& captures_below(s.matches@, s.tree.nodes@.len())
            &&& captures_below(s.lookups@, s.tree.nodes@.len())
        },
{
    let ghost src = source@;
    let parsed = match parse_source(source) {
        Some(p) => p,
        None => {
            return None;
        },
    };
    let n = node_count(&parsed);
    let mut nodes: Vec<SyntaxNode> = Vec::new();
    let mut i: usize = 0;
    while i < n
        invariant
            parsed@ == src,
            src == source@,
            n == cs_node_count(src),
            i <= n,
            nodes@.len() == i,
            forall|k: int| 0 <= k < nodes@.len() ==> node_is_parse(#[trigger] nodes@[k], src, k as usize),
            forall|k: usize| k < i ==> #[trigger] node_in_range(src, k),
        decreases n - i,
    {
        match read_node(&parsed, i, n) {
            Some(node) => {
                nodes.push(node);
            },
            None => {
                proof {
                    assert(!node_in_range(src, i));
                    assert(!parse_in_range(src));
                }
                return None;
            },
        }
        i = i + 1;
    }
    let raw_matches = query_matches(&queries.structure, &parsed);
    let matches = match convert_matches(&nodes, &raw_matches, Ghost(src)) {
        Some(v) => v,
        None => {
            return None;
        },
    };
    let raw_lookups = query_matches(&queries.lookup, &parsed);
    let lookups = match convert_matches(&nodes, &raw_lookups, Ghost(src)) {
        Some(v) => v,
        None => {
            return None;
        },
    };
    let t = SyntaxTree { source: parsed.source, nodes };
    proof {
        assert forall|k: int| 0 <= k < t.nodes@.len() implies {
            let node = #[trigger] t.nodes@[k];
            &&& node.start <= node.end <= t.source@.len()
            &&& crate::syntax::link_ok(node.parent, t.nodes@.len())
            &&& crate::syntax::link_ok(node.name, t.nodes@.len())
            &&& crate::syntax::link_ok(node.qualifier, t.nodes@.len())
            &&& crate::syntax::link_ok(node.alias, t.nodes@.len())
            &&& forall|c: int|
                0 <= c < node.children@.len() ==> #[trigger] node.children@[c] < t.nodes@.len()
            &&& forall|c: int|
                0 <= c < node.named_children@.len() ==> #[trigger] node.named_children@[c]
                    < t.nodes@.len()
        } by {
            let ku = k as usize;
            assert(node_in_range(src, ku));
            assert(node_is_parse(t.nodes@[k], src, ku));
            lemma_parse_links(src, ku);
        }
    }
    Some(SourceRead { tree: t, matches, lookups })
}

/// The named children and the field children of an in-range node are among its children, and
/// so are nodes of the tree.
proof fn lemma_parse_links(src: Seq<u8>, i: usize)
    requires
        node_in_range(src, i),
    ensures
        forall|c: int|
            0 <= c < named_only(src, parsed_children(src, i)).len() ==> #[trigger] named_only(
                src,
                parsed_children(src, i),
            )[c] < cs_node_count(src),
        field_child(src, parsed_children(src, i), "name"@) matches Some(c) ==> c < cs_node_count(src),
        field_child(src, parsed_children(src, i), "qualifier"@) matches Some(c) ==> c < cs_node_count(src),
        field_child(src, parsed_children(src, i), "alias"@) matches Some(c) ==> c < cs_node_count(src),
{
    let kids = parsed_children(src, i);
    lemma_among(src, kids, cs_node_count(src));
}

/// What `named_only` and `field_child` pick from `s` is below `bound` when all of `s` is.
proof fn lemma_among(src: Seq<u8>, s: Seq<usize>, bound: usize)
    requires
        forall|c: int| 0 <= c < s.len() ==> #[trigger] s[c] < bound,
    ensures
        forall|c: int| 0 <= c < named_only(src, s).len() ==> #[trigger] named_only(src, s)[c] < bound,
        forall|f: Seq<char>| #[trigger] field_child(src, s, f) is Some ==> field_child(src, s, f).unwrap() < bound,
    decreases s.len(),
{
    if s.len() > 0 {
        let d = s.drop_last();
        assert forall|c: int| 0 <= c < d.len() implies #[trigger] d[c] < bound by {
            assert(d[c] == s[c]);
        }
        lemma_among(src, d, bound);
        let r = named_only(src, d);
        assert(s.last() < bound) by {
            assert(s[s.len() - 1] < bound);
        }
        assert forall|c: int| 0 <= c < named_only(src, s).len() implies #[trigger] named_only(
            src,
            s,
        )[c] < bound by {
            if c < r.len() {
                assert(named_only(src, s)[c] == r[c]);
            }
        }
        assert forall|f: Seq<char>| #[trigger] field_child(src, s, f) is Some implies field_child(
            src,
            s,
            f,
        ).unwrap() < bound by {
            if field_child(src, d, f) is None {
            }
        }
    }
}

/// Whether every capture of every match names a node of `t`.
fn all_captures_fit(t: &SyntaxTree, matches: &Vec<QueryMatch>) -> (b: bool)
    ensures
        b == forall|i: int| 0 <= i < matches@.len() ==> captures_fit(t, #[trigger] match_captures(matches@)[i]),
{
    let ghost ms = match_captures(matches@);
    let mut i: usize = 0;
    while i < matches.len()
        invariant
            ms == match_captures(matches@),
            i <= matches@.len(),
            forall|k: int| 0 <= k < i ==> captures_fit(t, #[trigger] ms[k]),
        decreases matches@.len() - i,
    {
        let m = &matches[i].captures;
        assert(ms[i as int] == m@);
        let mut j: usize = 0;
        while j < m.len()
            invariant
                ms == match_captures(matches@),
                i < matches@.len(),
                ms[i as int] == m@,
                j <= m@.len(),
                forall|c: int| 0 <= c < j ==> #[trigger] m@[c].node < t.nodes@.len(),
            decreases m@.len() - j,
        {
            if m[j].node >= t.nodes.len() {
                assert(!(ms[i as int][j as int].node < t.nodes@.len()));
                assert(!captures_fit(t, ms[i as int]));
                return false;
            }
            j = j + 1;
        }
        i = i + 1;
    }
    true
}

/// Whether some capture of `m` has index `k`.
fn captures_index(m: &Vec<Capture>, k: u32) -> (b: bool)
    ensures
        b == exists|j: int| 0 <= j < m@.len() && m@[j].index == k,
{
    let mut j: usize = 0;
    while j < m.len()
        invariant
            j <= m@.len(),
            forall|c: int| 0 <= c < j ==> m@[c].index != k,
        decreases m@.len() - j,
    {
        if m[j].index == k {
            return true;
        }
        j = j + 1;
    }
    false
}

/// Whether the structure matches fit the tree, as the analysis needs (see `matches_fit`).
pub fn structure_fits(t: &SyntaxTree, matches: &Vec<QueryMatch>, ids: CaptureIds) -> (b: bool)
    ensures
        b == matches_fit(t, match_captures(matches@), ids),
{
    let ghost ms = match_captures(matches@);
    if !all_captures_fit(t, matches) {
        proof {
            let i = choose|i: int| 0 <= i < matches@.len() && !captures_fit(t, #[trigger] ms[i]);
            let j = choose|j: int| 0 <= j < ms[i].len() && !(#[trigger] ms[i][j].node < t.nodes@.len());
        }
        return false;
    }
    let mut i: usize = 0;
    while i < matches.len()
        invariant
            ms == match_captures(matches@),
            i <= matches@.len(),
            forall|k: int| 0 <= k < matches@.len() ==> captures_fit(t, #[trigger] ms[k]),
            forall|k: int|
                0 <= k < i && (exists|j: int| 0 <= j < ms[k].len() && ms[k][j].index == ids.type_decl)
                    ==> match first_node(#[trigger] ms[k], ids.id) {
                    Some(idn) => t.nodes@[idn as int].parent is Some && match first_node(
                        ms[k],
                        ids.generics,
                    ) {
                        Some(gn) => t.nodes@[idn as int].start <= t.nodes@[gn as int].end,
                        None => true,
                    },
                    None => true,
                },
        decreases matches@.len() - i,
    {
        let m = &matches[i].captures;
        assert(ms[i as int] == m@);
        assert(captures_fit(t, ms[i as int]));
        if captures_index(m, ids.type_decl) {
            proof {
                lemma_first_node_fits(t, m@, ids.id);
                lemma_first_node_fits(t, m@, ids.generics);
            }
            match first_capture_node(m, ids.id) {
                Some(idn) => {
                    if t.nodes[idn].parent.is_none() {
                        return false;
                    }
                    match first_capture_node(m, ids.generics) {
                        Some(gn) => {
                            if t.nodes[idn].start > t.nodes[gn].end {
                                return false;
                            }
                        },
                        None => {},
                    }
                },
                None => {},
            }
        }
        i = i + 1;
    }
    proof {
        assert forall|a: int, c: int| 0 <= a < ms.len() && 0 <= c < ms[a].len() implies #[trigger] ms[a][c].node < t.nodes@.len() by {
            assert(captures_fit(t, ms[a]));
        }
    }
    true
}

/// Whether the lookup matches fit the tree, as `find_locstrings` needs (see `lookups_fit`).
pub fn lookups_fit_check(t: &SyntaxTree, lookups: &Vec<QueryMatch>, key: u32) -> (b: bool)
    ensures
        b == lookups_fit(t, match_captures(lookups@), key),
{
    let ghost ms = match_captures(lookups@);
    if !all_captures_fit(t, lookups) {
        return false;
    }
    let mut i: usize = 0;
    while i < lookups.len()
        invariant
            ms == match_captures(lookups@),
            i <= lookups@.len(),
            forall|k: int| 0 <= k < lookups@.len() ==> captures_fit(t, #[trigger] ms[k]),
            forall|k: int|
                0 <= k < i ==> match first_node(#[trigger] ms[k], key) {
                    Some(n) => t.nodes@[n as int].kind == NodeKind::StringLiteral ==> t.nodes@[n as int].start
                        + 2 <= t.nodes@[n as int].end,
                    None => false,
                },
        decreases lookups@.len() - i,
    {
        let m = &lookups[i].captures;
        assert(ms[i as int] == m@);
        proof {
            lemma_first_node_fits(t, m@, key);
        }
        match first_capture_node(m, key) {
            Some(n) => {
                let node = &t.nodes[n];
                if node.kind == NodeKind::StringLiteral && (node.end < node.start || node.end - node.start < 2) {
                    return false;
                }
            },
            None => {
                return false;
            },
        }
        i = i + 1;
    }
    true
}

} // verus!
