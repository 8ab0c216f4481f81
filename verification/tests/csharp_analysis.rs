use unity_asset_graph::asset::{Asset, Relation};
use unity_asset_graph::asset_type::AssetType;
use unity_asset_graph::csharp::{
    lookups_fit_check, read_source, structure_fits, CsQueries, LOOKUP_QUERY, STRUCTURE_QUERY,
};
use unity_asset_graph::find_types::{find_types, TypeScanError};
use unity_asset_graph::grammar::{back_paths, holder_lists, NodeTypeInfo};
use unity_asset_graph::id::Id;
use unity_asset_graph::locstrings::{find_locstrings, parse_loc_resource, resource_assets};
use unity_asset_graph::qualified_name::QualifiedNameOwned;
use unity_asset_graph::structure::{evaluate_structure, Capture, CaptureIds, QueryMatch, StructureError};
use unity_asset_graph::syntax::{name_at, NodeKind, SyntaxNode, SyntaxTree};
use unity_asset_graph::type_broker::TypeBroker;

const IDS: CaptureIds = CaptureIds {
    ns_decl: 0,
    ns_use: 1,
    type_decl: 2,
    type_use: 3,
    var_decl: 4,
    var_use: 5,
    id: 6,
    alias: 7,
    generics: 8,
};

fn node(kind: NodeKind, kind_name: &str, start: usize, end: usize, parent: Option<usize>, children: Vec<usize>) -> SyntaxNode {
    SyntaxNode {
        kind,
        kind_name: kind_name.to_string(),
        start,
        end,
        parent,
        name: None,
        qualifier: None,
        alias: None,
        named_children: children.clone(),
        children,
    }
}

/// `using Sys; namespace Ns { class C : D { } }`, in pre-order.
fn sample_tree() -> SyntaxTree {
    let source = "using Sys; namespace Ns { class C : D { } }";
    let mut nodes = vec![
        node(NodeKind::Other, "compilation_unit", 0, 43, None, vec![1, 3]),
        node(NodeKind::UsingDirective, "using_directive", 0, 10, Some(0), vec![2]),
        node(NodeKind::Identifier, "identifier", 6, 9, Some(1), vec![]),
        node(NodeKind::Other, "namespace_declaration", 11, 43, Some(0), vec![4, 5]),
        node(NodeKind::Identifier, "identifier", 21, 23, Some(3), vec![]),
        node(NodeKind::Other, "declaration_list", 24, 43, Some(3), vec![6]),
        node(NodeKind::Other, "class_declaration", 26, 41, Some(5), vec![7, 8, 10]),
        node(NodeKind::Identifier, "identifier", 32, 33, Some(6), vec![]),
        node(NodeKind::Other, "base_list", 34, 37, Some(6), vec![9]),
        node(NodeKind::Identifier, "identifier", 36, 37, Some(8), vec![]),
        node(NodeKind::Other, "declaration_list", 38, 41, Some(6), vec![]),
    ];
    nodes[3].name = Some(4);
    nodes[6].name = Some(7);
    SyntaxTree { source: source.as_bytes().to_vec(), nodes }
}

fn capture(index: u32, node: usize) -> Capture {
    Capture { index, node }
}

fn sample_matches() -> Vec<QueryMatch> {
    vec![
        QueryMatch { captures: vec![capture(IDS.ns_use, 0), capture(IDS.id, 2)] },
        QueryMatch { captures: vec![capture(IDS.ns_decl, 0), capture(IDS.id, 4)] },
        QueryMatch { captures: vec![capture(IDS.type_decl, 5), capture(IDS.id, 7)] },
        QueryMatch { captures: vec![capture(IDS.type_use, 9)] },
    ]
}

fn name(text: &str) -> QualifiedNameOwned {
    QualifiedNameOwned::from(text)
}

#[test]
fn identifier_spells_its_text() {
    let tree = sample_tree();
    let n = name_at(&tree, 4).expect("name");
    assert!(n.same(&name("Ns")));
    let d = name_at(&tree, 9).expect("name");
    assert!(d.same(&name("D")));
}

#[test]
fn structure_records_declarations_and_uses() {
    let tree = sample_tree();
    let info = evaluate_structure(&tree, &sample_matches(), IDS).expect("structure");
    assert_eq!(info.ns_usages[0].len(), 1);
    assert!(info.ns_usages[0][0].same(&name("Sys")));
    assert!(info.ns_decl_nodes[3].as_ref().expect("namespace").same(&name("Ns")));
    assert_eq!(info.ns_decl_names[0].len(), 1);
    assert!(info.type_decl_nodes[6].as_ref().expect("type").same(&name("C")));
    assert!(info.type_decl_names[5][0].same(&name("C")));
    assert!(info.type_usages[9].as_ref().expect("use").same(&name("D")));
    assert!(info.fsns_decl.is_none());
}

#[test]
fn structure_rejects_unknown_capture() {
    let tree = sample_tree();
    let matches = vec![QueryMatch { captures: vec![capture(42, 0)] }];
    match evaluate_structure(&tree, &matches, IDS) {
        Err(StructureError::FieldId(42)) => {}
        other => panic!("unexpected result {:?}", other.is_ok()),
    }
}

#[test]
fn structure_needs_an_identifier() {
    let tree = sample_tree();
    let matches = vec![QueryMatch { captures: vec![capture(IDS.ns_decl, 0)] }];
    assert!(matches!(evaluate_structure(&tree, &matches, IDS), Err(StructureError::FieldName(_))));
}

#[test]
fn types_of_a_file_are_declared_and_requested() {
    let tree = sample_tree();
    let file = Id::Guid(7);
    let mut broker = TypeBroker::new();
    let assets = find_types(&tree, &sample_matches(), IDS, &file, &mut broker).expect("types");
    assert_eq!(assets.len(), 1);
    assert!(assets[0].id.same(&Id::CsType(name("Ns.C"))));
    assert_eq!(assets[0].asset_type, AssetType::Unknown);
    assert_eq!(assets[0].relations.len(), 1);
    assert!(assets[0].relations[0].same(&Relation::ContainedBy(Id::Guid(7))));

    let requests = broker.requests();
    assert_eq!(requests.len(), 1);
    assert!(requests[0].requester.same(&Id::CsType(name("Ns.C"))));
    assert!(requests[0].partial_name.same(&name("D")));
    assert_eq!(requests[0].scoped_namespaces.len(), 1);
    assert!(requests[0].scoped_namespaces[0].same(&name("Sys")));
}

#[test]
fn types_report_structure_failures() {
    let tree = sample_tree();
    let matches = vec![QueryMatch { captures: vec![capture(99, 0)] }];
    let mut broker = TypeBroker::new();
    let r = find_types(&tree, &matches, IDS, &Id::Guid(1), &mut broker);
    assert!(matches!(r, Err(TypeScanError::Structure(StructureError::FieldId(99)))));
    assert_eq!(broker.requests().len(), 0);
}

/// `LocStringCache.Get("greeting"); LocStringCache.Get(key);`
fn lookup_tree() -> SyntaxTree {
    let source = "Get(\"greeting\"); Get(key);";
    let nodes = vec![
        node(NodeKind::Other, "compilation_unit", 0, 26, None, vec![1, 2]),
        node(NodeKind::StringLiteral, "string_literal", 4, 14, Some(0), vec![]),
        node(NodeKind::Identifier, "identifier", 21, 24, Some(0), vec![]),
    ];
    SyntaxTree { source: source.as_bytes().to_vec(), nodes }
}

#[test]
fn literal_lookups_become_uses() {
    let tree = lookup_tree();
    let matches = vec![
        QueryMatch { captures: vec![capture(0, 0), capture(1, 1)] },
        QueryMatch { captures: vec![capture(1, 2)] },
    ];
    let mut asset = Asset::new(Id::Guid(3), AssetType::CsFile, Some("a.cs".to_string()), vec![]);
    find_locstrings(&tree, &matches, 1, &mut asset);
    assert_eq!(asset.relations.len(), 1);
    assert!(asset.relations[0].same(&Relation::Uses(Id::Loc("greeting".to_string()))));
}

#[test]
fn resource_keys_become_strings() {
    let keys = vec!["a".to_string(), "b".to_string()];
    let assets = resource_assets(&keys, &Id::Guid(5));
    assert_eq!(assets.len(), 2);
    assert!(assets[1].id.same(&Id::Loc("b".to_string())));
    assert_eq!(assets[1].asset_type, AssetType::LocString);
    assert!(assets[1].relations[0].same(&Relation::ContainedBy(Id::Guid(5))));
}

#[test]
fn resource_file_defines_its_keys() {
    let text = r#"{ "menu_title": "Menu", "menu_quit": "Quit" }"#;
    let assets = parse_loc_resource(text, &Id::Guid(8)).expect("resource parses");
    assert_eq!(assets.len(), 2);
    let mut keys: Vec<String> = assets
        .iter()
        .map(|a| match &a.id {
            Id::Loc(k) => k.clone(),
            _ => panic!("not a localized string"),
        })
        .collect();
    keys.sort();
    assert_eq!(keys, vec!["menu_quit".to_string(), "menu_title".to_string()]);
    for a in &assets {
        assert_eq!(a.asset_type, AssetType::LocString);
        assert!(a.relations[0].same(&Relation::ContainedBy(Id::Guid(8))));
    }
}

#[test]
fn resource_file_must_be_an_object_of_strings() {
    assert!(parse_loc_resource("[1, 2]", &Id::Guid(8)).is_none());
    assert!(parse_loc_resource(r#"{ "a": 3 }"#, &Id::Guid(8)).is_none());
    assert!(parse_loc_resource("{ not json", &Id::Guid(8)).is_none());
    assert_eq!(parse_loc_resource("{}", &Id::Guid(8)).expect("empty object").len(), 0);
}

#[test]
fn member_access_chain_names_each_part_once() {
    let source = "class C { void M() { var x = Ns.Main.StringBuilderCache; } }";
    let queries = CsQueries::new().expect("queries compile");
    let read = read_source(&queries, source.as_bytes().to_vec()).expect("source parses");
    let at = source.find("Ns.").expect("head");
    let head = read
        .tree
        .nodes
        .iter()
        .position(|n| n.kind == NodeKind::Identifier && n.start == at)
        .expect("head identifier");
    let n = name_at(&read.tree, head).expect("name");
    assert_eq!(n.parts.len(), 3);
    assert!(n.same(&name("Ns.Main.StringBuilderCache")));
}

#[test]
fn grammar_paths_reach_stops() {
    // 0 identifier, 1 expression (stop), 2 qualified name, 3 type (stop), 4 argument
    let holders = vec![vec![2, 1, 4], vec![], vec![3, 2], vec![], vec![]];
    let stop = vec![false, true, false, true, false];
    let mut paths = back_paths(&holders, &stop, &vec![0], 40);
    paths.sort();
    assert_eq!(paths, vec![vec![0, 1], vec![0, 2, 3]]);
    let short = back_paths(&holders, &stop, &vec![0], 2);
    assert_eq!(short, vec![vec![0, 1]]);
    assert!(back_paths(&holders, &stop, &vec![4], 40).is_empty());
}

#[test]
fn failure_messages() {
    assert_eq!(StructureError::FieldId(12).message(), "No such field 12");
    assert_eq!(StructureError::FieldName("id").message(), "No such field 'id'");
    assert_eq!(
        StructureError::BadName(unity_asset_graph::qualified_name::NameError::BadAlias("g".to_string())).message(),
        "Failed to parse name: Failed to handle name alias 'g'"
    );
}

#[test]
fn request_text() {
    let req = unity_asset_graph::type_broker::TypeRequest {
        requester: Id::CsType(name("App.Main")),
        partial_name: name("Widget"),
        scoped_namespaces: vec![name("Lib.Ui"), name("Other")],
    };
    assert_eq!(
        req.to_text(),
        "cs_decl:App.Main wants Widget\n  Namespaces in scope (2):\n  - Lib.Ui\n  - Other\n"
    );
}

const SOURCE: &str = r#"using Lib.Ui;
namespace Game
{
    public class Player : Widget
    {
        private Score score;
        void Show() { var t = LocStringCache.Get("player_title"); var u = LocStringCache.Get(name); }
        class Inner { }
    }
}
"#;

#[test]
fn parsed_source_gives_types_and_lookups() {
    let queries = CsQueries::new().expect("queries compile");
    let read = read_source(&queries, SOURCE.as_bytes().to_vec()).expect("source parses");
    assert_eq!(read.tree.source, SOURCE.as_bytes());
    assert_eq!(read.tree.nodes[0].kind_name, "compilation_unit");
    assert!(structure_fits(&read.tree, &read.matches, queries.ids));

    let mut broker = TypeBroker::new();
    let file = Id::Guid(11);
    let assets = find_types(&read.tree, &read.matches, queries.ids, &file, &mut broker).expect("types");
    assert_eq!(assets.len(), 1);
    assert!(assets[0].id.same(&Id::CsType(name("Game.Player"))));

    let requests = broker.requests();
    let mut wanted: Vec<String> = requests.iter().map(|r| r.partial_name.to_text()).collect();
    wanted.sort();
    assert_eq!(wanted, vec!["Score".to_string(), "Widget".to_string()]);
    for r in requests {
        assert!(r.requester.same(&Id::CsType(name("Game.Player"))));
        assert!(r.scoped_namespaces.iter().any(|n| n.same(&name("Lib.Ui"))));
    }

    assert!(lookups_fit_check(&read.tree, &read.lookups, queries.key));
    let mut asset = Asset::new(file, AssetType::CsFile, Some("Player.cs".to_string()), vec![]);
    find_locstrings(&read.tree, &read.lookups, queries.key, &mut asset);
    assert_eq!(asset.relations.len(), 1);
    assert!(asset.relations[0].same(&Relation::Uses(Id::Loc("player_title".to_string()))));
}

#[test]
fn query_all() -> Result<(), tree_sitter::QueryError> {
    let lang: tree_sitter::Language = tree_sitter_c_sharp::LANGUAGE.into();
    tree_sitter::Query::new(&lang, STRUCTURE_QUERY).map(|_| ())
}

#[test]
fn lookup_query_compiles() -> Result<(), tree_sitter::QueryError> {
    let lang: tree_sitter::Language = tree_sitter_c_sharp::LANGUAGE.into();
    tree_sitter::Query::new(&lang, LOOKUP_QUERY).map(|_| ())
}

#[test]
fn file_scoped_namespace_and_generics() {
    let source = "namespace A.B;\nusing static Lib.Tools;\npublic struct S<T> { T value; }\n";
    let queries = CsQueries::new().expect("queries compile");
    let read = read_source(&queries, source.as_bytes().to_vec()).expect("source parses");
    assert!(structure_fits(&read.tree, &read.matches, queries.ids));
    let mut broker = TypeBroker::new();
    let assets = find_types(&read.tree, &read.matches, queries.ids, &Id::Guid(3), &mut broker).expect("types");
    assert_eq!(assets.len(), 1);
    assert!(assets[0].id.same(&Id::CsType(name("A.B.S<T>"))));
}

#[test]
fn parsed_tree_links_agree() {
    let source = "namespace A.B { class C : D.E { int f; } }";
    let queries = CsQueries::new().expect("queries compile");
    let read = read_source(&queries, source.as_bytes().to_vec()).expect("source parses");
    let t = &read.tree;
    assert_eq!(t.nodes[0].kind_name, "compilation_unit");
    assert!(t.nodes[0].parent.is_none());
    assert_eq!((t.nodes[0].start, t.nodes[0].end), (0, source.len()));
    for (i, n) in t.nodes.iter().enumerate() {
        for &c in &n.children {
            assert_eq!(t.nodes[c].parent, Some(i));
            assert!(c > i);
        }
        for &c in &n.named_children {
            assert!(n.children.contains(&c));
        }
    }
    let text = |k: usize| &source[t.nodes[k].start..t.nodes[k].end];
    let q = t
        .nodes
        .iter()
        .position(|n| n.kind == NodeKind::QualifiedName && &source[n.start..n.end] == "D.E")
        .expect("qualified name");
    assert_eq!(text(t.nodes[q].qualifier.expect("qualifier")), "D");
    assert_eq!(text(t.nodes[q].name.expect("name")), "E");
    let class = t.nodes.iter().position(|n| n.kind_name == "class_declaration").expect("class");
    assert_eq!(text(t.nodes[class].name.expect("class name")), "C");
    assert!(t.nodes[class].children.len() > t.nodes[class].named_children.len());
}

#[test]
fn holders_are_the_types_that_name_a_type() {
    // 0: identifier; 1: name (subtypes identifier); 2: member (field of type name, child identifier); 3: block (child member)
    let types = vec![
        NodeTypeInfo { subtypes: vec![], field_types: vec![], children_types: vec![] },
        NodeTypeInfo { subtypes: vec![0], field_types: vec![], children_types: vec![] },
        NodeTypeInfo { subtypes: vec![], field_types: vec![1, 1], children_types: vec![0] },
        NodeTypeInfo { subtypes: vec![], field_types: vec![], children_types: vec![2] },
    ];
    let holders = holder_lists(&types);
    assert_eq!(holders, vec![vec![1, 2], vec![2], vec![3], vec![]]);
    let stop = vec![false, false, false, true];
    let mut paths = back_paths(&holders, &stop, &vec![0], 10);
    paths.sort();
    assert_eq!(paths, vec![vec![0, 1, 2, 3], vec![0, 2, 3]]);
}
