use std::collections::BTreeMap;
use unity_asset_graph::csharp::{read_source, structure_fits, CsQueries, SourceRead};
use unity_asset_graph::structure::CaptureIds;
use unity_asset_graph::find_types::find_types;
use unity_asset_graph::id::Id;
use unity_asset_graph::qualified_name::QualifiedNameOwned;
use unity_asset_graph::structure::{evaluate_structure, StructureInfo};
use unity_asset_graph::type_broker::TypeBroker;

const NS_TEST_CODE: &str = "namespace L0;
using Ns0;
using ns0a = Ns0.InnerNs;
using static Ns0.InnerType;

namespace L1
{
    using Ns1;
    using ns1a = Ns1.InnerNs;
    using static Ns1.InnerType;

    namespace L2
    {
        using Ns2;
        using ns2a = Ns2.InnerNs;
        using static Ns2.InnerType;

        class Class2 : L3.Class3 { }
    }

    namespace L3
    {
        class Class3 { }
    }
}
";

const TYPE_TEST_CODE: &str = "namespace Ns0;

public enum Enum0
{
    A,
}

namespace Ns1
{
    using ns3a = Ns3;

    namespace Ns2
    {
        public record Record2 { }
    }

    public struct Struct1<T>
    {
        public T Value;
    }

    public class Class1
    {
        public class ChildClass { }

        public ChildClass ChildClassField;

        public Struct1<ns3a::INterface3> SiblingStructProperty { get; set; }

        public Enum0[] ParentEnumArray;

        public Ns2.Record2 NieceRecordField;
    }
}

namespace Ns3
{
    public interface INterface3 { }
}
";

const VAR_TEST_CODE: &str = "using X = Ns1.Class2;

namespace Ns0
{
    using Y = Ns1.Class3;
    using System.Text;

    public delegate X Delegate1(X first, Y second);

    public class Class1
    {
        public X Field;

        public Y Property { get; set; }

        public event Delegate1 Delegate;

        internal void Repeat(int count)
        {
            X x = Delegate?.Invoke(Field, Property);
            using (var test = FakeClass.Create());
            using (StringBuilder sb = Ns.Main.StringBuilderCache.Acquire())
            {
                for (int i = 0; i < count; i++)
                {
                    sb.Append(x);
                }
                return sb.ToString();
            }
        }
    }
}

namespace Ns1
{
    public class Class2 { }
    public class Class3 { }
}
";

fn read(code: &str) -> (CsQueries, SourceRead) {
    let queries = CsQueries::new().expect("queries compile");
    let read = read_source(&queries, code.as_bytes().to_vec()).expect("source parses");
    assert!(structure_fits(&read.tree, &read.matches, queries.ids));
    (queries, read)
}

fn structure(code: &str) -> (SourceRead, StructureInfo) {
    let (queries, read) = read(code);
    let info = evaluate_structure(&read.tree, &read.matches, queries.ids).expect("Evaluation failed");
    (read, info)
}

/// The node of kind `kind` that starts at `row`, `col` (both from zero).
fn at(read: &SourceRead, code: &str, kind: &str, row: usize, col: usize) -> usize {
    let offset: usize = code.split('\n').take(row).map(|l| l.len() + 1).sum::<usize>() + col;
    read.tree
        .nodes
        .iter()
        .position(|n| n.kind_name == kind && n.start == offset)
        .unwrap_or_else(|| panic!("no {kind} at {row}:{col}"))
}

fn text(n: &QualifiedNameOwned) -> String {
    n.to_text()
}

fn sets(v: &[Vec<QualifiedNameOwned>]) -> BTreeMap<usize, Vec<String>> {
    let mut out = BTreeMap::new();
    for (i, names) in v.iter().enumerate() {
        if !names.is_empty() {
            let mut t: Vec<String> = names.iter().map(text).collect();
            t.sort();
            t.dedup();
            out.insert(i, t);
        }
    }
    out
}

fn singles(v: &[Option<QualifiedNameOwned>]) -> BTreeMap<usize, String> {
    v.iter().enumerate().filter_map(|(i, n)| n.as_ref().map(|n| (i, text(n)))).collect()
}

fn pairs(v: &[Vec<(QualifiedNameOwned, QualifiedNameOwned)>]) -> BTreeMap<usize, Vec<(String, String)>> {
    let mut out = BTreeMap::new();
    for (i, names) in v.iter().enumerate() {
        if !names.is_empty() {
            let mut t: Vec<(String, String)> = names.iter().map(|(a, b)| (text(a), text(b))).collect();
            t.sort();
            t.dedup();
            out.insert(i, t);
        }
    }
    out
}

fn expect_sets(entries: Vec<(usize, Vec<&str>)>) -> BTreeMap<usize, Vec<String>> {
    entries
        .into_iter()
        .map(|(i, names)| {
            let mut t: Vec<String> = names.into_iter().map(|n| text(&QualifiedNameOwned::from(n))).collect();
            t.sort();
            (i, t)
        })
        .collect()
}

fn expect_singles(entries: Vec<(usize, &str)>) -> BTreeMap<usize, String> {
    entries.into_iter().map(|(i, n)| (i, text(&QualifiedNameOwned::from(n)))).collect()
}

fn expect_pairs(entries: Vec<(usize, Vec<(&str, &str)>)>) -> BTreeMap<usize, Vec<(String, String)>> {
    entries
        .into_iter()
        .map(|(i, names)| {
            let mut t: Vec<(String, String)> = names
                .into_iter()
                .map(|(a, b)| (text(&QualifiedNameOwned::from(a)), text(&QualifiedNameOwned::from(b))))
                .collect();
            t.sort();
            (i, t)
        })
        .collect()
}

#[test]
fn evaluate_structure_ns() {
    let code = NS_TEST_CODE;
    let (r, info) = structure(code);
    let node = |kind: &str, row: usize, col: usize| at(&r, code, kind, row, col);
    let root = node("compilation_unit", 0, 0);

    assert!(info.fsns_decl.as_ref().expect("file-scoped namespace").same(&QualifiedNameOwned::from("L0")));

    assert_eq!(sets(&info.ns_decl_names), expect_sets(vec![
        (root, vec!["L1"]),
        (node("declaration_list", 6, 0), vec!["L2", "L3"]),
    ]));
    assert_eq!(singles(&info.ns_decl_nodes), expect_singles(vec![
        (node("namespace_declaration", 5, 0), "L1"),
        (node("namespace_declaration", 11, 4), "L2"),
        (node("namespace_declaration", 20, 4), "L3"),
    ]));
    assert_eq!(sets(&info.ns_usages), expect_sets(vec![
        (root, vec!["Ns0"]),
        (node("declaration_list", 6, 0), vec!["Ns1"]),
        (node("declaration_list", 12, 4), vec!["Ns2"]),
    ]));
    assert_eq!(pairs(&info.aliases), expect_pairs(vec![
        (root, vec![("InnerType", "Ns0"), ("ns0a", "Ns0.InnerNs")]),
        (node("declaration_list", 6, 0), vec![("InnerType", "Ns1"), ("ns1a", "Ns1.InnerNs")]),
        (node("declaration_list", 12, 4), vec![("InnerType", "Ns2"), ("ns2a", "Ns2.InnerNs")]),
    ]));
    assert_eq!(sets(&info.type_decl_names), expect_sets(vec![
        (node("declaration_list", 12, 4), vec!["Class2"]),
        (node("declaration_list", 21, 4), vec!["Class3"]),
    ]));
    assert_eq!(singles(&info.type_decl_nodes), expect_singles(vec![
        (node("class_declaration", 17, 8), "Class2"),
        (node("class_declaration", 22, 8), "Class3"),
    ]));
    assert_eq!(singles(&info.type_usages), expect_singles(vec![
        (node("qualified_name", 17, 23), "L3.Class3"),
    ]));
    assert!(sets(&info.var_decl).is_empty());
    assert!(singles(&info.var_usages).is_empty());
}

#[test]
fn evaluate_structure_type() {
    let code = TYPE_TEST_CODE;
    let (r, info) = structure(code);
    let node = |kind: &str, row: usize, col: usize| at(&r, code, kind, row, col);
    let root = node("compilation_unit", 0, 0);
    let ns1 = node("declaration_list", 8, 0);

    assert!(info.fsns_decl.as_ref().expect("file-scoped namespace").same(&QualifiedNameOwned::from("Ns0")));

    assert_eq!(pairs(&info.aliases), expect_pairs(vec![(ns1, vec![("ns3a", "Ns3")])]));

    assert_eq!(sets(&info.ns_decl_names), expect_sets(vec![
        (root, vec!["Ns1", "Ns3"]),
        (ns1, vec!["Ns2"]),
    ]));
    assert_eq!(singles(&info.ns_decl_nodes), expect_singles(vec![
        (node("namespace_declaration", 7, 0), "Ns1"),
        (node("namespace_declaration", 11, 4), "Ns2"),
        (node("namespace_declaration", 35, 0), "Ns3"),
    ]));

    assert_eq!(sets(&info.type_decl_names), expect_sets(vec![
        (root, vec!["Enum0"]),
        (ns1, vec!["Struct1<T>", "Class1"]),
        (node("declaration_list", 12, 4), vec!["Record2"]),
        (node("struct_declaration", 16, 4), vec!["T"]),
        (node("declaration_list", 22, 4), vec!["ChildClass"]),
        (node("declaration_list", 36, 0), vec!["INterface3"]),
    ]));
    assert_eq!(singles(&info.type_decl_nodes), expect_singles(vec![
        (node("enum_declaration", 2, 0), "Enum0"),
        (node("record_declaration", 13, 8), "Record2"),
        (node("struct_declaration", 16, 4), "Struct1<T>"),
        (node("type_parameter", 16, 26), "T"),
        (node("class_declaration", 21, 4), "Class1"),
        (node("class_declaration", 23, 8), "ChildClass"),
        (node("interface_declaration", 37, 4), "INterface3"),
    ]));

    assert_eq!(singles(&info.type_usages), expect_singles(vec![
        (node("identifier", 18, 15), "T"),
        (node("identifier", 25, 15), "ChildClass"),
        (node("generic_name", 27, 15), "Struct1<ns3a::INterface3>"),
        (node("alias_qualified_name", 27, 23), "ns3a::INterface3"),
        (node("identifier", 29, 15), "Enum0"),
        (node("qualified_name", 31, 15), "Ns2.Record2"),
    ]));

    assert_eq!(sets(&info.var_decl), expect_sets(vec![
        (node("declaration_list", 17, 4), vec!["Value"]),
        (node("declaration_list", 22, 4), vec![
            "ChildClassField",
            "SiblingStructProperty",
            "ParentEnumArray",
            "NieceRecordField",
        ]),
    ]));

    assert!(sets(&info.ns_usages).is_empty());
    assert!(singles(&info.var_usages).is_empty());
}

#[test]
fn evaluate_structure_var() {
    let code = VAR_TEST_CODE;
    let (r, info) = structure(code);
    let node = |kind: &str, row: usize, col: usize| at(&r, code, kind, row, col);
    let root = node("compilation_unit", 0, 0);

    assert_eq!(pairs(&info.aliases), expect_pairs(vec![
        (root, vec![("X", "Ns1.Class2")]),
        (node("declaration_list", 3, 0), vec![("Y", "Ns1.Class3")]),
    ]));

    assert_eq!(sets(&info.ns_decl_names), expect_sets(vec![(root, vec!["Ns0", "Ns1"])]));
    assert_eq!(singles(&info.ns_decl_nodes), expect_singles(vec![
        (node("namespace_declaration", 2, 0), "Ns0"),
        (node("namespace_declaration", 33, 0), "Ns1"),
    ]));

    assert_eq!(sets(&info.ns_usages), expect_sets(vec![
        (node("declaration_list", 3, 0), vec!["System.Text"]),
    ]));

    assert_eq!(sets(&info.type_decl_names), expect_sets(vec![
        (node("declaration_list", 3, 0), vec!["Delegate1", "Class1"]),
        (node("declaration_list", 34, 0), vec!["Class2", "Class3"]),
    ]));
    assert_eq!(singles(&info.type_decl_nodes), expect_singles(vec![
        (node("delegate_declaration", 7, 4), "Delegate1"),
        (node("class_declaration", 9, 4), "Class1"),
        (node("class_declaration", 35, 4), "Class2"),
        (node("class_declaration", 36, 4), "Class3"),
    ]));

    assert_eq!(singles(&info.type_usages), expect_singles(vec![
        (node("identifier", 7, 20), "X"),
        (node("identifier", 7, 32), "X"),
        (node("identifier", 7, 41), "Y"),
        (node("identifier", 11, 15), "X"),
        (node("identifier", 13, 15), "Y"),
        (node("identifier", 15, 21), "Delegate1"),
        (node("identifier", 19, 12), "X"),
        (node("identifier", 21, 19), "StringBuilder"),
    ]));

    assert_eq!(sets(&info.var_decl), expect_sets(vec![
        (node("declaration_list", 10, 4), vec!["Field", "Property", "Delegate", "Repeat"]),
        (node("method_declaration", 17, 8), vec!["count"]),
        (node("block", 18, 8), vec!["x", "test"]),
        (node("using_statement", 20, 12), vec!["test"]),
        (node("using_statement", 21, 12), vec!["sb"]),
        (node("for_statement", 23, 16), vec!["i"]),
    ]));

    assert_eq!(singles(&info.var_usages), expect_singles(vec![
        (node("identifier", 19, 18), "Delegate"),
        (node("identifier", 19, 35), "Field"),
        (node("identifier", 19, 42), "Property"),
        (node("identifier", 20, 30), "FakeClass"),
        (node("identifier", 21, 38), "Ns.Main.StringBuilderCache"),
        (node("identifier", 23, 32), "i"),
        (node("identifier", 23, 36), "count"),
        (node("identifier", 23, 43), "i"),
        (node("identifier", 25, 20), "sb"),
        (node("identifier", 25, 30), "x"),
        (node("identifier", 27, 23), "sb"),
    ]));

    assert!(info.fsns_decl.is_none());
}

#[test]
fn type_usages_ns() {
    let (queries, read) = read(NS_TEST_CODE);
    let mut broker = TypeBroker::new();
    find_types(&read.tree, &read.matches, queries.ids, &Id::Guid(1), &mut broker).expect("types");
    let requests = broker.requests();
    assert_eq!(requests.len(), 1);
    let r = &requests[0];
    assert!(r.requester.same(&Id::CsType(QualifiedNameOwned::from("L0.L1.L2.Class2"))));
    assert!(r.partial_name.same(&QualifiedNameOwned::from("L3.Class3")));
    assert!(r.scoped_namespaces.is_empty());
}

#[test]
fn qualified_uses_are_not_looked_up_in_imported_namespaces() {
    let code = "using Lib;\nnamespace N\n{\n    class A : B { }\n    class C : Sub.D { }\n}\n";
    let (queries, read) = read(code);
    let mut broker = TypeBroker::new();
    find_types(&read.tree, &read.matches, queries.ids, &Id::Guid(2), &mut broker).expect("types");
    let requests = broker.requests();
    assert_eq!(requests.len(), 2);
    let plain = requests.iter().find(|r| r.partial_name.same(&QualifiedNameOwned::from("B"))).expect("B");
    assert!(plain.requester.same(&Id::CsType(QualifiedNameOwned::from("N.A"))));
    let scoped: Vec<String> = plain.scoped_namespaces.iter().map(text).collect();
    assert_eq!(scoped, vec!["Lib".to_string()]);
    let qualified = requests.iter().find(|r| r.partial_name.same(&QualifiedNameOwned::from("Sub.D"))).expect("Sub.D");
    assert!(qualified.requester.same(&Id::CsType(QualifiedNameOwned::from("N.C"))));
    assert!(qualified.scoped_namespaces.is_empty());
}

type CaptureAt = (String, String, usize, usize);

fn capture_names(ids: CaptureIds) -> Vec<(&'static str, u32)> {
    vec![
        ("ns_decl", ids.ns_decl),
        ("ns_use", ids.ns_use),
        ("type_decl", ids.type_decl),
        ("type_use", ids.type_use),
        ("var_decl", ids.var_decl),
        ("var_use", ids.var_use),
        ("id", ids.id),
        ("alias", ids.alias),
        ("generics", ids.generics),
    ]
}

/// The row and column (from zero) of byte `offset` of `code`.
fn row_col(code: &str, offset: usize) -> (usize, usize) {
    let before = &code[..offset];
    let row = before.matches('\n').count();
    let col = offset - before.rfind('\n').map(|i| i + 1).unwrap_or(0);
    (row, col)
}

/// The matches of the structure query over `code` that capture `main`, each as its captures'
/// names, node kinds and positions, sorted.
fn matches_capturing(code: &str, main: &str) -> Vec<Vec<CaptureAt>> {
    let (queries, read) = read(code);
    let names = capture_names(queries.ids);
    let name_of = |index: u32| names.iter().find(|(_, i)| *i == index).map(|(n, _)| n.to_string()).unwrap_or_default();
    let mut out: Vec<Vec<CaptureAt>> = read
        .matches
        .iter()
        .filter(|m| m.captures.iter().any(|c| name_of(c.index) == main))
        .map(|m| {
            let mut caps: Vec<CaptureAt> = m
                .captures
                .iter()
                .map(|c| {
                    let node = &read.tree.nodes[c.node];
                    let (row, col) = row_col(code, node.start);
                    (name_of(c.index), node.kind_name.clone(), row, col)
                })
                .collect();
            caps.sort();
            caps
        })
        .collect();
    out.sort();
    out
}

fn expect_matches(v: Vec<Vec<(&str, &str, usize, usize)>>) -> Vec<Vec<CaptureAt>> {
    let mut out: Vec<Vec<CaptureAt>> = v
        .into_iter()
        .map(|m| {
            let mut caps: Vec<CaptureAt> =
                m.into_iter().map(|(n, k, r, c)| (n.to_string(), k.to_string(), r, c)).collect();
            caps.sort();
            caps
        })
        .collect();
    out.sort();
    out
}

#[test]
fn ns_decl() {
    assert_eq!(matches_capturing(NS_TEST_CODE, "ns_decl"), expect_matches(vec![
        vec![("ns_decl", "compilation_unit", 0, 0), ("id", "identifier", 0, 10)],
        vec![("ns_decl", "compilation_unit", 0, 0), ("id", "identifier", 5, 10)],
        vec![("ns_decl", "declaration_list", 6, 0), ("id", "identifier", 11, 14)],
        vec![("ns_decl", "declaration_list", 6, 0), ("id", "identifier", 20, 14)],
    ]));
}

#[test]
fn ns_usage() {
    assert_eq!(matches_capturing(NS_TEST_CODE, "ns_use"), expect_matches(vec![
        vec![("ns_use", "compilation_unit", 0, 0), ("id", "identifier", 1, 6)],
        vec![("ns_use", "compilation_unit", 0, 0), ("alias", "identifier", 2, 6), ("id", "qualified_name", 2, 13)],
        vec![("ns_use", "compilation_unit", 0, 0), ("id", "qualified_name", 3, 13)],
        vec![("ns_use", "declaration_list", 6, 0), ("id", "identifier", 7, 10)],
        vec![("ns_use", "declaration_list", 6, 0), ("alias", "identifier", 8, 10), ("id", "qualified_name", 8, 17)],
        vec![("ns_use", "declaration_list", 6, 0), ("id", "qualified_name", 9, 17)],
        vec![("ns_use", "declaration_list", 12, 4), ("id", "identifier", 13, 14)],
        vec![("ns_use", "declaration_list", 12, 4), ("alias", "identifier", 14, 14), ("id", "qualified_name", 14, 21)],
        vec![("ns_use", "declaration_list", 12, 4), ("id", "qualified_name", 15, 21)],
    ]));
}

#[test]
fn type_decl() {
    assert_eq!(matches_capturing(TYPE_TEST_CODE, "type_decl"), expect_matches(vec![
        vec![("type_decl", "compilation_unit", 0, 0), ("id", "identifier", 2, 12)],
        vec![("type_decl", "declaration_list", 12, 4), ("id", "identifier", 13, 22)],
        vec![
            ("type_decl", "declaration_list", 8, 0),
            ("id", "identifier", 16, 18),
            ("generics", "type_parameter_list", 16, 25),
        ],
        vec![("type_decl", "struct_declaration", 16, 4), ("id", "identifier", 16, 26)],
        vec![("type_decl", "declaration_list", 8, 0), ("id", "identifier", 21, 17)],
        vec![("type_decl", "declaration_list", 22, 4), ("id", "identifier", 23, 21)],
        vec![("type_decl", "declaration_list", 36, 0), ("id", "identifier", 37, 21)],
    ]));
}

#[test]
fn type_usage() {
    assert_eq!(matches_capturing(TYPE_TEST_CODE, "type_use"), expect_matches(vec![
        vec![("type_use", "identifier", 9, 17)],
        vec![("type_use", "identifier", 18, 15)],
        vec![("type_use", "identifier", 25, 15)],
        vec![("type_use", "generic_name", 27, 15)],
        vec![("type_use", "alias_qualified_name", 27, 23)],
        vec![("type_use", "identifier", 29, 15)],
        vec![("type_use", "qualified_name", 31, 15)],
    ]));
}

#[test]
fn var_decl() {
    assert_eq!(matches_capturing(VAR_TEST_CODE, "var_decl"), expect_matches(vec![
        vec![("var_decl", "declaration_list", 10, 4), ("id", "identifier", 11, 17)],
        vec![("var_decl", "declaration_list", 10, 4), ("id", "identifier", 13, 17)],
        vec![("var_decl", "declaration_list", 10, 4), ("id", "identifier", 15, 31)],
        vec![("var_decl", "declaration_list", 10, 4), ("id", "identifier", 17, 22)],
        vec![("var_decl", "method_declaration", 17, 8), ("id", "identifier", 17, 33)],
        vec![("var_decl", "block", 18, 8), ("id", "identifier", 19, 14)],
        vec![("var_decl", "block", 18, 8), ("id", "identifier", 20, 23)],
        vec![("var_decl", "using_statement", 20, 12), ("id", "identifier", 20, 23)],
        vec![("var_decl", "using_statement", 21, 12), ("id", "identifier", 21, 33)],
        vec![("var_decl", "for_statement", 23, 16), ("id", "identifier", 23, 25)],
    ]));
}

#[test]
fn var_usage() {
    assert_eq!(matches_capturing(VAR_TEST_CODE, "var_use"), expect_matches(vec![
        vec![("var_use", "identifier", 19, 18)],
        vec![("var_use", "identifier", 19, 35)],
        vec![("var_use", "identifier", 19, 42)],
        vec![("var_use", "identifier", 20, 30)],
        vec![("var_use", "identifier", 21, 38)],
        vec![("var_use", "identifier", 23, 32)],
        vec![("var_use", "identifier", 23, 36)],
        vec![("var_use", "identifier", 23, 43)],
        vec![("var_use", "identifier", 25, 20)],
        vec![("var_use", "identifier", 25, 30)],
        vec![("var_use", "identifier", 27, 23)],
    ]));
}
