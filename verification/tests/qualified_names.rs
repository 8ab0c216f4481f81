use unity_asset_graph::qualified_name::{
    ends_with, generic_args_count_from_str, trim_end, NamePartRef, QualifiedNameOwned,
    QualifiedNamePart, QualifiedNameRef, QualifiedNameSearchTree, NamePart,
};

fn leaf<'a>() -> QualifiedNameSearchTree<'a> {
    QualifiedNameSearchTree::new()
}

#[test]
fn generic_args_count() {
    assert_eq!(generic_args_count_from_str("Test"), 0);
    assert_eq!(generic_args_count_from_str("Test<T>"), 1);
    assert_eq!(generic_args_count_from_str("Test<T,U>"), 2);
    assert_eq!(generic_args_count_from_str("Test<T<U,V>>"), 1);
}

#[test]
fn insert() {
    let mut tree = QualifiedNameSearchTree::new();
    assert!(tree.insert(QualifiedNameRef::from("A.B.C")));
    assert!(tree.insert(QualifiedNameRef::from("A.B.Z")));
    assert!(tree.insert(QualifiedNameRef::from("A.X")));

    let b = leaf()
        .with_child(NamePartRef::from("C"), leaf())
        .with_child(NamePartRef::from("Z"), leaf());
    let a = leaf()
        .with_child(NamePartRef::from("B"), b)
        .with_child(NamePartRef::from("X"), leaf());
    let expected = leaf().with_child(NamePartRef::from("A"), a);
    assert!(tree.same_names(&expected));
}

#[test]
fn remove() {
    let mut tree = QualifiedNameSearchTree::from_iter(vec![
        QualifiedNameRef::from("A.B.C"),
        QualifiedNameRef::from("A.B.Z"),
        QualifiedNameRef::from("A.X"),
    ]);
    assert!(!tree.remove(&QualifiedNameRef::from("Z")));
    assert!(!tree.remove(&QualifiedNameRef::from("A.Z")));
    assert!(!tree.remove(&QualifiedNameRef::from("A")));

    assert!(tree.remove(&QualifiedNameRef::from("A.B.C")));
    let b = leaf().with_child(NamePartRef::from("Z"), leaf());
    let a = leaf()
        .with_child(NamePartRef::from("B"), b)
        .with_child(NamePartRef::from("X"), leaf());
    let expected = leaf().with_child(NamePartRef::from("A"), a);
    assert!(tree.same_names(&expected));

    assert!(tree.remove(&QualifiedNameRef::from("A.B.Z")));
    let a = leaf().with_child(NamePartRef::from("X"), leaf());
    let expected = leaf().with_child(NamePartRef::from("A"), a);
    assert!(tree.same_names(&expected));
}

#[test]
fn removing_an_absent_longer_name_keeps_the_tree() {
    let mut tree = QualifiedNameSearchTree::from_iter(vec![QualifiedNameRef::from("A.X")]);
    assert!(!tree.remove(&QualifiedNameRef::from("A.X.Y")));
    assert!(tree.contains(&QualifiedNameRef::from("A.X")));
    let expected = leaf().with_child(NamePartRef::from("A"), leaf().with_child(NamePartRef::from("X"), leaf()));
    assert!(tree.same_names(&expected));
}

#[test]
fn contains() {
    let tree = QualifiedNameSearchTree::from_iter(vec![
        QualifiedNameRef::from("A.B.C"),
        QualifiedNameRef::from("A.B.Z"),
        QualifiedNameRef::from("A.X"),
    ]);
    assert!(!tree.contains(&QualifiedNameRef::from("A.B")));
    assert!(tree.contains(&QualifiedNameRef::from("A.B.C")));
}

#[test]
fn trimming_undoes_joining() {
    let start = QualifiedNameOwned::from("g::Lib.Ui");
    let end = QualifiedNameOwned::from("Widget<T>");
    let mut joined = QualifiedNameOwned::concat(start.clone(), end.clone());
    assert!(ends_with(&joined, &end));
    trim_end(&mut joined, &end);
    assert!(joined.same(&start));
    assert!(QualifiedNameOwned::try_concat(start, QualifiedNameOwned::from("a::B")).is_err());
}

fn spelled_part<P: QualifiedNamePart>(part: &P) -> String {
    format!("{}/{}", QualifiedNamePart::name(part), QualifiedNamePart::generics(part))
}

#[test]
fn both_part_forms_read_alike() {
    let borrowed = NamePartRef::from("List<T,U>");
    let owned = NamePart::from("List<T,U>");
    assert_eq!(spelled_part(&borrowed), "List/2");
    assert_eq!(spelled_part(&owned), "List/2");
}

#[test]
fn remove_undoes_insert_on_the_empty_tree() {
    let mut tree = QualifiedNameSearchTree::new();
    assert!(tree.insert(QualifiedNameRef::from("A.B")));
    assert!(tree.remove(&QualifiedNameRef::from("A.B")));
    assert!(tree.same_names(&leaf()));
}

#[test]
fn get_reaches_prefixes_of_inserted_names() {
    let mut tree = QualifiedNameSearchTree::new();
    assert!(tree.get(&QualifiedNameRef::from("A")).is_none());
    assert!(tree.insert(QualifiedNameRef::from("A.B.C")));
    assert!(tree.get(&QualifiedNameRef::from("A")).is_some());
    assert!(tree.get(&QualifiedNameRef::from("A.B")).is_some());
    assert!(tree.get(&QualifiedNameRef::from("A.B.C")).is_some());
    assert!(tree.get(&QualifiedNameRef::from("A.C")).is_none());
    assert!(tree.get(&QualifiedNameRef::from("A.B.C.D")).is_none());
}

#[test]
fn get_of_a_joined_name_goes_through_the_subtree() {
    let tree = QualifiedNameSearchTree::from_iter(vec![
        QualifiedNameRef::from("A.B.C"),
        QualifiedNameRef::from("A.B.Z"),
        QualifiedNameRef::from("A.X"),
    ]);
    let whole = tree.get(&QualifiedNameRef::from("A.B")).expect("A.B");
    let step = tree
        .get(&QualifiedNameRef::from("A"))
        .and_then(|t| t.get(&QualifiedNameRef::from("B")))
        .expect("A then B");
    assert!(whole.same_names(step));
    assert!(step.contains(&QualifiedNameRef::from("Z")));
}
