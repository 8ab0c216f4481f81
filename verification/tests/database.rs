use unity_asset_graph::asset::{Asset, Relation, RelationKind};
use unity_asset_graph::asset_type::AssetType;
use unity_asset_graph::database::{Database, FollowAction};
use unity_asset_graph::project::NameSet;
use unity_asset_graph::display::{decimal_text, sort_texts, text_less};
use unity_asset_graph::qualified_name::QualifiedNameOwned;
use unity_asset_graph::filter::AssetFilter;
use unity_asset_graph::id::Id;
use unity_asset_graph::query::OrphanFilter;

fn guid(n: u128) -> Id {
    Id::Guid(n)
}

fn asset(id: Id, path: Option<&str>, relations: Vec<Relation>) -> Asset {
    Asset::new(id, AssetType::Unknown, path.map(|p| p.to_string()), relations)
}

fn position(db: &Database, id: &Id) -> usize {
    db.find(id).expect("asset is present")
}

/// A folder (1) holding a prefab (2) that uses a texture (3) elsewhere and a missing asset (9);
/// a second folder (4) holds the texture.
fn sample() -> Database {
    let mut db = Database::new(None);
    db.insert_asset(asset(guid(1), Some("Assets/Folder"), vec![]));
    db.insert_asset(asset(
        guid(2),
        Some("Assets/Folder/thing.prefab"),
        vec![
            Relation::ContainedBy(guid(1)),
            Relation::Uses(guid(3)),
            Relation::Uses(guid(9)),
        ],
    ));
    db.insert_asset(asset(guid(3), None, vec![Relation::ContainedBy(guid(4))]));
    db.insert_asset(asset(guid(4), Some("Assets/Other"), vec![]));
    db
}

#[test]
fn asset_filter() {
    let filter = AssetFilter::try_from("abcd").unwrap();
    assert!(filter.matches("abcdefg"));
    assert!(!filter.matches("cdefg"));

    let filter = AssetFilter::try_from("~abcd").unwrap();
    assert!(!filter.matches("abcdefg"));
    assert!(filter.matches("cdefg"));
}

#[test]
fn asset_filter_rejects_bad_pattern() {
    assert!(AssetFilter::try_from("(abc").is_err());
    assert!(AssetFilter::try_from("~[").is_err());
    assert_eq!(AssetFilter::try_from("~ab").unwrap().label(), "~ab");
    assert_eq!(AssetFilter::try_from("ab").unwrap().label(), "ab");
}

#[test]
fn insert_asset_replaces_same_id() {
    let mut db = Database::new(None);
    assert!(db.insert_asset(asset(guid(1), Some("a"), vec![])).is_none());
    let previous = db.insert_asset(asset(guid(1), Some("b"), vec![])).expect("replaced");
    assert_eq!(previous.path.as_deref(), Some("a"));
    assert_eq!(db.assets().len(), 1);
    assert_eq!(db.assets()[0].path.as_deref(), Some("b"));
}

#[test]
fn asset_new_keeps_each_relation_once() {
    let a = asset(guid(1), None, vec![Relation::Uses(guid(2)), Relation::Uses(guid(2))]);
    assert_eq!(a.relations.len(), 1);
    assert!(a.back_relations.is_empty());
}

#[test]
fn reverse_dependencies_are_mirrored() {
    let mut db = sample();
    db.populate_reverse_dependencies();
    // the missing asset became a broken reference after the others
    assert_eq!(db.assets().len(), 5);
    let broken = &db.assets()[4];
    assert!(broken.id.same(&guid(9)));
    assert_eq!(broken.asset_type, AssetType::BrokenRef);
    assert!(broken.path.is_none());
    assert!(broken.relations.is_empty());
    assert_eq!(broken.back_relations.len(), 1);
    assert!(broken.back_relations[0].same(&Relation::UsedBy(guid(2))));

    let folder = &db.assets()[position(&db, &guid(1))];
    assert_eq!(folder.back_relations.len(), 1);
    assert!(folder.back_relations[0].same(&Relation::Contains(guid(2))));

    let texture = &db.assets()[position(&db, &guid(3))];
    assert_eq!(texture.back_relations.len(), 1);
    assert!(texture.back_relations[0].same(&Relation::UsedBy(guid(2))));

    // running it again changes nothing
    db.populate_reverse_dependencies();
    assert_eq!(db.assets().len(), 5);
    assert_eq!(db.assets()[position(&db, &guid(3))].back_relations.len(), 1);
}

#[test]
fn self_relations_are_not_mirrored() {
    let mut db = Database::new(None);
    db.insert_asset(asset(guid(1), None, vec![Relation::Uses(guid(1))]));
    db.populate_reverse_dependencies();
    assert_eq!(db.assets().len(), 1);
    assert!(db.assets()[0].back_relations.is_empty());
}

#[test]
fn invert_relation_points_back() {
    let a = asset(guid(5), None, vec![]);
    assert!(a.invert_relation(&Relation::Uses(guid(6))).same(&Relation::UsedBy(guid(5))));
    assert!(a.invert_relation(&Relation::ContainedBy(guid(6))).same(&Relation::Contains(guid(5))));
    assert!(Relation::Uses(guid(6)).matches_type(&Relation::Uses(guid(7))).is_some());
    assert!(Relation::Uses(guid(6)).matches_type(&Relation::UsedBy(guid(7))).is_none());
    assert_eq!(Relation::ContainedBy(guid(1)).label(), "Contained By");
    assert_eq!(Relation::Contains(guid(1)).kind(), RelationKind::Contains);
}

#[test]
fn path_comes_from_nearest_container() {
    let mut db = sample();
    db.populate_reverse_dependencies();
    let texture = position(&db, &guid(3));
    assert_eq!(db.asset_path(texture).map(|s| s.as_str()), Some("Assets/Other"));
    let prefab = position(&db, &guid(2));
    assert_eq!(db.asset_path(prefab).map(|s| s.as_str()), Some("Assets/Folder/thing.prefab"));
    let broken = position(&db, &guid(9));
    assert_eq!(db.asset_path(broken), None);
}

#[test]
fn find_all_follows_containment() {
    let mut db = sample();
    db.populate_reverse_dependencies();
    let folder = position(&db, &guid(1));
    let mut inside = db.find_all(&vec![folder]);
    inside.sort();
    let mut expected = vec![folder, position(&db, &guid(2))];
    expected.sort();
    assert_eq!(inside, expected);
}

#[test]
fn outside_refs_of_folder() {
    let mut db = sample();
    db.populate_reverse_dependencies();
    let folder = position(&db, &guid(1));
    let inside = db.find_all(&vec![folder]);
    let outside = db.find_outside_refs(&inside, &vec![], &vec![]);
    let mut expected = vec![position(&db, &guid(3)), position(&db, &guid(9))];
    expected.sort();
    assert_eq!(outside, expected);

    let only_other = vec![AssetFilter::try_from("Other").unwrap()];
    let outside = db.find_outside_refs(&inside, &vec![], &only_other);
    assert_eq!(outside, vec![position(&db, &guid(3))]);
}

#[test]
fn find_by_id_and_path() {
    let mut db = sample();
    db.populate_reverse_dependencies();
    let filter = AssetFilter::try_from("00000003$").unwrap();
    assert_eq!(db.find_assets_by_id(&filter), vec![position(&db, &guid(3))]);
    let filter = AssetFilter::try_from("thing").unwrap();
    assert_eq!(db.find_assets_by_path(&filter), vec![position(&db, &guid(2))]);
    let filter = AssetFilter::try_from("~Folder").unwrap();
    let mut expected = vec![position(&db, &guid(3)), position(&db, &guid(4))];
    expected.sort();
    assert_eq!(db.find_assets_by_path(&filter), expected);
    let ids = vec![AssetFilter::try_from("00000004$").unwrap()];
    let paths = vec![AssetFilter::try_from("thing").unwrap()];
    let mut expected = vec![position(&db, &guid(2)), position(&db, &guid(4))];
    expected.sort();
    assert_eq!(db.select(&ids, &paths), expected);
}

#[test]
fn unused_and_broken() {
    let mut db = sample();
    db.insert_asset(asset(Id::Loc("key".to_string()), None, vec![]));
    db.populate_reverse_dependencies();
    let unused = db.find_unused(None);
    let mut expected = vec![
        position(&db, &guid(1)),
        position(&db, &guid(2)),
        position(&db, &guid(4)),
        position(&db, &Id::Loc("key".to_string())),
    ];
    expected.sort();
    assert_eq!(unused, expected);
    assert_eq!(db.count_kinds(&unused), (3, 1, 0));
    assert_eq!(
        db.find_unused(Some(OrphanFilter::Loc)),
        vec![position(&db, &Id::Loc("key".to_string()))]
    );
    assert_eq!(db.find_broken_refs(None), vec![position(&db, &guid(9))]);
    assert_eq!(db.find_broken_refs(Some(OrphanFilter::Loc)), Vec::<usize>::new());
    assert_eq!(db.find_broken_refs(Some(OrphanFilter::UnityGuid)), vec![position(&db, &guid(9))]);
}

#[test]
fn orphan_filter_names() {
    assert_eq!(OrphanFilter::from_name("GUID"), OrphanFilter::UnityGuid);
    assert_eq!(OrphanFilter::from_name("Loc"), OrphanFilter::Loc);
    assert_eq!(OrphanFilter::from_id(&Id::Loc("x".to_string())), OrphanFilter::Loc);
    assert!(OrphanFilter::CsDeclaration.matches(&Id::CsType(
        unity_asset_graph::qualified_name::QualifiedNameOwned::from("A.B")
    )));
    assert_eq!(OrphanFilter::UnityGuid.label(), "Unity object");
}

#[test]
fn roots_are_a_set() {
    let mut db = Database::new(Some("/tmp".to_string()));
    assert!(db.insert_root("Assets".to_string()));
    assert!(!db.insert_root("Assets".to_string()));
    assert!(db.has_root("Assets"));
    assert!(!db.has_root("Packages"));
    assert_eq!(db.roots().names().len(), 1);
}

#[test]
fn id_text() {
    assert_eq!(guid(1).to_text(), "guid:00000000-0000-0000-0000-000000000001");
    assert_eq!(Id::Loc("a".to_string()).to_text(), "loc:a");
    assert_eq!(Id::Empty.to_text(), "none");
    let name = unity_asset_graph::qualified_name::QualifiedNameOwned::from("N.List<T>");
    assert_eq!(Id::CsType(name).to_text(), "cs_decl:N.List<T>");
}

#[test]
fn short_text_of_assets() {
    let mut db = sample();
    db.insert_asset(Asset::new(
        Id::CsType(QualifiedNameOwned::from("Game.Player")),
        AssetType::CsType,
        None,
        vec![Relation::ContainedBy(guid(2))],
    ));
    db.populate_reverse_dependencies();
    let prefab = position(&db, &guid(2));
    assert_eq!(db.display_short(prefab), "Assets/Folder/thing.prefab");
    let broken = position(&db, &guid(9));
    assert_eq!(db.display_short(broken), "guid:00000000-0000-0000-0000-000000000009");
    let player = position(&db, &Id::CsType(QualifiedNameOwned::from("Game.Player")));
    assert_eq!(db.display_short(player), "Game.Player in thing.prefab");
}

#[test]
fn full_text_lists_relations_sorted() {
    let mut db = sample();
    db.populate_reverse_dependencies();
    let prefab = position(&db, &guid(2));
    let text = db.display_full(prefab, 0, None);
    let expected = "- Asset ID: guid:00000000-0000-0000-0000-000000000002\n  \
Type: Unknown\n  \
Path: Assets/Folder/thing.prefab\n  \
Contained By (1):\n  \
- Assets/Folder\n  \
Uses (2):\n  \
- Assets/Other\n  \
- guid:00000000-0000-0000-0000-000000000009\n";
    assert_eq!(text, expected);
}

#[test]
fn full_text_within_group_keeps_used_by_from_group() {
    let mut db = sample();
    db.populate_reverse_dependencies();
    let texture = position(&db, &guid(3));
    let group = vec![position(&db, &guid(1)), position(&db, &guid(2))];
    let text = db.display_full(texture, 1, Some(&group));
    let expected = "  - Asset ID: guid:00000000-0000-0000-0000-000000000003\n    \
Type: Unknown\n    \
Path: Assets/Other\n    \
Used By (1):\n    \
- Assets/Folder/thing.prefab\n";
    assert_eq!(text, expected);
}

#[test]
fn texts_sort_like_str() {
    let sorted = sort_texts(vec!["b".to_string(), "a".to_string(), "ab".to_string(), "B".to_string(), "a".to_string()]);
    assert_eq!(sorted, vec!["B", "a", "a", "ab", "b"]);
    assert!(text_less("a", "ab"));
    assert!(!text_less("ab", "ab"));
    assert!(text_less("Z", "a"));
}

#[test]
fn counts_in_decimal() {
    assert_eq!(decimal_text(0), "0");
    assert_eq!(decimal_text(7), "7");
    assert_eq!(decimal_text(1042), "1042");
}

#[test]
fn unused_and_broken_by_id_filters() {
    let mut db = sample();
    db.insert_asset(asset(Id::Loc("key".to_string()), None, vec![]));
    db.populate_reverse_dependencies();
    let loc_only = vec![AssetFilter::try_from("^loc:").unwrap()];
    assert_eq!(db.find_unused_by_id(&loc_only), vec![position(&db, &Id::Loc("key".to_string()))]);
    assert_eq!(db.find_unused_by_id(&vec![]).len(), 4);
    assert_eq!(db.find_broken_by_id(&vec![]), vec![position(&db, &guid(9))]);
    assert!(db.find_broken_by_id(&loc_only).is_empty());
    let all: Vec<usize> = (0..db.assets().len()).collect();
    let mut counts = db.count_types(&all);
    counts.sort_by_key(|(_, c)| *c);
    assert_eq!(counts, vec![(AssetType::BrokenRef, 1), (AssetType::Unknown, 5)]);
}

#[test]
fn full_text_ignores_relation_order() {
    let build = |rels: Vec<Relation>| {
        let mut db = Database::new(None);
        db.insert_asset(asset(guid(1), Some("Assets/a.png"), vec![]));
        db.insert_asset(asset(guid(2), Some("Assets/b.png"), vec![]));
        db.insert_asset(asset(guid(3), Some("Assets/c.prefab"), rels));
        db.populate_reverse_dependencies();
        let k = position(&db, &guid(3));
        db.display_full(k, 0, None)
    };
    let one = build(vec![Relation::Uses(guid(2)), Relation::Uses(guid(1))]);
    let two = build(vec![Relation::Uses(guid(1)), Relation::Uses(guid(2))]);
    assert_eq!(one, two);
    assert!(one.contains("Uses (2):\n  - Assets/a.png\n  - Assets/b.png\n"));
}

#[test]
fn id_matches_filter() {
    let a = asset(Id::Loc("menu_title".to_string()), None, vec![]);
    assert!(a.id_matches(&AssetFilter::try_from("^loc:menu").unwrap()));
    assert!(!a.id_matches(&AssetFilter::try_from("~menu").unwrap()));
    assert!(!a.id_matches(&AssetFilter::try_from("^guid:").unwrap()));
}

#[test]
fn retain_assets_keeps_the_marked_ones_in_order() {
    let mut db = Database::new(None);
    db.insert_asset(asset(guid(1), Some("a"), vec![]));
    db.insert_asset(asset(guid(2), None, vec![]));
    db.insert_asset(asset(guid(3), Some("c"), vec![]));
    db.retain_assets(&vec![true, false, true]);
    assert_eq!(db.assets.len(), 2);
    assert!(db.assets[0].id.same(&guid(1)));
    assert!(db.assets[1].id.same(&guid(3)));
}

#[test]
fn local_dependencies_are_added_skipped_or_noted_missing() {
    let mut db = Database::new(None);
    db.insert_root("Packages/known".to_string());
    let mut unresolved = NameSet::new();
    assert_eq!(db.follow_local("known".to_string(), "Packages/known", true, &mut unresolved), FollowAction::Known);
    assert_eq!(db.follow_local("here".to_string(), "Packages/here", true, &mut unresolved), FollowAction::Add);
    assert!(unresolved.names().is_empty());
    assert_eq!(db.follow_local("gone".to_string(), "Packages/gone", false, &mut unresolved), FollowAction::Missing);
    assert!(unresolved.contains("gone"));
}
