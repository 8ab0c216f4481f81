use unity_asset_graph::asset::{Asset, Relation};
use unity_asset_graph::asset_type::AssetType;
use unity_asset_graph::id::{parse_uuid, Id};
use unity_asset_graph::project::{
    cached_package_name, dependency_source, follow_cached_package, is_builtin_package,
    note_dependency, uses_assets_dir, DependencySource, NameSet,
};
use unity_asset_graph::unity::{meta_guid, UnityScan};
use unity_asset_graph::walk::{file_extension, found_asset, ignored_entry, is_meta_file};

const PREFAB: &str = r#"%YAML 1.1
%TAG !u! tag:unity3d.com,2011:
--- !u!1 &3561149108886604914 stripped
GameObject:
  m_CorrespondingSourceObject: {fileID: 2746916251226383531, guid: 7c77678171dd7a24ead5c598179e6378,
    type: 3}
  m_PrefabInstance: {fileID: 1690186840591182041}
  m_PrefabAsset: {fileID: 0}
--- !u!114 &4538655452972157934
MonoBehaviour:
  m_ObjectHideFlags: 0
  m_CorrespondingSourceObject: {fileID: 0}
  m_PrefabInstance: {fileID: 0}
  m_PrefabAsset: {fileID: 0}
  m_GameObject: {fileID: 3561149108886604914}
  m_Enabled: 1
  m_EditorHideFlags: 0
  m_Script: {fileID: 11500000, guid: 05503c2c5cf7b7f45bec1113802f99a0, type: 3}
  m_Name: 
  m_EditorClassIdentifier: 
  localizedString:
    keepUnlocalized: 0
    key: people_panel_people_label
  canvasText: {fileID: 7690883829489752066}
  tmpText: {fileID: 0}
  accessibilityComponent: {fileID: 0}
  allowEmptyKey: 0
  OnTextChanged:
    m_PersistentCalls:
      m_Calls: []
"#;

fn uuid_value(text: &str) -> u128 {
    uuid::Uuid::parse_str(text).unwrap().as_u128()
}

fn has_use(asset: &Asset, id: Id) -> bool {
    let wanted = Relation::Uses(id);
    asset.relations.iter().any(|r| r.same(&wanted))
}

#[test]
fn test_parse_unity_reader() {
    let mut asset = Asset::new(
        Id::Guid(0),
        AssetType::Prefab,
        Some("test.prefab".to_string()),
        vec![],
    );
    let mut scan = UnityScan::new();
    for line in PREFAB.lines() {
        scan.update(line);
    }
    scan.apply(&mut asset);

    assert!(has_use(&asset, Id::Guid(uuid_value("7c77678171dd7a24ead5c598179e6378"))));
    assert!(has_use(&asset, Id::Guid(uuid_value("05503c2c5cf7b7f45bec1113802f99a0"))));
    assert!(has_use(&asset, Id::Loc("people_panel_people_label".into())));
}

#[test]
fn scan_notes_each_id_once() {
    let mut scan = UnityScan::new();
    scan.update("  a: {guid: 7c77678171dd7a24ead5c598179e6378}");
    scan.update("  b: {guid: 7c77678171dd7a24ead5c598179e6378}");
    scan.update("  c: {guid: 7C77678171DD7A24EAD5C598179E6378}");
    assert_eq!(scan.found().len(), 1);
}

#[test]
fn meta_file_guid() {
    let lines = vec![
        "fileFormatVersion: 2".to_string(),
        "guid: 05503c2c5cf7b7f45bec1113802f99a0".to_string(),
        "guid: 7c77678171dd7a24ead5c598179e6378".to_string(),
    ];
    assert_eq!(meta_guid(&lines), Some(uuid_value("05503c2c5cf7b7f45bec1113802f99a0")));
    let lines = vec!["guid: 05503c2c5cf7b7f45bec1113802f99a0 ".to_string()];
    assert_eq!(meta_guid(&lines), None);
    assert_eq!(meta_guid(&vec![]), None);
}

#[test]
fn dependency_sources() {
    assert_eq!(
        dependency_source("file:../Packages/Tools "),
        DependencySource::Local("../Packages/Tools".to_string())
    );
    assert_eq!(
        dependency_source("file:file: local"),
        DependencySource::Local("local".to_string())
    );
    assert_eq!(dependency_source("1.2.3"), DependencySource::Registry);
    assert_eq!(dependency_source("File:x"), DependencySource::Registry);
}

#[test]
fn package_cache_names() {
    assert_eq!(
        cached_package_name("com.company.tool@1.0.0"),
        Some("com.company.tool".to_string())
    );
    assert_eq!(cached_package_name("@x"), Some(String::new()));
    assert_eq!(cached_package_name("plain"), None);
    assert!(is_builtin_package("com.unity.ugui"));
    assert!(!is_builtin_package("com.company.tool"));
    assert!(uses_assets_dir(true, true));
    assert!(!uses_assets_dir(true, false));
}

#[test]
fn name_set_operations() {
    let mut set = NameSet::new();
    assert!(set.insert("a".to_string()));
    assert!(!set.insert("a".to_string()));
    assert!(set.insert("b".to_string()));
    assert!(set.contains("a"));
    assert!(set.remove("a"));
    assert!(!set.remove("a"));
    assert!(!set.contains("a"));
    assert_eq!(set.names().len(), 1);
}

#[test]
fn manifest_dependencies_are_followed_or_noted() {
    let mut unresolved = NameSet::new();
    let local = note_dependency("com.company.local".to_string(), "file:../Local ", &mut unresolved);
    assert_eq!(local, Some("../Local".to_string()));
    assert_eq!(unresolved.names().len(), 0);
    let remote = note_dependency("com.company.remote".to_string(), "2.0.1", &mut unresolved);
    assert_eq!(remote, None);
    assert!(unresolved.contains("com.company.remote"));
}

#[test]
fn cached_packages_are_followed_once() {
    let mut unresolved = NameSet::new();
    unresolved.insert("com.company.remote".to_string());
    unresolved.insert("com.unity.ugui".to_string());
    assert!(!follow_cached_package("com.company.remote@2.0.1", false, &mut unresolved));
    assert!(follow_cached_package("com.company.remote@2.0.1", true, &mut unresolved));
    assert!(!unresolved.contains("com.company.remote"));
    assert!(!follow_cached_package("com.company.remote@2.0.1", true, &mut unresolved));
    assert!(!follow_cached_package("com.unity.ugui@1.0.0", true, &mut unresolved));
    assert!(unresolved.contains("com.unity.ugui"));
    assert!(!follow_cached_package("no-version", true, &mut unresolved));
}

#[test]
fn walk_decisions() {
    assert_eq!(file_extension("thing.prefab"), Some("prefab".to_string()));
    assert_eq!(file_extension("archive.tar.gz"), Some("gz".to_string()));
    assert_eq!(file_extension(".hidden"), None);
    assert_eq!(file_extension(".."), None);
    assert_eq!(file_extension("noext"), None);
    assert!(is_meta_file("thing.prefab.meta"));
    assert!(!is_meta_file(".meta"));
    assert!(ignored_entry("Samples~"));
    assert!(!ignored_entry("Samples"));
}

#[test]
fn found_assets_take_their_kind() {
    let a = found_asset(5, false, "Assets/Ui/hero.png".to_string());
    assert_eq!(a.asset_type, AssetType::Texture);
    assert!(a.id.same(&Id::Guid(5)));
    assert_eq!(a.path.as_deref(), Some("Assets/Ui/hero.png"));
    let d = found_asset(6, true, "Assets/Ui.png".to_string());
    assert_eq!(d.asset_type, AssetType::Directory);
    let s = found_asset(7, false, "Assets/Scripts/Player.cs".to_string());
    assert_eq!(s.asset_type, AssetType::CsFile);
    assert!(s.relations.is_empty());
}

#[test]
fn uuid_forms_parse_to_one_value() {
    let v = 0x936da01f_9abd_4d9d_80c7_02af85c822a8u128;
    assert_eq!(parse_uuid("936da01f9abd4d9d80c702af85c822a8"), Some(v));
    assert_eq!(parse_uuid("936DA01F9ABD4D9D80C702AF85C822A8"), Some(v));
    assert_eq!(parse_uuid("936da01f-9abd-4d9d-80c7-02af85c822a8"), Some(v));
    assert_eq!(parse_uuid("{936da01f-9abd-4d9d-80c7-02af85c822a8}"), Some(v));
    assert_eq!(parse_uuid("URN:uuid:936da01f-9abd-4d9d-80c7-02af85c822a8"), Some(v));
    assert_eq!(parse_uuid("936da01f-9abd-4d9d-80c7-02af85c822a"), None);
    assert_eq!(parse_uuid("936da01f+9abd-4d9d-80c7-02af85c822a8"), None);
    assert_eq!(parse_uuid("urx:uuid:936da01f-9abd-4d9d-80c7-02af85c822a8"), None);
    assert_eq!(parse_uuid("936da01f9abd4d9d80c702af85c822ä"), None);
}
