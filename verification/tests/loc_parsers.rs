use unity_asset_graph::id::Id;
use unity_asset_graph::loc::{LocManagerParser, LocOverrideParser, LocStringParser};

const PREFAB: &str = r#"%YAML 1.1
%TAG !u! tag:unity3d.com,2011:
--- !u!1 &3561149108886604914 stripped
GameObject:
  m_CorrespondingSourceObject: {fileID: 2746916251226383531, guid: 7c77678171dd7a24ead5c598179e6378,
    type: 3}
  m_PrefabInstance: {fileID: 1690186840591182041}
  m_PrefabAsset: {fileID: 0}
--- !u!114 &4538655452972157934
MonoBehaviour:
  m_ObjectHideFlags: 0
  m_CorrespondingSourceObject: {fileID: 0}
  m_PrefabInstance: {fileID: 0}
  m_PrefabAsset: {fileID: 0}
  m_GameObject: {fileID: 3561149108886604914}
  m_Enabled: 1
  m_EditorHideFlags: 0
  m_Script: {fileID: 11500000, guid: 05503c2c5cf7b7f45bec1113802f99a0, type: 3}
  m_Name: 
  m_EditorClassIdentifier: 
  localizedString:
    keepUnlocalized: 0
    key: people_panel_people_label
  canvasText: {fileID: 7690883829489752066}
  tmpText: {fileID: 0}
  accessibilityComponent: {fileID: 0}
  allowEmptyKey: 0
  OnTextChanged:
    m_PersistentCalls:
      m_Calls: []
"#;

const PREFAB_OVERRIDE: &str = r#"%YAML 1.1
%TAG !u! tag:unity3d.com,2011:
--- !u!114 &8073721433681322272 stripped
MonoBehaviour:
  m_CorrespondingSourceObject: {fileID: 8229847291080121086, guid: d7698b5f08e39cc4aaf5e62e6972733b,
    type: 3}
  m_PrefabInstance: {fileID: 161518669942422494}
  m_PrefabAsset: {fileID: 0}
  m_GameObject: {fileID: 0}
  m_Enabled: 1
  m_EditorHideFlags: 0
  m_Script: {fileID: 11500000, guid: 05503c2c5cf7b7f45bec1113802f99a0, type: 3}
  m_Name: 
  m_EditorClassIdentifier: 
"#;

const PREFAB_NOKEY: &str = r#"%YAML 1.1
%TAG !u! tag:unity3d.com,2011:
--- !u!114 &3497495228035037355
MonoBehaviour:
  m_ObjectHideFlags: 0
  m_CorrespondingSourceObject: {fileID: 0}
  m_PrefabInstance: {fileID: 0}
  m_PrefabAsset: {fileID: 0}
  m_GameObject: {fileID: 8281751422924472755}
  m_Enabled: 1
  m_EditorHideFlags: 0
  m_Script: {fileID: 11500000, guid: 05503c2c5cf7b7f45bec1113802f99a0, type: 3}
  m_Name: 
  m_EditorClassIdentifier: 
  localizedString:
    keepUnlocalized: 1
    key: Tooltip
  canvasText: {fileID: 6956349368374241523}
  tmpText: {fileID: 0}
  accessibilityComponent: {fileID: 0}
  allowEmptyKey: 0
  OnTextChanged:
    m_PersistentCalls:
      m_Calls: []
"#;

#[test]
fn test_parse_locstring() {
    let mut parser = LocStringParser::Start;
    for (i, line) in PREFAB.lines().enumerate() {
        parser = parser.update(line);

        match parser {
            LocStringParser::Start if i < 2 => {}
            LocStringParser::File if i < 9 => {}
            LocStringParser::MonoBehaviour if i < 17 => {}
            LocStringParser::LocalizedText if i < 20 => {}
            LocStringParser::LocalizedString if i < 22 => {}
            LocStringParser::LocStringKey(Id::Loc(ref key)) => {
                assert_eq!(key, "people_panel_people_label");
            }
            _ => panic!("Unexpected parser state: {:?} at line {i}", parser),
        };
    }
}

#[test]
fn test_parse_override() {
    let mut parser = LocStringParser::Start;
    for (i, line) in PREFAB_OVERRIDE.lines().enumerate() {
        parser = parser.update(line);

        match parser {
            LocStringParser::Start if i < 2 => {}
            LocStringParser::File if i < 3 => {}
            LocStringParser::MonoBehaviour if i < 11 => {}
            LocStringParser::LocalizedText => {}
            _ => panic!("Unexpected parser state: {:?} at line {i}", parser),
        };
    }
}

#[test]
fn test_parse_unlocalized() {
    let mut parser = LocStringParser::Start;
    for (i, line) in PREFAB_NOKEY.lines().enumerate() {
        parser = parser.update(line);

        match parser {
            LocStringParser::Start if i < 2 => {}
            LocStringParser::File if i < 3 => {}
            LocStringParser::MonoBehaviour if i < 11 => {}
            LocStringParser::LocalizedText if i < 14 => {}
            LocStringParser::LocalizedString if i < 15 => {}
            LocStringParser::LocStringNoKey => {}
            _ => panic!("Unexpected parser state: {:?} at line {i}", parser),
        };
    }
}

#[test]
fn loc_string_key_state_is_final() {
    let parser = LocStringParser::LocStringKey(Id::Loc("k".to_string()));
    let parser = parser.update("--- !u!114 &1");
    match parser {
        LocStringParser::LocStringKey(Id::Loc(key)) => assert_eq!(key, "k"),
        other => panic!("Unexpected parser state: {:?}", other),
    }
}

const MANAGER: &str = r#"%YAML 1.1
--- !u!114 &42
MonoBehaviour:
  m_Script: {fileID: 11500000, guid: 65ce276a26b28f94b8abe63deebd2050, type: 3}
  resourceNameBases:
  - Strings/Main
  - Strings/Extra
  other: 1
--- !u!114 &7
MonoBehaviour:
"#;

#[test]
fn manager_collects_name_bases() {
    let mut parser = LocManagerParser::Start;
    let mut seen_names = None;
    for line in MANAGER.lines() {
        parser = parser.update(line);
        if let LocManagerParser::Names { file_id, name_bases } = &parser {
            seen_names = Some((file_id.clone(), name_bases.clone()));
        }
    }
    let (file_id, names) = seen_names.expect("names were read");
    assert_eq!(file_id, "42");
    assert_eq!(names, vec!["Strings/Main".to_string(), "Strings/Extra".to_string()]);
    match parser {
        LocManagerParser::MonoBehaviour { file_id } => assert_eq!(file_id, "7"),
        other => panic!("Unexpected parser state: {:?}", other),
    }
}

#[test]
fn manager_advance_uses_given_header() {
    let parser = LocManagerParser::Start.advance("anything", Some("99".to_string()));
    match parser {
        LocManagerParser::File { file_id } => assert_eq!(file_id, "99"),
        other => panic!("Unexpected parser state: {:?}", other),
    }
    let parser = LocManagerParser::Start.advance("--- !u!114 &5", None);
    assert!(matches!(parser, LocManagerParser::Start));
}

#[test]
fn manager_ignores_other_documents() {
    let parser = LocManagerParser::Start.update("--- !u!1 &5");
    assert!(matches!(parser, LocManagerParser::Start));
    let parser = LocManagerParser::Start.update("--- !u!114 &5 stripped");
    assert!(matches!(parser, LocManagerParser::Start));
}

const OVERRIDE: &str = r#"--- !u!1001 &1
PrefabInstance:
  m_Modification:
    m_Modifications:
    - target: {fileID: 1}
      propertyPath: localizedString.key
      value: welcome_title
"#;

#[test]
fn override_reads_key_value() {
    let mut parser = LocOverrideParser::Start;
    for line in OVERRIDE.lines() {
        parser = parser.update(line);
    }
    match parser {
        LocOverrideParser::PropertyValue(v) => assert_eq!(v, "welcome_title"),
        other => panic!("Unexpected parser state: {:?}", other),
    }
}

#[test]
fn override_value_must_not_be_empty() {
    let parser = LocOverrideParser::PropertyPath.update("      value: ");
    assert!(matches!(parser, LocOverrideParser::PropertyPath));
}

#[test]
fn override_restarts_on_new_document() {
    let parser = LocOverrideParser::PropertyValue("x".to_string()).update("--- !u!1 &2");
    assert!(matches!(parser, LocOverrideParser::File));
    let parser = LocOverrideParser::Start.update("PrefabInstance:");
    assert!(matches!(parser, LocOverrideParser::Start));
}
