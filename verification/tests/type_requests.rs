use unity_asset_graph::asset::{Asset, Relation};
use unity_asset_graph::asset_type::AssetType;
use unity_asset_graph::database::Database;
use unity_asset_graph::id::Id;
use unity_asset_graph::qualified_name::QualifiedNameOwned;
use unity_asset_graph::type_broker::{TypeBroker, TypeRequest};

fn name(text: &str) -> QualifiedNameOwned {
    QualifiedNameOwned::from(text)
}

fn request(requester: &str, partial: &str, scopes: &[&str]) -> TypeRequest {
    TypeRequest {
        requester: Id::CsType(name(requester)),
        partial_name: name(partial),
        scoped_namespaces: scopes.iter().map(|s| name(s)).collect(),
    }
}

#[test]
fn satisfied_by_namespace_in_scope() {
    let req = request("App.Main", "Widget", &["Lib.Ui", "Other"]);
    assert!(req.satisfied_by(&Id::CsType(name("Lib.Ui.Widget"))));
    assert!(!req.satisfied_by(&Id::CsType(name("Lib.Core.Widget"))));
    assert!(req.satisfied_by(&Id::CsType(name("Widget"))));
    assert!(!req.satisfied_by(&Id::Loc("Widget".to_string())));

    let req = request("App.Main", "Ui.Widget", &["Lib"]);
    assert!(req.satisfied_by(&Id::CsType(name("Lib.Ui.Widget"))));
    assert!(!req.satisfied_by(&Id::CsType(name("Lib.Widget"))));
}

#[test]
fn broker_keeps_each_request_once() {
    let mut broker = TypeBroker::new();
    broker.push(request("A", "B", &["N"]));
    broker.push(request("A", "B", &["N"]));
    broker.request(&Id::CsType(name("A")), name("B"), vec![name("M")]);
    assert_eq!(broker.requests().len(), 2);
    let id = request("A", "B", &[]).into_id();
    assert!(id.same(&Id::CsType(name("B"))));
}

#[test]
fn fulfill_links_requester_to_type() {
    let mut db = Database::new(None);
    let main = Id::CsType(name("App.Main"));
    db.insert_asset(Asset::new(main.clone(), AssetType::CsType, None, vec![]));
    let ids = vec![
        main.clone(),
        Id::CsType(name("Lib.Ui.Widget")),
        Id::CsType(name("Lib.Core.Thing")),
        Id::Guid(1),
    ];

    let mut broker = TypeBroker::new();
    broker.push(request("App.Main", "Widget", &["Other", "Lib.Ui"]));
    broker.push(request("App.Main", "Missing", &["Lib.Ui"]));
    broker.fulfill(&ids, &mut db);

    assert_eq!(broker.requests().len(), 1);
    assert!(broker.requests()[0].partial_name.same(&name("Missing")));

    let main_asset = &db.assets()[db.find(&main).unwrap()];
    assert_eq!(main_asset.relations.len(), 1);
    assert!(main_asset.relations[0].same(&Relation::Uses(Id::CsType(name("Lib.Ui.Widget")))));
}

#[test]
fn aliased_request_that_matches_cannot_be_fulfilled() {
    let ids = vec![Id::CsType(name("Lib.Ui.Widget"))];
    let mut broker = TypeBroker::new();
    broker.push(request("App.Main", "Widget", &["Lib.Ui"]));
    assert!(broker.can_fulfill(&ids));
    broker.push(request("App.Main", "alias::Thing", &["Lib.Ui"]));
    assert!(broker.can_fulfill(&ids));
    broker.push(request("App.Main", "alias::Widget", &["Lib.Ui"]));
    assert!(!broker.can_fulfill(&ids));
}

#[test]
fn fulfilling_again_changes_nothing() {
    let mut db = Database::new(None);
    let main = Id::CsType(name("App.Main"));
    db.insert_asset(Asset::new(main.clone(), AssetType::CsType, None, vec![]));
    let ids = vec![main.clone(), Id::CsType(name("Lib.Ui.Widget"))];
    let mut broker = TypeBroker::new();
    broker.push(request("App.Main", "Widget", &["Lib.Ui"]));
    broker.push(request("App.Main", "Missing", &["Lib.Ui"]));
    broker.fulfill(&ids, &mut db);
    assert_eq!(broker.requests().len(), 1);
    broker.fulfill(&ids, &mut db);
    assert_eq!(broker.requests().len(), 1);
    let main_asset = &db.assets()[db.find(&main).unwrap()];
    assert_eq!(main_asset.relations.len(), 1);
}
