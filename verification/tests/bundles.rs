//! Project bundles.

use sweet::bundle::{
    BundleError, Entries, ProjectBundle, BUNDLE_EXTENSION, BUNDLE_FORMAT, BUNDLE_VERSION,
};

fn value(json: &str) -> serde_json::Value {
    serde_json::from_str(json).unwrap()
}

#[test]
fn bundle_round_trips_with_an_opaque_document() {
    let mut bundle = ProjectBundle::new("visual".to_string());
    let scene = value(r#"{ "schema": "sweet.visual.scene", "objects": [] }"#);
    bundle.put_document("main.visual.scene".to_string(), scene.clone());
    let before = format!("{bundle:?}");
    let reopened = bundle.accepted().unwrap();
    assert_eq!(reopened.app, "visual");
    assert!(reopened.document("main.visual.scene").is_some());
    assert_eq!(reopened.document("main.visual.scene"), Some(&scene));
    assert_eq!(before, format!("{reopened:?}"));
}

#[test]
fn rejects_foreign_files_and_future_versions() {
    let mut foreign = ProjectBundle::new("x".to_string());
    foreign.format = "something.else".to_string();
    let refused = foreign.accepted();
    assert!(matches!(refused, Err(BundleError::UnknownFormat(_))));
    if let Err(e) = refused {
        assert_eq!(e.message(), "not a SWEET bundle (format tag: something.else)");
    }

    let mut future = ProjectBundle::new("visual".to_string());
    future.version = BUNDLE_VERSION + 1;
    let refused = future.accepted();
    assert!(matches!(refused, Err(BundleError::FutureVersion { .. })));
    if let Err(e) = refused {
        assert_eq!(e.message(), "bundle version 2 is newer than supported 1");
    }
}

#[test]
fn documents_are_found_where_they_were_put() {
    let mut bundle = ProjectBundle::new("visual".to_string());
    assert_eq!(bundle.format, BUNDLE_FORMAT);
    assert_eq!(BUNDLE_EXTENSION, "sweet");
    bundle.put_document("a".to_string(), value("1"));
    bundle.put_document("b".to_string(), value("2"));
    bundle.put_document("a".to_string(), value("3"));
    assert_eq!(bundle.document("a"), Some(&value("3")));
    assert_eq!(bundle.document("b"), Some(&value("2")));
    assert_eq!(bundle.document("c"), None);
    assert_eq!(bundle.documents.len(), 2);
    bundle.put_blob("pixels".to_string(), "AAAA".to_string());
    assert_eq!(bundle.blob("pixels"), Some("AAAA"));
    assert_eq!(bundle.blob("a"), None);
}

#[test]
fn entries_hold_each_name_once() {
    let mut e: Entries<u32> = Entries::new();
    e.insert("x".to_string(), 1);
    e.insert("y".to_string(), 2);
    e.insert("x".to_string(), 3);
    let all: Vec<(String, u32)> = e.entries().into_iter().map(|(n, v)| (n.clone(), *v)).collect();
    assert_eq!(all.len(), 2);
    assert!(all.contains(&("x".to_string(), 3)) && all.contains(&("y".to_string(), 2)));
}
