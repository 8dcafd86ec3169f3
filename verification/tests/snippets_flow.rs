use note_tree::error::{MissingKind, StoreError};
use note_tree::snippets::{
    create_snippet, delete_snippet_only, get_snippet_detail, update_snippet_detail,
};
use note_tree::store::{Database, ResourceKind};
use note_tree::tree::delete_tree_node;

fn seed(db: &mut Database) -> (String, String) {
    create_snippet(
        db,
        "foo".to_string(),
        Some("rust".to_string()),
        "fn main(){}".to_string(),
        None,
    )
    .expect("snippet creation should succeed");
    (db.snippets[0].id.clone(), db.nodes[0].id.clone())
}

#[test]
fn create_snippet_persists_row_node_and_binding() {
    let mut db = Database::new();
    let (snippet_id, node_id) = seed(&mut db);
    assert_eq!(db.snippets.len(), 1);
    assert_eq!(db.nodes.len(), 1);
    assert_eq!(db.bindings.len(), 1);
    let row = &db.snippets[0];
    assert_eq!(row.title, "foo");
    assert_eq!(row.language, Some("rust".to_string()));
    assert_eq!(row.content, "fn main(){}");
    assert_eq!(row.created_at, row.updated_at);
    let node = &db.nodes[0];
    assert_eq!(node.id, node_id);
    assert_eq!(node.name, "foo");
    assert_eq!(node.node_type, "snippet");
    assert_eq!(node.scope, "snippets");
    assert_eq!(node.order_index, 0);
    let binding = &db.bindings[0];
    assert_eq!(binding.node_id, node_id);
    assert_eq!(binding.resource_id, snippet_id);
    assert_eq!(binding.resource_kind, ResourceKind::Snippet);
}

#[test]
fn get_snippet_detail_returns_the_row() {
    let mut db = Database::new();
    let (snippet_id, _) = seed(&mut db);
    let d = get_snippet_detail(&db, snippet_id.clone()).expect("snippet should be readable");
    assert_eq!(d.id, snippet_id);
    assert_eq!(d.title, "foo");
    assert_eq!(d.language, Some("rust".to_string()));
    assert_eq!(d.content, "fn main(){}");
    assert_eq!(d.created_at, db.snippets[0].created_at);
    assert_eq!(d.updated_at, db.snippets[0].updated_at);
}

#[test]
fn get_missing_snippet_fails() {
    let db = Database::new();
    let r = get_snippet_detail(&db, "ghost".to_string());
    assert!(matches!(r, Err(StoreError::NotFound(MissingKind::Snippet))));
    assert_eq!(StoreError::NotFound(MissingKind::Snippet).message(), "snippet not found");
}

#[test]
fn update_snippet_detail_rewrites_the_row() {
    let mut db = Database::new();
    let (snippet_id, _) = seed(&mut db);
    let created = db.snippets[0].created_at;
    update_snippet_detail(
        &mut db,
        snippet_id.clone(),
        "bar".to_string(),
        None,
        "fn bar(){}".to_string(),
    )
    .expect("update should succeed");
    let row = &db.snippets[0];
    assert_eq!(row.id, snippet_id);
    assert_eq!(row.title, "bar");
    assert_eq!(row.language, None);
    assert_eq!(row.content, "fn bar(){}");
    assert_eq!(row.created_at, created);
    // the tree node's label is not synchronized for snippets
    assert_eq!(db.nodes[0].name, "foo");
}

#[test]
fn update_missing_snippet_fails() {
    let mut db = Database::new();
    let r = update_snippet_detail(
        &mut db,
        "ghost".to_string(),
        "x".to_string(),
        None,
        "y".to_string(),
    );
    assert_eq!(r, Err(StoreError::NotFound(MissingKind::Snippet)));
}

#[test]
fn delete_snippet_then_its_node_completes_teardown() {
    let mut db = Database::new();
    let (snippet_id, node_id) = seed(&mut db);
    // while the binding exists, the node cannot go
    assert!(delete_tree_node(&mut db, node_id.clone()).is_err());
    delete_snippet_only(&mut db, snippet_id).expect("snippet delete should succeed");
    assert_eq!(db.snippets.len(), 0);
    assert_eq!(db.bindings.len(), 0);
    // the node survives the snippet delete on purpose
    assert_eq!(db.nodes.len(), 1);
    delete_tree_node(&mut db, node_id).expect("the unbound node can now be deleted");
    assert_eq!(db.nodes.len(), 0);
}

#[test]
fn delete_snippet_only_removes_every_binding_of_that_snippet() {
    let mut db = Database::new();
    let (snippet_id, node_id) = seed(&mut db);
    // a second mount of the same snippet on another node
    note_tree::store::insert_node_snippet_resource(
        &mut db,
        &"other-node".to_string(),
        &snippet_id,
        9,
    );
    // a note binding with the same resource id is a different resource
    note_tree::store::insert_node_note_resource(&mut db, &node_id, &snippet_id, 9);
    delete_snippet_only(&mut db, snippet_id.clone()).unwrap();
    assert_eq!(db.bindings.len(), 1);
    assert_eq!(db.bindings[0].resource_kind, ResourceKind::Note);
    assert_eq!(db.bindings[0].resource_id, snippet_id);
}

#[test]
fn delete_missing_snippet_is_a_no_op() {
    let mut db = Database::new();
    seed(&mut db);
    delete_snippet_only(&mut db, "ghost".to_string()).expect("should succeed");
    assert_eq!(db.snippets.len(), 1);
    assert_eq!(db.bindings.len(), 1);
}
