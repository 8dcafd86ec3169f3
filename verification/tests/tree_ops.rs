use note_tree::error::{MissingKind, NonEmptyReason, StoreError};
use note_tree::store::{Database, ResourceKind};
use note_tree::tree::{create_tree_node, delete_tree_node, list_tree_nodes, update_tree_node};

fn create(db: &mut Database, name: &str, parent: Option<&str>, order: Option<i64>) -> String {
    create_tree_node(
        db,
        name.to_string(),
        "folder".to_string(),
        "notes".to_string(),
        parent.map(|p| p.to_string()),
        order,
    )
    .expect("node creation should succeed")
}

#[test]
fn create_root_node_defaults() {
    let mut db = Database::new();
    let id = create(&mut db, "inbox", None, None);
    assert_eq!(id.len(), 36);
    assert_eq!(db.nodes.len(), 1);
    let row = &db.nodes[0];
    assert_eq!(row.id, id);
    assert_eq!(row.parent_id, None);
    assert_eq!(row.name, "inbox");
    assert_eq!(row.node_type, "folder");
    assert_eq!(row.scope, "notes");
    assert_eq!(row.order_index, 0);
    assert_eq!(row.description_note_id, None);
    assert_eq!(row.created_at, row.updated_at);
}

#[test]
fn create_under_parent() {
    let mut db = Database::new();
    let parent = create(&mut db, "top", None, Some(1));
    let child = create(&mut db, "sub", Some(&parent), Some(5));
    assert_eq!(db.nodes.len(), 2);
    let row = &db.nodes[1];
    assert_eq!(row.id, child);
    assert_eq!(row.parent_id, Some(parent));
    assert_eq!(row.order_index, 5);
}

#[test]
fn create_with_missing_parent_fails() {
    let mut db = Database::new();
    let r = create_tree_node(
        &mut db,
        "sub".to_string(),
        "folder".to_string(),
        "notes".to_string(),
        Some("no-such-node".to_string()),
        None,
    );
    assert_eq!(r, Err(StoreError::NotFound(MissingKind::Parent)));
    assert_eq!(db.nodes.len(), 0);
    assert_eq!(
        StoreError::NotFound(MissingKind::Parent).message(),
        "parent node not found"
    );
}

#[test]
fn update_rewrites_name_parent_and_order() {
    let mut db = Database::new();
    let a = create(&mut db, "a", None, Some(1));
    let b = create(&mut db, "b", None, Some(2));
    let created = db.nodes[1].created_at;
    update_tree_node(&mut db, b.clone(), "b2".to_string(), Some(a.clone()), Some(7))
        .expect("update should succeed");
    let row = &db.nodes[1];
    assert_eq!(row.id, b);
    assert_eq!(row.name, "b2");
    assert_eq!(row.parent_id, Some(a));
    assert_eq!(row.order_index, 7);
    assert_eq!(row.created_at, created);
    // the scope and kind of the row are untouched
    assert_eq!(row.node_type, "folder");
    assert_eq!(row.scope, "notes");
}

#[test]
fn update_without_parent_clears_to_root() {
    let mut db = Database::new();
    let a = create(&mut db, "a", None, None);
    let b = create(&mut db, "b", Some(&a), None);
    update_tree_node(&mut db, b.clone(), "b".to_string(), None, None).expect("should succeed");
    assert_eq!(db.nodes[1].parent_id, None);
}

#[test]
fn update_missing_node_fails() {
    let mut db = Database::new();
    let r = update_tree_node(&mut db, "ghost".to_string(), "x".to_string(), None, None);
    assert_eq!(r, Err(StoreError::NotFound(MissingKind::Node)));
    assert_eq!(StoreError::NotFound(MissingKind::Node).message(), "node not found");
}

#[test]
fn update_missing_parent_fails() {
    let mut db = Database::new();
    let a = create(&mut db, "a", None, None);
    let r = update_tree_node(
        &mut db,
        a,
        "a".to_string(),
        Some("no-such-node".to_string()),
        None,
    );
    assert_eq!(r, Err(StoreError::NotFound(MissingKind::Parent)));
}

#[test]
fn update_self_parent_is_invalid_reference() {
    let mut db = Database::new();
    let a = create(&mut db, "a", None, None);
    let b = create(&mut db, "b", Some(&a), None);
    for id in [a, b] {
        let r = update_tree_node(&mut db, id.clone(), "renamed".to_string(), Some(id), Some(9));
        assert_eq!(r, Err(StoreError::InvalidReference));
    }
    // nothing changed on either failure
    assert_eq!(db.nodes[0].name, "a");
    assert_eq!(db.nodes[1].name, "b");
    assert_eq!(StoreError::InvalidReference.message(), "parent cannot be the node itself");
}

#[test]
fn delete_leaf_removes_the_row() {
    let mut db = Database::new();
    let a = create(&mut db, "a", None, None);
    let b = create(&mut db, "b", None, None);
    delete_tree_node(&mut db, a).expect("delete should succeed");
    assert_eq!(db.nodes.len(), 1);
    assert_eq!(db.nodes[0].id, b);
}

#[test]
fn delete_absent_node_is_a_no_op() {
    let mut db = Database::new();
    create(&mut db, "a", None, None);
    delete_tree_node(&mut db, "no-such-node".to_string()).expect("should succeed");
    assert_eq!(db.nodes.len(), 1);
}

#[test]
fn delete_with_child_fails_until_child_is_gone() {
    let mut db = Database::new();
    let parent = create(&mut db, "top", None, None);
    let child = create(&mut db, "sub", Some(&parent), None);
    let r = delete_tree_node(&mut db, parent.clone());
    assert_eq!(r, Err(StoreError::NonEmptyNode(NonEmptyReason::HasChildren)));
    assert_eq!(
        StoreError::NonEmptyNode(NonEmptyReason::HasChildren).message(),
        "node has child nodes, delete them first"
    );
    assert_eq!(db.nodes.len(), 2);
    delete_tree_node(&mut db, child).expect("child delete should succeed");
    delete_tree_node(&mut db, parent).expect("parent delete should now succeed");
    assert_eq!(db.nodes.len(), 0);
}

#[test]
fn delete_with_binding_fails() {
    let mut db = Database::new();
    let node = create(&mut db, "leaf", None, None);
    note_tree::store::insert_node_note_resource(&mut db, &node, &"res-1".to_string(), 7);
    let r = delete_tree_node(&mut db, node.clone());
    assert_eq!(r, Err(StoreError::NonEmptyNode(NonEmptyReason::HasBoundResources)));
    assert_eq!(
        StoreError::NonEmptyNode(NonEmptyReason::HasBoundResources).message(),
        "node has resources mounted, remove them first"
    );
    assert_eq!(db.bindings.len(), 1);
    assert_eq!(db.bindings[0].node_id, node);
    assert_eq!(db.bindings[0].resource_id, "res-1");
    assert_eq!(db.bindings[0].resource_kind, ResourceKind::Note);
    assert_eq!(db.bindings[0].created_at, 7);
}

#[test]
fn listing_orders_by_parent_then_order_index() {
    let mut db = Database::new();
    // parents sort as strings with rootless rows first
    note_tree::store::insert_tree_node(
        &mut db,
        &"n1".to_string(),
        None,
        &"r2".to_string(),
        &"folder".to_string(),
        &"notes".to_string(),
        2,
        10,
    )
    .unwrap();
    note_tree::store::insert_tree_node(
        &mut db,
        &"n2".to_string(),
        None,
        &"r1".to_string(),
        &"folder".to_string(),
        &"notes".to_string(),
        1,
        10,
    )
    .unwrap();
    note_tree::store::insert_tree_node(
        &mut db,
        &"n3".to_string(),
        Some(&"n1".to_string()),
        &"c1".to_string(),
        &"folder".to_string(),
        &"notes".to_string(),
        0,
        10,
    )
    .unwrap();
    note_tree::store::insert_tree_node(
        &mut db,
        &"n4".to_string(),
        Some(&"n1".to_string()),
        &"c0".to_string(),
        &"folder".to_string(),
        &"notes".to_string(),
        -1,
        10,
    )
    .unwrap();
    let listed = list_tree_nodes(&db, None);
    let names: Vec<&str> = listed.iter().map(|n| n.name.as_str()).collect();
    assert_eq!(names, vec!["r1", "r2", "c0", "c1"]);
}

#[test]
fn listing_filters_by_scope() {
    let mut db = Database::new();
    create(&mut db, "n", None, None);
    create_tree_node(
        &mut db,
        "s".to_string(),
        "folder".to_string(),
        "snippets".to_string(),
        None,
        None,
    )
    .unwrap();
    let notes_only = list_tree_nodes(&db, Some("notes".to_string()));
    assert_eq!(notes_only.len(), 1);
    assert_eq!(notes_only[0].name, "n");
    let snippets_only = list_tree_nodes(&db, Some("snippets".to_string()));
    assert_eq!(snippets_only.len(), 1);
    assert_eq!(snippets_only[0].name, "s");
    assert_eq!(list_tree_nodes(&db, None).len(), 2);
    assert_eq!(list_tree_nodes(&db, Some("other".to_string())).len(), 0);
}

#[test]
fn listing_keeps_equal_keys_in_row_order() {
    let mut db = Database::new();
    let first = create(&mut db, "first", None, Some(1));
    let second = create(&mut db, "second", None, Some(1));
    let listed = list_tree_nodes(&db, None);
    assert_eq!(listed[0].id, first);
    assert_eq!(listed[1].id, second);
}

#[test]
fn find_node_for_resource_returns_the_first_bound_node() {
    let mut db = Database::new();
    assert_eq!(
        note_tree::store::find_node_for_resource(&db, &"r".to_string(), ResourceKind::Note),
        None
    );
    note_tree::store::insert_node_note_resource(&mut db, &"node-a".to_string(), &"r".to_string(), 1);
    note_tree::store::insert_node_snippet_resource(&mut db, &"node-b".to_string(), &"r".to_string(), 2);
    assert_eq!(
        note_tree::store::find_node_for_resource(&db, &"r".to_string(), ResourceKind::Note),
        Some("node-a".to_string())
    );
    assert_eq!(
        note_tree::store::find_node_for_resource(&db, &"r".to_string(), ResourceKind::Snippet),
        Some("node-b".to_string())
    );
}
