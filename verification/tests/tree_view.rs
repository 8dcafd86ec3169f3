use note_tree::materialize::{list_tree_nodes_tree, TreeResponseNode};
use note_tree::store::{insert_tree_node, Database};

fn add(db: &mut Database, id: &str, parent: Option<&str>, name: &str, order: i64) {
    let parent_owned = parent.map(|p| p.to_string());
    insert_tree_node(
        db,
        &id.to_string(),
        parent_owned.as_ref(),
        &name.to_string(),
        &"folder".to_string(),
        &"notes".to_string(),
        order,
        10,
    )
    .expect("insert should succeed");
}

fn flat_ids(forest: &[TreeResponseNode]) -> Vec<String> {
    let mut out = Vec::new();
    let mut stack: Vec<&TreeResponseNode> = forest.iter().rev().collect();
    while let Some(t) = stack.pop() {
        out.push(t.id.clone());
        if let Some(children) = &t.children {
            for c in children.iter().rev() {
                stack.push(c);
            }
        }
    }
    out
}

#[test]
fn nests_children_under_roots_in_order() {
    let mut db = Database::new();
    add(&mut db, "r", None, "root", 0);
    add(&mut db, "b", Some("r"), "beta", 2);
    add(&mut db, "a", Some("r"), "alpha", 1);
    add(&mut db, "g", Some("a"), "gamma", 0);
    let forest = list_tree_nodes_tree(&db, None);
    assert_eq!(forest.len(), 1);
    let root = &forest[0];
    assert_eq!(root.id, "r");
    assert_eq!(root.label, "root");
    assert_eq!(root.node_type, "folder");
    let children = root.children.as_ref().expect("root has children");
    assert_eq!(children.len(), 2);
    assert_eq!(children[0].id, "a");
    assert_eq!(children[1].id, "b");
    assert!(children[1].children.is_none());
    let grand = children[0].children.as_ref().expect("alpha has a child");
    assert_eq!(grand.len(), 1);
    assert_eq!(grand[0].id, "g");
    assert!(grand[0].children.is_none());
}

#[test]
fn roots_come_in_order_index_order() {
    let mut db = Database::new();
    add(&mut db, "r2", None, "second", 5);
    add(&mut db, "r1", None, "first", 1);
    let forest = list_tree_nodes_tree(&db, None);
    assert_eq!(flat_ids(&forest), vec!["r1", "r2"]);
}

#[test]
fn filters_by_scope() {
    let mut db = Database::new();
    add(&mut db, "n", None, "note side", 0);
    insert_tree_node(
        &mut db,
        &"s".to_string(),
        None,
        &"snippet side".to_string(),
        &"folder".to_string(),
        &"snippets".to_string(),
        0,
        10,
    )
    .unwrap();
    let notes = list_tree_nodes_tree(&db, Some("notes".to_string()));
    assert_eq!(flat_ids(&notes), vec!["n"]);
    let snippets = list_tree_nodes_tree(&db, Some("snippets".to_string()));
    assert_eq!(flat_ids(&snippets), vec!["s"]);
}

#[test]
fn three_node_cycle_terminates_and_presents_each_once() {
    let mut db = Database::new();
    // a corrupted parent chain: a -> b -> c -> a, no row without a parent
    add(&mut db, "a", Some("c"), "a", 0);
    add(&mut db, "b", Some("a"), "b", 0);
    add(&mut db, "c", Some("b"), "c", 0);
    let forest = list_tree_nodes_tree(&db, None);
    let mut ids = flat_ids(&forest);
    ids.sort();
    assert_eq!(ids, vec!["a", "b", "c"]);
}

#[test]
fn dangling_parents_are_treated_as_roots_when_no_root_exists() {
    let mut db = Database::new();
    add(&mut db, "y", Some("zzz"), "orphan", 0);
    add(&mut db, "z", Some("y"), "under orphan", 0);
    let forest = list_tree_nodes_tree(&db, None);
    assert_eq!(forest.len(), 1);
    assert_eq!(forest[0].id, "y");
    let children = forest[0].children.as_ref().expect("orphan keeps its subtree");
    assert_eq!(children.len(), 1);
    assert_eq!(children[0].id, "z");
}

#[test]
fn orphans_are_dropped_when_a_real_root_exists() {
    let mut db = Database::new();
    add(&mut db, "r", None, "root", 0);
    add(&mut db, "y", Some("zzz"), "orphan", 0);
    let forest = list_tree_nodes_tree(&db, None);
    assert_eq!(flat_ids(&forest), vec!["r"]);
}

#[test]
fn empty_snapshot_presents_nothing() {
    let db = Database::new();
    assert!(list_tree_nodes_tree(&db, None).is_empty());
}
