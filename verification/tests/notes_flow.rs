use note_tree::error::{MissingKind, StoreError};
use note_tree::files::{make_note_file_path, read_file, FileStore};
use note_tree::notes::{
    create_note, create_note_with, get_note, update_note_content, update_note_title, SagaFaults,
};
use note_tree::store::{insert_note, Database, ResourceKind};

fn notes_dir() -> String {
    "/data/notes".to_string()
}

#[test]
fn create_note_persists_all_four_artifacts() {
    let mut db = Database::new();
    let mut fs = FileStore::new();
    create_note(&mut db, &mut fs, &notes_dir(), "Plan".to_string(), None)
        .expect("note creation should succeed");
    assert_eq!(db.notes.len(), 1);
    assert_eq!(db.nodes.len(), 1);
    assert_eq!(db.bindings.len(), 1);
    assert_eq!(fs.files.len(), 1);
    let note = &db.notes[0];
    let node = &db.nodes[0];
    let binding = &db.bindings[0];
    assert_eq!(note.title, "Plan");
    assert_eq!(node.name, "Plan");
    assert_eq!(node.node_type, "note");
    assert_eq!(node.scope, "notes");
    assert_eq!(node.parent_id, None);
    assert_eq!(node.order_index, 0);
    assert_eq!(binding.node_id, node.id);
    assert_eq!(binding.resource_id, note.id);
    assert_eq!(binding.resource_kind, ResourceKind::Note);
    assert_eq!(note.content_path, format!("/data/notes/{}.md", note.id));
    assert_eq!(fs.files[0].path, note.content_path);
}

#[test]
fn get_note_returns_title_and_seeded_body() {
    let mut db = Database::new();
    let mut fs = FileStore::new();
    create_note(&mut db, &mut fs, &notes_dir(), "Plan".to_string(), None).unwrap();
    let note_id = db.notes[0].id.clone();
    let detail = get_note(&db, &fs, note_id.clone()).expect("note should be readable");
    assert_eq!(detail.id, note_id);
    assert_eq!(detail.title, "Plan");
    assert_eq!(detail.content, "# Plan\n\n");
    assert_eq!(detail.created_at, db.notes[0].created_at);
    assert_eq!(detail.updated_at, db.notes[0].updated_at);
}

#[test]
fn update_note_content_replaces_the_body_exactly() {
    let mut db = Database::new();
    let mut fs = FileStore::new();
    create_note(&mut db, &mut fs, &notes_dir(), "Plan".to_string(), None).unwrap();
    let note_id = db.notes[0].id.clone();
    update_note_content(&mut db, &mut fs, note_id.clone(), "new body".to_string())
        .expect("content update should succeed");
    let detail = get_note(&db, &fs, note_id).unwrap();
    assert_eq!(detail.content, "new body");
    assert_eq!(fs.files.len(), 1);
}

#[test]
fn update_note_content_of_missing_note_fails() {
    let mut db = Database::new();
    let mut fs = FileStore::new();
    let r = update_note_content(&mut db, &mut fs, "ghost".to_string(), "x".to_string());
    assert_eq!(r, Err(StoreError::NotFound(MissingKind::Note)));
    assert_eq!(StoreError::NotFound(MissingKind::Note).message(), "note not found");
    assert_eq!(fs.files.len(), 0);
}

#[test]
fn rename_updates_note_row_and_every_bound_node() {
    let mut db = Database::new();
    let mut fs = FileStore::new();
    create_note(&mut db, &mut fs, &notes_dir(), "Plan".to_string(), None).unwrap();
    let note_id = db.notes[0].id.clone();
    update_note_title(&mut db, note_id.clone(), "Agenda".to_string())
        .expect("rename should succeed");
    assert_eq!(db.notes[0].title, "Agenda");
    assert_eq!(db.nodes[0].name, "Agenda");
    let detail = get_note(&db, &fs, note_id).unwrap();
    assert_eq!(detail.title, "Agenda");
    // the body file is untouched by a rename
    assert_eq!(detail.content, "# Plan\n\n");
}

#[test]
fn rename_of_note_without_bound_node_succeeds_and_touches_no_node() {
    let mut db = Database::new();
    let mut fs = FileStore::new();
    create_note(&mut db, &mut fs, &notes_dir(), "Other".to_string(), None).unwrap();
    // a bare note row with no binding
    insert_note(
        &mut db,
        &"loose".to_string(),
        &"Loose".to_string(),
        &"/data/notes/loose.md".to_string(),
        3,
    )
    .unwrap();
    update_note_title(&mut db, "loose".to_string(), "Renamed".to_string())
        .expect("rename should succeed");
    assert_eq!(db.notes[1].title, "Renamed");
    // the only node still carries the other note's name
    assert_eq!(db.nodes.len(), 1);
    assert_eq!(db.nodes[0].name, "Other");
}

#[test]
fn rename_of_missing_note_still_succeeds() {
    let mut db = Database::new();
    update_note_title(&mut db, "ghost".to_string(), "x".to_string()).expect("should succeed");
    assert_eq!(db.notes.len(), 0);
    assert_eq!(db.nodes.len(), 0);
}

#[test]
fn get_note_of_missing_row_fails() {
    let db = Database::new();
    let fs = FileStore::new();
    let r = get_note(&db, &fs, "ghost".to_string());
    assert!(matches!(r, Err(StoreError::NotFound(MissingKind::Note))));
}

#[test]
fn get_note_with_unreadable_body_fails() {
    let mut db = Database::new();
    let fs = FileStore::new();
    insert_note(
        &mut db,
        &"n1".to_string(),
        &"Plan".to_string(),
        &"/data/notes/n1.md".to_string(),
        3,
    )
    .unwrap();
    let r = get_note(&db, &fs, "n1".to_string());
    assert_eq!(r.err(), Some(StoreError::NotFound(MissingKind::NoteFile)));
    assert_eq!(
        StoreError::NotFound(MissingKind::NoteFile).message(),
        "note file not found"
    );
}

fn saga_outcome(faults: SagaFaults) -> (Database, FileStore, Result<(), StoreError>) {
    let mut db = Database::new();
    let mut fs = FileStore::new();
    let dir = notes_dir();
    let r = create_note_with(
        &mut db,
        &mut fs,
        &dir,
        &"Plan".to_string(),
        None,
        &"note-1".to_string(),
        &"node-1".to_string(),
        42,
        faults,
    );
    (db, fs, r)
}

#[test]
fn saga_with_no_fault_creates_everything() {
    let (db, fs, r) = saga_outcome(SagaFaults::none());
    assert_eq!(r, Ok(()));
    assert_eq!(db.nodes.len(), 1);
    assert_eq!(db.notes.len(), 1);
    assert_eq!(db.bindings.len(), 1);
    let path = make_note_file_path(&notes_dir(), &"note-1".to_string());
    let body = read_file(&fs, &path).expect("the body file exists");
    assert_eq!(body, "# Plan\n\n");
    assert_eq!(db.nodes[0].created_at, 42);
    assert_eq!(db.nodes[0].updated_at, 42);
}

#[test]
fn saga_fault_at_any_step_leaves_no_artifact_behind() {
    let cases = [
        SagaFaults { write_file: true, ..SagaFaults::none() },
        SagaFaults { insert_node: true, ..SagaFaults::none() },
        SagaFaults { insert_note: true, ..SagaFaults::none() },
        SagaFaults { insert_binding: true, ..SagaFaults::none() },
        SagaFaults { commit: true, ..SagaFaults::none() },
    ];
    for faults in cases {
        let (db, fs, r) = saga_outcome(faults);
        let expected = if faults.write_file {
            StoreError::FilesystemFailure
        } else {
            StoreError::StorageFailure
        };
        assert_eq!(r, Err(expected));
        assert_eq!(db.nodes.len(), 0);
        assert_eq!(db.notes.len(), 0);
        assert_eq!(db.bindings.len(), 0);
        let path = make_note_file_path(&notes_dir(), &"note-1".to_string());
        assert!(read_file(&fs, &path).is_none(), "the body file must be absent");
        assert_eq!(fs.files.len(), 0);
    }
}

#[test]
fn saga_rejects_an_id_conflict_and_compensates() {
    let mut db = Database::new();
    let mut fs = FileStore::new();
    let dir = notes_dir();
    create_note_with(
        &mut db,
        &mut fs,
        &dir,
        &"First".to_string(),
        None,
        &"note-1".to_string(),
        &"node-1".to_string(),
        1,
        SagaFaults::none(),
    )
    .unwrap();
    let r = create_note_with(
        &mut db,
        &mut fs,
        &dir,
        &"Second".to_string(),
        None,
        &"note-2".to_string(),
        &"node-1".to_string(),
        2,
        SagaFaults::none(),
    );
    assert_eq!(r, Err(StoreError::StorageFailure));
    assert_eq!(StoreError::StorageFailure.message(), "storage failure");
    assert_eq!(StoreError::FilesystemFailure.message(), "filesystem failure");
    assert_eq!(db.notes.len(), 1);
    assert_eq!(db.nodes.len(), 1);
    assert_eq!(db.bindings.len(), 1);
    let second_path = make_note_file_path(&dir, &"note-2".to_string());
    assert!(read_file(&fs, &second_path).is_none());
    // the first note's file is untouched
    let first_path = make_note_file_path(&dir, &"note-1".to_string());
    assert!(read_file(&fs, &first_path).is_some());
}

#[test]
fn create_note_under_parent_mounts_it_there() {
    let mut db = Database::new();
    let mut fs = FileStore::new();
    let parent = note_tree::tree::create_tree_node(
        &mut db,
        "folder".to_string(),
        "folder".to_string(),
        "notes".to_string(),
        None,
        None,
    )
    .unwrap();
    create_note(&mut db, &mut fs, &notes_dir(), "Plan".to_string(), Some(parent.clone()))
        .unwrap();
    assert_eq!(db.nodes.len(), 2);
    assert_eq!(db.nodes[1].parent_id, Some(parent));
}

#[test]
fn timestamp_failure_after_body_write_leaves_stores_out_of_sync() {
    let mut db = Database::new();
    let mut fs = FileStore::new();
    create_note(&mut db, &mut fs, &notes_dir(), "Plan".to_string(), None).unwrap();
    let note_id = db.notes[0].id.clone();
    let stamp_before = db.notes[0].updated_at;
    let r = note_tree::notes::update_note_content_with(
        &mut db,
        &mut fs,
        &note_id,
        &"new body".to_string(),
        99,
        true,
    );
    assert_eq!(r, Err(StoreError::StorageFailure));
    // the acknowledged gap: the file already holds the new body while the
    // row still carries the old update time
    assert_eq!(db.notes[0].updated_at, stamp_before);
    let path = db.notes[0].content_path.clone();
    assert_eq!(read_file(&fs, &path), Some("new body".to_string()));
}
