use note_tree::config::AppPaths;
use note_tree::files::{
    create_note_file, delete_note_file, make_note_file_path, read_file, write_file, FileStore,
};

#[test]
fn paths_derive_from_the_data_directory() {
    let paths = AppPaths::new("/home/someone/.local/share/app".to_string());
    assert_eq!(paths.data_dir, "/home/someone/.local/share/app");
    assert_eq!(paths.db_path(), "/home/someone/.local/share/app/db.sqlite");
    assert_eq!(paths.notes_dir, "/home/someone/.local/share/app/notes");
}

#[test]
fn note_file_paths_are_keyed_by_note_id() {
    let p = make_note_file_path(&"/d/notes".to_string(), &"abc".to_string());
    assert_eq!(p, "/d/notes/abc.md");
}

#[test]
fn file_store_write_read_delete_round_trip() {
    let mut fs = FileStore::new();
    let path = "/d/notes/a.md".to_string();
    assert!(read_file(&fs, &path).is_none());
    write_file(&mut fs, &path, &"one".to_string());
    assert_eq!(read_file(&fs, &path), Some("one".to_string()));
    // an overwrite replaces, it does not append
    write_file(&mut fs, &path, &"two".to_string());
    assert_eq!(read_file(&fs, &path), Some("two".to_string()));
    assert_eq!(fs.files.len(), 1);
    delete_note_file(&mut fs, &path);
    assert!(read_file(&fs, &path).is_none());
    // deleting an absent file is forgiven
    delete_note_file(&mut fs, &path);
    assert_eq!(fs.files.len(), 0);
}

#[test]
fn created_note_file_is_seeded_with_the_title_heading() {
    let mut fs = FileStore::new();
    let path = create_note_file(
        &mut fs,
        &"/d/notes".to_string(),
        &"id-1".to_string(),
        &"My Title".to_string(),
    );
    assert_eq!(path, "/d/notes/id-1.md");
    assert_eq!(read_file(&fs, &path), Some("# My Title\n\n".to_string()));
}
