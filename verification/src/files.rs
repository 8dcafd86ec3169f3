//! The note-body file store.
//!
//! Note bodies live outside the relational store, one file per note,
//! addressed by path. The store is viewed as a map from path to content;
//! writing inserts or overwrites, deleting removes and forgives an
//! absent file, as the compensation step of the creation protocol needs.

use vstd::prelude::*;
use vstd::string::StringExecFns;

verus! {

/// One stored file.
pub struct NoteFile {
    pub path: String,
    pub content: String,
}

/// The file side of the system: note bodies addressed by path.
pub struct FileStore {
    pub files: Vec<NoteFile>,
}

/// The map a file sequence denotes; a later row wins a path, though the
/// store never keeps two rows of one path.
pub open spec fn files_map(files: Seq<NoteFile>) -> Map<Seq<char>, Seq<char>>
    decreases files.len(),
{
    if files.len() == 0 {
        Map::empty()
    } else {
        files_map(files.drop_last()).insert(files.last().path@, files.last().content@)
    }
}

impl View for FileStore {
    type V = Map<Seq<char>, Seq<char>>;

    open spec fn view(&self) -> Map<Seq<char>, Seq<char>> {
        files_map(self.files@)
    }
}

impl FileStore {
    /// Paths act as keys: at most one file per path.
    pub open spec fn wf(&self) -> bool {
        forall|i: int, j: int|
            0 <= i < j < self.files@.len() ==> self.files@[i].path@ != self.files@[j].path@
    }

    /// An empty file store.
    pub fn new() -> (r: FileStore)
        ensures
            r.wf(),
            r@ == Map::<Seq<char>, Seq<char>>::empty(),
    {
        FileStore { files: Vec::new() }
    }
}

/// A key of the map is a path of some row.
proof fn lemma_files_map_domain(files: Seq<NoteFile>, path: Seq<char>)
    ensures
        files_map(files).contains_key(path) <==> exists|i: int|
            0 <= i < files.len() && files[i].path@ == path,
    decreases files.len(),
{
    if files.len() > 0 {
        lemma_files_map_domain(files.drop_last(), path);
        if files.last().path@ != path {
            if exists|i: int| 0 <= i < files.len() && files[i].path@ == path {
                let i = choose|i: int| 0 <= i < files.len() && files[i].path@ == path;
                assert(i < files.len() - 1 && files.drop_last()[i].path@ == path);
            }
        }
    }
}

/// Under unique paths, each row's content is what the map holds at its
/// path.
proof fn lemma_files_map_index(files: Seq<NoteFile>, i: int)
    requires
        forall|a: int, b: int| 0 <= a < b < files.len() ==> files[a].path@ != files[b].path@,
        0 <= i < files.len(),
    ensures
        files_map(files).contains_key(files[i].path@),
        files_map(files)[files[i].path@] == files[i].content@,
    decreases files.len(),
{
    if i == files.len() - 1 {
    } else {
        lemma_files_map_index(files.drop_last(), i);
        assert(files.last().path@ != files[i].path@);
    }
}

/// The index of the file at this path, if any.
fn find_file(files: &Vec<NoteFile>, path: &String) -> (r: Option<usize>)
    ensures
        match r {
            Some(i) => i < files.len() && files@[i as int].path@ == path@,
            None => forall|i: int| 0 <= i < files@.len() ==> files@[i].path@ != path@,
        },
{
    let mut i: usize = 0;
    while i < files.len()
        invariant
            i <= files.len(),
            forall|k: int| 0 <= k < i ==> files@[k].path@ != path@,
        decreases files.len() - i,
    {
        if files[i].path.eq(path) {
            return Some(i);
        }
        i += 1;
    }
    None
}

/// Writes a file: the path now holds exactly this content, and no other
/// file moves.
pub fn write_file(fs: &mut FileStore, path: &String, content: &String)
    requires
        old(fs).wf(),
    ensures
        final(fs).wf(),
        final(fs)@ == old(fs)@.insert(path@, content@),
{
    let ghost files0 = old(fs).files@;
    match find_file(&fs.files, path) {
        Some(i) => {
            let row = NoteFile { path: path.clone(), content: content.clone() };
            fs.files.set(i, row);
            proof {
                lemma_files_map_update(files0, i as int, path@, content@);
                assert(final(fs).files@ == files0.update(i as int, row));
                assert(row.path@ == path@ && row.content@ == content@);
                assert(files_map(files0.update(i as int, row)) == files_map(files0).insert(
                    path@,
                    content@,
                ));
                assert(forall|a: int, b: int|
                    0 <= a < b < final(fs).files@.len() ==> final(fs).files@[a].path@ != final(fs)
                        .files@[b].path@);
            }
        },
        None => {
            let row = NoteFile { path: path.clone(), content: content.clone() };
            fs.files.push(row);
            proof {
                assert(final(fs).files@.drop_last() =~= files0);
                assert(final(fs).files@.last() == row);
                assert(final(fs)@ == files_map(final(fs).files@.drop_last()).insert(
                    path@,
                    content@,
                ));
                assert forall|a: int, b: int|
                    0 <= a < b < final(fs).files@.len() implies final(fs).files@[a].path@
                    != final(fs).files@[b].path@ by {
                    if b < files0.len() {
                        assert(files0[a].path@ != files0[b].path@);
                    }
                }
            }
        },
    }
}

/// Under unique paths, overwriting the row of a path is inserting into
/// the map.
proof fn lemma_files_map_update(
    files: Seq<NoteFile>,
    i: int,
    path: Seq<char>,
    content: Seq<char>,
)
    requires
        forall|a: int, b: int| 0 <= a < b < files.len() ==> files[a].path@ != files[b].path@,
        0 <= i < files.len(),
        files[i].path@ == path,
    ensures
        forall|f: NoteFile|
            f.path@ == path && f.content@ == content ==> files_map(files.update(i, f)) == files_map(
                files,
            ).insert(path, content),
    decreases files.len(),
{
    assert forall|f: NoteFile|
        f.path@ == path && f.content@ == content implies files_map(files.update(i, f))
        == files_map(files).insert(path, content) by {
        if i == files.len() - 1 {
            assert(files.update(i, f).drop_last() =~= files.drop_last());
            assert(files.update(i, f).last() == f);
            assert(files_map(files.update(i, f)) =~= files_map(files).insert(path, content));
        } else {
            lemma_files_map_update(files.drop_last(), i, path, content);
            assert(files.update(i, f).drop_last() =~= files.drop_last().update(i, f));
            assert(files.update(i, f).last() == files.last());
            assert(files.last().path@ != path);
            assert(files_map(files.update(i, f)) =~= files_map(files).insert(path, content));
        }
    }
}

/// Under unique paths, removing the row of a path is removing from the
/// map.
proof fn lemma_files_map_remove(files: Seq<NoteFile>, i: int)
    requires
        forall|a: int, b: int| 0 <= a < b < files.len() ==> files[a].path@ != files[b].path@,
        0 <= i < files.len(),
    ensures
        files_map(files.remove(i)) == files_map(files).remove(files[i].path@),
    decreases files.len(),
{
    let path = files[i].path@;
    if i == files.len() - 1 {
        assert(files.remove(i) =~= files.drop_last());
        lemma_files_map_domain(files.drop_last(), path);
        assert(!files_map(files.drop_last()).contains_key(path));
        assert(files_map(files.drop_last()) =~= files_map(files).remove(path));
    } else {
        lemma_files_map_remove(files.drop_last(), i);
        assert(files.remove(i).drop_last() =~= files.drop_last().remove(i));
        assert(files.remove(i).last() == files.last());
        assert(files.last().path@ != path);
        assert(files_map(files.remove(i)) =~= files_map(files).remove(path));
    }
}

/// Removes the file at a path if one is there; an absent file is
/// forgiven, as compensation must be.
pub fn remove_file(fs: &mut FileStore, path: &String)
    requires
        old(fs).wf(),
    ensures
        final(fs).wf(),
        final(fs)@ == old(fs)@.remove(path@),
{
    let ghost files0 = old(fs).files@;
    match find_file(&fs.files, path) {
        Some(i) => {
            fs.files.remove(i);
            proof {
                assert(files0[i as int].path@ == path@);
                lemma_files_map_remove(files0, i as int);
                assert forall|a: int, b: int|
                    0 <= a < b < final(fs).files@.len() implies final(fs).files@[a].path@
                    != final(fs).files@[b].path@ by {
                    let a0 = if a < i as int {
                        a
                    } else {
                        a + 1
                    };
                    let b0 = if b < i as int {
                        b
                    } else {
                        b + 1
                    };
                    assert(final(fs).files@[a] == files0[a0]);
                    assert(final(fs).files@[b] == files0[b0]);
                }
            }
        },
        None => {
            proof {
                lemma_files_map_domain(files0, path@);
                assert(!files_map(files0).contains_key(path@));
                assert(final(fs)@ =~= old(fs)@.remove(path@));
            }
        },
    }
}

/// Reads the file at a path.
pub fn read_file(fs: &FileStore, path: &String) -> (r: Option<String>)
    requires
        fs.wf(),
    ensures
        match r {
            Some(c) => fs@.contains_key(path@) && c@ == fs@[path@],
            None => !fs@.contains_key(path@),
        },
{
    match find_file(&fs.files, path) {
        Some(i) => {
            proof {
                lemma_files_map_index(fs.files@, i as int);
            }
            Some(fs.files[i].content.clone())
        },
        None => {
            proof {
                lemma_files_map_domain(fs.files@, path@);
            }
            None
        },
    }
}

/// The path of a note's body file: `<notes_dir>/<note_id>.md`.
pub open spec fn note_file_path(notes_dir: Seq<char>, note_id: Seq<char>) -> Seq<char> {
    notes_dir + "/"@ + note_id + ".md"@
}

/// The body a fresh note starts with: its title as a heading.
pub open spec fn seed_content(title: Seq<char>) -> Seq<char> {
    "# "@ + title + "\n\n"@
}

/// Builds the body-file path of a note.
pub fn make_note_file_path(notes_dir: &String, note_id: &String) -> (r: String)
    ensures
        r@ == note_file_path(notes_dir@, note_id@),
{
    let mut p = notes_dir.clone();
    p.append("/");
    p.append(note_id.as_str());
    p.append(".md");
    p
}

/// Creates a note's body file, seeded with the title heading, and hands
/// back its path.
pub fn create_note_file(
    fs: &mut FileStore,
    notes_dir: &String,
    note_id: &String,
    title: &String,
) -> (r: String)
    requires
        old(fs).wf(),
    ensures
        final(fs).wf(),
        r@ == note_file_path(notes_dir@, note_id@),
        final(fs)@ == old(fs)@.insert(r@, seed_content(title@)),
{
    let path = make_note_file_path(notes_dir, note_id);
    let mut content = String::from_str("# ");
    content.append(title.as_str());
    content.append("\n\n");
    write_file(fs, &path, &content);
    path
}

/// Deletes a note's body file, for teardown and for the compensation
/// step of the creation protocol; an absent file is ignored.
pub fn delete_note_file(fs: &mut FileStore, path: &String)
    requires
        old(fs).wf(),
    ensures
        final(fs).wf(),
        final(fs)@ == old(fs)@.remove(path@),
{
    remove_file(fs, path);
}

} // verus!
