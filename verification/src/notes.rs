//! Note commands: the cross-store creation saga, reads, renames and body
//! updates.
//!
//! A note is three relational rows (tree node, note row, binding) plus a
//! body file. The file cannot join the relational transaction, so
//! creation writes the file first and compensates by deleting it when
//! any later step fails; `SagaFaults` injects a failure at each step so
//! that the all-or-nothing shape of the protocol is stated and checked
//! for every way the saga can stop.

use vstd::prelude::*;

use crate::clock::now_ts;
use crate::error::{MissingKind, StoreError};
use crate::files::{
    create_note_file, delete_note_file, note_file_path, read_file, seed_content, write_file,
    FileStore,
};
use crate::ids::new_uuid;
use crate::store;
use crate::store::{
    binding_model, binds, bindings_view, has_node, has_note, node_model, nodes_view, note_index,
    note_row_model, notes_view, opt_ref_view, opt_view, BindingRow, Database, DbModel, NodeModel,
    NoteModel, NoteRow, ResourceKind, TreeNode,
};

verus! {

/// What a note read hands back: the row's metadata and the live body.
pub struct NoteDetail {
    pub id: String,
    pub title: String,
    pub content: String,
    pub created_at: i64,
    pub updated_at: i64,
}

#[verifier::ext_equal]
pub struct NoteDetailModel {
    pub id: Seq<char>,
    pub title: Seq<char>,
    pub content: Seq<char>,
    pub created_at: int,
    pub updated_at: int,
}

impl View for NoteDetail {
    type V = NoteDetailModel;

    open spec fn view(&self) -> NoteDetailModel {
        NoteDetailModel {
            id: self.id@,
            title: self.title@,
            content: self.content@,
            created_at: self.created_at as int,
            updated_at: self.updated_at as int,
        }
    }
}

/// One injectable failure per step of the creation saga: the body-file
/// write, the three row inserts, and the commit.
#[derive(Clone, Copy, Debug, PartialEq, Eq, Structural)]
pub struct SagaFaults {
    pub write_file: bool,
    pub insert_node: bool,
    pub insert_note: bool,
    pub insert_binding: bool,
    pub commit: bool,
}

impl SagaFaults {
    /// No step fails.
    pub fn none() -> (r: SagaFaults)
        ensures
            r == (SagaFaults {
                write_file: false,
                insert_node: false,
                insert_note: false,
                insert_binding: false,
                commit: false,
            }),
    {
        SagaFaults {
            write_file: false,
            insert_node: false,
            insert_note: false,
            insert_binding: false,
            commit: false,
        }
    }

    /// Whether any step inside the relational transaction fails.
    pub open spec fn any_transaction_fault(self) -> bool {
        self.insert_node || self.insert_note || self.insert_binding || self.commit
    }
}

/// What creating a note does to the two stores. The body file is written
/// first; if the file write fails nothing has been persisted. Any
/// failure after that rolls the relational side back untouched and
/// compensates by deleting the file just written.
pub open spec fn spec_create_note(
    db: DbModel,
    fsm: Map<Seq<char>, Seq<char>>,
    notes_dir: Seq<char>,
    title: Seq<char>,
    parent_id: Option<Seq<char>>,
    note_id: Seq<char>,
    node_id: Seq<char>,
    now: int,
    faults: SagaFaults,
) -> (Result<(), StoreError>, DbModel, Map<Seq<char>, Seq<char>>) {
    let path = note_file_path(notes_dir, note_id);
    if faults.write_file {
        (Err(StoreError::FilesystemFailure), db, fsm)
    } else {
        let written = fsm.insert(path, seed_content(title));
        if faults.any_transaction_fault() || has_node(db.nodes, node_id) || has_note(
            db.notes,
            note_id,
        ) {
            (Err(StoreError::StorageFailure), db, written.remove(path))
        } else {
            (
                Ok(()),
                DbModel {
                    nodes: db.nodes.push(node_model(node_id, parent_id, title, "note"@, "notes"@, 0, now)),
                    notes: db.notes.push(note_row_model(note_id, title, path, now)),
                    bindings: db.bindings.push(binding_model(node_id, note_id, ResourceKind::Note, now)),
                    ..db
                },
                written,
            )
        }
    }
}

/// Runs the note-creation saga from caller-supplied ids, stamp and fault
/// injection.
pub fn create_note_with(
    db: &mut Database,
    fs: &mut FileStore,
    notes_dir: &String,
    title: &String,
    parent_id: Option<&String>,
    note_id: &String,
    node_id: &String,
    now: i64,
    faults: SagaFaults,
) -> (r: Result<(), StoreError>)
    requires
        old(db).wf(),
        old(fs).wf(),
    ensures
        final(db).wf(),
        final(fs).wf(),
        ({
            let (res, dbm, fsm) = spec_create_note(
                old(db)@,
                old(fs)@,
                notes_dir@,
                title@,
                opt_ref_view(parent_id),
                note_id@,
                node_id@,
                now as int,
                faults,
            );
            r == res && final(db)@ == dbm && final(fs)@ == fsm
        }),
{
    if faults.write_file {
        return Err(StoreError::FilesystemFailure);
    }
    let path = create_note_file(fs, notes_dir, note_id, title);
    let transaction_fault = faults.insert_node || faults.insert_note || faults.insert_binding
        || faults.commit;
    let node_conflict = store::find_node(&db.nodes, node_id).is_some();
    let note_conflict = store::find_note(&db.notes, note_id).is_some();
    if transaction_fault || node_conflict || note_conflict {
        proof {
            if node_conflict {
                assert(has_node(old(db)@.nodes, node_id@));
            }
            if note_conflict {
                assert(has_note(old(db)@.notes, note_id@));
            }
        }
        delete_note_file(fs, &path);
        return Err(StoreError::StorageFailure);
    }
    if let Err(e) = store::insert_notes_tree_node(db, node_id, parent_id, title, 0, now) {
        return Err(e);
    }
    if let Err(e) = store::insert_note(db, note_id, title, &path, now) {
        return Err(e);
    }
    store::insert_node_note_resource(db, node_id, note_id, now);
    proof {
        let target = DbModel {
            nodes: old(db)@.nodes.push(
                node_model(node_id@, opt_ref_view(parent_id), title@, "note"@, "notes"@, 0, now as int),
            ),
            notes: old(db)@.notes.push(
                note_row_model(note_id@, title@, path@, now as int),
            ),
            bindings: old(db)@.bindings.push(
                binding_model(node_id@, note_id@, ResourceKind::Note, now as int),
            ),
            ..old(db)@
        };
        assert(final(db)@ =~= target);
    }
    Ok(())
}

/// Note creation is all-or-nothing across the stores. On success the
/// body file, the tree node, the note row and the binding all exist; on
/// any injected or key failure the relational store is exactly what it
/// was and the body file is absent again.
pub proof fn lemma_create_note_atomic(
    db: DbModel,
    fsm: Map<Seq<char>, Seq<char>>,
    notes_dir: Seq<char>,
    title: Seq<char>,
    parent_id: Option<Seq<char>>,
    note_id: Seq<char>,
    node_id: Seq<char>,
    now: int,
    faults: SagaFaults,
)
    requires
        !fsm.contains_key(note_file_path(notes_dir, note_id)),
    ensures
        ({
            let (res, dbm, out) = spec_create_note(
                db,
                fsm,
                notes_dir,
                title,
                parent_id,
                note_id,
                node_id,
                now,
                faults,
            );
            match res {
                Ok(()) => {
                    &&& out.contains_key(note_file_path(notes_dir, note_id))
                    &&& has_node(dbm.nodes, node_id)
                    &&& has_note(dbm.notes, note_id)
                    &&& binds(dbm.bindings, node_id, note_id, ResourceKind::Note)
                },
                Err(_) => dbm == db && out == fsm,
            }
        }),
{
    let path = note_file_path(notes_dir, note_id);
    let (res, dbm, out) = spec_create_note(
        db,
        fsm,
        notes_dir,
        title,
        parent_id,
        note_id,
        node_id,
        now,
        faults,
    );
    match res {
        Ok(()) => {
            let n = dbm.nodes.len() - 1;
            assert(dbm.nodes[n].id == node_id);
            let m = dbm.notes.len() - 1;
            assert(dbm.notes[m].id == note_id);
            let b = dbm.bindings.len() - 1;
            assert(dbm.bindings[b].node_id == node_id && dbm.bindings[b].resource_id == note_id
                && dbm.bindings[b].resource_kind == ResourceKind::Note);
        },
        Err(_) => {
            if !faults.write_file {
                assert(out =~= fsm);
            }
        },
    }
}

/// Whether `post` is `pre` with a note created under this title and
/// parent, for some generated ids and clock stamp, with no fault
/// injected.
pub open spec fn creates_note(
    pre_db: DbModel,
    pre_fs: Map<Seq<char>, Seq<char>>,
    post_db: DbModel,
    post_fs: Map<Seq<char>, Seq<char>>,
    notes_dir: Seq<char>,
    title: Seq<char>,
    parent_id: Option<Seq<char>>,
) -> bool {
    exists|ids: (Seq<char>, Seq<char>), t: int|
        #[trigger] spec_create_note(
            pre_db,
            pre_fs,
            notes_dir,
            title,
            parent_id,
            ids.0,
            ids.1,
            t,
            SagaFaults {
                write_file: false,
                insert_node: false,
                insert_note: false,
                insert_binding: false,
                commit: false,
            },
        ) == (Ok::<(), StoreError>(()), post_db, post_fs)
}

/// Creates a note under an optional parent: generates the note and node
/// ids, writes the seeded body file, and records the three rows in one
/// transaction, compensating the file on any failure.
pub fn create_note(
    db: &mut Database,
    fs: &mut FileStore,
    notes_dir: &String,
    title: String,
    parent_id: Option<String>,
) -> (r: Result<(), StoreError>)
    requires
        old(db).wf(),
        old(fs).wf(),
    ensures
        final(db).wf(),
        final(fs).wf(),
        r is Ok ==> creates_note(
            old(db)@,
            old(fs)@,
            final(db)@,
            final(fs)@,
            notes_dir@,
            title@,
            opt_view(parent_id),
        ),
        r is Err ==> final(db)@ == old(db)@ && r == Err::<(), StoreError>(
            StoreError::StorageFailure,
        ),
{
    let now = now_ts();
    let note_id = new_uuid();
    let node_id = new_uuid();
    let pref = parent_id.as_ref();
    proof {
        assert(opt_ref_view(pref) == opt_view(parent_id));
    }
    let faults = SagaFaults::none();
    let r = create_note_with(db, fs, notes_dir, &title, pref, &note_id, &node_id, now, faults);
    proof {
        if r is Ok {
            assert(creates_note(
                old(db)@,
                old(fs)@,
                db@,
                fs@,
                notes_dir@,
                title@,
                opt_view(parent_id),
            )) by {
                assert(spec_create_note(
                    old(db)@,
                    old(fs)@,
                    notes_dir@,
                    title@,
                    opt_view(parent_id),
                    (note_id@, node_id@).0,
                    (note_id@, node_id@).1,
                    now as int,
                    SagaFaults {
                        write_file: false,
                        insert_node: false,
                        insert_note: false,
                        insert_binding: false,
                        commit: false,
                    },
                ) == (Ok::<(), StoreError>(()), db@, fs@));
            }
        }
    }
    r
}

/// What reading a note yields: the row must exist and the body file must
/// be readable; the file is the authoritative body.
pub open spec fn spec_get_note(
    db: DbModel,
    fsm: Map<Seq<char>, Seq<char>>,
    note_id: Seq<char>,
) -> Result<NoteDetailModel, StoreError> {
    if !has_note(db.notes, note_id) {
        Err(StoreError::NotFound(MissingKind::Note))
    } else {
        let n = db.notes[note_index(db.notes, note_id)];
        if !fsm.contains_key(n.content_path) {
            Err(StoreError::NotFound(MissingKind::NoteFile))
        } else {
            Ok(
                NoteDetailModel {
                    id: note_id,
                    title: n.title,
                    content: fsm[n.content_path],
                    created_at: n.created_at,
                    updated_at: n.updated_at,
                },
            )
        }
    }
}

/// Reads a note: metadata from the row, body live from the file.
pub fn get_note(db: &Database, fs: &FileStore, note_id: String) -> (r: Result<
    NoteDetail,
    StoreError,
>)
    requires
        db.wf(),
        fs.wf(),
    ensures
        (match r {
            Ok(d) => spec_get_note(db@, fs@, note_id@) == Ok::<NoteDetailModel, StoreError>(d@),
            Err(e) => spec_get_note(db@, fs@, note_id@) == Err::<NoteDetailModel, StoreError>(e),
        }),
{
    let i = match store::find_note(&db.notes, &note_id) {
        None => {
            return Err(StoreError::NotFound(MissingKind::Note));
        },
        Some(i) => i,
    };
    proof {
        assert(has_note(db@.notes, note_id@));
        let j = note_index(db@.notes, note_id@);
        assert(0 <= j < db@.notes.len() && db@.notes[j].id == note_id@);
        if j != i as int {
            assert(db@.notes[j].id != db@.notes[i as int].id);
        }
    }
    let row = &db.notes[i];
    let content = match read_file(fs, &row.content_path) {
        None => {
            return Err(StoreError::NotFound(MissingKind::NoteFile));
        },
        Some(c) => c,
    };
    Ok(
        NoteDetail {
            id: note_id,
            title: row.title.clone(),
            content,
            created_at: row.created_at,
            updated_at: row.updated_at,
        },
    )
}


/// Whether this node displays this note.
fn node_binds_note(bindings: &Vec<BindingRow>, node_id: &String, note_id: &String) -> (r: bool)
    ensures
        r == binds(bindings_view(bindings@), node_id@, note_id@, ResourceKind::Note),
{
    let mut i: usize = 0;
    while i < bindings.len()
        invariant
            i <= bindings.len(),
            forall|k: int|
                0 <= k < i ==> !(bindings_view(bindings@)[k].node_id == node_id@ && bindings_view(
                    bindings@,
                )[k].resource_id == note_id@ && bindings_view(bindings@)[k].resource_kind
                    == ResourceKind::Note),
        decreases bindings.len() - i,
    {
        let b = &bindings[i];
        let kind_is_note = match b.resource_kind {
            ResourceKind::Note => true,
            ResourceKind::Snippet => false,
        };
        if kind_is_note && b.node_id.eq(node_id) && b.resource_id.eq(note_id) {
            proof {
                assert(bindings_view(bindings@)[i as int].node_id == node_id@);
            }
            return true;
        }
        i += 1;
    }
    false
}

/// What renaming a note does: the note row takes the new title, and so
/// does the name of every tree node whose binding references the note.
/// A missing note id, or a note with no bound node, updates nothing
/// there and still succeeds.
pub open spec fn spec_update_note_title(
    db: DbModel,
    note_id: Seq<char>,
    title: Seq<char>,
    now: int,
) -> DbModel {
    DbModel {
        notes: db.notes.map(
            |k: int, n: NoteModel|
                if n.id == note_id {
                    NoteModel { title, updated_at: now, ..n }
                } else {
                    n
                },
        ),
        nodes: db.nodes.map(
            |k: int, n: NodeModel|
                if binds(db.bindings, n.id, note_id, ResourceKind::Note) {
                    NodeModel { name: title, updated_at: now, ..n }
                } else {
                    n
                },
        ),
        ..db
    }
}

/// Renames a note from a caller-supplied stamp: one transaction updates
/// the note row and the name of every bound tree node.
pub fn update_note_title_with(db: &mut Database, note_id: &String, title: &String, now: i64)
    requires
        old(db).wf(),
    ensures
        final(db).wf(),
        final(db)@ == spec_update_note_title(old(db)@, note_id@, title@, now as int),
{
    let ghost target = spec_update_note_title(old(db)@, note_id@, title@, now as int);
    // statement one: the note row's title and update time
    match store::find_note(&db.notes, note_id) {
        None => {
            proof {
                assert(notes_view(db.notes@) =~= target.notes);
            }
        },
        Some(i) => {
            let prev = &db.notes[i];
            let row = NoteRow {
                id: prev.id.clone(),
                title: title.clone(),
                content_path: prev.content_path.clone(),
                created_at: prev.created_at,
                updated_at: now,
            };
            db.notes.set(i, row);
            proof {
                assert forall|k: int| 0 <= k < notes_view(db.notes@).len() implies notes_view(
                    db.notes@,
                )[k] =~= target.notes[k] by {
                    if k != i as int {
                        assert(notes_view(old(db).notes@)[i as int].id == note_id@);
                        assert(notes_view(old(db).notes@)[k].id != note_id@);
                    }
                }
                assert(notes_view(db.notes@) =~= target.notes);
            }
        },
    }
    // statement two: the name of every node bound to the note
    let ghost nodes0 = nodes_view(old(db).nodes@);
    let mut i: usize = 0;
    while i < db.nodes.len()
        invariant
            i <= db.nodes.len(),
            db.nodes@.len() == nodes0.len(),
            nodes0 == nodes_view(old(db).nodes@),
            target == spec_update_note_title(old(db)@, note_id@, title@, now as int),
            db.bindings@ == old(db).bindings@,
            db.snippets@ == old(db).snippets@,
            notes_view(db.notes@) == target.notes,
            forall|k: int| 0 <= k < i ==> nodes_view(db.nodes@)[k] == target.nodes[k],
            forall|k: int| i <= k < nodes0.len() ==> nodes_view(db.nodes@)[k] == nodes0[k],
        decreases db.nodes.len() - i,
    {
        let bound = node_binds_note(&db.bindings, &db.nodes[i].id, note_id);
        if bound {
            let prev = db.nodes[i].clone();
            let row = TreeNode {
                id: prev.id,
                parent_id: prev.parent_id,
                name: title.clone(),
                node_type: prev.node_type,
                scope: prev.scope,
                order_index: prev.order_index,
                description_note_id: prev.description_note_id,
                created_at: prev.created_at,
                updated_at: now,
            };
            db.nodes.set(i, row);
            proof {
                assert(nodes_view(db.nodes@)[i as int] =~= target.nodes[i as int]);
            }
        } else {
            proof {
                assert(nodes_view(db.nodes@)[i as int] =~= target.nodes[i as int]);
            }
        }
        i += 1;
    }
    proof {
        assert(nodes_view(db.nodes@) =~= target.nodes);
        assert(final(db)@ =~= target);
        assert forall|a: int, b: int|
            0 <= a < b < final(db)@.nodes.len() implies final(db)@.nodes[a].id
            != final(db)@.nodes[b].id by {
            assert(final(db)@.nodes[a].id == nodes0[a].id);
            assert(final(db)@.nodes[b].id == nodes0[b].id);
        }
        assert forall|a: int, b: int|
            0 <= a < b < final(db)@.notes.len() implies final(db)@.notes[a].id
            != final(db)@.notes[b].id by {
            assert(final(db)@.notes[a].id == notes_view(old(db).notes@)[a].id);
            assert(final(db)@.notes[b].id == notes_view(old(db).notes@)[b].id);
        }
    }
}

/// Whether `post` is `pre` with the note renamed, at some clock stamp.
pub open spec fn renames_note(
    pre: DbModel,
    post: DbModel,
    note_id: Seq<char>,
    title: Seq<char>,
) -> bool {
    exists|t: int| #[trigger] spec_update_note_title(pre, note_id, title, t) == post
}

/// Renames a note and keeps every bound tree node's label in sync.
pub fn update_note_title(db: &mut Database, note_id: String, title: String) -> (r: Result<
    (),
    StoreError,
>)
    requires
        old(db).wf(),
    ensures
        final(db).wf(),
        r is Ok,
        renames_note(old(db)@, final(db)@, note_id@, title@),
{
    let now = now_ts();
    update_note_title_with(db, &note_id, &title, now);
    proof {
        assert(renames_note(old(db)@, db@, note_id@, title@)) by {
            assert(spec_update_note_title(old(db)@, note_id@, title@, now as int) == db@);
        }
    }
    Ok(())
}

/// Renaming a note rewrites the note row's title and the label of every
/// bound node, and only those: a node with no binding to the note keeps
/// its row, so a note with no bound node leaves the node table whole —
/// and the rename still goes through.
pub proof fn lemma_rename_syncs_bound_nodes(
    db: DbModel,
    note_id: Seq<char>,
    title: Seq<char>,
    now: int,
)
    ensures
        ({
            let m = spec_update_note_title(db, note_id, title, now);
            &&& m.nodes.len() == db.nodes.len()
            &&& forall|i: int|
                0 <= i < db.nodes.len() && binds(db.bindings, db.nodes[i].id, note_id, ResourceKind::Note)
                    ==> #[trigger] m.nodes[i].name == title
            &&& forall|i: int|
                0 <= i < db.nodes.len() && !binds(db.bindings, db.nodes[i].id, note_id, ResourceKind::Note)
                    ==> #[trigger] m.nodes[i] == db.nodes[i]
            &&& (forall|i: int|
                0 <= i < db.nodes.len() ==> !binds(
                    db.bindings,
                    #[trigger] db.nodes[i].id,
                    note_id,
                    ResourceKind::Note,
                )) ==> m.nodes == db.nodes
            &&& forall|i: int|
                0 <= i < db.notes.len() && db.notes[i].id == note_id ==> #[trigger] m.notes[i].title
                    == title
        }),
{
    let m = spec_update_note_title(db, note_id, title, now);
    if forall|i: int|
        0 <= i < db.nodes.len() ==> !binds(
            db.bindings,
            #[trigger] db.nodes[i].id,
            note_id,
            ResourceKind::Note,
        ) {
        assert(m.nodes =~= db.nodes);
    }
}

/// What updating a note's body does: the row must exist; the body file
/// at the row's path takes the new content, and the row's update time is
/// refreshed.
pub open spec fn spec_update_note_content(
    db: DbModel,
    fsm: Map<Seq<char>, Seq<char>>,
    note_id: Seq<char>,
    content: Seq<char>,
    now: int,
) -> Result<(DbModel, Map<Seq<char>, Seq<char>>), StoreError> {
    if !has_note(db.notes, note_id) {
        Err(StoreError::NotFound(MissingKind::Note))
    } else {
        let n = db.notes[note_index(db.notes, note_id)];
        Ok(
            (
                DbModel {
                    notes: db.notes.map(
                        |k: int, m: NoteModel|
                            if m.id == note_id {
                                NoteModel { updated_at: now, ..m }
                            } else {
                                m
                            },
                    ),
                    ..db
                },
                fsm.insert(n.content_path, content),
            ),
        )
    }
}

/// Updates a note's body from a caller-supplied stamp: the file is
/// written first, then the row's update time in a separate step. When
/// the second step fails (injectable through `fail_timestamp`), the file
/// and the row fall out of sync: the new body is on disk while the row
/// still carries the old update time. That window is a consequence of
/// the file living outside the relational transaction, and it is stated
/// here rather than healed.
pub fn update_note_content_with(
    db: &mut Database,
    fs: &mut FileStore,
    note_id: &String,
    content: &String,
    now: i64,
    fail_timestamp: bool,
) -> (r: Result<(), StoreError>)
    requires
        old(db).wf(),
        old(fs).wf(),
    ensures
        final(db).wf(),
        final(fs).wf(),
        !fail_timestamp ==> (match spec_update_note_content(
            old(db)@,
            old(fs)@,
            note_id@,
            content@,
            now as int,
        ) {
            Ok((dbm, fsm)) => r is Ok && final(db)@ == dbm && final(fs)@ == fsm,
            Err(e) => r == Err::<(), StoreError>(e) && final(db)@ == old(db)@ && final(fs)@ == old(
                fs,
            )@,
        }),
        fail_timestamp ==> final(db)@ == old(db)@ && (match spec_update_note_content(
            old(db)@,
            old(fs)@,
            note_id@,
            content@,
            now as int,
        ) {
            Ok((dbm, fsm)) => r == Err::<(), StoreError>(StoreError::StorageFailure) && final(fs)@
                == fsm,
            Err(e) => r == Err::<(), StoreError>(e) && final(fs)@ == old(fs)@,
        }),
{
    let i = match store::find_note(&db.notes, note_id) {
        None => {
            return Err(StoreError::NotFound(MissingKind::Note));
        },
        Some(i) => i,
    };
    proof {
        assert(has_note(db@.notes, note_id@));
        let j = note_index(db@.notes, note_id@);
        assert(0 <= j < db@.notes.len() && db@.notes[j].id == note_id@);
        if j != i as int {
            assert(db@.notes[j].id != db@.notes[i as int].id);
        }
    }
    let path = db.notes[i].content_path.clone();
    write_file(fs, &path, content);
    if fail_timestamp {
        return Err(StoreError::StorageFailure);
    }
    let prev = &db.notes[i];
    let row = NoteRow {
        id: prev.id.clone(),
        title: prev.title.clone(),
        content_path: prev.content_path.clone(),
        created_at: prev.created_at,
        updated_at: now,
    };
    db.notes.set(i, row);
    proof {
        let target = spec_update_note_content(
            old(db)@,
            old(fs)@,
            note_id@,
            content@,
            now as int,
        ).unwrap();
        assert forall|k: int| 0 <= k < notes_view(db.notes@).len() implies notes_view(db.notes@)[k]
            =~= target.0.notes[k] by {
            if k != i as int {
                assert(notes_view(old(db).notes@)[i as int].id == note_id@);
                assert(notes_view(old(db).notes@)[k].id != note_id@);
            }
        }
        assert(notes_view(db.notes@) =~= target.0.notes);
        assert(final(db)@ =~= target.0);
        assert forall|a: int, b: int|
            0 <= a < b < final(db)@.notes.len() implies final(db)@.notes[a].id
            != final(db)@.notes[b].id by {
            assert(final(db)@.notes[a].id == notes_view(old(db).notes@)[a].id);
            assert(final(db)@.notes[b].id == notes_view(old(db).notes@)[b].id);
        }
    }
    Ok(())
}

/// Whether `post` is `pre` with the note's body replaced, at some clock
/// stamp.
pub open spec fn replaces_note_body(
    pre_db: DbModel,
    pre_fs: Map<Seq<char>, Seq<char>>,
    post_db: DbModel,
    post_fs: Map<Seq<char>, Seq<char>>,
    note_id: Seq<char>,
    content: Seq<char>,
) -> bool {
    exists|t: int|
        #[trigger] spec_update_note_content(pre_db, pre_fs, note_id, content, t) == Ok::<
            (DbModel, Map<Seq<char>, Seq<char>>),
            StoreError,
        >((post_db, post_fs))
}

/// Replaces a note's body: the file is the authoritative store, so the
/// file is written first and the row only refreshes its update time.
pub fn update_note_content(
    db: &mut Database,
    fs: &mut FileStore,
    note_id: String,
    content: String,
) -> (r: Result<(), StoreError>)
    requires
        old(db).wf(),
        old(fs).wf(),
    ensures
        final(db).wf(),
        final(fs).wf(),
        r is Ok <==> has_note(old(db)@.notes, note_id@),
        r is Ok ==> replaces_note_body(
            old(db)@,
            old(fs)@,
            final(db)@,
            final(fs)@,
            note_id@,
            content@,
        ),
        r is Err ==> r == Err::<(), StoreError>(StoreError::NotFound(MissingKind::Note))
            && final(db)@ == old(db)@ && final(fs)@ == old(fs)@,
{
    let now = now_ts();
    let r = update_note_content_with(db, fs, &note_id, &content, now, false);
    proof {
        if r is Ok {
            assert(replaces_note_body(old(db)@, old(fs)@, db@, fs@, note_id@, content@)) by {
                assert(spec_update_note_content(old(db)@, old(fs)@, note_id@, content@, now as int)
                    == Ok::<(DbModel, Map<Seq<char>, Seq<char>>), StoreError>((db@, fs@)));
            }
        }
    }
    r
}

} // verus!
