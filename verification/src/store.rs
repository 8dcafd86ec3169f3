//! The relational state of the resource tree.
//!
//! `Database` holds the four tables: tree nodes, notes, snippets and
//! node-resource bindings. Row ids act as primary keys: the store keeps
//! them unique, and an insert that would duplicate one is rejected the way
//! the relational engine would reject a key conflict. Everything an
//! operation does to the state is specified against the ghost `DbModel`
//! view, a sequence of rows per table over mathematical values.

use vstd::prelude::*;

use crate::error::{MissingKind, StoreError};

verus! {

// ---------------------------------------------------------------------------
// Rows
// ---------------------------------------------------------------------------

/// One row of the tree-node table. A node is a position in the forest; a
/// `None` parent makes it a root of its scope.
pub struct TreeNode {
    pub id: String,
    pub parent_id: Option<String>,
    pub name: String,
    pub node_type: String,
    pub scope: String,
    pub order_index: i64,
    pub description_note_id: Option<String>,
    pub created_at: i64,
    pub updated_at: i64,
}

/// One row of the note table. The body itself lives in a file at
/// `content_path`; the row only indexes it.
pub struct NoteRow {
    pub id: String,
    pub title: String,
    pub content_path: String,
    pub created_at: i64,
    pub updated_at: i64,
}

/// One row of the snippet table; the body is stored inline.
pub struct SnippetRow {
    pub id: String,
    pub title: String,
    pub language: Option<String>,
    pub content: String,
    pub created_at: i64,
    pub updated_at: i64,
}

/// The type tag of a bound resource.
#[derive(Clone, Copy, Debug, PartialEq, Eq, Structural)]
pub enum ResourceKind {
    Note,
    Snippet,
}

/// One row of the binding table: "this node currently displays this
/// resource".
pub struct BindingRow {
    pub node_id: String,
    pub resource_id: String,
    pub resource_kind: ResourceKind,
    pub created_at: i64,
}

// ---------------------------------------------------------------------------
// Ghost models
// ---------------------------------------------------------------------------

#[verifier::ext_equal]
pub struct NodeModel {
    pub id: Seq<char>,
    pub parent_id: Option<Seq<char>>,
    pub name: Seq<char>,
    pub node_type: Seq<char>,
    pub scope: Seq<char>,
    pub order_index: int,
    pub description_note_id: Option<Seq<char>>,
    pub created_at: int,
    pub updated_at: int,
}

#[verifier::ext_equal]
pub struct NoteModel {
    pub id: Seq<char>,
    pub title: Seq<char>,
    pub content_path: Seq<char>,
    pub created_at: int,
    pub updated_at: int,
}

#[verifier::ext_equal]
pub struct SnippetModel {
    pub id: Seq<char>,
    pub title: Seq<char>,
    pub language: Option<Seq<char>>,
    pub content: Seq<char>,
    pub created_at: int,
    pub updated_at: int,
}

#[verifier::ext_equal]
pub struct BindingModel {
    pub node_id: Seq<char>,
    pub resource_id: Seq<char>,
    pub resource_kind: ResourceKind,
    pub created_at: int,
}

/// The view of an optional string column.
pub open spec fn opt_view(o: Option<String>) -> Option<Seq<char>> {
    match o {
        Some(s) => Some(s@),
        None => None,
    }
}


/// The view of the node table.
pub open spec fn nodes_view(rows: Seq<TreeNode>) -> Seq<NodeModel> {
    rows.map(|k: int, n: TreeNode| n@)
}

/// The view of the note table.
pub open spec fn notes_view(rows: Seq<NoteRow>) -> Seq<NoteModel> {
    rows.map(|k: int, n: NoteRow| n@)
}

/// The view of the snippet table.
pub open spec fn snippets_view(rows: Seq<SnippetRow>) -> Seq<SnippetModel> {
    rows.map(|k: int, s: SnippetRow| s@)
}

/// The view of the binding table.
pub open spec fn bindings_view(rows: Seq<BindingRow>) -> Seq<BindingModel> {
    rows.map(|k: int, b: BindingRow| b@)
}

impl View for TreeNode {
    type V = NodeModel;

    open spec fn view(&self) -> NodeModel {
        NodeModel {
            id: self.id@,
            parent_id: opt_view(self.parent_id),
            name: self.name@,
            node_type: self.node_type@,
            scope: self.scope@,
            order_index: self.order_index as int,
            description_note_id: opt_view(self.description_note_id),
            created_at: self.created_at as int,
            updated_at: self.updated_at as int,
        }
    }
}

impl View for NoteRow {
    type V = NoteModel;

    open spec fn view(&self) -> NoteModel {
        NoteModel {
            id: self.id@,
            title: self.title@,
            content_path: self.content_path@,
            created_at: self.created_at as int,
            updated_at: self.updated_at as int,
        }
    }
}

impl View for SnippetRow {
    type V = SnippetModel;

    open spec fn view(&self) -> SnippetModel {
        SnippetModel {
            id: self.id@,
            title: self.title@,
            language: opt_view(self.language),
            content: self.content@,
            created_at: self.created_at as int,
            updated_at: self.updated_at as int,
        }
    }
}

impl View for BindingRow {
    type V = BindingModel;

    open spec fn view(&self) -> BindingModel {
        BindingModel {
            node_id: self.node_id@,
            resource_id: self.resource_id@,
            resource_kind: self.resource_kind,
            created_at: self.created_at as int,
        }
    }
}

impl Clone for TreeNode {
    fn clone(&self) -> (r: Self)
        ensures
            r@ == self@,
    {
        TreeNode {
            id: self.id.clone(),
            parent_id: clone_opt_string(&self.parent_id),
            name: self.name.clone(),
            node_type: self.node_type.clone(),
            scope: self.scope.clone(),
            order_index: self.order_index,
            description_note_id: clone_opt_string(&self.description_note_id),
            created_at: self.created_at,
            updated_at: self.updated_at,
        }
    }
}

/// Clones an optional string column.
pub fn clone_opt_string(o: &Option<String>) -> (r: Option<String>)
    ensures
        opt_view(r) == opt_view(*o),
{
    match o {
        Some(s) => Some(s.clone()),
        None => None,
    }
}

// ---------------------------------------------------------------------------
// The database
// ---------------------------------------------------------------------------

/// The in-store relational state: one vector of rows per table.
pub struct Database {
    pub nodes: Vec<TreeNode>,
    pub notes: Vec<NoteRow>,
    pub snippets: Vec<SnippetRow>,
    pub bindings: Vec<BindingRow>,
}

#[verifier::ext_equal]
pub struct DbModel {
    pub nodes: Seq<NodeModel>,
    pub notes: Seq<NoteModel>,
    pub snippets: Seq<SnippetModel>,
    pub bindings: Seq<BindingModel>,
}

impl View for Database {
    type V = DbModel;

    open spec fn view(&self) -> DbModel {
        DbModel {
            nodes: nodes_view(self.nodes@),
            notes: notes_view(self.notes@),
            snippets: snippets_view(self.snippets@),
            bindings: bindings_view(self.bindings@),
        }
    }
}

/// Whether some node row carries this id.
pub open spec fn has_node(nodes: Seq<NodeModel>, id: Seq<char>) -> bool {
    exists|i: int| 0 <= i < nodes.len() && nodes[i].id == id
}

/// The index of the node row with this id (meaningful under `wf`).
pub open spec fn node_index(nodes: Seq<NodeModel>, id: Seq<char>) -> int {
    choose|i: int| 0 <= i < nodes.len() && nodes[i].id == id
}

/// Whether some note row carries this id.
pub open spec fn has_note(notes: Seq<NoteModel>, id: Seq<char>) -> bool {
    exists|i: int| 0 <= i < notes.len() && notes[i].id == id
}

/// The index of the note row with this id (meaningful under `wf`).
pub open spec fn note_index(notes: Seq<NoteModel>, id: Seq<char>) -> int {
    choose|i: int| 0 <= i < notes.len() && notes[i].id == id
}

/// Whether some snippet row carries this id.
pub open spec fn has_snippet(snippets: Seq<SnippetModel>, id: Seq<char>) -> bool {
    exists|i: int| 0 <= i < snippets.len() && snippets[i].id == id
}

/// The index of the snippet row with this id (meaningful under `wf`).
pub open spec fn snippet_index(snippets: Seq<SnippetModel>, id: Seq<char>) -> int {
    choose|i: int| 0 <= i < snippets.len() && snippets[i].id == id
}

/// Whether some node row names this id as its parent.
pub open spec fn has_child(nodes: Seq<NodeModel>, id: Seq<char>) -> bool {
    exists|i: int| 0 <= i < nodes.len() && nodes[i].parent_id == Some(id)
}

/// Whether some binding row references this node.
pub open spec fn node_bound(bindings: Seq<BindingModel>, node_id: Seq<char>) -> bool {
    exists|i: int| 0 <= i < bindings.len() && bindings[i].node_id == node_id
}

/// Whether this node displays this resource.
pub open spec fn binds(
    bindings: Seq<BindingModel>,
    node_id: Seq<char>,
    resource_id: Seq<char>,
    kind: ResourceKind,
) -> bool {
    exists|i: int|
        0 <= i < bindings.len() && bindings[i].node_id == node_id
            && bindings[i].resource_id == resource_id && bindings[i].resource_kind == kind
}

/// Whether some binding row references this resource.
pub open spec fn resource_bound(
    bindings: Seq<BindingModel>,
    resource_id: Seq<char>,
    kind: ResourceKind,
) -> bool {
    exists|i: int|
        0 <= i < bindings.len() && bindings[i].resource_id == resource_id
            && bindings[i].resource_kind == kind
}

impl DbModel {
    /// Row ids act as primary keys: at most one row per id and table.
    pub open spec fn wf(self) -> bool {
        &&& (forall|i: int, j: int|
            0 <= i < j < self.nodes.len() ==> self.nodes[i].id != self.nodes[j].id)
        &&& (forall|i: int, j: int|
            0 <= i < j < self.notes.len() ==> self.notes[i].id != self.notes[j].id)
        &&& (forall|i: int, j: int|
            0 <= i < j < self.snippets.len() ==> self.snippets[i].id != self.snippets[j].id)
    }
}

impl Database {
    pub open spec fn wf(&self) -> bool {
        self@.wf()
    }

    /// An empty store.
    pub fn new() -> (r: Database)
        ensures
            r.wf(),
            r@.nodes.len() == 0,
            r@.notes.len() == 0,
            r@.snippets.len() == 0,
            r@.bindings.len() == 0,
    {
        Database { nodes: Vec::new(), notes: Vec::new(), snippets: Vec::new(), bindings: Vec::new() }
    }
}

// ---------------------------------------------------------------------------
// Searches
// ---------------------------------------------------------------------------

/// The index of the node row with this id, if any.
pub fn find_node(nodes: &Vec<TreeNode>, id: &String) -> (r: Option<usize>)
    ensures
        match r {
            Some(i) => i < nodes.len() && nodes_view(nodes@)[i as int].id == id@,
            None => !has_node(nodes_view(nodes@), id@),
        },
{
    let mut i: usize = 0;
    while i < nodes.len()
        invariant
            i <= nodes.len(),
            forall|k: int| 0 <= k < i ==> nodes_view(nodes@)[k].id != id@,
        decreases nodes.len() - i,
    {
        if nodes[i].id.eq(id) {
            return Some(i);
        }
        i += 1;
    }
    None
}

/// The index of the note row with this id, if any.
pub fn find_note(notes: &Vec<NoteRow>, id: &String) -> (r: Option<usize>)
    ensures
        match r {
            Some(i) => i < notes.len() && notes_view(notes@)[i as int].id == id@,
            None => !has_note(notes_view(notes@), id@),
        },
{
    let mut i: usize = 0;
    while i < notes.len()
        invariant
            i <= notes.len(),
            forall|k: int| 0 <= k < i ==> notes_view(notes@)[k].id != id@,
        decreases notes.len() - i,
    {
        if notes[i].id.eq(id) {
            return Some(i);
        }
        i += 1;
    }
    None
}

/// The index of the snippet row with this id, if any.
pub fn find_snippet(snippets: &Vec<SnippetRow>, id: &String) -> (r: Option<usize>)
    ensures
        match r {
            Some(i) => i < snippets.len() && snippets_view(snippets@)[i as int].id == id@,
            None => !has_snippet(snippets_view(snippets@), id@),
        },
{
    let mut i: usize = 0;
    while i < snippets.len()
        invariant
            i <= snippets.len(),
            forall|k: int| 0 <= k < i ==> snippets_view(snippets@)[k].id != id@,
        decreases snippets.len() - i,
    {
        if snippets[i].id.eq(id) {
            return Some(i);
        }
        i += 1;
    }
    None
}

/// Whether some node row names this id as its parent.
pub fn any_child_of(nodes: &Vec<TreeNode>, id: &String) -> (r: bool)
    ensures
        r == has_child(nodes_view(nodes@), id@),
{
    let mut i: usize = 0;
    while i < nodes.len()
        invariant
            i <= nodes.len(),
            forall|k: int| 0 <= k < i ==> nodes_view(nodes@)[k].parent_id != Some(id@),
        decreases nodes.len() - i,
    {
        match &nodes[i].parent_id {
            Some(p) => {
                if p.eq(id) {
                    assert(nodes_view(nodes@)[i as int].parent_id == Some(id@));
                    return true;
                }
            },
            None => {},
        }
        i += 1;
    }
    false
}

/// Whether some binding row references this node.
pub fn any_binding_on(bindings: &Vec<BindingRow>, node_id: &String) -> (r: bool)
    ensures
        r == node_bound(bindings_view(bindings@), node_id@),
{
    let mut i: usize = 0;
    while i < bindings.len()
        invariant
            i <= bindings.len(),
            forall|k: int| 0 <= k < i ==> bindings_view(bindings@)[k].node_id != node_id@,
        decreases bindings.len() - i,
    {
        if bindings[i].node_id.eq(node_id) {
            assert(bindings_view(bindings@)[i as int].node_id == node_id@);
            return true;
        }
        i += 1;
    }
    false
}

// ---------------------------------------------------------------------------
// Row-level statements
// ---------------------------------------------------------------------------
//
// Each function below is one relational statement: an insert that is
// rejected on a key conflict, an update or delete addressed by id, a
// point read. Transactional grouping and validation live in the command
// layers; consistency across statements is the caller's burden.

/// The view of an optional string argument.
pub open spec fn opt_ref_view(o: Option<&String>) -> Option<Seq<char>> {
    match o {
        Some(s) => Some(s@),
        None => None,
    }
}

/// Copies an optional string argument into an owned column value.
pub fn copy_opt_ref(o: Option<&String>) -> (r: Option<String>)
    ensures
        opt_view(r) == opt_ref_view(o),
{
    match o {
        Some(s) => Some(s.clone()),
        None => None,
    }
}

/// The node row that an insert with these arguments produces: both
/// timestamps start at `now`, and no description note is attached.
pub open spec fn node_model(
    id: Seq<char>,
    parent_id: Option<Seq<char>>,
    name: Seq<char>,
    node_type: Seq<char>,
    scope: Seq<char>,
    order_index: int,
    now: int,
) -> NodeModel {
    NodeModel {
        id,
        parent_id,
        name,
        node_type,
        scope,
        order_index,
        description_note_id: None,
        created_at: now,
        updated_at: now,
    }
}

/// What inserting a node row does: a key conflict on the id is rejected,
/// otherwise the row is appended.
pub open spec fn spec_insert_node_row(db: DbModel, node: NodeModel) -> Result<DbModel, StoreError> {
    if has_node(db.nodes, node.id) {
        Err(StoreError::StorageFailure)
    } else {
        Ok(DbModel { nodes: db.nodes.push(node), ..db })
    }
}

/// Inserts a generic tree node row.
pub fn insert_tree_node(
    db: &mut Database,
    node_id: &String,
    parent_id: Option<&String>,
    name: &String,
    node_type: &String,
    scope: &String,
    order_index: i64,
    now: i64,
) -> (r: Result<(), StoreError>)
    requires
        old(db).wf(),
    ensures
        final(db).wf(),
        (match spec_insert_node_row(
            old(db)@,
            node_model(
                node_id@,
                opt_ref_view(parent_id),
                name@,
                node_type@,
                scope@,
                order_index as int,
                now as int,
            ),
        ) {
            Ok(m) => r is Ok && final(db)@ == m,
            Err(e) => r == Err::<(), StoreError>(e) && final(db)@ == old(db)@,
        }),
{
    let ghost node = node_model(
        node_id@,
        opt_ref_view(parent_id),
        name@,
        node_type@,
        scope@,
        order_index as int,
        now as int,
    );
    if let Some(_) = find_node(&db.nodes, node_id) {
        proof {
            assert(has_node(old(db)@.nodes, node.id));
        }
        return Err(StoreError::StorageFailure);
    }
    let row = TreeNode {
        id: node_id.clone(),
        parent_id: copy_opt_ref(parent_id),
        name: name.clone(),
        node_type: node_type.clone(),
        scope: scope.clone(),
        order_index,
        description_note_id: None,
        created_at: now,
        updated_at: now,
    };
    proof {
        assert(row@ == node);
    }
    db.nodes.push(row);
    proof {
        assert(final(db)@.nodes =~= old(db)@.nodes.push(node));
        assert(final(db)@ =~= DbModel { nodes: old(db)@.nodes.push(node), ..old(db)@ });
        assert forall|i: int, j: int|
            0 <= i < j < final(db)@.nodes.len() implies final(db)@.nodes[i].id
            != final(db)@.nodes[j].id by {
            if j < old(db)@.nodes.len() {
                assert(old(db)@.nodes[i].id != old(db)@.nodes[j].id);
            } else {
                assert(!has_node(old(db)@.nodes, node.id));
            }
        }
    }
    Ok(())
}


/// Inserts a tree node row in the notes scope, as the note-creation saga
/// does: kind tag `note`, scope `notes`.
pub fn insert_notes_tree_node(
    db: &mut Database,
    node_id: &String,
    parent_id: Option<&String>,
    name: &String,
    order_index: i64,
    now: i64,
) -> (r: Result<(), StoreError>)
    requires
        old(db).wf(),
    ensures
        final(db).wf(),
        (match spec_insert_node_row(
            old(db)@,
            node_model(
                node_id@,
                opt_ref_view(parent_id),
                name@,
                "note"@,
                "notes"@,
                order_index as int,
                now as int,
            ),
        ) {
            Ok(m) => r is Ok && final(db)@ == m,
            Err(e) => r == Err::<(), StoreError>(e) && final(db)@ == old(db)@,
        }),
{
    let node_type = String::from_str("note");
    let scope = String::from_str("notes");
    insert_tree_node(db, node_id, parent_id, name, &node_type, &scope, order_index, now)
}

/// Inserts a tree node row in the snippets scope: kind tag `snippet`,
/// scope `snippets`.
pub fn insert_snippets_tree_node(
    db: &mut Database,
    node_id: &String,
    parent_id: Option<&String>,
    name: &String,
    order_index: i64,
    now: i64,
) -> (r: Result<(), StoreError>)
    requires
        old(db).wf(),
    ensures
        final(db).wf(),
        (match spec_insert_node_row(
            old(db)@,
            node_model(
                node_id@,
                opt_ref_view(parent_id),
                name@,
                "snippet"@,
                "snippets"@,
                order_index as int,
                now as int,
            ),
        ) {
            Ok(m) => r is Ok && final(db)@ == m,
            Err(e) => r == Err::<(), StoreError>(e) && final(db)@ == old(db)@,
        }),
{
    let node_type = String::from_str("snippet");
    let scope = String::from_str("snippets");
    insert_tree_node(db, node_id, parent_id, name, &node_type, &scope, order_index, now)
}

/// The note row that an insert with these arguments produces.
pub open spec fn note_row_model(
    id: Seq<char>,
    title: Seq<char>,
    content_path: Seq<char>,
    now: int,
) -> NoteModel {
    NoteModel { id, title, content_path, created_at: now, updated_at: now }
}

/// What inserting a note row does.
pub open spec fn spec_insert_note_row(db: DbModel, note: NoteModel) -> Result<DbModel, StoreError> {
    if has_note(db.notes, note.id) {
        Err(StoreError::StorageFailure)
    } else {
        Ok(DbModel { notes: db.notes.push(note), ..db })
    }
}

/// Inserts a note row; the body file at `content_path` is the caller's
/// business.
pub fn insert_note(
    db: &mut Database,
    note_id: &String,
    title: &String,
    content_path: &String,
    now: i64,
) -> (r: Result<(), StoreError>)
    requires
        old(db).wf(),
    ensures
        final(db).wf(),
        (match spec_insert_note_row(
            old(db)@,
            note_row_model(note_id@, title@, content_path@, now as int),
        ) {
            Ok(m) => r is Ok && final(db)@ == m,
            Err(e) => r == Err::<(), StoreError>(e) && final(db)@ == old(db)@,
        }),
{
    let ghost note = note_row_model(note_id@, title@, content_path@, now as int);
    if let Some(_) = find_note(&db.notes, note_id) {
        proof {
            assert(has_note(old(db)@.notes, note.id));
        }
        return Err(StoreError::StorageFailure);
    }
    let row = NoteRow {
        id: note_id.clone(),
        title: title.clone(),
        content_path: content_path.clone(),
        created_at: now,
        updated_at: now,
    };
    db.notes.push(row);
    proof {
        assert(final(db)@.notes =~= old(db)@.notes.push(note));
        assert(final(db)@ =~= DbModel { notes: old(db)@.notes.push(note), ..old(db)@ });
        assert forall|i: int, j: int|
            0 <= i < j < final(db)@.notes.len() implies final(db)@.notes[i].id
            != final(db)@.notes[j].id by {
            if j < old(db)@.notes.len() {
                assert(old(db)@.notes[i].id != old(db)@.notes[j].id);
            } else {
                assert(!has_note(old(db)@.notes, note.id));
            }
        }
    }
    Ok(())
}

/// The snippet row that an insert with these arguments produces.
pub open spec fn snippet_row_model(
    id: Seq<char>,
    title: Seq<char>,
    language: Option<Seq<char>>,
    content: Seq<char>,
    now: int,
) -> SnippetModel {
    SnippetModel { id, title, language, content, created_at: now, updated_at: now }
}

/// What inserting a snippet row does.
pub open spec fn spec_insert_snippet_row(
    db: DbModel,
    snippet: SnippetModel,
) -> Result<DbModel, StoreError> {
    if has_snippet(db.snippets, snippet.id) {
        Err(StoreError::StorageFailure)
    } else {
        Ok(DbModel { snippets: db.snippets.push(snippet), ..db })
    }
}

/// Inserts a snippet row, body inline, language optional.
pub fn insert_snippet(
    db: &mut Database,
    snippet_id: &String,
    title: &String,
    language: Option<&String>,
    content: &String,
    now: i64,
) -> (r: Result<(), StoreError>)
    requires
        old(db).wf(),
    ensures
        final(db).wf(),
        (match spec_insert_snippet_row(
            old(db)@,
            snippet_row_model(snippet_id@, title@, opt_ref_view(language), content@, now as int),
        ) {
            Ok(m) => r is Ok && final(db)@ == m,
            Err(e) => r == Err::<(), StoreError>(e) && final(db)@ == old(db)@,
        }),
{
    let ghost snippet = snippet_row_model(
        snippet_id@,
        title@,
        opt_ref_view(language),
        content@,
        now as int,
    );
    if let Some(_) = find_snippet(&db.snippets, snippet_id) {
        proof {
            assert(has_snippet(old(db)@.snippets, snippet.id));
        }
        return Err(StoreError::StorageFailure);
    }
    let row = SnippetRow {
        id: snippet_id.clone(),
        title: title.clone(),
        language: copy_opt_ref(language),
        content: content.clone(),
        created_at: now,
        updated_at: now,
    };
    db.snippets.push(row);
    proof {
        assert(final(db)@.snippets =~= old(db)@.snippets.push(snippet));
        assert(final(db)@ =~= DbModel { snippets: old(db)@.snippets.push(snippet), ..old(db)@ });
        assert forall|i: int, j: int|
            0 <= i < j < final(db)@.snippets.len() implies final(db)@.snippets[i].id
            != final(db)@.snippets[j].id by {
            if j < old(db)@.snippets.len() {
                assert(old(db)@.snippets[i].id != old(db)@.snippets[j].id);
            } else {
                assert(!has_snippet(old(db)@.snippets, snippet.id));
            }
        }
    }
    Ok(())
}

/// The binding row that an insert with these arguments produces.
pub open spec fn binding_model(
    node_id: Seq<char>,
    resource_id: Seq<char>,
    kind: ResourceKind,
    now: int,
) -> BindingModel {
    BindingModel { node_id, resource_id, resource_kind: kind, created_at: now }
}

/// What inserting a binding row does: the join table has no key, so the
/// row is always appended.
pub open spec fn spec_insert_binding_row(db: DbModel, binding: BindingModel) -> DbModel {
    DbModel { bindings: db.bindings.push(binding), ..db }
}

/// Mounts a note onto a tree node.
pub fn insert_node_note_resource(db: &mut Database, node_id: &String, note_id: &String, now: i64)
    requires
        old(db).wf(),
    ensures
        final(db).wf(),
        final(db)@ == spec_insert_binding_row(
            old(db)@,
            binding_model(node_id@, note_id@, ResourceKind::Note, now as int),
        ),
{
    let row = BindingRow {
        node_id: node_id.clone(),
        resource_id: note_id.clone(),
        resource_kind: ResourceKind::Note,
        created_at: now,
    };
    db.bindings.push(row);
    proof {
        let binding = binding_model(node_id@, note_id@, ResourceKind::Note, now as int);
        assert(final(db)@.bindings =~= old(db)@.bindings.push(binding));
        assert(final(db)@ =~= spec_insert_binding_row(old(db)@, binding));
    }
}

/// Mounts a snippet onto a tree node.
pub fn insert_node_snippet_resource(
    db: &mut Database,
    node_id: &String,
    snippet_id: &String,
    now: i64,
)
    requires
        old(db).wf(),
    ensures
        final(db).wf(),
        final(db)@ == spec_insert_binding_row(
            old(db)@,
            binding_model(node_id@, snippet_id@, ResourceKind::Snippet, now as int),
        ),
{
    let row = BindingRow {
        node_id: node_id.clone(),
        resource_id: snippet_id.clone(),
        resource_kind: ResourceKind::Snippet,
        created_at: now,
    };
    db.bindings.push(row);
    proof {
        let binding = binding_model(node_id@, snippet_id@, ResourceKind::Snippet, now as int);
        assert(final(db)@.bindings =~= old(db)@.bindings.push(binding));
        assert(final(db)@ =~= spec_insert_binding_row(old(db)@, binding));
    }
}


/// What the node-row update statement does: the row addressed by id gets
/// the supplied parent, name and order and a refreshed update time; every
/// other row, and a missing id, is left alone.
pub open spec fn spec_update_node_row(
    nodes: Seq<NodeModel>,
    id: Seq<char>,
    parent_id: Option<Seq<char>>,
    name: Seq<char>,
    order_index: int,
    now: int,
) -> Seq<NodeModel> {
    nodes.map(
        |k: int, n: NodeModel|
            if n.id == id {
                NodeModel { parent_id, name, order_index, updated_at: now, ..n }
            } else {
                n
            },
    )
}

/// Updates the basic fields of a tree node row (parent, name, order).
/// The supplied parent is always written, a `None` included.
pub fn update_tree_node(
    db: &mut Database,
    node_id: &String,
    parent_id: Option<&String>,
    name: &String,
    order_index: i64,
    now: i64,
)
    requires
        old(db).wf(),
    ensures
        final(db).wf(),
        final(db)@ == (DbModel {
            nodes: spec_update_node_row(
                old(db)@.nodes,
                node_id@,
                opt_ref_view(parent_id),
                name@,
                order_index as int,
                now as int,
            ),
            ..old(db)@
        }),
{
    let ghost target = spec_update_node_row(
        old(db)@.nodes,
        node_id@,
        opt_ref_view(parent_id),
        name@,
        order_index as int,
        now as int,
    );
    match find_node(&db.nodes, node_id) {
        None => {
            proof {
                assert(final(db)@.nodes =~= target);
                assert(final(db)@ =~= (DbModel { nodes: target, ..old(db)@ }));
            }
        },
        Some(i) => {
            let prev = db.nodes[i].clone();
            let row = TreeNode {
                id: prev.id,
                parent_id: copy_opt_ref(parent_id),
                name: name.clone(),
                node_type: prev.node_type,
                scope: prev.scope,
                order_index,
                description_note_id: prev.description_note_id,
                created_at: prev.created_at,
                updated_at: now,
            };
            proof {
                assert(row@ == (NodeModel {
                    parent_id: opt_ref_view(parent_id),
                    name: name@,
                    order_index: order_index as int,
                    updated_at: now as int,
                    ..old(db)@.nodes[i as int]
                }));
            }
            db.nodes.set(i, row);
            proof {
                assert forall|k: int| 0 <= k < final(db)@.nodes.len() implies final(db)@.nodes[k]
                    =~= target[k] by {
                    if k != i as int {
                        assert(old(db)@.nodes[i as int].id == node_id@);
                        assert(old(db)@.nodes[k].id != node_id@);
                    }
                }
                assert(final(db)@.nodes =~= target);
                assert(final(db)@ =~= (DbModel { nodes: target, ..old(db)@ }));
                assert forall|a: int, b: int|
                    0 <= a < b < final(db)@.nodes.len() implies final(db)@.nodes[a].id
                    != final(db)@.nodes[b].id by {
                    assert(final(db)@.nodes[a].id == old(db)@.nodes[a].id);
                    assert(final(db)@.nodes[b].id == old(db)@.nodes[b].id);
                }
            }
        },
    }
}

/// What the node-row delete statement does: the row addressed by id goes
/// away; a missing id deletes nothing. The id uniqueness of `wf` makes
/// the removed index the only match.
pub open spec fn spec_delete_node_row(nodes: Seq<NodeModel>, id: Seq<char>) -> Seq<NodeModel> {
    if has_node(nodes, id) {
        nodes.remove(node_index(nodes, id))
    } else {
        nodes
    }
}

/// Deletes a tree node row. The caller checks for children and bindings
/// first; this statement only removes the row.
pub fn delete_tree_node(db: &mut Database, node_id: &String)
    requires
        old(db).wf(),
    ensures
        final(db).wf(),
        final(db)@ == (DbModel {
            nodes: spec_delete_node_row(old(db)@.nodes, node_id@),
            ..old(db)@
        }),
{
    let ghost target = spec_delete_node_row(old(db)@.nodes, node_id@);
    match find_node(&db.nodes, node_id) {
        None => {
            proof {
                assert(final(db)@ =~= (DbModel { nodes: target, ..old(db)@ }));
            }
        },
        Some(i) => {
            proof {
                let nv = old(db)@.nodes;
                assert(has_node(nv, node_id@));
                let j = node_index(nv, node_id@);
                assert(0 <= j < nv.len() && nv[j].id == node_id@);
                if j != i as int {
                    assert(nv[j].id != nv[i as int].id);
                }
                assert(j == i as int);
            }
            db.nodes.remove(i);
            proof {
                assert(final(db)@.nodes =~= nodes_view(old(db).nodes@).remove(i as int));
                assert(final(db)@ =~= (DbModel { nodes: target, ..old(db)@ }));
                assert forall|a: int, b: int|
                    0 <= a < b < final(db)@.nodes.len() implies final(db)@.nodes[a].id
                    != final(db)@.nodes[b].id by {
                    let nv = old(db)@.nodes;
                    let a0 = if a < i as int { a } else { a + 1 };
                    let b0 = if b < i as int { b } else { b + 1 };
                    assert(final(db)@.nodes[a] == nv[a0]);
                    assert(final(db)@.nodes[b] == nv[b0]);
                }
            }
        },
    }
}

/// Reads one snippet row: id, title, language, content and timestamps.
pub fn get_snippet(db: &Database, snippet_id: &String) -> (r: Result<
    (String, String, Option<String>, String, i64, i64),
    StoreError,
>)
    requires
        db.wf(),
    ensures
        (match r {
            Ok((id, title, language, content, created_at, updated_at)) => {
                &&& has_snippet(db@.snippets, snippet_id@)
                &&& ({
                    let s = db@.snippets[snippet_index(db@.snippets, snippet_id@)];
                    &&& id@ == s.id
                    &&& title@ == s.title
                    &&& opt_view(language) == s.language
                    &&& content@ == s.content
                    &&& created_at as int == s.created_at
                    &&& updated_at as int == s.updated_at
                })
            },
            Err(e) => !has_snippet(db@.snippets, snippet_id@) && e == StoreError::NotFound(
                MissingKind::Snippet,
            ),
        }),
{
    match find_snippet(&db.snippets, snippet_id) {
        None => Err(StoreError::NotFound(MissingKind::Snippet)),
        Some(i) => {
            proof {
                let sv = db@.snippets;
                assert(has_snippet(sv, snippet_id@));
                let j = snippet_index(sv, snippet_id@);
                assert(0 <= j < sv.len() && sv[j].id == snippet_id@);
                if j != i as int {
                    assert(sv[j].id != sv[i as int].id);
                }
            }
            let row = &db.snippets[i];
            Ok((
                row.id.clone(),
                row.title.clone(),
                clone_opt_string(&row.language),
                row.content.clone(),
                row.created_at,
                row.updated_at,
            ))
        },
    }
}

/// What the snippet-row update statement does: the row addressed by id
/// gets the supplied title, language and content and a refreshed update
/// time; a missing id updates nothing.
pub open spec fn spec_update_snippet_row(
    snippets: Seq<SnippetModel>,
    id: Seq<char>,
    title: Seq<char>,
    language: Option<Seq<char>>,
    content: Seq<char>,
    now: int,
) -> Seq<SnippetModel> {
    snippets.map(
        |k: int, s: SnippetModel|
            if s.id == id {
                SnippetModel { title, language, content, updated_at: now, ..s }
            } else {
                s
            },
    )
}

/// Updates the basic fields of a snippet row (title, language, content).
pub fn update_snippet(
    db: &mut Database,
    snippet_id: &String,
    title: &String,
    language: Option<&String>,
    content: &String,
    now: i64,
)
    requires
        old(db).wf(),
    ensures
        final(db).wf(),
        final(db)@ == (DbModel {
            snippets: spec_update_snippet_row(
                old(db)@.snippets,
                snippet_id@,
                title@,
                opt_ref_view(language),
                content@,
                now as int,
            ),
            ..old(db)@
        }),
{
    let ghost target = spec_update_snippet_row(
        old(db)@.snippets,
        snippet_id@,
        title@,
        opt_ref_view(language),
        content@,
        now as int,
    );
    match find_snippet(&db.snippets, snippet_id) {
        None => {
            proof {
                assert(final(db)@.snippets =~= target);
                assert(final(db)@ =~= (DbModel { snippets: target, ..old(db)@ }));
            }
        },
        Some(i) => {
            let prev = &db.snippets[i];
            let row = SnippetRow {
                id: prev.id.clone(),
                title: title.clone(),
                language: copy_opt_ref(language),
                content: content.clone(),
                created_at: prev.created_at,
                updated_at: now,
            };
            db.snippets.set(i, row);
            proof {
                assert forall|k: int| 0 <= k < final(db)@.snippets.len() implies final(db)@
                    .snippets[k] =~= target[k] by {
                    if k != i as int {
                        assert(old(db)@.snippets[i as int].id == snippet_id@);
                        assert(old(db)@.snippets[k].id != snippet_id@);
                    }
                }
                assert(final(db)@.snippets =~= target);
                assert(final(db)@ =~= (DbModel { snippets: target, ..old(db)@ }));
                assert forall|a: int, b: int|
                    0 <= a < b < final(db)@.snippets.len() implies final(db)@.snippets[a].id
                    != final(db)@.snippets[b].id by {
                    assert(final(db)@.snippets[a].id == old(db)@.snippets[a].id);
                    assert(final(db)@.snippets[b].id == old(db)@.snippets[b].id);
                }
            }
        },
    }
}

/// What the snippet-row delete statement does.
pub open spec fn spec_delete_snippet_row(
    snippets: Seq<SnippetModel>,
    id: Seq<char>,
) -> Seq<SnippetModel> {
    if has_snippet(snippets, id) {
        snippets.remove(snippet_index(snippets, id))
    } else {
        snippets
    }
}

/// Deletes a snippet row; bindings and the tree node are not touched.
pub fn delete_snippet(db: &mut Database, snippet_id: &String)
    requires
        old(db).wf(),
    ensures
        final(db).wf(),
        final(db)@ == (DbModel {
            snippets: spec_delete_snippet_row(old(db)@.snippets, snippet_id@),
            ..old(db)@
        }),
{
    let ghost target = spec_delete_snippet_row(old(db)@.snippets, snippet_id@);
    match find_snippet(&db.snippets, snippet_id) {
        None => {
            proof {
                assert(final(db)@ =~= (DbModel { snippets: target, ..old(db)@ }));
            }
        },
        Some(i) => {
            proof {
                let sv = old(db)@.snippets;
                assert(has_snippet(sv, snippet_id@));
                let j = snippet_index(sv, snippet_id@);
                assert(0 <= j < sv.len() && sv[j].id == snippet_id@);
                if j != i as int {
                    assert(sv[j].id != sv[i as int].id);
                }
                assert(j == i as int);
            }
            db.snippets.remove(i);
            proof {
                assert(final(db)@.snippets =~= snippets_view(old(db).snippets@).remove(i as int));
                assert(final(db)@ =~= (DbModel { snippets: target, ..old(db)@ }));
                assert forall|a: int, b: int|
                    0 <= a < b < final(db)@.snippets.len() implies final(db)@.snippets[a].id
                    != final(db)@.snippets[b].id by {
                    let sv = old(db)@.snippets;
                    let a0 = if a < i as int { a } else { a + 1 };
                    let b0 = if b < i as int { b } else { b + 1 };
                    assert(final(db)@.snippets[a] == sv[a0]);
                    assert(final(db)@.snippets[b] == sv[b0]);
                }
            }
        },
    }
}

/// Whether a binding row survives the unbind-by-resource statement.
pub open spec fn binding_survives_unbind(
    b: BindingModel,
    resource_id: Seq<char>,
    kind: ResourceKind,
) -> bool {
    !(b.resource_id == resource_id && b.resource_kind == kind)
}

/// What the unbind-by-resource statement does: every binding row that
/// references this resource goes away; the rest keep their order.
pub open spec fn spec_unbind_resource(
    bindings: Seq<BindingModel>,
    resource_id: Seq<char>,
    kind: ResourceKind,
) -> Seq<BindingModel> {
    bindings.filter(|b: BindingModel| binding_survives_unbind(b, resource_id, kind))
}

/// Removes every binding row that references this resource, as when the
/// resource itself is deleted independently of its node.
pub fn unbind_resource(db: &mut Database, resource_id: &String, kind: ResourceKind)
    requires
        old(db).wf(),
    ensures
        final(db).wf(),
        final(db)@ == (DbModel {
            bindings: spec_unbind_resource(old(db)@.bindings, resource_id@, kind),
            ..old(db)@
        }),
{
    let ghost bv = old(db)@.bindings;
    let ghost pred = |b: BindingModel| binding_survives_unbind(b, resource_id@, kind);
    let mut kept: Vec<BindingRow> = Vec::new();
    let mut i: usize = 0;
    proof {
        assert(bv.subrange(0, 0) =~= Seq::<BindingModel>::empty());
        reveal(Seq::filter);
    }
    while i < db.bindings.len()
        invariant
            i <= db.bindings.len(),
            db == old(db),
            bv == old(db)@.bindings,
            pred == (|b: BindingModel| binding_survives_unbind(b, resource_id@, kind)),
            bindings_view(kept@) == bv.subrange(0, i as int).filter(pred),
        decreases db.bindings.len() - i,
    {
        let b = &db.bindings[i];
        let keep = if b.resource_id.eq(resource_id) {
            match (b.resource_kind, kind) {
                (ResourceKind::Note, ResourceKind::Note) => false,
                (ResourceKind::Snippet, ResourceKind::Snippet) => false,
                _ => true,
            }
        } else {
            true
        };
        proof {
            assert(keep == pred(bv[i as int]));
        }
        if keep {
            kept.push(BindingRow {
                node_id: b.node_id.clone(),
                resource_id: b.resource_id.clone(),
                resource_kind: b.resource_kind,
                created_at: b.created_at,
            });
        }
        proof {
            reveal(Seq::filter);
            assert(bv.subrange(0, i + 1 as int).drop_last() =~= bv.subrange(0, i as int));
            assert(bv.subrange(0, i + 1 as int).last() == bv[i as int]);
            if keep {
                assert(bindings_view(kept@) =~= bv.subrange(0, i as int).filter(pred).push(
                    bv[i as int],
                ));
            }
            assert(bindings_view(kept@) =~= bv.subrange(0, i + 1 as int).filter(pred));
        }
        i += 1;
    }
    proof {
        assert(bv.subrange(0, bv.len() as int) =~= bv);
    }
    db.bindings = kept;
    proof {
        assert(final(db)@ =~= (DbModel {
            bindings: spec_unbind_resource(old(db)@.bindings, resource_id@, kind),
            ..old(db)@
        }));
    }
}


/// The node the first binding of this resource names, if any: how a
/// resource's metadata finds its display node without the caller
/// tracking the node id.
pub open spec fn spec_find_node_for_resource(
    bindings: Seq<BindingModel>,
    resource_id: Seq<char>,
    kind: ResourceKind,
) -> Option<Seq<char>>
    decreases bindings.len(),
{
    if bindings.len() == 0 {
        None
    } else if bindings[0].resource_id == resource_id && bindings[0].resource_kind == kind {
        Some(bindings[0].node_id)
    } else {
        spec_find_node_for_resource(bindings.drop_first(), resource_id, kind)
    }
}

/// A clean prefix moves the search to the suffix.
proof fn lemma_find_node_skip(
    bindings: Seq<BindingModel>,
    resource_id: Seq<char>,
    kind: ResourceKind,
    i: int,
)
    requires
        0 <= i <= bindings.len(),
        forall|k: int|
            0 <= k < i ==> !(bindings[k].resource_id == resource_id
                && (#[trigger] bindings[k]).resource_kind == kind),
    ensures
        spec_find_node_for_resource(bindings, resource_id, kind) == spec_find_node_for_resource(
            bindings.skip(i),
            resource_id,
            kind,
        ),
    decreases i,
{
    if i == 0 {
        assert(bindings.skip(0) =~= bindings);
    } else {
        lemma_find_node_skip(bindings.drop_first(), resource_id, kind, i - 1);
        assert(bindings.drop_first().skip(i - 1) =~= bindings.skip(i));
    }
}

/// Finds the node that displays this resource: the node id of the first
/// binding that references it, if any.
pub fn find_node_for_resource(
    db: &Database,
    resource_id: &String,
    kind: ResourceKind,
) -> (r: Option<String>)
    ensures
        opt_view(r) == spec_find_node_for_resource(db@.bindings, resource_id@, kind),
        r is Some <==> resource_bound(db@.bindings, resource_id@, kind),
{
    let ghost bv = db@.bindings;
    let mut i: usize = 0;
    while i < db.bindings.len()
        invariant
            i <= db.bindings.len(),
            bv == db@.bindings,
            forall|k: int|
                0 <= k < i ==> !(bv[k].resource_id == resource_id@ && (#[trigger] bv[k]).resource_kind
                    == kind),
        decreases db.bindings.len() - i,
    {
        let b = &db.bindings[i];
        let kind_matches = match (b.resource_kind, kind) {
            (ResourceKind::Note, ResourceKind::Note) => true,
            (ResourceKind::Snippet, ResourceKind::Snippet) => true,
            _ => false,
        };
        if kind_matches && b.resource_id.eq(resource_id) {
            proof {
                lemma_find_node_skip(bv, resource_id@, kind, i as int);
                assert(bv.skip(i as int)[0] == bv[i as int]);
                assert(bv[i as int].resource_id == resource_id@ && bv[i as int].resource_kind
                    == kind);
            }
            return Some(b.node_id.clone());
        }
        i += 1;
    }
    proof {
        lemma_find_node_skip(bv, resource_id@, kind, i as int);
        assert(bv.skip(i as int) =~= Seq::<BindingModel>::empty());
        if resource_bound(bv, resource_id@, kind) {
            let w = choose|w: int|
                0 <= w < bv.len() && bv[w].resource_id == resource_id@ && bv[w].resource_kind
                    == kind;
            assert(!(bv[w].resource_id == resource_id@ && bv[w].resource_kind == kind));
        }
    }
    None
}

} // verus!
