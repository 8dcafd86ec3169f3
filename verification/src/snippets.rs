//! Snippet commands: fully relational, so there is no file leg and no
//! compensation — one transaction covers each mutation.
//!
//! Deleting a snippet removes its rows and its bindings but leaves the
//! tree node alive on purpose: the generic node deletion, with its
//! children-and-bindings guard, is the one teardown path for nodes.

use vstd::prelude::*;

use crate::clock::now_ts;
use crate::error::{MissingKind, StoreError};
use crate::ids::new_uuid;
use crate::store;
use crate::store::{
    binding_model, has_node, has_snippet, node_model, opt_ref_view, opt_view,
    snippet_index, snippet_row_model, spec_delete_snippet_row, spec_unbind_resource,
    spec_update_snippet_row, Database, DbModel, ResourceKind,
};

verus! {

/// What a snippet read hands back.
pub struct SnippetDetail {
    pub id: String,
    pub title: String,
    pub language: Option<String>,
    pub content: String,
    pub created_at: i64,
    pub updated_at: i64,
}

#[verifier::ext_equal]
pub struct SnippetDetailModel {
    pub id: Seq<char>,
    pub title: Seq<char>,
    pub language: Option<Seq<char>>,
    pub content: Seq<char>,
    pub created_at: int,
    pub updated_at: int,
}

impl View for SnippetDetail {
    type V = SnippetDetailModel;

    open spec fn view(&self) -> SnippetDetailModel {
        SnippetDetailModel {
            id: self.id@,
            title: self.title@,
            language: crate::store::opt_view(self.language),
            content: self.content@,
            created_at: self.created_at as int,
            updated_at: self.updated_at as int,
        }
    }
}

/// What creating a snippet does: one transaction inserts the tree node
/// (snippets scope, order zero), the snippet row and the binding; a key
/// conflict on either generated id rejects the whole transaction.
pub open spec fn spec_create_snippet(
    db: DbModel,
    title: Seq<char>,
    language: Option<Seq<char>>,
    content: Seq<char>,
    parent_id: Option<Seq<char>>,
    snippet_id: Seq<char>,
    node_id: Seq<char>,
    now: int,
) -> Result<DbModel, StoreError> {
    if has_node(db.nodes, node_id) || has_snippet(db.snippets, snippet_id) {
        Err(StoreError::StorageFailure)
    } else {
        Ok(
            DbModel {
                nodes: db.nodes.push(
                    node_model(node_id, parent_id, title, "snippet"@, "snippets"@, 0, now),
                ),
                snippets: db.snippets.push(
                    snippet_row_model(snippet_id, title, language, content, now),
                ),
                bindings: db.bindings.push(
                    binding_model(node_id, snippet_id, ResourceKind::Snippet, now),
                ),
                ..db
            },
        )
    }
}

/// Creates a snippet from caller-supplied ids and stamp.
pub fn create_snippet_with(
    db: &mut Database,
    title: &String,
    language: Option<&String>,
    content: &String,
    parent_id: Option<&String>,
    snippet_id: &String,
    node_id: &String,
    now: i64,
) -> (r: Result<(), StoreError>)
    requires
        old(db).wf(),
    ensures
        final(db).wf(),
        (match spec_create_snippet(
            old(db)@,
            title@,
            opt_ref_view(language),
            content@,
            opt_ref_view(parent_id),
            snippet_id@,
            node_id@,
            now as int,
        ) {
            Ok(m) => r is Ok && final(db)@ == m,
            Err(e) => r == Err::<(), StoreError>(e) && final(db)@ == old(db)@,
        }),
{
    let node_conflict = store::find_node(&db.nodes, node_id).is_some();
    let snippet_conflict = store::find_snippet(&db.snippets, snippet_id).is_some();
    if node_conflict || snippet_conflict {
        proof {
            if node_conflict {
                assert(has_node(old(db)@.nodes, node_id@));
            }
            if snippet_conflict {
                assert(has_snippet(old(db)@.snippets, snippet_id@));
            }
        }
        return Err(StoreError::StorageFailure);
    }
    if let Err(e) = store::insert_snippets_tree_node(db, node_id, parent_id, title, 0, now) {
        return Err(e);
    }
    if let Err(e) = store::insert_snippet(db, snippet_id, title, language, content, now) {
        return Err(e);
    }
    store::insert_node_snippet_resource(db, node_id, snippet_id, now);
    proof {
        let target = DbModel {
            nodes: old(db)@.nodes.push(
                node_model(
                    node_id@,
                    opt_ref_view(parent_id),
                    title@,
                    "snippet"@,
                    "snippets"@,
                    0,
                    now as int,
                ),
            ),
            snippets: old(db)@.snippets.push(
                snippet_row_model(
                    snippet_id@,
                    title@,
                    opt_ref_view(language),
                    content@,
                    now as int,
                ),
            ),
            bindings: old(db)@.bindings.push(
                binding_model(node_id@, snippet_id@, ResourceKind::Snippet, now as int),
            ),
            ..old(db)@
        };
        assert(final(db)@ =~= target);
    }
    Ok(())
}

/// Whether `post` is `pre` with a snippet created under this title,
/// language, content and parent, for some generated ids and stamp.
pub open spec fn creates_snippet(
    pre: DbModel,
    post: DbModel,
    title: Seq<char>,
    language: Option<Seq<char>>,
    content: Seq<char>,
    parent_id: Option<Seq<char>>,
) -> bool {
    exists|ids: (Seq<char>, Seq<char>), t: int|
        #[trigger] spec_create_snippet(pre, title, language, content, parent_id, ids.0, ids.1, t)
            == Ok::<DbModel, StoreError>(post)
}

/// Creates a snippet and its tree node in the snippets scope, bound
/// together, under an optional parent.
pub fn create_snippet(
    db: &mut Database,
    title: String,
    language: Option<String>,
    content: String,
    parent_id: Option<String>,
) -> (r: Result<(), StoreError>)
    requires
        old(db).wf(),
    ensures
        final(db).wf(),
        r is Ok ==> creates_snippet(
            old(db)@,
            final(db)@,
            title@,
            opt_view(language),
            content@,
            opt_view(parent_id),
        ),
        r is Err ==> final(db)@ == old(db)@ && r == Err::<(), StoreError>(
            StoreError::StorageFailure,
        ),
{
    let now = now_ts();
    let snippet_id = new_uuid();
    let node_id = new_uuid();
    let lref = language.as_ref();
    let pref = parent_id.as_ref();
    proof {
        assert(opt_ref_view(lref) == opt_view(language));
        assert(opt_ref_view(pref) == opt_view(parent_id));
    }
    let r = create_snippet_with(db, &title, lref, &content, pref, &snippet_id, &node_id, now);
    proof {
        if r is Ok {
            assert(creates_snippet(
                old(db)@,
                db@,
                title@,
                opt_view(language),
                content@,
                opt_view(parent_id),
            )) by {
                assert(spec_create_snippet(
                    old(db)@,
                    title@,
                    opt_view(language),
                    content@,
                    opt_view(parent_id),
                    (snippet_id@, node_id@).0,
                    (snippet_id@, node_id@).1,
                    now as int,
                ) == Ok::<DbModel, StoreError>(db@));
            }
        }
    }
    r
}

/// What reading a snippet yields: the row, or `NotFound`.
pub open spec fn spec_get_snippet_detail(db: DbModel, snippet_id: Seq<char>) -> Result<
    SnippetDetailModel,
    StoreError,
> {
    if !has_snippet(db.snippets, snippet_id) {
        Err(StoreError::NotFound(MissingKind::Snippet))
    } else {
        let s = db.snippets[snippet_index(db.snippets, snippet_id)];
        Ok(
            SnippetDetailModel {
                id: s.id,
                title: s.title,
                language: s.language,
                content: s.content,
                created_at: s.created_at,
                updated_at: s.updated_at,
            },
        )
    }
}

/// Reads a snippet's title, language, content and timestamps.
pub fn get_snippet_detail(db: &Database, snippet_id: String) -> (r: Result<
    SnippetDetail,
    StoreError,
>)
    requires
        db.wf(),
    ensures
        (match r {
            Ok(d) => spec_get_snippet_detail(db@, snippet_id@) == Ok::<
                SnippetDetailModel,
                StoreError,
            >(d@),
            Err(e) => spec_get_snippet_detail(db@, snippet_id@) == Err::<
                SnippetDetailModel,
                StoreError,
            >(e),
        }),
{
    match store::get_snippet(db, &snippet_id) {
        Err(e) => Err(e),
        Ok((id, title, language, content, created_at, updated_at)) => {
            let d = SnippetDetail { id, title, language, content, created_at, updated_at };
            proof {
                assert(d@ =~= spec_get_snippet_detail(db@, snippet_id@).unwrap());
            }
            Ok(d)
        },
    }
}

/// What updating a snippet does: the row must exist; it then takes the
/// supplied title, language and content with a refreshed update time.
pub open spec fn spec_update_snippet_detail(
    db: DbModel,
    snippet_id: Seq<char>,
    title: Seq<char>,
    language: Option<Seq<char>>,
    content: Seq<char>,
    now: int,
) -> Result<DbModel, StoreError> {
    if !has_snippet(db.snippets, snippet_id) {
        Err(StoreError::NotFound(MissingKind::Snippet))
    } else {
        Ok(
            DbModel {
                snippets: spec_update_snippet_row(
                    db.snippets,
                    snippet_id,
                    title,
                    language,
                    content,
                    now,
                ),
                ..db
            },
        )
    }
}

/// Updates a snippet from a caller-supplied stamp, checking existence
/// first.
pub fn update_snippet_detail_with(
    db: &mut Database,
    snippet_id: &String,
    title: &String,
    language: Option<&String>,
    content: &String,
    now: i64,
) -> (r: Result<(), StoreError>)
    requires
        old(db).wf(),
    ensures
        final(db).wf(),
        (match spec_update_snippet_detail(
            old(db)@,
            snippet_id@,
            title@,
            opt_ref_view(language),
            content@,
            now as int,
        ) {
            Ok(m) => r is Ok && final(db)@ == m,
            Err(e) => r == Err::<(), StoreError>(e) && final(db)@ == old(db)@,
        }),
{
    if store::find_snippet(&db.snippets, snippet_id).is_none() {
        return Err(StoreError::NotFound(MissingKind::Snippet));
    }
    proof {
        assert(has_snippet(old(db)@.snippets, snippet_id@));
    }
    store::update_snippet(db, snippet_id, title, language, content, now);
    Ok(())
}

/// Whether `post` is `pre` with the snippet updated, at some stamp.
pub open spec fn updates_snippet(
    pre: DbModel,
    post: DbModel,
    snippet_id: Seq<char>,
    title: Seq<char>,
    language: Option<Seq<char>>,
    content: Seq<char>,
) -> bool {
    exists|t: int|
        #[trigger] spec_update_snippet_detail(pre, snippet_id, title, language, content, t) == Ok::<
            DbModel,
            StoreError,
        >(post)
}

/// Updates a snippet's title, language and content; fails with
/// `NotFound` exactly when the row is absent.
pub fn update_snippet_detail(
    db: &mut Database,
    snippet_id: String,
    title: String,
    language: Option<String>,
    content: String,
) -> (r: Result<(), StoreError>)
    requires
        old(db).wf(),
    ensures
        final(db).wf(),
        r is Ok <==> has_snippet(old(db)@.snippets, snippet_id@),
        r is Ok ==> updates_snippet(
            old(db)@,
            final(db)@,
            snippet_id@,
            title@,
            opt_view(language),
            content@,
        ),
        r is Err ==> r == Err::<(), StoreError>(StoreError::NotFound(MissingKind::Snippet))
            && final(db)@ == old(db)@,
{
    let now = now_ts();
    let lref = language.as_ref();
    proof {
        assert(opt_ref_view(lref) == opt_view(language));
    }
    let r = update_snippet_detail_with(db, &snippet_id, &title, lref, &content, now);
    proof {
        if r is Ok {
            assert(updates_snippet(
                old(db)@,
                db@,
                snippet_id@,
                title@,
                opt_view(language),
                content@,
            )) by {
                assert(spec_update_snippet_detail(
                    old(db)@,
                    snippet_id@,
                    title@,
                    opt_view(language),
                    content@,
                    now as int,
                ) == Ok::<DbModel, StoreError>(db@));
            }
        }
    }
    r
}

/// What deleting a snippet alone does: its bindings and its row go, the
/// tree node stays; deleting an absent id removes nothing and succeeds.
pub open spec fn spec_delete_snippet_only(db: DbModel, snippet_id: Seq<char>) -> DbModel {
    DbModel {
        bindings: spec_unbind_resource(db.bindings, snippet_id, ResourceKind::Snippet),
        snippets: spec_delete_snippet_row(db.snippets, snippet_id),
        ..db
    }
}

/// Deletes a snippet's bindings and row but leaves its tree node, so the
/// generic node deletion with its guard finishes the teardown.
pub fn delete_snippet_only(db: &mut Database, snippet_id: String) -> (r: Result<(), StoreError>)
    requires
        old(db).wf(),
    ensures
        final(db).wf(),
        r is Ok,
        final(db)@ == spec_delete_snippet_only(old(db)@, snippet_id@),
{
    store::unbind_resource(db, &snippet_id, ResourceKind::Snippet);
    store::delete_snippet(db, &snippet_id);
    proof {
        assert(final(db)@ =~= spec_delete_snippet_only(old(db)@, snippet_id@));
    }
    Ok(())
}

} // verus!
