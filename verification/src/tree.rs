//! Tree-node commands: create, update and delete, gated by the shared
//! validation checks.
//!
//! Validation reads (does the parent exist, is the node its own parent,
//! is the node empty) run before the mutating statement, and every
//! mutation is all-or-nothing on the store. The `_with` form of each
//! command takes the generated id and the time stamp as arguments and
//! carries the exact contract; the command named as the interface knows
//! them from the id generator and the clock, so its contract quantifies
//! over the stamp.

use vstd::prelude::*;
use vstd::relations::sorted_by;

use crate::clock::now_ts;
use crate::error::{MissingKind, NonEmptyReason, StoreError};
use crate::ids::new_uuid;
use crate::order::{
    lemma_sort_nodes_multiset, lemma_sort_nodes_sorted, node_le, sort_nodes, sort_tree_nodes,
};
use crate::store;
use crate::store::{
    has_child, has_node, node_bound, node_index, node_model, nodes_view, opt_ref_view, opt_view,
    spec_delete_node_row, spec_insert_node_row, spec_update_node_row, Database, DbModel, NodeModel,
    TreeNode,
};

verus! {

/// The view of an optional order index argument.
pub open spec fn opt_int(o: Option<i64>) -> Option<int> {
    match o {
        Some(v) => Some(v as int),
        None => None,
    }
}

/// What creating a tree node does: a supplied parent must resolve, the
/// order index defaults to zero, and the insert is rejected on an id
/// conflict.
pub open spec fn spec_create_tree_node(
    db: DbModel,
    name: Seq<char>,
    node_type: Seq<char>,
    scope: Seq<char>,
    parent_id: Option<Seq<char>>,
    order_index: Option<int>,
    node_id: Seq<char>,
    now: int,
) -> Result<DbModel, StoreError> {
    if parent_id matches Some(p) && !has_node(db.nodes, p) {
        Err(StoreError::NotFound(MissingKind::Parent))
    } else {
        spec_insert_node_row(
            db,
            node_model(
                node_id,
                parent_id,
                name,
                node_type,
                scope,
                order_index.unwrap_or(0),
                now,
            ),
        )
    }
}

/// Whether `post` is `pre` with a node created by these arguments and
/// this id, at some clock stamp.
pub open spec fn creates_node(
    pre: DbModel,
    post: DbModel,
    name: Seq<char>,
    node_type: Seq<char>,
    scope: Seq<char>,
    parent_id: Option<Seq<char>>,
    order_index: Option<int>,
    node_id: Seq<char>,
) -> bool {
    exists|t: int|
        #[trigger] spec_create_tree_node(pre, name, node_type, scope, parent_id, order_index, node_id, t)
            == Ok::<DbModel, StoreError>(post)
}

/// Creates a tree node from a caller-supplied id and time stamp.
pub fn create_tree_node_with(
    db: &mut Database,
    name: &String,
    node_type: &String,
    scope: &String,
    parent_id: Option<&String>,
    order_index: Option<i64>,
    node_id: &String,
    now: i64,
) -> (r: Result<(), StoreError>)
    requires
        old(db).wf(),
    ensures
        final(db).wf(),
        (match spec_create_tree_node(
            old(db)@,
            name@,
            node_type@,
            scope@,
            opt_ref_view(parent_id),
            opt_int(order_index),
            node_id@,
            now as int,
        ) {
            Ok(m) => r is Ok && final(db)@ == m,
            Err(e) => r == Err::<(), StoreError>(e) && final(db)@ == old(db)@,
        }),
{
    if let Some(pid) = parent_id {
        if store::find_node(&db.nodes, pid).is_none() {
            return Err(StoreError::NotFound(MissingKind::Parent));
        }
        proof {
            assert(has_node(old(db)@.nodes, pid@));
        }
    }
    let order: i64 = match order_index {
        Some(o) => o,
        None => 0,
    };
    store::insert_tree_node(db, node_id, parent_id, name, node_type, scope, order, now)
}

/// Creates a tree node: generates the id, stamps both timestamps with the
/// current time, validates a supplied parent and appends the row. Returns
/// the new node id.
pub fn create_tree_node(
    db: &mut Database,
    name: String,
    node_type: String,
    scope: String,
    parent_id: Option<String>,
    order_index: Option<i64>,
) -> (r: Result<String, StoreError>)
    requires
        old(db).wf(),
    ensures
        final(db).wf(),
        r is Err ==> final(db)@ == old(db)@,
        (parent_id matches Some(p) && !has_node(old(db)@.nodes, p@)) <==> r == Err::<
            String,
            StoreError,
        >(StoreError::NotFound(MissingKind::Parent)),
        (match r {
            Ok(id) => creates_node(
                old(db)@,
                final(db)@,
                name@,
                node_type@,
                scope@,
                opt_view(parent_id),
                opt_int(order_index),
                id@,
            ),
            Err(e) => e == StoreError::NotFound(MissingKind::Parent) || e
                == StoreError::StorageFailure,
        }),
{
    let now = now_ts();
    let node_id = new_uuid();
    let pref = parent_id.as_ref();
    proof {
        assert(opt_ref_view(pref) == opt_view(parent_id));
    }
    let r = create_tree_node_with(
        db,
        &name,
        &node_type,
        &scope,
        pref,
        order_index,
        &node_id,
        now,
    );
    match r {
        Ok(()) => {
            proof {
                assert(creates_node(
                    old(db)@,
                    db@,
                    name@,
                    node_type@,
                    scope@,
                    opt_view(parent_id),
                    opt_int(order_index),
                    node_id@,
                )) by {
                    assert(spec_create_tree_node(
                        old(db)@,
                        name@,
                        node_type@,
                        scope@,
                        opt_view(parent_id),
                        opt_int(order_index),
                        node_id@,
                        now as int,
                    ) == Ok::<DbModel, StoreError>(db@));
                }
            }
            Ok(node_id)
        },
        Err(e) => Err(e),
    }
}

/// What updating a tree node does: the node must exist, a supplied parent
/// must resolve and must not be the node itself, and then the row gets
/// the supplied name, parent (a `None` clears it to root, as the update
/// statement always writes the parent column) and order.
pub open spec fn spec_update_tree_node(
    db: DbModel,
    node_id: Seq<char>,
    name: Seq<char>,
    parent_id: Option<Seq<char>>,
    order_index: Option<int>,
    now: int,
) -> Result<DbModel, StoreError> {
    if !has_node(db.nodes, node_id) {
        Err(StoreError::NotFound(MissingKind::Node))
    } else if parent_id matches Some(p) && p == node_id {
        Err(StoreError::InvalidReference)
    } else if parent_id matches Some(p) && !has_node(db.nodes, p) {
        Err(StoreError::NotFound(MissingKind::Parent))
    } else {
        Ok(
            DbModel {
                nodes: spec_update_node_row(
                    db.nodes,
                    node_id,
                    parent_id,
                    name,
                    order_index.unwrap_or(0),
                    now,
                ),
                ..db
            },
        )
    }
}

/// Updates a tree node from a caller-supplied time stamp.
pub fn update_tree_node_with(
    db: &mut Database,
    node_id: &String,
    name: &String,
    parent_id: Option<&String>,
    order_index: Option<i64>,
    now: i64,
) -> (r: Result<(), StoreError>)
    requires
        old(db).wf(),
    ensures
        final(db).wf(),
        (match spec_update_tree_node(
            old(db)@,
            node_id@,
            name@,
            opt_ref_view(parent_id),
            opt_int(order_index),
            now as int,
        ) {
            Ok(m) => r is Ok && final(db)@ == m,
            Err(e) => r == Err::<(), StoreError>(e) && final(db)@ == old(db)@,
        }),
{
    if store::find_node(&db.nodes, node_id).is_none() {
        return Err(StoreError::NotFound(MissingKind::Node));
    }
    proof {
        assert(has_node(old(db)@.nodes, node_id@));
    }
    if let Some(pid) = parent_id {
        if pid.eq(node_id) {
            return Err(StoreError::InvalidReference);
        }
        if store::find_node(&db.nodes, pid).is_none() {
            return Err(StoreError::NotFound(MissingKind::Parent));
        }
        proof {
            assert(has_node(old(db)@.nodes, pid@));
        }
    }
    let order: i64 = match order_index {
        Some(o) => o,
        None => 0,
    };
    store::update_tree_node(db, node_id, parent_id, name, order, now);
    Ok(())
}

/// Whether `post` is `pre` with the node updated by these arguments, at
/// some clock stamp.
pub open spec fn updates_node(
    pre: DbModel,
    post: DbModel,
    node_id: Seq<char>,
    name: Seq<char>,
    parent_id: Option<Seq<char>>,
    order_index: Option<int>,
) -> bool {
    exists|t: int|
        #[trigger] spec_update_tree_node(pre, node_id, name, parent_id, order_index, t)
            == Ok::<DbModel, StoreError>(post)
}

/// Updates a tree node's name, parent and order. The supplied parent is
/// always written: omitting it clears the node to a root.
pub fn update_tree_node(
    db: &mut Database,
    node_id: String,
    name: String,
    parent_id: Option<String>,
    order_index: Option<i64>,
) -> (r: Result<(), StoreError>)
    requires
        old(db).wf(),
    ensures
        final(db).wf(),
        r is Err ==> final(db)@ == old(db)@,
        (match r {
            Ok(()) => updates_node(
                old(db)@,
                final(db)@,
                node_id@,
                name@,
                opt_view(parent_id),
                opt_int(order_index),
            ),
            Err(e) => forall|t: int|
                #[trigger] spec_update_tree_node(
                    old(db)@,
                    node_id@,
                    name@,
                    opt_view(parent_id),
                    opt_int(order_index),
                    t,
                ) == Err::<DbModel, StoreError>(e),
        }),
{
    let now = now_ts();
    let pref = parent_id.as_ref();
    proof {
        assert(opt_ref_view(pref) == opt_view(parent_id));
    }
    let r = update_tree_node_with(db, &node_id, &name, pref, order_index, now);
    proof {
        let gorder = opt_int(order_index);
        match r {
            Ok(()) => {
                assert(updates_node(
                    old(db)@,
                    db@,
                    node_id@,
                    name@,
                    opt_view(parent_id),
                    gorder,
                )) by {
                    assert(spec_update_tree_node(
                        old(db)@,
                        node_id@,
                        name@,
                        opt_view(parent_id),
                        gorder,
                        now as int,
                    ) == Ok::<DbModel, StoreError>(db@));
                }
            },
            Err(e) => {
                assert forall|t: int|
                    spec_update_tree_node(
                        old(db)@,
                        node_id@,
                        name@,
                        opt_view(parent_id),
                        gorder,
                        t,
                    ) == Err::<DbModel, StoreError>(e) by {}
            },
        }
    }
    r
}

/// What deleting a tree node does: blocked while any child or binding
/// still references the node (children reported first); otherwise the
/// row goes away, and deleting an absent id is a no-op that succeeds.
pub open spec fn spec_delete_tree_node(db: DbModel, node_id: Seq<char>) -> Result<
    DbModel,
    StoreError,
> {
    if has_child(db.nodes, node_id) {
        Err(StoreError::NonEmptyNode(NonEmptyReason::HasChildren))
    } else if node_bound(db.bindings, node_id) {
        Err(StoreError::NonEmptyNode(NonEmptyReason::HasBoundResources))
    } else {
        Ok(DbModel { nodes: spec_delete_node_row(db.nodes, node_id), ..db })
    }
}

/// Deletes a tree node once nothing references it: fails with
/// `NonEmptyNode` exactly when the node still has a child or a bound
/// resource, and removes the row otherwise.
pub fn delete_tree_node(db: &mut Database, node_id: String) -> (r: Result<(), StoreError>)
    requires
        old(db).wf(),
    ensures
        final(db).wf(),
        (match spec_delete_tree_node(old(db)@, node_id@) {
            Ok(m) => r is Ok && final(db)@ == m,
            Err(e) => r == Err::<(), StoreError>(e) && final(db)@ == old(db)@,
        }),
        r is Err <==> (has_child(old(db)@.nodes, node_id@) || node_bound(
            old(db)@.bindings,
            node_id@,
        )),
{
    if store::any_child_of(&db.nodes, &node_id) {
        return Err(StoreError::NonEmptyNode(NonEmptyReason::HasChildren));
    }
    if store::any_binding_on(&db.bindings, &node_id) {
        return Err(StoreError::NonEmptyNode(NonEmptyReason::HasBoundResources));
    }
    store::delete_tree_node(db, &node_id);
    Ok(())
}


/// The flat snapshot a scope selects: every row, or the rows of one
/// scope, in row order.
pub open spec fn scope_filter(nodes: Seq<NodeModel>, scope: Option<Seq<char>>) -> Seq<NodeModel> {
    match scope {
        None => nodes,
        Some(sc) => nodes.filter(|n: NodeModel| n.scope == sc),
    }
}

/// Copies the rows a scope selects, keeping row order.
pub(crate) fn filter_nodes_by_scope(nodes: &Vec<TreeNode>, scope: Option<&String>) -> (r: Vec<TreeNode>)
    ensures
        nodes_view(r@) == scope_filter(nodes_view(nodes@), opt_ref_view(scope)),
{
    let ghost nv = nodes_view(nodes@);
    let mut out: Vec<TreeNode> = Vec::new();
    match scope {
        None => {
            let mut i: usize = 0;
            proof {
                assert(nodes_view(out@) =~= nv.subrange(0, 0));
            }
            while i < nodes.len()
                invariant
                    i <= nodes.len(),
                    nv == nodes_view(nodes@),
                    nodes_view(out@) == nv.subrange(0, i as int),
                decreases nodes.len() - i,
            {
                let c = nodes[i].clone();
                proof {
                    assert(c@ == nv[i as int]);
                }
                out.push(c);
                proof {
                    assert(nodes_view(out@) =~= nv.subrange(0, i as int).push(nv[i as int]));
                    assert(nv.subrange(0, i as int).push(nv[i as int]) =~= nv.subrange(
                        0,
                        i + 1 as int,
                    ));
                }
                i += 1;
            }
            proof {
                assert(nv.subrange(0, nodes@.len() as int) =~= nv);
            }
            out
        },
        Some(sc) => {
            let ghost pred = |n: NodeModel| n.scope == sc@;
            let mut i: usize = 0;
            proof {
                assert(nv.subrange(0, 0) =~= Seq::<NodeModel>::empty());
                reveal(Seq::filter);
            }
            while i < nodes.len()
                invariant
                    i <= nodes.len(),
                    nv == nodes_view(nodes@),
                    pred == (|n: NodeModel| n.scope == sc@),
                    nodes_view(out@) == nv.subrange(0, i as int).filter(pred),
                decreases nodes.len() - i,
            {
                let keep = nodes[i].scope.eq(sc);
                proof {
                    assert(keep == pred(nv[i as int]));
                }
                if keep {
                    out.push(nodes[i].clone());
                }
                proof {
                    reveal(Seq::filter);
                    assert(nv.subrange(0, i + 1 as int).drop_last() =~= nv.subrange(0, i as int));
                    assert(nv.subrange(0, i + 1 as int).last() == nv[i as int]);
                    if keep {
                        assert(nodes_view(out@) =~= nv.subrange(0, i as int).filter(pred).push(
                            nv[i as int],
                        ));
                    }
                    assert(nodes_view(out@) =~= nv.subrange(0, i + 1 as int).filter(pred));
                }
                i += 1;
            }
            proof {
                assert(nv.subrange(0, nodes@.len() as int) =~= nv);
            }
            out
        },
    }
}

/// Lists the tree nodes of a scope (or all of them) in the reference
/// listing order: by parent id with rootless rows first, then by order
/// index, ties kept in row order.
pub fn list_tree_nodes(db: &Database, scope: Option<String>) -> (r: Vec<TreeNode>)
    ensures
        nodes_view(r@) == sort_nodes(scope_filter(db@.nodes, opt_view(scope))),
{
    let sref = scope.as_ref();
    proof {
        assert(opt_ref_view(sref) == opt_view(scope));
    }
    let snapshot = filter_nodes_by_scope(&db.nodes, sref);
    sort_tree_nodes(snapshot)
}

/// A flat listing is ordered by parent id, rootless rows first, then by
/// order index, and holds exactly the rows of its scope.
pub proof fn lemma_listing_ordered(nodes: Seq<NodeModel>, scope: Option<Seq<char>>)
    ensures
        sorted_by(
            sort_nodes(scope_filter(nodes, scope)),
            |a: NodeModel, b: NodeModel| node_le(a, b),
        ),
        sort_nodes(scope_filter(nodes, scope)).to_multiset() == scope_filter(
            nodes,
            scope,
        ).to_multiset(),
{
    lemma_sort_nodes_sorted(scope_filter(nodes, scope));
    lemma_sort_nodes_multiset(scope_filter(nodes, scope));
}

/// A node never becomes its own parent: an update that names the node as
/// its own parent fails with `InvalidReference`, whatever name and order
/// come with it, for every node present in the store.
pub proof fn lemma_update_self_parent_rejected(
    db: DbModel,
    node_id: Seq<char>,
    name: Seq<char>,
    order_index: Option<int>,
    now: int,
)
    requires
        has_node(db.nodes, node_id),
    ensures
        spec_update_tree_node(db, node_id, name, Some(node_id), order_index, now) == Err::<
            DbModel,
            StoreError,
        >(StoreError::InvalidReference),
{
}

/// Deleting a node is blocked with `NonEmptyNode` exactly while a child
/// or a binding still references it; otherwise it succeeds and only the
/// node table changes.
pub proof fn lemma_delete_blocked_iff_nonempty(db: DbModel, node_id: Seq<char>)
    ensures
        (spec_delete_tree_node(db, node_id) is Err) <==> (has_child(db.nodes, node_id)
            || node_bound(db.bindings, node_id)),
        spec_delete_tree_node(db, node_id) matches Ok(m) ==> m == (DbModel {
            nodes: spec_delete_node_row(db.nodes, node_id),
            ..db
        }),
{
}

/// A successful deletion removes the row: no node with the deleted id
/// survives in the store.
pub proof fn lemma_delete_removes_row(db: DbModel, node_id: Seq<char>)
    requires
        db.wf(),
        !has_child(db.nodes, node_id),
        !node_bound(db.bindings, node_id),
    ensures
        spec_delete_tree_node(db, node_id) matches Ok(m) && !has_node(m.nodes, node_id),
{
    let m = spec_delete_tree_node(db, node_id).unwrap();
    if has_node(db.nodes, node_id) {
        let j = node_index(db.nodes, node_id);
        assert(0 <= j < db.nodes.len() && db.nodes[j].id == node_id);
        assert forall|i: int| 0 <= i < m.nodes.len() implies m.nodes[i].id != node_id by {
            let i0 = if i < j {
                i
            } else {
                i + 1
            };
            assert(m.nodes[i] == db.nodes[i0]);
            assert(db.nodes[i0].id != db.nodes[j].id);
        }
    } else {
        assert forall|i: int| 0 <= i < m.nodes.len() implies m.nodes[i].id != node_id by {}
    }
}

} // verus!
