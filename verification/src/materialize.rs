//! Flat-to-nested tree materialization.
//!
//! A flat snapshot of parent-linked rows becomes a nested, ordered tree
//! for presentation. The snapshot may be arbitrary data: parents may
//! dangle, and corrupted parent chains may form cycles. Materialization
//! must terminate on all of it, emit no row twice, and, on a snapshot
//! with no root at all, still surface every row exactly once.

use vstd::prelude::*;

use crate::store;
use crate::store::{has_node, node_index, nodes_view, opt_ref_view, opt_view, Database, NodeModel, TreeNode};
use crate::tree::{filter_nodes_by_scope, scope_filter};

verus! {

/// One presented node: its row's id, display label and kind, and its
/// children — absent, not empty, when it has none.
pub struct TreeResponseNode {
    pub id: String,
    pub label: String,
    pub node_type: String,
    pub children: Option<Vec<TreeResponseNode>>,
}

/// Every id in a presented tree, in presentation order.
pub open spec fn tree_ids(t: TreeResponseNode) -> Seq<Seq<char>>
    decreases t,
{
    match t.children {
        None => seq![t.id@],
        Some(c) => seq![t.id@] + forest_ids(c@),
    }
}

/// Every id in a presented forest, in presentation order.
pub open spec fn forest_ids(s: Seq<TreeResponseNode>) -> Seq<Seq<char>>
    decreases s,
{
    if s.len() == 0 {
        Seq::empty()
    } else {
        tree_ids(s[0]) + forest_ids(s.drop_first())
    }
}

/// The row of the snapshot that carries this id (meaningful when ids are
/// unique and the id is present).
pub open spec fn row_of(rows: Seq<NodeModel>, id: Seq<char>) -> NodeModel {
    rows[node_index(rows, id)]
}

/// A presented node shows a snapshot row's id, name and kind.
pub open spec fn node_matches(t: TreeResponseNode, rows: Seq<NodeModel>) -> bool {
    &&& has_node(rows, t.id@)
    &&& row_of(rows, t.id@).name == t.label@
    &&& row_of(rows, t.id@).node_type == t.node_type@
}

/// A presented tree is faithful to the snapshot: every node shows its
/// row, every child's row names its parent's id as parent, and the
/// children of each node come in ascending order-index order.
pub open spec fn tree_ok(t: TreeResponseNode, rows: Seq<NodeModel>) -> bool
    decreases t,
{
    &&& node_matches(t, rows)
    &&& (match t.children {
        None => true,
        Some(c) => {
            &&& c@.len() > 0
            &&& forest_ok(c@, rows)
            &&& forall|k: int|
                0 <= k < c@.len() ==> row_of(rows, #[trigger] c@[k].id@).parent_id == Some(t.id@)
            &&& forall|k1: int, k2: int|
                0 <= k1 < k2 < c@.len() ==> row_of(rows, #[trigger] c@[k1].id@).order_index
                    <= row_of(rows, #[trigger] c@[k2].id@).order_index
        },
    })
}

/// Every tree of a presented forest is faithful to the snapshot.
pub open spec fn forest_ok(s: Seq<TreeResponseNode>, rows: Seq<NodeModel>) -> bool
    decreases s,
{
    if s.len() == 0 {
        true
    } else {
        tree_ok(s[0], rows) && forest_ok(s.drop_first(), rows)
    }
}


// ---------------------------------------------------------------------------
// The visited set
// ---------------------------------------------------------------------------

/// How many entries of the visited set are still clear; the measure that
/// bounds the descent.
pub open spec fn count_false(s: Seq<bool>) -> int
    decreases s.len(),
{
    if s.len() == 0 {
        0
    } else {
        count_false(s.drop_last()) + if s.last() {
            0int
        } else {
            1int
        }
    }
}

/// The measure never goes below zero.
proof fn lemma_count_false_nonneg(s: Seq<bool>)
    ensures
        count_false(s) >= 0,
    decreases s.len(),
{
    if s.len() > 0 {
        lemma_count_false_nonneg(s.drop_last());
    }
}

/// A visited set that only grows cannot clear entries; marking one more
/// strictly shrinks the measure.
proof fn lemma_count_false_monotone(s1: Seq<bool>, s2: Seq<bool>)
    requires
        s1.len() == s2.len(),
        forall|k: int| 0 <= k < s1.len() ==> s1[k] ==> s2[k],
    ensures
        count_false(s2) <= count_false(s1),
        count_false(s1) >= 0,
        forall|w: int| 0 <= w < s1.len() && !s1[w] && s2[w] ==> count_false(s2) < count_false(s1),
    decreases s1.len(),
{
    if s1.len() > 0 {
        lemma_count_false_monotone(s1.drop_last(), s2.drop_last());
        assert forall|w: int|
            0 <= w < s1.len() && !s1[w] && s2[w] implies count_false(s2) < count_false(s1) by {
            if w < s1.len() - 1 {
                assert(!s1.drop_last()[w] && s2.drop_last()[w]);
            }
        }
    }
}

// ---------------------------------------------------------------------------
// The index arena
// ---------------------------------------------------------------------------

/// A well-formed children list of row `j`: indices of rows whose parent
/// is row `j`, each at most once, ascending by order index.
pub open spec fn child_list_ok(l: Seq<usize>, j: int, rows: Seq<NodeModel>) -> bool {
    &&& forall|a: int| 0 <= a < l.len() ==> (#[trigger] l[a]) < rows.len()
    &&& forall|a: int|
        0 <= a < l.len() ==> rows[#[trigger] l[a] as int].parent_id == Some(rows[j].id)
    &&& forall|a: int, b: int| 0 <= a < b < l.len() ==> l[a] != l[b]
    &&& forall|a: int, b: int|
        0 <= a < b < l.len() ==> rows[#[trigger] l[a] as int].order_index
            <= rows[#[trigger] l[b] as int].order_index
}

/// A well-formed children table: one list per row, complete — a row's
/// index sits in exactly its parent's list.
pub open spec fn children_table_ok(ch: Seq<Vec<usize>>, rows: Seq<NodeModel>) -> bool {
    &&& ch.len() == rows.len()
    &&& forall|j: int| 0 <= j < ch.len() ==> child_list_ok(#[trigger] ch[j]@, j, rows)
    &&& forall|j: int, i: int|
        0 <= j < ch.len() && 0 <= i < rows.len() ==> (#[trigger] ch[j]@.contains(i as usize)
            <==> rows[i].parent_id == Some(rows[j].id))
}

/// Inserting into a sequence adds exactly one membership.
proof fn lemma_seq_insert_contains<A>(s: Seq<A>, pos: int, x: A)
    requires
        0 <= pos <= s.len(),
    ensures
        forall|y: A| #[trigger] s.insert(pos, x).contains(y) <==> (s.contains(y) || y == x),
{
    let out = s.insert(pos, x);
    assert forall|y: A| #[trigger] out.contains(y) implies (s.contains(y) || y == x) by {
        let w = choose|w: int| 0 <= w < out.len() && out[w] == y;
        if w < pos {
            assert(s[w] == y);
        } else if w > pos {
            assert(s[w - 1] == y);
        }
    }
    assert forall|y: A| (s.contains(y) || y == x) implies #[trigger] out.contains(y) by {
        if s.contains(y) {
            let w = choose|w: int| 0 <= w < s.len() && s[w] == y;
            if w < pos {
                assert(out[w] == y);
            } else {
                assert(out[w + 1] == y);
            }
        } else {
            assert(out[pos] == y);
        }
    }
}

/// Inserts row index `i` into a children list, keeping it ascending by
/// order index; fed with ascending indices, equal order indices keep row
/// order.
fn insert_index_ordered(list: &mut Vec<usize>, snap: &Vec<TreeNode>, i: usize)
    requires
        i < snap.len(),
        forall|a: int| 0 <= a < old(list)@.len() ==> (#[trigger] old(list)@[a]) < i,
        forall|a: int, b: int| 0 <= a < b < old(list)@.len() ==> old(list)@[a] != old(list)@[b],
        forall|a: int, b: int|
            0 <= a < b < old(list)@.len() ==> nodes_view(snap@)[#[trigger] old(list)@[a] as int].order_index
                <= nodes_view(snap@)[#[trigger] old(list)@[b] as int].order_index,
    ensures
        final(list)@.len() == old(list)@.len() + 1,
        forall|y: usize| #[trigger] final(list)@.contains(y) <==> (old(list)@.contains(y) || y == i),
        forall|a: int| 0 <= a < final(list)@.len() ==> (#[trigger] final(list)@[a]) <= i,
        forall|a: int, b: int| 0 <= a < b < final(list)@.len() ==> final(list)@[a] != final(list)@[b],
        forall|a: int, b: int|
            0 <= a < b < final(list)@.len() ==> nodes_view(snap@)[#[trigger] final(list)@[a] as int].order_index
                <= nodes_view(snap@)[#[trigger] final(list)@[b] as int].order_index,
{
    let ghost sv = nodes_view(snap@);
    let ghost l0 = old(list)@;
    let key = snap[i].order_index;
    let mut pos: usize = list.len();
    while pos > 0 && snap[list[pos - 1]].order_index > key
        invariant
            pos <= list.len(),
            list@ == l0,
            i < snap.len(),
            sv == nodes_view(snap@),
            key == sv[i as int].order_index,
            forall|a: int| 0 <= a < l0.len() ==> (#[trigger] l0[a]) < snap.len(),
            forall|a: int|
                pos <= a < l0.len() ==> sv[#[trigger] l0[a] as int].order_index > key,
        decreases pos,
    {
        pos -= 1;
    }
    list.insert(pos, i);
    proof {
        lemma_seq_insert_contains(l0, pos as int, i);
        assert forall|a: int, b: int|
            0 <= a < b < final(list)@.len() implies sv[#[trigger] final(list)@[a] as int].order_index
            <= sv[#[trigger] final(list)@[b] as int].order_index by {
            let la = final(list)@[a];
            let lb = final(list)@[b];
            if a < pos as int && b == pos as int {
                assert(la == l0[a]);
                assert(sv[la as int].order_index <= key);
            } else if a == pos as int && b > pos as int {
                assert(lb == l0[b - 1]);
                assert(sv[lb as int].order_index > key);
            } else if a < pos as int && b > pos as int {
                assert(la == l0[a] && lb == l0[b - 1]);
            } else if b < pos as int {
                assert(la == l0[a] && lb == l0[b]);
            } else if a > pos as int {
                assert(la == l0[a - 1] && lb == l0[b - 1]);
            }
        }
        assert forall|a: int, b: int|
            0 <= a < b < final(list)@.len() implies final(list)@[a] != final(list)@[b] by {
            let la = final(list)@[a];
            let lb = final(list)@[b];
            if a != pos as int && b != pos as int {
                let a0 = if a < pos as int { a } else { a - 1 };
                let b0 = if b < pos as int { b } else { b - 1 };
                assert(la == l0[a0] && lb == l0[b0]);
            } else if a == pos as int {
                assert(lb == l0[b - 1] && l0[b - 1] < i);
            } else {
                assert(la == l0[a] && l0[a] < i);
            }
        }
    }
}

/// Builds the children table: for each row of the snapshot, the list of
/// its children's row indices, ascending by order index with ties in row
/// order.
fn build_children_table(snap: &Vec<TreeNode>) -> (r: Vec<Vec<usize>>)
    requires
        forall|a: int, b: int|
            0 <= a < b < nodes_view(snap@).len() ==> nodes_view(snap@)[a].id != nodes_view(
                snap@,
            )[b].id,
    ensures
        children_table_ok(r@, nodes_view(snap@)),
{
    let ghost sv = nodes_view(snap@);
    let mut table: Vec<Vec<usize>> = Vec::new();
    let mut j: usize = 0;
    while j < snap.len()
        invariant
            j <= snap.len(),
            sv == nodes_view(snap@),
            table@.len() == j,
            forall|q: int| 0 <= q < j ==> child_list_ok(#[trigger] table@[q]@, q, sv),
            forall|q: int, i: int|
                0 <= q < j && 0 <= i < sv.len() ==> (#[trigger] table@[q]@.contains(i as usize)
                    <==> sv[i].parent_id == Some(sv[q].id)),
        decreases snap.len() - j,
    {
        let mut list: Vec<usize> = Vec::new();
        let mut i: usize = 0;
        while i < snap.len()
            invariant
                i <= snap.len(),
                j < snap.len(),
                sv == nodes_view(snap@),
                forall|a: int| 0 <= a < list@.len() ==> (#[trigger] list@[a]) < i,
                forall|a: int, b: int| 0 <= a < b < list@.len() ==> list@[a] != list@[b],
                forall|a: int|
                    0 <= a < list@.len() ==> sv[#[trigger] list@[a] as int].parent_id == Some(
                        sv[j as int].id,
                    ),
                forall|a: int, b: int|
                    0 <= a < b < list@.len() ==> sv[#[trigger] list@[a] as int].order_index
                        <= sv[#[trigger] list@[b] as int].order_index,
                forall|q: int|
                    0 <= q < i ==> (#[trigger] list@.contains(q as usize) <==> sv[q].parent_id
                        == Some(sv[j as int].id)),
            decreases snap.len() - i,
        {
            let is_child = match &snap[i].parent_id {
                Some(p) => p.eq(&snap[j].id),
                None => false,
            };
            if is_child {
                let ghost before = list@;
                insert_index_ordered(&mut list, snap, i);
                proof {
                    assert(list@.contains(i));
                    assert forall|a: int| 0 <= a < list@.len() implies sv[#[trigger] list@[a] as int].parent_id
                        == Some(sv[j as int].id) && (list@[a]) < i + 1 by {
                        let y = list@[a];
                        assert(list@.contains(y));
                        if y != i {
                            assert(before.contains(y));
                            let w = choose|w: int| 0 <= w < before.len() && before[w] == y;
                            assert(sv[before[w] as int].parent_id == Some(sv[j as int].id));
                        }
                    }
                }
            } else {
                proof {
                    if list@.contains(i as usize) {
                        let w = choose|w: int| 0 <= w < list@.len() && list@[w] == i as usize;
                        assert((list@[w]) < i);
                    }
                }
            }
            i += 1;
        }
        table.push(list);
        proof {
            assert(table@.len() == j + 1);
            assert(table@[j as int]@ == list@);
        }
        j += 1;
    }
    table
}


// ---------------------------------------------------------------------------
// The descent
// ---------------------------------------------------------------------------

/// Whether some row with this id was marked between `pre` and `post`.
pub open spec fn newly_emitted(
    id: Seq<char>,
    pre: Seq<bool>,
    post: Seq<bool>,
    rows: Seq<NodeModel>,
) -> bool {
    exists|k: int| 0 <= k < rows.len() && #[trigger] post[k] && !pre[k] && rows[k].id == id
}

/// Every row marked between `pre` and `post`, except the entry row, has
/// a parent that resolves in the snapshot: a descent reaches a row only
/// through its parent, so a root or an orphan is only ever an entry.
pub open spec fn new_marks_have_parents(
    pre: Seq<bool>,
    post: Seq<bool>,
    rows: Seq<NodeModel>,
    entry: int,
) -> bool {
    forall|k: int|
        0 <= k < rows.len() && #[trigger] post[k] && !pre[k] && k != entry ==> (rows[k].parent_id
            matches Some(p) && has_node(rows, p))
}

/// Every child of a row marked between `pre` and `post` is marked in
/// `post`: a descent leaves no child of an emitted node behind.
pub open spec fn children_closed(pre: Seq<bool>, post: Seq<bool>, rows: Seq<NodeModel>) -> bool {
    forall|j: int, k: int|
        #![trigger post[j], rows[k].parent_id]
        0 <= j < rows.len() && 0 <= k < rows.len() && post[j] && !pre[j] && rows[k].parent_id
            == Some(rows[j].id) ==> post[k]
}

/// With unique ids, the row an id resolves to is the row it came from.
proof fn lemma_node_index_of(rows: Seq<NodeModel>, i: int)
    requires
        forall|a: int, b: int| 0 <= a < b < rows.len() ==> rows[a].id != rows[b].id,
        0 <= i < rows.len(),
    ensures
        has_node(rows, rows[i].id),
        node_index(rows, rows[i].id) == i,
        row_of(rows, rows[i].id) == rows[i],
{
    assert(0 <= i < rows.len() && rows[i].id == rows[i].id);
    let j = node_index(rows, rows[i].id);
    assert(0 <= j < rows.len() && rows[j].id == rows[i].id);
    if j != i {
        assert(rows[j].id != rows[i].id);
    }
}

/// Appending a tree appends its ids.
proof fn lemma_forest_ids_push(s: Seq<TreeResponseNode>, t: TreeResponseNode)
    ensures
        forest_ids(s.push(t)) == forest_ids(s) + tree_ids(t),
    decreases s.len(),
{
    if s.len() == 0 {
        assert(s.push(t)[0] == t);
        assert(s.push(t).drop_first() =~= Seq::<TreeResponseNode>::empty());
        assert(forest_ids(s.push(t)) == tree_ids(t) + forest_ids(
            s.push(t).drop_first(),
        ));
        assert(forest_ids(s.push(t)) =~= forest_ids(s) + tree_ids(t));
    } else {
        lemma_forest_ids_push(s.drop_first(), t);
        assert(s.push(t).drop_first() =~= s.drop_first().push(t));
        assert(s.push(t)[0] == s[0]);
        assert(forest_ids(s.push(t)) =~= forest_ids(s) + tree_ids(t));
    }
}

/// Appending a faithful tree keeps a forest faithful.
proof fn lemma_forest_ok_push(s: Seq<TreeResponseNode>, t: TreeResponseNode, rows: Seq<NodeModel>)
    requires
        forest_ok(s, rows),
        tree_ok(t, rows),
    ensures
        forest_ok(s.push(t), rows),
    decreases s.len(),
{
    if s.len() == 0 {
        assert(s.push(t)[0] == t);
        assert(s.push(t).drop_first() =~= Seq::<TreeResponseNode>::empty());
        assert(forest_ok(Seq::<TreeResponseNode>::empty(), rows));
    } else {
        lemma_forest_ok_push(s.drop_first(), t, rows);
        assert(s.push(t).drop_first() =~= s.drop_first().push(t));
        assert(s.push(t)[0] == s[0]);
    }
}

/// Concatenated id runs with no duplicates and no common id have none.
proof fn lemma_ids_concat_no_dup(a: Seq<Seq<char>>, b: Seq<Seq<char>>)
    requires
        a.no_duplicates(),
        b.no_duplicates(),
        forall|id: Seq<char>| a.contains(id) ==> !b.contains(id),
    ensures
        (a + b).no_duplicates(),
{
    assert forall|p: int, q: int|
        0 <= p < q < (a + b).len() implies (a + b)[p] != (a + b)[q] by {
        if p < a.len() && q >= a.len() {
            assert(a.contains(a[p]));
            if (a + b)[p] == (a + b)[q] {
                assert(b.contains(b[q - a.len()]));
            }
        }
    }
}

/// An id is in a concatenation exactly when it is in one of the parts.
proof fn lemma_concat_contains<A>(a: Seq<A>, b: Seq<A>)
    ensures
        forall|x: A| #[trigger] (a + b).contains(x) <==> (a.contains(x) || b.contains(x)),
{
    assert forall|x: A| #[trigger] (a + b).contains(x) implies (a.contains(x) || b.contains(x)) by {
        let w = choose|w: int| 0 <= w < (a + b).len() && (a + b)[w] == x;
        if w < a.len() {
            assert(a[w] == x);
        } else {
            assert(b[w - a.len()] == x);
        }
    }
    assert forall|x: A| (a.contains(x) || b.contains(x)) implies #[trigger] (a + b).contains(x) by {
        if a.contains(x) {
            let w = choose|w: int| 0 <= w < a.len() && a[w] == x;
            assert((a + b)[w] == x);
        } else {
            let w = choose|w: int| 0 <= w < b.len() && b[w] == x;
            assert((a + b)[a.len() + w] == x);
        }
    }
}

/// Builds the presented tree under row `i`, marking every row it emits.
/// Rows already marked are skipped, which both breaks parent-chain
/// cycles and keeps any row from being presented twice.
fn build_node(
    snap: &Vec<TreeNode>,
    table: &Vec<Vec<usize>>,
    visited: &mut Vec<bool>,
    i: usize,
) -> (t: TreeResponseNode)
    requires
        forall|a: int, b: int|
            0 <= a < b < nodes_view(snap@).len() ==> nodes_view(snap@)[a].id != nodes_view(
                snap@,
            )[b].id,
        children_table_ok(table@, nodes_view(snap@)),
        old(visited)@.len() == snap@.len(),
        i < snap.len(),
        !old(visited)@[i as int],
    ensures
        final(visited)@.len() == old(visited)@.len(),
        forall|k: int| 0 <= k < old(visited)@.len() ==> old(visited)@[k] ==> final(visited)@[k],
        final(visited)@[i as int],
        t.id@ == nodes_view(snap@)[i as int].id,
        tree_ok(t, nodes_view(snap@)),
        tree_ids(t).no_duplicates(),
        forall|id: Seq<char>|
            #[trigger] tree_ids(t).contains(id) <==> newly_emitted(
                id,
                old(visited)@,
                final(visited)@,
                nodes_view(snap@),
            ),
        new_marks_have_parents(old(visited)@, final(visited)@, nodes_view(snap@), i as int),
        children_closed(old(visited)@, final(visited)@, nodes_view(snap@)),
        forall|k: int|
            0 <= k < nodes_view(snap@).len() && nodes_view(snap@)[k].parent_id == Some(
                #[trigger] nodes_view(snap@)[i as int].id,
            ) ==> final(visited)@[k],
    decreases count_false(old(visited)@),
{
    let ghost sv = nodes_view(snap@);
    let ghost v0 = old(visited)@;
    proof {
        assert(sv.len() == snap@.len());
    }
    visited.set(i, true);
    let ghost v1 = visited@;
    let mut kids: Vec<TreeResponseNode> = Vec::new();
    let n = snap.len();
    let mut a: usize = 0;
    while a < table[i].len()
        invariant
            a <= table@[i as int]@.len(),
            sv == nodes_view(snap@),
            forall|p: int, q: int| 0 <= p < q < sv.len() ==> sv[p].id != sv[q].id,
            children_table_ok(table@, sv),
            i < snap@.len(),
            v0 == old(visited)@,
            v0.len() == sv.len(),
            v1 == v0.update(i as int, true),
            !v0[i as int],
            visited@.len() == sv.len(),
            v1.len() == sv.len(),
            forall|k: int| 0 <= k < sv.len() ==> v1[k] ==> visited@[k],
            visited@[i as int],
            forest_ok(kids@, sv),
            forest_ids(kids@).no_duplicates(),
            forall|id: Seq<char>|
                #[trigger] forest_ids(kids@).contains(id) <==> newly_emitted(id, v1, visited@, sv),
            new_marks_have_parents(v1, visited@, sv, i as int),
            children_closed(v1, visited@, sv),
            forall|q: int|
                0 <= q < kids@.len() ==> row_of(sv, #[trigger] kids@[q].id@).parent_id == Some(
                    sv[i as int].id,
                ),
            forall|q: int|
                0 <= q < kids@.len() ==> exists|w: int|
                    0 <= w < a && #[trigger] kids@[q].id@ == sv[table@[i as int]@[w] as int].id,
            forall|q1: int, q2: int|
                0 <= q1 < q2 < kids@.len() ==> row_of(sv, #[trigger] kids@[q1].id@).order_index
                    <= row_of(sv, #[trigger] kids@[q2].id@).order_index,
            forall|w: int| 0 <= w < a ==> visited@[#[trigger] table@[i as int]@[w] as int],
        decreases table@[i as int]@.len() - a,
    {
        let k = table[i][a];
        proof {
            assert(child_list_ok(table@[i as int]@, i as int, sv));
            assert(table@[i as int]@[a as int] == k);
            assert((k as int) < sv.len());
        }
        if !visited[k] {
            let ghost v_pre = visited@;
            proof {
                assert forall|w: int| 0 <= w < sv.len() && v0[w] implies v_pre[w] by {
                    assert(v1[w] == v0.update(i as int, true)[w]);
                }
                lemma_count_false_monotone(v0, v_pre);
                lemma_count_false_nonneg(v_pre);
                assert(0 <= count_false(v_pre) < count_false(v0));
            }
            let kid = build_node(snap, table, visited, k);
            let ghost v_post = visited@;
            let ghost kids_pre = kids@;
            proof {
                lemma_node_index_of(sv, k as int);
                lemma_forest_ids_push(kids_pre, kid);
                lemma_forest_ok_push(kids_pre, kid, sv);
                lemma_concat_contains(forest_ids(kids_pre), tree_ids(kid));
                // the new subtree's ids are disjoint from what is already there
                assert forall|id: Seq<char>|
                    forest_ids(kids_pre).contains(id) implies !tree_ids(kid).contains(id) by {
                    let k1 = choose|k1: int|
                        0 <= k1 < sv.len() && #[trigger] v_pre[k1] && !v1[k1] && sv[k1].id == id;
                    if tree_ids(kid).contains(id) {
                        let k2 = choose|k2: int|
                            0 <= k2 < sv.len() && #[trigger] v_post[k2] && !v_pre[k2] && sv[k2].id
                                == id;
                        assert(k1 != k2);
                        assert(sv[k1].id != sv[k2].id);
                    }
                }
                lemma_ids_concat_no_dup(forest_ids(kids_pre), tree_ids(kid));
            }
            kids.push(kid);
            proof {
                assert(kids@ == kids_pre.push(kid));
                assert(forest_ids(kids@) == forest_ids(kids_pre) + tree_ids(kid));
                // membership across the two phases folds into one span
                assert forall|id: Seq<char>|
                    #[trigger] forest_ids(kids@).contains(id) implies newly_emitted(
                    id,
                    v1,
                    visited@,
                    sv,
                ) by {
                    if forest_ids(kids_pre).contains(id) {
                        let k1 = choose|k1: int|
                            0 <= k1 < sv.len() && #[trigger] v_pre[k1] && !v1[k1] && sv[k1].id
                                == id;
                        assert(v_post[k1]);
                    }
                }
                assert forall|id: Seq<char>|
                    newly_emitted(id, v1, visited@, sv) implies #[trigger] forest_ids(
                    kids@,
                ).contains(id) by {
                    let k1 = choose|k1: int|
                        0 <= k1 < sv.len() && #[trigger] v_post[k1] && !v1[k1] && sv[k1].id == id;
                    if v_pre[k1] {
                        assert(newly_emitted(id, v1, v_pre, sv));
                        assert(forest_ids(kids_pre).contains(id));
                    } else {
                        assert(newly_emitted(id, v_pre, v_post, sv));
                        assert(tree_ids(kid).contains(id));
                    }
                }
                // the new child sits after every earlier one in order
                assert forall|q: int|
                    0 <= q < kids@.len() - 1 implies row_of(
                    sv,
                    #[trigger] kids@[q].id@,
                ).order_index <= row_of(sv, kids@[kids@.len() - 1].id@).order_index by {
                    let w = choose|w: int|
                        0 <= w < a && #[trigger] kids_pre[q].id@ == sv[table@[i as int]@[w] as int].id;
                    lemma_node_index_of(sv, table@[i as int]@[w] as int);
                    assert(sv[table@[i as int]@[w] as int].order_index <= sv[table@[i as int]@[
                        a as int
                    ] as int].order_index);
                }
                assert forall|q: int|
                    0 <= q < kids@.len() implies exists|w: int|
                    0 <= w < a + 1 && #[trigger] kids@[q].id@ == sv[table@[i as int]@[w] as int].id by {
                    if q < kids@.len() - 1 {
                        let w = choose|w: int|
                            0 <= w < a
                                && #[trigger] kids_pre[q].id@ == sv[table@[i as int]@[w] as int].id;
                        assert(kids@[q].id@ == sv[table@[i as int]@[w] as int].id);
                    } else {
                        assert(kids@[q].id@ == sv[table@[i as int]@[a as int] as int].id);
                    }
                }
            }
        }
        a += 1;
    }
    let row = &snap[i];
    let id = row.id.clone();
    let label = row.name.clone();
    let node_type = row.node_type.clone();
    let ghost ks = kids@;
    let no_kids = kids.len() == 0;
    let t = if no_kids {
        TreeResponseNode { id, label, node_type, children: None }
    } else {
        TreeResponseNode { id, label, node_type, children: Some(kids) }
    };
    proof {
        lemma_node_index_of(sv, i as int);
        let ghost vf = visited@;
        let ghost cs = match &t.children {
            Some(c) => c@,
            None => Seq::<TreeResponseNode>::empty(),
        };
        assert(cs =~= ks);
        assert(tree_ids(t) =~= seq![sv[i as int].id] + forest_ids(cs));
        lemma_concat_contains(seq![sv[i as int].id], forest_ids(cs));
        // the entry's own id is not among the children's: those rows were
        // marked later and ids are unique
        assert forall|id2: Seq<char>|
            #[trigger] forest_ids(cs).contains(id2) implies id2 != sv[i as int].id by {
            let k2 = choose|k2: int|
                0 <= k2 < sv.len() && #[trigger] vf[k2] && !v1[k2] && sv[k2].id == id2;
            if k2 == i as int {
            } else {
                assert(sv[k2].id != sv[i as int].id);
            }
        }
        assert(tree_ids(t).no_duplicates()) by {
            lemma_ids_concat_no_dup(seq![sv[i as int].id], forest_ids(cs));
        }
        // membership: the entry plus everything the loop marked
        assert forall|id2: Seq<char>|
            #[trigger] tree_ids(t).contains(id2) implies newly_emitted(id2, v0, vf, sv) by {
            if id2 == sv[i as int].id {
                assert(vf[i as int] && !v0[i as int]);
            } else {
                assert(forest_ids(cs).contains(id2)) by {
                    let w = choose|w: int|
                        0 <= w < tree_ids(t).len() && tree_ids(t)[w] == id2;
                    assert(tree_ids(t)[0] == sv[i as int].id);
                    assert(forest_ids(cs)[w - 1] == id2);
                }
                assert(newly_emitted(id2, v1, vf, sv));
                let k2 = choose|k2: int|
                    0 <= k2 < sv.len() && #[trigger] vf[k2] && !v1[k2] && sv[k2].id == id2;
                assert(v0[k2] == v0.update(i as int, true)[k2]);
                assert(!v0[k2]);
            }
        }
        assert forall|id2: Seq<char>|
            newly_emitted(id2, v0, vf, sv) implies #[trigger] tree_ids(t).contains(id2) by {
            let k2 = choose|k2: int|
                0 <= k2 < sv.len() && #[trigger] vf[k2] && !v0[k2] && sv[k2].id == id2;
            if k2 == i as int {
                assert(tree_ids(t)[0] == sv[i as int].id);
            } else {
                assert(!v1[k2]);
                assert(newly_emitted(id2, v1, vf, sv));
                assert(forest_ids(cs).contains(id2));
                assert((seq![sv[i as int].id] + forest_ids(cs)).contains(id2));
            }
        }
        // every direct child of the entry is marked: its list is done
        assert forall|k: int|
            0 <= k < sv.len() && sv[k].parent_id == Some(
                #[trigger] sv[i as int].id,
            ) implies vf[k] by {
            assert(table@[i as int]@.contains(k as usize));
            let w = choose|w: int|
                0 <= w < table@[i as int]@.len() && table@[i as int]@[w] == k as usize;
            assert(vf[table@[i as int]@[w] as int]);
        }
        // tree_ok of the assembled node
        assert(node_matches(t, sv));
        if kids.len() > 0 {
            assert(tree_ok(t, sv));
        } else {
            assert(tree_ok(t, sv));
        }
        // a child marked by the loop keeps a parent; closure carries over
        assert(new_marks_have_parents(v0, vf, sv, i as int)) by {
            assert forall|k: int|
                0 <= k < sv.len() && #[trigger] vf[k] && !v0[k] && k != i as int
                implies sv[k].parent_id is Some by {
                assert(!v1[k]);
            }
        }
        assert forall|k: int| 0 <= k < v0.len() && v0[k] implies vf[k] by {
            assert(v1[k] == v0.update(i as int, true)[k]);
        }
        assert(children_closed(v0, vf, sv)) by {
            assert forall|j: int, k: int|
                #![trigger vf[j], sv[k].parent_id]
                0 <= j < sv.len() && 0 <= k < sv.len() && vf[j] && !v0[j] && sv[k].parent_id
                    == Some(sv[j].id) implies vf[k] by {
                if j == i as int {
                    assert(sv[k].parent_id == Some(sv[i as int].id));
                } else {
                    assert(!v1[j]);
                }
            }
        }
    }
    t
}


/// Selecting a scope keeps row ids unique.
proof fn lemma_filter_keeps_unique_ids(rows: Seq<NodeModel>, pred: spec_fn(NodeModel) -> bool)
    requires
        forall|a: int, b: int| 0 <= a < b < rows.len() ==> rows[a].id != rows[b].id,
    ensures
        forall|a: int, b: int|
            0 <= a < b < rows.filter(pred).len() ==> rows.filter(pred)[a].id != rows.filter(
                pred,
            )[b].id,
    decreases rows.len(),
{
    reveal(Seq::filter);
    if rows.len() > 0 {
        let prefix = rows.drop_last();
        lemma_filter_keeps_unique_ids(prefix, pred);
        let f = rows.filter(pred);
        let fd = prefix.filter(pred);
        assert forall|a: int, b: int| 0 <= a < b < f.len() implies f[a].id != f[b].id by {
            if pred(rows.last()) && b == fd.len() {
                assert(f[a] == fd[a]);
                assert(fd.contains(fd[a]));
                prefix.lemma_filter_contains_rev(pred, fd[a]);
                let w = choose|w: int| 0 <= w < prefix.len() && prefix[w] == fd[a];
                assert(rows[w].id != rows.last().id);
            } else {
                assert(f[a] == fd[a] && f[b] == fd[b]);
            }
        }
    }
}

/// Materializes the flat snapshot of a scope into the nested presentation
/// forest.
///
/// Roots are the rows without a parent. When the snapshot has none at
/// all — partially filtered or corrupted data — rows whose parent
/// dangles outside the snapshot are treated as roots instead, and any
/// rows still unreached (cycles of corrupted parent chains) are surfaced
/// after them, so that such a snapshot still presents every row exactly
/// once and the descent terminates.
pub fn list_tree_nodes_tree(db: &Database, scope: Option<String>) -> (r: Vec<TreeResponseNode>)
    requires
        db.wf(),
    ensures
        ({
            let snap = scope_filter(db@.nodes, opt_view(scope));
            &&& forest_ok(r@, snap)
            &&& forest_ids(r@).no_duplicates()
            &&& (forall|id: Seq<char>|
                #[trigger] forest_ids(r@).contains(id) ==> has_node(snap, id))
            &&& ((forall|k: int| 0 <= k < snap.len() ==> (#[trigger] snap[k]).parent_id is Some)
                ==> (forall|id: Seq<char>|
                has_node(snap, id) ==> #[trigger] forest_ids(r@).contains(id)))
            &&& ((exists|k: int| 0 <= k < snap.len() && (#[trigger] snap[k]).parent_id is None)
                ==> ((forall|q: int|
                0 <= q < r@.len() ==> row_of(snap, #[trigger] r@[q].id@).parent_id is None)
                && (forall|k: int|
                0 <= k < snap.len() && (#[trigger] snap[k]).parent_id is None ==> forest_ids(
                    r@,
                ).contains(snap[k].id))
                && (forall|q1: int, q2: int|
                0 <= q1 < q2 < r@.len() ==> row_of(snap, #[trigger] r@[q1].id@).order_index
                    <= row_of(snap, #[trigger] r@[q2].id@).order_index)))
            &&& (forall|j: int, k: int|
                #![trigger forest_ids(r@).contains(snap[j].id), snap[k].parent_id]
                0 <= j < snap.len() && 0 <= k < snap.len() && forest_ids(r@).contains(snap[j].id)
                    && snap[k].parent_id == Some(snap[j].id) ==> forest_ids(r@).contains(
                    snap[k].id,
                ))
        }),
{
    let sref = scope.as_ref();
    proof {
        assert(opt_ref_view(sref) == opt_view(scope));
    }
    let snap = filter_nodes_by_scope(&db.nodes, sref);
    let ghost sv = nodes_view(snap@);
    proof {
        match opt_view(scope) {
            None => {},
            Some(sc) => {
                lemma_filter_keeps_unique_ids(db@.nodes, |n: NodeModel| n.scope == sc);
            },
        }
        assert(sv.len() == snap@.len());
    }
    let n = snap.len();
    let table = build_children_table(&snap);
    let mut visited: Vec<bool> = Vec::new();
    let mut z: usize = 0;
    while z < n
        invariant
            z <= n,
            visited@.len() == z,
            forall|k: int| 0 <= k < z ==> !(#[trigger] visited@[k]),
        decreases n - z,
    {
        visited.push(false);
        z += 1;
    }
    let ghost zeros = visited@;
    let mut has_root = false;
    let mut k: usize = 0;
    while k < n
        invariant
            k <= n,
            n == snap@.len(),
            sv == nodes_view(snap@),
            has_root == exists|w: int| 0 <= w < k && (#[trigger] sv[w]).parent_id is None,
        decreases n - k,
    {
        if snap[k].parent_id.is_none() {
            proof {
                assert(sv[k as int].parent_id is None);
            }
            has_root = true;
        }
        k += 1;
    }
    let mut roots: Vec<TreeResponseNode> = Vec::new();
    if has_root {
        // collect the rootless rows, ascending by order index
        let mut entries: Vec<usize> = Vec::new();
        let mut i: usize = 0;
        while i < n
            invariant
                i <= n,
                n == snap@.len(),
                sv == nodes_view(snap@),
                forall|a: int| 0 <= a < entries@.len() ==> (#[trigger] entries@[a]) < i,
                forall|a: int, b: int| 0 <= a < b < entries@.len() ==> entries@[a] != entries@[b],
                forall|a: int|
                    0 <= a < entries@.len() ==> sv[#[trigger] entries@[a] as int].parent_id is None,
                forall|a: int, b: int|
                    0 <= a < b < entries@.len() ==> sv[#[trigger] entries@[a] as int].order_index
                        <= sv[#[trigger] entries@[b] as int].order_index,
                forall|q: int|
                    0 <= q < i ==> (#[trigger] entries@.contains(q as usize) <==> sv[q].parent_id
                        is None),
            decreases n - i,
        {
            let is_root = snap[i].parent_id.is_none();
            if is_root {
                let ghost before = entries@;
                insert_index_ordered(&mut entries, &snap, i);
                proof {
                    assert(entries@.contains(i));
                    assert forall|a: int|
                        0 <= a < entries@.len() implies sv[#[trigger] entries@[a] as int].parent_id
                        is None && (entries@[a]) < i + 1 by {
                        let y = entries@[a];
                        assert(entries@.contains(y));
                        if y != i {
                            assert(before.contains(y));
                            let w = choose|w: int| 0 <= w < before.len() && before[w] == y;
                            assert(sv[before[w] as int].parent_id is None);
                        }
                    }
                }
            } else {
                proof {
                    if entries@.contains(i as usize) {
                        let w = choose|w: int| 0 <= w < entries@.len() && entries@[w] == i as usize;
                        assert((entries@[w]) < i);
                    }
                }
            }
            i += 1;
        }
        // descend from each root
        let mut w: usize = 0;
        while w < entries.len()
            invariant
                w <= entries@.len(),
                n == snap@.len(),
                sv == nodes_view(snap@),
                forall|p: int, q: int| 0 <= p < q < sv.len() ==> sv[p].id != sv[q].id,
                children_table_ok(table@, sv),
                zeros.len() == sv.len(),
                forall|k2: int| 0 <= k2 < sv.len() ==> !(#[trigger] zeros[k2]),
                visited@.len() == sv.len(),
                forall|a: int| 0 <= a < entries@.len() ==> (#[trigger] entries@[a]) < n,
                forall|a: int, b: int| 0 <= a < b < entries@.len() ==> entries@[a] != entries@[b],
                forall|a: int|
                    0 <= a < entries@.len() ==> sv[#[trigger] entries@[a] as int].parent_id
                        is None,
                forall|q: int|
                    0 <= q < sv.len() ==> ((#[trigger] entries@.contains(q as usize))
                        <==> sv[q].parent_id is None),
                forall|k2: int|
                    0 <= k2 < sv.len() && #[trigger] visited@[k2] && sv[k2].parent_id is None
                        ==> exists|w2: int| 0 <= w2 < w && entries@[w2] == k2 as usize,
                children_closed(zeros, visited@, sv),
                forest_ok(roots@, sv),
                forest_ids(roots@).no_duplicates(),
                forall|id: Seq<char>|
                    #[trigger] forest_ids(roots@).contains(id) <==> newly_emitted(
                        id,
                        zeros,
                        visited@,
                        sv,
                    ),
                forall|q: int|
                    0 <= q < roots@.len() ==> row_of(sv, #[trigger] roots@[q].id@).parent_id
                        is None,
                forall|w2: int|
                    0 <= w2 < w ==> forest_ids(roots@).contains(
                        sv[#[trigger] entries@[w2] as int].id,
                    ),
                forall|a: int, b: int|
                    0 <= a < b < entries@.len() ==> sv[#[trigger] entries@[a] as int].order_index
                        <= sv[#[trigger] entries@[b] as int].order_index,
                forall|q: int|
                    0 <= q < roots@.len() ==> exists|w2: int|
                        0 <= w2 < w && #[trigger] roots@[q].id@ == sv[entries@[w2] as int].id,
                forall|q1: int, q2: int|
                    0 <= q1 < q2 < roots@.len() ==> row_of(
                        sv,
                        #[trigger] roots@[q1].id@,
                    ).order_index <= row_of(sv, #[trigger] roots@[q2].id@).order_index,
            decreases entries@.len() - w,
        {
            let e = entries[w];
            proof {
                if visited@[e as int] {
                    let w2 = choose|w2: int| 0 <= w2 < w && entries@[w2] == e as usize;
                    assert(entries@[w2] == entries@[w as int]);
                }
            }
            let ghost v_before = visited@;
            let ghost roots_pre = roots@;
            let t = build_node(&snap, &table, &mut visited, e);
            proof {
                lemma_node_index_of(sv, e as int);
                lemma_forest_ids_push(roots_pre, t);
                lemma_forest_ok_push(roots_pre, t, sv);
                lemma_concat_contains(forest_ids(roots_pre), tree_ids(t));
            }
            roots.push(t);
            proof {
                assert(roots@ == roots_pre.push(t));
                assert(forest_ids(roots@) == forest_ids(roots_pre) + tree_ids(t));
                // disjointness of the new subtree's ids from the forest so far
                assert forall|id: Seq<char>|
                    forest_ids(roots_pre).contains(id) implies !tree_ids(t).contains(id) by {
                    let k1 = choose|k1: int|
                        0 <= k1 < sv.len() && #[trigger] v_before[k1] && !zeros[k1] && sv[k1].id
                            == id;
                    if tree_ids(t).contains(id) {
                        let k2 = choose|k2: int|
                            0 <= k2 < sv.len() && #[trigger] visited@[k2] && !v_before[k2]
                                && sv[k2].id == id;
                        assert(k1 != k2);
                        assert(sv[k1].id != sv[k2].id);
                    }
                }
                lemma_ids_concat_no_dup(forest_ids(roots_pre), tree_ids(t));
                assert forall|id: Seq<char>|
                    #[trigger] forest_ids(roots@).contains(id) implies newly_emitted(
                    id,
                    zeros,
                    visited@,
                    sv,
                ) by {
                    if forest_ids(roots_pre).contains(id) {
                        let k1 = choose|k1: int|
                            0 <= k1 < sv.len() && #[trigger] v_before[k1] && !zeros[k1] && sv[k1].id == id;
                        assert(visited@[k1]);
                    }
                }
                assert forall|id: Seq<char>|
                    newly_emitted(id, zeros, visited@, sv) implies #[trigger] forest_ids(
                    roots@,
                ).contains(id) by {
                    let k1 = choose|k1: int|
                        0 <= k1 < sv.len() && #[trigger] visited@[k1] && !zeros[k1] && sv[k1].id
                            == id;
                    if v_before[k1] {
                        assert(newly_emitted(id, zeros, v_before, sv));
                        assert(forest_ids(roots_pre).contains(id));
                    } else {
                        assert(newly_emitted(id, v_before, visited@, sv));
                        assert(tree_ids(t).contains(id));
                    }
                }
                // the marks of this descent keep the invariant shape
                assert forall|k2: int|
                    0 <= k2 < sv.len() && #[trigger] visited@[k2] && sv[k2].parent_id
                        is None implies exists|w2: int|
                    0 <= w2 < w + 1 && entries@[w2] == k2 as usize by {
                    if v_before[k2] {
                        let w2 = choose|w2: int| 0 <= w2 < w && entries@[w2] == k2 as usize;
                        assert(0 <= w2 < w + 1 && entries@[w2] == k2 as usize);
                    } else {
                        assert(k2 == e as int);
                        assert(entries@[w as int] == k2 as usize);
                    }
                }
                assert(children_closed(zeros, visited@, sv)) by {
                    assert forall|j2: int, k2: int|
                        #![trigger visited@[j2], sv[k2].parent_id]
                        0 <= j2 < sv.len() && 0 <= k2 < sv.len() && visited@[j2] && !zeros[j2]
                            && sv[k2].parent_id == Some(sv[j2].id) implies visited@[k2] by {
                        if v_before[j2] {
                            assert(v_before[k2]);
                        }
                    }
                }
                assert forall|q: int|
                    0 <= q < roots@.len() implies row_of(sv, #[trigger] roots@[q].id@).parent_id
                    is None by {
                    if q == roots@.len() - 1 {
                        assert(roots@[q].id@ == sv[e as int].id);
                    } else {
                        assert(roots@[q] == roots_pre[q]);
                    }
                }
                assert forall|w2: int|
                    0 <= w2 < w + 1 implies forest_ids(roots@).contains(
                    sv[#[trigger] entries@[w2] as int].id,
                ) by {
                    if w2 < w {
                        assert(forest_ids(roots_pre).contains(sv[entries@[w2] as int].id));
                    } else {
                        assert(tree_ids(t).contains(sv[e as int].id)) by {
                            assert(newly_emitted(sv[e as int].id, v_before, visited@, sv));
                        }
                    }
                }
                assert forall|q: int|
                    0 <= q < roots@.len() implies exists|w2: int|
                    0 <= w2 < w + 1 && #[trigger] roots@[q].id@ == sv[entries@[w2] as int].id by {
                    if q < roots@.len() - 1 {
                        let w2 = choose|w2: int|
                            0 <= w2 < w && #[trigger] roots_pre[q].id@ == sv[entries@[w2] as int].id;
                        assert(roots@[q].id@ == sv[entries@[w2] as int].id);
                    } else {
                        assert(roots@[q].id@ == sv[entries@[w as int] as int].id);
                    }
                }
                assert forall|q1: int, q2: int|
                    0 <= q1 < q2 < roots@.len() implies row_of(
                    sv,
                    #[trigger] roots@[q1].id@,
                ).order_index <= row_of(sv, #[trigger] roots@[q2].id@).order_index by {
                    if q2 == roots@.len() - 1 {
                        let w1 = choose|w1: int|
                            0 <= w1 < w && #[trigger] roots_pre[q1].id@ == sv[entries@[w1] as int].id;
                        lemma_node_index_of(sv, entries@[w1] as int);
                        lemma_node_index_of(sv, e as int);
                        assert(sv[entries@[w1] as int].order_index <= sv[e as int].order_index);
                    }
                }
            }
            w += 1;
        }
        proof {
            // the contract's root clauses
            assert forall|k2: int|
                0 <= k2 < sv.len() && (#[trigger] sv[k2]).parent_id is None implies forest_ids(
                roots@,
            ).contains(sv[k2].id) by {
                assert(entries@.contains(k2 as usize));
                let w2 = choose|w2: int| 0 <= w2 < entries@.len() && entries@[w2] == k2 as usize;
                assert(forest_ids(roots@).contains(sv[entries@[w2] as int].id));
            }
        }
    } else {
        // no root at all: rows with dangling parents become the entries
        let mut entries: Vec<usize> = Vec::new();
        let mut i: usize = 0;
        while i < n
            invariant
                i <= n,
                n == snap@.len(),
                sv == nodes_view(snap@),
                forall|a: int| 0 <= a < entries@.len() ==> (#[trigger] entries@[a]) < i,
                forall|a: int, b: int| 0 <= a < b < entries@.len() ==> entries@[a] != entries@[b],
                forall|a: int, b: int|
                    0 <= a < b < entries@.len() ==> sv[#[trigger] entries@[a] as int].order_index
                        <= sv[#[trigger] entries@[b] as int].order_index,
            decreases n - i,
        {
            let dangling = match &snap[i].parent_id {
                Some(p) => store::find_node(&snap, p).is_none(),
                None => false,
            };
            if dangling {
                insert_index_ordered(&mut entries, &snap, i);
            }
            i += 1;
        }
        // descend from each orphaned entry, then surface whatever is left
        let mut w: usize = 0;
        while w < entries.len()
            invariant
                w <= entries@.len(),
                n == snap@.len(),
                sv == nodes_view(snap@),
                forall|p: int, q: int| 0 <= p < q < sv.len() ==> sv[p].id != sv[q].id,
                children_table_ok(table@, sv),
                zeros.len() == sv.len(),
                forall|k2: int| 0 <= k2 < sv.len() ==> !(#[trigger] zeros[k2]),
                visited@.len() == sv.len(),
                forall|a: int| 0 <= a < entries@.len() ==> (#[trigger] entries@[a]) < n,
                children_closed(zeros, visited@, sv),
                forest_ok(roots@, sv),
                forest_ids(roots@).no_duplicates(),
                forall|id: Seq<char>|
                    #[trigger] forest_ids(roots@).contains(id) <==> newly_emitted(
                        id,
                        zeros,
                        visited@,
                        sv,
                    ),
            decreases entries@.len() - w,
        {
            let e = entries[w];
            if !visited[e] {
                let ghost v_before = visited@;
                let ghost roots_pre = roots@;
                let t = build_node(&snap, &table, &mut visited, e);
                proof {
                    lemma_forest_ids_push(roots_pre, t);
                    lemma_forest_ok_push(roots_pre, t, sv);
                    lemma_concat_contains(forest_ids(roots_pre), tree_ids(t));
                }
                roots.push(t);
                proof {
                    assert(roots@ == roots_pre.push(t));
                    assert(forest_ids(roots@) == forest_ids(roots_pre) + tree_ids(t));
                    assert forall|id: Seq<char>|
                        forest_ids(roots_pre).contains(id) implies !tree_ids(t).contains(id) by {
                        let k1 = choose|k1: int|
                            0 <= k1 < sv.len() && #[trigger] v_before[k1] && !zeros[k1] && sv[k1].id == id;
                        if tree_ids(t).contains(id) {
                            let k2 = choose|k2: int|
                                0 <= k2 < sv.len() && #[trigger] visited@[k2] && !v_before[k2]
                                    && sv[k2].id == id;
                            assert(k1 != k2);
                            assert(sv[k1].id != sv[k2].id);
                        }
                    }
                    lemma_ids_concat_no_dup(forest_ids(roots_pre), tree_ids(t));
                    assert forall|id: Seq<char>|
                        #[trigger] forest_ids(roots@).contains(id) implies newly_emitted(
                        id,
                        zeros,
                        visited@,
                        sv,
                    ) by {
                        if forest_ids(roots_pre).contains(id) {
                            let k1 = choose|k1: int|
                                0 <= k1 < sv.len() && #[trigger] v_before[k1] && !zeros[k1] && sv[k1].id == id;
                            assert(visited@[k1]);
                        }
                    }
                    assert forall|id: Seq<char>|
                        newly_emitted(id, zeros, visited@, sv) implies #[trigger] forest_ids(
                        roots@,
                    ).contains(id) by {
                        let k1 = choose|k1: int|
                            0 <= k1 < sv.len() && #[trigger] visited@[k1] && !zeros[k1] && sv[k1].id == id;
                        if v_before[k1] {
                            assert(newly_emitted(id, zeros, v_before, sv));
                            assert(forest_ids(roots_pre).contains(id));
                        } else {
                            assert(newly_emitted(id, v_before, visited@, sv));
                            assert(tree_ids(t).contains(id));
                        }
                    }
                    assert(children_closed(zeros, visited@, sv)) by {
                        assert forall|j2: int, k2: int|
                            #![trigger visited@[j2], sv[k2].parent_id]
                            0 <= j2 < sv.len() && 0 <= k2 < sv.len() && visited@[j2] && !zeros[j2]
                                && sv[k2].parent_id == Some(sv[j2].id) implies visited@[k2] by {
                            if v_before[j2] {
                                assert(v_before[k2]);
                            }
                        }
                    }
                }
            }
            w += 1;
        }
        let mut i2: usize = 0;
        while i2 < n
            invariant
                i2 <= n,
                n == snap@.len(),
                sv == nodes_view(snap@),
                forall|p: int, q: int| 0 <= p < q < sv.len() ==> sv[p].id != sv[q].id,
                children_table_ok(table@, sv),
                zeros.len() == sv.len(),
                forall|k2: int| 0 <= k2 < sv.len() ==> !(#[trigger] zeros[k2]),
                visited@.len() == sv.len(),
                forall|k2: int| 0 <= k2 < i2 ==> #[trigger] visited@[k2],
                children_closed(zeros, visited@, sv),
                forest_ok(roots@, sv),
                forest_ids(roots@).no_duplicates(),
                forall|id: Seq<char>|
                    #[trigger] forest_ids(roots@).contains(id) <==> newly_emitted(
                        id,
                        zeros,
                        visited@,
                        sv,
                    ),
            decreases n - i2,
        {
            if !visited[i2] {
                let ghost v_before = visited@;
                let ghost roots_pre = roots@;
                let t = build_node(&snap, &table, &mut visited, i2);
                proof {
                    lemma_forest_ids_push(roots_pre, t);
                    lemma_forest_ok_push(roots_pre, t, sv);
                    lemma_concat_contains(forest_ids(roots_pre), tree_ids(t));
                }
                roots.push(t);
                proof {
                    assert(roots@ == roots_pre.push(t));
                    assert(forest_ids(roots@) == forest_ids(roots_pre) + tree_ids(t));
                    assert forall|id: Seq<char>|
                        forest_ids(roots_pre).contains(id) implies !tree_ids(t).contains(id) by {
                        let k1 = choose|k1: int|
                            0 <= k1 < sv.len() && #[trigger] v_before[k1] && !zeros[k1] && sv[k1].id == id;
                        if tree_ids(t).contains(id) {
                            let k2 = choose|k2: int|
                                0 <= k2 < sv.len() && #[trigger] visited@[k2] && !v_before[k2]
                                    && sv[k2].id == id;
                            assert(k1 != k2);
                            assert(sv[k1].id != sv[k2].id);
                        }
                    }
                    lemma_ids_concat_no_dup(forest_ids(roots_pre), tree_ids(t));
                    assert forall|id: Seq<char>|
                        #[trigger] forest_ids(roots@).contains(id) implies newly_emitted(
                        id,
                        zeros,
                        visited@,
                        sv,
                    ) by {
                        if forest_ids(roots_pre).contains(id) {
                            let k1 = choose|k1: int|
                                0 <= k1 < sv.len() && #[trigger] v_before[k1] && !zeros[k1] && sv[k1].id == id;
                            assert(visited@[k1]);
                        }
                    }
                    assert forall|id: Seq<char>|
                        newly_emitted(id, zeros, visited@, sv) implies #[trigger] forest_ids(
                        roots@,
                    ).contains(id) by {
                        let k1 = choose|k1: int|
                            0 <= k1 < sv.len() && #[trigger] visited@[k1] && !zeros[k1] && sv[k1].id == id;
                        if v_before[k1] {
                            assert(newly_emitted(id, zeros, v_before, sv));
                            assert(forest_ids(roots_pre).contains(id));
                        } else {
                            assert(newly_emitted(id, v_before, visited@, sv));
                            assert(tree_ids(t).contains(id));
                        }
                    }
                    assert(children_closed(zeros, visited@, sv)) by {
                        assert forall|j2: int, k2: int|
                            #![trigger visited@[j2], sv[k2].parent_id]
                            0 <= j2 < sv.len() && 0 <= k2 < sv.len() && visited@[j2] && !zeros[j2]
                                && sv[k2].parent_id == Some(sv[j2].id) implies visited@[k2] by {
                            if v_before[j2] {
                                assert(v_before[k2]);
                            }
                        }
                    }
                }
            }
            i2 += 1;
        }
        proof {
            // every row is marked, so every id is presented
            assert forall|id: Seq<char>|
                has_node(sv, id) implies #[trigger] forest_ids(roots@).contains(id) by {
                let k1 = choose|k1: int| 0 <= k1 < sv.len() && sv[k1].id == id;
                assert(visited@[k1]);
                assert(newly_emitted(id, zeros, visited@, sv));
            }
        }
    }
    proof {
        // ids come from the snapshot, and the emitted set is closed under
        // children
        assert forall|id: Seq<char>|
            #[trigger] forest_ids(roots@).contains(id) implies has_node(sv, id) by {
            let k1 = choose|k1: int|
                0 <= k1 < sv.len() && #[trigger] visited@[k1] && !zeros[k1] && sv[k1].id == id;
        }
        assert forall|j: int, k2: int|
            #![trigger forest_ids(roots@).contains(sv[j].id), sv[k2].parent_id]
            0 <= j < sv.len() && 0 <= k2 < sv.len() && forest_ids(roots@).contains(sv[j].id)
                && sv[k2].parent_id == Some(sv[j].id) implies forest_ids(roots@).contains(
            sv[k2].id,
        ) by {
            let k1 = choose|k1: int|
                0 <= k1 < sv.len() && #[trigger] visited@[k1] && !zeros[k1] && sv[k1].id == sv[j].id;
            assert(k1 == j);
            assert(visited@[k2]);
            assert(newly_emitted(sv[k2].id, zeros, visited@, sv));
        }
    }
    roots
}

} // verus!
