//! The listing order of the node table.
//!
//! Flat listings come back ordered by (parent id, order index), parent
//! ids compared as strings with the rootless rows first, so that a later
//! grouping by parent sees each sibling run contiguously. `sort_nodes`
//! is the reference order: an insertion sort that keeps equal keys in
//! row order, so the result is pinned even between ties.

use vstd::prelude::*;
use vstd::relations::sorted_by;
use vstd::string::StrSliceExecFns;

use crate::store::{nodes_view, NodeModel, TreeNode};

verus! {

/// Strict lexicographic order on strings by character code, the order the
/// relational engine uses for its text columns.
pub open spec fn lex_lt(a: Seq<char>, b: Seq<char>) -> bool
    decreases a.len(),
{
    if b.len() == 0 {
        false
    } else if a.len() == 0 {
        true
    } else if a[0] != b[0] {
        (a[0] as int) < (b[0] as int)
    } else {
        lex_lt(a.drop_first(), b.drop_first())
    }
}

/// Two strings that neither precedes are one string.
pub proof fn lemma_lex_lt_connected(a: Seq<char>, b: Seq<char>)
    requires
        !lex_lt(a, b),
        !lex_lt(b, a),
    ensures
        a == b,
    decreases a.len(),
{
    if b.len() == 0 {
        assert(a.len() == 0);
        assert(a =~= b);
    } else if a.len() == 0 {
        assert(lex_lt(a, b));
    } else {
        assert(a[0] == b[0]);
        lemma_lex_lt_connected(a.drop_first(), b.drop_first());
        assert(a =~= b) by {
            assert(a.len() == b.len());
            assert(forall|i: int|
                1 <= i < a.len() ==> a[i] == a.drop_first()[i - 1] && b[i] == b.drop_first()[i
                    - 1]);
        }
    }
}

/// Lexicographic order is transitive.
pub proof fn lemma_lex_lt_trans(a: Seq<char>, b: Seq<char>, c: Seq<char>)
    requires
        lex_lt(a, b),
        lex_lt(b, c),
    ensures
        lex_lt(a, c),
    decreases a.len(),
{
    if a.len() == 0 {
    } else {
        assert(b.len() > 0 && c.len() > 0);
        if a[0] == b[0] {
            if b[0] == c[0] {
                lemma_lex_lt_trans(a.drop_first(), b.drop_first(), c.drop_first());
            }
        }
    }
}

/// Where the first difference sits, the order is decided by it.
pub proof fn lemma_lex_lt_at(a: Seq<char>, b: Seq<char>, i: int)
    requires
        0 <= i < a.len(),
        i < b.len(),
        forall|k: int| 0 <= k < i ==> a[k] == b[k],
        a[i] != b[i],
    ensures
        lex_lt(a, b) == ((a[i] as int) < (b[i] as int)),
    decreases i,
{
    if i > 0 {
        lemma_lex_lt_at(a.drop_first(), b.drop_first(), i - 1);
    }
}

/// When one string is a prefix of the other, the shorter one precedes.
pub proof fn lemma_lex_lt_prefix(a: Seq<char>, b: Seq<char>)
    requires
        forall|k: int| 0 <= k < a.len() && k < b.len() ==> a[k] == b[k],
    ensures
        lex_lt(a, b) == (a.len() < b.len()),
    decreases a.len(),
{
    if a.len() > 0 && b.len() > 0 {
        lemma_lex_lt_prefix(a.drop_first(), b.drop_first());
    }
}

/// Whether `a` strictly precedes `b`, comparing character by character.
pub fn str_lex_lt(a: &String, b: &String) -> (r: bool)
    ensures
        r == lex_lt(a@, b@),
{
    let a_str = a.as_str();
    let b_str = b.as_str();
    let a_len = a_str.unicode_len();
    let b_len = b_str.unicode_len();
    let mut i: usize = 0;
    while i < a_len && i < b_len
        invariant
            a_len == a@.len(),
            b_len == b@.len(),
            a_str@ == a@,
            b_str@ == b@,
            i <= a_len,
            i <= b_len,
            forall|k: int| 0 <= k < i ==> a@[k] == b@[k],
        decreases a_len - i,
    {
        let ca = a_str.get_char(i);
        let cb = b_str.get_char(i);
        if ca != cb {
            proof {
                lemma_lex_lt_at(a@, b@, i as int);
            }
            return (ca as u32) < (cb as u32);
        }
        i += 1;
    }
    proof {
        lemma_lex_lt_prefix(a@, b@);
    }
    a_len < b_len
}

/// The parent-id column order: rootless rows first, then string order.
pub open spec fn parent_lt(a: Option<Seq<char>>, b: Option<Seq<char>>) -> bool {
    match (a, b) {
        (None, Some(_)) => true,
        (Some(x), Some(y)) => lex_lt(x, y),
        _ => false,
    }
}

/// The listing order on node rows: by parent id, then by order index.
pub open spec fn node_le(a: NodeModel, b: NodeModel) -> bool {
    parent_lt(a.parent_id, b.parent_id) || (a.parent_id == b.parent_id && a.order_index
        <= b.order_index)
}

/// Any two node rows compare some way round.
pub proof fn lemma_node_le_connected(a: NodeModel, b: NodeModel)
    ensures
        node_le(a, b) || node_le(b, a),
{
    match (a.parent_id, b.parent_id) {
        (Some(x), Some(y)) => {
            if !lex_lt(x, y) && !lex_lt(y, x) {
                lemma_lex_lt_connected(x, y);
            }
        },
        _ => {},
    }
}

/// The listing order is transitive.
pub proof fn lemma_node_le_trans(a: NodeModel, b: NodeModel, c: NodeModel)
    requires
        node_le(a, b),
        node_le(b, c),
    ensures
        node_le(a, c),
{
    if parent_lt(a.parent_id, b.parent_id) && parent_lt(b.parent_id, c.parent_id) {
        match (a.parent_id, b.parent_id, c.parent_id) {
            (Some(x), Some(y), Some(z)) => {
                lemma_lex_lt_trans(x, y, z);
            },
            _ => {},
        }
    }
}

/// Whether `a` comes no later than `b` in a listing.
pub fn node_le_exec(a: &TreeNode, b: &TreeNode) -> (r: bool)
    ensures
        r == node_le(a@, b@),
{
    match (&a.parent_id, &b.parent_id) {
        (None, None) => a.order_index <= b.order_index,
        (None, Some(_)) => true,
        (Some(_), None) => false,
        (Some(x), Some(y)) => {
            if str_lex_lt(x, y) {
                true
            } else if x.eq(y) {
                proof {
                    assert(a@.parent_id == b@.parent_id);
                }
                a.order_index <= b.order_index
            } else {
                false
            }
        },
    }
}

/// Where an insertion sort puts `x`: after the last row that compares no
/// later than it, so equal keys keep their arrival order.
pub open spec fn insert_ordered(s: Seq<NodeModel>, x: NodeModel) -> Seq<NodeModel>
    decreases s.len(),
{
    if s.len() == 0 {
        seq![x]
    } else if node_le(s.last(), x) {
        s.push(x)
    } else {
        insert_ordered(s.drop_last(), x).push(s.last())
    }
}

/// The reference listing order: each row inserted in turn.
pub open spec fn sort_nodes(s: Seq<NodeModel>) -> Seq<NodeModel>
    decreases s.len(),
{
    if s.len() == 0 {
        Seq::<NodeModel>::empty()
    } else {
        insert_ordered(sort_nodes(s.drop_last()), s.last())
    }
}

/// The insertion point the executable search finds is the one the spec
/// recursion reaches.
proof fn lemma_insert_ordered_at(s: Seq<NodeModel>, x: NodeModel, j: int)
    requires
        0 <= j <= s.len(),
        forall|k: int| j <= k < s.len() ==> !node_le(s[k], x),
        j > 0 ==> node_le(s[j - 1], x),
    ensures
        insert_ordered(s, x) == s.insert(j, x),
    decreases s.len(),
{
    if s.len() == 0 {
        assert(insert_ordered(s, x) =~= s.insert(0, x));
    } else if node_le(s.last(), x) {
        assert(j == s.len());
        assert(insert_ordered(s, x) =~= s.insert(j, x));
    } else {
        assert(j <= s.len() - 1);
        lemma_insert_ordered_at(s.drop_last(), x, j);
        assert(insert_ordered(s, x) == insert_ordered(s.drop_last(), x).push(s.last()));
        assert(insert_ordered(s.drop_last(), x).push(s.last()) =~= s.insert(j, x));
    }
}

/// Inserting keeps the rows: the result is the old multiset plus `x`.
proof fn lemma_insert_ordered_multiset(s: Seq<NodeModel>, x: NodeModel)
    ensures
        insert_ordered(s, x).to_multiset() == s.to_multiset().insert(x),
    decreases s.len(),
{
    broadcast use vstd::seq_lib::group_to_multiset_ensures;

    if s.len() == 0 {
        assert(insert_ordered(s, x) =~= Seq::<NodeModel>::empty().push(x));
        assert(s =~= Seq::<NodeModel>::empty());
    } else if node_le(s.last(), x) {
    } else {
        lemma_insert_ordered_multiset(s.drop_last(), x);
        assert(s.drop_last().push(s.last()) =~= s);
        assert(insert_ordered(s, x).to_multiset() == insert_ordered(s.drop_last(), x).to_multiset()
            .insert(s.last()));
        assert(s.to_multiset() == s.drop_last().to_multiset().insert(s.last()));
        assert(insert_ordered(s, x).to_multiset() =~= s.to_multiset().insert(x));
    }
}

/// Inserting into a sorted run leaves it sorted.
proof fn lemma_insert_ordered_sorted(s: Seq<NodeModel>, x: NodeModel)
    requires
        sorted_by(s, |a: NodeModel, b: NodeModel| node_le(a, b)),
    ensures
        sorted_by(insert_ordered(s, x), |a: NodeModel, b: NodeModel| node_le(a, b)),
    decreases s.len(),
{
    let leq = |a: NodeModel, b: NodeModel| node_le(a, b);
    if s.len() == 0 {
    } else if node_le(s.last(), x) {
        let out = s.push(x);
        assert forall|i: int, j: int| 0 <= i < j < out.len() implies leq(out[i], out[j]) by {
            if j == out.len() - 1 {
                if i < s.len() - 1 {
                    assert(leq(s[i], s[s.len() - 1]));
                    lemma_node_le_trans(s[i], s[s.len() - 1], x);
                }
            }
        }
    } else {
        assert(sorted_by(s.drop_last(), leq)) by {
            assert(forall|i: int, j: int|
                0 <= i < j < s.len() - 1 ==> leq(s.drop_last()[i], s.drop_last()[j]) == leq(
                    s[i],
                    s[j],
                ));
        }
        lemma_insert_ordered_sorted(s.drop_last(), x);
        let inner = insert_ordered(s.drop_last(), x);
        let out = inner.push(s.last());
        lemma_insert_ordered_multiset(s.drop_last(), x);
        broadcast use vstd::seq_lib::group_to_multiset_ensures;

        // every row of the inner run comes no later than the pushed last row
        assert forall|i: int| 0 <= i < inner.len() implies leq(inner[i], s.last()) by {
            assert(inner.to_multiset().count(inner[i]) > 0);
            assert(inner.to_multiset() == s.drop_last().to_multiset().insert(x));
            if inner[i] == x {
                lemma_node_le_connected(x, s.last());
            } else {
                assert(s.drop_last().to_multiset().count(inner[i]) > 0);
                assert(s.drop_last().contains(inner[i]));
                let k = choose|k: int|
                    0 <= k < s.drop_last().len() && s.drop_last()[k] == inner[i];
                assert(leq(s[k], s.last()));
            }
        }
        assert forall|i: int, j: int| 0 <= i < j < out.len() implies leq(out[i], out[j]) by {
            if j == out.len() - 1 {
                assert(leq(inner[i], s.last()));
            }
        }
    }
}

/// The reference order is sorted.
pub proof fn lemma_sort_nodes_sorted(s: Seq<NodeModel>)
    ensures
        sorted_by(sort_nodes(s), |a: NodeModel, b: NodeModel| node_le(a, b)),
    decreases s.len(),
{
    if s.len() > 0 {
        lemma_sort_nodes_sorted(s.drop_last());
        lemma_insert_ordered_sorted(sort_nodes(s.drop_last()), s.last());
    }
}

/// The reference order is a permutation of its input.
pub proof fn lemma_sort_nodes_multiset(s: Seq<NodeModel>)
    ensures
        sort_nodes(s).to_multiset() == s.to_multiset(),
    decreases s.len(),
{
    broadcast use vstd::seq_lib::group_to_multiset_ensures;

    if s.len() == 0 {
        assert(sort_nodes(s) =~= s);
    } else {
        lemma_sort_nodes_multiset(s.drop_last());
        lemma_insert_ordered_multiset(sort_nodes(s.drop_last()), s.last());
        assert(s.drop_last().push(s.last()) =~= s);
        assert(s.to_multiset() == s.drop_last().to_multiset().insert(s.last()));
    }
}

/// Sorts node rows into the reference listing order.
pub fn sort_tree_nodes(rows: Vec<TreeNode>) -> (r: Vec<TreeNode>)
    ensures
        nodes_view(r@) == sort_nodes(nodes_view(rows@)),
{
    let ghost rv = nodes_view(rows@);
    let mut out: Vec<TreeNode> = Vec::new();
    let mut i: usize = 0;
    proof {
        assert(rv.subrange(0, 0) =~= Seq::<NodeModel>::empty());
        assert(nodes_view(out@) =~= sort_nodes(rv.subrange(0, 0)));
    }
    while i < rows.len()
        invariant
            i <= rows.len(),
            rv == nodes_view(rows@),
            nodes_view(out@) == sort_nodes(rv.subrange(0, i as int)),
        decreases rows.len() - i,
    {
        let row = rows[i].clone();
        let mut j: usize = out.len();
        while j > 0 && !node_le_exec(&out[j - 1], &row)
            invariant
                j <= out.len(),
                nodes_view(out@) == sort_nodes(rv.subrange(0, i as int)),
                i < rows.len(),
                rv == nodes_view(rows@),
                row@ == rv[i as int],
                forall|k: int| j <= k < out.len() ==> !node_le(nodes_view(out@)[k], row@),
            decreases j,
        {
            j -= 1;
        }
        proof {
            lemma_insert_ordered_at(nodes_view(out@), row@, j as int);
        }
        out.insert(j, row);
        proof {
            assert(nodes_view(out@) =~= sort_nodes(rv.subrange(0, i as int)).insert(
                j as int,
                rv[i as int],
            ));
            assert(rv.subrange(0, i + 1 as int).drop_last() =~= rv.subrange(0, i as int));
            assert(rv.subrange(0, i + 1 as int).last() == rv[i as int]);
            assert(sort_nodes(rv.subrange(0, i + 1 as int)) == insert_ordered(
                sort_nodes(rv.subrange(0, i as int)),
                rv[i as int],
            ));
        }
        i += 1;
    }
    proof {
        assert(rv.subrange(0, rows@.len() as int) =~= rv);
    }
    out
}

} // verus!
