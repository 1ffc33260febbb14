//! Laws of the tree's operations, stated and proved over the abstract views
//! that the operations' own contracts use.

use vstd::prelude::*;

use crate::seqs::{
    count, idx_of, lemma_count_contains, lemma_count_insert, lemma_count_one_index,
    lemma_count_push, lemma_count_remove, lemma_count_swap, lemma_idx_of_valid,
};
use crate::toc::{
    add_view, detach_view, home_of, in_subtree, inv, list_of, move_belong_to_view,
    move_down_view, move_left_view, move_right_view, move_up_view, parent_iter, remove_view,
    subtree_set, NodeView, TocRoot, TreeView,
};

verus! {

/// Inserting a fresh node and removing it right away restores the tree
/// exactly (the freed id may be recycled by a later insertion).
pub proof fn lemma_add_remove_round_trip(
    v: TreeView,
    k: usize,
    title: Seq<char>,
    words: u128,
    range: (u128, u128),
    parent: Option<usize>,
)
    requires
        inv(v),
        !v.nodes.dom().contains(k),
        parent matches Some(p) ==> v.nodes.dom().contains(p),
    ensures
        remove_view(add_view(v, k, title, words, range, parent), k) == v,
{
    let v2 = add_view(v, k, title, words, range, parent);
    let l = list_of(v, parent);
    TocRoot::lemma_fresh_id_uncounted(v, k);
    lemma_count_push(l, k, k);
    assert(count(l, k) == 0);
    assert(home_of(v2, k) == l.push(k));
    lemma_count_one_index(l.push(k), l.len() as int, k);
    assert(idx_of(l.push(k), k) == l.len());
    assert(l.push(k).remove(l.len() as int) =~= l);
    // the subtree of the fresh leaf is the leaf alone
    assert forall|n: usize| #[trigger]
        v2.nodes.dom().contains(n) && in_subtree(v2, n, k) implies n == k by {
        if n != k {
            let k1 = choose|k1: nat| parent_iter(v2, n, k1) == Some(k);
            assert(k1 >= 1);
            lemma_parent_iter_pred(v2, n, k1, k);
            let x = choose|x: usize|
                v2.nodes.dom().contains(x) && #[trigger] v2.nodes[x].parent == Some(k);
            if x == k {
                assert(v2.nodes[k].parent == parent);
                match parent {
                    None => {},
                    Some(p) => {
                        assert(v.nodes.dom().contains(p));
                    },
                }
            } else {
                assert(v.nodes.dom().contains(x));
                assert(v2.nodes[x].parent == v.nodes[x].parent);
                assert(v.nodes.dom().contains(k));
            }
        }
    }
    assert(parent_iter(v2, k, 0) == Some(k));
    assert(subtree_set(v2, k) =~= Set::empty().insert(k));
    let v3 = detach_view(v2, k);
    match parent {
        None => {
            assert(v3.roots =~= v.roots);
            assert(remove_view(v2, k).nodes =~= v.nodes);
            assert(remove_view(v2, k) =~= v);
        },
        Some(p) => {
            assert(v2.nodes[p] == (NodeView { children: l.push(k), ..v.nodes[p] }));
            assert(v3.nodes[p] =~= v.nodes[p]);
            assert(remove_view(v2, k).nodes =~= v.nodes);
            assert(remove_view(v2, k) =~= v);
        },
    }
}

/// A parent walk of at least one step into `a` passes through a node whose
/// back-reference names `a`.
proof fn lemma_parent_iter_pred(v: TreeView, n: usize, k: nat, a: usize)
    requires
        parent_iter(v, n, k) == Some(a),
        k >= 1,
    ensures
        exists|x: usize|
            #![trigger v.nodes[x].parent]
            v.nodes.dom().contains(x) && v.nodes[x].parent == Some(a),
    decreases k,
{
    let p = v.nodes[n].parent->0;
    if k == 1 {
        assert(v.nodes.dom().contains(n) && v.nodes[n].parent == Some(a));
    } else {
        lemma_parent_iter_pred(v, p, (k - 1) as nat, a);
    }
}

/// Moving a node up and then down (or down and then up) restores the tree,
/// provided the first move was not a boundary no-op; on a dead id both
/// compositions are no-ops.
pub proof fn lemma_move_up_down_inverse(v: TreeView, id: usize)
    requires
        inv(v),
    ensures
        !v.nodes.dom().contains(id) ==> move_down_view(move_up_view(v, id), id) == v
            && move_up_view(move_down_view(v, id), id) == v,
        v.nodes.dom().contains(id) && idx_of(home_of(v, id), id) != 0 ==> move_down_view(
            move_up_view(v, id),
            id,
        ) == v,
        v.nodes.dom().contains(id) && idx_of(home_of(v, id), id) != home_of(v, id).len() - 1
            ==> move_up_view(move_down_view(v, id), id) == v,
{
    if v.nodes.dom().contains(id) {
        let o = v.nodes[id].parent;
        let l = home_of(v, id);
        assert(count(l, id) == 1);
        lemma_count_contains(l, id);
        lemma_idx_of_valid(l, id);
        let i = idx_of(l, id);
        if i != 0 {
            let w = move_up_view(v, id);
            let l2 = l.update(i, l[i - 1]).update(i - 1, id);
            lemma_set_list_effect(v, o, l2, id);
            assert(home_of(w, id) == l2);
            lemma_count_swap(l, i, i - 1, id);
            lemma_count_one_index(l2, i - 1, id);
            assert(idx_of(l2, id) == i - 1);
            assert(i - 1 != l2.len() - 1);
            let l3 = l2.update(i - 1, l2[i]).update(i, id);
            assert(l3 =~= l);
            lemma_set_list_twice(v, o, l2, l3);
        }
        if i != l.len() - 1 {
            let w = move_down_view(v, id);
            let l2 = l.update(i, l[i + 1]).update(i + 1, id);
            lemma_set_list_effect(v, o, l2, id);
            assert(home_of(w, id) == l2);
            lemma_count_swap(l, i, i + 1, id);
            lemma_count_one_index(l2, i + 1, id);
            assert(idx_of(l2, id) == i + 1);
            assert(i + 1 != 0);
            let l3 = l2.update(i + 1, l2[i]).update(i, id);
            assert(l3 =~= l);
            lemma_set_list_twice(v, o, l2, l3);
        }
    }
}

/// Replacing a sibling list leaves every node's back-reference, and every
/// other list, as it was.
proof fn lemma_set_list_effect(v: TreeView, o: Option<usize>, l: Seq<usize>, id: usize)
    requires
        inv(v),
        v.nodes.dom().contains(id),
        v.nodes[id].parent == o,
        o matches Some(p) ==> v.nodes.dom().contains(p),
    ensures
        crate::toc::set_list(v, o, l).nodes.dom() == v.nodes.dom(),
        crate::toc::set_list(v, o, l).nodes[id].parent == o,
        home_of(crate::toc::set_list(v, o, l), id) == l,
{
    let w = crate::toc::set_list(v, o, l);
    assert(w.nodes.dom() =~= v.nodes.dom());
    match o {
        None => {},
        Some(p) => {
            assert(p != id ==> w.nodes[id] == v.nodes[id]);
            if p == id {
                assert(w.nodes[id].parent == v.nodes[id].parent);
            }
        },
    }
}

/// Replacing a sibling list twice keeps only the second replacement; putting
/// the original list back restores the tree.
proof fn lemma_set_list_twice(v: TreeView, o: Option<usize>, l2: Seq<usize>, l3: Seq<usize>)
    requires
        o matches Some(p) ==> v.nodes.dom().contains(p),
        l3 == list_of(v, o),
    ensures
        crate::toc::set_list(crate::toc::set_list(v, o, l2), o, l3) == v,
{
    let w = crate::toc::set_list(crate::toc::set_list(v, o, l2), o, l3);
    match o {
        None => {
            assert(w =~= v);
        },
        Some(p) => {
            assert(w.nodes[p] == v.nodes[p]);
            assert(w.nodes =~= v.nodes);
            assert(w =~= v);
        },
    }
}

/// The boundary cases are no-ops: moving the first sibling up, the last
/// sibling down, the first child left, or a top-level node right leaves the
/// tree unchanged.
pub proof fn lemma_boundary_noops(v: TreeView, id: usize)
    requires
        inv(v),
        v.nodes.dom().contains(id),
    ensures
        idx_of(home_of(v, id), id) == 0 ==> move_up_view(v, id) == v && move_left_view(v, id) == v,
        idx_of(home_of(v, id), id) == home_of(v, id).len() - 1 ==> move_down_view(v, id) == v,
        v.nodes[id].parent is None ==> move_right_view(v, id) == v,
{
}

/// Reparenting updates both sides: after a move below `p`, the node's
/// back-reference names `p`, the node stands exactly once in `p`'s child list
/// (at its end), and its old sibling list no longer holds it.
pub proof fn lemma_move_belong_to_effect(v: TreeView, id: usize, p: usize)
    requires
        inv(v),
        v.nodes.dom().contains(id),
        v.nodes.dom().contains(p),
        !in_subtree(v, p, id),
    ensures
        ({
            let w = move_belong_to_view(v, id, p);
            &&& w.nodes[id].parent == Some(p)
            &&& count(w.nodes[p].children, id) == 1
            &&& w.nodes[p].children.last() == id
            &&& (v.nodes[id].parent != Some(p) ==> count(list_of(w, v.nodes[id].parent), id) == 0)
        }),
{
    let o = v.nodes[id].parent;
    let l = home_of(v, id);
    assert(count(l, id) == 1);
    lemma_count_contains(l, id);
    lemma_idx_of_valid(l, id);
    let i = idx_of(l, id);
    let v1 = detach_view(v, id);
    assert(p != id) by {
        assert(parent_iter(v, p, 0) == Some(p));
    }
    let w = move_belong_to_view(v, id, p);
    lemma_count_remove(l, i, id);
    assert(count(l.remove(i), id) == 0);
    crate::toc::lemma_home_unique(v, id);
    // the destination list before the append holds no copy of the id
    let lp = v1.nodes[p].children;
    assert(count(lp, id) == 0) by {
        if o == Some(p) {
            assert(lp == l.remove(i));
        } else {
            assert(lp == v.nodes[p].children);
        }
    }
    let at = lp.len() as int;
    lemma_count_insert(lp, at, id, id);
    assert(w.nodes[p].children == lp.insert(at, id));
    assert(lp.insert(at, id) =~= lp.push(id));
    if o != Some(p) {
        match o {
            None => {
                assert(list_of(w, o) == l.remove(i));
            },
            Some(q) => {
                assert(q != id ==> list_of(w, o) == l.remove(i));
                if q == id {
                    assert(v1.nodes[id].children == l.remove(i));
                    assert(list_of(w, o) == l.remove(i));
                }
            },
        }
    }
}

/// Removing a node removes its whole subtree and nothing else: afterwards an
/// id is live exactly when it was live and did not sit below the removed node.
pub proof fn lemma_remove_cascades(v: TreeView, id: usize)
    requires
        inv(v),
        v.nodes.dom().contains(id),
    ensures
        forall|n: usize| #[trigger]
            remove_view(v, id).nodes.dom().contains(n) <==> (v.nodes.dom().contains(n)
                && !in_subtree(v, n, id)),
        !remove_view(v, id).nodes.dom().contains(id),
{
    let w = remove_view(v, id);
    let v1 = detach_view(v, id);
    assert(v1.nodes.dom() =~= v.nodes.dom());
    assert(parent_iter(v, id, 0) == Some(id));
    assert(w.nodes.dom() =~= v1.nodes.dom().difference(subtree_set(v, id)));
    assert forall|n: usize| true implies (#[trigger] w.nodes.dom().contains(n) <==> (
    v.nodes.dom().contains(n) && !in_subtree(v, n, id))) by {}
}

} // verus!
