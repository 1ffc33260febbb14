//! The outline tree: a forest of titled sections held in a slot-recycling
//! store and addressed by stable integer ids.
//!
//! The tree's abstract state is a [`TreeView`]: the ordered root list and a
//! map from id to [`NodeView`]. The central invariant ([`inv`]) says that the
//! `parent` back-reference of every live node agrees with exactly one
//! occurrence of its id in its parent's child list (or in the root list), and
//! that every list entry points back to its owner. A private depth map makes
//! the parent relation well-founded, which rules out cycles and lets the
//! traversals terminate.

use vstd::prelude::*;

use crate::error::TocError;
use crate::seqs::{count, find_index, idx_of, lemma_idx_of_valid, remove_value};
use crate::seqs::{lemma_push_contains, lemma_push_no_dup};
use crate::seqs::{
    lemma_count_contains, lemma_count_insert, lemma_count_one_index, lemma_count_push,
    lemma_count_remove, lemma_count_two_positions, lemma_count_update,
};
use crate::store::{
    slab_contains, slab_entries, slab_get, slab_insert, slab_new, slab_remove, slab_vacant_key,
};

verus! {

/// Descriptive metadata of a section: a word count and the (start, end)
/// offsets of its span in the source document.
#[derive(Debug, Clone, Copy)]
pub struct TreeNodeMeta {
    pub words: u128,
    pub range: (u128, u128),
}

/// One section of the outline. `parent` is a back-reference that the tree
/// keeps in agreement with the child lists; `children` is the authoritative
/// sibling order of the node's own children.
#[derive(Debug, Clone)]
pub struct TocNode {
    pub id: usize,
    pub title: String,
    pub patch: Option<String>,
    pub meta: TreeNodeMeta,
    pub parent: Option<usize>,
    pub children: Vec<usize>,
}

/// The abstract value of one node.
#[verifier::ext_equal]
pub ghost struct NodeView {
    pub id: usize,
    pub title: Seq<char>,
    pub patch: Option<Seq<char>>,
    pub words: u128,
    pub range: (u128, u128),
    pub parent: Option<usize>,
    pub children: Seq<usize>,
}

impl View for TocNode {
    type V = NodeView;

    open spec fn view(&self) -> NodeView {
        NodeView {
            id: self.id,
            title: self.title@,
            patch: match self.patch {
                Some(p) => Some(p@),
                None => None,
            },
            words: self.meta.words,
            range: self.meta.range,
            parent: self.parent,
            children: self.children@,
        }
    }
}

/// The abstract value of the whole tree: root order plus the node map.
#[verifier::ext_equal]
pub ghost struct TreeView {
    pub roots: Seq<usize>,
    pub nodes: Map<usize, NodeView>,
}

/// The node map that a store value denotes.
pub open spec fn nodes_of(c: slab::Slab<TocNode>) -> Map<usize, NodeView> {
    slab_entries(c).map_values(|n: TocNode| n@)
}

/// The outline tree. Owns every node; callers hold only ids.
pub struct TocRoot {
    children: Vec<usize>,
    container: slab::Slab<TocNode>,
    depth: Ghost<Map<usize, nat>>,
}

impl View for TocRoot {
    type V = TreeView;

    closed spec fn view(&self) -> TreeView {
        TreeView { roots: self.children@, nodes: nodes_of(self.container) }
    }
}

/// The sibling list owned by `owner`: the root list for `None`, otherwise the
/// owner's child list.
pub open spec fn list_of(v: TreeView, owner: Option<usize>) -> Seq<usize> {
    match owner {
        None => v.roots,
        Some(p) => v.nodes[p].children,
    }
}

/// The sibling list that `id`'s own back-reference points into.
pub open spec fn home_of(v: TreeView, id: usize) -> Seq<usize> {
    list_of(v, v.nodes[id].parent)
}

/// The view with the sibling list of `owner` replaced by `l`.
pub open spec fn set_list(v: TreeView, owner: Option<usize>, l: Seq<usize>) -> TreeView {
    match owner {
        None => TreeView { roots: l, nodes: v.nodes },
        Some(p) => (TreeView {
            roots: v.roots,
            nodes: v.nodes.insert(p, NodeView { children: l, ..v.nodes[p] }),
        }),
    }
}

/// The view with `id`'s parent back-reference set to `np`.
pub open spec fn set_parent(v: TreeView, id: usize, np: Option<usize>) -> TreeView {
    TreeView { roots: v.roots, nodes: v.nodes.insert(id, NodeView { parent: np, ..v.nodes[id] }) }
}

/// The view after taking `id` out of its sibling list (its back-reference is
/// left as it was; the callers overwrite it right after).
pub open spec fn detach_view(v: TreeView, id: usize) -> TreeView {
    let home = home_of(v, id);
    set_list(v, v.nodes[id].parent, home.remove(idx_of(home, id)))
}

/// The view after placing the (detached) node `id` at position `at` of the
/// sibling list owned by `np`, with its back-reference set to `np`.
pub open spec fn insert_view(v: TreeView, id: usize, np: Option<usize>, at: int) -> TreeView {
    let v1 = set_parent(v, id, np);
    set_list(v1, np, list_of(v1, np).insert(at, id))
}

/// The view after inserting the brand-new node value `nv` under id `k`,
/// appended to the sibling list of its parent.
pub open spec fn add_view_nv(v: TreeView, k: usize, nv: NodeView) -> TreeView {
    let v1 = TreeView { roots: v.roots, nodes: v.nodes.insert(k, nv) };
    set_list(v1, nv.parent, list_of(v1, nv.parent).push(k))
}

/// The view after inserting a brand-new node under `parent` (appended to the
/// parent's child list, or to the root list).
pub open spec fn add_view(
    v: TreeView,
    k: usize,
    title: Seq<char>,
    words: u128,
    range: (u128, u128),
    parent: Option<usize>,
) -> TreeView {
    add_view_nv(
        v,
        k,
        NodeView {
            id: k,
            title: title,
            patch: None,
            words: words,
            range: range,
            parent: parent,
            children: Seq::empty(),
        },
    )
}

/// The view after replacing the non-structural data of the live node `id`
/// (its id, back-reference and child list are kept); unchanged on a dead id.
pub open spec fn set_data_view(
    v: TreeView,
    id: usize,
    title: Seq<char>,
    patch: Option<Seq<char>>,
    words: u128,
    range: (u128, u128),
) -> TreeView {
    if !v.nodes.dom().contains(id) {
        v
    } else {
        TreeView {
            roots: v.roots,
            nodes: v.nodes.insert(
                id,
                NodeView {
                    title: title,
                    patch: patch,
                    words: words,
                    range: range,
                    ..v.nodes[id]
                },
            ),
        }
    }
}

/// The view after swapping a node one place toward the front of its sibling
/// list; the tree is unchanged when the id is dead or already first.
pub open spec fn move_up_view(v: TreeView, id: usize) -> TreeView {
    if !v.nodes.dom().contains(id) {
        v
    } else {
        let l = home_of(v, id);
        let i = idx_of(l, id);
        if i == 0 {
            v
        } else {
            set_list(v, v.nodes[id].parent, l.update(i, l[i - 1]).update(i - 1, id))
        }
    }
}

/// The view after swapping a node one place toward the back of its sibling
/// list; the tree is unchanged when the id is dead or already last.
pub open spec fn move_down_view(v: TreeView, id: usize) -> TreeView {
    if !v.nodes.dom().contains(id) {
        v
    } else {
        let l = home_of(v, id);
        let i = idx_of(l, id);
        if i == l.len() - 1 {
            v
        } else {
            set_list(v, v.nodes[id].parent, l.update(i, l[i + 1]).update(i + 1, id))
        }
    }
}

/// The view after making a node the last child of its immediately preceding
/// sibling; unchanged when the id is dead or first in its sibling list.
pub open spec fn move_left_view(v: TreeView, id: usize) -> TreeView {
    if !v.nodes.dom().contains(id) {
        v
    } else {
        let l = home_of(v, id);
        let i = idx_of(l, id);
        if i == 0 {
            v
        } else {
            let s = l[i - 1];
            insert_view(detach_view(v, id), id, Some(s), v.nodes[s].children.len() as int)
        }
    }
}

/// The view after making a node a sibling of its former parent, appended to
/// that parent's own sibling list; unchanged when the id is dead or already at
/// top level.
pub open spec fn move_right_view(v: TreeView, id: usize) -> TreeView {
    if !v.nodes.dom().contains(id) {
        v
    } else {
        match v.nodes[id].parent {
            None => v,
            Some(p) => {
                let gp = v.nodes[p].parent;
                insert_view(detach_view(v, id), id, gp, list_of(v, gp).len() as int)
            },
        }
    }
}

/// The view after moving `id` immediately before `t`, into `t`'s sibling
/// list; unchanged when either id is dead, or when `t` lies in the subtree of
/// `id` (such a move would make the node its own descendant).
pub open spec fn move_before_view(v: TreeView, id: usize, t: usize) -> TreeView {
    if !v.nodes.dom().contains(id) || !v.nodes.dom().contains(t) || in_subtree(v, t, id) {
        v
    } else {
        let v1 = detach_view(v, id);
        let tp = v.nodes[t].parent;
        insert_view(v1, id, tp, idx_of(list_of(v1, tp), t))
    }
}

/// The view after moving `id` immediately after `t`, into `t`'s sibling list;
/// unchanged in the same cases as `move_before_view`.
pub open spec fn move_after_view(v: TreeView, id: usize, t: usize) -> TreeView {
    if !v.nodes.dom().contains(id) || !v.nodes.dom().contains(t) || in_subtree(v, t, id) {
        v
    } else {
        let v1 = detach_view(v, id);
        let tp = v.nodes[t].parent;
        insert_view(v1, id, tp, idx_of(list_of(v1, tp), t) + 1)
    }
}

/// The view after moving `id` to be the last child of `p`; unchanged when
/// either id is dead, or when `p` lies in the subtree of `id`.
pub open spec fn move_belong_to_view(v: TreeView, id: usize, p: usize) -> TreeView {
    if !v.nodes.dom().contains(id) || !v.nodes.dom().contains(p) || in_subtree(v, p, id) {
        v
    } else {
        let v1 = detach_view(v, id);
        insert_view(v1, id, Some(p), v1.nodes[p].children.len() as int)
    }
}

/// The view after removing the whole subtree rooted at `id`: every node of
/// that subtree leaves the store, and `id` leaves its sibling list; a dead id
/// leaves the tree unchanged.
pub open spec fn remove_view(v: TreeView, id: usize) -> TreeView {
    if !v.nodes.dom().contains(id) {
        v
    } else {
        let v1 = detach_view(v, id);
        TreeView { roots: v1.roots, nodes: v1.nodes.remove_keys(subtree_set(v, id)) }
    }
}

/// The id reached from `id` after following `k` parent back-references
/// (`None` once the walk leaves the forest).
pub open spec fn parent_iter(v: TreeView, id: usize, k: nat) -> Option<usize>
    decreases k,
{
    if k == 0 {
        Some(id)
    } else if !v.nodes.dom().contains(id) {
        None
    } else {
        match v.nodes[id].parent {
            None => None,
            Some(p) => parent_iter(v, p, (k - 1) as nat),
        }
    }
}

/// `a` lies on the parent chain of `n` (`n` itself included): `n` belongs to
/// the subtree rooted at `a`.
pub open spec fn in_subtree(v: TreeView, n: usize, a: usize) -> bool {
    exists|k: nat| parent_iter(v, n, k) == Some(a)
}

/// The live ids of the subtree rooted at `id`.
pub open spec fn subtree_set(v: TreeView, id: usize) -> Set<usize> {
    Set::new(|n: usize| v.nodes.dom().contains(n) && in_subtree(v, n, id))
}

/// Every back-reference of a live node names a live node.
pub open spec fn parents_live(v: TreeView) -> bool {
    forall|x: usize| #[trigger]
        v.nodes.dom().contains(x) ==> match v.nodes[x].parent {
            None => true,
            Some(q) => v.nodes.dom().contains(q),
        }
}

/// The structural invariant of the tree (parent/child duality and uniqueness):
/// every live node's id occurs exactly once in the sibling list its
/// back-reference points into, every list entry is live and points back to the
/// list's owner, and ids name themselves.
pub open spec fn inv(v: TreeView) -> bool {
    &&& v.nodes.dom().finite()
    &&& parents_live(v)
    &&& forall|id: usize| #[trigger]
        v.nodes.dom().contains(id) ==> v.nodes[id].id == id && count(home_of(v, id), id) == 1
    &&& forall|i: int|
        0 <= i < v.roots.len() ==> v.nodes.dom().contains(#[trigger] v.roots[i])
            && v.nodes[v.roots[i]].parent is None
    &&& forall|p: usize, i: int|
        v.nodes.dom().contains(p) && 0 <= i < v.nodes[p].children.len() ==> v.nodes.dom().contains(
            #[trigger] v.nodes[p].children[i],
        ) && v.nodes[v.nodes[p].children[i]].parent == Some(p)
}

/// Each node sits one level below its parent; roots sit at level zero.
pub open spec fn depth_ok(v: TreeView, d: Map<usize, nat>) -> bool {
    forall|id: usize| #[trigger]
        v.nodes.dom().contains(id) ==> match v.nodes[id].parent {
            None => d[id] == 0,
            Some(p) => d[id] == d[p] + 1,
        }
}

/// The well-formedness of a tree whose node `id` has been taken out of its
/// sibling list: everything of `inv` holds except that `id` occurs in no list
/// at all (its stale back-reference is about to be overwritten), and the
/// depth map is still coherent.
spec fn detached_ok(v: TreeView, d: Map<usize, nat>, id: usize) -> bool {
    &&& v.nodes.dom().finite()
    &&& v.nodes.dom().contains(id)
    &&& parents_live(v)
    &&& forall|x: usize| #[trigger] v.nodes.dom().contains(x) ==> v.nodes[x].id == x
    &&& forall|x: usize| #[trigger]
        v.nodes.dom().contains(x) && x != id ==> count(home_of(v, x), x) == 1
    &&& count(v.roots, id) == 0
    &&& forall|p: usize| #[trigger] v.nodes.dom().contains(p) ==> count(v.nodes[p].children, id) == 0
    &&& forall|i: int|
        0 <= i < v.roots.len() ==> v.nodes.dom().contains(#[trigger] v.roots[i])
            && v.nodes[v.roots[i]].parent is None
    &&& forall|p: usize, i: int|
        v.nodes.dom().contains(p) && 0 <= i < v.nodes[p].children.len() ==> v.nodes.dom().contains(
            #[trigger] v.nodes[p].children[i],
        ) && v.nodes[v.nodes[p].children[i]].parent == Some(p)
    &&& depth_ok(v, d)
}

/// In a well-formed view a live id occurs only in its own home list.
pub proof fn lemma_home_unique(v: TreeView, id: usize)
    requires
        inv(v),
        v.nodes.dom().contains(id),
    ensures
        v.nodes[id].parent is Some ==> count(v.roots, id) == 0,
        forall|p: usize| #[trigger]
            v.nodes.dom().contains(p) && v.nodes[id].parent != Some(p) ==> count(
                v.nodes[p].children,
                id,
            ) == 0,
{
    lemma_count_contains(v.roots, id);
    if v.roots.contains(id) {
        let i = choose|i: int| 0 <= i < v.roots.len() && v.roots[i] == id;
        assert(v.nodes[v.roots[i]].parent is None);
    }
    assert forall|p: usize| #[trigger]
        v.nodes.dom().contains(p) && v.nodes[id].parent != Some(p) implies count(
        v.nodes[p].children,
        id,
    ) == 0 by {
        lemma_count_contains(v.nodes[p].children, id);
        if v.nodes[p].children.contains(id) {
            let i = choose|i: int|
                0 <= i < v.nodes[p].children.len() && v.nodes[p].children[i] == id;
            assert(v.nodes[v.nodes[p].children[i]].parent == Some(p));
        }
    }
}

impl TocRoot {
    /// The tree is well formed: the public invariant holds, witnessed by the
    /// private depth map.
    pub closed spec fn wf(&self) -> bool {
        &&& inv(self@)
        &&& depth_ok(self@, self.depth@)
    }

    /// A well-formed tree satisfies the structural invariant.
    pub proof fn lemma_wf_inv(&self)
        requires
            self.wf(),
        ensures
            inv(self@),
    {
    }

    /// Creates an empty tree.
    pub fn new() -> (t: TocRoot)
        ensures
            t.wf(),
            t@.roots == Seq::<usize>::empty(),
            t@.nodes == Map::<usize, NodeView>::empty(),
    {
        let t = TocRoot {
            children: Vec::new(),
            container: slab_new(),
            depth: Ghost(Map::empty()),
        };
        proof {
            assert(t@.nodes =~= Map::<usize, NodeView>::empty());
        }
        t
    }

    /// True exactly when `id` names a live node.
    pub fn contains(&self, id: usize) -> (r: bool)
        ensures
            r == self@.nodes.dom().contains(id),
    {
        slab_contains(&self.container, id)
    }

    /// The live node named `id`, if any.
    pub fn get(&self, id: usize) -> (r: Option<&TocNode>)
        ensures
            match r {
                Some(n) => self@.nodes.dom().contains(id) && n@ == self@.nodes[id],
                None => !self@.nodes.dom().contains(id),
            },
    {
        slab_get(&self.container, id)
    }

    /// The tree itself, as the traversal entry point.
    pub fn get_root(&self) -> (r: &TocRoot)
        ensures
            r == self,
    {
        self
    }

    /// The ordered ids of the top-level sections.
    pub fn root_ids(&self) -> (r: &Vec<usize>)
        ensures
            r@ == self@.roots,
    {
        &self.children
    }

    /// Inserts a new section under `parent` (or at top level), with the given
    /// metadata (zero words and an empty range when absent). Fails exactly
    /// when a parent id is supplied that names no live node; otherwise returns
    /// the fresh id, appended to the destination sibling list.
    pub fn add_with_meta(
        &mut self,
        title: &str,
        meta: Option<TreeNodeMeta>,
        parent: Option<usize>,
    ) -> (r: Result<usize, TocError>)
        requires
            old(self).wf(),
        ensures
            final(self).wf(),
            r is Ok <==> (parent matches Some(p) ==> old(self)@.nodes.dom().contains(p)),
            match r {
                Ok(k) => !old(self)@.nodes.dom().contains(k) && final(self)@ == add_view(
                    old(self)@,
                    k,
                    title@,
                    match meta {
                        Some(m) => m.words,
                        None => 0,
                    },
                    match meta {
                        Some(m) => m.range,
                        None => (0, 0),
                    },
                    parent,
                ),
                Err(e) => final(self)@ == old(self)@ && (e matches TocError::NodeParentNotFound(p)
                    && parent == Some(p) && !old(self)@.nodes.dom().contains(p)),
            },
    {
        if let Some(p) = parent {
            if !self.contains(p) {
                return Err(TocError::NodeParentNotFound(p));
            }
        }
        let k = slab_vacant_key(&self.container);
        let node = TocNode {
            id: k,
            title: title.to_owned(),
            patch: None,
            meta: match meta {
                Some(m) => m,
                None => TreeNodeMeta { words: 0, range: (0, 0) },
            },
            parent,
            children: Vec::new(),
        };
        let ghost pre = self@;
        let ghost nv = node@;
        let ghost dpre = self.depth@;
        let _k2 = slab_insert(&mut self.container, node);
        proof {
            assert(self@.nodes =~= pre.nodes.insert(k, nv));
        }
        match parent {
            Some(p) => {
                let mut pn = slab_remove(&mut self.container, p);
                let ghost pv = pn@;
                pn.children.push(k);
                let _p2 = slab_insert(&mut self.container, pn);
                proof {
                    self.depth@ = dpre.insert(k, (dpre[p] + 1) as nat);
                    assert(pv == pre.nodes[p]);
                    assert(pn@ =~= (NodeView { children: pv.children.push(k), ..pv }));
                    assert(self@.nodes =~= pre.nodes.insert(k, nv).insert(p, pn@));
                    assert(self@ =~= add_view_nv(pre, k, nv));
                }
            },
            None => {
                self.children.push(k);
                proof {
                    self.depth@ = dpre.insert(k, 0nat);
                    assert(self@ =~= add_view_nv(pre, k, nv));
                }
            },
        }
        proof {
            lemma_add_wf(pre, self@, dpre, self.depth@, k, nv, parent);
            assert(self@ == add_view(
                pre,
                k,
                title@,
                match meta {
                    Some(m) => m.words,
                    None => 0,
                },
                match meta {
                    Some(m) => m.range,
                    None => (0, 0),
                },
                parent,
            )) by {
                assert(self@ =~= add_view_nv(pre, k, nv));
            }
        }
        Ok(k)
    }

    /// Inserts a new section with the given text range and zero words.
    pub fn add(&mut self, title: &str, range: (u128, u128), parent: Option<usize>) -> (r: Result<
        usize,
        TocError,
    >)
        requires
            old(self).wf(),
        ensures
            final(self).wf(),
            r is Ok <==> (parent matches Some(p) ==> old(self)@.nodes.dom().contains(p)),
            match r {
                Ok(k) => !old(self)@.nodes.dom().contains(k) && final(self)@ == add_view(
                    old(self)@,
                    k,
                    title@,
                    0,
                    range,
                    parent,
                ),
                Err(e) => final(self)@ == old(self)@ && (e matches TocError::NodeParentNotFound(p)
                    && parent == Some(p) && !old(self)@.nodes.dom().contains(p)),
            },
    {
        self.add_with_meta(title, Some(TreeNodeMeta { words: 0, range }), parent)
    }

    /// Swaps the node with its immediately preceding sibling; a dead id or a
    /// node already first in its sibling list leaves the tree unchanged.
    pub fn move_up(&mut self, id: usize)
        requires
            old(self).wf(),
        ensures
            final(self).wf(),
            final(self)@ == move_up_view(old(self)@, id),
    {
        let ghost pre = self@;
        let parent_opt = match self.get(id) {
            Some(n) => n.parent,
            None => {
                return ;
            },
        };
        proof {
            assert(count(home_of(pre, id), id) == 1);
            lemma_count_contains(home_of(pre, id), id);
        }
        match parent_opt {
            None => {
                let i = match find_index(&self.children, id) {
                    Some(i) => i,
                    None => {
                        proof {
                            assert(false);
                        }
                        0
                    },
                };
                proof {
                    lemma_count_one_index(pre.roots, i as int, id);
                }
                if i > 0 {
                    let a = self.children[i - 1];
                    self.children[i - 1] = id;
                    self.children[i] = a;
                    proof {
                        let l = home_of(pre, id);
                        assert(self.children@ =~= l.update(i as int, l[i - 1]).update(
                            i - 1,
                            id,
                        ));
                        assert(self@ =~= set_list(pre, None, self.children@));
                        lemma_swap_wf(pre, self@, self.depth@, None, i as int, i - 1);
                    }
                }
            },
            Some(p) => {
                proof {
                    assert(pre.nodes.dom().contains(p));
                }
                let mut pn = slab_remove(&mut self.container, p);
                let ghost pv = pre.nodes[p];
                let i = match find_index(&pn.children, id) {
                    Some(i) => i,
                    None => {
                        proof {
                            assert(false);
                        }
                        0
                    },
                };
                proof {
                    lemma_count_one_index(pv.children, i as int, id);
                }
                if i > 0 {
                    let a = pn.children[i - 1];
                    pn.children[i - 1] = id;
                    pn.children[i] = a;
                }
                let _p2 = slab_insert(&mut self.container, pn);
                proof {
                    let l = home_of(pre, id);
                    if i > 0 {
                        assert(pn@ =~= (NodeView {
                            children: l.update(i as int, l[i - 1]).update(i - 1, id),
                            ..pv
                        }));
                        assert(self@.nodes =~= set_list(pre, Some(p), pn@.children).nodes);
                        assert(self@ =~= set_list(
                            pre,
                            Some(p),
                            l.update(i as int, l[i - 1]).update(i - 1, id),
                        ));
                        lemma_swap_wf(pre, self@, self.depth@, Some(p), i as int, i - 1);
                    } else {
                        assert(pn@ =~= pv);
                        assert(self@.nodes =~= pre.nodes);
                        assert(self@ =~= pre);
                    }
                }
            },
        }
    }

    /// Swaps the node with its immediately following sibling; a dead id or a
    /// node already last in its sibling list leaves the tree unchanged.
    pub fn move_down(&mut self, id: usize)
        requires
            old(self).wf(),
        ensures
            final(self).wf(),
            final(self)@ == move_down_view(old(self)@, id),
    {
        let ghost pre = self@;
        let parent_opt = match self.get(id) {
            Some(n) => n.parent,
            None => {
                return ;
            },
        };
        proof {
            assert(count(home_of(pre, id), id) == 1);
            lemma_count_contains(home_of(pre, id), id);
        }
        match parent_opt {
            None => {
                let i = match find_index(&self.children, id) {
                    Some(i) => i,
                    None => {
                        proof {
                            assert(false);
                        }
                        0
                    },
                };
                proof {
                    lemma_count_one_index(pre.roots, i as int, id);
                }
                if i < self.children.len() - 1 {
                    let a = self.children[i + 1];
                    self.children[i + 1] = id;
                    self.children[i] = a;
                    proof {
                        let l = home_of(pre, id);
                        assert(self.children@ =~= l.update(i as int, l[i + 1]).update(
                            i + 1,
                            id,
                        ));
                        assert(self@ =~= set_list(pre, None, self.children@));
                        lemma_swap_wf(pre, self@, self.depth@, None, i as int, i + 1);
                    }
                }
            },
            Some(p) => {
                proof {
                    assert(pre.nodes.dom().contains(p));
                }
                let mut pn = slab_remove(&mut self.container, p);
                let ghost pv = pre.nodes[p];
                let i = match find_index(&pn.children, id) {
                    Some(i) => i,
                    None => {
                        proof {
                            assert(false);
                        }
                        0
                    },
                };
                proof {
                    lemma_count_one_index(pv.children, i as int, id);
                }
                let last = pn.children.len() - 1;
                if i < last {
                    let a = pn.children[i + 1];
                    pn.children[i + 1] = id;
                    pn.children[i] = a;
                }
                let _p2 = slab_insert(&mut self.container, pn);
                proof {
                    let l = home_of(pre, id);
                    if i < last {
                        assert(pn@ =~= (NodeView {
                            children: l.update(i as int, l[i + 1]).update(i + 1, id),
                            ..pv
                        }));
                        assert(self@.nodes =~= set_list(pre, Some(p), pn@.children).nodes);
                        assert(self@ =~= set_list(
                            pre,
                            Some(p),
                            l.update(i as int, l[i + 1]).update(i + 1, id),
                        ));
                        lemma_swap_wf(pre, self@, self.depth@, Some(p), i as int, i + 1);
                    } else {
                        assert(pn@ =~= pv);
                        assert(self@.nodes =~= pre.nodes);
                        assert(self@ =~= pre);
                    }
                }
            },
        }
    }

    /// Makes the node the last child of its immediately preceding sibling
    /// (one level deeper); a dead id or a node first in its sibling list
    /// leaves the tree unchanged.
    pub fn move_left(&mut self, id: usize)
        requires
            old(self).wf(),
        ensures
            final(self).wf(),
            final(self)@ == move_left_view(old(self)@, id),
    {
        let ghost pre = self@;
        let ghost d = self.depth@;
        let parent_opt = match self.get(id) {
            Some(n) => n.parent,
            None => {
                return ;
            },
        };
        proof {
            assert(count(home_of(pre, id), id) == 1);
            lemma_count_contains(home_of(pre, id), id);
        }
        let i = match parent_opt {
            None => {
                match find_index(&self.children, id) {
                    Some(i) => i,
                    None => {
                        proof {
                            assert(false);
                        }
                        0
                    },
                }
            },
            Some(p) => {
                match self.get(p) {
                    Some(pn) => match find_index(&pn.children, id) {
                        Some(i) => i,
                        None => {
                            proof {
                                assert(false);
                            }
                            0
                        },
                    },
                    None => {
                        proof {
                            assert(false);
                        }
                        0
                    },
                }
            },
        };
        proof {
            lemma_count_one_index(home_of(pre, id), i as int, id);
        }
        if i == 0 {
            return ;
        }
        let s = match parent_opt {
            None => self.children[i - 1],
            Some(p) => match self.get(p) {
                Some(pn) => pn.children[i - 1],
                None => {
                    proof {
                        assert(false);
                    }
                    0
                },
            },
        };
        proof {
            let l = home_of(pre, id);
            assert(l[i - 1] == s);
            if s == id {
                lemma_count_two_positions(l, i as int, i - 1, id);
            }
            match parent_opt {
                None => {
                    assert(pre.roots[i - 1] == s);
                },
                Some(p) => {
                    assert(pre.nodes[p].children[i - 1] == s);
                },
            }
            assert(pre.nodes.dom().contains(s) && pre.nodes[s].parent == parent_opt);
            assert(d[s] == d[id]);
            if in_subtree(pre, s, id) {
                lemma_in_subtree_depth(pre, d, s, id);
            }
            assert(!in_subtree(pre, s, id));
        }
        self.detach_home(id);
        let ghost v1 = self@;
        let at = match self.get(s) {
            Some(sn) => sn.children.len(),
            None => {
                proof {
                    assert(false);
                }
                0
            },
        };
        proof {
            assert(v1.nodes.dom() =~= pre.nodes.dom());
            assert forall|x: usize| #[trigger] v1.nodes.dom().contains(x) implies v1.nodes[x].parent
                == pre.nodes[x].parent by {}
            lemma_in_subtree_same(pre, v1, s, id);
            if parent_opt == Some(s) {
                assert(d[s] == d[s] + 1);
            }
            assert(v1.nodes[s].children == pre.nodes[s].children);
        }
        self.attach_home(id, Some(s), at);
        proof {
            assert(self@ =~= move_left_view(pre, id));
        }
    }

    /// Makes the node a sibling of its former parent, appended to that
    /// parent's own sibling list (one level shallower); a dead id or a
    /// top-level node leaves the tree unchanged.
    pub fn move_right(&mut self, id: usize)
        requires
            old(self).wf(),
        ensures
            final(self).wf(),
            final(self)@ == move_right_view(old(self)@, id),
    {
        let ghost pre = self@;
        let ghost d = self.depth@;
        let parent_opt = match self.get(id) {
            Some(n) => n.parent,
            None => {
                return ;
            },
        };
        let p = match parent_opt {
            Some(p) => p,
            None => {
                return ;
            },
        };
        let gp = match self.get(p) {
            Some(pn) => pn.parent,
            None => {
                proof {
                    assert(false);
                }
                None
            },
        };
        proof {
            assert(pre.nodes.dom().contains(p));
            assert(d[id] == d[p] + 1);
            match gp {
                None => {},
                Some(g) => {
                    assert(pre.nodes.dom().contains(g));
                    assert(d[p] == d[g] + 1);
                    if in_subtree(pre, g, id) {
                        lemma_in_subtree_depth(pre, d, g, id);
                    }
                    assert(!in_subtree(pre, g, id) && g != id);
                },
            }
        }
        self.detach_home(id);
        let ghost v1 = self@;
        let at = match gp {
            None => self.children.len(),
            Some(g) => match self.get(g) {
                Some(gn) => gn.children.len(),
                None => {
                    proof {
                        assert(false);
                    }
                    0
                },
            },
        };
        proof {
            assert(v1.nodes.dom() =~= pre.nodes.dom());
            assert forall|x: usize| #[trigger] v1.nodes.dom().contains(x) implies v1.nodes[x].parent
                == pre.nodes[x].parent by {}
            match gp {
                None => {
                    assert(list_of(v1, gp) == pre.roots);
                },
                Some(g) => {
                    lemma_in_subtree_same(pre, v1, g, id);
                    if g == p {
                        assert(d[g] == d[g] + 1);
                    }
                    assert(list_of(v1, gp) == list_of(pre, gp));
                },
            }
        }
        self.attach_home(id, gp, at);
        proof {
            assert(self@ =~= move_right_view(pre, id));
        }
    }

    /// Moves the node to be the last child of `parent`. A dead id, a dead
    /// parent, or a parent inside the node's own subtree (which would make the
    /// node its own descendant) leaves the tree unchanged.
    pub fn move_belong_to(&mut self, id: usize, parent: usize)
        requires
            old(self).wf(),
        ensures
            final(self).wf(),
            final(self)@ == move_belong_to_view(old(self)@, id, parent),
    {
        let ghost pre = self@;
        let ghost d = self.depth@;
        if !self.contains(id) {
            return ;
        }
        if !self.contains(parent) {
            return ;
        }
        if self.reaches(parent, id) {
            return ;
        }
        proof {
            assert(parent != id) by {
                assert(parent_iter(pre, parent, 0) == Some(parent));
            }
        }
        self.detach_home(id);
        let ghost v1 = self@;
        let at = match self.get(parent) {
            Some(n) => n.children.len(),
            None => {
                proof {
                    assert(false);
                }
                0
            },
        };
        proof {
            assert(v1.nodes.dom() =~= pre.nodes.dom());
            assert forall|x: usize| #[trigger] v1.nodes.dom().contains(x) implies v1.nodes[x].parent
                == pre.nodes[x].parent by {}
            lemma_in_subtree_same(pre, v1, parent, id);
        }
        self.attach_home(id, Some(parent), at);
        proof {
            assert(self@ =~= move_belong_to_view(pre, id, parent));
        }
    }

    /// Moves the node immediately before `target_node`, into that node's
    /// sibling list (a full reparenting). A dead id, a dead target, or a
    /// target inside the node's own subtree leaves the tree unchanged.
    pub fn move_before(&mut self, id: usize, target_node: usize)
        requires
            old(self).wf(),
        ensures
            final(self).wf(),
            final(self)@ == move_before_view(old(self)@, id, target_node),
    {
        let ghost pre = self@;
        let ghost d = self.depth@;
        if !self.contains(id) {
            return ;
        }
        if !self.contains(target_node) {
            return ;
        }
        if self.reaches(target_node, id) {
            return ;
        }
        proof {
            assert(target_node != id) by {
                assert(parent_iter(pre, target_node, 0) == Some(target_node));
            }
        }
        let tp = match self.get(target_node) {
            Some(n) => n.parent,
            None => {
                proof {
                    assert(false);
                }
                None
            },
        };
        proof {
            lemma_in_subtree_step(pre, target_node, id);
            match tp {
                None => {},
                Some(q) => {
                    assert(pre.nodes.dom().contains(q));
                    assert(!in_subtree(pre, q, id));
                    assert(q != id) by {
                        assert(parent_iter(pre, q, 0) == Some(q));
                    }
                },
            }
        }
        self.detach_home(id);
        let ghost v1 = self@;
        proof {
            assert(v1.nodes.dom() =~= pre.nodes.dom());
            assert forall|x: usize| #[trigger] v1.nodes.dom().contains(x) implies v1.nodes[x].parent
                == pre.nodes[x].parent by {}
            assert(v1.nodes[target_node].parent == tp);
            assert(home_of(v1, target_node) == list_of(v1, tp));
            assert(count(list_of(v1, tp), target_node) == 1);
            lemma_count_contains(list_of(v1, tp), target_node);
            match tp {
                None => {},
                Some(q) => {
                    lemma_in_subtree_same(pre, v1, q, id);
                },
            }
        }
        let j = match tp {
            None => {
                match find_index(&self.children, target_node) {
                    Some(j) => j,
                    None => {
                        proof {
                            assert(false);
                        }
                        0
                    },
                }
            },
            Some(q) => {
                match self.get(q) {
                    Some(qn) => match find_index(&qn.children, target_node) {
                        Some(j) => j,
                        None => {
                            proof {
                                assert(false);
                            }
                            0
                        },
                    },
                    None => {
                        proof {
                            assert(false);
                        }
                        0
                    },
                }
            },
        };
        proof {
            lemma_count_one_index(list_of(v1, tp), j as int, target_node);
        }
        self.attach_home(id, tp, j);
        proof {
            assert(self@ =~= move_before_view(pre, id, target_node));
        }
    }

    /// Moves the node immediately after `target_node`, into that node's
    /// sibling list (a full reparenting). A dead id, a dead target, or a
    /// target inside the node's own subtree leaves the tree unchanged.
    pub fn move_after(&mut self, id: usize, target_node: usize)
        requires
            old(self).wf(),
        ensures
            final(self).wf(),
            final(self)@ == move_after_view(old(self)@, id, target_node),
    {
        let ghost pre = self@;
        let ghost d = self.depth@;
        if !self.contains(id) {
            return ;
        }
        if !self.contains(target_node) {
            return ;
        }
        if self.reaches(target_node, id) {
            return ;
        }
        proof {
            assert(target_node != id) by {
                assert(parent_iter(pre, target_node, 0) == Some(target_node));
            }
        }
        let tp = match self.get(target_node) {
            Some(n) => n.parent,
            None => {
                proof {
                    assert(false);
                }
                None
            },
        };
        proof {
            lemma_in_subtree_step(pre, target_node, id);
            match tp {
                None => {},
                Some(q) => {
                    assert(pre.nodes.dom().contains(q));
                    assert(!in_subtree(pre, q, id));
                    assert(q != id) by {
                        assert(parent_iter(pre, q, 0) == Some(q));
                    }
                },
            }
        }
        self.detach_home(id);
        let ghost v1 = self@;
        proof {
            assert(v1.nodes.dom() =~= pre.nodes.dom());
            assert forall|x: usize| #[trigger] v1.nodes.dom().contains(x) implies v1.nodes[x].parent
                == pre.nodes[x].parent by {}
            assert(v1.nodes[target_node].parent == tp);
            assert(home_of(v1, target_node) == list_of(v1, tp));
            assert(count(list_of(v1, tp), target_node) == 1);
            lemma_count_contains(list_of(v1, tp), target_node);
            match tp {
                None => {},
                Some(q) => {
                    lemma_in_subtree_same(pre, v1, q, id);
                },
            }
        }
        let j = match tp {
            None => {
                match find_index(&self.children, target_node) {
                    Some(j) => j + 1,
                    None => {
                        proof {
                            assert(false);
                        }
                        1
                    },
                }
            },
            Some(q) => {
                match self.get(q) {
                    Some(qn) => match find_index(&qn.children, target_node) {
                        Some(j) => j + 1,
                        None => {
                            proof {
                                assert(false);
                            }
                            1
                        },
                    },
                    None => {
                        proof {
                            assert(false);
                        }
                        1
                    },
                }
            },
        };
        proof {
            lemma_count_one_index(list_of(v1, tp), j as int - 1, target_node);
        }
        self.attach_home(id, tp, j);
        proof {
            assert(self@ =~= move_after_view(pre, id, target_node));
        }
    }

    /// Replaces the title of the live node `id`; a dead id is a no-op.
    pub fn set_title(&mut self, id: usize, title: &str)
        requires
            old(self).wf(),
        ensures
            final(self).wf(),
            final(self)@ == set_data_view(
                old(self)@,
                id,
                title@,
                old(self)@.nodes[id].patch,
                old(self)@.nodes[id].words,
                old(self)@.nodes[id].range,
            ),
    {
        let ghost pre = self@;
        if !self.contains(id) {
            return ;
        }
        let mut n = slab_remove(&mut self.container, id);
        let ghost nv = pre.nodes[id];
        n.title = title.to_owned();
        let _k2 = slab_insert(&mut self.container, n);
        proof {
            assert(n@ =~= (NodeView { title: title@, ..nv }));
            assert(self@.nodes =~= pre.nodes.insert(id, n@));
            assert(self@ =~= set_data_view(pre, id, title@, nv.patch, nv.words, nv.range));
            lemma_data_wf(pre, self@, self.depth@, id, n@);
        }
    }

    /// Replaces the patch blob of the live node `id`; a dead id is a no-op.
    pub fn set_patch(&mut self, id: usize, patch: Option<String>)
        requires
            old(self).wf(),
        ensures
            final(self).wf(),
            final(self)@ == set_data_view(
                old(self)@,
                id,
                old(self)@.nodes[id].title,
                match patch {
                    Some(p) => Some(p@),
                    None => None,
                },
                old(self)@.nodes[id].words,
                old(self)@.nodes[id].range,
            ),
    {
        let ghost pre = self@;
        if !self.contains(id) {
            return ;
        }
        let mut n = slab_remove(&mut self.container, id);
        let ghost nv = pre.nodes[id];
        let ghost pv = match &patch {
            Some(p) => Some(p@),
            None => None,
        };
        n.patch = patch;
        let _k2 = slab_insert(&mut self.container, n);
        proof {
            assert(n@ =~= (NodeView { patch: pv, ..nv }));
            assert(self@.nodes =~= pre.nodes.insert(id, n@));
            assert(self@ =~= set_data_view(pre, id, nv.title, pv, nv.words, nv.range));
            lemma_data_wf(pre, self@, self.depth@, id, n@);
        }
    }

    /// Replaces the metadata of the live node `id`; a dead id is a no-op.
    pub fn set_meta(&mut self, id: usize, meta: TreeNodeMeta)
        requires
            old(self).wf(),
        ensures
            final(self).wf(),
            final(self)@ == set_data_view(
                old(self)@,
                id,
                old(self)@.nodes[id].title,
                old(self)@.nodes[id].patch,
                meta.words,
                meta.range,
            ),
    {
        let ghost pre = self@;
        if !self.contains(id) {
            return ;
        }
        let mut n = slab_remove(&mut self.container, id);
        let ghost nv = pre.nodes[id];
        n.meta = meta;
        let _k2 = slab_insert(&mut self.container, n);
        proof {
            assert(n@ =~= (NodeView { words: meta.words, range: meta.range, ..nv }));
            assert(self@.nodes =~= pre.nodes.insert(id, n@));
            assert(self@ =~= set_data_view(pre, id, nv.title, nv.patch, meta.words, meta.range));
            lemma_data_wf(pre, self@, self.depth@, id, n@);
        }
    }

    /// No live node is its own (proper) ancestor: a parent walk of at least
    /// one step never returns to its start.
    pub proof fn lemma_wf_acyclic(&self)
        requires
            self.wf(),
        ensures
            forall|n: usize, k: nat|
                self@.nodes.dom().contains(n) && k >= 1 ==> #[trigger] parent_iter(self@, n, k)
                    != Some(n),
    {
        let v = self@;
        let d = self.depth@;
        assert forall|n: usize, k: nat|
            v.nodes.dom().contains(n) && k >= 1 implies #[trigger] parent_iter(v, n, k) != Some(
            n,
        ) by {
            lemma_parent_iter_depth(v, d, n, k);
        }
    }

    /// Fuel for a traversal standing at `id`: nodes of the tree not above it.
    pub(crate) closed spec fn json_measure(&self, id: usize) -> int {
        self@.nodes.dom().len() - self.depth@[id]
    }

    /// Stepping from a live node to one of its children keeps the traversal
    /// fuel positive and strictly decreases it.
    pub(crate) proof fn lemma_child_measure(&self, id: usize, c: usize, k: int)
        requires
            self.wf(),
            self@.nodes.dom().contains(id),
            0 <= k < self@.nodes[id].children.len(),
            c == self@.nodes[id].children[k],
        ensures
            self@.nodes.dom().contains(c),
            0 <= self.json_measure(c) < self.json_measure(id),
    {
        let v = self@;
        let d = self.depth@;
        assert(v.nodes.dom().contains(c) && v.nodes[c].parent == Some(id));
        assert(d[c] == d[id] + 1);
        lemma_depth_bound(v, d, c);
    }

    /// Appends to `out` every live id of the subtree rooted at `id` (the root
    /// first), each exactly once and none that `out` already holds.
    fn collect_subtree(&self, id: usize, out: &mut Vec<usize>)
        requires
            self.wf(),
            self@.nodes.dom().contains(id),
            old(out)@.no_duplicates(),
            forall|y: usize|
                old(out)@.contains(y) ==> !(self@.nodes.dom().contains(y) && in_subtree(
                    self@,
                    y,
                    id,
                )),
        ensures
            final(out)@.no_duplicates(),
            final(out)@.len() >= old(out)@.len(),
            final(out)@.subrange(0, old(out)@.len() as int) == old(out)@,
            forall|y: usize|
                final(out)@.contains(y) <==> old(out)@.contains(y) || (
                self@.nodes.dom().contains(y) && in_subtree(self@, y, id)),
        decreases self@.nodes.dom().len() - self.depth@[id],
    {
        let ghost v = self@;
        let ghost d = self.depth@;
        let ghost base = out@;
        proof {
            assert(parent_iter(v, id, 0) == Some(id));
            assert(in_subtree(v, id, id));
        }
        out.push(id);
        proof {
            assert(out@.subrange(0, base.len() as int) =~= base);
            assert(!base.contains(id));
            lemma_push_no_dup(base, id);
            assert forall|y: usize| true implies (out@.contains(y) <==> base.contains(y) || y
                == id) by {
                lemma_push_contains(base, id, y);
            }
        }
        let node = match self.get(id) {
            Some(n) => n,
            None => {
                proof {
                    assert(false);
                }
                return ;
            },
        };
        let ghost ch = v.nodes[id].children;
        let mut k: usize = 0;
        while k < node.children.len()
            invariant
                self.wf(),
                v == self@,
                d == self.depth@,
                v.nodes.dom().contains(id),
                node@ == v.nodes[id],
                ch == v.nodes[id].children,
                k <= ch.len(),
                base.no_duplicates(),
                forall|y: usize|
                    base.contains(y) ==> !(v.nodes.dom().contains(y) && in_subtree(v, y, id)),
                out@.no_duplicates(),
                out@.len() >= base.len(),
                out@.subrange(0, base.len() as int) == base,
                forall|y: usize|
                    out@.contains(y) <==> base.contains(y) || y == id || (
                    v.nodes.dom().contains(y) && exists|j: int|
                        0 <= j < k && in_subtree(v, y, #[trigger] ch[j])),
            decreases ch.len() - k,
        {
            let c = node.children[k];
            proof {
                assert(c == v.nodes[id].children[k as int]);
                assert(v.nodes.dom().contains(c) && v.nodes[c].parent == Some(id));
                assert(d[c] == d[id] + 1);
                lemma_depth_bound(v, d, c);
                assert(parent_iter(v, c, 1) == parent_iter(v, id, 0));
                assert(parent_iter(v, c, 1) == Some(id));
                assert(in_subtree(v, c, id));
                assert forall|y: usize| out@.contains(y) implies !(v.nodes.dom().contains(y)
                    && in_subtree(v, y, c)) by {
                    if v.nodes.dom().contains(y) && in_subtree(v, y, c) {
                        lemma_in_subtree_trans(v, y, c, id);
                        if y == id {
                            lemma_in_subtree_depth(v, d, id, c);
                        } else if !base.contains(y) {
                            let j = choose|j: int|
                                0 <= j < k && in_subtree(v, y, #[trigger] ch[j]);
                            assert(v.nodes[ch[j]].parent == Some(id));
                            assert(d[ch[j]] == d[id] + 1);
                            lemma_subtree_same_depth(v, d, y, ch[j], c);
                            assert(count(home_of(v, c), c) == 1);
                            assert(home_of(v, c) == ch);
                            lemma_count_two_positions(ch, j, k as int, c);
                        }
                    }
                }
            }
            let ghost mid = out@;
            self.collect_subtree(c, out);
            proof {
                assert(out@.subrange(0, base.len() as int) =~= mid.subrange(
                    0,
                    base.len() as int,
                ));
            }
            k = k + 1;
            proof {
                assert forall|y: usize| out@.contains(y) implies base.contains(y) || y == id || (
                v.nodes.dom().contains(y) && exists|j: int|
                    0 <= j < k && in_subtree(v, y, #[trigger] ch[j])) by {
                    if !mid.contains(y) {
                        assert(v.nodes.dom().contains(y) && in_subtree(v, y, c));
                        assert(ch[k - 1] == c);
                    }
                }
                assert forall|y: usize|
                    base.contains(y) || y == id || (v.nodes.dom().contains(y) && exists|j: int|
                        0 <= j < k && in_subtree(v, y, #[trigger] ch[j])) implies out@.contains(
                    y,
                ) by {
                    if !base.contains(y) && y != id {
                        let j = choose|j: int| 0 <= j < k && in_subtree(v, y, #[trigger] ch[j]);
                        if j == k - 1 {
                            assert(in_subtree(v, y, c));
                        } else {
                            assert(mid.contains(y));
                        }
                    }
                }
            }
        }
        proof {
            assert forall|y: usize| out@.contains(y) implies base.contains(y) || (
            v.nodes.dom().contains(y) && in_subtree(v, y, id)) by {
                if !base.contains(y) && y != id {
                    let j = choose|j: int| 0 <= j < ch.len() && in_subtree(v, y, #[trigger] ch[j]);
                    assert(v.nodes[ch[j]].parent == Some(id));
                    assert(parent_iter(v, ch[j], 1) == Some(id));
                    assert(in_subtree(v, ch[j], id));
                    lemma_in_subtree_trans(v, y, ch[j], id);
                }
            }
            assert forall|y: usize|
                base.contains(y) || (v.nodes.dom().contains(y) && in_subtree(
                    v,
                    y,
                    id,
                )) implies out@.contains(y) by {
                if !base.contains(y) && y != id {
                    lemma_subtree_child(v, d, y, id);
                    let j = choose|j: int|
                        0 <= j < v.nodes[id].children.len() && in_subtree(
                            v,
                            y,
                            #[trigger] v.nodes[id].children[j],
                        );
                    assert(0 <= j < ch.len() && in_subtree(v, y, ch[j]));
                }
            }
        }
    }

    /// Removes the node together with every one of its descendants; their ids
    /// all become dead and may be recycled by later insertions. A dead id
    /// leaves the tree unchanged.
    pub fn remove(&mut self, id: usize)
        requires
            old(self).wf(),
        ensures
            final(self).wf(),
            final(self)@ == remove_view(old(self)@, id),
    {
        let ghost pre = self@;
        let ghost d = self.depth@;
        if !self.contains(id) {
            return ;
        }
        let mut ids: Vec<usize> = Vec::new();
        self.collect_subtree(id, &mut ids);
        self.detach_home(id);
        let ghost v1 = self@;
        proof {
            assert(v1.nodes.dom() =~= pre.nodes.dom());
            assert(ids@.subrange(0, 0).to_set() =~= Set::<usize>::empty());
            assert(self@.nodes =~= v1.nodes.remove_keys(ids@.subrange(0, 0).to_set()));
        }
        let mut k: usize = 0;
        while k < ids.len()
            invariant
                ids@.no_duplicates(),
                forall|y: usize|
                    ids@.contains(y) <==> (pre.nodes.dom().contains(y) && in_subtree(pre, y, id)),
                detached_ok(v1, d, id),
                v1.nodes.dom() == pre.nodes.dom(),
                k <= ids@.len(),
                self@.roots == v1.roots,
                self@.nodes == v1.nodes.remove_keys(ids@.subrange(0, k as int).to_set()),
                self.depth@ == d,
            decreases ids@.len() - k,
        {
            let x = ids[k];
            proof {
                assert(ids@.contains(x));
                assert(pre.nodes.dom().contains(x));
                assert(!ids@.subrange(0, k as int).to_set().contains(x)) by {
                    if ids@.subrange(0, k as int).contains(x) {
                        let i = choose|i: int|
                            0 <= i < k && ids@.subrange(0, k as int)[i] == x;
                        assert(ids@[i] == ids@[k as int]);
                    }
                }
                assert(self@.nodes.dom().contains(x));
                assert(slab_entries(self.container).dom() =~= self@.nodes.dom());
            }
            let ghost prev = self@.nodes;
            let _gone = slab_remove(&mut self.container, x);
            k = k + 1;
            proof {
                assert(self@.nodes =~= prev.remove(x));
                assert(ids@.subrange(0, k as int) =~= ids@.subrange(0, k as int - 1).push(x));
                assert forall|y: usize| true implies (ids@.subrange(0, k as int).contains(y) <==> (
                ids@.subrange(0, k as int - 1).contains(y) || y == x)) by {
                    lemma_push_contains(ids@.subrange(0, k as int - 1), x, y);
                }
                assert(ids@.subrange(0, k as int).to_set() =~= ids@.subrange(
                    0,
                    k as int - 1,
                ).to_set().insert(x));
                assert(self@.nodes =~= v1.nodes.remove_keys(
                    ids@.subrange(0, k as int).to_set(),
                ));
            }
        }
        proof {
            assert(ids@.subrange(0, ids@.len() as int) =~= ids@);
            assert(ids@.to_set() =~= subtree_set(pre, id));
            assert(self@.nodes =~= v1.nodes.remove_keys(subtree_set(pre, id)));
            assert(self@ =~= remove_view(pre, id));
            assert forall|x: usize| #[trigger] v1.nodes.dom().contains(x) implies v1.nodes[x].parent
                == pre.nodes[x].parent by {}
            lemma_remove_wf(pre, v1, self@, d, id);
        }
    }

    /// The tree with the node `id` taken out of its sibling list: everything
    /// of [`TocRoot::wf`] holds except that `id` occurs in no list at all and
    /// its own back-reference is about to be overwritten.
    spec fn wf_detached(&self, id: usize) -> bool {
        let v = self@;
        let d = self.depth@;
        &&& v.nodes.dom().finite()
        &&& v.nodes.dom().contains(id)
        &&& forall|x: usize| #[trigger] v.nodes.dom().contains(x) ==> v.nodes[x].id == x
        &&& forall|x: usize| #[trigger]
            v.nodes.dom().contains(x) && x != id ==> (match v.nodes[x].parent {
                None => true,
                Some(q) => v.nodes.dom().contains(q),
            }) && count(home_of(v, x), x) == 1
        &&& count(v.roots, id) == 0
        &&& forall|p: usize| #[trigger]
            v.nodes.dom().contains(p) ==> count(v.nodes[p].children, id) == 0
        &&& forall|i: int|
            0 <= i < v.roots.len() ==> v.nodes.dom().contains(#[trigger] v.roots[i])
                && v.nodes[v.roots[i]].parent is None
        &&& forall|p: usize, i: int|
            v.nodes.dom().contains(p) && 0 <= i < v.nodes[p].children.len()
                ==> v.nodes.dom().contains(#[trigger] v.nodes[p].children[i])
                && v.nodes[v.nodes[p].children[i]].parent == Some(p)
        &&& forall|x: usize| #[trigger]
            v.nodes.dom().contains(x) && x != id ==> match v.nodes[x].parent {
                None => d[x] == 0,
                Some(q) => d[x] == d[q] + 1,
            }
    }

    /// Walks the back-references from `start` and reports whether the walk
    /// meets `target`: whether `start` lies in the subtree of `target`.
    fn reaches(&self, start: usize, target: usize) -> (r: bool)
        requires
            self.wf(),
            self@.nodes.dom().contains(start),
        ensures
            r == in_subtree(self@, start, target),
    {
        let ghost v = self@;
        let ghost d = self.depth@;
        let mut cur = start;
        let ghost mut k: nat = 0;
        loop
            invariant
                self.wf(),
                v == self@,
                d == self.depth@,
                v.nodes.dom().contains(start),
                v.nodes.dom().contains(cur),
                parent_iter(v, start, k) == Some(cur),
                forall|j: nat| j < k ==> #[trigger] parent_iter(v, start, j) != Some(target),
            decreases d[cur],
        {
            if cur == target {
                proof {
                    assert(parent_iter(v, start, k) == Some(target));
                }
                return true;
            }
            let parent_opt = match self.get(cur) {
                Some(n) => n.parent,
                None => None,
            };
            match parent_opt {
                None => {
                    proof {
                        assert forall|j: nat| true implies #[trigger] parent_iter(v, start, j)
                            != Some(target) by {
                            if j > k {
                                lemma_parent_iter_extend_none(v, start, k, cur);
                                lemma_parent_iter_none(v, start, (k + 1) as nat, j);
                            }
                        }
                    }
                    return false;
                },
                Some(p) => {
                    proof {
                        lemma_parent_iter_extend(v, start, k, cur, p);
                        lemma_parent_iter_depth(v, d, start, (k + 1) as nat);
                        lemma_parent_iter_depth(v, d, start, k);
                    }
                    cur = p;
                    proof {
                        k = k + 1;
                    }
                },
            }
        }
    }

    /// Takes `id` out of its sibling list (and nothing else).
    fn detach_home(&mut self, id: usize)
        requires
            old(self).wf(),
            old(self)@.nodes.dom().contains(id),
        ensures
            detached_ok(final(self)@, final(self).depth@, id),
            final(self)@ == detach_view(old(self)@, id),
            final(self).depth@ == old(self).depth@,
    {
        let ghost pre = self@;
        proof {
            assert(count(home_of(pre, id), id) == 1);
            lemma_count_contains(home_of(pre, id), id);
        }
        let parent_opt = match self.get(id) {
            Some(n) => n.parent,
            None => {
                proof {
                    assert(false);
                }
                None
            },
        };
        match parent_opt {
            None => {
                let i = remove_value(&mut self.children, id);
                proof {
                    lemma_count_one_index(pre.roots, i as int, id);
                    assert(self@ =~= detach_view(pre, id));
                    lemma_detach_wf(pre, self@, self.depth@, id);
                }
            },
            Some(p) => {
                proof {
                    assert(pre.nodes.dom().contains(p));
                }
                let mut pn = slab_remove(&mut self.container, p);
                let ghost pv = pre.nodes[p];
                let i = remove_value(&mut pn.children, id);
                let _p2 = slab_insert(&mut self.container, pn);
                proof {
                    lemma_count_one_index(pv.children, i as int, id);
                    assert(pn@ =~= (NodeView { children: pv.children.remove(i as int), ..pv }));
                    assert(self@.nodes =~= pre.nodes.insert(p, pn@));
                    assert(self@ =~= detach_view(pre, id));
                    lemma_detach_wf(pre, self@, self.depth@, id);
                }
            },
        }
    }

    /// Puts the detached node `id` at position `at` of the sibling list owned
    /// by `np` and points its back-reference there; the depths of the node's
    /// subtree move with it.
    fn attach_home(&mut self, id: usize, np: Option<usize>, at: usize)
        requires
            detached_ok(old(self)@, old(self).depth@, id),
            match np {
                None => at <= old(self)@.roots.len(),
                Some(q) => old(self)@.nodes.dom().contains(q) && q != id && !in_subtree(
                    old(self)@,
                    q,
                    id,
                ) && at <= old(self)@.nodes[q].children.len(),
            },
        ensures
            final(self).wf(),
            final(self)@ == insert_view(old(self)@, id, np, at as int),
            final(self)@.nodes.dom() == old(self)@.nodes.dom(),
    {
        let ghost pre = self@;
        let ghost dpre = self.depth@;
        let mut n = slab_remove(&mut self.container, id);
        let ghost nv = pre.nodes[id];
        n.parent = np;
        let _k2 = slab_insert(&mut self.container, n);
        proof {
            assert(n@ =~= (NodeView { parent: np, ..nv }));
            assert(self@.nodes =~= set_parent(pre, id, np).nodes);
        }
        match np {
            None => {
                self.children.insert(at, id);
            },
            Some(q) => {
                let mut qn = slab_remove(&mut self.container, q);
                let ghost qv = pre.nodes[q];
                qn.children.insert(at, id);
                let _q2 = slab_insert(&mut self.container, qn);
                proof {
                    assert(qn@ =~= (NodeView {
                        children: qv.children.insert(at as int, id),
                        ..qv
                    }));
                }
            },
        }
        proof {
            assert(self@ =~= insert_view(pre, id, np, at as int));
            self.depth@ =
            Map::new(
                |x: usize| true,
                |x: usize|
                    if pre.nodes.dom().contains(x) && in_subtree(pre, x, id) {
                        (dpre[x] + (match np {
                            None => 0int,
                            Some(q) => (dpre[q] + 1) as int,
                        }) - dpre[id]) as nat
                    } else {
                        dpre[x]
                    },
            );
            lemma_attach_wf(pre, self@, dpre, self.depth@, id, np, at as int);
        }
    }

    /// A fresh id occurs in no sibling list of a well-formed view.
    pub proof fn lemma_fresh_id_uncounted(v: TreeView, k: usize)
        requires
            inv(v),
            !v.nodes.dom().contains(k),
        ensures
            count(v.roots, k) == 0,
            forall|p: usize| #[trigger]
                v.nodes.dom().contains(p) ==> count(v.nodes[p].children, k) == 0,
    {
        lemma_count_contains(v.roots, k);
        if v.roots.contains(k) {
            let i = choose|i: int| 0 <= i < v.roots.len() && v.roots[i] == k;
            assert(v.nodes.dom().contains(v.roots[i]));
        }
        assert forall|p: usize| #[trigger] v.nodes.dom().contains(p) implies count(
            v.nodes[p].children,
            k,
        ) == 0 by {
            lemma_count_contains(v.nodes[p].children, k);
            if v.nodes[p].children.contains(k) {
                let i = choose|i: int| 0 <= i < v.nodes[p].children.len() && v.nodes[p].children[i]
                    == k;
                assert(v.nodes.dom().contains(v.nodes[p].children[i]));
            }
        }
    }

}

/// Following `k` back-references from a live node lands on a live node that
/// sits exactly `k` levels higher.
pub proof fn lemma_parent_iter_depth(v: TreeView, d: Map<usize, nat>, n: usize, k: nat)
    requires
        parents_live(v),
        depth_ok(v, d),
        v.nodes.dom().contains(n),
    ensures
        parent_iter(v, n, k) matches Some(x) ==> v.nodes.dom().contains(x) && d[x] + k == d[n],
    decreases k,
{
    if k > 0 && v.nodes[n].parent is Some {
        let p = v.nodes[n].parent->0;
        lemma_parent_iter_depth(v, d, p, (k - 1) as nat);
    }
}

/// An ancestor sits no lower than its descendant, and at the same level only
/// if the two are one node.
pub proof fn lemma_in_subtree_depth(v: TreeView, d: Map<usize, nat>, n: usize, a: usize)
    requires
        parents_live(v),
        depth_ok(v, d),
        v.nodes.dom().contains(n),
        in_subtree(v, n, a),
    ensures
        v.nodes.dom().contains(a),
        d[a] <= d[n],
        d[a] == d[n] ==> a == n,
{
    let k = choose|k: nat| parent_iter(v, n, k) == Some(a);
    lemma_parent_iter_depth(v, d, n, k);
}

/// A parent walk that reached a live node continues through that node's own
/// back-reference.
pub proof fn lemma_parent_iter_extend(v: TreeView, n: usize, k: nat, x: usize, p: usize)
    requires
        parent_iter(v, n, k) == Some(x),
        v.nodes.dom().contains(x),
        v.nodes[x].parent == Some(p),
    ensures
        parent_iter(v, n, (k + 1) as nat) == Some(p),
    decreases k,
{
    if k == 0 {
        assert(x == n);
        assert(parent_iter(v, n, 1) == parent_iter(v, p, 0));
    } else {
        let q = v.nodes[n].parent->0;
        lemma_parent_iter_extend(v, q, (k - 1) as nat, x, p);
        assert(parent_iter(v, n, (k + 1) as nat) == parent_iter(v, q, k));
        assert(parent_iter(v, q, ((k - 1) as nat + 1) as nat) == Some(p));
        assert(((k - 1) as nat + 1) as nat == k);
    }
}

/// A parent walk that reached a parentless node leaves the forest next.
pub proof fn lemma_parent_iter_extend_none(v: TreeView, n: usize, k: nat, x: usize)
    requires
        parent_iter(v, n, k) == Some(x),
        v.nodes.dom().contains(x),
        v.nodes[x].parent is None,
    ensures
        parent_iter(v, n, (k + 1) as nat) is None,
    decreases k,
{
    if k == 0 {
        assert(x == n);
    } else {
        let q = v.nodes[n].parent->0;
        lemma_parent_iter_extend_none(v, q, (k - 1) as nat, x);
        assert(parent_iter(v, n, (k + 1) as nat) == parent_iter(v, q, k));
        assert(((k - 1) as nat + 1) as nat == k);
    }
}

/// A parent walk that has left the forest stays outside it.
pub proof fn lemma_parent_iter_none(v: TreeView, n: usize, k: nat, j: nat)
    requires
        parent_iter(v, n, k) is None,
        j >= k,
    ensures
        parent_iter(v, n, j) is None,
    decreases j,
{
    if j > k && v.nodes.dom().contains(n) && v.nodes[n].parent is Some {
        let p = v.nodes[n].parent->0;
        lemma_parent_iter_none(v, p, (k - 1) as nat, (j - 1) as nat);
    }
}

/// Two views with the same live ids and the same back-references have the
/// same parent walks (child lists play no part in them).
pub proof fn lemma_parent_iter_same(v1: TreeView, v2: TreeView, n: usize, k: nat)
    requires
        v1.nodes.dom() == v2.nodes.dom(),
        forall|x: usize| #[trigger]
            v1.nodes.dom().contains(x) ==> v1.nodes[x].parent == v2.nodes[x].parent,
    ensures
        parent_iter(v1, n, k) == parent_iter(v2, n, k),
    decreases k,
{
    if k > 0 && v1.nodes.dom().contains(n) && v1.nodes[n].parent is Some {
        lemma_parent_iter_same(v1, v2, v1.nodes[n].parent->0, (k - 1) as nat);
    }
}

/// As `lemma_parent_iter_same`, for subtree membership.
pub proof fn lemma_in_subtree_same(v1: TreeView, v2: TreeView, n: usize, a: usize)
    requires
        v1.nodes.dom() == v2.nodes.dom(),
        forall|x: usize| #[trigger]
            v1.nodes.dom().contains(x) ==> v1.nodes[x].parent == v2.nodes[x].parent,
    ensures
        in_subtree(v1, n, a) == in_subtree(v2, n, a),
{
    if in_subtree(v1, n, a) {
        let k = choose|k: nat| parent_iter(v1, n, k) == Some(a);
        lemma_parent_iter_same(v1, v2, n, k);
        assert(parent_iter(v2, n, k) == Some(a));
    }
    if in_subtree(v2, n, a) {
        let k = choose|k: nat| parent_iter(v2, n, k) == Some(a);
        lemma_parent_iter_same(v1, v2, n, k);
        assert(parent_iter(v1, n, k) == Some(a));
    }
}

/// A node is in the subtree of `a` exactly when it is `a` or its
/// back-reference leads into that subtree.
pub proof fn lemma_in_subtree_step(v: TreeView, n: usize, a: usize)
    ensures
        in_subtree(v, n, a) <==> (n == a || (v.nodes.dom().contains(n) && (match v.nodes[n].parent {
            None => false,
            Some(o) => in_subtree(v, o, a),
        }))),
{
    if n == a {
        assert(parent_iter(v, n, 0) == Some(a));
    }
    if in_subtree(v, n, a) && n != a {
        let k = choose|k: nat| parent_iter(v, n, k) == Some(a);
        assert(k > 0);
        assert(v.nodes.dom().contains(n));
        let o = v.nodes[n].parent->0;
        assert(parent_iter(v, o, (k - 1) as nat) == Some(a));
    }
    if v.nodes.dom().contains(n) && v.nodes[n].parent is Some {
        let o = v.nodes[n].parent->0;
        if in_subtree(v, o, a) {
            let k = choose|k: nat| parent_iter(v, o, k) == Some(a);
            assert(parent_iter(v, n, (k + 1) as nat) == Some(a));
        }
    }
}

/// Parent walks compose.
proof fn lemma_parent_iter_trans(v: TreeView, y: usize, c: usize, a: usize, k1: nat, k2: nat)
    requires
        parent_iter(v, y, k1) == Some(c),
        parent_iter(v, c, k2) == Some(a),
    ensures
        parent_iter(v, y, (k1 + k2) as nat) == Some(a),
    decreases k1,
{
    if k1 > 0 {
        let o = v.nodes[y].parent->0;
        lemma_parent_iter_trans(v, o, c, a, (k1 - 1) as nat, k2);
        assert(((k1 - 1) as nat + k2) as nat == (k1 + k2) as nat - 1);
    }
}

/// Subtree membership composes.
proof fn lemma_in_subtree_trans(v: TreeView, y: usize, c: usize, a: usize)
    requires
        in_subtree(v, y, c),
        in_subtree(v, c, a),
    ensures
        in_subtree(v, y, a),
{
    let k1 = choose|k: nat| parent_iter(v, y, k) == Some(c);
    let k2 = choose|k: nat| parent_iter(v, c, k) == Some(a);
    lemma_parent_iter_trans(v, y, c, a, k1, k2);
}

/// A strict member of the subtree of `id` lies in the subtree of one of
/// `id`'s children.
proof fn lemma_subtree_child(v: TreeView, d: Map<usize, nat>, y: usize, id: usize)
    requires
        inv(v),
        depth_ok(v, d),
        v.nodes.dom().contains(y),
        v.nodes.dom().contains(id),
        in_subtree(v, y, id),
        y != id,
    ensures
        exists|j: int|
            0 <= j < v.nodes[id].children.len() && in_subtree(v, y, #[trigger] v.nodes[id].children[j]),
    decreases d[y],
{
    lemma_in_subtree_step(v, y, id);
    let o = v.nodes[y].parent->0;
    assert(v.nodes[y].parent == Some(o) && in_subtree(v, o, id));
    assert(v.nodes.dom().contains(o));
    if o == id {
        assert(count(home_of(v, y), y) == 1);
        assert(home_of(v, y) == v.nodes[id].children);
        lemma_count_contains(v.nodes[id].children, y);
        let j = choose|j: int|
            0 <= j < v.nodes[id].children.len() && v.nodes[id].children[j] == y;
        assert(parent_iter(v, y, 0) == Some(y));
        assert(in_subtree(v, y, v.nodes[id].children[j]));
    } else {
        assert(d[y] == d[o] + 1);
        lemma_subtree_child(v, d, o, id);
        let j = choose|j: int|
            0 <= j < v.nodes[id].children.len() && in_subtree(v, o, #[trigger] v.nodes[id].children[j]);
        let c = v.nodes[id].children[j];
        let k = choose|k: nat| parent_iter(v, o, k) == Some(c);
        assert(parent_iter(v, y, (k + 1) as nat) == parent_iter(v, o, k));
        assert(in_subtree(v, y, c));
    }
}

/// Two subtrees rooted at the same level either coincide or are disjoint.
proof fn lemma_subtree_same_depth(v: TreeView, d: Map<usize, nat>, y: usize, c1: usize, c2: usize)
    requires
        parents_live(v),
        depth_ok(v, d),
        v.nodes.dom().contains(y),
        d[c1] == d[c2],
        in_subtree(v, y, c1),
        in_subtree(v, y, c2),
    ensures
        c1 == c2,
{
    let k1 = choose|k: nat| parent_iter(v, y, k) == Some(c1);
    let k2 = choose|k: nat| parent_iter(v, y, k) == Some(c2);
    lemma_parent_iter_depth(v, d, y, k1);
    lemma_parent_iter_depth(v, d, y, k2);
    assert(k1 == k2);
}

/// The live ancestors of `x`, `x` included.
spec fn anc_set(v: TreeView, x: usize) -> Set<usize> {
    Set::new(|y: usize| v.nodes.dom().contains(y) && in_subtree(v, x, y))
}

/// A node at level `k` has at least `k + 1` distinct live ancestors.
proof fn lemma_anc_card(v: TreeView, d: Map<usize, nat>, x: usize)
    requires
        parents_live(v),
        depth_ok(v, d),
        v.nodes.dom().finite(),
        v.nodes.dom().contains(x),
    ensures
        anc_set(v, x).finite(),
        anc_set(v, x).len() <= v.nodes.dom().len(),
        d[x] + 1 <= anc_set(v, x).len(),
    decreases d[x],
{
    vstd::set_lib::lemma_len_subset(anc_set(v, x), v.nodes.dom());
    assert(parent_iter(v, x, 0) == Some(x));
    assert(anc_set(v, x).contains(x));
    match v.nodes[x].parent {
        None => {
            vstd::set_lib::lemma_len_subset(Set::empty().insert(x), anc_set(v, x));
        },
        Some(o) => {
            assert(v.nodes.dom().contains(o));
            assert(d[x] == d[o] + 1);
            lemma_anc_card(v, d, o);
            assert forall|y: usize| anc_set(v, o).contains(y) implies anc_set(v, x).contains(
                y,
            ) by {
                let k = choose|k: nat| parent_iter(v, o, k) == Some(y);
                assert(parent_iter(v, x, (k + 1) as nat) == parent_iter(v, o, k));
            }
            assert(!anc_set(v, o).contains(x)) by {
                if in_subtree(v, o, x) {
                    lemma_in_subtree_depth(v, d, o, x);
                }
            }
            assert(anc_set(v, o).insert(x).subset_of(anc_set(v, x)));
            vstd::set_lib::lemma_len_subset(anc_set(v, o).insert(x), anc_set(v, x));
        },
    }
}

/// No node sits at a level as deep as the number of live nodes.
proof fn lemma_depth_bound(v: TreeView, d: Map<usize, nat>, x: usize)
    requires
        parents_live(v),
        depth_ok(v, d),
        v.nodes.dom().finite(),
        v.nodes.dom().contains(x),
    ensures
        d[x] < v.nodes.dom().len(),
{
    lemma_anc_card(v, d, x);
}

/// Replacing a node's non-structural data (same id, back-reference and child
/// list) preserves the invariant and the depth coherence.
proof fn lemma_data_wf(v: TreeView, post: TreeView, d: Map<usize, nat>, id: usize, nv: NodeView)
    requires
        inv(v),
        depth_ok(v, d),
        v.nodes.dom().contains(id),
        nv.id == v.nodes[id].id,
        nv.parent == v.nodes[id].parent,
        nv.children == v.nodes[id].children,
        post == (TreeView { roots: v.roots, nodes: v.nodes.insert(id, nv) }),
    ensures
        inv(post),
        depth_ok(post, d),
{
    assert(post.nodes.dom() =~= v.nodes.dom());
    assert forall|x: usize| #[trigger]
        post.nodes.dom().contains(x) implies post.nodes[x].parent == v.nodes[x].parent
        && post.nodes[x].id == v.nodes[x].id && post.nodes[x].children == v.nodes[x].children by {}
    assert forall|x: usize| #[trigger] post.nodes.dom().contains(x) implies count(
        home_of(post, x),
        x,
    ) == 1 by {
        assert(home_of(post, x) == home_of(v, x));
    }
}

/// Dropping the whole (detached) subtree of `id` from the store restores full
/// well-formedness: no surviving node referred to any node of that subtree.
#[verifier::rlimit(50)]
proof fn lemma_remove_wf(pre: TreeView, v1: TreeView, post: TreeView, d: Map<usize, nat>, id: usize)
    requires
        pre.nodes.dom().contains(id),
        detached_ok(v1, d, id),
        v1.nodes.dom() == pre.nodes.dom(),
        forall|x: usize| #[trigger]
            v1.nodes.dom().contains(x) ==> v1.nodes[x].parent == pre.nodes[x].parent,
        post.roots == v1.roots,
        post.nodes == v1.nodes.remove_keys(subtree_set(pre, id)),
    ensures
        inv(post),
        depth_ok(post, d),
{
    let sub = subtree_set(pre, id);
    assert(post.nodes.dom() =~= v1.nodes.dom().difference(sub));
    assert(post.nodes.dom().finite()) by {
        vstd::set_lib::lemma_len_subset(post.nodes.dom(), v1.nodes.dom());
    }
    // a survivor's parent survives: a removed parent would pull the child in
    assert forall|x: usize| #[trigger] post.nodes.dom().contains(x) implies x != id && (
    match post.nodes[x].parent {
        None => true,
        Some(o) => post.nodes.dom().contains(o),
    }) by {
        assert(parent_iter(pre, id, 0) == Some(id));
        assert(v1.nodes.dom().contains(x) && !sub.contains(x));
        lemma_in_subtree_step(pre, x, id);
        match v1.nodes[x].parent {
            None => {},
            Some(o) => {
                assert(v1.nodes.dom().contains(o));
                assert(!in_subtree(pre, x, id));
                assert(!sub.contains(o));
            },
        }
    }
    // sibling lists of survivors are untouched, and no removed id was left in one
    assert forall|x: usize| #[trigger] post.nodes.dom().contains(x) implies count(
        home_of(post, x),
        x,
    ) == 1 && post.nodes[x].id == x by {
        assert(home_of(post, x) == home_of(v1, x));
    }
    assert forall|i: int| 0 <= i < post.roots.len() implies post.nodes.dom().contains(
        #[trigger] post.roots[i],
    ) && post.nodes[post.roots[i]].parent is None by {
        let y = post.roots[i];
        assert(v1.nodes.dom().contains(y) && v1.nodes[y].parent is None);
        assert(y != id) by {
            lemma_count_contains(v1.roots, id);
        }
        lemma_in_subtree_step(pre, y, id);
        assert(!sub.contains(y));
    }
    assert forall|p: usize, i: int|
        post.nodes.dom().contains(p) && 0 <= i < post.nodes[p].children.len() implies post
        .nodes
        .dom()
        .contains(#[trigger] post.nodes[p].children[i]) && post.nodes[post.nodes[p].children[i]]
        .parent == Some(p) by {
        let y = post.nodes[p].children[i];
        assert(post.nodes[p].children == v1.nodes[p].children);
        assert(v1.nodes.dom().contains(y) && v1.nodes[y].parent == Some(p));
        assert(y != id) by {
            lemma_count_contains(v1.nodes[p].children, id);
        }
        lemma_in_subtree_step(pre, y, id);
        assert(!sub.contains(y)) by {
            if in_subtree(pre, y, id) {
                assert(in_subtree(pre, p, id));
            }
        }
    }
    // depths of survivors are untouched and their parents survive
    assert forall|x: usize| #[trigger] post.nodes.dom().contains(x) implies match post.nodes[x]
        .parent {
        None => d[x] == 0,
        Some(o) => d[x] == d[o] + 1,
    } by {
        assert(v1.nodes.dom().contains(x) && x != id);
    }
}

/// Taking a node out of its sibling list leaves a detached-well-formed view.
#[verifier::rlimit(50)]
proof fn lemma_detach_wf(v: TreeView, post: TreeView, d: Map<usize, nat>, id: usize)
    requires
        inv(v),
        depth_ok(v, d),
        v.nodes.dom().contains(id),
        post == detach_view(v, id),
    ensures
        detached_ok(post, d, id),
        post.nodes.dom() == v.nodes.dom(),
{
    let owner = v.nodes[id].parent;
    let home = home_of(v, id);
    lemma_count_contains(home, id);
    lemma_idx_of_valid(home, id);
    let ix = idx_of(home, id);
    let l2 = home.remove(ix);
    lemma_home_unique(v, id);
    assert(post.nodes.dom() =~= v.nodes.dom());
    // back-references and ids are untouched; only the one list shrank
    assert forall|x: usize| #[trigger]
        post.nodes.dom().contains(x) implies post.nodes[x].parent == v.nodes[x].parent
        && post.nodes[x].id == v.nodes[x].id by {}
    // counts: the removed position held `id`, so every other id keeps its count
    assert forall|x: usize| x != id implies count(l2, x) == count(home, x) by {
        lemma_count_remove(home, ix, x);
    }
    assert(count(l2, id) == 0) by {
        lemma_count_remove(home, ix, id);
    }
    assert forall|x: usize| #[trigger]
        post.nodes.dom().contains(x) && x != id implies count(home_of(post, x), x) == 1 by {
        if v.nodes[x].parent == owner {
            assert(home_of(post, x) == l2);
        } else {
            assert(home_of(post, x) == home_of(v, x));
        }
    }
    assert(count(post.roots, id) == 0);
    assert forall|p: usize| #[trigger] post.nodes.dom().contains(p) implies count(
        post.nodes[p].children,
        id,
    ) == 0 by {
        if owner == Some(p) {
            assert(post.nodes[p].children == l2);
        } else {
            assert(post.nodes[p].children == v.nodes[p].children);
            lemma_home_unique(v, id);
        }
    }
    // list entries still live and pointing back
    assert forall|k: int| 0 <= k < post.roots.len() implies post.nodes.dom().contains(
        #[trigger] post.roots[k],
    ) && post.nodes[post.roots[k]].parent is None by {
        if owner is None {
            assert(post.roots == l2);
            assert(l2[k] == home[k] || l2[k] == home[k + 1]);
        }
    }
    assert forall|p: usize, k: int|
        post.nodes.dom().contains(p) && 0 <= k < post.nodes[p].children.len() implies post
        .nodes
        .dom()
        .contains(#[trigger] post.nodes[p].children[k]) && post.nodes[post.nodes[p].children[k]]
        .parent == Some(p) by {
        if owner == Some(p) {
            assert(post.nodes[p].children == l2);
            assert(l2[k] == home[k] || l2[k] == home[k + 1]);
            assert(v.nodes.dom().contains(l2[k]) && v.nodes[l2[k]].parent == Some(p));
        }
    }
}

/// Putting a detached node back at a chosen place, under a live owner outside
/// its own subtree, restores full well-formedness; the depths of the node's
/// subtree shift together to sit below the new owner.
#[verifier::rlimit(50)]
proof fn lemma_attach_wf(
    v: TreeView,
    post: TreeView,
    d: Map<usize, nat>,
    d2: Map<usize, nat>,
    id: usize,
    np: Option<usize>,
    at: int,
)
    requires
        detached_ok(v, d, id),
        match np {
            None => 0 <= at <= v.roots.len(),
            Some(q) => v.nodes.dom().contains(q) && q != id && !in_subtree(v, q, id) && 0 <= at
                <= v.nodes[q].children.len(),
        },
        post == insert_view(v, id, np, at),
        d2 == Map::new(
            |x: usize| true,
            |x: usize|
                if v.nodes.dom().contains(x) && in_subtree(v, x, id) {
                    (d[x] + (match np {
                        None => 0int,
                        Some(q) => (d[q] + 1) as int,
                    }) - d[id]) as nat
                } else {
                    d[x]
                },
        ),
    ensures
        inv(post),
        depth_ok(post, d2),
        post.nodes.dom() == v.nodes.dom(),
{
    let newd: int = match np {
        None => 0int,
        Some(q) => (d[q] + 1) as int,
    };
    let v1 = set_parent(v, id, np);
    let l = list_of(v1, np);
    let l2 = l.insert(at, id);
    assert(post.nodes.dom() =~= v.nodes.dom());
    assert(parent_iter(v, id, 0) == Some(id));
    assert(in_subtree(v, id, id));
    // the destination list is the old one, unchanged by the back-reference edit
    assert(l == list_of(v, np));
    // back-references change for `id` alone
    assert forall|x: usize| #[trigger]
        post.nodes.dom().contains(x) && x != id implies post.nodes[x].parent == v.nodes[x].parent
        && post.nodes[x].id == v.nodes[x].id by {}
    assert(post.nodes[id].parent == np && post.nodes[id].id == id);
    assert(parents_live(post));
    // counts
    assert forall|x: usize| #[trigger]
        post.nodes.dom().contains(x) implies count(home_of(post, x), x) == 1 by {
        if x == id {
            lemma_count_insert(l, at, id, id);
            assert(home_of(post, id) == l2);
            match np {
                None => {
                    assert(count(l, id) == 0);
                },
                Some(q) => {
                    assert(count(v.nodes[q].children, id) == 0);
                },
            }
        } else {
            if v.nodes[x].parent == np {
                assert(home_of(post, x) == l2);
                lemma_count_insert(l, at, id, x);
                assert(home_of(v, x) == l);
            } else {
                assert(home_of(post, x) == home_of(v, x));
            }
        }
    }
    // list entries live and pointing back
    assert forall|k: int| 0 <= k < post.roots.len() implies post.nodes.dom().contains(
        #[trigger] post.roots[k],
    ) && post.nodes[post.roots[k]].parent is None by {
        if np is None {
            assert(post.roots == l2);
            assert(l2[k] == id || l2[k] == l[k] || l2[k] == l[k - 1]);
        } else {
            assert(post.roots == v.roots);
            let x = post.roots[k];
            assert(v.nodes.dom().contains(x) && v.nodes[x].parent is None);
            assert(x != id) by {
                lemma_count_contains(v.roots, id);
            }
        }
    }
    assert forall|p: usize, k: int|
        post.nodes.dom().contains(p) && 0 <= k < post.nodes[p].children.len() implies post
        .nodes
        .dom()
        .contains(#[trigger] post.nodes[p].children[k]) && post.nodes[post.nodes[p].children[k]]
        .parent == Some(p) by {
        if np == Some(p) {
            assert(post.nodes[p].children == l2);
            assert(l2[k] == id || l2[k] == l[k] || l2[k] == l[k - 1]);
            if l2[k] != id {
                let x = l2[k];
                assert(v.nodes.dom().contains(x) && v.nodes[x].parent == Some(p));
                assert(x != id) by {
                    lemma_count_contains(v.nodes[p].children, id);
                }
            }
        } else {
            let x = post.nodes[p].children[k];
            assert(post.nodes[p].children == v.nodes[p].children);
            assert(v.nodes.dom().contains(x) && v.nodes[x].parent == Some(p));
            assert(x != id) by {
                lemma_count_contains(v.nodes[p].children, id);
            }
        }
    }
    // depth coherence: the subtree of `id` shifts as one block
    assert forall|x: usize| #[trigger]
        v.nodes.dom().contains(x) && in_subtree(v, x, id) implies d[id] <= d[x] by {
        lemma_in_subtree_depth(v, d, x, id);
    }
    assert(d2[id] == newd) by {
        assert(in_subtree(v, id, id));
    }
    assert forall|x: usize| #[trigger] post.nodes.dom().contains(x) implies match post.nodes[x]
        .parent {
        None => d2[x] == 0,
        Some(o) => d2[x] == d2[o] + 1,
    } by {
        if x == id {
            match np {
                None => {},
                Some(q) => {
                    assert(!in_subtree(v, q, id));
                    assert(d2[q] == d[q]);
                },
            }
        } else {
            lemma_in_subtree_step(v, x, id);
            match v.nodes[x].parent {
                None => {
                    assert(!in_subtree(v, x, id));
                },
                Some(o) => {
                    assert(v.nodes.dom().contains(o));
                    assert(in_subtree(v, x, id) == in_subtree(v, o, id));
                    if in_subtree(v, x, id) {
                        lemma_in_subtree_depth(v, d, x, id);
                        lemma_in_subtree_depth(v, d, o, id);
                        assert(d[x] == d[o] + 1);
                        assert(d2[x] == (d[x] + newd - d[id]) as nat);
                        assert(d2[o] == (d[o] + newd - d[id]) as nat);
                    } else {
                        assert(d2[x] == d[x] && d2[o] == d[o]);
                    }
                },
            }
        }
    }
}

/// Swapping two places of one sibling list preserves the invariant and the
/// depth coherence (no back-reference moves).
#[verifier::rlimit(50)]
proof fn lemma_swap_wf(
    v: TreeView,
    post: TreeView,
    d: Map<usize, nat>,
    owner: Option<usize>,
    i: int,
    j: int,
)
    requires
        inv(v),
        depth_ok(v, d),
        owner matches Some(p) ==> v.nodes.dom().contains(p),
        0 <= i < list_of(v, owner).len(),
        0 <= j < list_of(v, owner).len(),
        post == set_list(
            v,
            owner,
            list_of(v, owner).update(i, list_of(v, owner)[j]).update(j, list_of(v, owner)[i]),
        ),
    ensures
        inv(post),
        depth_ok(post, d),
{
    let l = list_of(v, owner);
    let l2 = l.update(i, l[j]).update(j, l[i]);
    assert(post.nodes.dom() =~= v.nodes.dom());
    assert forall|x: usize| #[trigger]
        v.nodes.dom().contains(x) implies post.nodes[x].parent == v.nodes[x].parent
        && post.nodes[x].id == v.nodes[x].id && (post.nodes[x].children == v.nodes[x].children
        || (owner == Some(x) && post.nodes[x].children == l2)) by {}
    // counts are preserved by the two updates
    assert forall|x: usize| true implies count(l2, x) == count(l, x) by {
        lemma_count_update(l, i, l[j], x);
        if i == j {
            lemma_count_update(l.update(i, l[j]), j, l[i], x);
        } else {
            assert(l.update(i, l[j])[j] == l[j]);
            lemma_count_update(l.update(i, l[j]), j, l[i], x);
        }
    }
    assert forall|id: usize| #[trigger] post.nodes.dom().contains(id) implies post.nodes[id].id
        == id && (match post.nodes[id].parent {
        None => true,
        Some(q) => post.nodes.dom().contains(q),
    }) && count(home_of(post, id), id) == 1 by {
        if v.nodes[id].parent == owner {
            assert(home_of(post, id) == l2);
        } else {
            assert(home_of(post, id) == home_of(v, id));
        }
    }
    assert forall|k: int| 0 <= k < post.roots.len() implies post.nodes.dom().contains(
        #[trigger] post.roots[k],
    ) && post.nodes[post.roots[k]].parent is None by {
        if owner is None {
            assert(post.roots == l2);
            assert(l2[k] == l[i] || l2[k] == l[j] || l2[k] == l[k]);
        }
    }
    assert forall|p: usize, k: int|
        post.nodes.dom().contains(p) && 0 <= k < post.nodes[p].children.len() implies post
        .nodes
        .dom()
        .contains(#[trigger] post.nodes[p].children[k]) && post.nodes[post.nodes[p].children[k]]
        .parent == Some(p) by {
        if owner == Some(p) {
            assert(post.nodes[p].children == l2);
            assert(l2[k] == l[i] || l2[k] == l[j] || l2[k] == l[k]);
            assert(v.nodes.dom().contains(l2[k] as usize) && v.nodes[l2[k] as usize].parent
                == Some(p));
        }
    }
}

/// Inserting a fresh node (empty children, back-reference to a live parent or
/// to the root list) preserves the invariant and depth coherence.
#[verifier::rlimit(50)]
proof fn lemma_add_wf(
    pre: TreeView,
    post: TreeView,
    dpre: Map<usize, nat>,
    dpost: Map<usize, nat>,
    k: usize,
    nv: NodeView,
    parent: Option<usize>,
)
    requires
        inv(pre),
        depth_ok(pre, dpre),
        !pre.nodes.dom().contains(k),
        parent matches Some(p) ==> pre.nodes.dom().contains(p),
        nv.id == k,
        nv.parent == parent,
        nv.children == Seq::<usize>::empty(),
        post == add_view_nv(pre, k, nv),
        dpost == dpre.insert(
            k,
            match parent {
                None => 0nat,
                Some(p) => (dpre[p] + 1) as nat,
            },
        ),
    ensures
        inv(post),
        depth_ok(post, dpost),
{
    TocRoot::lemma_fresh_id_uncounted(pre, k);
    let dom1 = post.nodes.dom();
    assert(dom1 =~= pre.nodes.dom().insert(k));
    // every id of the new view names itself, points at a live parent, and
    // occurs exactly once in its home list
    assert forall|id: usize| #[trigger] dom1.contains(id) implies post.nodes[id].id == id && (
    match post.nodes[id].parent {
        None => true,
        Some(q) => dom1.contains(q),
    }) && count(home_of(post, id), id) == 1 by {
        if id == k {
            match parent {
                None => {
                    assert(home_of(post, k) == pre.roots.push(k));
                    lemma_count_push(pre.roots, k, k);
                },
                Some(p) => {
                    assert(home_of(post, k) == pre.nodes[p].children.push(k));
                    lemma_count_push(pre.nodes[p].children, k, k);
                },
            }
        } else {
            assert(pre.nodes.dom().contains(id));
            assert(post.nodes[id].parent == pre.nodes[id].parent);
            if pre.nodes[id].parent == parent {
                assert(home_of(post, id) == home_of(pre, id).push(k));
                lemma_count_push(home_of(pre, id), k, id);
            } else {
                assert(home_of(post, id) == home_of(pre, id));
            }
        }
    }
    // every root entry is live and parentless
    assert forall|i: int| 0 <= i < post.roots.len() implies dom1.contains(#[trigger] post.roots[i])
        && post.nodes[post.roots[i]].parent is None by {
        if parent is None && i == post.roots.len() - 1 {
            assert(post.roots[i] == k);
        } else {
            assert(post.roots[i] == pre.roots[i]);
        }
    }
    // every child entry is live and points back to its owner
    assert forall|p: usize, i: int|
        dom1.contains(p) && 0 <= i < post.nodes[p].children.len() implies dom1.contains(
        #[trigger] post.nodes[p].children[i],
    ) && post.nodes[post.nodes[p].children[i]].parent == Some(p) by {
        if p == k {
            assert(post.nodes[k].children.len() == 0);
        } else if parent == Some(p) && i == post.nodes[p].children.len() - 1 {
            assert(post.nodes[p].children[i] == k);
        } else {
            assert(post.nodes[p].children[i] == pre.nodes[p].children[i]);
            let c = pre.nodes[p].children[i];
            assert(pre.nodes.dom().contains(c) && pre.nodes[c].parent == Some(p));
        }
    }
    // depth coherence
    assert forall|id: usize| #[trigger] dom1.contains(id) implies match post.nodes[id].parent {
        None => dpost[id] == 0,
        Some(q) => dpost[id] == dpost[q] + 1,
    } by {
        if id != k {
            assert(pre.nodes.dom().contains(id));
            match pre.nodes[id].parent {
                None => {},
                Some(q) => {
                    assert(pre.nodes.dom().contains(q));
                    assert(q != k);
                },
            }
        }
    }
}

} // verus!
