//! The tree store: an arena of nodes keyed by index, each node holding a
//! label, an ordered list of children and a back-reference to its parent,
//! together with the visibility state (open set, selection, viewport start).

use vstd::prelude::*;
use std::collections::HashSet;

verus! {

broadcast use vstd::std_specs::hash::group_hash_axioms;

/// A stable handle into the arena. Nodes are never removed, so an index
/// identifies the same node for the whole life of the tree.
pub type Id = usize;

/// Identity of the record element a leaf node was built from: the
/// (group, element) key and the name of the record that contributed it.
#[derive(Debug, Clone)]
pub struct TagSource {
    pub group: u16,
    pub element: u16,
    pub filename: String,
}

/// One displayable entry: a label, the ordered children (insertion order is
/// display order) and the parent, if any.
#[derive(Debug)]
pub struct TreeNode {
    pub text: String,
    pub children: Vec<Id>,
    pub parent_id: Option<Id>,
    pub source: Option<TagSource>,
}

impl TreeNode {
    pub fn new(text: String) -> (n: TreeNode)
        ensures
            n.text == text,
            n.children@ =~= Seq::<Id>::empty(),
            n.parent_id is None,
            n.source is None,
    {
        TreeNode { text, children: Vec::new(), parent_id: None, source: None }
    }
}

/// The children list of node `i`.
pub open spec fn kids_of(ns: Seq<TreeNode>, i: int) -> Seq<Id> {
    ns[i].children@
}

/// Number of ancestors between `id` and the root; the root has depth 0.
pub open spec fn depth_of(ns: Seq<TreeNode>, id: int) -> nat
    decreases id,
{
    if 0 <= id < ns.len() {
        match ns[id].parent_id {
            Option::None => 0,
            Option::Some(p) => if p < id {
                depth_of(ns, p as int) + 1
            } else {
                0
            },
        }
    } else {
        0
    }
}

/// The ancestor chain of `id`, leaf first: `id` itself, then its parent, and
/// so on up to the root.
pub open spec fn chain_of(ns: Seq<TreeNode>, id: int) -> Seq<Id>
    decreases id,
{
    if 0 <= id < ns.len() {
        match ns[id].parent_id {
            Option::None => seq![id as Id],
            Option::Some(p) => if p < id {
                seq![id as Id] + chain_of(ns, p as int)
            } else {
                seq![id as Id]
            },
        }
    } else {
        Seq::empty()
    }
}

/// Whether `x` lies in the subtree rooted at `r` (including `r` itself).
pub open spec fn in_subtree_of(ns: Seq<TreeNode>, r: int, x: int) -> bool
    decreases x,
{
    if x == r {
        true
    } else if 0 <= x < ns.len() {
        match ns[x].parent_id {
            Option::None => false,
            Option::Some(p) => if p < x {
                in_subtree_of(ns, r, p as int)
            } else {
                false
            },
        }
    } else {
        false
    }
}

/// The sibling that follows `c` in `p`'s children list, if any.
pub open spec fn next_sib_of(ns: Seq<TreeNode>, p: int, c: Id) -> Option<Id> {
    if kids_of(ns, p).contains(c) {
        let k = kids_of(ns, p).index_of(c);
        if k + 1 < kids_of(ns, p).len() {
            Option::Some(kids_of(ns, p)[k + 1])
        } else {
            Option::None
        }
    } else {
        Option::None
    }
}

/// The sibling that precedes `c` in `p`'s children list, if any.
pub open spec fn prev_sib_of(ns: Seq<TreeNode>, p: int, c: Id) -> Option<Id> {
    if kids_of(ns, p).contains(c) {
        let k = kids_of(ns, p).index_of(c);
        if k > 0 {
            Option::Some(kids_of(ns, p)[k - 1])
        } else {
            Option::None
        }
    } else {
        Option::None
    }
}

/// Walk upward from `id` until some ancestor (or `id` itself) has a next
/// sibling; that sibling is the pre-order successor once `id`'s subtree is
/// exhausted.
pub open spec fn up_next_of(ns: Seq<TreeNode>, id: int) -> Option<Id>
    decreases id,
{
    if 0 <= id < ns.len() {
        match ns[id].parent_id {
            Option::None => Option::None,
            Option::Some(p) => if p < id {
                match next_sib_of(ns, p as int, id as Id) {
                    Option::Some(s) => Option::Some(s),
                    Option::None => up_next_of(ns, p as int),
                }
            } else {
                Option::None
            },
        }
    } else {
        Option::None
    }
}

/// The node after `id` in pre-order traversal; descends into `id`'s children
/// only when `id` is in `op` or `only_open` is false.
pub open spec fn next_of(ns: Seq<TreeNode>, op: Set<Id>, id: int, only_open: bool) -> Option<Id> {
    if 0 <= id < ns.len() && kids_of(ns, id).len() > 0 && (op.contains(id as Id) || !only_open) {
        Option::Some(kids_of(ns, id)[0])
    } else {
        up_next_of(ns, id)
    }
}

/// The deepest reachable node obtained by repeatedly stepping to the last
/// child, descending only through open nodes (or through every node when
/// `only_open` is false).
pub open spec fn last_vis_of(ns: Seq<TreeNode>, op: Set<Id>, id: int, only_open: bool) -> Id
    decreases ns.len() - id,
{
    if 0 <= id < ns.len() {
        if kids_of(ns, id).len() > 0 && (op.contains(id as Id) || !only_open) {
            let c = kids_of(ns, id).last();
            if id < c < ns.len() {
                last_vis_of(ns, op, c as int, only_open)
            } else {
                id as Id
            }
        } else {
            id as Id
        }
    } else {
        0
    }
}

/// The node before `id` in pre-order traversal: the deepest visible node of
/// the previous sibling's subtree, or the parent when `id` is the first
/// child. The root has no predecessor.
pub open spec fn prev_of(ns: Seq<TreeNode>, op: Set<Id>, id: int, only_open: bool) -> Option<Id> {
    if 0 <= id < ns.len() {
        match ns[id].parent_id {
            Option::None => Option::None,
            Option::Some(p) => match prev_sib_of(ns, p as int, id as Id) {
                Option::Some(s) => Option::Some(last_vis_of(ns, op, s as int, only_open)),
                Option::None => Option::Some(p),
            },
        }
    } else {
        Option::None
    }
}

/// The pre-order listing of the subtree rooted at `id`, descending into a
/// node's children only when it is open (or always, when `only_open` is
/// false).
pub open spec fn vis_of(ns: Seq<TreeNode>, op: Set<Id>, id: int, only_open: bool) -> Seq<Id>
    decreases ns.len() - id, 1int, 0int,
{
    if 0 <= id < ns.len() {
        seq![id as Id] + if op.contains(id as Id) || !only_open {
            vis_kids_of(ns, op, id, 0, only_open)
        } else {
            Seq::empty()
        }
    } else {
        Seq::empty()
    }
}

/// The concatenated pre-order listings of the subtrees of `id`'s children
/// from child index `k` on.
pub open spec fn vis_kids_of(ns: Seq<TreeNode>, op: Set<Id>, id: int, k: int, only_open: bool) -> Seq<Id>
    decreases ns.len() - id, 0int, kids_of(ns, id).len() - k,
{
    if 0 <= id < ns.len() && 0 <= k < kids_of(ns, id).len() {
        (if id < kids_of(ns, id)[k] < ns.len() {
            vis_of(ns, op, kids_of(ns, id)[k] as int, only_open)
        } else {
            Seq::empty()
        }) + vis_kids_of(ns, op, id, k + 1, only_open)
    } else {
        Seq::empty()
    }
}

/// Where the selection ends up after taking up to `count` forward steps,
/// stopping early at the end of the visible sequence.
pub open spec fn advance_of(ns: Seq<TreeNode>, op: Set<Id>, id: Id, count: nat) -> Id
    decreases count,
{
    if count == 0 {
        id
    } else {
        match next_of(ns, op, id as int, true) {
            Option::Some(x) => advance_of(ns, op, x, (count - 1) as nat),
            Option::None => id,
        }
    }
}

/// Where the selection ends up after taking up to `count` backward steps,
/// stopping early at the root.
pub open spec fn retreat_of(ns: Seq<TreeNode>, op: Set<Id>, id: Id, count: nat) -> Id
    decreases count,
{
    if count == 0 {
        id
    } else {
        match prev_of(ns, op, id as int, true) {
            Option::Some(x) => retreat_of(ns, op, x, (count - 1) as nat),
            Option::None => id,
        }
    }
}

/// One row handed to a renderer: the node, its depth, its label and whether
/// it is the selected node.
#[derive(Debug)]
pub struct VisibleRow {
    pub id: Id,
    pub level: usize,
    pub text: String,
    pub selected: bool,
}

/// Where the viewport starts after adjustment: if the selection sits before
/// the current start, the selection itself; if it sits `page_size` or more
/// rows below the start, the row that keeps the selection on the last line;
/// otherwise the start is unchanged.
pub open spec fn viewport_start_after(t: TreeWidget, page_size: int) -> Id {
    let v = vis_of(t.nodes@, t.open_nodes@, 0, true);
    let si = v.index_of(t.visible_start_id);
    let ki = v.index_of(t.selected_id);
    if ki < si {
        t.selected_id
    } else if ki - si >= page_size {
        v[ki - (page_size - 1)]
    } else {
        t.visible_start_id
    }
}

/// The tree store plus visibility state. The arena invariant [`TreeWidget::wf`]
/// makes the node graph a rooted tree: every child id is strictly greater than
/// its parent's id, so no node can be its own ancestor.
#[derive(Debug)]
pub struct TreeWidget {
    pub root_id: Id,
    pub visible_start_id: Id,
    pub selected_id: Id,
    pub open_nodes: HashSet<Id>,
    pub nodes: Vec<TreeNode>,
}

impl TreeWidget {
    /// Number of nodes in the arena.
    #[verifier::inline]
    pub open spec fn n(self) -> int {
        self.nodes@.len() as int
    }

    #[verifier::inline]
    pub open spec fn valid(self, id: int) -> bool {
        0 <= id < self.n()
    }

    #[verifier::inline]
    pub open spec fn kids(self, id: int) -> Seq<Id> {
        kids_of(self.nodes@, id)
    }

    #[verifier::inline]
    pub open spec fn opened(self, id: int) -> bool {
        self.open_nodes@.contains(id as Id)
    }

    #[verifier::inline]
    pub open spec fn depth(self, id: int) -> nat {
        depth_of(self.nodes@, id)
    }

    #[verifier::inline]
    pub open spec fn chain(self, id: int) -> Seq<Id> {
        chain_of(self.nodes@, id)
    }

    #[verifier::inline]
    pub open spec fn in_subtree(self, r: int, x: int) -> bool {
        in_subtree_of(self.nodes@, r, x)
    }

    #[verifier::inline]
    pub open spec fn next_sib_spec(self, p: int, c: Id) -> Option<Id> {
        next_sib_of(self.nodes@, p, c)
    }

    #[verifier::inline]
    pub open spec fn prev_sib_spec(self, p: int, c: Id) -> Option<Id> {
        prev_sib_of(self.nodes@, p, c)
    }

    #[verifier::inline]
    pub open spec fn up_next(self, id: int) -> Option<Id> {
        up_next_of(self.nodes@, id)
    }

    #[verifier::inline]
    pub open spec fn next_spec(self, id: int, only_open: bool) -> Option<Id> {
        next_of(self.nodes@, self.open_nodes@, id, only_open)
    }

    #[verifier::inline]
    pub open spec fn prev_spec(self, id: int, only_open: bool) -> Option<Id> {
        prev_of(self.nodes@, self.open_nodes@, id, only_open)
    }

    #[verifier::inline]
    pub open spec fn vis(self, id: int, only_open: bool) -> Seq<Id> {
        vis_of(self.nodes@, self.open_nodes@, id, only_open)
    }

    #[verifier::inline]
    pub open spec fn advance(self, id: Id, count: nat) -> Id {
        advance_of(self.nodes@, self.open_nodes@, id, count)
    }

    #[verifier::inline]
    pub open spec fn retreat(self, id: Id, count: nat) -> Id {
        retreat_of(self.nodes@, self.open_nodes@, id, count)
    }

    /// The arena invariant: node 0 is the root and has no parent; every other
    /// node has a parent with a smaller id; children lists are strictly
    /// increasing, point back to their owner, and contain every non-root node.
    pub open spec fn wf(self) -> bool {
        &&& 1 <= self.n() <= usize::MAX
        &&& self.root_id == 0
        &&& self.nodes@[0].parent_id is None
        &&& forall|i: int|
            1 <= i < self.n() ==> ((#[trigger] self.nodes@[i].parent_id) matches Some(p)
                && p < i)
        &&& forall|i: int, k: int|
            0 <= i < self.n() && 0 <= k < self.kids(i).len() ==> i < #[trigger] self.kids(i)[k]
                && self.kids(i)[k] < self.n()
                && self.nodes@[self.kids(i)[k] as int].parent_id == Some(i as Id)
        &&& forall|i: int, k1: int, k2: int|
            0 <= i < self.n() && 0 <= k1 < k2 < self.kids(i).len() ==> #[trigger] self.kids(
                i,
            )[k1] < #[trigger] self.kids(i)[k2]
        &&& forall|j: int|
            1 <= j < self.n() ==> self.kids(
                #[trigger] self.nodes@[j].parent_id->Some_0 as int,
            ).contains(j as Id)
        &&& self.valid(self.selected_id as int)
        &&& self.valid(self.visible_start_id as int)
        &&& forall|x: Id| #[trigger] self.open_nodes@.contains(x) ==> self.valid(x as int)
    }

    /// The open-set invariant: everything in `open_nodes` is a valid node
    /// whose parent is open too — so every ancestor of an open node is open.
    pub open spec fn open_wf(self) -> bool {
        forall|x: Id| #[trigger] self.open_nodes@.contains(x) ==> self.valid(x as int) && (
        self.nodes@[x as int].parent_id matches Some(p) ==> self.open_nodes@.contains(p))
    }

    /// A store that differs from a well-formed one only in selection,
    /// viewport and open set (all kept valid) is well-formed too.
    pub proof fn lemma_same_tree_wf(a: TreeWidget, b: TreeWidget)
        requires
            a.wf(),
            b.nodes@ == a.nodes@,
            b.root_id == a.root_id,
            0 <= b.selected_id < a.nodes@.len(),
            0 <= b.visible_start_id < a.nodes@.len(),
            forall|x: Id| #[trigger] b.open_nodes@.contains(x) ==> x < a.nodes@.len(),
        ensures
            b.wf(),
    {
        assert forall|i: int|
            1 <= i < b.n() implies ((#[trigger] b.nodes@[i].parent_id) matches Some(p)
            && p < i) by {
            assert(((a.nodes@[i].parent_id) matches Some(p) && p < i));
        }
        assert forall|i: int, k: int|
            0 <= i < b.n() && 0 <= k < b.kids(i).len() implies i < #[trigger] b.kids(i)[k]
            && b.kids(i)[k] < b.n()
            && b.nodes@[b.kids(i)[k] as int].parent_id == Some(i as Id) by {
            assert(i < a.kids(i)[k] && a.kids(i)[k] < a.n() && a.nodes@[a.kids(
                i,
            )[k] as int].parent_id == Some(i as Id));
        }
        assert forall|i: int, k1: int, k2: int|
            0 <= i < b.n() && 0 <= k1 < k2 < b.kids(i).len() implies #[trigger] b.kids(i)[k1]
            < #[trigger] b.kids(i)[k2] by {
            assert(a.kids(i)[k1] < a.kids(i)[k2]);
        }
        assert forall|j: int|
            1 <= j < b.n() implies b.kids(
            (#[trigger] b.nodes@[j].parent_id)->Some_0 as int,
        ).contains(j as Id) by {
            let p = a.nodes@[j].parent_id->Some_0 as int;
            assert(a.kids(p).contains(j as Id));
            let k = choose|k: int| 0 <= k < a.kids(p).len() && a.kids(p)[k] == j as Id;
            assert(b.kids(p)[k] == j as Id);
        }
    }

    /// The ancestor chain starts at `id`, ends at the root, is strictly
    /// decreasing, and consecutive entries are linked by `parent_id`.
    pub proof fn lemma_chain_props(self, id: int)
        requires
            self.wf(),
            self.valid(id),
        ensures
            self.chain(id).len() >= 1,
            self.chain(id)[0] == id as Id,
            self.chain(id).last() == 0usize,
            forall|j: int|
                0 <= j < self.chain(id).len() ==> self.valid(#[trigger] self.chain(id)[j] as int)
                    && self.chain(id)[j] <= id,
            forall|j: int|
                0 <= j < self.chain(id).len() - 1 ==> self.nodes@[#[trigger] self.chain(
                    id,
                )[j] as int].parent_id == Some(self.chain(id)[j + 1]),
            self.nodes@[self.chain(id).last() as int].parent_id is None,
            forall|j1: int, j2: int|
                0 <= j1 < j2 < self.chain(id).len() ==> #[trigger] self.chain(id)[j2]
                    < #[trigger] self.chain(id)[j1],
        decreases id,
    {
        match self.nodes@[id].parent_id {
            Option::None => {
                assert(id == 0);
            },
            Option::Some(p) => {
                self.lemma_chain_props(p as int);
                assert(self.chain(id) == seq![id as Id] + self.chain(p as int));
            },
        }
    }

    /// A sibling delivered by the sibling lookups is a valid child of `p`.
    pub proof fn lemma_sib_valid(self, p: int, c: Id)
        requires
            self.wf(),
            self.valid(p),
        ensures
            self.next_sib_spec(p, c) matches Some(s) ==> self.valid(s as int) && self.kids(
                p,
            ).contains(s) && self.nodes@[s as int].parent_id == Some(p as Id),
            self.prev_sib_spec(p, c) matches Some(s) ==> self.valid(s as int) && self.kids(
                p,
            ).contains(s) && self.nodes@[s as int].parent_id == Some(p as Id),
    {
        if self.kids(p).contains(c) {
            let k = self.kids(p).index_of(c);
            assert(0 <= k < self.kids(p).len() && self.kids(p)[k] == c);
            if k + 1 < self.kids(p).len() {
                assert(self.kids(p).contains(self.kids(p)[k + 1]));
            }
            if k > 0 {
                assert(self.kids(p).contains(self.kids(p)[k - 1]));
            }
        }
    }

    /// The pre-order successor, when it exists, is a valid node.
    pub proof fn lemma_up_next_valid(self, id: int)
        requires
            self.wf(),
            self.valid(id),
        ensures
            self.up_next(id) matches Some(s) ==> self.valid(s as int),
        decreases id,
    {
        match self.nodes@[id].parent_id {
            Option::None => {},
            Option::Some(p) => {
                self.lemma_sib_valid(p as int, id as Id);
                match self.next_sib_spec(p as int, id as Id) {
                    Option::Some(_) => {},
                    Option::None => {
                        self.lemma_up_next_valid(p as int);
                    },
                }
            },
        }
    }

    /// The visible successor and predecessor, when they exist, are valid.
    pub proof fn lemma_step_valid(self, id: int, only_open: bool)
        requires
            self.wf(),
            self.valid(id),
        ensures
            self.next_spec(id, only_open) matches Some(s) ==> self.valid(s as int),
            self.prev_spec(id, only_open) matches Some(s) ==> self.valid(s as int),
    {
        self.lemma_up_next_valid(id);
        if self.kids(id).len() > 0 {
            assert(self.kids(id).contains(self.kids(id)[0]));
        }
        match self.nodes@[id].parent_id {
            Option::None => {},
            Option::Some(p) => {
                self.lemma_sib_valid(p as int, id as Id);
                match self.prev_sib_spec(p as int, id as Id) {
                    Option::Some(s) => {
                        self.lemma_last_vis_valid(s as int, only_open);
                    },
                    Option::None => {},
                }
            },
        }
    }

    /// The deepest reachable node below a valid node is valid.
    pub proof fn lemma_last_vis_valid(self, id: int, only_open: bool)
        requires
            self.wf(),
            self.valid(id),
        ensures
            self.valid(last_vis_of(self.nodes@, self.open_nodes@, id, only_open) as int),
        decreases self.n() - id,
    {
        if self.kids(id).len() > 0 && (self.opened(id) || !only_open) {
            let c = self.kids(id).last();
            assert(self.kids(id).contains(c));
            self.lemma_last_vis_valid(c as int, only_open);
        }
    }

    /// After `advance` or `retreat` from a valid node the selection is still
    /// a valid node.
    pub proof fn lemma_move_valid(self, id: Id, count: nat)
        requires
            self.wf(),
            self.valid(id as int),
        ensures
            self.valid(self.advance(id, count) as int),
            self.valid(self.retreat(id, count) as int),
        decreases count,
    {
        self.lemma_step_valid(id as int, true);
        if count > 0 {
            match self.next_spec(id as int, true) {
                Option::Some(x) => {
                    self.lemma_move_valid(x, (count - 1) as nat);
                },
                Option::None => {},
            }
            match self.prev_spec(id as int, true) {
                Option::Some(x) => {
                    self.lemma_move_valid(x, (count - 1) as nat);
                },
                Option::None => {},
            }
        }
    }

    /// Create a store holding only a root node, selected and scrolled to.
    pub fn new(root_text: String) -> (t: TreeWidget)
        ensures
            t.wf(),
            t.n() == 1,
            t.root_id == 0,
            t.selected_id == t.root_id,
            t.visible_start_id == t.root_id,
            t.open_nodes@ =~= Set::<Id>::empty(),
            t.nodes@[0].text == root_text,
            t.nodes@[0].source is None,
            t.kids(0) =~= Seq::<Id>::empty(),
    {
        let mut nodes: Vec<TreeNode> = Vec::new();
        nodes.push(TreeNode::new(root_text));
        proof {
            assert(nodes.len() == 1);
        }
        TreeWidget {
            root_id: 0,
            visible_start_id: 0,
            selected_id: 0,
            open_nodes: HashSet::new(),
            nodes,
        }
    }

    /// Append a new node to `parent_id`'s children; the new node gets the
    /// next free id. Everything else in the store is left as it was.
    pub fn add_child(&mut self, text: &str, parent_id: Id, source: Option<TagSource>) -> (id: Id)
        requires
            old(self).wf(),
            old(self).valid(parent_id as int),
            old(self).n() < usize::MAX,
        ensures
            final(self).wf(),
            id == old(self).n(),
            final(self).n() == old(self).n() + 1,
            final(self).nodes@[id as int].text@ == text@,
            final(self).nodes@[id as int].children@ =~= Seq::<Id>::empty(),
            final(self).nodes@[id as int].parent_id == Some(parent_id),
            final(self).nodes@[id as int].source == source,
            final(self).kids(parent_id as int) =~= old(self).kids(parent_id as int).push(id),
            final(self).nodes@[parent_id as int].text == old(self).nodes@[parent_id as int].text,
            final(self).nodes@[parent_id as int].parent_id == old(self).nodes@[parent_id as int].parent_id,
            final(self).nodes@[parent_id as int].source == old(self).nodes@[parent_id as int].source,
            forall|i: int|
                0 <= i < old(self).n() && i != parent_id ==> final(self).nodes@[i] == old(
                    self,
                ).nodes@[i],
            final(self).root_id == old(self).root_id,
            final(self).selected_id == old(self).selected_id,
            final(self).visible_start_id == old(self).visible_start_id,
            final(self).open_nodes@ == old(self).open_nodes@,
    {
        let mut child = TreeNode::new(String::from_str(text));
        child.parent_id = Some(parent_id);
        child.source = source;
        let child_id = self.nodes.len();
        self.nodes.push(child);
        let parent = &mut self.nodes[parent_id];
        parent.children.push(child_id);
        assert forall|i: int, k: int|
            0 <= i < self.n() && 0 <= k < self.kids(i).len() implies i < #[trigger] self.kids(i)[k]
            && self.kids(i)[k] < self.n()
            && self.nodes@[self.kids(i)[k] as int].parent_id == Some(i as Id) by {
            if i == parent_id && k == self.kids(i).len() - 1 {
            } else {
                assert(old(self).kids(i)[k] == self.kids(i)[k]);
            }
        }
        assert forall|i: int, k1: int, k2: int|
            0 <= i < self.n() && 0 <= k1 < k2 < self.kids(i).len() implies #[trigger] self.kids(
            i,
        )[k1] < #[trigger] self.kids(i)[k2] by {
            if i == parent_id && k2 == self.kids(i).len() - 1 {
                assert(old(self).kids(i)[k1] == self.kids(i)[k1]);
                assert(old(self).kids(i)[k1] < old(self).n());
            } else {
                assert(old(self).kids(i)[k1] == self.kids(i)[k1]);
                assert(old(self).kids(i)[k2] == self.kids(i)[k2]);
            }
        }
        assert forall|j: int|
            1 <= j < self.n() implies self.kids(
            #[trigger] self.nodes@[j].parent_id->Some_0 as int,
        ).contains(j as Id) by {
            if j == child_id {
                assert(self.kids(parent_id as int).last() == child_id);
            } else {
                let p = self.nodes@[j].parent_id->Some_0 as int;
                assert(old(self).kids(p).contains(j as Id));
                let k = choose|k: int|
                    0 <= k < old(self).kids(p).len() && old(self).kids(p)[k] == j as Id;
                assert(self.kids(p)[k] == j as Id);
            }
        }
        assert forall|x: Id| self.open_nodes@.contains(x) implies self.valid(x as int) by {
            assert(old(self).open_nodes@.contains(x));
        }
        child_id
    }

    /// Whether `node_id`'s children are currently shown.
    pub fn is_open(&self, node_id: &Id) -> (r: bool)
        ensures
            r == self.opened(*node_id as int),
    {
        self.open_nodes.contains(node_id)
    }

    /// The ancestor chain of `node_id` as a vector, leaf first.
    #[verifier::loop_isolation(false)]
    fn ancestor_chain(&self, node_id: Id) -> (r: Vec<Id>)
        requires
            self.wf(),
            self.valid(node_id as int),
        ensures
            r@ == chain_of(self.nodes@, node_id as int),
    {
        proof {
            self.lemma_chain_props(node_id as int);
        }
        let ghost c0 = chain_of(self.nodes@, node_id as int);
        let mut v: Vec<Id> = Vec::new();
        let mut cur = node_id;
        loop
            invariant
                self.valid(cur as int),
                c0 == v@ + chain_of(self.nodes@, cur as int),
            decreases cur,
        {
            v.push(cur);
            match self.nodes[cur].parent_id {
                Option::Some(p) => {
                    proof {
                        assert(chain_of(self.nodes@, cur as int) == seq![cur] + chain_of(
                            self.nodes@,
                            p as int,
                        ));
                    }
                    cur = p;
                },
                Option::None => {
                    proof {
                        assert(chain_of(self.nodes@, cur as int) =~= seq![cur]);
                        assert(v@ =~= c0);
                    }
                    return v;
                },
            }
        }
    }

    /// Mark `node_id` and every one of its ancestors as open, so that
    /// `node_id`'s children become reachable by visible traversal.
    #[verifier::loop_isolation(false)]
    pub fn open(&mut self, node_id: Id)
        requires
            old(self).wf(),
            old(self).valid(node_id as int),
        ensures
            final(self).wf(),
            final(self).nodes == old(self).nodes,
            final(self).root_id == old(self).root_id,
            final(self).selected_id == old(self).selected_id,
            final(self).visible_start_id == old(self).visible_start_id,
            forall|x: Id|
                final(self).open_nodes@.contains(x) <==> (old(self).open_nodes@.contains(x) || old(
                    self,
                ).chain(node_id as int).contains(x)),
            old(self).open_wf() ==> final(self).open_wf(),
    {
        proof {
            old(self).lemma_chain_props(node_id as int);
        }
        let chain_vec = self.ancestor_chain(node_id);
        let ghost c0 = old(self).chain(node_id as int);
        let mut k: usize = 0;
        while k < chain_vec.len()
            invariant
                k <= c0.len(),
                chain_vec@ == c0,
                self.nodes == old(self).nodes,
                self.root_id == old(self).root_id,
                self.selected_id == old(self).selected_id,
                self.visible_start_id == old(self).visible_start_id,
                forall|x: Id|
                    self.open_nodes@.contains(x) <==> (old(self).open_nodes@.contains(x)
                        || exists|j: int| 0 <= j < k && c0[j] == x),
            decreases c0.len() - k,
        {
            let ghost pre = self.open_nodes@;
            self.open_nodes.insert(chain_vec[k]);
            proof {
                assert forall|x: Id|
                    self.open_nodes@.contains(x) <==> (old(self).open_nodes@.contains(x) || exists|
                        j: int,
                    | 0 <= j < k + 1 && c0[j] == x) by {
                    if self.open_nodes@.contains(x) {
                        if x == c0[k as int] {
                            assert(c0[k as int] == x);
                        } else {
                            assert(pre.contains(x));
                        }
                    } else {
                        if exists|j: int| 0 <= j < k + 1 && c0[j] == x {
                            let j = choose|j: int| 0 <= j < k + 1 && c0[j] == x;
                            if j < k {
                                assert(pre.contains(x));
                            }
                            assert(false);
                        }
                    }
                }
            }
            k = k + 1;
        }
        proof {
            assert forall|x: Id|
                self.open_nodes@.contains(x) <==> (old(self).open_nodes@.contains(x)
                    || c0.contains(x)) by {}
            assert forall|x: Id| #[trigger] self.open_nodes@.contains(x) implies x
                < self.nodes@.len() by {
                if !old(self).open_nodes@.contains(x) {
                    let j = choose|j: int| 0 <= j < c0.len() && c0[j] == x;
                    assert(old(self).valid(c0[j] as int));
                }
            }
            TreeWidget::lemma_same_tree_wf(*old(self), *self);
            if old(self).open_wf() {
                assert forall|x: Id| #[trigger] self.open_nodes@.contains(x) implies self.valid(
                    x as int,
                ) && (self.nodes@[x as int].parent_id matches Some(p)
                    ==> self.open_nodes@.contains(p)) by {
                    if old(self).open_nodes@.contains(x) {
                    } else {
                        let j = choose|j: int| 0 <= j < c0.len() && c0[j] == x;
                        if j < c0.len() - 1 {
                            assert(self.nodes@[x as int].parent_id == Some(c0[j + 1]));
                            assert(c0.contains(c0[j + 1]));
                        }
                    }
                }
            }
        }
    }

    /// Remove `node_id` alone from the open set; descendants keep whatever
    /// open state they had, so re-opening `node_id` re-reveals it.
    pub fn close(&mut self, node_id: Id)
        requires
            old(self).wf(),
        ensures
            final(self).wf(),
            final(self).nodes == old(self).nodes,
            final(self).root_id == old(self).root_id,
            final(self).selected_id == old(self).selected_id,
            final(self).visible_start_id == old(self).visible_start_id,
            final(self).open_nodes@ == old(self).open_nodes@.remove(node_id),
    {
        self.open_nodes.remove(&node_id);
        proof {
            assert forall|x: Id| #[trigger] self.open_nodes@.contains(x) implies x
                < self.nodes@.len() by {
                assert(old(self).open_nodes@.contains(x));
            }
            TreeWidget::lemma_same_tree_wf(*old(self), *self);
        }
    }

    /// Close `node_id` if it is open, open just it (without its ancestors)
    /// otherwise.
    pub fn toggle(&mut self, node_id: Id)
        requires
            old(self).wf(),
            old(self).valid(node_id as int),
        ensures
            final(self).wf(),
            final(self).nodes == old(self).nodes,
            final(self).root_id == old(self).root_id,
            final(self).selected_id == old(self).selected_id,
            final(self).visible_start_id == old(self).visible_start_id,
            final(self).open_nodes@ == if old(self).opened(node_id as int) {
                old(self).open_nodes@.remove(node_id)
            } else {
                old(self).open_nodes@.insert(node_id)
            },
    {
        if self.open_nodes.contains(&node_id) {
            self.open_nodes.remove(&node_id);
        } else {
            self.open_nodes.insert(node_id);
        }
        proof {
            assert forall|x: Id| #[trigger] self.open_nodes@.contains(x) implies x
                < self.nodes@.len() by {
                if x != node_id {
                    assert(old(self).open_nodes@.contains(x));
                }
            }
            TreeWidget::lemma_same_tree_wf(*old(self), *self);
        }
    }

    /// Toggle the currently selected node.
    pub fn toggle_selected(&mut self)
        requires
            old(self).wf(),
        ensures
            final(self).wf(),
            final(self).nodes == old(self).nodes,
            final(self).root_id == old(self).root_id,
            final(self).selected_id == old(self).selected_id,
            final(self).visible_start_id == old(self).visible_start_id,
            final(self).open_nodes@ == if old(self).opened(old(self).selected_id as int) {
                old(self).open_nodes@.remove(old(self).selected_id)
            } else {
                old(self).open_nodes@.insert(old(self).selected_id)
            },
    {
        let sel = self.selected_id;
        self.toggle(sel);
    }

    /// How deep `node_id` sits below the root.
    #[verifier::loop_isolation(false)]
    pub fn level(&self, node_id: Id) -> (r: usize)
        requires
            self.wf(),
            self.valid(node_id as int),
        ensures
            r == self.depth(node_id as int),
    {
        let mut cur = node_id;
        let mut lvl: usize = 0;
        loop
            invariant
                self.valid(cur as int),
                lvl + cur <= node_id,
                self.depth(node_id as int) == self.depth(cur as int) + lvl,
            decreases cur,
        {
            match self.nodes[cur].parent_id {
                Option::Some(p) => {
                    lvl = lvl + 1;
                    cur = p;
                },
                Option::None => {
                    return lvl;
                },
            }
        }
    }

    /// Position of `cur_id` among `parent_id`'s children, then the entry one
    /// to the right, if any.
    #[verifier::loop_isolation(false)]
    fn next_sibling(&self, parent_id: Id, cur_id: Id) -> (r: Option<Id>)
        requires
            self.wf(),
            self.valid(parent_id as int),
        ensures
            r == self.next_sib_spec(parent_id as int, cur_id),
    {
        let children = &self.nodes[parent_id].children;
        let ghost ks = self.kids(parent_id as int);
        let mut idx: usize = 0;
        loop
            invariant
                0 <= idx <= ks.len(),
                forall|j: int| 0 <= j < idx ==> ks[j] != cur_id,
            decreases ks.len() - idx,
        {
            if idx >= children.len() {
                proof {
                    assert(!ks.contains(cur_id));
                }
                return None;
            }
            if children[idx] == cur_id {
                proof {
                    assert(ks.contains(cur_id));
                    let j = ks.index_of(cur_id);
                    if j != idx as int {
                        if j < idx as int {
                            assert(ks[j] < ks[idx as int]);
                        } else {
                            assert(ks[idx as int] < ks[j]);
                        }
                        assert(false);
                    }
                }
                if idx + 1 < children.len() {
                    return Some(children[idx + 1]);
                } else {
                    return None;
                }
            }
            idx = idx + 1;
        }
    }

    /// Position of `cur_id` among `parent_id`'s children, then the entry one
    /// to the left, if any. `cur_id` must really be a child of `parent_id`.
    #[verifier::loop_isolation(false)]
    fn prev_sibling(&self, parent_id: Id, cur_id: Id) -> (r: Option<Id>)
        requires
            self.wf(),
            self.valid(parent_id as int),
            self.kids(parent_id as int).contains(cur_id),
        ensures
            r == self.prev_sib_spec(parent_id as int, cur_id),
    {
        let children = &self.nodes[parent_id].children;
        let ghost ks = self.kids(parent_id as int);
        let mut idx: usize = 0;
        loop
            invariant
                0 <= idx <= ks.len(),
                forall|j: int| 0 <= j < idx ==> ks[j] != cur_id,
            decreases ks.len() - idx,
        {
            if idx >= children.len() {
                proof {
                    assert(false);
                }
                return None;
            }
            if children[idx] == cur_id {
                proof {
                    let j = ks.index_of(cur_id);
                    if j != idx as int {
                        if j < idx as int {
                            assert(ks[j] < ks[idx as int]);
                        } else {
                            assert(ks[idx as int] < ks[j]);
                        }
                        assert(false);
                    }
                }
                if idx > 0 {
                    return Some(children[idx - 1]);
                } else {
                    return None;
                }
            }
            idx = idx + 1;
        }
    }

    /// Pre-order successor of `cur_id`: its first child when that is
    /// reachable, otherwise the next sibling of the nearest ancestor that has
    /// one. `None` at the end of the tree.
    #[verifier::loop_isolation(false)]
    pub fn next(&self, cur_id: Id, only_opened: bool) -> (r: Option<Id>)
        requires
            self.wf(),
            self.valid(cur_id as int),
        ensures
            r == self.next_spec(cur_id as int, only_opened),
    {
        let cur = &self.nodes[cur_id];
        if cur.children.len() > 0 && (self.open_nodes.contains(&cur_id) || !only_opened) {
            Some(cur.children[0])
        } else {
            let mut c = cur_id;
            let mut parent_opt = cur.parent_id;
            loop
                invariant
                    self.valid(c as int),
                    parent_opt == self.nodes@[c as int].parent_id,
                    self.up_next(cur_id as int) == self.up_next(c as int),
                decreases c,
            {
                match parent_opt {
                    Option::Some(p) => {
                        match self.next_sibling(p, c) {
                            Option::Some(s) => {
                                proof {
                                    assert(self.up_next(c as int) == Some(s));
                                }
                                return Some(s);
                            },
                            Option::None => {
                                proof {
                                    assert(self.up_next(c as int) == self.up_next(p as int));
                                }
                                c = p;
                                parent_opt = self.nodes[p].parent_id;
                            },
                        }
                    },
                    Option::None => {
                        proof {
                            assert(self.up_next(c as int) is None);
                        }
                        return None;
                    },
                }
            }
        }
    }

    /// Pre-order successor among currently visible nodes.
    pub fn next_visible(&self, cur_id: Id) -> (r: Option<Id>)
        requires
            self.wf(),
            self.valid(cur_id as int),
        ensures
            r == self.next_spec(cur_id as int, true),
    {
        self.next(cur_id, true)
    }

    /// Pre-order predecessor of `cur_id`: the deepest reachable node of its
    /// previous sibling's subtree, or its parent when it is a first child.
    /// `None` at the root.
    #[verifier::loop_isolation(false)]
    pub fn prev(&self, cur_id: Id, only_opened: bool) -> (r: Option<Id>)
        requires
            self.wf(),
            self.valid(cur_id as int),
        ensures
            r == self.prev_spec(cur_id as int, only_opened),
    {
        let parent_id = match self.nodes[cur_id].parent_id {
            Option::Some(p) => p,
            Option::None => {
                return None;
            },
        };
        match self.prev_sibling(parent_id, cur_id) {
            Option::Some(sib) => {
                proof {
                    self.lemma_sib_valid(parent_id as int, cur_id);
                }
                let mut c = sib;
                loop
                    invariant
                        self.valid(c as int),
                        last_vis_of(self.nodes@, self.open_nodes@, sib as int, only_opened)
                            == last_vis_of(self.nodes@, self.open_nodes@, c as int, only_opened),
                    decreases self.n() - c,
                {
                    let node = &self.nodes[c];
                    if node.children.len() > 0 && (self.open_nodes.contains(&c) || !only_opened) {
                        proof {
                            assert(self.kids(c as int).contains(self.kids(c as int).last()));
                        }
                        c = node.children[node.children.len() - 1];
                    } else {
                        return Some(c);
                    }
                }
            },
            Option::None => Some(parent_id),
        }
    }

    /// Pre-order predecessor among currently visible nodes.
    pub fn prev_visible(&self, cur_id: Id) -> (r: Option<Id>)
        requires
            self.wf(),
            self.valid(cur_id as int),
        ensures
            r == self.prev_spec(cur_id as int, true),
    {
        self.prev(cur_id, true)
    }

    /// Move the selection up to `offset` visible nodes forward, stopping at
    /// the last visible node.
    #[verifier::loop_isolation(false)]
    pub fn select_next(&mut self, offset: usize)
        requires
            old(self).wf(),
        ensures
            final(self).wf(),
            final(self).nodes == old(self).nodes,
            final(self).root_id == old(self).root_id,
            final(self).visible_start_id == old(self).visible_start_id,
            final(self).open_nodes@ == old(self).open_nodes@,
            final(self).selected_id == old(self).advance(old(self).selected_id, offset as nat),
    {
        let mut cur = self.selected_id;
        let mut i: usize = 0;
        while i < offset
            invariant
                self.valid(cur as int),
                i <= offset,
                self.advance(self.selected_id, offset as nat) == self.advance(
                    cur,
                    (offset - i) as nat,
                ),
            decreases offset - i,
        {
            match self.next_visible(cur) {
                Option::Some(next_id) => {
                    proof {
                        self.lemma_step_valid(cur as int, true);
                    }
                    cur = next_id;
                },
                Option::None => {
                    break ;
                },
            }
            i = i + 1;
        }
        self.selected_id = cur;
        proof {
            TreeWidget::lemma_same_tree_wf(*old(self), *self);
        }
    }

    /// Move the selection up to `offset` visible nodes backward, stopping at
    /// the root.
    #[verifier::loop_isolation(false)]
    pub fn select_prev(&mut self, offset: usize)
        requires
            old(self).wf(),
        ensures
            final(self).wf(),
            final(self).nodes == old(self).nodes,
            final(self).root_id == old(self).root_id,
            final(self).visible_start_id == old(self).visible_start_id,
            final(self).open_nodes@ == old(self).open_nodes@,
            final(self).selected_id == old(self).retreat(old(self).selected_id, offset as nat),
    {
        let mut cur = self.selected_id;
        let mut i: usize = 0;
        while i < offset
            invariant
                self.valid(cur as int),
                i <= offset,
                self.retreat(self.selected_id, offset as nat) == self.retreat(
                    cur,
                    (offset - i) as nat,
                ),
            decreases offset - i,
        {
            match self.prev_visible(cur) {
                Option::Some(prev_id) => {
                    proof {
                        self.lemma_step_valid(cur as int, true);
                    }
                    cur = prev_id;
                },
                Option::None => {
                    break ;
                },
            }
            i = i + 1;
        }
        self.selected_id = cur;
        proof {
            TreeWidget::lemma_same_tree_wf(*old(self), *self);
        }
    }

    /// Move the selection to the next sibling under the same parent, if any.
    pub fn select_next_sibling(&mut self)
        requires
            old(self).wf(),
        ensures
            final(self).wf(),
            final(self).nodes == old(self).nodes,
            final(self).root_id == old(self).root_id,
            final(self).visible_start_id == old(self).visible_start_id,
            final(self).open_nodes@ == old(self).open_nodes@,
            final(self).selected_id == (match old(self).nodes@[old(self).selected_id as int].parent_id {
                Option::Some(p) => match old(self).next_sib_spec(p as int, old(self).selected_id) {
                    Option::Some(s) => s,
                    Option::None => old(self).selected_id,
                },
                Option::None => old(self).selected_id,
            }),
    {
        match self.nodes[self.selected_id].parent_id {
            Option::Some(parent_id) => {
                proof {
                    self.lemma_sib_valid(parent_id as int, self.selected_id);
                }
                match self.next_sibling(parent_id, self.selected_id) {
                    Option::Some(sibling) => {
                        self.selected_id = sibling;
                    },
                    Option::None => {},
                }
            },
            Option::None => {},
        }
        proof {
            TreeWidget::lemma_same_tree_wf(*old(self), *self);
        }
    }

    /// Move the selection to the previous sibling under the same parent, if
    /// any.
    pub fn select_prev_sibling(&mut self)
        requires
            old(self).wf(),
        ensures
            final(self).wf(),
            final(self).nodes == old(self).nodes,
            final(self).root_id == old(self).root_id,
            final(self).visible_start_id == old(self).visible_start_id,
            final(self).open_nodes@ == old(self).open_nodes@,
            final(self).selected_id == (match old(self).nodes@[old(self).selected_id as int].parent_id {
                Option::Some(p) => match old(self).prev_sib_spec(p as int, old(self).selected_id) {
                    Option::Some(s) => s,
                    Option::None => old(self).selected_id,
                },
                Option::None => old(self).selected_id,
            }),
    {
        match self.nodes[self.selected_id].parent_id {
            Option::Some(parent_id) => {
                proof {
                    self.lemma_sib_valid(parent_id as int, self.selected_id);
                }
                match self.prev_sibling(parent_id, self.selected_id) {
                    Option::Some(sibling) => {
                        self.selected_id = sibling;
                    },
                    Option::None => {},
                }
            },
            Option::None => {},
        }
        proof {
            TreeWidget::lemma_same_tree_wf(*old(self), *self);
        }
    }

    /// All children of `key`'s parent, in display order; empty at the root.
    #[verifier::loop_isolation(false)]
    pub fn siblings(&self, key: Id) -> (r: Vec<Id>)
        requires
            self.wf(),
            self.valid(key as int),
        ensures
            r@ == (match self.nodes@[key as int].parent_id {
                Option::Some(p) => self.kids(p as int),
                Option::None => Seq::<Id>::empty(),
            }),
    {
        let mut v: Vec<Id> = Vec::new();
        match self.nodes[key].parent_id {
            Option::Some(parent_id) => {
                let children = &self.nodes[parent_id].children;
                let mut k: usize = 0;
                while k < children.len()
                    invariant
                        k <= children@.len(),
                        v@ == self.kids(parent_id as int).take(k as int),
                    decreases children@.len() - k,
                {
                    v.push(children[k]);
                    proof {
                        assert(self.kids(parent_id as int).take(k + 1) =~= self.kids(
                            parent_id as int,
                        ).take(k as int).push(self.kids(parent_id as int)[k as int]));
                    }
                    k = k + 1;
                }
                proof {
                    assert(self.kids(parent_id as int).take(children@.len() as int) =~= self.kids(
                        parent_id as int,
                    ));
                }
            },
            Option::None => {},
        }
        v
    }

    /// Every node reachable from the root through open nodes, in pre-order:
    /// exactly the rows a renderer would draw for the whole tree.
    pub fn visible_nodes(&self) -> (r: Vec<Id>)
        requires
            self.wf(),
        ensures
            r@ == self.vis(0, true),
            r@.len() >= 1,
    {
        let mut v = Vec::new();
        self.gen_visible_nodes_recursive(&mut v, self.root_id);
        v
    }

    #[verifier::loop_isolation(false)]
    fn gen_visible_nodes_recursive(&self, v: &mut Vec<Id>, id: Id)
        requires
            self.wf(),
            self.valid(id as int),
        ensures
            final(v)@ == old(v)@ + self.vis(id as int, true),
        decreases self.n() - id,
    {
        v.push(id);
        if self.open_nodes.contains(&id) {
            let children = &self.nodes[id].children;
            let mut k: usize = 0;
            while k < children.len()
                invariant
                    k <= children@.len(),
                    old(v)@ + self.vis(id as int, true) == v@ + vis_kids_of(
                        self.nodes@,
                        self.open_nodes@,
                        id as int,
                        k as int,
                        true,
                    ),
                decreases children@.len() - k,
            {
                proof {
                    assert(self.kids(id as int).contains(self.kids(id as int)[k as int]));
                }
                self.gen_visible_nodes_recursive(v, children[k]);
                k = k + 1;
            }
        }
    }

    /// A strict descendant of `r` lies in the subtree of exactly the child of
    /// `r` its ancestor chain runs through.
    pub proof fn lemma_subtree_child(self, r: int, x: int)
        requires
            self.wf(),
            self.valid(r),
            self.valid(x),
            in_subtree_of(self.nodes@, r, x),
            x != r,
        ensures
            exists|m: int|
                0 <= m < kids_of(self.nodes@, r).len() && in_subtree_of(
                    self.nodes@,
                    kids_of(self.nodes@, r)[m] as int,
                    x,
                ),
        decreases x,
    {
        let ns = self.nodes@;
        let p = ns[x].parent_id->Some_0;
        if p as int == r {
            assert(kids_of(ns, r).contains(x as Id));
            let m = choose|m: int| 0 <= m < kids_of(ns, r).len() && kids_of(ns, r)[m] == x as Id;
            assert(in_subtree_of(ns, kids_of(ns, r)[m] as int, x));
        } else {
            self.lemma_subtree_child(r, p as int);
            let m = choose|m: int|
                0 <= m < kids_of(ns, r).len() && in_subtree_of(
                    ns,
                    kids_of(ns, r)[m] as int,
                    p as int,
                );
            assert(in_subtree_of(ns, kids_of(ns, r)[m] as int, x));
        }
    }

    /// Open `id`, its ancestors, and every descendant of `id` that has
    /// children, so the whole subtree below `id` becomes visible. Does
    /// nothing when `id` has no children.
    pub fn expand_recursive(&mut self, id: Id)
        requires
            old(self).wf(),
            old(self).valid(id as int),
        ensures
            final(self).wf(),
            final(self).nodes == old(self).nodes,
            final(self).root_id == old(self).root_id,
            final(self).selected_id == old(self).selected_id,
            final(self).visible_start_id == old(self).visible_start_id,
            forall|x: Id|
                final(self).open_nodes@.contains(x) <==> (old(self).open_nodes@.contains(x) || (
                kids_of(old(self).nodes@, id as int).len() > 0 && (chain_of(
                    old(self).nodes@,
                    id as int,
                ).contains(x) || (in_subtree_of(old(self).nodes@, id as int, x as int) && kids_of(
                    old(self).nodes@,
                    x as int,
                ).len() > 0)))),
            old(self).open_wf() ==> final(self).open_wf(),
    {
        if self.nodes[id].children.len() == 0 {
            return ;
        }
        self.open(id);
        self.expand_rec(id);
        proof {
            let ns = old(self).nodes@;
            old(self).lemma_chain_props(id as int);
            let c0 = chain_of(ns, id as int);
            assert(c0[0] == id);
            assert(c0.contains(id));
            if old(self).open_wf() {
                assert forall|x: Id| #[trigger] self.open_nodes@.contains(x) implies self.valid(
                    x as int,
                ) && (self.nodes@[x as int].parent_id matches Some(p)
                    ==> self.open_nodes@.contains(p)) by {
                    if old(self).open_nodes@.contains(x) {
                    } else if c0.contains(x) {
                        let j = choose|j: int| 0 <= j < c0.len() && c0[j] == x;
                        if j < c0.len() - 1 {
                            assert(ns[x as int].parent_id == Some(c0[j + 1]));
                            assert(c0.contains(c0[j + 1]));
                        }
                    } else {
                        // x is a strict descendant of id with children; its
                        // parent lies in the subtree too and has children
                        assert(in_subtree_of(ns, id as int, x as int));
                        assert(x != id);
                        crate::laws::lemma_subtree_ge(ns, id as int, x as int);
                        let p = ns[x as int].parent_id->Some_0;
                        assert(in_subtree_of(ns, id as int, p as int));
                        assert(kids_of(ns, p as int).contains(x));
                        assert(kids_of(ns, p as int).len() > 0);
                    }
                }
            }
        }
    }

    /// Mark every node of `id`'s subtree that has children as open,
    /// without touching `id`'s ancestors.
    #[verifier::loop_isolation(false)]
    fn expand_rec(&mut self, id: Id)
        requires
            old(self).wf(),
            old(self).valid(id as int),
        ensures
            final(self).wf(),
            final(self).nodes == old(self).nodes,
            final(self).root_id == old(self).root_id,
            final(self).selected_id == old(self).selected_id,
            final(self).visible_start_id == old(self).visible_start_id,
            forall|x: Id|
                final(self).open_nodes@.contains(x) <==> (old(self).open_nodes@.contains(x) || (
                in_subtree_of(old(self).nodes@, id as int, x as int) && kids_of(
                    old(self).nodes@,
                    x as int,
                ).len() > 0)),
        decreases old(self).n() - id,
    {
        let ghost ns = old(self).nodes@;
        let num = self.nodes[id].children.len();
        if num == 0 {
            proof {
                assert forall|x: Id|
                    self.open_nodes@.contains(x) <==> (old(self).open_nodes@.contains(x) || (
                    in_subtree_of(ns, id as int, x as int) && kids_of(ns, x as int).len()
                        > 0)) by {
                    if in_subtree_of(ns, id as int, x as int) && x as int != id as int && x
                        < self.n() {
                        old(self).lemma_subtree_child(id as int, x as int);
                    }
                }
            }
            return ;
        }
        self.open_nodes.insert(id);
        let mut k: usize = 0;
        while k < num
            invariant
                self.wf(),
                self.nodes == old(self).nodes,
                self.root_id == old(self).root_id,
                self.selected_id == old(self).selected_id,
                self.visible_start_id == old(self).visible_start_id,
                k <= num,
                forall|x: Id|
                    self.open_nodes@.contains(x) <==> (old(self).open_nodes@.contains(x) || x == id
                        || (exists|m: int|
                        0 <= m < k && in_subtree_of(
                            ns,
                            kids_of(ns, id as int)[m] as int,
                            x as int,
                        ) && kids_of(ns, x as int).len() > 0)),
            decreases num - k,
        {
            let ghost pre = self.open_nodes@;
            let child = self.nodes[id].children[k];
            proof {
                assert(kids_of(self.nodes@, id as int)[k as int] == child);
                assert(id < child && child < self.n());
            }
            self.expand_rec(child);
            proof {
                assert forall|x: Id|
                    self.open_nodes@.contains(x) <==> (old(self).open_nodes@.contains(x) || x == id
                        || (exists|m: int|
                        0 <= m < k + 1 && in_subtree_of(
                            ns,
                            kids_of(ns, id as int)[m] as int,
                            x as int,
                        ) && kids_of(ns, x as int).len() > 0)) by {
                    if self.open_nodes@.contains(x) {
                        if pre.contains(x) {
                            if !old(self).open_nodes@.contains(x) && x != id {
                                let m = choose|m: int|
                                    0 <= m < k && in_subtree_of(
                                        ns,
                                        kids_of(ns, id as int)[m] as int,
                                        x as int,
                                    ) && kids_of(ns, x as int).len() > 0;
                                assert(0 <= m < k + 1 && in_subtree_of(
                                    ns,
                                    kids_of(ns, id as int)[m] as int,
                                    x as int,
                                ) && kids_of(ns, x as int).len() > 0);
                            }
                        } else {
                            assert(in_subtree_of(ns, child as int, x as int) && kids_of(
                                ns,
                                x as int,
                            ).len() > 0);
                            assert(kids_of(ns, id as int)[k as int] == child);
                        }
                    } else {
                        if exists|m: int|
                            0 <= m < k + 1 && in_subtree_of(
                                ns,
                                kids_of(ns, id as int)[m] as int,
                                x as int,
                            ) && kids_of(ns, x as int).len() > 0 {
                            let m = choose|m: int|
                                0 <= m < k + 1 && in_subtree_of(
                                    ns,
                                    kids_of(ns, id as int)[m] as int,
                                    x as int,
                                ) && kids_of(ns, x as int).len() > 0;
                            if m < k {
                                assert(pre.contains(x));
                            } else {
                                assert(in_subtree_of(ns, child as int, x as int));
                            }
                            assert(false);
                        }
                    }
                }
            }
            k = k + 1;
        }
        proof {
            assert forall|x: Id|
                self.open_nodes@.contains(x) <==> (old(self).open_nodes@.contains(x) || (
                in_subtree_of(ns, id as int, x as int) && kids_of(ns, x as int).len() > 0)) by {
                if self.open_nodes@.contains(x) && !old(self).open_nodes@.contains(x) {
                    if x == id {
                        assert(in_subtree_of(ns, id as int, id as int));
                    } else {
                        let m = choose|m: int|
                            0 <= m < num && in_subtree_of(
                                ns,
                                kids_of(ns, id as int)[m] as int,
                                x as int,
                            ) && kids_of(ns, x as int).len() > 0;
                        assert(in_subtree_of(ns, id as int, id as int));
                        assert(in_subtree_of(ns, id as int, kids_of(ns, id as int)[m] as int));
                        crate::laws::lemma_subtree_trans(
                            ns,
                            id as int,
                            kids_of(ns, id as int)[m] as int,
                            x as int,
                        );
                    }
                }
                if !self.open_nodes@.contains(x) && in_subtree_of(ns, id as int, x as int)
                    && kids_of(ns, x as int).len() > 0 {
                    if x != id {
                        crate::laws::lemma_subtree_ge(ns, id as int, x as int);
                        if x < self.n() {
                            old(self).lemma_subtree_child(id as int, x as int);
                        }
                    }
                    assert(false);
                }
            }
        }
    }

    /// Close `id` and every descendant of `id` that has children; nodes keep
    /// no other state, so a later `expand_recursive` reveals the same shape.
    /// Does nothing when `id` has no children.
    pub fn collapse_recursive(&mut self, id: Id)
        requires
            old(self).wf(),
            old(self).valid(id as int),
        ensures
            final(self).wf(),
            final(self).nodes == old(self).nodes,
            final(self).root_id == old(self).root_id,
            final(self).selected_id == old(self).selected_id,
            final(self).visible_start_id == old(self).visible_start_id,
            forall|x: Id|
                final(self).open_nodes@.contains(x) <==> (old(self).open_nodes@.contains(x) && !(
                kids_of(old(self).nodes@, id as int).len() > 0 && in_subtree_of(
                    old(self).nodes@,
                    id as int,
                    x as int,
                ) && kids_of(old(self).nodes@, x as int).len() > 0)),
    {
        if self.nodes[id].children.len() == 0 {
            return ;
        }
        self.collapse_rec(id);
    }

    /// Remove every node of `id`'s subtree that has children from the open
    /// set.
    #[verifier::loop_isolation(false)]
    #[verifier::rlimit(80)]
    fn collapse_rec(&mut self, id: Id)
        requires
            old(self).wf(),
            old(self).valid(id as int),
        ensures
            final(self).wf(),
            final(self).nodes == old(self).nodes,
            final(self).root_id == old(self).root_id,
            final(self).selected_id == old(self).selected_id,
            final(self).visible_start_id == old(self).visible_start_id,
            forall|x: Id|
                final(self).open_nodes@.contains(x) <==> (old(self).open_nodes@.contains(x) && !(
                in_subtree_of(old(self).nodes@, id as int, x as int) && kids_of(
                    old(self).nodes@,
                    x as int,
                ).len() > 0)),
        decreases old(self).n() - id,
    {
        let ghost ns = old(self).nodes@;
        let num = self.nodes[id].children.len();
        if num == 0 {
            proof {
                assert forall|x: Id|
                    self.open_nodes@.contains(x) <==> (old(self).open_nodes@.contains(x) && !(
                    in_subtree_of(ns, id as int, x as int) && kids_of(ns, x as int).len()
                        > 0)) by {
                    if in_subtree_of(ns, id as int, x as int) && x as int != id as int && x
                        < self.n() {
                        old(self).lemma_subtree_child(id as int, x as int);
                    }
                }
            }
            return ;
        }
        self.open_nodes.remove(&id);
        proof {
            assert forall|x: Id| #[trigger] self.open_nodes@.contains(x) implies x
                < self.nodes@.len() by {
                assert(old(self).open_nodes@.contains(x));
            }
            TreeWidget::lemma_same_tree_wf(*old(self), *self);
        }
        let mut k: usize = 0;
        while k < num
            invariant
                self.wf(),
                self.nodes == old(self).nodes,
                self.root_id == old(self).root_id,
                self.selected_id == old(self).selected_id,
                self.visible_start_id == old(self).visible_start_id,
                k <= num,
                forall|x: Id|
                    self.open_nodes@.contains(x) <==> (old(self).open_nodes@.contains(x) && x != id
                        && !(exists|m: int|
                        0 <= m < k && in_subtree_of(
                            ns,
                            kids_of(ns, id as int)[m] as int,
                            x as int,
                        ) && kids_of(ns, x as int).len() > 0)),
            decreases num - k,
        {
            let ghost pre = self.open_nodes@;
            let child = self.nodes[id].children[k];
            self.collapse_rec(child);
            proof {
                assert forall|x: Id|
                    self.open_nodes@.contains(x) <==> (old(self).open_nodes@.contains(x) && x != id
                        && !(exists|m: int|
                        0 <= m < k + 1 && in_subtree_of(
                            ns,
                            kids_of(ns, id as int)[m] as int,
                            x as int,
                        ) && kids_of(ns, x as int).len() > 0)) by {
                    assert(kids_of(ns, id as int)[k as int] == child);
                    if self.open_nodes@.contains(x) {
                        if exists|m: int|
                            0 <= m < k + 1 && in_subtree_of(
                                ns,
                                kids_of(ns, id as int)[m] as int,
                                x as int,
                            ) && kids_of(ns, x as int).len() > 0 {
                            let m = choose|m: int|
                                0 <= m < k + 1 && in_subtree_of(
                                    ns,
                                    kids_of(ns, id as int)[m] as int,
                                    x as int,
                                ) && kids_of(ns, x as int).len() > 0;
                            if m == k {
                                assert(!self.open_nodes@.contains(x));
                            } else {
                                assert(!pre.contains(x));
                            }
                            assert(false);
                        }
                    } else {
                        if old(self).open_nodes@.contains(x) && x != id {
                            if pre.contains(x) {
                                // removed by the recursive call on `child`
                                assert(in_subtree_of(ns, child as int, x as int) && kids_of(
                                    ns,
                                    x as int,
                                ).len() > 0);
                            } else {
                                let m = choose|m: int|
                                    0 <= m < k && in_subtree_of(
                                        ns,
                                        kids_of(ns, id as int)[m] as int,
                                        x as int,
                                    ) && kids_of(ns, x as int).len() > 0;
                                assert(0 <= m < k + 1 && in_subtree_of(
                                    ns,
                                    kids_of(ns, id as int)[m] as int,
                                    x as int,
                                ) && kids_of(ns, x as int).len() > 0);
                            }
                        }
                    }
                }
            }
            k = k + 1;
        }
        proof {
            assert forall|x: Id|
                self.open_nodes@.contains(x) <==> (old(self).open_nodes@.contains(x) && !(
                in_subtree_of(ns, id as int, x as int) && kids_of(ns, x as int).len() > 0)) by {
                if self.open_nodes@.contains(x) {
                    if in_subtree_of(ns, id as int, x as int) && kids_of(ns, x as int).len() > 0 {
                        if x != id {
                            crate::laws::lemma_subtree_ge(ns, id as int, x as int);
                            if x < self.n() {
                                old(self).lemma_subtree_child(id as int, x as int);
                            }
                        }
                        assert(false);
                    }
                } else {
                    if old(self).open_nodes@.contains(x) && !(in_subtree_of(ns, id as int, x as int)
                        && kids_of(ns, x as int).len() > 0) {
                        if x != id {
                            if exists|m: int|
                                0 <= m < num && in_subtree_of(
                                    ns,
                                    kids_of(ns, id as int)[m] as int,
                                    x as int,
                                ) && kids_of(ns, x as int).len() > 0 {
                                let m = choose|m: int|
                                    0 <= m < num && in_subtree_of(
                                        ns,
                                        kids_of(ns, id as int)[m] as int,
                                        x as int,
                                    ) && kids_of(ns, x as int).len() > 0;
                                assert(in_subtree_of(ns, id as int, id as int));
                                assert(in_subtree_of(
                                    ns,
                                    id as int,
                                    kids_of(ns, id as int)[m] as int,
                                ));
                                crate::laws::lemma_subtree_trans(
                                    ns,
                                    id as int,
                                    kids_of(ns, id as int)[m] as int,
                                    x as int,
                                );
                                assert(false);
                            }
                        }
                        assert(self.open_nodes@.contains(x));
                        assert(false);
                    }
                }
            }
        }
    }

    /// A sequence extended at the front contains exactly the head and the
    /// tail's elements.
    proof fn lemma_cons_contains(st: Seq<Id>, h: Id)
        ensures
            forall|x: Id| #[trigger] (seq![h] + st).contains(x) <==> (x == h || st.contains(x)),
    {
        assert forall|x: Id| #[trigger] (seq![h] + st).contains(x) <==> (x == h || st.contains(
            x,
        )) by {
            if (seq![h] + st).contains(x) {
                let i = choose|i: int| 0 <= i < (seq![h] + st).len() && (seq![h] + st)[i] == x;
                if i > 0 {
                    assert(st[i - 1] == x);
                }
            }
            if x == h {
                assert((seq![h] + st)[0] == x);
            }
            if st.contains(x) {
                let i = choose|i: int| 0 <= i < st.len() && st[i] == x;
                assert((seq![h] + st)[i + 1] == x);
            }
        }
    }

    /// Move the selection to the root.
    pub fn select_first(&mut self)
        requires
            old(self).wf(),
        ensures
            final(self).wf(),
            final(self).nodes == old(self).nodes,
            final(self).root_id == old(self).root_id,
            final(self).visible_start_id == old(self).visible_start_id,
            final(self).open_nodes@ == old(self).open_nodes@,
            final(self).selected_id == old(self).root_id,
    {
        self.selected_id = self.root_id;
    }

    /// Move the selection to the last visible node.
    pub fn select_last(&mut self)
        requires
            old(self).wf(),
        ensures
            final(self).wf(),
            final(self).nodes == old(self).nodes,
            final(self).root_id == old(self).root_id,
            final(self).visible_start_id == old(self).visible_start_id,
            final(self).open_nodes@ == old(self).open_nodes@,
            final(self).selected_id == old(self).vis(0, true).last(),
    {
        let vn = self.visible_nodes();
        proof {
            crate::laws::lemma_vis_props(*self, 0, true);
        }
        self.selected_id = vn[vn.len() - 1];
        proof {
            TreeWidget::lemma_same_tree_wf(*old(self), *self);
        }
    }

    /// Move the selection to its parent, if it has one. Never closes a node.
    pub fn select_parent(&mut self)
        requires
            old(self).wf(),
        ensures
            final(self).wf(),
            final(self).nodes == old(self).nodes,
            final(self).root_id == old(self).root_id,
            final(self).visible_start_id == old(self).visible_start_id,
            final(self).open_nodes@ == old(self).open_nodes@,
            final(self).selected_id == (match old(self).nodes@[old(self).selected_id as int].parent_id {
                Option::Some(p) => p,
                Option::None => old(self).selected_id,
            }),
    {
        match self.nodes[self.selected_id].parent_id {
            Option::Some(p) => {
                self.selected_id = p;
            },
            Option::None => {},
        }
    }

    /// Move the selection into its first child, opening the selected node on
    /// the way down: descending into a closed node reveals it. Does nothing
    /// at a leaf.
    pub fn select_first_child(&mut self)
        requires
            old(self).wf(),
        ensures
            final(self).wf(),
            final(self).nodes == old(self).nodes,
            final(self).root_id == old(self).root_id,
            final(self).visible_start_id == old(self).visible_start_id,
            final(self).selected_id == (if kids_of(
                old(self).nodes@,
                old(self).selected_id as int,
            ).len() > 0 {
                kids_of(old(self).nodes@, old(self).selected_id as int)[0]
            } else {
                old(self).selected_id
            }),
            forall|x: Id|
                final(self).open_nodes@.contains(x) <==> (old(self).open_nodes@.contains(x) || (
                kids_of(old(self).nodes@, old(self).selected_id as int).len() > 0 && chain_of(
                    old(self).nodes@,
                    old(self).selected_id as int,
                ).contains(x))),
            old(self).open_wf() ==> final(self).open_wf(),
    {
        let sel = self.selected_id;
        if self.nodes[sel].children.len() > 0 {
            self.open(sel);
            proof {
                assert(kids_of(self.nodes@, sel as int).contains(
                    kids_of(self.nodes@, sel as int)[0],
                ));
            }
            self.selected_id = self.nodes[sel].children[0];
            proof {
                assert forall|x: Id| #[trigger] self.open_nodes@.contains(x) implies x
                    < self.nodes@.len() by {}
                TreeWidget::lemma_same_tree_wf(*old(self), *self);
            }
        }
    }

    /// Move the selection to the first node of its sibling list. Does
    /// nothing at the root.
    pub fn select_first_sibling(&mut self)
        requires
            old(self).wf(),
        ensures
            final(self).wf(),
            final(self).nodes == old(self).nodes,
            final(self).root_id == old(self).root_id,
            final(self).visible_start_id == old(self).visible_start_id,
            final(self).open_nodes@ == old(self).open_nodes@,
            final(self).selected_id == (match old(self).nodes@[old(self).selected_id as int].parent_id {
                Option::Some(p) => kids_of(old(self).nodes@, p as int)[0],
                Option::None => old(self).selected_id,
            }),
    {
        match self.nodes[self.selected_id].parent_id {
            Option::Some(p) => {
                proof {
                    assert(kids_of(self.nodes@, p as int).contains(self.selected_id));
                    assert(kids_of(self.nodes@, p as int).contains(kids_of(self.nodes@, p as int)[0]));
                }
                self.selected_id = self.nodes[p].children[0];
            },
            Option::None => {},
        }
    }

    /// Move the selection to the last node of its sibling list. Does nothing
    /// at the root.
    pub fn select_last_sibling(&mut self)
        requires
            old(self).wf(),
        ensures
            final(self).wf(),
            final(self).nodes == old(self).nodes,
            final(self).root_id == old(self).root_id,
            final(self).visible_start_id == old(self).visible_start_id,
            final(self).open_nodes@ == old(self).open_nodes@,
            final(self).selected_id == (match old(self).nodes@[old(self).selected_id as int].parent_id {
                Option::Some(p) => kids_of(old(self).nodes@, p as int).last(),
                Option::None => old(self).selected_id,
            }),
    {
        match self.nodes[self.selected_id].parent_id {
            Option::Some(p) => {
                proof {
                    assert(kids_of(self.nodes@, p as int).contains(self.selected_id));
                    assert(kids_of(self.nodes@, p as int).contains(
                        kids_of(self.nodes@, p as int).last(),
                    ));
                }
                let num = self.nodes[p].children.len();
                self.selected_id = self.nodes[p].children[num - 1];
            },
            Option::None => {},
        }
    }

    /// Open the selected node and all of its siblings (and, through the open
    /// invariant, their shared ancestors). Does nothing at the root.
    #[verifier::loop_isolation(false)]
    pub fn expand_siblings_of_selected(&mut self)
        requires
            old(self).wf(),
        ensures
            final(self).wf(),
            final(self).nodes == old(self).nodes,
            final(self).root_id == old(self).root_id,
            final(self).selected_id == old(self).selected_id,
            final(self).visible_start_id == old(self).visible_start_id,
            forall|x: Id|
                final(self).open_nodes@.contains(x) <==> (old(self).open_nodes@.contains(x) || (
                match old(self).nodes@[old(self).selected_id as int].parent_id {
                    Option::Some(p) => kids_of(old(self).nodes@, p as int).contains(x) || chain_of(
                        old(self).nodes@,
                        p as int,
                    ).contains(x),
                    Option::None => false,
                })),
            old(self).open_wf() ==> final(self).open_wf(),
    {
        let ghost ns = old(self).nodes@;
        let sel = self.selected_id;
        match self.nodes[sel].parent_id {
            Option::Some(p) => {
                proof {
                    assert(kids_of(ns, p as int).contains(sel));
                }
                self.open(sel);
                let ghost s1 = self.open_nodes@;
                proof {
                    assert(chain_of(ns, sel as int) == seq![sel] + chain_of(ns, p as int));
                    TreeWidget::lemma_cons_contains(chain_of(ns, p as int), sel);
                }
                let num = self.nodes[p].children.len();
                let mut k: usize = 0;
                while k < num
                    invariant
                        self.nodes == old(self).nodes,
                        self.root_id == old(self).root_id,
                        self.selected_id == old(self).selected_id,
                        self.visible_start_id == old(self).visible_start_id,
                        k <= num,
                        forall|x: Id|
                            #[trigger] self.open_nodes@.contains(x) <==> (s1.contains(x) || (
                            exists|m: int|
                                0 <= m < k && #[trigger] kids_of(ns, p as int)[m] == x)),
                    decreases num - k,
                {
                    let ghost pre = self.open_nodes@;
                    let sib = self.nodes[p].children[k];
                    self.open_nodes.insert(sib);
                    proof {
                        assert(kids_of(ns, p as int)[k as int] == sib);
                        assert forall|x: Id|
                            #[trigger] self.open_nodes@.contains(x) <==> (s1.contains(x) || (
                            exists|m: int|
                                0 <= m < k + 1 && #[trigger] kids_of(ns, p as int)[m] == x)) by {
                            if self.open_nodes@.contains(x) {
                                if x == sib {
                                    assert(kids_of(ns, p as int)[k as int] == x);
                                } else {
                                    assert(pre.contains(x));
                                    if !s1.contains(x) {
                                        let m = choose|m: int|
                                            0 <= m < k && kids_of(ns, p as int)[m] == x;
                                        assert(kids_of(ns, p as int)[m] == x && m < k + 1);
                                    }
                                }
                            } else {
                                if exists|m: int| 0 <= m < k + 1 && kids_of(ns, p as int)[m] == x {
                                    let m = choose|m: int|
                                        0 <= m < k + 1 && kids_of(ns, p as int)[m] == x;
                                    if m < k {
                                        assert(pre.contains(x));
                                    } else {
                                        assert(x == sib);
                                    }
                                    assert(false);
                                }
                            }
                        }
                    }
                    k = k + 1;
                }
                proof {
                    assert forall|x: Id|
                        self.open_nodes@.contains(x) <==> (old(self).open_nodes@.contains(x) || (
                        kids_of(ns, p as int).contains(x) || chain_of(ns, p as int).contains(
                            x,
                        ))) by {
                        if self.open_nodes@.contains(x) && !s1.contains(x) {
                            let m = choose|m: int| 0 <= m < num && kids_of(ns, p as int)[m] == x;
                            assert(kids_of(ns, p as int).contains(x));
                        }
                        if kids_of(ns, p as int).contains(x) {
                            let m = choose|m: int|
                                0 <= m < kids_of(ns, p as int).len() && kids_of(ns, p as int)[m]
                                    == x;
                            assert(self.open_nodes@.contains(x));
                        }
                        if chain_of(ns, p as int).contains(x) {
                            assert(chain_of(ns, sel as int).contains(x));
                            assert(s1.contains(x));
                        }
                    }
                    assert forall|x: Id| #[trigger] self.open_nodes@.contains(x) implies x
                        < self.nodes@.len() by {
                        if kids_of(ns, p as int).contains(x) {
                        } else if !old(self).open_nodes@.contains(x) {
                            old(self).lemma_chain_props(p as int);
                            let j = choose|j: int|
                                0 <= j < chain_of(ns, p as int).len() && chain_of(ns, p as int)[j]
                                    == x;
                        }
                    }
                    TreeWidget::lemma_same_tree_wf(*old(self), *self);
                    if old(self).open_wf() {
                        old(self).lemma_chain_props(p as int);
                        assert forall|x: Id| #[trigger] self.open_nodes@.contains(x) implies
                            self.valid(x as int) && (self.nodes@[x as int].parent_id matches Some(q)
                            ==> self.open_nodes@.contains(q)) by {
                            if old(self).open_nodes@.contains(x) {
                            } else if kids_of(ns, p as int).contains(x) {
                                // a sibling's parent is p, the head of p's chain
                                let m = choose|m: int|
                                    0 <= m < kids_of(ns, p as int).len() && kids_of(ns, p as int)[m]
                                        == x;
                                assert(ns[x as int].parent_id == Some(p));
                                assert(chain_of(ns, p as int)[0] == p);
                                assert(chain_of(ns, p as int).contains(p));
                            } else {
                                let j = choose|j: int|
                                    0 <= j < chain_of(ns, p as int).len() && chain_of(
                                        ns,
                                        p as int,
                                    )[j] == x;
                                if j < chain_of(ns, p as int).len() - 1 {
                                    assert(ns[x as int].parent_id == Some(
                                        chain_of(ns, p as int)[j + 1],
                                    ));
                                    assert(chain_of(ns, p as int).contains(
                                        chain_of(ns, p as int)[j + 1],
                                    ));
                                }
                            }
                        }
                    }
                }
            },
            Option::None => {},
        }
    }

    /// Close the selected node and all of its siblings. Does nothing at the
    /// root.
    #[verifier::loop_isolation(false)]
    pub fn collapse_siblings_of_selected(&mut self)
        requires
            old(self).wf(),
        ensures
            final(self).wf(),
            final(self).nodes == old(self).nodes,
            final(self).root_id == old(self).root_id,
            final(self).selected_id == old(self).selected_id,
            final(self).visible_start_id == old(self).visible_start_id,
            forall|x: Id|
                final(self).open_nodes@.contains(x) <==> (old(self).open_nodes@.contains(x) && !(
                match old(self).nodes@[old(self).selected_id as int].parent_id {
                    Option::Some(p) => kids_of(old(self).nodes@, p as int).contains(x),
                    Option::None => false,
                })),
    {
        let ghost ns = old(self).nodes@;
        match self.nodes[self.selected_id].parent_id {
            Option::Some(p) => {
                proof {
                    assert(kids_of(ns, p as int).contains(self.selected_id));
                }
                let num = self.nodes[p].children.len();
                let mut k: usize = 0;
                while k < num
                    invariant
                        self.wf(),
                        self.nodes == old(self).nodes,
                        self.root_id == old(self).root_id,
                        self.selected_id == old(self).selected_id,
                        self.visible_start_id == old(self).visible_start_id,
                        k <= num,
                        forall|x: Id|
                            self.open_nodes@.contains(x) <==> (old(self).open_nodes@.contains(x)
                                && !(exists|m: int| 0 <= m < k && kids_of(ns, p as int)[m] == x)),
                    decreases num - k,
                {
                    let ghost pre = self.open_nodes@;
                    let sib = self.nodes[p].children[k];
                    proof {
                        assert(kids_of(ns, p as int).contains(sib));
                    }
                    self.close(sib);
                    proof {
                        assert forall|x: Id|
                            self.open_nodes@.contains(x) <==> (old(self).open_nodes@.contains(x)
                                && !(exists|m: int|
                            0 <= m < k + 1 && kids_of(ns, p as int)[m] == x)) by {
                            assert(kids_of(ns, p as int)[k as int] == sib);
                            if self.open_nodes@.contains(x) {
                                if exists|m: int| 0 <= m < k + 1 && kids_of(ns, p as int)[m] == x {
                                    let m = choose|m: int|
                                        0 <= m < k + 1 && kids_of(ns, p as int)[m] == x;
                                    if m < k {
                                        assert(!pre.contains(x));
                                    } else {
                                        assert(x == sib);
                                    }
                                    assert(false);
                                }
                            } else {
                                if old(self).open_nodes@.contains(x) && !(exists|m: int|
                                    0 <= m < k && kids_of(ns, p as int)[m] == x) {
                                    assert(x == sib);
                                    assert(kids_of(ns, p as int)[k as int] == x);
                                }
                            }
                        }
                    }
                    k = k + 1;
                }
            },
            Option::None => {},
        }
    }

    /// Index of `x` in a duplicate-free vector that contains it.
    #[verifier::loop_isolation(false)]
    fn position_of(v: &Vec<Id>, x: Id) -> (r: usize)
        requires
            v@.contains(x),
            forall|j1: int, j2: int| 0 <= j1 < j2 < v@.len() ==> v@[j1] != v@[j2],
        ensures
            r < v@.len(),
            v@[r as int] == x,
            r == v@.index_of(x),
    {
        let mut i: usize = 0;
        loop
            invariant
                0 <= i <= v@.len(),
                forall|j: int| 0 <= j < i ==> v@[j] != x,
            decreases v@.len() - i,
        {
            if i >= v.len() {
                proof {
                    let j = choose|j: int| 0 <= j < v@.len() && v@[j] == x;
                    assert(false);
                }
                return 0;
            }
            if v[i] == x {
                proof {
                    let j = v@.index_of(x);
                    assert(v@.contains(x));
                    if j != i as int {
                        assert(v@[j] == x && v@[i as int] == x);
                        assert(false);
                    }
                }
                return i;
            }
            i = i + 1;
        }
    }

    /// Whether the selected node is reachable through open ancestors.
    #[verifier::loop_isolation(false)]
    pub fn selection_visible(&self) -> (r: bool)
        requires
            self.wf(),
        ensures
            r == self.vis(0, true).contains(self.selected_id),
    {
        let vn = self.visible_nodes();
        let mut i: usize = 0;
        loop
            invariant
                0 <= i <= vn@.len(),
                forall|j: int| 0 <= j < i ==> vn@[j] != self.selected_id,
            decreases vn@.len() - i,
        {
            if i >= vn.len() {
                proof {
                    if self.vis(0, true).contains(self.selected_id) {
                        let j = choose|j: int|
                            0 <= j < vn@.len() && vn@[j] == self.selected_id;
                        assert(false);
                    }
                }
                return false;
            }
            if vn[i] == self.selected_id {
                return true;
            }
            i = i + 1;
        }
    }

    /// Whether the viewport start is reachable through open ancestors.
    #[verifier::loop_isolation(false)]
    pub fn viewport_visible(&self) -> (r: bool)
        requires
            self.wf(),
        ensures
            r == self.vis(0, true).contains(self.visible_start_id),
    {
        let vn = self.visible_nodes();
        let mut i: usize = 0;
        loop
            invariant
                0 <= i <= vn@.len(),
                forall|j: int| 0 <= j < i ==> vn@[j] != self.visible_start_id,
            decreases vn@.len() - i,
        {
            if i >= vn.len() {
                proof {
                    if self.vis(0, true).contains(self.visible_start_id) {
                        let j = choose|j: int|
                            0 <= j < vn@.len() && vn@[j] == self.visible_start_id;
                        assert(false);
                    }
                }
                return false;
            }
            if vn[i] == self.visible_start_id {
                return true;
            }
            i = i + 1;
        }
    }

    /// Scroll so the selection is on screen: if it moved above the viewport,
    /// start at it; if it moved `page_size` rows or more below the start,
    /// scroll just enough to keep it on the last row; otherwise stay put.
    pub fn adjust_viewport(&mut self, page_size: usize)
        requires
            old(self).wf(),
            page_size >= 1,
            old(self).vis(0, true).contains(old(self).selected_id),
            old(self).vis(0, true).contains(old(self).visible_start_id),
        ensures
            final(self).wf(),
            final(self).nodes == old(self).nodes,
            final(self).root_id == old(self).root_id,
            final(self).selected_id == old(self).selected_id,
            final(self).open_nodes@ == old(self).open_nodes@,
            final(self).visible_start_id == viewport_start_after(*old(self), page_size as int),
            final(self).vis(0, true).contains(final(self).visible_start_id),
    {
        proof {
            crate::laws::lemma_vis_no_dup(*self, 0, true);
            crate::laws::lemma_vis_props(*self, 0, true);
        }
        let visible = self.visible_nodes();
        let start_idx = TreeWidget::position_of(&visible, self.visible_start_id);
        let sel_idx = TreeWidget::position_of(&visible, self.selected_id);
        if sel_idx < start_idx {
            self.visible_start_id = self.selected_id;
        } else if sel_idx - start_idx >= page_size {
            self.visible_start_id = visible[sel_idx - (page_size - 1)];
            proof {
                assert(visible@.contains(visible@[sel_idx - (page_size - 1)]));
            }
        }
        proof {
            TreeWidget::lemma_same_tree_wf(*old(self), *self);
        }
    }

    /// The rows a renderer must draw for one frame: the viewport is adjusted
    /// to the selection, then up to `page_size` rows are produced from the
    /// viewport start on, each with its node, depth, label and selection
    /// mark.
    #[verifier::loop_isolation(false)]
    pub fn visible_window(&mut self, page_size: usize) -> (r: Vec<VisibleRow>)
        requires
            old(self).wf(),
            page_size >= 1,
            old(self).vis(0, true).contains(old(self).selected_id),
            old(self).vis(0, true).contains(old(self).visible_start_id),
        ensures
            final(self).wf(),
            final(self).nodes == old(self).nodes,
            final(self).root_id == old(self).root_id,
            final(self).selected_id == old(self).selected_id,
            final(self).open_nodes@ == old(self).open_nodes@,
            final(self).visible_start_id == viewport_start_after(*old(self), page_size as int),
            ({
                let v = old(self).vis(0, true);
                let si = v.index_of(viewport_start_after(*old(self), page_size as int));
                &&& r@.len() == (if page_size <= v.len() - si {
                    page_size as int
                } else {
                    v.len() - si
                })
                &&& forall|j: int|
                    0 <= j < r@.len() ==> (#[trigger] r@[j]).id == v[si + j] && r@[j].level
                        == depth_of(old(self).nodes@, v[si + j] as int) && r@[j].text@ == old(
                        self,
                    ).nodes@[v[si + j] as int].text@ && r@[j].selected == (v[si + j] == old(
                        self,
                    ).selected_id)
            }),
    {
        proof {
            crate::laws::lemma_vis_no_dup(*self, 0, true);
            crate::laws::lemma_vis_props(*self, 0, true);
        }
        self.adjust_viewport(page_size);
        let visible = self.visible_nodes();
        let start_idx = TreeWidget::position_of(&visible, self.visible_start_id);
        let ghost si = visible@.index_of(self.visible_start_id);
        let mut r: Vec<VisibleRow> = Vec::new();
        let mut j: usize = 0;
        while j < page_size && j < visible.len() - start_idx
            invariant
                j <= page_size,
                start_idx + j <= visible@.len(),
                start_idx == si,
                r@.len() == j as int,
                forall|m: int|
                    0 <= m < r@.len() ==> (#[trigger] r@[m]).id == visible@[si + m] && r@[m].level
                        == depth_of(self.nodes@, visible@[si + m] as int) && r@[m].text@
                        == self.nodes@[visible@[si + m] as int].text@ && r@[m].selected == (
                    visible@[si + m] == self.selected_id),
            decreases page_size - j,
        {
            let id = visible[start_idx + j];
            let lvl = self.level(id);
            let text = self.nodes[id].text.clone();
            let is_sel = id == self.selected_id;
            r.push(VisibleRow { id, level: lvl, text, selected: is_sel });
            j = j + 1;
        }
        r
    }

}
} // verus!
