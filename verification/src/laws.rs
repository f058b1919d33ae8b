//! The laws of the traversal engine: pre-order traversal visits exactly the
//! visible sequence, forward and backward steps are inverse to each other,
//! navigation sticks at the boundaries, the visible sequence never repeats a
//! node, and the open set is closed under ancestors.

use vstd::prelude::*;
use crate::tree_widget::{
    Id, TreeNode, TreeWidget, chain_of, in_subtree_of, kids_of, last_vis_of, next_of, next_sib_of,
    prev_of, prev_sib_of, up_next_of, vis_kids_of, vis_of,
};

verus! {

/// Subtree membership is transitive.
pub proof fn lemma_subtree_trans(ns: Seq<TreeNode>, a: int, b: int, c: int)
    requires
        in_subtree_of(ns, a, b),
        in_subtree_of(ns, b, c),
    ensures
        in_subtree_of(ns, a, c),
    decreases (if c < 0 { 0int } else { c }),
{
    if c != b {
        match ns[c].parent_id {
            Option::Some(p) => {
                lemma_subtree_trans(ns, a, b, p as int);
            },
            Option::None => {},
        }
    }
}

/// Everything in the subtree of `r` has an id at least `r`.
pub proof fn lemma_subtree_ge(ns: Seq<TreeNode>, r: int, x: int)
    requires
        in_subtree_of(ns, r, x),
    ensures
        x >= r,
    decreases (if x < 0 { 0int } else { x }),
{
    if x != r {
        match ns[x].parent_id {
            Option::Some(p) => {
                lemma_subtree_ge(ns, r, p as int);
            },
            Option::None => {},
        }
    }
}

/// Two different children of the same parent own disjoint subtrees.
pub proof fn lemma_sibling_disjoint(t: TreeWidget, c1: Id, c2: Id, x: int)
    requires
        t.wf(),
        t.valid(c1 as int),
        t.valid(c2 as int),
        c1 != c2,
        t.nodes@[c1 as int].parent_id == t.nodes@[c2 as int].parent_id,
        t.nodes@[c1 as int].parent_id is Some,
    ensures
        !(in_subtree_of(t.nodes@, c1 as int, x) && in_subtree_of(t.nodes@, c2 as int, x)),
    decreases (if x < 0 { 0int } else { x }),
{
    let ns = t.nodes@;
    if in_subtree_of(ns, c1 as int, x) && in_subtree_of(ns, c2 as int, x) {
        if x == c1 {
            // c1 would lie strictly inside its sibling's subtree, but every
            // node there has an id larger than the shared parent's children.
            let p = ns[c1 as int].parent_id->Some_0;
            assert(in_subtree_of(ns, c2 as int, p as int));
            lemma_subtree_ge(ns, c2 as int, p as int);
        } else if x == c2 {
            let p = ns[c2 as int].parent_id->Some_0;
            assert(in_subtree_of(ns, c1 as int, p as int));
            lemma_subtree_ge(ns, c1 as int, p as int);
        } else {
            match ns[x].parent_id {
                Option::Some(q) => {
                    lemma_sibling_disjoint(t, c1, c2, q as int);
                },
                Option::None => {},
            }
        }
    }
}

/// The position of a child inside its parent's children list is unique, and
/// the sibling lookups step exactly one position left or right.
pub proof fn lemma_kid_index(t: TreeWidget, p: int, k: int)
    requires
        t.wf(),
        t.valid(p),
        0 <= k < kids_of(t.nodes@, p).len(),
    ensures
        kids_of(t.nodes@, p).index_of(kids_of(t.nodes@, p)[k]) == k,
        next_sib_of(t.nodes@, p, kids_of(t.nodes@, p)[k]) == (if k + 1 < kids_of(
            t.nodes@,
            p,
        ).len() {
            Option::Some(kids_of(t.nodes@, p)[k + 1])
        } else {
            Option::<Id>::None
        }),
        prev_sib_of(t.nodes@, p, kids_of(t.nodes@, p)[k]) == (if k >= 1 {
            Option::Some(kids_of(t.nodes@, p)[k - 1])
        } else {
            Option::<Id>::None
        }),
{
    let ks = kids_of(t.nodes@, p);
    assert(ks.contains(ks[k]));
    let j = ks.index_of(ks[k]);
    if j != k {
        if j < k {
            assert(ks[j] < ks[k]);
        } else {
            assert(ks[k] < ks[j]);
        }
        assert(false);
    }
}

/// Every entry of a visible subtree listing is a valid node inside that
/// subtree, and the listing starts with the subtree root.
pub proof fn lemma_vis_props(t: TreeWidget, id: int, oo: bool)
    requires
        t.wf(),
        t.valid(id),
    ensures
        vis_of(t.nodes@, t.open_nodes@, id, oo).len() >= 1,
        vis_of(t.nodes@, t.open_nodes@, id, oo)[0] == id as Id,
        forall|j: int|
            0 <= j < vis_of(t.nodes@, t.open_nodes@, id, oo).len() ==> t.valid(
                #[trigger] vis_of(t.nodes@, t.open_nodes@, id, oo)[j] as int,
            ) && in_subtree_of(t.nodes@, id, vis_of(t.nodes@, t.open_nodes@, id, oo)[j] as int),
    decreases t.n() - id, 1int, 0int,
{
    let ns = t.nodes@;
    let op = t.open_nodes@;
    assert(in_subtree_of(ns, id, id));
    if op.contains(id as Id) || !oo {
        lemma_vis_kids_props(t, id, 0, oo);
        let w = vis_kids_of(ns, op, id, 0, oo);
        assert forall|j: int|
            0 <= j < vis_of(ns, op, id, oo).len() implies t.valid(
            #[trigger] vis_of(ns, op, id, oo)[j] as int,
        ) && in_subtree_of(ns, id, vis_of(ns, op, id, oo)[j] as int) by {
            if j > 0 {
                assert(vis_of(ns, op, id, oo)[j] == w[j - 1]);
                let m = choose|m: int|
                    0 <= m < kids_of(ns, id).len() && in_subtree_of(
                        ns,
                        kids_of(ns, id)[m] as int,
                        w[j - 1] as int,
                    );
                assert(in_subtree_of(ns, id, kids_of(ns, id)[m] as int));
                lemma_subtree_trans(ns, id, kids_of(ns, id)[m] as int, w[j - 1] as int);
            } else {
                assert(vis_of(ns, op, id, oo)[j] == id as Id);
            }
        }
    } else {
        assert(vis_of(ns, op, id, oo) =~= seq![id as Id]);
    }
}

/// Companion of [`lemma_vis_props`] for the tail of children listings.
pub proof fn lemma_vis_kids_props(t: TreeWidget, id: int, k: int, oo: bool)
    requires
        t.wf(),
        t.valid(id),
        0 <= k,
    ensures
        forall|j: int|
            0 <= j < vis_kids_of(t.nodes@, t.open_nodes@, id, k, oo).len() ==> t.valid(
                #[trigger] vis_kids_of(t.nodes@, t.open_nodes@, id, k, oo)[j] as int,
            ) && exists|m: int|
                k <= m < kids_of(t.nodes@, id).len() && in_subtree_of(
                    t.nodes@,
                    kids_of(t.nodes@, id)[m] as int,
                    vis_kids_of(t.nodes@, t.open_nodes@, id, k, oo)[j] as int,
                ),
        k < kids_of(t.nodes@, id).len() ==> vis_kids_of(t.nodes@, t.open_nodes@, id, k, oo).len()
            >= 1 && vis_kids_of(t.nodes@, t.open_nodes@, id, k, oo)[0] == kids_of(t.nodes@, id)[k],
    decreases t.n() - id, 0int, kids_of(t.nodes@, id).len() - k,
{
    let ns = t.nodes@;
    let op = t.open_nodes@;
    if k < kids_of(ns, id).len() {
        let c = kids_of(ns, id)[k];
        lemma_vis_props(t, c as int, oo);
        lemma_vis_kids_props(t, id, k + 1, oo);
        let a = vis_of(ns, op, c as int, oo);
        let b = vis_kids_of(ns, op, id, k + 1, oo);
        assert forall|j: int|
            0 <= j < vis_kids_of(ns, op, id, k, oo).len() implies t.valid(
            #[trigger] vis_kids_of(ns, op, id, k, oo)[j] as int,
        ) && exists|m: int|
            k <= m < kids_of(ns, id).len() && in_subtree_of(
                ns,
                kids_of(ns, id)[m] as int,
                vis_kids_of(ns, op, id, k, oo)[j] as int,
            ) by {
            if j < a.len() {
                assert(vis_kids_of(ns, op, id, k, oo)[j] == a[j]);
                assert(in_subtree_of(ns, kids_of(ns, id)[k] as int, a[j] as int));
                assert(k <= k < kids_of(ns, id).len());
            } else {
                assert(vis_kids_of(ns, op, id, k, oo)[j] == b[j - a.len()]);
                let m = choose|m: int|
                    k + 1 <= m < kids_of(ns, id).len() && in_subtree_of(
                        ns,
                        kids_of(ns, id)[m] as int,
                        b[j - a.len()] as int,
                    );
                assert(k <= m < kids_of(ns, id).len() && in_subtree_of(
                    ns,
                    kids_of(ns, id)[m] as int,
                    vis_kids_of(ns, op, id, k, oo)[j] as int,
                ));
            }
        }
    }
}

/// The visible sequence of a subtree never lists a node twice.
pub proof fn lemma_vis_no_dup(t: TreeWidget, id: int, oo: bool)
    requires
        t.wf(),
        t.valid(id),
    ensures
        forall|j1: int, j2: int|
            0 <= j1 < j2 < vis_of(t.nodes@, t.open_nodes@, id, oo).len() ==> #[trigger] vis_of(
                t.nodes@,
                t.open_nodes@,
                id,
                oo,
            )[j1] != #[trigger] vis_of(t.nodes@, t.open_nodes@, id, oo)[j2],
    decreases t.n() - id, 1int, 0int,
{
    let ns = t.nodes@;
    let op = t.open_nodes@;
    if op.contains(id as Id) || !oo {
        lemma_vis_kids_no_dup(t, id, 0, oo);
        lemma_vis_kids_props(t, id, 0, oo);
        let w = vis_kids_of(ns, op, id, 0, oo);
        assert forall|j1: int, j2: int|
            0 <= j1 < j2 < vis_of(ns, op, id, oo).len() implies #[trigger] vis_of(
            ns,
            op,
            id,
            oo,
        )[j1] != #[trigger] vis_of(ns, op, id, oo)[j2] by {
            if j1 == 0 {
                // the subtree root cannot reappear below one of its children,
                // whose subtrees hold only larger ids
                let m = choose|m: int|
                    0 <= m < kids_of(ns, id).len() && in_subtree_of(
                        ns,
                        kids_of(ns, id)[m] as int,
                        w[j2 - 1] as int,
                    );
                lemma_subtree_ge(ns, kids_of(ns, id)[m] as int, w[j2 - 1] as int);
            } else {
                assert(vis_of(ns, op, id, oo)[j1] == w[j1 - 1]);
                assert(vis_of(ns, op, id, oo)[j2] == w[j2 - 1]);
            }
        }
    }
}

/// Companion of [`lemma_vis_no_dup`] for the tail of children listings.
pub proof fn lemma_vis_kids_no_dup(t: TreeWidget, id: int, k: int, oo: bool)
    requires
        t.wf(),
        t.valid(id),
        0 <= k,
    ensures
        forall|j1: int, j2: int|
            0 <= j1 < j2 < vis_kids_of(t.nodes@, t.open_nodes@, id, k, oo).len()
                ==> #[trigger] vis_kids_of(t.nodes@, t.open_nodes@, id, k, oo)[j1]
                != #[trigger] vis_kids_of(t.nodes@, t.open_nodes@, id, k, oo)[j2],
    decreases t.n() - id, 0int, kids_of(t.nodes@, id).len() - k,
{
    let ns = t.nodes@;
    let op = t.open_nodes@;
    if k < kids_of(ns, id).len() {
        let c = kids_of(ns, id)[k];
        lemma_vis_no_dup(t, c as int, oo);
        lemma_vis_kids_no_dup(t, id, k + 1, oo);
        lemma_vis_props(t, c as int, oo);
        lemma_vis_kids_props(t, id, k + 1, oo);
        let a = vis_of(ns, op, c as int, oo);
        let b = vis_kids_of(ns, op, id, k + 1, oo);
        assert forall|j1: int, j2: int|
            0 <= j1 < j2 < vis_kids_of(ns, op, id, k, oo).len() implies #[trigger] vis_kids_of(
            ns,
            op,
            id,
            k,
            oo,
        )[j1] != #[trigger] vis_kids_of(ns, op, id, k, oo)[j2] by {
            if j1 < a.len() && j2 >= a.len() {
                // an entry under child `k` cannot equal an entry under a
                // later child: sibling subtrees are disjoint
                assert(vis_kids_of(ns, op, id, k, oo)[j1] == a[j1]);
                assert(vis_kids_of(ns, op, id, k, oo)[j2] == b[j2 - a.len()]);
                if vis_kids_of(ns, op, id, k, oo)[j1] == vis_kids_of(ns, op, id, k, oo)[j2] {
                    let x = a[j1];
                    assert(in_subtree_of(ns, c as int, x as int));
                    let m = choose|m: int|
                        k + 1 <= m < kids_of(ns, id).len() && in_subtree_of(
                            ns,
                            kids_of(ns, id)[m] as int,
                            b[j2 - a.len()] as int,
                        );
                    lemma_sibling_disjoint(t, c, kids_of(ns, id)[m], x as int);
                }
            } else if j1 < a.len() && j2 < a.len() {
                assert(vis_kids_of(ns, op, id, k, oo)[j1] == a[j1]);
                assert(vis_kids_of(ns, op, id, k, oo)[j2] == a[j2]);
            } else {
                assert(vis_kids_of(ns, op, id, k, oo)[j1] == b[j1 - a.len()]);
                assert(vis_kids_of(ns, op, id, k, oo)[j2] == b[j2 - a.len()]);
            }
        }
    }
}

/// Stepping forward with `next` walks the visible subtree listing in order,
/// and from its last entry climbs out of the subtree.
pub proof fn lemma_next_in_vis(t: TreeWidget, id: int, oo: bool)
    requires
        t.wf(),
        t.valid(id),
    ensures
        forall|j: int|
            0 <= j < vis_of(t.nodes@, t.open_nodes@, id, oo).len() - 1 ==> next_of(
                t.nodes@,
                t.open_nodes@,
                #[trigger] vis_of(t.nodes@, t.open_nodes@, id, oo)[j] as int,
                oo,
            ) == Option::Some(vis_of(t.nodes@, t.open_nodes@, id, oo)[j + 1]),
        next_of(
            t.nodes@,
            t.open_nodes@,
            vis_of(t.nodes@, t.open_nodes@, id, oo).last() as int,
            oo,
        ) == up_next_of(t.nodes@, id),
    decreases t.n() - id, 1int, 0int,
{
    let ns = t.nodes@;
    let op = t.open_nodes@;
    let v = vis_of(ns, op, id, oo);
    lemma_vis_props(t, id, oo);
    if (op.contains(id as Id) || !oo) && kids_of(ns, id).len() > 0 {
        lemma_next_in_kids(t, id, 0, oo);
        lemma_vis_kids_props(t, id, 0, oo);
        let w = vis_kids_of(ns, op, id, 0, oo);
        assert(w.len() >= 1);
        assert(v.len() == 1 + w.len());
        assert(v.last() == w.last());
        assert(next_of(ns, op, w.last() as int, oo) == up_next_of(ns, id));
        assert forall|j: int|
            0 <= j < v.len() - 1 implies next_of(ns, op, #[trigger] v[j] as int, oo)
            == Option::Some(v[j + 1]) by {
            if j == 0 {
                assert(v[1] == w[0]);
                assert(next_of(ns, op, id, oo) == Option::Some(kids_of(ns, id)[0]));
            } else {
                assert(v[j] == w[j - 1]);
                assert(v[j + 1] == w[j]);
            }
        }
        assert(next_of(ns, op, v.last() as int, oo) == up_next_of(ns, id));
    } else {
        assert(v =~= seq![id as Id]);
        assert(v.last() == id as Id);
        assert(next_of(ns, op, v.last() as int, oo) == up_next_of(ns, id));
    }
}

/// Companion of [`lemma_next_in_vis`] for the tail of children listings.
#[verifier::rlimit(100)]
pub proof fn lemma_next_in_kids(t: TreeWidget, id: int, k: int, oo: bool)
    requires
        t.wf(),
        t.valid(id),
        0 <= k < kids_of(t.nodes@, id).len(),
    ensures
        forall|j: int|
            0 <= j < vis_kids_of(t.nodes@, t.open_nodes@, id, k, oo).len() - 1 ==> next_of(
                t.nodes@,
                t.open_nodes@,
                #[trigger] vis_kids_of(t.nodes@, t.open_nodes@, id, k, oo)[j] as int,
                oo,
            ) == Option::Some(vis_kids_of(t.nodes@, t.open_nodes@, id, k, oo)[j + 1]),
        next_of(
            t.nodes@,
            t.open_nodes@,
            vis_kids_of(t.nodes@, t.open_nodes@, id, k, oo).last() as int,
            oo,
        ) == up_next_of(t.nodes@, id),
    decreases t.n() - id, 0int, kids_of(t.nodes@, id).len() - k,
{
    let ns = t.nodes@;
    let op = t.open_nodes@;
    let c = kids_of(ns, id)[k];
    let a = vis_of(ns, op, c as int, oo);
    let b = vis_kids_of(ns, op, id, k + 1, oo);
    let w = vis_kids_of(ns, op, id, k, oo);
    assert(id < c < ns.len());
    assert(w =~= a + b);
    lemma_vis_props(t, c as int, oo);
    lemma_next_in_vis(t, c as int, oo);
    lemma_kid_index(t, id, k);
    // what `next` finds when it climbs out of child `c`'s subtree
    assert(up_next_of(ns, c as int) == (if k + 1 < kids_of(ns, id).len() {
        Option::Some(kids_of(ns, id)[k + 1])
    } else {
        up_next_of(ns, id)
    }));
    if k + 1 < kids_of(ns, id).len() {
        lemma_next_in_kids(t, id, k + 1, oo);
        lemma_vis_kids_props(t, id, k + 1, oo);
        assert(w.last() == b.last());
        assert forall|j: int|
            0 <= j < w.len() - 1 implies next_of(ns, op, #[trigger] w[j] as int, oo)
            == Option::Some(w[j + 1]) by {
            if j < a.len() - 1 {
                assert(w[j] == a[j]);
                assert(w[j + 1] == a[j + 1]);
            } else if j == a.len() - 1 {
                assert(w[j] == a.last());
                assert(w[j + 1] == b[0]);
                assert(b[0] == kids_of(ns, id)[k + 1]);
            } else {
                assert(w[j] == b[j - a.len()]);
                assert(w[j + 1] == b[j + 1 - a.len()]);
            }
        }
    } else {
        assert(b =~= Seq::<Id>::empty());
        assert(w =~= a);
        assert forall|j: int|
            0 <= j < w.len() - 1 implies next_of(ns, op, #[trigger] w[j] as int, oo)
            == Option::Some(w[j + 1]) by {
            assert(w[j] == a[j]);
            assert(w[j + 1] == a[j + 1]);
        }
    }
}

/// The last entry of a visible subtree listing is the node found by
/// repeatedly descending to the last reachable child.
pub proof fn lemma_vis_last(t: TreeWidget, id: int, oo: bool)
    requires
        t.wf(),
        t.valid(id),
    ensures
        vis_of(t.nodes@, t.open_nodes@, id, oo).last() == last_vis_of(
            t.nodes@,
            t.open_nodes@,
            id,
            oo,
        ),
    decreases t.n() - id, 1int, 0int,
{
    let ns = t.nodes@;
    let op = t.open_nodes@;
    lemma_vis_props(t, id, oo);
    if (op.contains(id as Id) || !oo) && kids_of(ns, id).len() > 0 {
        lemma_vis_kids_last(t, id, 0, oo);
        lemma_vis_kids_props(t, id, 0, oo);
        assert(kids_of(ns, id).last() == kids_of(ns, id)[kids_of(ns, id).len() - 1]);
        assert(kids_of(ns, id).contains(kids_of(ns, id).last()));
    } else {
        assert(vis_of(ns, op, id, oo) =~= seq![id as Id]);
    }
}

/// Companion of [`lemma_vis_last`]: the tail listing ends inside the last
/// child's subtree.
pub proof fn lemma_vis_kids_last(t: TreeWidget, id: int, k: int, oo: bool)
    requires
        t.wf(),
        t.valid(id),
        0 <= k < kids_of(t.nodes@, id).len(),
    ensures
        vis_kids_of(t.nodes@, t.open_nodes@, id, k, oo).last() == last_vis_of(
            t.nodes@,
            t.open_nodes@,
            kids_of(t.nodes@, id).last() as int,
            oo,
        ),
    decreases t.n() - id, 0int, kids_of(t.nodes@, id).len() - k,
{
    let ns = t.nodes@;
    let op = t.open_nodes@;
    let c = kids_of(ns, id)[k];
    lemma_vis_props(t, c as int, oo);
    if k + 1 < kids_of(ns, id).len() {
        lemma_vis_kids_last(t, id, k + 1, oo);
        lemma_vis_kids_props(t, id, k + 1, oo);
    } else {
        assert(vis_kids_of(ns, op, id, k + 1, oo) =~= Seq::<Id>::empty());
        assert(vis_kids_of(ns, op, id, k, oo) =~= vis_of(ns, op, c as int, oo));
        assert(c == kids_of(ns, id).last());
        lemma_vis_last(t, c as int, oo);
    }
}

/// Stepping backward with `prev` walks the visible subtree listing in
/// reverse; the first entry of a child block steps back to what precedes it.
pub proof fn lemma_prev_in_vis(t: TreeWidget, id: int, oo: bool)
    requires
        t.wf(),
        t.valid(id),
    ensures
        forall|j: int|
            1 <= j < vis_of(t.nodes@, t.open_nodes@, id, oo).len() ==> prev_of(
                t.nodes@,
                t.open_nodes@,
                #[trigger] vis_of(t.nodes@, t.open_nodes@, id, oo)[j] as int,
                oo,
            ) == Option::Some(vis_of(t.nodes@, t.open_nodes@, id, oo)[j - 1]),
    decreases t.n() - id, 1int, 0int,
{
    let ns = t.nodes@;
    let op = t.open_nodes@;
    let v = vis_of(ns, op, id, oo);
    lemma_vis_props(t, id, oo);
    if (op.contains(id as Id) || !oo) && kids_of(ns, id).len() > 0 {
        lemma_prev_in_kids(t, id, 0, oo);
        lemma_vis_kids_props(t, id, 0, oo);
        let w = vis_kids_of(ns, op, id, 0, oo);
        assert forall|j: int|
            1 <= j < v.len() implies prev_of(ns, op, #[trigger] v[j] as int, oo) == Option::Some(
            v[j - 1],
        ) by {
            if j == 1 {
                assert(v[1] == w[0]);
                assert(w[0] == kids_of(ns, id)[0]);
                lemma_kid_index(t, id, 0);
                assert(prev_of(ns, op, w[0] as int, oo) == Option::Some(id as Id));
            } else {
                assert(v[j] == w[j - 1]);
                assert(v[j - 1] == w[j - 2]);
            }
        }
    }
}

/// Companion of [`lemma_prev_in_vis`] for the tail of children listings.
#[verifier::rlimit(60)]
pub proof fn lemma_prev_in_kids(t: TreeWidget, id: int, k: int, oo: bool)
    requires
        t.wf(),
        t.valid(id),
        0 <= k < kids_of(t.nodes@, id).len(),
    ensures
        forall|j: int|
            1 <= j < vis_kids_of(t.nodes@, t.open_nodes@, id, k, oo).len() ==> prev_of(
                t.nodes@,
                t.open_nodes@,
                #[trigger] vis_kids_of(t.nodes@, t.open_nodes@, id, k, oo)[j] as int,
                oo,
            ) == Option::Some(vis_kids_of(t.nodes@, t.open_nodes@, id, k, oo)[j - 1]),
    decreases t.n() - id, 0int, kids_of(t.nodes@, id).len() - k,
{
    let ns = t.nodes@;
    let op = t.open_nodes@;
    let c = kids_of(ns, id)[k];
    let a = vis_of(ns, op, c as int, oo);
    let b = vis_kids_of(ns, op, id, k + 1, oo);
    let w = vis_kids_of(ns, op, id, k, oo);
    lemma_vis_props(t, c as int, oo);
    lemma_prev_in_vis(t, c as int, oo);
    if k + 1 < kids_of(ns, id).len() {
        lemma_prev_in_kids(t, id, k + 1, oo);
        lemma_vis_kids_props(t, id, k + 1, oo);
        lemma_kid_index(t, id, k + 1);
        lemma_vis_last(t, c as int, oo);
        assert forall|j: int|
            1 <= j < w.len() implies prev_of(ns, op, #[trigger] w[j] as int, oo) == Option::Some(
            w[j - 1],
        ) by {
            if j < a.len() {
                assert(w[j] == a[j]);
                assert(w[j - 1] == a[j - 1]);
            } else if j == a.len() {
                // first entry after child `k`'s block is the next sibling;
                // stepping back from it descends to the block's last entry
                assert(w[j] == b[0]);
                assert(b[0] == kids_of(ns, id)[k + 1]);
                assert(w[j - 1] == a.last());
                assert(prev_of(ns, op, kids_of(ns, id)[k + 1] as int, oo) == Option::Some(
                    last_vis_of(ns, op, c as int, oo),
                ));
            } else {
                assert(w[j] == b[j - a.len()]);
                assert(w[j - 1] == b[j - 1 - a.len()]);
            }
        }
    } else {
        assert(b =~= Seq::<Id>::empty());
        assert(w =~= a);
        assert forall|j: int|
            1 <= j < w.len() implies prev_of(ns, op, #[trigger] w[j] as int, oo) == Option::Some(
            w[j - 1],
        ) by {
            assert(w[j] == a[j]);
            assert(w[j - 1] == a[j - 1]);
        }
    }
}

/// Pre-order correctness, forward half: repeatedly applying the visible
/// successor from the root reproduces `visibleSequence` one element at a
/// time, and it returns nothing at the last visible node.
pub proof fn law_preorder_next(t: TreeWidget)
    requires
        t.wf(),
    ensures
        forall|j: int|
            0 <= j < t.vis(0, true).len() - 1 ==> t.next_spec(
                #[trigger] t.vis(0, true)[j] as int,
                true,
            ) == Option::Some(t.vis(0, true)[j + 1]),
        t.next_spec(t.vis(0, true).last() as int, true) is None,
{
    lemma_next_in_vis(t, 0, true);
}

/// Pre-order correctness, backward half: the visible predecessor applied to
/// any entry but the first returns the entry before it, and the root has no
/// predecessor.
pub proof fn law_preorder_prev(t: TreeWidget)
    requires
        t.wf(),
    ensures
        forall|j: int|
            1 <= j < t.vis(0, true).len() ==> t.prev_spec(
                #[trigger] t.vis(0, true)[j] as int,
                true,
            ) == Option::Some(t.vis(0, true)[j - 1]),
        t.prev_spec(0, true) is None,
{
    lemma_prev_in_vis(t, 0, true);
}

/// With every parent open, the visible sequence is the full pre-order
/// listing of the tree.
pub proof fn law_preorder_full(t: TreeWidget)
    requires
        t.wf(),
        forall|x: int|
            t.valid(x) && kids_of(t.nodes@, x).len() > 0 ==> #[trigger] t.open_nodes@.contains(
                x as Id,
            ),
    ensures
        t.vis(0, true) == t.vis(0, false),
{
    lemma_vis_all_open(t, 0, true);
}

/// On a tree whose parents are all open, visibility does not restrict the
/// traversal.
pub proof fn lemma_vis_all_open(t: TreeWidget, id: int, oo: bool)
    requires
        t.wf(),
        t.valid(id),
        forall|x: int|
            t.valid(x) && kids_of(t.nodes@, x).len() > 0 ==> #[trigger] t.open_nodes@.contains(
                x as Id,
            ),
    ensures
        vis_of(t.nodes@, t.open_nodes@, id, true) == vis_of(t.nodes@, t.open_nodes@, id, false),
    decreases t.n() - id, 1int, 0int,
{
    let ns = t.nodes@;
    let op = t.open_nodes@;
    if kids_of(ns, id).len() > 0 {
        lemma_vis_kids_all_open(t, id, 0, oo);
    } else {
        assert(vis_kids_of(ns, op, id, 0, true) =~= Seq::<Id>::empty());
        assert(vis_of(ns, op, id, true) =~= vis_of(ns, op, id, false));
    }
}

/// Companion of [`lemma_vis_all_open`] for the tail of children listings.
pub proof fn lemma_vis_kids_all_open(t: TreeWidget, id: int, k: int, oo: bool)
    requires
        t.wf(),
        t.valid(id),
        0 <= k,
        forall|x: int|
            t.valid(x) && kids_of(t.nodes@, x).len() > 0 ==> #[trigger] t.open_nodes@.contains(
                x as Id,
            ),
    ensures
        vis_kids_of(t.nodes@, t.open_nodes@, id, k, true) == vis_kids_of(
            t.nodes@,
            t.open_nodes@,
            id,
            k,
            false,
        ),
    decreases t.n() - id, 0int, kids_of(t.nodes@, id).len() - k,
{
    let ns = t.nodes@;
    let op = t.open_nodes@;
    if 0 <= k < kids_of(ns, id).len() {
        let c = kids_of(ns, id)[k];
        lemma_vis_all_open(t, c as int, oo);
        lemma_vis_kids_all_open(t, id, k + 1, oo);
    }
}

/// Round trip: one visible step forward followed by one visible step
/// backward returns to the start, from any entry of the visible sequence
/// that is not the last one.
pub proof fn law_round_trip(t: TreeWidget, j: int)
    requires
        t.wf(),
        0 <= j < t.vis(0, true).len() - 1,
    ensures
        t.retreat(t.advance(t.vis(0, true)[j], 1), 1) == t.vis(0, true)[j],
{
    lemma_next_in_vis(t, 0, true);
    lemma_prev_in_vis(t, 0, true);
    let v = t.vis(0, true);
    assert(t.next_spec(v[j] as int, true) == Option::Some(v[j + 1]));
    assert(t.advance(v[j + 1], 0) == v[j + 1]);
    assert(t.advance(v[j], 1) == v[j + 1]);
    assert(t.prev_spec(v[j + 1] as int, true) == Option::Some(v[j]));
    assert(t.retreat(v[j], 0) == v[j]);
    assert(t.retreat(v[j + 1], 1) == v[j]);
}

/// Moving forward from a node with no visible successor never changes it.
pub proof fn lemma_advance_stuck(t: TreeWidget, id: Id, count: nat)
    requires
        t.next_spec(id as int, true) is None,
    ensures
        t.advance(id, count) == id,
    decreases count,
{
    if count > 0 {
        lemma_advance_stuck(t, id, (count - 1) as nat);
    }
}

/// Moving backward from a node with no visible predecessor never changes it.
pub proof fn lemma_retreat_stuck(t: TreeWidget, id: Id, count: nat)
    requires
        t.prev_spec(id as int, true) is None,
    ensures
        t.retreat(id, count) == id,
    decreases count,
{
    if count > 0 {
        lemma_retreat_stuck(t, id, (count - 1) as nat);
    }
}

/// Boundary idempotence: `selectNext(n)` from the last visible node leaves
/// the selection unchanged for every `n`, and so does `selectPrev(n)` from
/// the root.
pub proof fn law_boundary(t: TreeWidget, count: nat)
    requires
        t.wf(),
    ensures
        t.advance(t.vis(0, true).last(), count) == t.vis(0, true).last(),
        t.retreat(0, count) == 0,
{
    lemma_next_in_vis(t, 0, true);
    lemma_vis_props(t, 0, true);
    lemma_advance_stuck(t, t.vis(0, true).last(), count);
    lemma_retreat_stuck(t, 0, count);
}

/// Tree shape: every node except the root has exactly one parent, that
/// parent's children list holds it exactly once, no other children list
/// holds it at all, and no node is its own proper ancestor.
pub proof fn law_tree_shape(t: TreeWidget, j: int)
    requires
        t.wf(),
        1 <= j < t.n(),
    ensures
        t.nodes@[j].parent_id matches Some(p) && kids_of(t.nodes@, p as int).contains(j as Id),
        forall|k1: int, k2: int|
            0 <= k1 < k2 < kids_of(t.nodes@, t.nodes@[j].parent_id->Some_0 as int).len() ==> !(
            #[trigger] kids_of(t.nodes@, t.nodes@[j].parent_id->Some_0 as int)[k1] == j as Id
                && #[trigger] kids_of(t.nodes@, t.nodes@[j].parent_id->Some_0 as int)[k2]
                == j as Id),
        forall|q: int|
            0 <= q < t.n() && q != t.nodes@[j].parent_id->Some_0 as int ==> !(#[trigger] kids_of(
                t.nodes@,
                q,
            ).contains(j as Id)),
        !chain_of(t.nodes@, t.nodes@[j].parent_id->Some_0 as int).contains(j as Id),
{
    let ns = t.nodes@;
    let p = ns[j].parent_id->Some_0 as int;
    assert forall|q: int|
        0 <= q < t.n() && q != p implies !(#[trigger] kids_of(ns, q).contains(j as Id)) by {
        if kids_of(ns, q).contains(j as Id) {
            let k = choose|k: int| 0 <= k < kids_of(ns, q).len() && kids_of(ns, q)[k] == j as Id;
            assert(ns[j].parent_id == Some(q as Id));
        }
    }
    t.lemma_chain_props(p);
    assert forall|m: int|
        0 <= m < chain_of(ns, p).len() implies chain_of(ns, p)[m] != j as Id by {
        assert(chain_of(ns, p)[m] <= p < j);
    }
}

/// Open invariant: whenever the open set is closed under parents — as
/// `open`, `expand_recursive` and the navigation calls keep it — every
/// ancestor of an open node is open.
pub proof fn law_open_ancestors(t: TreeWidget, x: Id)
    requires
        t.wf(),
        t.open_wf(),
        t.open_nodes@.contains(x),
    ensures
        forall|j: int|
            0 <= j < chain_of(t.nodes@, x as int).len() ==> t.open_nodes@.contains(
                #[trigger] chain_of(t.nodes@, x as int)[j],
            ),
    decreases x,
{
    let ns = t.nodes@;
    match ns[x as int].parent_id {
        Option::None => {
            assert(chain_of(ns, x as int) =~= seq![x]);
        },
        Option::Some(p) => {
            assert(t.open_nodes@.contains(p));
            law_open_ancestors(t, p);
            assert(chain_of(ns, x as int) == seq![x] + chain_of(ns, p as int));
        },
    }
}

/// Every node of a well-formed store lies in the root's subtree, so opening
/// the root recursively reaches everything: it makes every node with
/// children open, which is the premise under which the visible sequence is
/// the full pre-order listing.
pub proof fn lemma_all_in_root_subtree(t: TreeWidget, x: int)
    requires
        t.wf(),
        t.valid(x),
    ensures
        in_subtree_of(t.nodes@, 0, x),
    decreases x,
{
    match t.nodes@[x].parent_id {
        Option::None => {
            assert(x == 0);
        },
        Option::Some(p) => {
            lemma_all_in_root_subtree(t, p as int);
        },
    }
}

} // verus!
