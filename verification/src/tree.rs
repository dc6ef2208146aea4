//! The pane tree: leaves are viewports, inner nodes split their rectangle
//! among at least two ordered children.
//!
//! The depth-first (pre-order) sequence of leaves is the single source of
//! truth for focus cycling, numeric shortcuts and hit-testing, and matches
//! the on-screen left-to-right/top-to-bottom order because rectangles are
//! assigned along the same traversal.

use vstd::prelude::*;

use crate::geom::{Direction, Rect};
use crate::input::{KeyCode, MouseEvent};
use crate::pane::{
    spec_on_key, spec_on_mouse, Effect, EffectView, FractalPane, InputField, PaneView,
};

verus! {

broadcast use vstd::std_specs::vec::group_vec_axioms;

/// A node of the pane tree: a single viewport, or a split holding an
/// ordered sequence of child nodes (at least two, by invariant).
pub enum PaneNode {
    Pane(FractalPane),
    Split { direction: Direction, children: Vec<PaneNode> },
}

/// [`PaneNode`] as a mathematical value.
pub enum NodeView {
    Leaf(PaneView),
    Split { direction: Direction, children: Seq<NodeView> },
}

/// The view of a node.
pub open spec fn node_view(n: PaneNode) -> NodeView
    decreases n,
{
    match n {
        PaneNode::Pane(p) => NodeView::Leaf(p@),
        PaneNode::Split { direction, children } => NodeView::Split {
            direction,
            children: nodes_view(children@),
        },
    }
}

/// The views of a sequence of nodes, in order.
pub open spec fn nodes_view(s: Seq<PaneNode>) -> Seq<NodeView>
    decreases s,
{
    if s.len() == 0 {
        Seq::empty()
    } else {
        seq![node_view(s[0])] + nodes_view(s.subrange(1, s.len() as int))
    }
}

impl View for PaneNode {
    type V = NodeView;

    open spec fn view(&self) -> NodeView {
        node_view(*self)
    }
}

pub broadcast proof fn lemma_nodes_view_index(s: Seq<PaneNode>)
    ensures
        (#[trigger] nodes_view(s)).len() == s.len(),
        forall|i: int| 0 <= i < s.len() ==> nodes_view(s)[i] == node_view(s[i]),
    decreases s,
{
    if s.len() > 0 {
        lemma_nodes_view_index(s.subrange(1, s.len() as int));
    }
}

/// Number of nodes in the tree; used as a termination measure.
pub open spec fn size(t: NodeView) -> nat
    decreases t,
{
    match t {
        NodeView::Leaf(_) => 1,
        NodeView::Split { children, .. } => 1 + size_all(children),
    }
}

pub open spec fn size_all(s: Seq<NodeView>) -> nat
    decreases s,
{
    if s.len() == 0 {
        0
    } else {
        size(s[0]) + size_all(s.subrange(1, s.len() as int))
    }
}

pub broadcast proof fn lemma_size_all_bound(s: Seq<NodeView>, i: int)
    requires
        0 <= i < s.len(),
    ensures
        #[trigger] size(s[i]) <= size_all(s),
    decreases s,
{
    if i > 0 {
        lemma_size_all_bound(s.subrange(1, s.len() as int), i - 1);
        assert(s.subrange(1, s.len() as int)[i - 1] == s[i]);
    }
}

/// The panes at the tree's leaves, in depth-first (pre-order) order.
pub open spec fn leaves(t: NodeView) -> Seq<PaneView>
    decreases t,
{
    match t {
        NodeView::Leaf(p) => seq![p],
        NodeView::Split { children, .. } => leaves_all(children),
    }
}

pub open spec fn leaves_all(s: Seq<NodeView>) -> Seq<PaneView>
    decreases s,
{
    if s.len() == 0 {
        Seq::empty()
    } else {
        leaves(s[0]) + leaves_all(s.subrange(1, s.len() as int))
    }
}

/// The depth-first sequence of leaf ids.
pub open spec fn leaf_ids(t: NodeView) -> Seq<usize> {
    leaves(t).map_values(|p: PaneView| p.id)
}

/// Does some leaf of `t` carry id `id`?
pub open spec fn contains_id(t: NodeView, id: usize) -> bool {
    leaf_ids(t).contains(id)
}

/// Splitting a sequence of siblings splits their concatenated leaves.
pub proof fn lemma_leaves_all_split(s: Seq<NodeView>, i: int)
    requires
        0 <= i <= s.len(),
    ensures
        leaves_all(s) == leaves_all(s.subrange(0, i)) + leaves_all(
            s.subrange(i, s.len() as int),
        ),
    decreases i,
{
    if i == 0 {
        assert(s.subrange(0, 0).len() == 0);
        assert(s.subrange(0, s.len() as int) =~= s);
        assert(leaves_all(s.subrange(0, 0)) + leaves_all(s) =~= leaves_all(s));
    } else {
        let tail = s.subrange(1, s.len() as int);
        lemma_leaves_all_split(tail, i - 1);
        assert(tail.subrange(0, i - 1) =~= s.subrange(1, i));
        assert(tail.subrange(i - 1, tail.len() as int) =~= s.subrange(i, s.len() as int));
        let head = s.subrange(0, i);
        assert(head.subrange(1, head.len() as int) =~= s.subrange(1, i));
        assert(head[0] == s[0]);
        assert(leaves_all(head) == leaves(s[0]) + leaves_all(s.subrange(1, i)));
    }
}

/// The leaves of one sibling sit inside the concatenated leaves.
pub proof fn lemma_leaves_all_index(s: Seq<NodeView>, i: int)
    requires
        0 <= i < s.len(),
    ensures
        leaves_all(s) == leaves_all(s.subrange(0, i)) + leaves(s[i]) + leaves_all(
            s.subrange(i + 1, s.len() as int),
        ),
{
    lemma_leaves_all_split(s, i);
    let tail = s.subrange(i, s.len() as int);
    assert(tail.len() > 0);
    assert(tail[0] == s[i]);
    assert(tail.subrange(1, tail.len() as int) =~= s.subrange(i + 1, s.len() as int));
}

/// Every tree has at least one leaf.
pub proof fn lemma_leaves_nonempty(t: NodeView)
    ensures
        wf(t) ==> leaves(t).len() >= 1,
    decreases t,
{
    match t {
        NodeView::Leaf(_) => {}
        NodeView::Split { children, .. } => {
            if wf(t) {
                lemma_leaves_nonempty(children[0]);
                lemma_leaves_all_index(children, 0);
            }
        }
    }
}

/// Structural well-formedness: every split holds at least two children.
pub open spec fn wf(t: NodeView) -> bool
    decreases t,
{
    match t {
        NodeView::Leaf(_) => true,
        NodeView::Split { children, .. } => children.len() >= 2 && wf_all(children),
    }
}

pub open spec fn wf_all(s: Seq<NodeView>) -> bool
    decreases s,
{
    if s.len() == 0 {
        true
    } else {
        wf(s[0]) && wf_all(s.subrange(1, s.len() as int))
    }
}

pub broadcast proof fn lemma_wf_all_index(s: Seq<NodeView>)
    ensures
        #[trigger] wf_all(s) <==> (forall|i: int| 0 <= i < s.len() ==> wf(#[trigger] s[i])),
    decreases s,
{
    if s.len() > 0 {
        let tail = s.subrange(1, s.len() as int);
        lemma_wf_all_index(tail);
        assert(forall|i: int| 1 <= i < s.len() ==> s[i] == tail[i - 1]);
    }
}

/// Mapping a sequence distributes over concatenation.
pub proof fn lemma_map_values_add<A, B>(a: Seq<A>, b: Seq<A>, f: spec_fn(A) -> B)
    ensures
        (a + b).map_values(f) == a.map_values(f) + b.map_values(f),
{
    assert((a + b).map_values(f) =~= a.map_values(f) + b.map_values(f));
}

/// Appends the depth-first leaf ids of `node` to `ids`.
pub fn collect_ids(node: &PaneNode, ids: &mut Vec<usize>)
    ensures
        final(ids)@ == old(ids)@ + leaf_ids(node@),
    decreases size(node@),
{
    match node {
        PaneNode::Pane(p) => {
            ids.push(p.id);
            proof {
                assert(ids@ =~= old(ids)@ + leaf_ids(node@));
            }
        }
        PaneNode::Split { children, .. } => {
            let ghost vs = nodes_view(children@);
            proof {
                lemma_nodes_view_index(children@);
            }
            let mut i: usize = 0;
            while i < children.len()
                invariant
                    i <= children.len(),
                    vs == nodes_view(children@),
                    vs.len() == children@.len(),
                    forall|j: int| 0 <= j < children@.len() ==> vs[j] == node_view(children@[j]),
                    node@ matches NodeView::Split { children: cs, .. } && cs == vs,
                    size(node@) == 1 + size_all(vs),
                    ids@ == old(ids)@ + leaves_all(vs.subrange(0, i as int)).map_values(
                        |p: PaneView| p.id,
                    ),
                decreases children.len() - i,
            {
                proof {
                    lemma_size_all_bound(vs, i as int);
                }
                collect_ids(&children[i], ids);
                proof {
                    let pre = vs.subrange(0, i as int);
                    let cur = vs.subrange(0, i + 1);
                    lemma_leaves_all_split(cur, i as int);
                    assert(cur.subrange(0, i as int) =~= pre);
                    let one = cur.subrange(i as int, cur.len() as int);
                    assert(one.len() == 1 && one[0] == vs[i as int]);
                    assert(one.subrange(1, one.len() as int).len() == 0);
                    assert(leaves_all(one.subrange(1, one.len() as int))
                        =~= Seq::<PaneView>::empty());
                    assert(leaves_all(one) =~= leaves(vs[i as int]));
                    lemma_map_values_add(
                        leaves_all(pre),
                        leaves(vs[i as int]),
                        |p: PaneView| p.id,
                    );
                }
                i = i + 1;
            }
            proof {
                assert(vs.subrange(0, vs.len() as int) =~= vs);
            }
        }
    }
}

/// The first pane of `ps` whose rectangle contains `(col, row)`.
pub open spec fn first_hit(ps: Seq<PaneView>, col: u16, row: u16) -> Option<usize>
    decreases ps,
{
    if ps.len() == 0 {
        None
    } else if ps[0].area.spec_contains(col, row) {
        Some(ps[0].id)
    } else {
        first_hit(ps.subrange(1, ps.len() as int), col, row)
    }
}

/// A hit search over concatenated sequences looks left first.
pub proof fn lemma_first_hit_add(a: Seq<PaneView>, b: Seq<PaneView>, col: u16, row: u16)
    ensures
        first_hit(a + b, col, row) == if first_hit(a, col, row) is Some {
            first_hit(a, col, row)
        } else {
            first_hit(b, col, row)
        },
    decreases a,
{
    if a.len() == 0 {
        assert(a + b =~= b);
    } else {
        let c = a + b;
        assert(c[0] == a[0]);
        assert(c.subrange(1, c.len() as int) =~= a.subrange(1, a.len() as int) + b);
        lemma_first_hit_add(a.subrange(1, a.len() as int), b, col, row);
    }
}

/// A hit comes from one of the panes searched.
pub proof fn lemma_first_hit_is_leaf(ps: Seq<PaneView>, col: u16, row: u16)
    ensures
        first_hit(ps, col, row) is Some ==> exists|i: int|
            0 <= i < ps.len() && #[trigger] ps[i].id == first_hit(ps, col, row)->0,
    decreases ps,
{
    if ps.len() > 0 {
        if ps[0].area.spec_contains(col, row) {
            assert(ps[0].id == first_hit(ps, col, row)->0);
        } else {
            let tail = ps.subrange(1, ps.len() as int);
            lemma_first_hit_is_leaf(tail, col, row);
            if first_hit(ps, col, row) is Some {
                let i = choose|i: int|
                    0 <= i < tail.len() && #[trigger] tail[i].id == first_hit(tail, col, row)->0;
                assert(ps[i + 1].id == first_hit(ps, col, row)->0);
            }
        }
    }
}

/// The id of the first leaf, in depth-first order, whose last-rendered
/// rectangle contains `(col, row)`.
pub fn recursive_find_at(node: &PaneNode, col: u16, row: u16) -> (r: Option<usize>)
    ensures
        r == first_hit(leaves(node@), col, row),
    decreases size(node@),
{
    match node {
        PaneNode::Pane(p) => {
            proof {
                let ps = leaves(node@);
                assert(ps.subrange(1, ps.len() as int).len() == 0);
                assert(first_hit(ps.subrange(1, ps.len() as int), col, row) is None);
            }
            if p.area.contains(col, row) {
                Some(p.id)
            } else {
                None
            }
        }
        PaneNode::Split { children, .. } => {
            let ghost vs = nodes_view(children@);
            proof {
                lemma_nodes_view_index(children@);
            }
            let mut i: usize = 0;
            while i < children.len()
                invariant
                    i <= children.len(),
                    vs == nodes_view(children@),
                    vs.len() == children@.len(),
                    forall|j: int| 0 <= j < children@.len() ==> vs[j] == node_view(children@[j]),
                    node@ matches NodeView::Split { children: cs, .. } && cs == vs,
                    size(node@) == 1 + size_all(vs),
                    first_hit(leaves_all(vs.subrange(0, i as int)), col, row) is None,
                decreases children.len() - i,
            {
                proof {
                    lemma_size_all_bound(vs, i as int);
                }
                let hit = recursive_find_at(&children[i], col, row);
                proof {
                    let pre = vs.subrange(0, i as int);
                    let cur = vs.subrange(0, i + 1);
                    lemma_leaves_all_split(cur, i as int);
                    assert(cur.subrange(0, i as int) =~= pre);
                    let one = cur.subrange(i as int, cur.len() as int);
                    assert(one.len() == 1 && one[0] == vs[i as int]);
                    assert(one.subrange(1, one.len() as int).len() == 0);
                    assert(leaves_all(one.subrange(1, one.len() as int))
                        =~= Seq::<PaneView>::empty());
                    assert(leaves_all(one) =~= leaves(vs[i as int]));
                    lemma_first_hit_add(leaves_all(pre), leaves(vs[i as int]), col, row);
                    lemma_leaves_all_split(vs, i + 1);
                    lemma_first_hit_add(
                        leaves_all(cur),
                        leaves_all(vs.subrange(i + 1, vs.len() as int)),
                        col,
                        row,
                    );
                }
                if hit.is_some() {
                    return hit;
                }
                i = i + 1;
            }
            proof {
                assert(vs.subrange(0, vs.len() as int) =~= vs);
            }
            None
        }
    }
}

/// Does the leaf with id `target` hold an open text-entry field?
pub open spec fn any_capturing(ps: Seq<PaneView>, target: usize) -> bool {
    exists|i: int| 0 <= i < ps.len() && ps[i].id == target && ps[i].active_input is Some
}

/// Whether the leaf with id `target` is capturing keyboard input.
pub fn recursive_is_capturing(node: &PaneNode, target: usize) -> (r: bool)
    ensures
        r == any_capturing(leaves(node@), target),
    decreases size(node@),
{
    match node {
        PaneNode::Pane(p) => {
            let r = p.id == target && p.active_input.is_some();
            proof {
                let ps = leaves(node@);
                if r {
                    assert(ps[0].id == target && ps[0].active_input is Some);
                }
            }
            r
        }
        PaneNode::Split { children, .. } => {
            let ghost vs = nodes_view(children@);
            proof {
                lemma_nodes_view_index(children@);
            }
            let mut i: usize = 0;
            let mut found = false;
            while i < children.len()
                invariant
                    i <= children.len(),
                    vs == nodes_view(children@),
                    vs.len() == children@.len(),
                    forall|j: int| 0 <= j < children@.len() ==> vs[j] == node_view(children@[j]),
                    node@ matches NodeView::Split { children: cs, .. } && cs == vs,
                    size(node@) == 1 + size_all(vs),
                    found == any_capturing(leaves_all(vs.subrange(0, i as int)), target),
                decreases children.len() - i,
            {
                proof {
                    lemma_size_all_bound(vs, i as int);
                }
                let here = recursive_is_capturing(&children[i], target);
                proof {
                    let pre = vs.subrange(0, i as int);
                    let cur = vs.subrange(0, i + 1);
                    lemma_leaves_all_split(cur, i as int);
                    assert(cur.subrange(0, i as int) =~= pre);
                    let one = cur.subrange(i as int, cur.len() as int);
                    assert(one.len() == 1 && one[0] == vs[i as int]);
                    assert(one.subrange(1, one.len() as int).len() == 0);
                    assert(leaves_all(one.subrange(1, one.len() as int))
                        =~= Seq::<PaneView>::empty());
                    assert(leaves_all(one) =~= leaves(vs[i as int]));
                    let a = leaves_all(pre);
                    let b = leaves(vs[i as int]);
                    assert(leaves_all(cur) == a + b);
                    assert(any_capturing(a + b, target) == (any_capturing(a, target)
                        || any_capturing(b, target))) by {
                        lemma_any_capturing_add(a, b, target);
                    }
                }
                found = found || here;
                i = i + 1;
            }
            proof {
                assert(vs.subrange(0, vs.len() as int) =~= vs);
            }
            found
        }
    }
}

/// The depth-first leaf ids of a sequence of siblings.
pub open spec fn ids_all(s: Seq<NodeView>) -> Seq<usize> {
    leaves_all(s).map_values(|p: PaneView| p.id)
}

/// Membership in a concatenation is membership in either part.
pub proof fn lemma_contains_add<A>(a: Seq<A>, b: Seq<A>, x: A)
    ensures
        (a + b).contains(x) == (a.contains(x) || b.contains(x)),
{
    let c = a + b;
    if a.contains(x) {
        let i = choose|i: int| 0 <= i < a.len() && a[i] == x;
        assert(c[i] == x);
    }
    if b.contains(x) {
        let i = choose|i: int| 0 <= i < b.len() && b[i] == x;
        assert(c[a.len() + i] == x);
    }
    if c.contains(x) {
        let i = choose|i: int| 0 <= i < c.len() && c[i] == x;
        if i < a.len() {
            assert(a[i] == x);
        } else {
            assert(b[i - a.len()] == x);
        }
    }
}

/// The pair of leaves a split leaves behind: the fresh pane beside the
/// original, ordered by `prepend`.
pub open spec fn split_pair(orig: PaneView, fresh: PaneView, prepend: bool) -> Seq<NodeView> {
    if prepend {
        seq![NodeView::Leaf(fresh), NodeView::Leaf(orig)]
    } else {
        seq![NodeView::Leaf(orig), NodeView::Leaf(fresh)]
    }
}

/// The tree after splitting the leaf with id `target`: that leaf is
/// replaced by a split in direction `dir` holding the original pane and
/// the fresh pane `fresh`.  Only the subtree holding the first leaf with
/// that id is touched.
pub open spec fn split_tree(
    t: NodeView,
    target: usize,
    dir: Direction,
    prepend: bool,
    fresh: PaneView,
) -> NodeView
    decreases t,
{
    match t {
        NodeView::Leaf(p) => if p.id == target {
            NodeView::Split { direction: dir, children: split_pair(p, fresh, prepend) }
        } else {
            t
        },
        NodeView::Split { direction, children } => NodeView::Split {
            direction,
            children: split_trees(children, target, dir, prepend, fresh),
        },
    }
}

/// Splits the first sibling that holds the target leaf; later siblings are
/// untouched.
pub open spec fn split_trees(
    s: Seq<NodeView>,
    target: usize,
    dir: Direction,
    prepend: bool,
    fresh: PaneView,
) -> Seq<NodeView>
    decreases s,
{
    if s.len() == 0 {
        s
    } else if contains_id(s[0], target) {
        seq![split_tree(s[0], target, dir, prepend, fresh)] + s.subrange(1, s.len() as int)
    } else {
        seq![split_tree(s[0], target, dir, prepend, fresh)] + split_trees(
            s.subrange(1, s.len() as int),
            target,
            dir,
            prepend,
            fresh,
        )
    }
}

/// Replaces the leaf with id `target` by a split pairing the original pane
/// with the fresh pane `new_pane`.  Returns the rebuilt tree and whether
/// the target was found.
pub fn recursive_split(
    node: PaneNode,
    target: usize,
    dir: Direction,
    prepend: bool,
    new_pane: FractalPane,
) -> (r: (PaneNode, bool))
    ensures
        r.0@ == split_tree(node@, target, dir, prepend, new_pane@),
        r.1 == contains_id(node@, target),
    decreases size(node@),
{
    let ghost t0 = node@;
    match node {
        PaneNode::Pane(p) => {
            proof {
                assert(leaf_ids(t0) =~= seq![p.id]);
                if p.id == target {
                    assert(leaf_ids(t0)[0] == target);
                }
            }
            if p.id == target {
                let mut children: Vec<PaneNode> = Vec::new();
                if prepend {
                    children.push(PaneNode::Pane(new_pane));
                    children.push(PaneNode::Pane(p));
                } else {
                    children.push(PaneNode::Pane(p));
                    children.push(PaneNode::Pane(new_pane));
                }
                proof {
                    lemma_nodes_view_index(children@);
                    assert(nodes_view(children@) =~= split_tree(
                        t0,
                        target,
                        dir,
                        prepend,
                        new_pane@,
                    )->Split_children);
                }
                (PaneNode::Split { direction: dir, children }, true)
            } else {
                (PaneNode::Pane(p), false)
            }
        }
        PaneNode::Split { direction, children } => {
            let ghost cs0 = children@;
            let ghost vs = nodes_view(cs0);
            proof {
                lemma_nodes_view_index(cs0);
            }
            let mut rest = children;
            let mut out: Vec<PaneNode> = Vec::new();
            let mut found = false;
            proof {
                assert(nodes_view(out@) =~= Seq::<NodeView>::empty());
                assert(vs.subrange(0, vs.len() as int) =~= vs);
                assert(split_trees(vs, target, dir, prepend, new_pane@) =~= nodes_view(out@)
                    + split_trees(
                    vs.subrange(out@.len() as int, vs.len() as int),
                    target,
                    dir,
                    prepend,
                    new_pane@,
                ));
            }
            #[verifier::loop_isolation(false)]
            while rest.len() > 0
                invariant
                    vs == nodes_view(cs0),
                    vs.len() == cs0.len(),
                    forall|j: int| 0 <= j < cs0.len() ==> vs[j] == node_view(cs0[j]),
                    t0 == (NodeView::Split { direction, children: vs }),
                    size(t0) == 1 + size_all(vs),
                    out@.len() + rest@.len() == cs0.len(),
                    rest@ =~= cs0.subrange(out@.len() as int, cs0.len() as int),
                    split_trees(vs, target, dir, prepend, new_pane@) =~= nodes_view(out@) + (
                    if found {
                        vs.subrange(out@.len() as int, vs.len() as int)
                    } else {
                        split_trees(
                            vs.subrange(out@.len() as int, vs.len() as int),
                            target,
                            dir,
                            prepend,
                            new_pane@,
                        )
                    }),
                    found == exists|j: int|
                        0 <= j < out@.len() && contains_id(#[trigger] vs[j], target),
                decreases rest.len(),
            {
                let ghost k = out@.len() as int;
                let ghost out_pre = out@;
                let c = rest.remove(0);
                proof {
                    assert(c == cs0[k]);
                    assert(rest@ =~= cs0.subrange(k + 1, cs0.len() as int));
                    lemma_size_all_bound(vs, k);
                }
                if found {
                    out.push(c);
                    proof {
                        lemma_nodes_view_index(out@);
                        lemma_nodes_view_index(out_pre);
                        assert(nodes_view(out@) =~= nodes_view(out_pre).push(node_view(c)));
                        assert(nodes_view(out@) + vs.subrange(k + 1, vs.len() as int)
                            =~= nodes_view(out_pre) + vs.subrange(k, vs.len() as int));
                        assert(exists|j: int|
                            0 <= j < out@.len() && contains_id(#[trigger] vs[j], target));
                    }
                } else {
                    proof {
                        assert(c@ == vs[k]);
                        assert(size(c@) < size(t0));
                    }
                    let (c2, f) = recursive_split(c, target, dir, prepend, new_pane.clone());
                    out.push(c2);
                    found = f;
                    proof {
                        lemma_nodes_view_index(out@);
                        lemma_nodes_view_index(out_pre);
                        assert(nodes_view(out@) =~= nodes_view(out_pre).push(c2@));
                        let tail = vs.subrange(k, vs.len() as int);
                        assert(tail.len() > 0 && tail[0] == vs[k]);
                        assert(tail.subrange(1, tail.len() as int) =~= vs.subrange(
                            k + 1,
                            vs.len() as int,
                        ));
                        if f {
                            assert(contains_id(vs[k], target));
                            assert(split_trees(tail, target, dir, prepend, new_pane@)
                                =~= seq![c2@] + vs.subrange(k + 1, vs.len() as int));
                        } else {
                            assert(split_trees(tail, target, dir, prepend, new_pane@)
                                =~= seq![c2@] + split_trees(
                                vs.subrange(k + 1, vs.len() as int),
                                target,
                                dir,
                                prepend,
                                new_pane@,
                            ));
                            assert(forall|j: int| 0 <= j < out@.len() ==> !contains_id(
                                #[trigger] vs[j],
                                target,
                            ));
                        }
                    }
                }
            }
            proof {
                assert(out@.len() == cs0.len());
                assert(vs.subrange(vs.len() as int, vs.len() as int).len() == 0);
                if found {
                    assert(nodes_view(out@) + vs.subrange(vs.len() as int, vs.len() as int)
                        =~= nodes_view(out@));
                } else {
                    assert(split_trees(
                        vs.subrange(vs.len() as int, vs.len() as int),
                        target,
                        dir,
                        prepend,
                        new_pane@,
                    ) =~= Seq::<NodeView>::empty());
                    assert(nodes_view(out@) + split_trees(
                        vs.subrange(vs.len() as int, vs.len() as int),
                        target,
                        dir,
                        prepend,
                        new_pane@,
                    ) =~= nodes_view(out@));
                }
                assert(nodes_view(out@) =~= split_trees(vs, target, dir, prepend, new_pane@));
                lemma_contains_id_all(vs, target);
            }
            (PaneNode::Split { direction, children: out }, found)
        }
    }
}

/// A split left with a single child is replaced by that child.
pub open spec fn collapse1(t: NodeView) -> NodeView {
    match t {
        NodeView::Split { children, .. } => if children.len() == 1 {
            children[0]
        } else {
            t
        },
        _ => t,
    }
}

/// Is `t` a leaf carrying id `target`?
pub open spec fn is_target_leaf(t: NodeView, target: usize) -> bool {
    t matches NodeView::Leaf(p) && p.id == target
}

/// The first position of a direct child leaf with id `target`, or -1.
pub open spec fn first_leaf_pos(s: Seq<NodeView>, target: usize) -> int
    decreases s,
{
    if s.len() == 0 {
        -1
    } else if is_target_leaf(s[0], target) {
        0
    } else {
        let r = first_leaf_pos(s.subrange(1, s.len() as int), target);
        if r == -1 {
            -1
        } else {
            r + 1
        }
    }
}

pub proof fn lemma_first_leaf_pos_char(s: Seq<NodeView>, target: usize)
    ensures
        first_leaf_pos(s, target) == -1 <==> (forall|j: int|
            0 <= j < s.len() ==> !is_target_leaf(#[trigger] s[j], target)),
        first_leaf_pos(s, target) != -1 ==> {
            let p = first_leaf_pos(s, target);
            &&& 0 <= p < s.len()
            &&& is_target_leaf(s[p], target)
            &&& forall|j: int| 0 <= j < p ==> !is_target_leaf(#[trigger] s[j], target)
        },
    decreases s,
{
    if s.len() > 0 {
        let tail = s.subrange(1, s.len() as int);
        lemma_first_leaf_pos_char(tail, target);
        assert(forall|j: int| 1 <= j < s.len() ==> s[j] == tail[j - 1]);
    }
}

/// What closing the leaf `target` does below a node: the node with the
/// leaf removed from its direct parent (the parent's own collapse is the
/// caller's concern), and whether the removal happened here.
///
/// A lone leaf never deletes itself; the session guards the single-leaf
/// tree before asking.
pub open spec fn spec_delete(t: NodeView, target: usize) -> (NodeView, bool)
    decreases t, 1int,
{
    match t {
        NodeView::Leaf(_) => (t, false),
        NodeView::Split { direction, children } => {
            let p = first_leaf_pos(children, target);
            if p != -1 {
                (NodeView::Split { direction, children: children.remove(p) }, true)
            } else {
                let (cs, f) = delete_in(children, target);
                (NodeView::Split { direction, children: cs }, f)
            }
        }
    }
}

/// Deletes the target leaf below the first sibling that holds it; a
/// sibling that shrank to a single child is collapsed to that child.
pub open spec fn delete_in(s: Seq<NodeView>, target: usize) -> (Seq<NodeView>, bool)
    decreases s, 0int,
{
    if s.len() == 0 {
        (s, false)
    } else {
        let (c2, f) = spec_delete(s[0], target);
        if f {
            (seq![collapse1(c2)] + s.subrange(1, s.len() as int), true)
        } else {
            let (cs2, f2) = delete_in(s.subrange(1, s.len() as int), target);
            (seq![c2] + cs2, f2)
        }
    }
}

/// Replaces a single-child split by its child; any other node is returned
/// unchanged.
pub fn collapse_node(node: PaneNode) -> (r: PaneNode)
    ensures
        r@ == collapse1(node@),
{
    let ghost t0 = node@;
    match node {
        PaneNode::Pane(p) => PaneNode::Pane(p),
        PaneNode::Split { direction, children } => {
            proof {
                lemma_nodes_view_index(children@);
            }
            if children.len() == 1 {
                let mut ch = children;
                ch.remove(0)
            } else {
                PaneNode::Split { direction, children }
            }
        }
    }
}

/// Removes the leaf with id `target` from its direct parent, collapsing a
/// parent below this node that is left with one child.  Returns the
/// rebuilt tree and whether a removal happened.
pub fn recursive_delete(node: PaneNode, target: usize) -> (r: (PaneNode, bool))
    ensures
        (r.0@, r.1) == spec_delete(node@, target),
    decreases size(node@),
{
    let ghost t0 = node@;
    match node {
        PaneNode::Pane(p) => (PaneNode::Pane(p), false),
        PaneNode::Split { direction, children } => {
            let ghost cs0 = children@;
            let ghost vs = nodes_view(cs0);
            proof {
                lemma_nodes_view_index(cs0);
                lemma_first_leaf_pos_char(vs, target);
            }
            // First pass: is the target a direct child leaf?
            let mut i: usize = 0;
            let mut pos: usize = 0;
            let mut direct = false;
            #[verifier::loop_isolation(false)]
            while i < children.len()
                invariant
                    i <= children.len(),
                    direct ==> pos < i && is_target_leaf(vs[pos as int], target) && (forall|j: int|
                        0 <= j < pos ==> !is_target_leaf(#[trigger] vs[j], target)),
                    !direct ==> forall|j: int|
                        0 <= j < i ==> !is_target_leaf(#[trigger] vs[j], target),
                decreases children.len() - i,
            {
                let hit = match &children[i] {
                    PaneNode::Pane(p) => p.id == target,
                    _ => false,
                };
                if hit && !direct {
                    direct = true;
                    pos = i;
                }
                i = i + 1;
            }
            if direct {
                proof {
                    assert(first_leaf_pos(vs, target) == pos as int);
                }
                let mut ch = children;
                ch.remove(pos);
                proof {
                    lemma_nodes_view_index(ch@);
                    assert(nodes_view(ch@) =~= vs.remove(pos as int));
                }
                (PaneNode::Split { direction, children: ch }, true)
            } else {
                proof {
                    assert(first_leaf_pos(vs, target) == -1);
                }
                // Second pass: recurse until one child reports the removal.
                let mut rest = children;
                let mut out: Vec<PaneNode> = Vec::new();
                let mut found = false;
                proof {
                    assert(nodes_view(out@) =~= Seq::<NodeView>::empty());
                    assert(vs.subrange(0, vs.len() as int) =~= vs);
                    assert(delete_in(vs, target).0 =~= nodes_view(out@) + delete_in(
                        vs.subrange(out@.len() as int, vs.len() as int),
                        target,
                    ).0);
                }
                #[verifier::loop_isolation(false)]
                while rest.len() > 0
                    invariant
                        out@.len() + rest@.len() == cs0.len(),
                        rest@ =~= cs0.subrange(out@.len() as int, cs0.len() as int),
                        delete_in(vs, target).0 =~= nodes_view(out@) + (
                        if found {
                            vs.subrange(out@.len() as int, vs.len() as int)
                        } else {
                            delete_in(vs.subrange(out@.len() as int, vs.len() as int), target).0
                        }),
                        delete_in(vs, target).1 == (found || (
                        delete_in(vs.subrange(out@.len() as int, vs.len() as int), target).1
                            && !found)),
                    decreases rest.len(),
                {
                    let ghost k = out@.len() as int;
                    let ghost out_pre = out@;
                    let c = rest.remove(0);
                    proof {
                        assert(c == cs0[k]);
                        assert(rest@ =~= cs0.subrange(k + 1, cs0.len() as int));
                        lemma_size_all_bound(vs, k);
                    }
                    if found {
                        out.push(c);
                        proof {
                            lemma_nodes_view_index(out@);
                            lemma_nodes_view_index(out_pre);
                            assert(nodes_view(out@) =~= nodes_view(out_pre).push(node_view(c)));
                            assert(nodes_view(out@) + vs.subrange(k + 1, vs.len() as int)
                                =~= nodes_view(out_pre) + vs.subrange(k, vs.len() as int));
                        }
                    } else {
                        proof {
                            assert(c@ == vs[k]);
                            assert(size(c@) < size(t0));
                        }
                        let (c2, f) = recursive_delete(c, target);
                        let ghost tail = vs.subrange(k, vs.len() as int);
                        proof {
                            assert(tail.len() > 0 && tail[0] == vs[k]);
                            assert(tail.subrange(1, tail.len() as int) =~= vs.subrange(
                                k + 1,
                                vs.len() as int,
                            ));
                        }
                        if f {
                            let c3 = collapse_node(c2);
                            out.push(c3);
                            found = true;
                            proof {
                                lemma_nodes_view_index(out@);
                                lemma_nodes_view_index(out_pre);
                                assert(nodes_view(out@) =~= nodes_view(out_pre).push(c3@));
                                assert(delete_in(tail, target).0 =~= seq![collapse1(c2@)]
                                    + vs.subrange(k + 1, vs.len() as int));
                            }
                        } else {
                            out.push(c2);
                            proof {
                                lemma_nodes_view_index(out@);
                                lemma_nodes_view_index(out_pre);
                                assert(nodes_view(out@) =~= nodes_view(out_pre).push(c2@));
                                assert(delete_in(tail, target).0 =~= seq![c2@] + delete_in(
                                    vs.subrange(k + 1, vs.len() as int),
                                    target,
                                ).0);
                            }
                        }
                    }
                }
                proof {
                    assert(vs.subrange(vs.len() as int, vs.len() as int).len() == 0);
                    if found {
                        assert(nodes_view(out@) + vs.subrange(vs.len() as int, vs.len() as int)
                            =~= nodes_view(out@));
                    } else {
                        assert(delete_in(
                            vs.subrange(vs.len() as int, vs.len() as int),
                            target,
                        ).0.len() == 0);
                        assert(nodes_view(out@) + delete_in(
                            vs.subrange(vs.len() as int, vs.len() as int),
                            target,
                        ).0 =~= nodes_view(out@));
                        assert(!delete_in(vs.subrange(vs.len() as int, vs.len() as int), target).1);
                    }
                    assert(nodes_view(out@) =~= delete_in(vs, target).0);
                }
                (PaneNode::Split { direction, children: out }, found)
            }
        }
    }
}

/// An action addressed to one leaf of the tree.
#[derive(Clone, Copy, Debug, PartialEq, Eq, Structural)]
pub enum PaneAction {
    /// A key press for the pane's local handler.
    Key(KeyCode),
    /// A mouse event for the pane's local handler.
    Mouse(MouseEvent),
    /// Install center and scale bits the front end computed (pan or zoom).
    SetCenterScale { cx: u64, cy: u64, scale: u64 },
    /// Commit one part of the Julia constant from a parsed entry.
    SetJulia { field: InputField, bits: u64 },
    /// Non-finite-bounds recovery: center and scale back to the defaults.
    ResetView,
}

/// What an action does to the pane it is addressed to.
pub open spec fn apply_action(p: PaneView, a: PaneAction) -> (PaneView, EffectView) {
    match a {
        PaneAction::Key(k) => spec_on_key(p, k),
        PaneAction::Mouse(ev) => spec_on_mouse(p, ev),
        PaneAction::SetCenterScale { cx, cy, scale } => (
            PaneView { center_x_bits: cx, center_y_bits: cy, scale_bits: scale, ..p },
            EffectView::Nothing,
        ),
        PaneAction::SetJulia { field, bits } => (
            match field {
                InputField::Cx => PaneView { julia_cx_bits: bits, ..p },
                InputField::Cy => PaneView { julia_cy_bits: bits, ..p },
            },
            EffectView::Nothing,
        ),
        PaneAction::ResetView => (
            PaneView {
                center_x_bits: crate::pane::DEFAULT_CENTER_X_BITS,
                center_y_bits: crate::pane::DEFAULT_CENTER_Y_BITS,
                scale_bits: crate::pane::DEFAULT_SCALE_BITS,
                ..p
            },
            EffectView::Nothing,
        ),
    }
}

/// The tree after delivering `a` to every leaf with id `target` (a unique
/// id reaches exactly one), with the effect the handler returned.
pub open spec fn update_tree(t: NodeView, target: usize, a: PaneAction) -> (NodeView, EffectView)
    decreases t, 1int,
{
    match t {
        NodeView::Leaf(p) => if p.id == target {
            let (p2, e) = apply_action(p, a);
            (NodeView::Leaf(p2), e)
        } else {
            (t, EffectView::Nothing)
        },
        NodeView::Split { direction, children } => {
            let (cs, e) = update_in(children, target, a);
            (NodeView::Split { direction, children: cs }, e)
        }
    }
}

pub open spec fn update_in(s: Seq<NodeView>, target: usize, a: PaneAction) -> (
    Seq<NodeView>,
    EffectView,
)
    decreases s, 0int,
{
    if s.len() == 0 {
        (s, EffectView::Nothing)
    } else {
        let (c2, e1) = update_tree(s[0], target, a);
        let (cs2, e2) = update_in(s.subrange(1, s.len() as int), target, a);
        (seq![c2] + cs2, if e2 is Nothing {
            e1
        } else {
            e2
        })
    }
}

/// Applies an action to one pane.
fn apply_pane_action(p: &mut FractalPane, a: PaneAction) -> (eff: Effect)
    ensures
        (final(p)@, eff@) == apply_action(old(p)@, a),
{
    match a {
        PaneAction::Key(k) => p.on_key(k),
        PaneAction::Mouse(ev) => p.on_mouse(ev),
        PaneAction::SetCenterScale { cx, cy, scale } => {
            p.center_x_bits = cx;
            p.center_y_bits = cy;
            p.scale_bits = scale;
            Effect::Nothing
        }
        PaneAction::SetJulia { field, bits } => {
            match field {
                InputField::Cx => p.julia_cx_bits = bits,
                InputField::Cy => p.julia_cy_bits = bits,
            }
            Effect::Nothing
        }
        PaneAction::ResetView => {
            p.center_x_bits = crate::pane::DEFAULT_CENTER_X_BITS;
            p.center_y_bits = crate::pane::DEFAULT_CENTER_Y_BITS;
            p.scale_bits = crate::pane::DEFAULT_SCALE_BITS;
            Effect::Nothing
        }
    }
}

/// Delivers `action` to the leaf with id `target`; every leaf is visited,
/// so with unique ids exactly one handler runs.  Returns the rebuilt tree
/// and the handler's effect.
pub fn update_leaf(node: PaneNode, target: usize, action: PaneAction) -> (r: (PaneNode, Effect))
    ensures
        (r.0@, r.1@) == update_tree(node@, target, action),
    decreases size(node@),
{
    let ghost t0 = node@;
    match node {
        PaneNode::Pane(p) => {
            if p.id == target {
                let mut pane = p;
                let eff = apply_pane_action(&mut pane, action);
                (PaneNode::Pane(pane), eff)
            } else {
                (PaneNode::Pane(p), Effect::Nothing)
            }
        }
        PaneNode::Split { direction, children } => {
            let ghost cs0 = children@;
            let ghost vs = nodes_view(cs0);
            proof {
                lemma_nodes_view_index(cs0);
            }
            let mut rest = children;
            let mut out: Vec<PaneNode> = Vec::new();
            let mut eff = Effect::Nothing;
            proof {
                assert(nodes_view(out@) =~= Seq::<NodeView>::empty());
                assert(vs.subrange(0, vs.len() as int) =~= vs);
                assert(update_in(vs, target, action).0 =~= nodes_view(out@) + update_in(
                    vs.subrange(out@.len() as int, vs.len() as int),
                    target,
                    action,
                ).0);
            }
            #[verifier::loop_isolation(false)]
            while rest.len() > 0
                invariant
                    out@.len() + rest@.len() == cs0.len(),
                    rest@ =~= cs0.subrange(out@.len() as int, cs0.len() as int),
                    update_in(vs, target, action).0 =~= nodes_view(out@) + update_in(
                        vs.subrange(out@.len() as int, vs.len() as int),
                        target,
                        action,
                    ).0,
                    update_in(vs, target, action).1 == (
                    if update_in(
                        vs.subrange(out@.len() as int, vs.len() as int),
                        target,
                        action,
                    ).1 is Nothing {
                        eff@
                    } else {
                        update_in(vs.subrange(out@.len() as int, vs.len() as int), target, action).1
                    }),
                decreases rest.len(),
            {
                let ghost k = out@.len() as int;
                let ghost out_pre = out@;
                let c = rest.remove(0);
                proof {
                    assert(c == cs0[k]);
                    assert(rest@ =~= cs0.subrange(k + 1, cs0.len() as int));
                    lemma_size_all_bound(vs, k);
                    assert(c@ == vs[k]);
                    assert(size(c@) < size(t0));
                }
                let (c2, e1) = update_leaf(c, target, action);
                out.push(c2);
                proof {
                    lemma_nodes_view_index(out@);
                    lemma_nodes_view_index(out_pre);
                    assert(nodes_view(out@) =~= nodes_view(out_pre).push(c2@));
                    let tail = vs.subrange(k, vs.len() as int);
                    assert(tail.len() > 0 && tail[0] == vs[k]);
                    assert(tail.subrange(1, tail.len() as int) =~= vs.subrange(
                        k + 1,
                        vs.len() as int,
                    ));
                    assert(update_in(tail, target, action).0 =~= seq![c2@] + update_in(
                        vs.subrange(k + 1, vs.len() as int),
                        target,
                        action,
                    ).0);
                }
                if !matches!(e1, Effect::Nothing) {
                    eff = e1;
                }
            }
            proof {
                assert(vs.subrange(vs.len() as int, vs.len() as int).len() == 0);
                assert(update_in(vs.subrange(vs.len() as int, vs.len() as int), target, action).0
                    =~= Seq::<NodeView>::empty());
                assert(nodes_view(out@) + update_in(
                    vs.subrange(vs.len() as int, vs.len() as int),
                    target,
                    action,
                ).0 =~= nodes_view(out@));
                assert(nodes_view(out@) =~= update_in(vs, target, action).0);
            }
            (PaneNode::Split { direction, children: out }, eff)
        }
    }
}

/// The tree with the rectangles `rs[k..]` written into its leaves in
/// depth-first order.
pub open spec fn spec_assign(t: NodeView, rs: Seq<Rect>, k: int) -> NodeView
    decreases t, 1int,
{
    match t {
        NodeView::Leaf(p) => NodeView::Leaf(PaneView { area: rs[k], ..p }),
        NodeView::Split { direction, children } => NodeView::Split {
            direction,
            children: assign_in(children, rs, k),
        },
    }
}

pub open spec fn assign_in(s: Seq<NodeView>, rs: Seq<Rect>, k: int) -> Seq<NodeView>
    decreases s, 0int,
{
    if s.len() == 0 {
        s
    } else {
        seq![spec_assign(s[0], rs, k)] + assign_in(
            s.subrange(1, s.len() as int),
            rs,
            k + leaves(s[0]).len(),
        )
    }
}

/// Writes `rects[k..]` into the leaves in depth-first order; this is the
/// rendering pass's record of where each pane just went on screen.
/// Returns the rebuilt tree and the next unused index.
pub fn assign_areas_node(node: PaneNode, rects: &Vec<Rect>, k: usize) -> (r: (PaneNode, usize))
    requires
        k + leaves(node@).len() <= rects@.len(),
    ensures
        r.0@ == spec_assign(node@, rects@, k as int),
        r.1 == k + leaves(node@).len(),
    decreases size(node@),
{
    let ghost t0 = node@;
    match node {
        PaneNode::Pane(p) => {
            proof {
                assert(t0 matches NodeView::Leaf(q) && q == p@);
                assert(leaves(t0).len() == 1);
            }
            let n = rects.len();
            proof {
                assert(k + 1 <= n);
            }
            let mut pane = p;
            pane.area = *vstd::slice::slice_index_get(rects.as_slice(), k);
            (PaneNode::Pane(pane), k + 1)
        }
        PaneNode::Split { direction, children } => {
            let ghost cs0 = children@;
            let ghost vs = nodes_view(cs0);
            proof {
                lemma_nodes_view_index(cs0);
            }
            let mut rest = children;
            let mut out: Vec<PaneNode> = Vec::new();
            let mut next = k;
            proof {
                assert(nodes_view(out@) =~= Seq::<NodeView>::empty());
                assert(vs.subrange(0, vs.len() as int) =~= vs);
                assert(leaves_all(vs.subrange(0, 0)).len() == 0);
                assert(assign_in(vs, rects@, k as int) =~= nodes_view(out@) + assign_in(
                    vs.subrange(out@.len() as int, vs.len() as int),
                    rects@,
                    next as int,
                ));
            }
            #[verifier::loop_isolation(false)]
            while rest.len() > 0
                invariant
                    out@.len() + rest@.len() == cs0.len(),
                    rest@ =~= cs0.subrange(out@.len() as int, cs0.len() as int),
                    next == k + leaves_all(vs.subrange(0, out@.len() as int)).len(),
                    next + leaves_all(vs.subrange(out@.len() as int, vs.len() as int)).len()
                        <= rects@.len(),
                    assign_in(vs, rects@, k as int) =~= nodes_view(out@) + assign_in(
                        vs.subrange(out@.len() as int, vs.len() as int),
                        rects@,
                        next as int,
                    ),
                decreases rest.len(),
            {
                let ghost k2 = out@.len() as int;
                let ghost out_pre = out@;
                let ghost next_pre = next as int;
                let c = rest.remove(0);
                proof {
                    assert(c == cs0[k2]);
                    assert(rest@ =~= cs0.subrange(k2 + 1, cs0.len() as int));
                    lemma_size_all_bound(vs, k2);
                    assert(c@ == vs[k2]);
                    assert(size(c@) < size(t0));
                    let tail = vs.subrange(k2, vs.len() as int);
                    assert(tail.len() > 0 && tail[0] == vs[k2]);
                    assert(tail.subrange(1, tail.len() as int) =~= vs.subrange(
                        k2 + 1,
                        vs.len() as int,
                    ));
                    assert(leaves_all(tail.subrange(1, tail.len() as int)).len() >= 0);
                    assert(leaves_all(tail) == leaves(vs[k2]) + leaves_all(
                        tail.subrange(1, tail.len() as int),
                    ));
                }
                let (c2, n2) = assign_areas_node(c, rects, next);
                next = n2;
                out.push(c2);
                proof {
                    lemma_nodes_view_index(out@);
                    lemma_nodes_view_index(out_pre);
                    assert(nodes_view(out@) =~= nodes_view(out_pre).push(c2@));
                    let tail = vs.subrange(k2, vs.len() as int);
                    assert(assign_in(tail, rects@, next_pre) =~= seq![
                        spec_assign(vs[k2], rects@, next_pre),
                    ] + assign_in(vs.subrange(k2 + 1, vs.len() as int), rects@, next as int));
                    let pre2 = vs.subrange(0, k2 + 1);
                    lemma_leaves_all_split(pre2, k2);
                    assert(pre2.subrange(0, k2) =~= vs.subrange(0, k2));
                    let one = pre2.subrange(k2, k2 + 1);
                    assert(one.len() == 1 && one[0] == vs[k2]);
                    assert(one.subrange(1, one.len() as int).len() == 0);
                    assert(leaves_all(one.subrange(1, one.len() as int)) =~= Seq::<
                        PaneView,
                    >::empty());
                    assert(leaves_all(one) =~= leaves(vs[k2]));
                }
            }
            proof {
                assert(vs.subrange(0, out@.len() as int) =~= vs);
                assert(vs.subrange(vs.len() as int, vs.len() as int).len() == 0);
                assert(assign_in(vs.subrange(vs.len() as int, vs.len() as int), rects@, next as int)
                    =~= Seq::<NodeView>::empty());
                assert(nodes_view(out@) + assign_in(
                    vs.subrange(vs.len() as int, vs.len() as int),
                    rects@,
                    next as int,
                ) =~= nodes_view(out@));
                assert(nodes_view(out@) =~= assign_in(vs, rects@, k as int));
            }
            (PaneNode::Split { direction, children: out }, next)
        }
    }
}

/// A sequence of siblings holds an id iff one of them does.
pub proof fn lemma_contains_id_all(s: Seq<NodeView>, target: usize)
    ensures
        ids_all(s).contains(target) == exists|j: int|
            0 <= j < s.len() && contains_id(#[trigger] s[j], target),
    decreases s,
{
    if s.len() == 0 {
        assert(leaves_all(s).len() == 0);
    } else {
        let tail = s.subrange(1, s.len() as int);
        lemma_contains_id_all(tail, target);
        lemma_map_values_add(leaves(s[0]), leaves_all(tail), |p: PaneView| p.id);
        lemma_contains_add(leaf_ids(s[0]), ids_all(tail), target);
        if contains_id(s[0], target) {
            assert(exists|j: int| 0 <= j < s.len() && contains_id(#[trigger] s[j], target));
        }
        if ids_all(tail).contains(target) {
            let j = choose|j: int| 0 <= j < tail.len() && contains_id(#[trigger] tail[j], target);
            assert(contains_id(s[j + 1], target));
        }
        if exists|j: int| 0 <= j < s.len() && contains_id(#[trigger] s[j], target) {
            let j = choose|j: int| 0 <= j < s.len() && contains_id(#[trigger] s[j], target);
            if j > 0 {
                assert(contains_id(tail[j - 1], target));
            }
        }
    }
}

/// The leaves of concatenated sibling sequences concatenate.
pub proof fn lemma_leaves_all_add(a: Seq<NodeView>, b: Seq<NodeView>)
    ensures
        leaves_all(a + b) == leaves_all(a) + leaves_all(b),
    decreases a,
{
    if a.len() == 0 {
        assert(a + b =~= b);
        assert(leaves_all(a) + leaves_all(b) =~= leaves_all(b));
    } else {
        let c = a + b;
        assert(c[0] == a[0]);
        assert(c.subrange(1, c.len() as int) =~= a.subrange(1, a.len() as int) + b);
        lemma_leaves_all_add(a.subrange(1, a.len() as int), b);
        assert(leaves(a[0]) + (leaves_all(a.subrange(1, a.len() as int)) + leaves_all(b)) =~= (
        leaves(a[0]) + leaves_all(a.subrange(1, a.len() as int))) + leaves_all(b));
    }
}

/// Collapsing a degenerate split does not change the leaves.
pub proof fn lemma_collapse1_leaves(t: NodeView)
    ensures
        leaves(collapse1(t)) == leaves(t),
{
    match t {
        NodeView::Split { children, .. } => {
            if children.len() == 1 {
                assert(children.subrange(1, children.len() as int).len() == 0);
                assert(leaves_all(children.subrange(1, children.len() as int)) =~= Seq::<
                    PaneView,
                >::empty());
                assert(leaves(children[0]) + leaves_all(children.subrange(1, children.len() as int))
                    =~= leaves(children[0]));
            }
        }
        _ => {}
    }
}

/// No action changes the id of the pane it runs on.
pub proof fn lemma_apply_action_id(p: PaneView, a: PaneAction)
    ensures
        apply_action(p, a).0.id == p.id,
{
}

/// Delivering an action maps the addressed leaf and keeps all others; the
/// tree's shape is untouched.
pub proof fn lemma_update_tree(t: NodeView, target: usize, a: PaneAction)
    ensures
        leaves(update_tree(t, target, a).0) == leaves(t).map_values(
            |p: PaneView|
                if p.id == target {
                    apply_action(p, a).0
                } else {
                    p
                },
        ),
        wf(t) ==> wf(update_tree(t, target, a).0),
    decreases t, 1int,
{
    let f = |p: PaneView|
        if p.id == target {
            apply_action(p, a).0
        } else {
            p
        };
    match t {
        NodeView::Leaf(p) => {
            assert(leaves(t) =~= seq![p]);
            assert(leaves(t).map_values(f) =~= seq![f(p)]);
            assert(leaves(update_tree(t, target, a).0) =~= seq![f(p)]);
        }
        NodeView::Split { direction, children } => {
            lemma_update_in(children, target, a);
        }
    }
}

pub proof fn lemma_update_in(s: Seq<NodeView>, target: usize, a: PaneAction)
    ensures
        update_in(s, target, a).0.len() == s.len(),
        leaves_all(update_in(s, target, a).0) == leaves_all(s).map_values(
            |p: PaneView|
                if p.id == target {
                    apply_action(p, a).0
                } else {
                    p
                },
        ),
        wf_all(s) ==> wf_all(update_in(s, target, a).0),
    decreases s, 0int,
{
    let f = |p: PaneView|
        if p.id == target {
            apply_action(p, a).0
        } else {
            p
        };
    if s.len() == 0 {
        assert(leaves_all(s).map_values(f) =~= Seq::<PaneView>::empty());
    } else {
        let tail = s.subrange(1, s.len() as int);
        let c2 = update_tree(s[0], target, a).0;
        let cs2 = update_in(tail, target, a).0;
        lemma_update_tree(s[0], target, a);
        lemma_update_in(tail, target, a);
        let s2 = update_in(s, target, a).0;
        assert(s2 == seq![c2] + cs2);
        assert(s2[0] == c2);
        assert(s2.subrange(1, s2.len() as int) =~= cs2);
        assert(leaves_all(s2) == leaves(c2) + leaves_all(cs2));
        lemma_map_values_add(leaves(s[0]), leaves_all(tail), f);
        if wf_all(s) {
            assert(wf(s[0]));
            assert(wf_all(s2)) by {
                assert(wf(s2[0]));
                assert(wf_all(s2.subrange(1, s2.len() as int)));
            }
        }
    }
}

/// Depth-first ordering stability: delivering a key, a mouse event or a
/// view-parameter update to a pane leaves the depth-first sequence of
/// leaf ids exactly as it was — only structural operations reorder it.
pub proof fn lemma_update_keeps_order(t: NodeView, target: usize, a: PaneAction)
    ensures
        leaf_ids(update_tree(t, target, a).0) == leaf_ids(t),
{
    lemma_update_tree(t, target, a);
    assert(leaf_ids(update_tree(t, target, a).0) =~= leaf_ids(t));
}

/// Assigning rectangles rewrites each leaf's rectangle in depth-first
/// order and touches nothing else.
pub proof fn lemma_assign(t: NodeView, rs: Seq<Rect>, k: int)
    ensures
        leaves(spec_assign(t, rs, k)).len() == leaves(t).len(),
        forall|i: int|
            0 <= i < leaves(t).len() ==> leaves(spec_assign(t, rs, k))[i] == (PaneView {
                area: rs[k + i],
                ..leaves(t)[i]
            }),
        wf(t) ==> wf(spec_assign(t, rs, k)),
    decreases t, 1int,
{
    match t {
        NodeView::Leaf(p) => {
            assert(leaves(spec_assign(t, rs, k)) =~= seq![PaneView { area: rs[k], ..p }]);
        }
        NodeView::Split { direction, children } => {
            lemma_assign_in(children, rs, k);
        }
    }
}

pub proof fn lemma_assign_in(s: Seq<NodeView>, rs: Seq<Rect>, k: int)
    ensures
        assign_in(s, rs, k).len() == s.len(),
        leaves_all(assign_in(s, rs, k)).len() == leaves_all(s).len(),
        forall|i: int|
            0 <= i < leaves_all(s).len() ==> leaves_all(assign_in(s, rs, k))[i] == (PaneView {
                area: rs[k + i],
                ..leaves_all(s)[i]
            }),
        wf_all(s) ==> wf_all(assign_in(s, rs, k)),
    decreases s, 0int,
{
    if s.len() == 0 {
    } else {
        let tail = s.subrange(1, s.len() as int);
        let c2 = spec_assign(s[0], rs, k);
        let k2 = k + leaves(s[0]).len();
        let cs2 = assign_in(tail, rs, k2);
        lemma_assign(s[0], rs, k);
        lemma_assign_in(tail, rs, k2);
        let s2 = assign_in(s, rs, k);
        assert(s2 == seq![c2] + cs2);
        assert(s2[0] == c2);
        assert(s2.subrange(1, s2.len() as int) =~= cs2);
        assert(leaves_all(s2) == leaves(c2) + leaves_all(cs2));
        assert(forall|i: int|
            0 <= i < leaves_all(s).len() ==> leaves_all(s2)[i] == (PaneView {
                area: rs[k + i],
                ..leaves_all(s)[i]
            })) by {
            assert(forall|i: int|
                leaves(s[0]).len() <= i < leaves_all(s).len() ==> #[trigger] leaves_all(s)[i]
                    == leaves_all(tail)[i - leaves(s[0]).len()]);
            assert(forall|i: int|
                leaves(s[0]).len() <= i < leaves_all(s2).len() ==> #[trigger] leaves_all(s2)[i]
                    == leaves_all(cs2)[i - leaves(s[0]).len()]);
        }
        if wf_all(s) {
            assert(wf_all(s2)) by {
                assert(wf(s2[0]));
                assert(wf_all(s2.subrange(1, s2.len() as int)));
            }
        }
    }
}

/// Depth-first ordering stability, rendering side: recording the
/// rendered rectangles leaves the depth-first sequence of leaf ids
/// exactly as it was.
pub proof fn lemma_assign_keeps_order(t: NodeView, rs: Seq<Rect>, k: int)
    ensures
        leaf_ids(spec_assign(t, rs, k)) == leaf_ids(t),
{
    lemma_assign(t, rs, k);
    assert(leaf_ids(spec_assign(t, rs, k)) =~= leaf_ids(t));
}

/// The two panes a split leaves behind, in leaf order.
pub open spec fn pair_views(orig: PaneView, fresh: PaneView, prepend: bool) -> Seq<PaneView> {
    if prepend {
        seq![fresh, orig]
    } else {
        seq![orig, fresh]
    }
}

/// Splitting a leaf replaces its pane, at its depth-first position, by the
/// pair of panes; everything else is untouched.  When the target id is
/// absent the tree is unchanged.  Returns the position.
pub proof fn lemma_split_tree(
    t: NodeView,
    target: usize,
    dir: Direction,
    prepend: bool,
    fresh: PaneView,
) -> (j: int)
    ensures
        !contains_id(t, target) ==> split_tree(t, target, dir, prepend, fresh) == t,
        contains_id(t, target) ==> ({
            let t2 = split_tree(t, target, dir, prepend, fresh);
            let ps = leaves(t);
            &&& 0 <= j < ps.len()
            &&& ps[j].id == target
            &&& leaves(t2) == ps.subrange(0, j) + pair_views(ps[j], fresh, prepend) + ps.subrange(
                j + 1,
                ps.len() as int,
            )
            &&& (wf(t) ==> wf(t2))
        }),
    decreases t, 1int,
{
    match t {
        NodeView::Leaf(p) => {
            let ps = leaves(t);
            assert(ps =~= seq![p]);
            assert(leaf_ids(t) =~= seq![p.id]);
            if p.id == target {
                assert(leaf_ids(t)[0] == target);
                assert(contains_id(t, target));
                let t2 = split_tree(t, target, dir, prepend, fresh);
                let pr = split_pair(p, fresh, prepend);
                assert(pr.len() == 2);
                if prepend {
                    assert(pr[0] == NodeView::Leaf(fresh) && pr[1] == NodeView::Leaf(p));
                } else {
                    assert(pr[0] == NodeView::Leaf(p) && pr[1] == NodeView::Leaf(fresh));
                }
                let tl = pr.subrange(1, pr.len() as int);
                assert(tl.len() == 1 && tl[0] == pr[1]);
                assert(tl.subrange(1, tl.len() as int).len() == 0);
                assert(leaves_all(tl.subrange(1, tl.len() as int)) =~= Seq::<PaneView>::empty());
                assert(leaves_all(tl) =~= leaves(pr[1]));
                assert(leaves_all(pr) =~= leaves(pr[0]) + leaves_all(tl));
                assert(t2 == (NodeView::Split { direction: dir, children: pr }));
                assert(leaves(t2) == leaves_all(pr));
                assert(leaves(t2) =~= pair_views(p, fresh, prepend));
                assert(ps.subrange(0, 0).len() == 0);
                assert(ps.subrange(1, 1).len() == 0);
                assert(leaves(t2) =~= ps.subrange(0, 0) + pair_views(ps[0], fresh, prepend)
                    + ps.subrange(1, 1));
                assert(wf(pr[0]) && wf(pr[1]));
                assert(wf_all(tl.subrange(1, tl.len() as int)));
                assert(wf_all(tl));
                assert(wf_all(pr));
                assert(wf(t2));
                0
            } else {
                assert(!contains_id(t, target)) by {
                    if contains_id(t, target) {
                        let i = choose|i: int|
                            0 <= i < leaf_ids(t).len() && leaf_ids(t)[i] == target;
                        assert(leaf_ids(t)[0] == p.id);
                    }
                }
                0
            }
        }
        NodeView::Split { direction, children } => {
            assert(leaf_ids(t) == ids_all(children));
            let j = lemma_split_trees(children, target, dir, prepend, fresh);
            if !contains_id(t, target) {
                assert(split_trees(children, target, dir, prepend, fresh) == children);
            }
            j
        }
    }
}

pub proof fn lemma_split_trees(
    s: Seq<NodeView>,
    target: usize,
    dir: Direction,
    prepend: bool,
    fresh: PaneView,
) -> (j: int)
    ensures
        !ids_all(s).contains(target) ==> split_trees(s, target, dir, prepend, fresh) == s,
        ids_all(s).contains(target) ==> ({
            let s2 = split_trees(s, target, dir, prepend, fresh);
            let ps = leaves_all(s);
            &&& 0 <= j < ps.len()
            &&& ps[j].id == target
            &&& leaves_all(s2) == ps.subrange(0, j) + pair_views(ps[j], fresh, prepend)
                + ps.subrange(j + 1, ps.len() as int)
            &&& (wf_all(s) ==> wf_all(s2))
            &&& s2.len() == s.len()
        }),
    decreases s, 0int,
{
    if s.len() == 0 {
        assert(leaves_all(s).len() == 0);
        assert(!ids_all(s).contains(target));
        0
    } else {
        let tail = s.subrange(1, s.len() as int);
        let lh = leaves(s[0]);
        let lt = leaves_all(tail);
        let ps = leaves_all(s);
        assert(ps == lh + lt);
        let idf = |p: PaneView| p.id;
        lemma_map_values_add(lh, lt, idf);
        lemma_contains_add(lh.map_values(idf), lt.map_values(idf), target);
        assert(leaf_ids(s[0]) == lh.map_values(idf));
        assert(ids_all(tail) == lt.map_values(idf));
        let j0 = lemma_split_tree(s[0], target, dir, prepend, fresh);
        if contains_id(s[0], target) {
            assert(ids_all(s).contains(target));
            let s2 = split_trees(s, target, dir, prepend, fresh);
            let c2 = split_tree(s[0], target, dir, prepend, fresh);
            assert(s2 == seq![c2] + tail);
            assert(s2[0] == c2);
            assert(s2.subrange(1, s2.len() as int) =~= tail);
            assert(leaves_all(s2) == leaves(c2) + lt);
            let pair = pair_views(lh[j0], fresh, prepend);
            assert(leaves(c2) == lh.subrange(0, j0) + pair + lh.subrange(j0 + 1, lh.len() as int));
            assert(ps[j0] == lh[j0]);
            assert(ps.subrange(0, j0) =~= lh.subrange(0, j0));
            assert(ps.subrange(j0 + 1, ps.len() as int) =~= lh.subrange(j0 + 1, lh.len() as int)
                + lt);
            assert(leaves_all(s2) =~= ps.subrange(0, j0) + pair + ps.subrange(
                j0 + 1,
                ps.len() as int,
            ));
            if wf_all(s) {
                assert(wf(s[0]));
                assert(wf_all(tail));
                assert(wf(c2));
                assert(wf_all(s2)) by {
                    assert(wf(s2[0]));
                    assert(wf_all(s2.subrange(1, s2.len() as int)));
                }
            }
            j0
        } else if ids_all(s).contains(target) {
            assert(ids_all(tail).contains(target));
            let jt = lemma_split_trees(tail, target, dir, prepend, fresh);
            let j = lh.len() as int + jt;
            let s2 = split_trees(s, target, dir, prepend, fresh);
            let c2 = split_tree(s[0], target, dir, prepend, fresh);
            assert(c2 == s[0]);
            let t2s = split_trees(tail, target, dir, prepend, fresh);
            assert(s2 == seq![c2] + t2s);
            assert(s2[0] == s[0]);
            assert(s2.subrange(1, s2.len() as int) =~= t2s);
            assert(leaves_all(s2) == lh + leaves_all(t2s));
            let pair = pair_views(lt[jt], fresh, prepend);
            assert(leaves_all(t2s) == lt.subrange(0, jt) + pair + lt.subrange(
                jt + 1,
                lt.len() as int,
            ));
            assert(ps[j] == lt[jt]);
            assert(ps.subrange(0, j) =~= lh + lt.subrange(0, jt));
            assert(ps.subrange(j + 1, ps.len() as int) =~= lt.subrange(jt + 1, lt.len() as int));
            assert(leaves_all(s2) =~= ps.subrange(0, j) + pair + ps.subrange(
                j + 1,
                ps.len() as int,
            ));
            if wf_all(s) {
                assert(wf(s[0]));
                assert(wf_all(tail));
                assert(wf_all(s2)) by {
                    assert(wf(s2[0]));
                    assert(wf_all(s2.subrange(1, s2.len() as int)));
                }
            }
            j
        } else {
            let s2 = split_trees(s, target, dir, prepend, fresh);
            let c2 = split_tree(s[0], target, dir, prepend, fresh);
            assert(c2 == s[0]);
            let _ = lemma_split_trees(tail, target, dir, prepend, fresh);
            assert(split_trees(tail, target, dir, prepend, fresh) == tail);
            assert(s2 =~= s);
            0
        }
    }
}

/// Closing a leaf removes exactly its pane from the depth-first leaf
/// sequence, and the collapsed result is well formed again.  A removal
/// happens iff the tree is a split that holds the id.  Returns the
/// removed pane's position.
pub proof fn lemma_delete_tree(t: NodeView, target: usize) -> (j: int)
    requires
        wf(t),
    ensures
        spec_delete(t, target).1 == (t is Split && contains_id(t, target)),
        !spec_delete(t, target).1 ==> spec_delete(t, target).0 == t,
        spec_delete(t, target).1 ==> ({
            let t2 = collapse1(spec_delete(t, target).0);
            let ps = leaves(t);
            &&& 0 <= j < ps.len()
            &&& ps[j].id == target
            &&& leaves(t2) == ps.subrange(0, j) + ps.subrange(j + 1, ps.len() as int)
            &&& wf(t2)
        }),
    decreases t, 1int,
{
    match t {
        NodeView::Leaf(p) => 0,
        NodeView::Split { direction, children } => {
            let ps = leaves(t);
            assert(ps == leaves_all(children));
            assert(leaf_ids(t) == ids_all(children));
            lemma_first_leaf_pos_char(children, target);
            let pos = first_leaf_pos(children, target);
            if pos != -1 {
                // The target is a direct child leaf: it is dropped from the
                // child list.
                let cp = children[pos]->Leaf_0;
                assert(children[pos] == NodeView::Leaf(cp));
                let cs2 = children.remove(pos);
                assert(spec_delete(t, target).0 == (NodeView::Split {
                    direction,
                    children: cs2,
                }));
                lemma_leaves_all_index(children, pos);
                let pre = children.subrange(0, pos);
                let suf = children.subrange(pos + 1, children.len() as int);
                assert(cs2 =~= pre + suf);
                lemma_leaves_all_add(pre, suf);
                assert(leaves(children[pos]) =~= seq![cp]);
                let j = leaves_all(pre).len() as int;
                assert(ps =~= leaves_all(pre) + seq![cp] + leaves_all(suf));
                assert(ps[j] == cp);
                assert(ps[j].id == target);
                assert(contains_id(t, target)) by {
                    assert(leaf_ids(t)[j] == target);
                }
                assert(ps.subrange(0, j) =~= leaves_all(pre));
                assert(ps.subrange(j + 1, ps.len() as int) =~= leaves_all(suf));
                assert(leaves_all(cs2) =~= ps.subrange(0, j) + ps.subrange(j + 1, ps.len() as int));
                // Well-formedness after the removal and the root collapse.
                lemma_wf_all_index(children);
                lemma_wf_all_index(cs2);
                assert(forall|i: int| 0 <= i < cs2.len() ==> #[trigger] cs2[i] == (pre + suf)[i]);
                assert(wf_all(cs2));
                let t2 = collapse1(spec_delete(t, target).0);
                if cs2.len() == 1 {
                    assert(t2 == cs2[0]);
                    assert(wf(t2));
                } else {
                    assert(cs2.len() >= 2);
                    assert(wf(t2));
                }
                lemma_collapse1_leaves(spec_delete(t, target).0);
                j
            } else {
                // The target, if present, sits deeper: the first child that
                // holds it is rebuilt, and collapsed if it lost its arity.
                let (cs2, f) = delete_in(children, target);
                let j = lemma_delete_in(children, target);
                assert(spec_delete(t, target).0 == (NodeView::Split {
                    direction,
                    children: cs2,
                }));
                lemma_contains_id_all(children, target);
                // A child holding the id without being a split would be a
                // direct target leaf, which the first pass excluded.
                assert(f == contains_id(t, target)) by {
                    lemma_wf_all_index(children);
                    if contains_id(t, target) {
                        let i = choose|i: int|
                            0 <= i < children.len() && contains_id(#[trigger] children[i], target);
                        if !(children[i] is Split) {
                            let cp = children[i]->Leaf_0;
                            assert(leaf_ids(children[i]) =~= seq![cp.id]);
                            assert(leaf_ids(children[i]).contains(target));
                            let q = choose|q: int|
                                0 <= q < leaf_ids(children[i]).len() && leaf_ids(children[i])[q]
                                    == target;
                            assert(cp.id == target);
                            assert(is_target_leaf(children[i], target));
                        }
                    }
                }
                if f {
                    assert(cs2.len() == children.len() >= 2);
                    let t2 = collapse1(spec_delete(t, target).0);
                    assert(t2 == spec_delete(t, target).0);
                    assert(wf(t2));
                }
                j
            }
        }
    }
}

pub proof fn lemma_delete_in(s: Seq<NodeView>, target: usize) -> (j: int)
    requires
        wf_all(s),
    ensures
        delete_in(s, target).1 == (exists|i: int|
            0 <= i < s.len() && (#[trigger] s[i]) is Split && contains_id(s[i], target)),
        !delete_in(s, target).1 ==> delete_in(s, target).0 == s,
        delete_in(s, target).1 ==> ({
            let s2 = delete_in(s, target).0;
            let ps = leaves_all(s);
            &&& 0 <= j < ps.len()
            &&& ps[j].id == target
            &&& leaves_all(s2) == ps.subrange(0, j) + ps.subrange(j + 1, ps.len() as int)
            &&& wf_all(s2)
            &&& s2.len() == s.len()
        }),
    decreases s, 0int,
{
    if s.len() == 0 {
        0
    } else {
        let tail = s.subrange(1, s.len() as int);
        assert(wf(s[0]) && wf_all(tail));
        let lh = leaves(s[0]);
        let lt = leaves_all(tail);
        let ps = leaves_all(s);
        assert(ps == lh + lt);
        let j0 = lemma_delete_tree(s[0], target);
        let (c2, f) = spec_delete(s[0], target);
        if f {
            let c3 = collapse1(c2);
            let s2 = delete_in(s, target).0;
            assert(s2 == seq![c3] + tail);
            assert(s2[0] == c3);
            assert(s2.subrange(1, s2.len() as int) =~= tail);
            assert(leaves_all(s2) == leaves(c3) + lt);
            assert(leaves(c3) == lh.subrange(0, j0) + lh.subrange(j0 + 1, lh.len() as int));
            assert(ps[j0] == lh[j0]);
            assert(ps.subrange(0, j0) =~= lh.subrange(0, j0));
            assert(ps.subrange(j0 + 1, ps.len() as int) =~= lh.subrange(j0 + 1, lh.len() as int)
                + lt);
            assert(leaves_all(s2) =~= ps.subrange(0, j0) + ps.subrange(j0 + 1, ps.len() as int));
            assert(wf_all(s2)) by {
                assert(wf(s2[0]));
                assert(wf_all(s2.subrange(1, s2.len() as int)));
            }
            assert(delete_in(s, target).1 == (exists|i: int|
                0 <= i < s.len() && (#[trigger] s[i]) is Split && contains_id(s[i], target))) by {
                assert(s[0] is Split && contains_id(s[0], target));
            }
            j0
        } else {
            assert(c2 == s[0]);
            let jt = lemma_delete_in(tail, target);
            let (cst, ft) = delete_in(tail, target);
            let s2 = delete_in(s, target).0;
            assert(s2 == seq![c2] + cst);
            assert(s2[0] == s[0]);
            assert(s2.subrange(1, s2.len() as int) =~= cst);
            assert(delete_in(s, target).1 == ft);
            assert(ft == (exists|i: int|
                0 <= i < s.len() && (#[trigger] s[i]) is Split && contains_id(s[i], target))) by {
                if ft {
                    let i = choose|i: int|
                        0 <= i < tail.len() && (#[trigger] tail[i]) is Split && contains_id(
                            tail[i],
                            target,
                        );
                    assert(s[i + 1] is Split && contains_id(s[i + 1], target));
                }
                if exists|i: int|
                    0 <= i < s.len() && (#[trigger] s[i]) is Split && contains_id(s[i], target) {
                    let i = choose|i: int|
                        0 <= i < s.len() && (#[trigger] s[i]) is Split && contains_id(
                            s[i],
                            target,
                        );
                    assert(i != 0);
                    assert(tail[i - 1] is Split && contains_id(tail[i - 1], target));
                }
            }
            if ft {
                let j = lh.len() as int + jt;
                assert(leaves_all(s2) == lh + leaves_all(cst));
                assert(leaves_all(cst) == lt.subrange(0, jt) + lt.subrange(jt + 1, lt.len() as int));
                assert(ps[j] == lt[jt]);
                assert(ps.subrange(0, j) =~= lh + lt.subrange(0, jt));
                assert(ps.subrange(j + 1, ps.len() as int) =~= lt.subrange(
                    jt + 1,
                    lt.len() as int,
                ));
                assert(leaves_all(s2) =~= ps.subrange(0, j) + ps.subrange(j + 1, ps.len() as int));
                assert(wf_all(s2)) by {
                    assert(wf(s2[0]));
                    assert(wf_all(s2.subrange(1, s2.len() as int)));
                }
                j
            } else {
                assert(cst == tail);
                assert(s2 =~= s);
                0
            }
        }
    }
}

/// Splitting a leaf and then closing the fresh pane restores the tree
/// exactly: the new split collapses away and the original pane stands
/// where it stood.
pub proof fn lemma_split_close_round_trip(
    t: NodeView,
    target: usize,
    dir: Direction,
    prepend: bool,
    fresh: PaneView,
)
    requires
        wf(t),
        contains_id(t, target),
        !contains_id(t, fresh.id),
        fresh.id != target,
    ensures
        spec_delete(split_tree(t, target, dir, prepend, fresh), fresh.id).1,
        collapse1(spec_delete(split_tree(t, target, dir, prepend, fresh), fresh.id).0) == t,
    decreases t, 1int,
{
    let t1 = split_tree(t, target, dir, prepend, fresh);
    match t {
        NodeView::Leaf(p) => {
            assert(leaf_ids(t) =~= seq![p.id]);
            assert(p.id == target) by {
                let i = choose|i: int| 0 <= i < leaf_ids(t).len() && leaf_ids(t)[i] == target;
            }
            let pr = split_pair(p, fresh, prepend);
            assert(t1 == (NodeView::Split { direction: dir, children: pr }));
            assert(pr.len() == 2);
            let tl = pr.subrange(1, pr.len() as int);
            assert(tl.len() == 1 && tl[0] == pr[1]);
            if prepend {
                assert(pr[0] == NodeView::Leaf(fresh) && pr[1] == NodeView::Leaf(p));
                assert(is_target_leaf(pr[0], fresh.id));
                assert(first_leaf_pos(pr, fresh.id) == 0);
                assert(pr.remove(0) =~= seq![NodeView::Leaf(p)]);
                assert(spec_delete(t1, fresh.id).0 == (NodeView::Split {
                    direction: dir,
                    children: pr.remove(0),
                }));
            } else {
                assert(pr[0] == NodeView::Leaf(p) && pr[1] == NodeView::Leaf(fresh));
                assert(!is_target_leaf(pr[0], fresh.id));
                assert(is_target_leaf(tl[0], fresh.id));
                assert(first_leaf_pos(tl, fresh.id) == 0);
                assert(first_leaf_pos(pr, fresh.id) == 1);
                assert(pr.remove(1) =~= seq![NodeView::Leaf(p)]);
                assert(spec_delete(t1, fresh.id).0 == (NodeView::Split {
                    direction: dir,
                    children: pr.remove(1),
                }));
            }
        }
        NodeView::Split { direction, children } => {
            assert(leaf_ids(t) == ids_all(children));
            let cs1 = split_trees(children, target, dir, prepend, fresh);
            assert(t1 == (NodeView::Split { direction, children: cs1 }));
            lemma_split_close_in(children, target, dir, prepend, fresh);
            lemma_first_leaf_pos_char(cs1, fresh.id);
            assert(spec_delete(t1, fresh.id).0 == (NodeView::Split {
                direction,
                children: delete_in(cs1, fresh.id).0,
            }));
            assert(delete_in(cs1, fresh.id).0 == children);
            let _ = lemma_split_trees(children, target, dir, prepend, fresh);
            assert(cs1.len() == children.len() >= 2);
            let _ = lemma_delete_in(cs1, fresh.id);
        }
    }
}

pub proof fn lemma_split_close_in(
    s: Seq<NodeView>,
    target: usize,
    dir: Direction,
    prepend: bool,
    fresh: PaneView,
)
    requires
        wf_all(s),
        !ids_all(s).contains(fresh.id),
        fresh.id != target,
        ids_all(s).contains(target),
    ensures
        ({
            let s1 = split_trees(s, target, dir, prepend, fresh);
            &&& forall|i: int|
                0 <= i < s1.len() ==> !is_target_leaf(#[trigger] s1[i], fresh.id)
            &&& delete_in(s1, fresh.id).1
            &&& delete_in(s1, fresh.id).0 == s
        }),
    decreases s, 0int,
{
    let s1 = split_trees(s, target, dir, prepend, fresh);
    assert(s.len() > 0) by {
        if s.len() == 0 {
            assert(leaves_all(s).len() == 0);
        }
    }
    let tail = s.subrange(1, s.len() as int);
    assert(wf(s[0]) && wf_all(tail));
    let lh = leaves(s[0]);
    let lt = leaves_all(tail);
    let idf = |p: PaneView| p.id;
    lemma_map_values_add(lh, lt, idf);
    lemma_contains_add(lh.map_values(idf), lt.map_values(idf), target);
    lemma_contains_add(lh.map_values(idf), lt.map_values(idf), fresh.id);
    assert(leaf_ids(s[0]) == lh.map_values(idf));
    assert(ids_all(tail) == lt.map_values(idf));
    assert(!contains_id(s[0], fresh.id) && !ids_all(tail).contains(fresh.id));
    if contains_id(s[0], target) {
        let c1 = split_tree(s[0], target, dir, prepend, fresh);
        assert(s1 == seq![c1] + tail);
        assert(s1[0] == c1);
        assert(s1.subrange(1, s1.len() as int) =~= tail);
        lemma_split_close_round_trip(s[0], target, dir, prepend, fresh);
        // The split result is a split node, never a fresh leaf.
        assert(!is_target_leaf(c1, fresh.id)) by {
            match s[0] {
                NodeView::Leaf(q) => {
                    assert(leaf_ids(s[0]) =~= seq![q.id]);
                    assert(q.id == target) by {
                        let i = choose|i: int|
                            0 <= i < leaf_ids(s[0]).len() && leaf_ids(s[0])[i] == target;
                    }
                }
                NodeView::Split { .. } => {}
            }
        }
        assert(forall|i: int| 1 <= i < s1.len() ==> #[trigger] s1[i] == s[i]);
        assert(forall|i: int|
            0 <= i < s1.len() ==> !is_target_leaf(#[trigger] s1[i], fresh.id)) by {
            assert forall|i: int| 1 <= i < s1.len() implies !is_target_leaf(
                #[trigger] s1[i],
                fresh.id,
            ) by {
                if is_target_leaf(s1[i], fresh.id) {
                    let q = s[i]->Leaf_0;
                    assert(leaf_ids(s[i]) =~= seq![q.id]);
                    assert(contains_id(s[i], fresh.id)) by {
                        assert(leaf_ids(s[i])[0] == fresh.id);
                    }
                    lemma_contains_id_all(s, fresh.id);
                }
            }
        }
        // The recursive delete finds the fresh pane in the first child and
        // undoes the split there.
        let (c2, f) = spec_delete(c1, fresh.id);
        assert(f && collapse1(c2) == s[0]);
        assert(delete_in(s1, fresh.id).0 == seq![collapse1(c2)] + s1.subrange(
            1,
            s1.len() as int,
        ));
        assert(delete_in(s1, fresh.id).0 =~= s);
        assert(delete_in(s1, fresh.id).1);
    } else {
        assert(ids_all(tail).contains(target));
        let j0 = lemma_split_tree(s[0], target, dir, prepend, fresh);
        assert(split_tree(s[0], target, dir, prepend, fresh) == s[0]);
        let t1s = split_trees(tail, target, dir, prepend, fresh);
        assert(s1 == seq![s[0]] + t1s);
        assert(s1[0] == s[0]);
        assert(s1.subrange(1, s1.len() as int) =~= t1s);
        lemma_split_close_in(tail, target, dir, prepend, fresh);
        assert(forall|i: int|
            0 <= i < s1.len() ==> !is_target_leaf(#[trigger] s1[i], fresh.id)) by {
            if is_target_leaf(s1[0], fresh.id) {
                let q = s[0]->Leaf_0;
                assert(leaf_ids(s[0]) =~= seq![q.id]);
                assert(contains_id(s[0], fresh.id)) by {
                    assert(leaf_ids(s[0])[0] == fresh.id);
                }
            }
            assert(forall|i: int| 1 <= i < s1.len() ==> #[trigger] s1[i] == t1s[i - 1]);
        }
        // The first child holds neither the target nor the fresh id, so the
        // delete passes it by and succeeds in the tail.
        let _ = lemma_delete_tree(s[0], fresh.id);
        assert(!spec_delete(s[0], fresh.id).1);
        assert(spec_delete(s[0], fresh.id).0 == s[0]);
        assert(delete_in(s1, fresh.id).0 == seq![s[0]] + delete_in(t1s, fresh.id).0);
        assert(delete_in(s1, fresh.id).0 =~= s);
        assert(delete_in(s1, fresh.id).1);
    }
}

/// A search for a capturing pane distributes over concatenation.
pub proof fn lemma_any_capturing_add(a: Seq<PaneView>, b: Seq<PaneView>, target: usize)
    ensures
        any_capturing(a + b, target) == (any_capturing(a, target) || any_capturing(b, target)),
{
    let c = a + b;
    if any_capturing(a, target) {
        let i = choose|i: int| 0 <= i < a.len() && a[i].id == target && a[i].active_input is Some;
        assert(c[i].id == target && c[i].active_input is Some);
    }
    if any_capturing(b, target) {
        let i = choose|i: int| 0 <= i < b.len() && b[i].id == target && b[i].active_input is Some;
        assert(c[a.len() + i].id == target && c[a.len() + i].active_input is Some);
    }
    if any_capturing(c, target) {
        let i = choose|i: int| 0 <= i < c.len() && c[i].id == target && c[i].active_input is Some;
        if i < a.len() {
            assert(a[i].id == target && a[i].active_input is Some);
        } else {
            assert(b[i - a.len()].id == target && b[i - a.len()].active_input is Some);
        }
    }
}

} // verus!
