use vstd::prelude::*;

use crate::scene_graph::{
    has_edge, lemma_child_reaches_less, reach_count, well_formed, NodeView, SceneGraph, SceneNode,
};

verus! {

/// One step of drawing a scene: the node that is visited, the step of its parent (whose
/// model transform it is composed with; `None` for the node the walk starts from), and
/// whether the node is drawn.
#[derive(Clone, Copy, PartialEq, Eq, Structural, Debug)]
pub struct DrawStep {
    pub node: usize,
    pub parent: Option<usize>,
    pub visible: bool,
}

/// A node is drawn when it has a non-negative index count.
pub open spec fn step_of(g: Seq<NodeView>, n: nat, parent: Option<usize>) -> DrawStep {
    DrawStep { node: n as usize, parent, visible: g[n as int].index_count >= 0 }
}

/// The steps of a depth-first walk from node `n`: first `n` itself, then the walks from
/// its children, in the order in which they were added. `base` is the position in the
/// whole plan of the first step, so that the children can name it as their parent.
pub open spec fn plan_from(g: Seq<NodeView>, n: nat, parent: Option<usize>, base: int) -> Seq<
    DrawStep,
>
    decreases reach_count(g, n as int), 1int, 0int,
{
    if n < g.len() {
        seq![step_of(g, n, parent)] + plan_children(g, n, 0, base, base + 1)
    } else {
        Seq::empty()
    }
}

/// The walks from the children of `owner` from its `k`-th child on, one after the other,
/// the first of them starting at position `base`; `owner_pos` is the position of the
/// step of `owner`.
pub open spec fn plan_children(g: Seq<NodeView>, owner: nat, k: nat, owner_pos: int, base: int) -> Seq<
    DrawStep,
>
    decreases reach_count(g, owner as int), 0int, g[owner as int].children.len() - k,
{
    if owner < g.len() && k < g[owner as int].children.len() {
        let c = g[owner as int].children[k as int];
        if c < g.len() && reach_count(g, c as int) < reach_count(g, owner as int) {
            let first = plan_from(g, c as nat, Some(owner_pos as usize), base);
            first + plan_children(g, owner, k + 1, owner_pos, base + first.len())
        } else {
            plan_children(g, owner, k + 1, owner_pos, base)
        }
    } else {
        Seq::empty()
    }
}

/// The order in which `draw_scene` visits the nodes below `root`, and for each the step
/// whose transform it builds on.
pub open spec fn scene_plan(g: Seq<NodeView>, root: nat) -> Seq<DrawStep> {
    plan_from(g, root, None, 0)
}

/// A step agrees with the graph: it names a node of the graph, and it is drawn exactly
/// when that node has a non-negative index count.
pub open spec fn step_matches_graph(g: Seq<NodeView>, s: DrawStep) -> bool {
    &&& s.node < g.len()
    &&& s.visible == (g[s.node as int].index_count >= 0)
}

/// Step `i` of `p` (whose first step stands at position `base` of the plan) names as its
/// parent an earlier step of `p`, and that step's node has the node of step `i` as a child.
pub open spec fn links_back(g: Seq<NodeView>, p: Seq<DrawStep>, base: int, i: int) -> bool {
    &&& p[i].parent is Some
    &&& base <= p[i].parent.unwrap() < base + i
    &&& g[p[p[i].parent.unwrap() - base].node as int].children.contains(p[i].node)
}

/// Step `i` of the walks below the children of `owner` names a parent step: the step of
/// `owner` itself, when its node is a child of `owner`, or an earlier step of the walks.
pub open spec fn child_links(
    g: Seq<NodeView>,
    owner: nat,
    owner_pos: int,
    p: Seq<DrawStep>,
    base: int,
    i: int,
) -> bool {
    &&& p[i].parent is Some
    &&& ({
        ||| (p[i].parent.unwrap() == owner_pos && g[owner as int].children.contains(p[i].node))
        ||| links_back(g, p, base, i)
    })
}

proof fn lemma_plan_from(g: Seq<NodeView>, n: nat, parent: Option<usize>, base: int)
    requires
        well_formed(g),
        g.len() <= usize::MAX,
        n < g.len(),
        0 <= base,
        base + plan_from(g, n, parent, base).len() <= usize::MAX + 1,
    ensures
        plan_from(g, n, parent, base).len() >= 1,
        plan_from(g, n, parent, base)[0] == step_of(g, n, parent),
        forall|i: int|
            0 <= i < plan_from(g, n, parent, base).len() ==> step_matches_graph(
                g,
                #[trigger] plan_from(g, n, parent, base)[i],
            ),
        forall|i: int|
            0 < i < plan_from(g, n, parent, base).len() ==> #[trigger] links_back(
                g,
                plan_from(g, n, parent, base),
                base,
                i,
            ),
    decreases reach_count(g, n as int), 1int, 0int,
{
    let p = plan_from(g, n, parent, base);
    let c = plan_children(g, n, 0, base, base + 1);
    assert(p == seq![step_of(g, n, parent)] + c);
    lemma_plan_children(g, n, 0, base, base + 1);
    assert forall|i: int| 0 <= i < p.len() implies step_matches_graph(g, #[trigger] p[i]) by {
        if i > 0 {
            assert(p[i] == c[i - 1]);
        }
    }
    assert forall|i: int| 0 < i < p.len() implies #[trigger] links_back(g, p, base, i) by {
        assert(p[i] == c[i - 1]);
        assert(child_links(g, n, base, c, base + 1, i - 1));
        let q = c[i - 1].parent.unwrap();
        if !(q == base && g[n as int].children.contains(c[i - 1].node)) {
            assert(links_back(g, c, base + 1, i - 1));
            assert(base + 1 <= q < base + i);
            assert(p[q - base] == c[q - (base + 1)]);
        }
    }
}

proof fn lemma_plan_children(g: Seq<NodeView>, owner: nat, k: nat, owner_pos: int, base: int)
    requires
        well_formed(g),
        g.len() <= usize::MAX,
        owner < g.len(),
        0 <= owner_pos < base,
        base + plan_children(g, owner, k, owner_pos, base).len() <= usize::MAX + 1,
    ensures
        forall|i: int|
            0 <= i < plan_children(g, owner, k, owner_pos, base).len() ==> step_matches_graph(
                g,
                #[trigger] plan_children(g, owner, k, owner_pos, base)[i],
            ),
        forall|i: int|
            0 <= i < plan_children(g, owner, k, owner_pos, base).len() ==> #[trigger] child_links(
                g,
                owner,
                owner_pos,
                plan_children(g, owner, k, owner_pos, base),
                base,
                i,
            ),
    decreases reach_count(g, owner as int), 0int, g[owner as int].children.len() - k,
{
    let p = plan_children(g, owner, k, owner_pos, base);
    if k < g[owner as int].children.len() {
        let c = g[owner as int].children[k as int];
        assert(c < g.len());
        assert(has_edge(g, owner as int, c as int));
        lemma_child_reaches_less(g, owner as int, c as int);
        let first = plan_from(g, c as nat, Some(owner_pos as usize), base);
        let rest = plan_children(g, owner, k + 1, owner_pos, base + first.len());
        assert(p == first + rest);
        lemma_plan_from(g, c as nat, Some(owner_pos as usize), base);
        lemma_plan_children(g, owner, k + 1, owner_pos, base + first.len());
        assert forall|i: int| 0 <= i < p.len() implies step_matches_graph(g, #[trigger] p[i]) by {
            if i >= first.len() {
                assert(p[i] == rest[i - first.len()]);
            }
        }
        assert forall|i: int| 0 <= i < p.len() implies #[trigger] child_links(
            g,
            owner,
            owner_pos,
            p,
            base,
            i,
        ) by {
            if i == 0 {
                assert(p[0] == first[0]);
                assert(g[owner as int].children[k as int] == c);
            } else if i < first.len() {
                assert(p[i] == first[i]);
                assert(links_back(g, first, base, i));
                let q = first[i].parent.unwrap();
                assert(p[q - base] == first[q - base]);
            } else {
                let j = i - first.len();
                assert(p[i] == rest[j]);
                assert(child_links(g, owner, owner_pos, rest, base + first.len(), j));
                if !(rest[j].parent.unwrap() == owner_pos && g[owner as int].children.contains(
                    rest[j].node,
                )) {
                    assert(links_back(g, rest, base + first.len(), j));
                    let q = rest[j].parent.unwrap();
                    assert(p[q - base] == rest[q - base - first.len()]);
                }
            }
        }
    }
}

/// The `k`-th child of the node of step `i` of `p` (whose first step stands at position
/// `base` of the plan) is visited by a later step of `p` that names step `i` as its
/// parent.
pub open spec fn child_visited(g: Seq<NodeView>, p: Seq<DrawStep>, base: int, i: int, k: int) -> bool {
    exists|j: int|
        i < j < p.len() && (#[trigger] p[j]).parent == Some((base + i) as usize) && p[j].node
            == g[p[i].node as int].children[k]
}

/// Step `i` of `p` has each child of its node visited by a later step of `p` that names
/// step `i` as its parent.
pub open spec fn visits_children(g: Seq<NodeView>, p: Seq<DrawStep>, base: int, i: int) -> bool {
    forall|k: int| 0 <= k < g[p[i].node as int].children.len() ==> #[trigger] child_visited(g, p, base, i, k)
}

proof fn lemma_complete_from(g: Seq<NodeView>, n: nat, parent: Option<usize>, base: int)
    requires
        well_formed(g),
        g.len() <= usize::MAX,
        n < g.len(),
        0 <= base,
        base + plan_from(g, n, parent, base).len() <= usize::MAX + 1,
    ensures
        forall|i: int|
            0 <= i < plan_from(g, n, parent, base).len() ==> #[trigger] visits_children(
                g,
                plan_from(g, n, parent, base),
                base,
                i,
            ),
    decreases reach_count(g, n as int), 1int, 0int,
{
    let p = plan_from(g, n, parent, base);
    let c = plan_children(g, n, 0, base, base + 1);
    assert(p == seq![step_of(g, n, parent)] + c);
    lemma_complete_children(g, n, 0, base, base + 1);
    assert forall|i: int| 0 <= i < p.len() implies #[trigger] visits_children(g, p, base, i) by {
        if i == 0 {
            assert(p[0].node == n);
            assert forall|k: int| 0 <= k < g[p[i].node as int].children.len() implies #[trigger] child_visited(
                g,
                p,
                base,
                i,
                k,
            ) by {
                let j0 = choose|j0: int|
                    0 <= j0 < c.len() && (#[trigger] c[j0]).parent == Some(base as usize) && c[j0].node
                        == g[n as int].children[k];
                assert(p[j0 + 1] == c[j0]);
            }
            assert(visits_children(g, p, base, i));
        } else {
            assert(p[i] == c[i - 1]);
            assert(visits_children(g, c, base + 1, i - 1));
            assert forall|k: int| 0 <= k < g[p[i].node as int].children.len() implies #[trigger] child_visited(
                g,
                p,
                base,
                i,
                k,
            ) by {
                assert(child_visited(g, c, base + 1, i - 1, k));
                let j0 = choose|j0: int|
                    i - 1 < j0 < c.len() && (#[trigger] c[j0]).parent == Some(((base + 1) + (i - 1)) as usize)
                        && c[j0].node == g[c[i - 1].node as int].children[k];
                assert(p[j0 + 1] == c[j0]);
            }
            assert(visits_children(g, p, base, i));
        }
    }
}

proof fn lemma_complete_children(g: Seq<NodeView>, owner: nat, k0: nat, owner_pos: int, base: int)
    requires
        well_formed(g),
        g.len() <= usize::MAX,
        owner < g.len(),
        0 <= owner_pos < base,
        base + plan_children(g, owner, k0, owner_pos, base).len() <= usize::MAX + 1,
    ensures
        forall|i: int|
            0 <= i < plan_children(g, owner, k0, owner_pos, base).len() ==> #[trigger] visits_children(
                g,
                plan_children(g, owner, k0, owner_pos, base),
                base,
                i,
            ),
        forall|k: int|
            #![trigger g[owner as int].children[k]]
            k0 <= k < g[owner as int].children.len() ==> exists|j: int|
                0 <= j < plan_children(g, owner, k0, owner_pos, base).len() && (#[trigger] plan_children(
                    g,
                    owner,
                    k0,
                    owner_pos,
                    base,
                )[j]).parent == Some(owner_pos as usize) && plan_children(g, owner, k0, owner_pos, base)[j].node
                    == g[owner as int].children[k],
    decreases reach_count(g, owner as int), 0int, g[owner as int].children.len() - k0,
{
    let p = plan_children(g, owner, k0, owner_pos, base);
    if k0 < g[owner as int].children.len() {
        let c = g[owner as int].children[k0 as int];
        assert(c < g.len());
        assert(has_edge(g, owner as int, c as int));
        lemma_child_reaches_less(g, owner as int, c as int);
        let first = plan_from(g, c as nat, Some(owner_pos as usize), base);
        let rest = plan_children(g, owner, k0 + 1, owner_pos, base + first.len());
        assert(p == first + rest);
        lemma_plan_from(g, c as nat, Some(owner_pos as usize), base);
        lemma_complete_from(g, c as nat, Some(owner_pos as usize), base);
        lemma_complete_children(g, owner, k0 + 1, owner_pos, base + first.len());
        assert forall|i: int| 0 <= i < p.len() implies #[trigger] visits_children(g, p, base, i) by {
            if i < first.len() {
                assert(p[i] == first[i]);
                assert(visits_children(g, first, base, i));
                assert forall|k: int| 0 <= k < g[p[i].node as int].children.len() implies #[trigger] child_visited(
                    g,
                    p,
                    base,
                    i,
                    k,
                ) by {
                    assert(child_visited(g, first, base, i, k));
                    let j0 = choose|j0: int|
                        i < j0 < first.len() && (#[trigger] first[j0]).parent == Some((base + i) as usize)
                            && first[j0].node == g[first[i].node as int].children[k];
                    assert(p[j0] == first[j0]);
                }
            } else {
                let i0 = i - first.len();
                assert(p[i] == rest[i0]);
                assert(visits_children(g, rest, base + first.len(), i0));
                assert forall|k: int| 0 <= k < g[p[i].node as int].children.len() implies #[trigger] child_visited(
                    g,
                    p,
                    base,
                    i,
                    k,
                ) by {
                    assert(child_visited(g, rest, base + first.len(), i0, k));
                    let j0 = choose|j0: int|
                        i0 < j0 < rest.len() && (#[trigger] rest[j0]).parent == Some(
                            ((base + first.len()) + i0) as usize,
                        ) && rest[j0].node == g[rest[i0].node as int].children[k];
                    assert(p[j0 + first.len()] == rest[j0]);
                }
            }
        }
        assert forall|k: int|
            #![trigger g[owner as int].children[k]]
            k0 <= k < g[owner as int].children.len() implies exists|j: int|
            0 <= j < p.len() && (#[trigger] p[j]).parent == Some(owner_pos as usize) && p[j].node
                == g[owner as int].children[k] by {
            if k == k0 {
                assert(p[0] == first[0]);
            } else {
                let j0 = choose|j0: int|
                    0 <= j0 < rest.len() && (#[trigger] rest[j0]).parent == Some(owner_pos as usize)
                        && rest[j0].node == g[owner as int].children[k];
                assert(p[j0 + first.len()] == rest[j0]);
            }
        }
    }
}

/// The `k1`-th and `k2`-th children of the node of step `i` are visited by later steps
/// that build on step `i`, the `k1`-th before the `k2`-th.
pub open spec fn children_in_order(
    g: Seq<NodeView>,
    p: Seq<DrawStep>,
    base: int,
    i: int,
    k1: int,
    k2: int,
) -> bool {
    exists|j1: int, j2: int|
        #![trigger p[j1], p[j2]]
        i < j1 < j2 < p.len() && p[j1].parent == Some((base + i) as usize) && p[j2].parent == Some(
            (base + i) as usize,
        ) && p[j1].node == g[p[i].node as int].children[k1] && p[j2].node == g[p[i].node as int].children[k2]
}

/// Step `i` visits the children of its node in the order in which they were added.
pub open spec fn visits_in_order(g: Seq<NodeView>, p: Seq<DrawStep>, base: int, i: int) -> bool {
    forall|k1: int, k2: int|
        0 <= k1 < k2 < g[p[i].node as int].children.len() ==> #[trigger] children_in_order(g, p, base, i, k1, k2)
}

proof fn lemma_order_from(g: Seq<NodeView>, n: nat, parent: Option<usize>, base: int)
    requires
        well_formed(g),
        g.len() <= usize::MAX,
        n < g.len(),
        0 <= base,
        base + plan_from(g, n, parent, base).len() <= usize::MAX + 1,
    ensures
        forall|i: int|
            0 <= i < plan_from(g, n, parent, base).len() ==> #[trigger] visits_in_order(
                g,
                plan_from(g, n, parent, base),
                base,
                i,
            ),
    decreases reach_count(g, n as int), 1int, 0int,
{
    let p = plan_from(g, n, parent, base);
    let c = plan_children(g, n, 0, base, base + 1);
    assert(p == seq![step_of(g, n, parent)] + c);
    lemma_order_children(g, n, 0, base, base + 1);
    assert forall|i: int| 0 <= i < p.len() implies #[trigger] visits_in_order(g, p, base, i) by {
        if i == 0 {
            assert(p[0].node == n);
            assert forall|k1: int, k2: int|
                0 <= k1 < k2 < g[p[i].node as int].children.len() implies #[trigger] children_in_order(
                g,
                p,
                base,
                i,
                k1,
                k2,
            ) by {
                assert(ordered_in(g, c, n as int, base, k1, k2));
                let (j1, j2) = choose|j1: int, j2: int|
                    #![trigger c[j1], c[j2]]
                    0 <= j1 < j2 < c.len() && c[j1].parent == Some(base as usize) && c[j2].parent == Some(
                        base as usize,
                    ) && c[j1].node == g[n as int].children[k1] && c[j2].node == g[n as int].children[k2];
                assert(p[j1 + 1] == c[j1]);
                assert(p[j2 + 1] == c[j2]);
            }
        } else {
            assert(p[i] == c[i - 1]);
            assert(visits_in_order(g, c, base + 1, i - 1));
            assert forall|k1: int, k2: int|
                0 <= k1 < k2 < g[p[i].node as int].children.len() implies #[trigger] children_in_order(
                g,
                p,
                base,
                i,
                k1,
                k2,
            ) by {
                assert(children_in_order(g, c, base + 1, i - 1, k1, k2));
                let (j1, j2) = choose|j1: int, j2: int|
                    #![trigger c[j1], c[j2]]
                    i - 1 < j1 < j2 < c.len() && c[j1].parent == Some(((base + 1) + (i - 1)) as usize)
                        && c[j2].parent == Some(((base + 1) + (i - 1)) as usize) && c[j1].node
                        == g[c[i - 1].node as int].children[k1] && c[j2].node == g[c[i
                        - 1].node as int].children[k2];
                assert(p[j1 + 1] == c[j1]);
                assert(p[j2 + 1] == c[j2]);
            }
        }
    }
}

/// In the walks below the children of `owner`, its `k1`-th child is visited before its
/// `k2`-th, both building on the step of `owner`.
pub open spec fn ordered_in(g: Seq<NodeView>, c: Seq<DrawStep>, owner: int, owner_pos: int, k1: int, k2: int) -> bool {
    exists|j1: int, j2: int|
        #![trigger c[j1], c[j2]]
        0 <= j1 < j2 < c.len() && c[j1].parent == Some(owner_pos as usize) && c[j2].parent == Some(
            owner_pos as usize,
        ) && c[j1].node == g[owner].children[k1] && c[j2].node == g[owner].children[k2]
}

proof fn lemma_order_children(g: Seq<NodeView>, owner: nat, k0: nat, owner_pos: int, base: int)
    requires
        well_formed(g),
        g.len() <= usize::MAX,
        owner < g.len(),
        0 <= owner_pos < base,
        base + plan_children(g, owner, k0, owner_pos, base).len() <= usize::MAX + 1,
    ensures
        forall|i: int|
            0 <= i < plan_children(g, owner, k0, owner_pos, base).len() ==> #[trigger] visits_in_order(
                g,
                plan_children(g, owner, k0, owner_pos, base),
                base,
                i,
            ),
        forall|k1: int, k2: int|
            k0 <= k1 < k2 < g[owner as int].children.len() ==> #[trigger] ordered_in(
                g,
                plan_children(g, owner, k0, owner_pos, base),
                owner as int,
                owner_pos,
                k1,
                k2,
            ),
    decreases reach_count(g, owner as int), 0int, g[owner as int].children.len() - k0,
{
    let p = plan_children(g, owner, k0, owner_pos, base);
    if k0 < g[owner as int].children.len() {
        let c = g[owner as int].children[k0 as int];
        assert(c < g.len());
        assert(has_edge(g, owner as int, c as int));
        lemma_child_reaches_less(g, owner as int, c as int);
        let first = plan_from(g, c as nat, Some(owner_pos as usize), base);
        let rest = plan_children(g, owner, k0 + 1, owner_pos, base + first.len());
        assert(p == first + rest);
        lemma_plan_from(g, c as nat, Some(owner_pos as usize), base);
        lemma_order_from(g, c as nat, Some(owner_pos as usize), base);
        lemma_order_children(g, owner, k0 + 1, owner_pos, base + first.len());
        lemma_complete_children(g, owner, k0 + 1, owner_pos, base + first.len());
        assert forall|i: int| 0 <= i < p.len() implies #[trigger] visits_in_order(g, p, base, i) by {
            if i < first.len() {
                assert(p[i] == first[i]);
                assert(visits_in_order(g, first, base, i));
                assert forall|k1: int, k2: int|
                    0 <= k1 < k2 < g[p[i].node as int].children.len() implies #[trigger] children_in_order(
                    g,
                    p,
                    base,
                    i,
                    k1,
                    k2,
                ) by {
                    assert(children_in_order(g, first, base, i, k1, k2));
                    let (j1, j2) = choose|j1: int, j2: int|
                        #![trigger first[j1], first[j2]]
                        i < j1 < j2 < first.len() && first[j1].parent == Some((base + i) as usize)
                            && first[j2].parent == Some((base + i) as usize) && first[j1].node
                            == g[first[i].node as int].children[k1] && first[j2].node
                            == g[first[i].node as int].children[k2];
                    assert(p[j1] == first[j1]);
                    assert(p[j2] == first[j2]);
                }
            } else {
                let i0 = i - first.len();
                assert(p[i] == rest[i0]);
                assert(visits_in_order(g, rest, base + first.len(), i0));
                assert forall|k1: int, k2: int|
                    0 <= k1 < k2 < g[p[i].node as int].children.len() implies #[trigger] children_in_order(
                    g,
                    p,
                    base,
                    i,
                    k1,
                    k2,
                ) by {
                    assert(children_in_order(g, rest, base + first.len(), i0, k1, k2));
                    let (j1, j2) = choose|j1: int, j2: int|
                        #![trigger rest[j1], rest[j2]]
                        i0 < j1 < j2 < rest.len() && rest[j1].parent == Some(
                            ((base + first.len()) + i0) as usize,
                        ) && rest[j2].parent == Some(((base + first.len()) + i0) as usize)
                            && rest[j1].node == g[rest[i0].node as int].children[k1] && rest[j2].node
                            == g[rest[i0].node as int].children[k2];
                    assert(p[j1 + first.len()] == rest[j1]);
                    assert(p[j2 + first.len()] == rest[j2]);
                }
            }
        }
        assert forall|k1: int, k2: int|
            k0 <= k1 < k2 < g[owner as int].children.len() implies #[trigger] ordered_in(
            g,
            p,
            owner as int,
            owner_pos,
            k1,
            k2,
        ) by {
            if k1 == k0 {
                assert(p[0] == first[0]);
                let j = choose|j: int|
                    0 <= j < rest.len() && (#[trigger] rest[j]).parent == Some(owner_pos as usize)
                        && rest[j].node == g[owner as int].children[k2];
                assert(p[j + first.len()] == rest[j]);
                assert(p[0].node == g[owner as int].children[k1]);
            } else {
                assert(ordered_in(g, rest, owner as int, owner_pos, k1, k2));
                let (j1, j2) = choose|j1: int, j2: int|
                    #![trigger rest[j1], rest[j2]]
                    0 <= j1 < j2 < rest.len() && rest[j1].parent == Some(owner_pos as usize)
                        && rest[j2].parent == Some(owner_pos as usize) && rest[j1].node
                        == g[owner as int].children[k1] && rest[j2].node == g[owner as int].children[k2];
                assert(p[j1 + first.len()] == rest[j1]);
                assert(p[j2 + first.len()] == rest[j2]);
            }
        }
    }
}

/// The walk leaves nothing out: for each step and each child of its node, a later step
/// visits that child and builds on the step of its parent, and the children are visited
/// in the order in which they were added. So every child of every visited node is
/// visited, however many children a node has.
pub proof fn lemma_draw_plan_complete(g: Seq<NodeView>, root: nat)
    requires
        well_formed(g),
        g.len() <= usize::MAX,
        root < g.len(),
        scene_plan(g, root).len() <= usize::MAX,
    ensures
        forall|i: int|
            0 <= i < scene_plan(g, root).len() ==> #[trigger] visits_children(g, scene_plan(g, root), 0, i),
        forall|i: int|
            0 <= i < scene_plan(g, root).len() ==> #[trigger] visits_in_order(g, scene_plan(g, root), 0, i),
{
    lemma_complete_from(g, root, None, 0);
    lemma_order_from(g, root, None, 0);
}

fn plan_node(graph: &SceneGraph, n: usize, parent: Option<usize>, out: &mut Vec<DrawStep>)
    requires
        well_formed(graph@),
        n < graph@.len(),
    ensures
        final(out)@ == old(out)@ + plan_from(graph@, n as nat, parent, old(out)@.len() as int),
    decreases reach_count(graph@, n as int),
{
    let g = Ghost(graph@);
    let pos = out.len();
    let node: &SceneNode = graph.node(n);
    out.push(DrawStep { node: n, parent, visible: node.index_count >= 0 });
    let ghost start = out@;
    let count = node.children.len();
    let mut k: usize = 0;
    while k < count
        invariant
            g@ == graph@,
            well_formed(g@),
            n < g@.len(),
            node@ == g@[n as int],
            count == g@[n as int].children.len(),
            k <= count,
            pos == old(out)@.len(),
            start == old(out)@.push(step_of(g@, n as nat, parent)),
            start + plan_children(g@, n as nat, 0, pos as int, pos + 1) == out@
                + plan_children(g@, n as nat, k as nat, pos as int, out@.len() as int),
        decreases count - k,
    {
        let c = node.children[k];
        assert(c < g@.len() && reach_count(g@, c as int) < reach_count(g@, n as int)) by {
            assert(g@[n as int].children[k as int] == c);
            assert(has_edge(g@, n as int, c as int));
            lemma_child_reaches_less(g@, n as int, c as int);
        }
        let ghost before = out@;
        plan_node(graph, c, Some(pos), out);
        proof {
            let first = plan_from(g@, c as nat, Some(pos), before.len() as int);
            assert(plan_children(g@, n as nat, k as nat, pos as int, before.len() as int) == first
                + plan_children(g@, n as nat, (k + 1) as nat, pos as int, (before.len() + first.len()) as int));
            assert(out@ == before + first);
            assert(before + first + plan_children(
                g@,
                n as nat,
                (k + 1) as nat,
                pos as int,
                (before.len() + first.len()) as int,
            ) =~= before + (first + plan_children(
                g@,
                n as nat,
                (k + 1) as nat,
                pos as int,
                (before.len() + first.len()) as int,
            )));
        }
        k = k + 1;
    }
    proof {
        assert(plan_children(g@, n as nat, k as nat, pos as int, out@.len() as int) =~= Seq::<
            DrawStep,
        >::empty());
        assert(out@ =~= start + plan_children(g@, n as nat, 0, pos as int, pos + 1));
        assert(plan_from(g@, n as nat, parent, pos as int) == seq![step_of(g@, n as nat, parent)]
            + plan_children(g@, n as nat, 0, pos as int, pos + 1));
        assert(out@ =~= old(out)@ + plan_from(g@, n as nat, parent, pos as int));
    }
}

/// The draw steps of the scene below `root`, in the order in which they are carried out:
/// a depth-first walk that visits a node, then the nodes below each of its children in
/// turn. Each step names the step of its parent, whose model transform its own is
/// composed with, and says whether the node is drawn.
pub fn draw_scene(graph: &SceneGraph, root: usize) -> (plan: Vec<DrawStep>)
    requires
        root < graph@.len(),
    ensures
        plan@ == scene_plan(graph@, root as nat),
        plan@.len() >= 1,
        plan@[0] == step_of(graph@, root as nat, None),
        forall|i: int| 0 <= i < plan@.len() ==> step_matches_graph(graph@, #[trigger] plan@[i]),
        forall|i: int| 0 < i < plan@.len() ==> #[trigger] links_back(graph@, plan@, 0, i),
        forall|i: int| 0 <= i < plan@.len() ==> #[trigger] visits_children(graph@, plan@, 0, i),
        forall|i: int| 0 <= i < plan@.len() ==> #[trigger] visits_in_order(graph@, plan@, 0, i),
{
    proof {
        use_type_invariant(graph);
    }
    let mut out: Vec<DrawStep> = Vec::new();
    plan_node(graph, root, None, &mut out);
    assert(out@ =~= scene_plan(graph@, root as nat));
    // Both lengths are those of vectors, so they fit in a usize.
    let _ = graph.len();
    let _ = out.len();
    proof {
        lemma_plan_from(graph@, root as nat, None, 0);
        lemma_draw_plan_complete(graph@, root as nat);
    }
    out
}

} // verus!
