use vstd::prelude::*;
use vstd::set_lib::{lemma_int_range, lemma_len_subset, set_int_range};

verus! {

/// A node of the scene graph, as far as the structure of the scene goes: the vertex
/// array object it draws, how many indices it draws (negative for a node that draws
/// nothing), and the nodes hanging below it, by their position in the graph.
pub struct SceneNode {
    pub vao_id: u32,
    pub index_count: i32,
    pub children: Vec<usize>,
}

/// What a node is, mathematically.
pub struct NodeView {
    pub vao_id: u32,
    pub index_count: i32,
    pub children: Seq<usize>,
}

impl View for SceneNode {
    type V = NodeView;

    open spec fn view(&self) -> NodeView {
        NodeView { vao_id: self.vao_id, index_count: self.index_count, children: self.children@ }
    }
}

impl SceneNode {
    /// A node that draws nothing and only groups its children.
    pub fn new() -> (r: Self)
        ensures
            r@.vao_id == 0,
            r@.index_count == -1,
            r@.children.len() == 0,
    {
        SceneNode { vao_id: 0, index_count: -1, children: Vec::new() }
    }

    /// A node that draws `index_count` indices of the vertex array object `vao_id`.
    pub fn from_vao(vao_id: u32, index_count: i32) -> (r: Self)
        ensures
            r@.vao_id == vao_id,
            r@.index_count == index_count,
            r@.children.len() == 0,
    {
        SceneNode { vao_id, index_count, children: Vec::new() }
    }
}

/// `b` is a child of `a`: `a` is a node of the graph and names `b` among its children.
pub open spec fn has_edge(g: Seq<NodeView>, a: int, b: int) -> bool {
    &&& 0 <= a < g.len()
    &&& exists|k: int| 0 <= k < g[a].children.len() && #[trigger] g[a].children[k] as int == b
}

/// The `i`-th step of `p` goes from a node to one of its children.
pub open spec fn step_ok(g: Seq<NodeView>, p: Seq<int>, i: int) -> bool {
    has_edge(g, p[i], p[i + 1])
}

/// `p` is a walk down the graph: it starts at a node and each step goes to a child.
pub open spec fn is_path(g: Seq<NodeView>, p: Seq<int>) -> bool {
    &&& p.len() >= 1
    &&& 0 <= p[0] < g.len()
    &&& forall|i: int| 0 <= i < p.len() - 1 ==> #[trigger] step_ok(g, p, i)
}

/// There is a walk down the graph from `a` to `b` (every node reaches itself).
pub open spec fn reaches(g: Seq<NodeView>, a: int, b: int) -> bool {
    exists|p: Seq<int>| #[trigger] is_path(g, p) && p[0] == a && p.last() == b
}

/// Every child a node names is a node of the graph.
pub open spec fn children_in_range(g: Seq<NodeView>) -> bool {
    forall|i: int, k: int|
        0 <= i < g.len() && 0 <= k < g[i].children.len() ==> #[trigger] g[i].children[k] < g.len()
}

/// No walk of one step or more comes back to where it started.
pub open spec fn acyclic(g: Seq<NodeView>) -> bool {
    forall|p: Seq<int>| #[trigger] is_path(g, p) && p.len() >= 2 ==> p[0] != p.last()
}

/// The graph's nodes name only nodes of the graph as children, and it has no cycle, so a
/// walk from any node ends.
pub open spec fn well_formed(g: Seq<NodeView>) -> bool {
    children_in_range(g) && acyclic(g)
}

/// Every child stands after its parent.
pub open spec fn forward(g: Seq<NodeView>) -> bool {
    forall|i: int, k: int|
        0 <= i < g.len() && 0 <= k < g[i].children.len() ==> i < #[trigger] g[i].children[k]
}

/// The nodes that `a` reaches.
pub open spec fn reach_set(g: Seq<NodeView>, a: int) -> Set<int> {
    Set::new(|b: int| reaches(g, a, b))
}

/// How many nodes `a` reaches; it shrinks from a node to each of its children.
pub open spec fn reach_count(g: Seq<NodeView>, a: int) -> nat {
    reach_set(g, a).len()
}

/// The items of `s` that are not in `gone`, in their order.
pub open spec fn removed(s: Seq<usize>, gone: Set<usize>) -> Seq<usize>
    decreases s.len(),
{
    if s.len() == 0 {
        Seq::empty()
    } else {
        let rest = removed(s.drop_last(), gone);
        if gone.contains(s.last()) {
            rest
        } else {
            rest.push(s.last())
        }
    }
}

/// An item is kept exactly when it is in `s` and not in `gone`.
pub proof fn lemma_removed_contains(s: Seq<usize>, gone: Set<usize>)
    ensures
        forall|x: usize| #[trigger] removed(s, gone).contains(x) <==> (s.contains(x) && !gone.contains(x)),
    decreases s.len(),
{
    if s.len() > 0 {
        lemma_removed_contains(s.drop_last(), gone);
        let rest = removed(s.drop_last(), gone);
        assert forall|x: usize| #[trigger] removed(s, gone).contains(x) <==> (s.contains(x)
            && !gone.contains(x)) by {
            if s.contains(x) && !gone.contains(x) {
                let i = choose|i: int| 0 <= i < s.len() && s[i] == x;
                if i < s.len() - 1 {
                    assert(s.drop_last()[i] == x);
                    assert(s.drop_last().contains(x));
                    assert(rest.contains(x));
                    let j = choose|j: int| 0 <= j < rest.len() && rest[j] == x;
                    if !gone.contains(s.last()) {
                        assert(rest.push(s.last())[j] == x);
                    }
                } else {
                    assert(rest.push(s.last())[rest.len() as int] == x);
                }
            }
            if removed(s, gone).contains(x) {
                let j = choose|j: int| 0 <= j < removed(s, gone).len() && removed(s, gone)[j] == x;
                if j < rest.len() {
                    assert(rest[j] == x);
                    assert(rest.contains(x));
                    let i = choose|i: int| 0 <= i < s.drop_last().len() && s.drop_last()[i] == x;
                    assert(s[i] == x);
                } else {
                    assert(s[s.len() - 1] == x);
                }
            }
        }
    }
}

/// Taking out the items of `a` and then those of `b` takes out the items of both.
pub proof fn lemma_removed_twice(s: Seq<usize>, a: Set<usize>, b: Set<usize>)
    ensures
        removed(removed(s, a), b) == removed(s, a.union(b)),
    decreases s.len(),
{
    if s.len() > 0 {
        lemma_removed_twice(s.drop_last(), a, b);
        let r = removed(s.drop_last(), a);
        if !a.contains(s.last()) {
            assert(r.push(s.last()).drop_last() =~= r);
        }
    }
}

/// Taking out nothing keeps everything.
pub proof fn lemma_removed_nothing(s: Seq<usize>)
    ensures
        removed(s, Set::<usize>::empty()) == s,
    decreases s.len(),
{
    if s.len() > 0 {
        lemma_removed_nothing(s.drop_last());
        assert(s.drop_last().push(s.last()) =~= s);
    }
}

/// Hanging `child` below `parent` and taking it out again leaves the parent as it was,
/// when `child` was not among its children before.
pub proof fn lemma_add_then_remove_child(g: Seq<NodeView>, parent: int, child: usize)
    requires
        0 <= parent < g.len(),
        !g[parent].children.contains(child),
    ensures
        ({
            let added = g.update(
                parent,
                NodeView { children: g[parent].children.push(child), ..g[parent] },
            );
            added.update(parent, pruned_node(added, parent, set![child])) == g
        }),
{
    let s = g[parent].children;
    lemma_removed_not_there(s, child);
    assert(s.push(child).drop_last() =~= s);
    let added = g.update(parent, NodeView { children: s.push(child), ..g[parent] });
    assert(added.update(parent, pruned_node(added, parent, set![child])) =~= g);
}

/// Taking out an item that is not there keeps everything.
pub proof fn lemma_removed_not_there(s: Seq<usize>, x: usize)
    requires
        !s.contains(x),
    ensures
        removed(s, set![x]) == s,
    decreases s.len(),
{
    if s.len() > 0 {
        assert(!s.drop_last().contains(x)) by {
            if s.drop_last().contains(x) {
                let i = choose|i: int| 0 <= i < s.drop_last().len() && s.drop_last()[i] == x;
                assert(s[i] == x);
            }
        }
        lemma_removed_not_there(s.drop_last(), x);
        assert(s.last() != x) by {
            assert(s[s.len() - 1] == s.last());
        }
        assert(s.drop_last().push(s.last()) =~= s);
    }
}

/// A path one node long.
pub proof fn lemma_single_path(g: Seq<NodeView>, a: int)
    requires
        0 <= a < g.len(),
    ensures
        is_path(g, seq![a]),
        reaches(g, a, a),
{
    assert(is_path(g, seq![a]));
}

/// A path extended by a child of its last node.
pub proof fn lemma_path_push(g: Seq<NodeView>, p: Seq<int>, b: int)
    requires
        is_path(g, p),
        has_edge(g, p.last(), b),
    ensures
        is_path(g, p.push(b)),
{
    let q = p.push(b);
    assert forall|i: int| 0 <= i < q.len() - 1 implies #[trigger] step_ok(g, q, i) by {
        if i < p.len() - 1 {
            assert(step_ok(g, p, i));
        }
    }
}

/// Two paths joined where the first ends and the second starts.
pub proof fn lemma_path_concat(g: Seq<NodeView>, p: Seq<int>, q: Seq<int>)
    requires
        is_path(g, p),
        is_path(g, q),
        p.last() == q[0],
    ensures
        is_path(g, p + q.drop_first()),
        (p + q.drop_first())[0] == p[0],
        (p + q.drop_first()).last() == q.last(),
        (p + q.drop_first()).len() == p.len() + q.len() - 1,
{
    let r = p + q.drop_first();
    assert forall|i: int| 0 <= i < r.len() - 1 implies #[trigger] step_ok(g, r, i) by {
        if i < p.len() - 1 {
            assert(step_ok(g, p, i));
        } else {
            let j = i - (p.len() - 1);
            assert(step_ok(g, q, j));
            assert(r[i] == q[j]);
            assert(r[i + 1] == q[j + 1]);
        }
    }
    if q.len() == 1 {
        assert(r =~= p);
    }
}

/// Reaching is transitive.
pub proof fn lemma_reaches_trans(g: Seq<NodeView>, a: int, b: int, c: int)
    requires
        reaches(g, a, b),
        reaches(g, b, c),
    ensures
        reaches(g, a, c),
{
    let p = choose|p: Seq<int>| #[trigger] is_path(g, p) && p[0] == a && p.last() == b;
    let q = choose|q: Seq<int>| #[trigger] is_path(g, q) && q[0] == b && q.last() == c;
    lemma_path_concat(g, p, q);
}

/// Reaching a node from one of its children would close a cycle; so in a graph without
/// cycles a child reaches fewer nodes than its parent.
pub proof fn lemma_child_reaches_less(g: Seq<NodeView>, n: int, c: int)
    requires
        well_formed(g),
        has_edge(g, n, c),
    ensures
        reach_count(g, c) < reach_count(g, n),
        !reaches(g, c, n),
{
    let k = choose|k: int| 0 <= k < g[n].children.len() && #[trigger] g[n].children[k] as int == c;
    assert(g[n].children[k] < g.len());
    lemma_single_path(g, n);
    lemma_single_path(g, c);
    let e = seq![n, c];
    assert(step_ok(g, e, 0));
    assert(is_path(g, e));
    if reaches(g, c, n) {
        let p = choose|p: Seq<int>| #[trigger] is_path(g, p) && p[0] == c && p.last() == n;
        lemma_path_concat(g, e, p);
        assert(false);
    }
    let sn = reach_set(g, n);
    let sc = reach_set(g, c);
    assert forall|b: int| sc.contains(b) implies sn.contains(b) by {
        lemma_reaches_trans(g, n, c, b);
    }
    assert forall|b: int| sn.contains(b) implies set_int_range(0, g.len() as int).contains(b) by {
        let p = choose|p: Seq<int>| #[trigger] is_path(g, p) && p[0] == n && p.last() == b;
        if p.len() > 1 {
            assert(step_ok(g, p, p.len() - 2));
            let j = choose|j: int|
                0 <= j < g[p[p.len() - 2]].children.len() && #[trigger] g[p[p.len()
                    - 2]].children[j] as int == b;
            assert(g[p[p.len() - 2]].children[j] < g.len());
        }
    }
    lemma_int_range(0, g.len() as int);
    lemma_len_subset(sn, set_int_range(0, g.len() as int));
    assert(sc.subset_of(sn.remove(n)));
    lemma_len_subset(sc, sn.remove(n));
}

/// In a graph whose children all stand after their parents, a node reaches only nodes
/// at or after it.
pub proof fn lemma_forward_reaches(g: Seq<NodeView>, a: int, b: int)
    requires
        forward(g),
        reaches(g, a, b),
    ensures
        a <= b,
{
    let p = choose|p: Seq<int>| #[trigger] is_path(g, p) && p[0] == a && p.last() == b;
    lemma_forward_path(g, p);
}

proof fn lemma_forward_path(g: Seq<NodeView>, p: Seq<int>)
    requires
        forward(g),
        is_path(g, p),
    ensures
        p[0] <= p.last(),
    decreases p.len(),
{
    if p.len() > 1 {
        let q = p.drop_last();
        assert forall|i: int| 0 <= i < q.len() - 1 implies #[trigger] step_ok(g, q, i) by {
            assert(step_ok(g, p, i));
        }
        lemma_forward_path(g, q);
        assert(step_ok(g, p, p.len() - 2));
        let j = choose|j: int|
            0 <= j < g[p[p.len() - 2]].children.len() && #[trigger] g[p[p.len()
                - 2]].children[j] as int == p.last();
        assert(p[p.len() - 2] < g[p[p.len() - 2]].children[j]);
    }
}

/// A walk in `g2`, whose edges are those of `g` and `parent → child`, either is a walk
/// in `g`, or reaches `parent` in `g` from where it starts and ends where `child`
/// reaches in `g`.
proof fn lemma_walk_with_new_edge(
    g: Seq<NodeView>,
    g2: Seq<NodeView>,
    parent: int,
    child: int,
    q: Seq<int>,
)
    requires
        g2.len() == g.len(),
        0 <= child < g.len(),
        forall|a: int, b: int| #[trigger] has_edge(g2, a, b) ==> has_edge(g, a, b) || (a == parent && b == child),
        is_path(g2, q),
    ensures
        is_path(g, q) || (reaches(g, q[0], parent) && reaches(g, child, q.last())),
    decreases q.len(),
{
    if q.len() > 1 {
        let r = q.drop_last();
        assert forall|i: int| 0 <= i < r.len() - 1 implies #[trigger] step_ok(g2, r, i) by {
            assert(step_ok(g2, q, i));
        }
        lemma_walk_with_new_edge(g, g2, parent, child, r);
        let last = q.len() - 2;
        assert(step_ok(g2, q, last));
        assert(q.last() == q[last + 1]);
        if has_edge(g, q[last], q[last + 1]) {
            if is_path(g, r) {
                lemma_path_push(g, r, q.last());
                assert(r.push(q.last()) =~= q);
            } else {
                let p = choose|p: Seq<int>| #[trigger] is_path(g, p) && p[0] == child && p.last() == r.last();
                lemma_path_push(g, p, q.last());
            }
        } else {
            lemma_single_path(g, child);
            if is_path(g, r) {
                assert(reaches(g, q[0], parent)) by {
                    assert(r[0] == q[0]);
                    assert(r.last() == parent);
                }
            }
        }
    }
}

/// Adding the edge `parent → child` to a graph without cycles keeps it without cycles,
/// as long as `child` does not reach `parent`.
pub proof fn lemma_add_edge_acyclic(g: Seq<NodeView>, g2: Seq<NodeView>, parent: int, child: int)
    requires
        well_formed(g),
        g2.len() == g.len(),
        0 <= parent < g.len(),
        0 <= child < g.len(),
        !reaches(g, child, parent),
        children_in_range(g2),
        forall|a: int, b: int| #[trigger] has_edge(g2, a, b) ==> has_edge(g, a, b) || (a == parent && b == child),
    ensures
        well_formed(g2),
{
    assert forall|q: Seq<int>| #[trigger] is_path(g2, q) && q.len() >= 2 implies q[0] != q.last() by {
        lemma_walk_with_new_edge(g, g2, parent, child, q);
        if !is_path(g, q) && q[0] == q.last() {
            lemma_reaches_trans(g, child, q[0], parent);
        }
    }
}

/// A graph with fewer edges than one without cycles has none either.
pub proof fn lemma_fewer_edges_acyclic(g: Seq<NodeView>, g2: Seq<NodeView>)
    requires
        well_formed(g),
        children_in_range(g2),
        forall|a: int, b: int| #[trigger] has_edge(g2, a, b) ==> has_edge(g, a, b),
    ensures
        well_formed(g2),
{
    assert forall|q: Seq<int>| #[trigger] is_path(g2, q) && q.len() >= 2 implies q[0] != q.last() by {
        assert(step_ok(g2, q, 0));
        assert forall|i: int| 0 <= i < q.len() - 1 implies #[trigger] step_ok(g, q, i) by {
            assert(step_ok(g2, q, i));
        }
        assert(is_path(g, q));
    }
}

/// `v` without the items equal to `x`, in their order.
pub fn without(v: &Vec<usize>, x: usize) -> (r: Vec<usize>)
    ensures
        r@ == removed(v@, set![x]),
{
    let mut r: Vec<usize> = Vec::new();
    let mut i: usize = 0;
    while i < v.len()
        invariant
            i <= v@.len(),
            r@ == removed(v@.take(i as int), set![x]),
        decreases v@.len() - i,
    {
        assert(v@.take(i + 1).drop_last() =~= v@.take(i as int));
        assert(v@.take(i + 1).last() == v@[i as int]);
        if v[i] != x {
            r.push(v[i]);
        }
        i = i + 1;
    }
    assert(v@.take(i as int) =~= v@);
    r
}

/// The node `g2[i]` is `g[i]` with the children in `gone` taken out.
pub open spec fn pruned_node(g: Seq<NodeView>, i: int, gone: Set<usize>) -> NodeView {
    NodeView { children: removed(g[i].children, gone), ..g[i] }
}

/// Taking children out of nodes leaves no edge that was not there before, and keeps
/// every child a node of the graph.
proof fn lemma_pruned_edges(g: Seq<NodeView>, g2: Seq<NodeView>, gone: Set<usize>)
    requires
        children_in_range(g),
        g2.len() == g.len(),
        forall|i: int|
            0 <= i < g.len() ==> #[trigger] g2[i] == g[i] || g2[i] == pruned_node(g, i, gone),
    ensures
        children_in_range(g2),
        forall|a: int, b: int| #[trigger] has_edge(g2, a, b) ==> has_edge(g, a, b),
{
    assert forall|a: int, b: int| #[trigger] has_edge(g2, a, b) implies has_edge(g, a, b) by {
        lemma_removed_nothing(g[a].children);
        let gone = if g2[a] == g[a] { Set::<usize>::empty() } else { gone };
        assert(g2[a] == pruned_node(g, a, gone));
        let k = choose|k: int| 0 <= k < g2[a].children.len() && #[trigger] g2[a].children[k] as int == b;
        let c = g2[a].children[k];
        assert(g2[a].children.contains(c));
        lemma_removed_contains(g[a].children, gone);
        assert(g[a].children.contains(c));
        let k2 = choose|k2: int| 0 <= k2 < g[a].children.len() && g[a].children[k2] == c;
        assert(g[a].children[k2] as int == b);
    }
    assert forall|i: int, k: int|
        0 <= i < g2.len() && 0 <= k < g2[i].children.len() implies #[trigger] g2[i].children[k] < g2.len() by {
        lemma_removed_nothing(g[i].children);
        let gone = if g2[i] == g[i] { Set::<usize>::empty() } else { gone };
        assert(g2[i] == pruned_node(g, i, gone));
        let c = g2[i].children[k];
        assert(g2[i].children.contains(c));
        lemma_removed_contains(g[i].children, gone);
        let k2 = choose|k2: int| 0 <= k2 < g[i].children.len() && g[i].children[k2] == c;
    }
}

/// How many of the flags are not set.
pub open spec fn count_unset(s: Seq<bool>) -> nat
    decreases s.len(),
{
    if s.len() == 0 {
        0
    } else {
        count_unset(s.drop_last()) + if s.last() {
            0nat
        } else {
            1nat
        }
    }
}

proof fn lemma_count_unset_set(s: Seq<bool>, i: int)
    requires
        0 <= i < s.len(),
        !s[i],
    ensures
        count_unset(s.update(i, true)) + 1 == count_unset(s),
    decreases s.len(),
{
    let t = s.update(i, true);
    if i < s.len() - 1 {
        assert(t.drop_last() =~= s.drop_last().update(i, true));
        lemma_count_unset_set(s.drop_last(), i);
    } else {
        assert(t.drop_last() =~= s.drop_last());
    }
}

/// The views of a row of nodes.
pub open spec fn views_of(nodes: Seq<SceneNode>) -> Seq<NodeView> {
    nodes.map_values(|n: SceneNode| n@)
}

/// A scene graph: its nodes live side by side, and a node names its children by position.
/// It never holds a cycle.
pub struct SceneGraph {
    nodes: Vec<SceneNode>,
}

impl View for SceneGraph {
    type V = Seq<NodeView>;

    closed spec fn view(&self) -> Seq<NodeView> {
        views_of(self.nodes@)
    }
}

impl SceneGraph {
    /// The graph names only its own nodes as children and has no cycle.
    #[verifier::type_invariant]
    pub open spec fn inv(&self) -> bool {
        well_formed(self@)
    }

    pub fn new() -> (r: Self)
        ensures
            r@ == Seq::<NodeView>::empty(),
    {
        let r = SceneGraph { nodes: Vec::new() };
        assert(r@ =~= Seq::<NodeView>::empty());
        r
    }

    pub fn len(&self) -> (r: usize)
        ensures
            r == self@.len(),
            well_formed(self@),
    {
        proof {
            use_type_invariant(self);
        }
        self.nodes.len()
    }

    /// The node at position `id`.
    pub fn node(&self, id: usize) -> (r: &SceneNode)
        requires
            id < self@.len(),
        ensures
            r@ == self@[id as int],
    {
        &self.nodes[id]
    }

    /// Adds a node that has no children yet, and gives back its position.
    pub fn add(&mut self, node: SceneNode) -> (id: usize)
        requires
            node@.children.len() == 0,
            old(self)@.len() < usize::MAX,
        ensures
            id == old(self)@.len(),
            final(self)@ == old(self)@.push(node@),
            forward(old(self)@) ==> forward(final(self)@),
    {
        proof {
            use_type_invariant(&*self);
        }
        let id = self.nodes.len();
        let ghost before = self@;
        let ghost v = node@;
        let mut nodes = Vec::new();
        std::mem::swap(&mut nodes, &mut self.nodes);
        nodes.push(node);
        proof {
            let g2 = views_of(nodes@);
            assert(g2 =~= before.push(v));
            assert forall|a: int, b: int| #[trigger] has_edge(g2, a, b) implies has_edge(before, a, b) by {
                if a < before.len() {
                    assert(g2[a] == before[a]);
                    let k = choose|k: int| 0 <= k < g2[a].children.len() && #[trigger] g2[a].children[k] as int == b;
                    assert(before[a].children[k] as int == b);
                }
            }
            assert forall|i: int, k: int|
                0 <= i < g2.len() && 0 <= k < g2[i].children.len() implies #[trigger] g2[i].children[k]
                < g2.len() by {
                assert(g2[i] == before[i]);
            }
            lemma_fewer_edges_acyclic(before, g2);
            if forward(before) {
                assert forall|i: int, k: int|
                    0 <= i < g2.len() && 0 <= k < g2[i].children.len() implies i
                    < #[trigger] g2[i].children[k] by {
                    assert(g2[i] == before[i]);
                }
            }
        }
        self.nodes = nodes;
        id
    }

    /// Whether `from` reaches `to` by a walk down the graph.
    pub fn reaches(&self, from: usize, to: usize) -> (r: bool)
        ensures
            r == reaches(self@, from as int, to as int),
    {
        proof {
            use_type_invariant(self);
        }
        let g = Ghost(self@);
        let n = self.nodes.len();
        if from >= n || to >= n {
            proof {
                if reaches(g@, from as int, to as int) {
                    let p = choose|p: Seq<int>| #[trigger] is_path(g@, p) && p[0] == from && p.last()
                        == to;
                    if p.len() > 1 {
                        assert(step_ok(g@, p, p.len() - 2));
                        let j = choose|j: int|
                            0 <= j < g@[p[p.len() - 2]].children.len() && #[trigger] g@[p[p.len()
                                - 2]].children[j] as int == to;
                        assert(g@[p[p.len() - 2]].children[j] < g@.len());
                    }
                }
            }
            return false;
        }
        let mut visited: Vec<bool> = Vec::new();
        let mut i: usize = 0;
        while i < n
            invariant
                i <= n,
                visited@.len() == i,
                forall|j: int| 0 <= j < i ==> !visited@[j],
            decreases n - i,
        {
            visited.push(false);
            i = i + 1;
        }
        let ghost unvisited_all = visited@;
        proof {
            lemma_single_path(g@, from as int);
            lemma_count_unset_set(visited@, from as int);
        }
        visited.set(from, true);
        let mut stack: Vec<usize> = Vec::new();
        stack.push(from);
        let ghost mut done: Set<int> = Set::empty();
        proof {
            assert forall|v: int|
                0 <= v < n implies (#[trigger] visited@[v] <==> (done.contains(v) || stack@.contains(
                v as usize,
            ))) by {
                if v == from {
                    assert(stack@[0] == from);
                } else {
                    assert(visited@[v] == unvisited_all[v]);
                    if stack@.contains(v as usize) {
                        let s = choose|s: int| 0 <= s < stack@.len() && stack@[s] == v as usize;
                        assert(s == 0);
                    }
                }
            }
        }
        while stack.len() > 0
            invariant
                g@ == self@,
                well_formed(g@),
                n == g@.len(),
                from < n,
                to < n,
                visited@.len() == n,
                visited@[from as int],
                forall|v: int|
                    0 <= v < n ==> (#[trigger] visited@[v] <==> (done.contains(v) || stack@.contains(
                        v as usize,
                    ))),
                forall|v: int| 0 <= v < n && #[trigger] visited@[v] ==> reaches(g@, from as int, v),
                forall|v: int| #[trigger] done.contains(v) ==> 0 <= v < n,
                forall|v: int, k: int|
                    done.contains(v) && 0 <= k < g@[v].children.len() ==> visited@[#[trigger] g@[v].children[k] as int],
                !done.contains(to as int),
                forall|s: int| 0 <= s < stack@.len() ==> #[trigger] stack@[s] < n,
            decreases 2 * count_unset(visited@) + stack@.len(),
        {
            let ghost measure = 2 * count_unset(visited@) + stack@.len();
            let ghost old_stack = stack@;
            let x = stack.pop().unwrap();
            assert(visited@[x as int]) by {
                assert(old_stack[old_stack.len() - 1] == x);
                assert(old_stack.contains(x));
            }
            if x == to {
                return true;
            }
            proof {
                assert(old_stack =~= stack@.push(x));
                assert forall|v: int|
                    0 <= v < n implies (#[trigger] visited@[v] <==> (done.contains(v)
                    || stack@.contains(v as usize) || v == x)) by {
                    if old_stack.contains(v as usize) {
                        let s = choose|s: int| 0 <= s < old_stack.len() && old_stack[s] == v as usize;
                        if s < stack@.len() {
                            assert(stack@[s] == v as usize);
                        }
                    }
                    if stack@.contains(v as usize) {
                        let s = choose|s: int| 0 <= s < stack@.len() && stack@[s] == v as usize;
                        assert(old_stack[s] == v as usize);
                    }
                    if v == x {
                        assert(old_stack[old_stack.len() - 1] == x);
                    }
                }
            }
            let node = &self.nodes[x];
            assert(node@ == g@[x as int]);
            let count = node.children.len();
            let mut k: usize = 0;
            while k < count
                invariant
                    g@ == self@,
                    well_formed(g@),
                    n == g@.len(),
                    x < n,
                    node@ == g@[x as int],
                    count == g@[x as int].children.len(),
                    k <= count,
                    visited@.len() == n,
                    visited@[from as int],
                    visited@[x as int],
                    forall|v: int|
                        0 <= v < n ==> (#[trigger] visited@[v] <==> (done.contains(v)
                            || stack@.contains(v as usize) || v == x)),
                    forall|v: int| 0 <= v < n && #[trigger] visited@[v] ==> reaches(g@, from as int, v),
                    forall|v: int| #[trigger] done.contains(v) ==> 0 <= v < n,
                    forall|v: int, j: int|
                        done.contains(v) && 0 <= j < g@[v].children.len() ==> visited@[#[trigger] g@[v].children[j] as int],
                    forall|j: int| 0 <= j < k ==> visited@[#[trigger] g@[x as int].children[j] as int],
                    !done.contains(to as int),
                    forall|s: int| 0 <= s < stack@.len() ==> #[trigger] stack@[s] < n,
                    2 * count_unset(visited@) + stack@.len() < measure,
                decreases count - k,
            {
                let c = node.children[k];
                assert(c < n) by {
                    assert(g@[x as int].children[k as int] < g@.len());
                }
                if !visited[c] {
                    let ghost prev_visited = visited@;
                    let ghost prev_stack = stack@;
                    proof {
                        assert(has_edge(g@, x as int, c as int)) by {
                            assert(g@[x as int].children[k as int] as int == c);
                        }
                        let p = choose|p: Seq<int>| #[trigger] is_path(g@, p) && p[0] == from && p.last()
                            == x;
                        lemma_path_push(g@, p, c as int);
                        lemma_count_unset_set(visited@, c as int);
                    }
                    visited.set(c, true);
                    stack.push(c);
                    proof {
                        assert forall|v: int|
                            0 <= v < n implies (#[trigger] visited@[v] <==> (done.contains(v)
                            || stack@.contains(v as usize) || v == x)) by {
                            assert(stack@ == prev_stack.push(c));
                            if v == c {
                                assert(stack@[stack@.len() - 1] == c);
                            } else {
                                assert(visited@[v] == prev_visited[v]);
                                if prev_stack.contains(v as usize) {
                                    let s = choose|s: int| 0 <= s < prev_stack.len() && prev_stack[s] == v as usize;
                                    assert(stack@[s] == v as usize);
                                }
                                if stack@.contains(v as usize) {
                                    let s = choose|s: int| 0 <= s < stack@.len() && stack@[s] == v as usize;
                                    assert(s < prev_stack.len());
                                    assert(prev_stack[s] == v as usize);
                                }
                            }
                        }
                    }
                }
                k = k + 1;
            }
            proof {
                done = done.insert(x as int);
            }
        }
        proof {
            assert forall|v: int| 0 <= v < n implies (#[trigger] visited@[v] <==> done.contains(v)) by {}
            if reaches(g@, from as int, to as int) {
                let p = choose|p: Seq<int>| #[trigger] is_path(g@, p) && p[0] == from && p.last() == to;
                lemma_path_stays(g@, p, done);
                assert(false);
            }
        }
        false
    }

    /// Whether `child` is among the children of `parent`.
    pub fn has_child(&self, parent: usize, child: usize) -> (r: bool)
        requires
            parent < self@.len(),
        ensures
            r == self@[parent as int].children.contains(child),
    {
        let children = &self.nodes[parent].children;
        let mut k: usize = 0;
        while k < children.len()
            invariant
                children@ == self@[parent as int].children,
                k <= children@.len(),
                forall|j: int| 0 <= j < k ==> children@[j] != child,
            decreases children@.len() - k,
        {
            if children[k] == child {
                assert(children@[k as int] == child);
                return true;
            }
            k = k + 1;
        }
        false
    }

    /// Takes `child` out of the children of `parent`: it no longer hangs below it. The
    /// other children keep their order.
    pub fn remove_child(&mut self, parent: usize, child: usize)
        requires
            parent < old(self)@.len(),
        ensures
            final(self)@ == old(self)@.update(
                parent as int,
                pruned_node(old(self)@, parent as int, set![child]),
            ),
            !final(self)@[parent as int].children.contains(child),
    {
        proof {
            use_type_invariant(&*self);
        }
        let ghost before = self@;
        let mut nodes = Vec::new();
        std::mem::swap(&mut nodes, &mut self.nodes);
        let kept = without(&nodes[parent].children, child);
        nodes[parent].children = kept;
        proof {
            let g2 = views_of(nodes@);
            assert(g2 =~= before.update(parent as int, pruned_node(before, parent as int, set![child])));
            lemma_pruned_edges(before, g2, set![child]);
            lemma_fewer_edges_acyclic(before, g2);
            lemma_removed_contains(before[parent as int].children, set![child]);
        }
        self.nodes = nodes;
    }

    /// Takes the node `id` out of the children of every node: nothing hangs it below
    /// itself any more.
    pub fn detach(&mut self, id: usize)
        ensures
            final(self)@.len() == old(self)@.len(),
            forall|i: int|
                0 <= i < old(self)@.len() ==> #[trigger] final(self)@[i] == pruned_node(
                    old(self)@,
                    i,
                    set![id],
                ),
            forall|i: int| 0 <= i < final(self)@.len() ==> !(#[trigger] final(self)@[i]).children.contains(id),
    {
        proof {
            use_type_invariant(&*self);
        }
        let ghost before = self@;
        let mut nodes = Vec::new();
        std::mem::swap(&mut nodes, &mut self.nodes);
        let n = nodes.len();
        let mut i: usize = 0;
        while i < n
            invariant
                n == before.len(),
                nodes@.len() == n,
                i <= n,
                forall|j: int| 0 <= j < i ==> #[trigger] views_of(nodes@)[j] == pruned_node(before, j, set![id]),
                forall|j: int| i <= j < n ==> #[trigger] views_of(nodes@)[j] == before[j],
            decreases n - i,
        {
            let ghost prev = views_of(nodes@);
            assert(prev[i as int] == before[i as int]);
            let kept = without(&nodes[i].children, id);
            nodes[i].children = kept;
            proof {
                assert(views_of(nodes@) =~= prev.update(i as int, pruned_node(before, i as int, set![id])));
                assert forall|j: int| 0 <= j < i + 1 implies #[trigger] views_of(nodes@)[j] == pruned_node(before, j, set![id]) by {
                    if j < i {
                        assert(views_of(nodes@)[j] == prev[j]);
                    }
                }
                assert forall|j: int| i + 1 <= j < n implies #[trigger] views_of(nodes@)[j] == before[j] by {
                    assert(views_of(nodes@)[j] == prev[j]);
                }
            }
            i = i + 1;
        }
        proof {
            let g2 = views_of(nodes@);
            lemma_pruned_edges(before, g2, set![id]);
            lemma_fewer_edges_acyclic(before, g2);
            assert forall|j: int| 0 <= j < g2.len() implies !(#[trigger] g2[j]).children.contains(id) by {
                lemma_removed_contains(before[j].children, set![id]);
                assert(g2[j] == pruned_node(before, j, set![id]));
            }
        }
        self.nodes = nodes;
    }

    /// Hangs the node `child` below the node `parent`, after the children it has. The
    /// child must not reach the parent, so that no cycle forms.
    pub fn add_child(&mut self, parent: usize, child: usize)
        requires
            parent < old(self)@.len(),
            child < old(self)@.len(),
            !reaches(old(self)@, child as int, parent as int),
            old(self)@[parent as int].children.len() < usize::MAX,
        ensures
            final(self)@ == old(self)@.update(
                parent as int,
                NodeView {
                    children: old(self)@[parent as int].children.push(child),
                    ..old(self)@[parent as int]
                },
            ),
            forward(old(self)@) && parent < child ==> forward(final(self)@),
    {
        proof {
            use_type_invariant(&*self);
        }
        let ghost before = self@;
        let mut nodes = Vec::new();
        std::mem::swap(&mut nodes, &mut self.nodes);
        nodes[parent].children.push(child);
        proof {
            let g2 = views_of(nodes@);
            let expected = before.update(
                parent as int,
                NodeView { children: before[parent as int].children.push(child), ..before[parent as int] },
            );
            assert(g2 =~= expected);
            assert forall|a: int, b: int| #[trigger] has_edge(g2, a, b) implies has_edge(before, a, b) || (
            a == parent && b == child) by {
                let k = choose|k: int| 0 <= k < g2[a].children.len() && #[trigger] g2[a].children[k] as int == b;
                if a != parent {
                    assert(before[a].children[k] as int == b);
                } else if k < before[a].children.len() {
                    assert(before[a].children[k] as int == b);
                }
            }
            assert forall|i: int, k: int|
                0 <= i < g2.len() && 0 <= k < g2[i].children.len() implies #[trigger] g2[i].children[k]
                < g2.len() by {
                if i != parent || k < before[i].children.len() {
                    assert(g2[i].children[k] == before[i].children[k]);
                }
            }
            lemma_add_edge_acyclic(before, g2, parent as int, child as int);
            if forward(before) && parent < child {
                assert forall|i: int, k: int|
                    0 <= i < g2.len() && 0 <= k < g2[i].children.len() implies i
                    < #[trigger] g2[i].children[k] by {
                    if i != parent || k < before[i].children.len() {
                        assert(g2[i].children[k] == before[i].children[k]);
                    }
                }
            }
        }
        self.nodes = nodes;
    }
}

/// A walk that starts in a set closed under children stays in it.
proof fn lemma_path_stays(g: Seq<NodeView>, p: Seq<int>, s: Set<int>)
    requires
        is_path(g, p),
        s.contains(p[0]),
        forall|v: int, k: int| s.contains(v) && 0 <= k < g[v].children.len() ==> s.contains(
            #[trigger] g[v].children[k] as int,
        ),
    ensures
        s.contains(p.last()),
    decreases p.len(),
{
    if p.len() > 1 {
        let q = p.drop_last();
        assert forall|i: int| 0 <= i < q.len() - 1 implies #[trigger] step_ok(g, q, i) by {
            assert(step_ok(g, p, i));
        }
        lemma_path_stays(g, q, s);
        assert(step_ok(g, p, p.len() - 2));
        let j = choose|j: int|
            0 <= j < g[p[p.len() - 2]].children.len() && #[trigger] g[p[p.len() - 2]].children[j] as int
                == p.last();
        assert(s.contains(g[p[p.len() - 2]].children[j] as int));
    }
}

} // verus!
