use vstd::prelude::*;

use crate::nodes::{Nodes, PlayerHelicopter};
use crate::scene_graph::{
    forward, lemma_forward_reaches, lemma_removed_contains, lemma_removed_nothing,
    lemma_removed_twice, pruned_node, reaches, removed, well_formed, without, NodeView, SceneGraph,
    SceneNode,
};

verus! {

/// How many helicopters fly over the lunar surface.
pub const NUM_HELICOPTERS: usize = 5;

/// What the scene graph needs of a mesh that has been handed to the graphics card: its
/// vertex array object and how many indices it draws.
#[derive(Clone, Copy, PartialEq, Eq, Structural, Debug)]
pub struct MeshHandle {
    pub vao_id: u32,
    pub index_count: i32,
}

/// The meshes that the scene is built from.
#[derive(Clone, Copy, PartialEq, Eq, Structural, Debug)]
pub struct SceneMeshes {
    pub lunar_surface: MeshHandle,
    pub heli_body: MeshHandle,
    pub heli_door: MeshHandle,
    pub heli_main_rotor: MeshHandle,
    pub heli_tail_rotor: MeshHandle,
}

/// The nodes of the scene, sorted by kind: for each kind, the positions in the scene
/// graph of the nodes of that kind. The `i`-th entries of the helicopter kinds belong to
/// the `i`-th helicopter.
pub struct NodeTable {
    pub lunar_surface: Vec<usize>,
    pub heli_body: Vec<usize>,
    pub heli_door: Vec<usize>,
    pub heli_main_rotor: Vec<usize>,
    pub heli_tail_rotor: Vec<usize>,
    pub heli_root: Vec<usize>,
    pub scene_root: Vec<usize>,
}

impl NodeTable {
    /// The nodes of kind `kind`.
    pub open spec fn of(&self, kind: Nodes) -> Seq<usize> {
        match kind {
            Nodes::LunarSurface => self.lunar_surface@,
            Nodes::HeliBody => self.heli_body@,
            Nodes::HeliDoor => self.heli_door@,
            Nodes::HeliMainRotor => self.heli_main_rotor@,
            Nodes::HeliTailRotor => self.heli_tail_rotor@,
            Nodes::HeliRoot => self.heli_root@,
            Nodes::SceneRoot => self.scene_root@,
        }
    }

    /// The nodes of kind `kind`.
    pub fn get(&self, kind: Nodes) -> (r: &Vec<usize>)
        ensures
            r@ == self.of(kind),
    {
        match kind {
            Nodes::LunarSurface => &self.lunar_surface,
            Nodes::HeliBody => &self.heli_body,
            Nodes::HeliDoor => &self.heli_door,
            Nodes::HeliMainRotor => &self.heli_main_rotor,
            Nodes::HeliTailRotor => &self.heli_tail_rotor,
            Nodes::HeliRoot => &self.heli_root,
            Nodes::SceneRoot => &self.scene_root,
        }
    }

    /// Takes the node `id` out of the nodes of kind `kind`; the others keep their order.
    pub fn remove(&mut self, kind: Nodes, id: usize)
        ensures
            forall|k: Nodes|
                #[trigger] final(self).of(k) == if k == kind {
                    removed(old(self).of(k), set![id])
                } else {
                    old(self).of(k)
                },
    {
        match kind {
            Nodes::LunarSurface => {
                let v = without(&self.lunar_surface, id);
                self.lunar_surface = v;
            },
            Nodes::HeliBody => {
                let v = without(&self.heli_body, id);
                self.heli_body = v;
            },
            Nodes::HeliDoor => {
                let v = without(&self.heli_door, id);
                self.heli_door = v;
            },
            Nodes::HeliMainRotor => {
                let v = without(&self.heli_main_rotor, id);
                self.heli_main_rotor = v;
            },
            Nodes::HeliTailRotor => {
                let v = without(&self.heli_tail_rotor, id);
                self.heli_tail_rotor = v;
            },
            Nodes::HeliRoot => {
                let v = without(&self.heli_root, id);
                self.heli_root = v;
            },
            Nodes::SceneRoot => {
                let v = without(&self.scene_root, id);
                self.scene_root = v;
            },
        }
    }
}

/// A node that draws nothing and groups the nodes in `children`.
pub open spec fn group_view(children: Seq<usize>) -> NodeView {
    NodeView { vao_id: 0, index_count: -1i32, children }
}

/// A node that draws the mesh `m` and has no children.
pub open spec fn mesh_view(m: MeshHandle) -> NodeView {
    NodeView { vao_id: m.vao_id, index_count: m.index_count, children: Seq::empty() }
}

/// The scene that the world is set up with, given by where each node stands and what it
/// is: the scene root (position 0) holds the lunar surface (position 1), which holds the
/// root of each helicopter; the root of helicopter `i` stands at `2 + 5 i` and holds, in
/// this order, its body, door, main rotor and tail rotor, which follow it.
pub open spec fn is_scene_layout(g: Seq<NodeView>, t: NodeTable, m: SceneMeshes) -> bool {
    &&& g.len() == 2 + 5 * NUM_HELICOPTERS
    &&& t.scene_root@ == seq![0usize]
    &&& t.lunar_surface@ == seq![1usize]
    &&& t.heli_root@.len() == NUM_HELICOPTERS
    &&& t.heli_body@.len() == NUM_HELICOPTERS
    &&& t.heli_door@.len() == NUM_HELICOPTERS
    &&& t.heli_main_rotor@.len() == NUM_HELICOPTERS
    &&& t.heli_tail_rotor@.len() == NUM_HELICOPTERS
    &&& forall|i: int|
        0 <= i < NUM_HELICOPTERS ==> {
            &&& #[trigger] t.heli_root@[i] == 2 + 5 * i
            &&& t.heli_body@[i] == 3 + 5 * i
            &&& t.heli_door@[i] == 4 + 5 * i
            &&& t.heli_main_rotor@[i] == 5 + 5 * i
            &&& t.heli_tail_rotor@[i] == 6 + 5 * i
        }
    &&& g[0] == group_view(seq![1usize])
    &&& g[1] == (NodeView {
        vao_id: m.lunar_surface.vao_id,
        index_count: m.lunar_surface.index_count,
        children: t.heli_root@,
    })
    &&& forall|i: int|
        0 <= i < NUM_HELICOPTERS ==> {
            &&& g[#[trigger] t.heli_root@[i] as int] == group_view(
                seq![t.heli_body@[i], t.heli_door@[i], t.heli_main_rotor@[i], t.heli_tail_rotor@[i]],
            )
            &&& g[t.heli_body@[i] as int] == mesh_view(m.heli_body)
            &&& g[t.heli_door@[i] as int] == mesh_view(m.heli_door)
            &&& g[t.heli_main_rotor@[i] as int] == mesh_view(m.heli_main_rotor)
            &&& g[t.heli_tail_rotor@[i] as int] == mesh_view(m.heli_tail_rotor)
        }
}

/// The positions `2 + 5 k + offset` for `k < count`.
pub open spec fn strided(count: nat, offset: int) -> Seq<usize> {
    Seq::new(count, |k: int| (offset + 5 * k) as usize)
}

/// What one frame does to one helicopter: its position among the helicopters, the nodes
/// that are moved (its root and its two rotors), and whether its root follows the
/// animated flight path (every helicopter but the player's does).
#[derive(Clone, Copy, PartialEq, Eq, Structural, Debug)]
pub struct HeliUpdate {
    pub index: usize,
    pub root: usize,
    pub main_rotor: usize,
    pub tail_rotor: usize,
    pub follows_path: bool,
}

/// The nodes that one frame of the world works on: each helicopter, the node the camera
/// chases (the player's helicopter) and the node the scene is drawn from.
pub struct UpdatePlan {
    pub helicopters: Vec<HeliUpdate>,
    pub camera_target: usize,
    pub scene_root: usize,
}

/// The items of `items` whose flag in `finished` is not set, in their order.
pub open spec fn unfinished<T>(items: Seq<T>, finished: Seq<bool>) -> Seq<T>
    decreases items.len(),
{
    if items.len() == 0 {
        Seq::empty()
    } else {
        let rest = unfinished(items.drop_last(), finished.take(items.len() - 1));
        if finished[items.len() - 1] {
            rest
        } else {
            rest.push(items.last())
        }
    }
}

/// `result` is the subsequence of `items` at the increasing positions `pos`, and those
/// are exactly the positions whose flag in `finished` is not set.
pub open spec fn kept_at<T>(items: Seq<T>, finished: Seq<bool>, result: Seq<T>, pos: Seq<int>) -> bool {
    &&& pos.len() == result.len()
    &&& forall|m: int|
        0 <= m < pos.len() ==> 0 <= #[trigger] pos[m] < items.len() && !finished[pos[m]] && result[m]
            == items[pos[m]]
    &&& forall|m1: int, m2: int| 0 <= m1 < m2 < pos.len() ==> pos[m1] < pos[m2]
    &&& forall|j: int|
        0 <= j < items.len() && !#[trigger] finished[j] ==> exists|m: int| 0 <= m < pos.len() && pos[m] == j
}

/// The positions whose flag is not set, in increasing order.
spec fn running_positions(finished: Seq<bool>) -> Seq<int>
    decreases finished.len(),
{
    if finished.len() == 0 {
        Seq::empty()
    } else {
        let rest = running_positions(finished.drop_last());
        if finished.last() {
            rest
        } else {
            rest.push(finished.len() - 1)
        }
    }
}

/// Pruning keeps every animation that has not finished, and only those, in their order:
/// the result is the subsequence of the items at the positions whose flag is not set.
pub proof fn lemma_unfinished_keeps_the_running<T>(items: Seq<T>, finished: Seq<bool>)
    requires
        items.len() == finished.len(),
    ensures
        exists|pos: Seq<int>| #[trigger] kept_at(items, finished, unfinished(items, finished), pos),
{
    lemma_running_positions(items, finished);
}

proof fn lemma_running_positions<T>(items: Seq<T>, finished: Seq<bool>)
    requires
        items.len() == finished.len(),
    ensures
        kept_at(items, finished, unfinished(items, finished), running_positions(finished)),
    decreases items.len(),
{
    let n = items.len() as int;
    if n > 0 {
        let f0 = finished.take(n - 1);
        assert(f0 =~= finished.drop_last());
        lemma_running_positions(items.drop_last(), f0);
        let rest = unfinished(items.drop_last(), f0);
        let prest = running_positions(f0);
        let result = unfinished(items, finished);
        let pos = running_positions(finished);
        assert(forall|j: int| 0 <= j < n - 1 ==> f0[j] == finished[j]);
        if finished[n - 1] {
            assert(result == rest);
            assert(pos == prest);
        } else {
            assert(result == rest.push(items.last()));
            assert(pos == prest.push(n - 1));
        }
        assert forall|j: int| 0 <= j < n && !#[trigger] finished[j] implies exists|m: int|
            0 <= m < pos.len() && pos[m] == j by {
            if j < n - 1 {
                assert(!f0[j]);
                let m = choose|m: int| 0 <= m < prest.len() && prest[m] == j;
                assert(pos[m] == j);
            } else {
                assert(pos[pos.len() - 1] == j);
            }
        }
    }
}

/// Removes, in place, the items whose flag in `finished` is set (the animations that
/// have run their course), and keeps the others in their order.
pub fn prune_finished<T>(items: &mut Vec<T>, finished: &Vec<bool>)
    requires
        old(items)@.len() == finished@.len(),
    ensures
        final(items)@ == unfinished(old(items)@, finished@),
        exists|pos: Seq<int>| #[trigger] kept_at(old(items)@, finished@, final(items)@, pos),
{
    proof {
        lemma_unfinished_keeps_the_running(items@, finished@);
    }
    let ghost given = items@;
    let mut i: usize = 0;
    let mut j: usize = 0;
    let total = finished.len();
    while i < items.len()
        invariant
            given.len() == finished@.len(),
            total == finished@.len(),
            j <= given.len(),
            i == unfinished(given.take(j as int), finished@.take(j as int)).len(),
            items@ == unfinished(given.take(j as int), finished@.take(j as int)) + given.skip(
                j as int,
            ),
        decreases given.len() - j,
    {
        let ghost kept = unfinished(given.take(j as int), finished@.take(j as int));
        assert(j < given.len());
        assert(items@[i as int] == given[j as int]);
        assert(given.take(j + 1).drop_last() =~= given.take(j as int));
        assert(finished@.take(j + 1).take(j as int) =~= finished@.take(j as int));
        assert(given.take(j + 1).last() == given[j as int]);
        if finished[j] {
            items.remove(i);
            assert(items@ =~= kept + given.skip(j + 1));
        } else {
            i = i + 1;
            assert(items@ =~= kept.push(given[j as int]) + given.skip(j + 1));
        }
        j = j + 1;
    }
    assert(given.take(j as int) =~= given);
    assert(finished@.take(j as int) =~= finished@);
    assert(given.skip(j as int) =~= Seq::<T>::empty());
    assert(items@ =~= unfinished(given, finished@));
}

/// In a graph whose children stand after their parents, no node reaches an earlier one.
proof fn lemma_no_way_back(g: Seq<NodeView>, parent: int, child: int)
    requires
        forward(g),
        parent < child,
    ensures
        !reaches(g, child, parent),
{
    if reaches(g, child, parent) {
        lemma_forward_reaches(g, child, parent);
    }
}

/// The doors of the animations that have ended.
pub open spec fn ended_doors(doors: Seq<usize>, finished: Seq<bool>) -> Set<usize> {
    Set::new(|d: usize| exists|i: int| 0 <= i < doors.len() && i < finished.len() && #[trigger] finished[i] && doors[i] == d)
}

proof fn lemma_ended_step(doors: Seq<usize>, finished: Seq<bool>, j: int)
    requires
        0 <= j < doors.len(),
        j < finished.len(),
    ensures
        ended_doors(doors.take(j + 1), finished.take(j + 1)) == if finished[j] {
            ended_doors(doors.take(j), finished.take(j)).union(set![doors[j]])
        } else {
            ended_doors(doors.take(j), finished.take(j))
        },
{
    let a = ended_doors(doors.take(j + 1), finished.take(j + 1));
    let b = ended_doors(doors.take(j), finished.take(j));
    let c = if finished[j] { b.union(set![doors[j]]) } else { b };
    assert forall|d: usize| a.contains(d) <==> c.contains(d) by {
        if a.contains(d) {
            let i = choose|i: int|
                0 <= i < doors.take(j + 1).len() && i < finished.take(j + 1).len() && #[trigger] finished.take(
                    j + 1,
                )[i] && doors.take(j + 1)[i] == d;
            if i < j {
                assert(finished.take(j)[i] && doors.take(j)[i] == d);
            }
        }
        if b.contains(d) {
            let i = choose|i: int|
                0 <= i < doors.take(j).len() && i < finished.take(j).len() && #[trigger] finished.take(j)[i]
                    && doors.take(j)[i] == d;
            assert(finished.take(j + 1)[i] && doors.take(j + 1)[i] == d);
        }
        if finished[j] && d == doors[j] {
            assert(finished.take(j + 1)[j] && doors.take(j + 1)[j] == d);
        }
    }
    assert(a =~= c);
}

/// The world: the scene graph, its nodes by kind, and the player's helicopter.
pub struct World {
    pub graph: SceneGraph,
    pub nodes: NodeTable,
    pub player: PlayerHelicopter,
}

impl World {
    /// The world is consistent: every node the table names is in the graph, the scene
    /// has a root, every helicopter has both rotors, and the player's helicopter exists.
    pub open spec fn wf(&self) -> bool {
        &&& forall|kind: Nodes, i: int|
            0 <= i < self.nodes.of(kind).len() ==> #[trigger] self.nodes.of(kind)[i]
                < self.graph@.len()
        &&& self.nodes.scene_root@.len() >= 1
        &&& self.nodes.heli_main_rotor@.len() >= self.nodes.heli_root@.len()
        &&& self.nodes.heli_tail_rotor@.len() >= self.nodes.heli_root@.len()
        &&& self.player.node_index < self.nodes.heli_root@.len()
    }

    /// The world as it starts: the scene of `setup_scene_graph`, with the player in the
    /// first helicopter.
    pub fn new(meshes: &SceneMeshes) -> (w: Self)
        ensures
            is_scene_layout(w.graph@, w.nodes, *meshes),
            well_formed(w.graph@),
            w.player.node_index == 0,
            w.wf(),
    {
        let (graph, nodes) = Self::setup_scene_graph(meshes);
        let player = PlayerHelicopter::new(0);
        let w = World { graph, nodes, player };
        assert forall|kind: Nodes, i: int|
            0 <= i < w.nodes.of(kind).len() implies #[trigger] w.nodes.of(kind)[i]
            < w.graph@.len() by {
            if kind != Nodes::SceneRoot && kind != Nodes::LunarSurface {
                assert(w.nodes.heli_root@[i] == 2 + 5 * i);
            }
        }
        w
    }

    /// The door still hanging below the root of the player's helicopter, with that root.
    pub open spec fn attached_door(&self) -> Option<(usize, usize)> {
        let p = self.player.node_index as int;
        if p < self.nodes.heli_root@.len() && p < self.nodes.heli_door@.len()
            && self.nodes.heli_root@[p] < self.graph@.len()
            && self.graph@[self.nodes.heli_root@[p] as int].children.contains(self.nodes.heli_door@[p]) {
            Some((self.nodes.heli_root@[p], self.nodes.heli_door@[p]))
        } else {
            None
        }
    }

    /// Whatever the player's helicopter, its door is attached exactly when the helicopter
    /// and its door are in the tables and the door hangs below the helicopter's root.
    pub proof fn lemma_attached_door(&self)
        ensures
            ({
                let p = self.player.node_index as int;
                let root = self.nodes.heli_root@[p];
                let door = self.nodes.heli_door@[p];
                &&& (p < self.nodes.heli_root@.len() && p < self.nodes.heli_door@.len() && root
                    < self.graph@.len() && self.graph@[root as int].children.contains(door))
                    ==> self.attached_door() == Some((root, door))
                &&& self.attached_door() matches Some((r, d)) ==> r == root && d == door
                    && self.graph@[r as int].children.contains(d)
            }),
    {
    }

    /// The player's helicopter lets go of its door: the door no longer hangs below the
    /// helicopter's root, so it moves on its own, and its node is given back. Nothing
    /// changes, and `None` comes back, when the door is not attached.
    pub fn release_door(&mut self) -> (r: Option<usize>)
        ensures
            r == (match old(self).attached_door() {
                Some((root, door)) => Some(door),
                None => None::<usize>,
            }),
            final(self).graph@ == (match old(self).attached_door() {
                Some((root, door)) => old(self).graph@.update(
                    root as int,
                    pruned_node(old(self).graph@, root as int, set![door]),
                ),
                None => old(self).graph@,
            }),
            final(self).nodes == old(self).nodes,
            final(self).player == old(self).player,
            old(self).wf() ==> final(self).wf(),
            ({
                let p = old(self).player.node_index as int;
                let root = old(self).nodes.heli_root@[p];
                let door = old(self).nodes.heli_door@[p];
                p < old(self).nodes.heli_root@.len() && p < old(self).nodes.heli_door@.len() && root
                    < old(self).graph@.len() && old(self).graph@[root as int].children.contains(door)
                    ==> r == Some(door) && !final(self).graph@[root as int].children.contains(door)
            }),
    {
        proof {
            self.lemma_attached_door();
        }
        let p = self.player.node_index;
        if p < self.nodes.heli_root.len() && p < self.nodes.heli_door.len() {
            let root = self.nodes.heli_root[p];
            let door = self.nodes.heli_door[p];
            if root < self.graph.len() && self.graph.has_child(root, door) {
                self.graph.remove_child(root, door);
                return Some(door);
            }
        }
        None
    }

    /// Deletes the node `id` of kind `kind` from the world: the table of that kind no
    /// longer holds it, and no node of the graph has it as a child any more.
    pub fn delete_node(&mut self, kind: Nodes, id: usize)
        ensures
            forall|k: Nodes|
                #[trigger] final(self).nodes.of(k) == if k == kind {
                    removed(old(self).nodes.of(k), set![id])
                } else {
                    old(self).nodes.of(k)
                },
            final(self).graph@.len() == old(self).graph@.len(),
            forall|i: int|
                0 <= i < old(self).graph@.len() ==> #[trigger] final(self).graph@[i] == pruned_node(
                    old(self).graph@,
                    i,
                    set![id],
                ),
            final(self).player == old(self).player,
            !final(self).nodes.of(kind).contains(id),
            forall|i: int| 0 <= i < final(self).graph@.len() ==> !(#[trigger] final(self).graph@[i]).children.contains(id),
            old(self).wf() && kind == Nodes::HeliDoor ==> final(self).wf(),
    {
        self.nodes.remove(kind, id);
        self.graph.detach(id);
        proof {
            lemma_removed_contains(old(self).nodes.of(kind), set![id]);
            if old(self).wf() && kind == Nodes::HeliDoor {
                assert(self.nodes.of(Nodes::SceneRoot) == old(self).nodes.of(Nodes::SceneRoot));
                assert(self.nodes.of(Nodes::HeliRoot) == old(self).nodes.of(Nodes::HeliRoot));
                assert(self.nodes.of(Nodes::HeliMainRotor) == old(self).nodes.of(Nodes::HeliMainRotor));
                assert(self.nodes.of(Nodes::HeliTailRotor) == old(self).nodes.of(Nodes::HeliTailRotor));
                assert forall|k: Nodes, i: int|
                    0 <= i < self.nodes.of(k).len() implies #[trigger] self.nodes.of(k)[i]
                    < self.graph@.len() by {
                    if k == kind {
                        let x = self.nodes.of(k)[i];
                        assert(self.nodes.of(k).contains(x));
                        let i0 = choose|i0: int| 0 <= i0 < old(self).nodes.of(k).len() && old(self).nodes.of(k)[i0] == x;
                        assert(old(self).nodes.of(k)[i0] < old(self).graph@.len());
                    }
                }
            }
        }
    }

    /// Ends the door animations whose flag in `finished` is set: they leave `anims`,
    /// their doors leave `doors`, and each of those doors is deleted from the world (its
    /// node leaves the table of doors and no node has it as a child any more). The other
    /// animations keep their order.
    pub fn finish_animations<T>(
        &mut self,
        anims: &mut Vec<T>,
        doors: &mut Vec<usize>,
        finished: &Vec<bool>,
    )
        requires
            old(anims)@.len() == finished@.len(),
            old(doors)@.len() == finished@.len(),
        ensures
            final(anims)@ == unfinished(old(anims)@, finished@),
            final(doors)@ == unfinished(old(doors)@, finished@),
            forall|k: Nodes|
                #[trigger] final(self).nodes.of(k) == if k == Nodes::HeliDoor {
                    removed(old(self).nodes.of(k), ended_doors(old(doors)@, finished@))
                } else {
                    old(self).nodes.of(k)
                },
            final(self).graph@.len() == old(self).graph@.len(),
            forall|i: int|
                0 <= i < old(self).graph@.len() ==> #[trigger] final(self).graph@[i] == pruned_node(
                    old(self).graph@,
                    i,
                    ended_doors(old(doors)@, finished@),
                ),
            final(self).player == old(self).player,
            forall|j: int|
                0 <= j < finished@.len() && #[trigger] finished@[j] ==> !final(self).nodes.heli_door@.contains(
                    old(doors)@[j],
                ) && forall|i: int|
                    0 <= i < final(self).graph@.len() ==> !(#[trigger] final(self).graph@[i]).children.contains(
                        old(doors)@[j],
                    ),
            old(self).wf() ==> final(self).wf(),
    {
        let ghost g0 = self.graph@;
        let ghost t0 = self.nodes;
        let ghost d0 = doors@;
        let n = finished.len();
        proof {
            assert forall|i: int| 0 <= i < g0.len() implies #[trigger] self.graph@[i] == pruned_node(
                g0,
                i,
                ended_doors(d0.take(0), finished@.take(0)),
            ) by {
                assert(ended_doors(d0.take(0), finished@.take(0)) =~= Set::<usize>::empty());
                lemma_removed_nothing(g0[i].children);
            }
            assert(ended_doors(d0.take(0), finished@.take(0)) =~= Set::<usize>::empty());
            lemma_removed_nothing(t0.heli_door@);
        }
        let mut j: usize = 0;
        while j < n
            invariant
                n == finished@.len(),
                d0 == doors@,
                d0.len() == n,
                j <= n,
                self.graph@.len() == g0.len(),
                forall|i: int|
                    0 <= i < g0.len() ==> #[trigger] self.graph@[i] == pruned_node(
                        g0,
                        i,
                        ended_doors(d0.take(j as int), finished@.take(j as int)),
                    ),
                forall|k: Nodes|
                    #[trigger] self.nodes.of(k) == if k == Nodes::HeliDoor {
                        removed(t0.of(k), ended_doors(d0.take(j as int), finished@.take(j as int)))
                    } else {
                        t0.of(k)
                    },
                self.player == old(self).player,
                old(self).wf() ==> self.wf(),
            decreases n - j,
        {
            proof {
                lemma_ended_step(d0, finished@, j as int);
            }
            let ghost gone = ended_doors(d0.take(j as int), finished@.take(j as int));
            if finished[j] {
                let ghost before = self.graph@;
                self.delete_node(Nodes::HeliDoor, doors[j]);
                proof {
                    let d = d0[j as int];
                    assert forall|i: int| 0 <= i < g0.len() implies #[trigger] self.graph@[i]
                        == pruned_node(g0, i, gone.union(set![d])) by {
                        assert(before[i] == pruned_node(g0, i, gone));
                        assert(self.graph@[i] == pruned_node(before, i, set![d]));
                        lemma_removed_twice(g0[i].children, gone, set![d]);
                    }
                    lemma_removed_twice(t0.heli_door@, gone, set![d]);
                    assert(self.nodes.of(Nodes::HeliDoor) == removed(t0.of(Nodes::HeliDoor), gone.union(set![d])));
                }
            }
            j = j + 1;
        }
        proof {
            assert(d0.take(n as int) =~= d0);
            assert(finished@.take(n as int) =~= finished@);
        }
        let ghost last = self.graph@;
        prune_finished(anims, finished);
        prune_finished(doors, finished);
        proof {
            let gone = ended_doors(d0, finished@);
            lemma_removed_contains(t0.heli_door@, gone);
            assert(self.nodes.heli_door@ == removed(t0.heli_door@, gone)) by {
                assert(self.nodes.of(Nodes::HeliDoor) == removed(t0.of(Nodes::HeliDoor), gone));
            }
            assert forall|jj: int|
                0 <= jj < finished@.len() && #[trigger] finished@[jj] implies !self.nodes.heli_door@.contains(
                d0[jj],
            ) && forall|i: int|
                0 <= i < self.graph@.len() ==> !(#[trigger] self.graph@[i]).children.contains(d0[jj]) by {
                assert(gone.contains(d0[jj]));
                assert forall|i: int| 0 <= i < self.graph@.len() implies !(#[trigger] self.graph@[i]).children.contains(d0[jj]) by {
                    assert(self.graph@[i] == pruned_node(g0, i, gone));
                    lemma_removed_contains(g0[i].children, gone);
                }
            }
        }
    }

    /// The root node of the player's helicopter.
    pub fn get_player_node(&self) -> (id: usize)
        requires
            self.player.node_index < self.nodes.heli_root@.len(),
        ensures
            id == self.nodes.heli_root@[self.player.node_index as int],
    {
        self.nodes.heli_root[self.player.node_index]
    }

    /// The nodes that a frame of the world moves and draws: every helicopter's rotors
    /// spin, every helicopter but the player's follows the flight path, the camera chases
    /// the player's helicopter, and the player's door carries the door animations.
    pub fn update_plan(&self) -> (plan: UpdatePlan)
        requires
            self.wf(),
        ensures
            plan.helicopters@.len() == self.nodes.heli_root@.len(),
            forall|i: int|
                0 <= i < plan.helicopters@.len() ==> {
                    let h = #[trigger] plan.helicopters@[i];
                    &&& h.index == i
                    &&& h.root == self.nodes.heli_root@[i]
                    &&& h.main_rotor == self.nodes.heli_main_rotor@[i]
                    &&& h.tail_rotor == self.nodes.heli_tail_rotor@[i]
                    &&& h.follows_path == (i != self.player.node_index)
                },
            plan.camera_target == self.nodes.heli_root@[self.player.node_index as int],
            plan.scene_root == self.nodes.scene_root@[0],
    {
        let count = self.nodes.heli_root.len();
        let mut helicopters: Vec<HeliUpdate> = Vec::new();
        let mut i: usize = 0;
        while i < count
            invariant
                self.wf(),
                count == self.nodes.heli_root@.len(),
                i <= count,
                helicopters@.len() == i,
                forall|k: int|
                    0 <= k < i ==> {
                        let h = #[trigger] helicopters@[k];
                        &&& h.index == k
                        &&& h.root == self.nodes.heli_root@[k]
                        &&& h.main_rotor == self.nodes.heli_main_rotor@[k]
                        &&& h.tail_rotor == self.nodes.heli_tail_rotor@[k]
                        &&& h.follows_path == (k != self.player.node_index)
                    },
            decreases count - i,
        {
            helicopters.push(
                HeliUpdate {
                    index: i,
                    root: self.nodes.heli_root[i],
                    main_rotor: self.nodes.heli_main_rotor[i],
                    tail_rotor: self.nodes.heli_tail_rotor[i],
                    follows_path: i != self.player.node_index,
                },
            );
            i = i + 1;
        }
        UpdatePlan {
            helicopters,
            camera_target: self.get_player_node(),
            scene_root: self.nodes.scene_root[0],
        }
    }
    /// Builds the scene graph: the scene root, the lunar surface below it, and below that
    /// the helicopters, each a root node with its body, door and two rotors.
    pub fn setup_scene_graph(meshes: &SceneMeshes) -> (r: (SceneGraph, NodeTable))
        ensures
            well_formed(r.0@),
            is_scene_layout(r.0@, r.1, *meshes),
    {
        let mut graph = SceneGraph::new();
        assert(forward(graph@));
        let scene_root = graph.add(SceneNode::new());
        let lunar_node = graph.add(
            SceneNode::from_vao(meshes.lunar_surface.vao_id, meshes.lunar_surface.index_count),
        );
        let ghost two = graph@;
        proof {
            lemma_no_way_back(graph@, scene_root as int, lunar_node as int);
        }
        graph.add_child(scene_root, lunar_node);
        proof {
            assert(two[0].children =~= Seq::<usize>::empty());
            assert(graph@[0].children =~= seq![1usize]);
            assert(graph@[1] == two[1]);
            assert(two[1].children =~= Seq::<usize>::empty());
            assert(strided(0, 2) =~= Seq::<usize>::empty());
        }
        let mut table = NodeTable {
            lunar_surface: vec![lunar_node],
            heli_body: Vec::new(),
            heli_door: Vec::new(),
            heli_main_rotor: Vec::new(),
            heli_tail_rotor: Vec::new(),
            heli_root: Vec::new(),
            scene_root: vec![scene_root],
        };
        assert(table.scene_root@ == seq![0usize]);
        assert(table.lunar_surface@ == seq![1usize]);
        let mut i: usize = 0;
        while i < NUM_HELICOPTERS
            invariant
                0 <= i <= NUM_HELICOPTERS,
                lunar_node == 1,
                scene_root == 0,
                forward(graph@),
                graph@.len() == 2 + 5 * i,
                table.scene_root@ == seq![0usize],
                table.lunar_surface@ == seq![1usize],
                table.heli_root@ == strided(i as nat, 2),
                table.heli_body@ == strided(i as nat, 3),
                table.heli_door@ == strided(i as nat, 4),
                table.heli_main_rotor@ == strided(i as nat, 5),
                table.heli_tail_rotor@ == strided(i as nat, 6),
                graph@[0] == group_view(seq![1usize]),
                graph@[1] == (NodeView {
                    vao_id: meshes.lunar_surface.vao_id,
                    index_count: meshes.lunar_surface.index_count,
                    children: strided(i as nat, 2),
                }),
                forall|k: int|
                    0 <= k < i ==> {
                        &&& #[trigger] graph@[2 + 5 * k] == group_view(
                            seq![(3 + 5 * k) as usize, (4 + 5 * k) as usize, (5 + 5 * k) as usize, (6 + 5 * k) as usize],
                        )
                        &&& graph@[3 + 5 * k] == mesh_view(meshes.heli_body)
                        &&& graph@[4 + 5 * k] == mesh_view(meshes.heli_door)
                        &&& graph@[5 + 5 * k] == mesh_view(meshes.heli_main_rotor)
                        &&& graph@[6 + 5 * k] == mesh_view(meshes.heli_tail_rotor)
                    },
            decreases NUM_HELICOPTERS - i,
        {
            let ghost before = graph@;
            let heli_root = graph.add(SceneNode::new());
            let heli_body = graph.add(
                SceneNode::from_vao(meshes.heli_body.vao_id, meshes.heli_body.index_count),
            );
            let heli_door = graph.add(
                SceneNode::from_vao(meshes.heli_door.vao_id, meshes.heli_door.index_count),
            );
            let heli_main_rotor = graph.add(
                SceneNode::from_vao(
                    meshes.heli_main_rotor.vao_id,
                    meshes.heli_main_rotor.index_count,
                ),
            );
            let heli_tail_rotor = graph.add(
                SceneNode::from_vao(
                    meshes.heli_tail_rotor.vao_id,
                    meshes.heli_tail_rotor.index_count,
                ),
            );
            let ghost added = graph@;
            assert(added.len() == before.len() + 5);
            assert(added[1] == before[1]);
            assert(added[heli_root as int].children.len() == 0);
            assert forall|j: int| 0 <= j < before.len() implies added[j] == before[j] by {}
            proof {
                lemma_no_way_back(graph@, heli_root as int, heli_body as int);
            }
            graph.add_child(heli_root, heli_body);
            proof {
                lemma_no_way_back(graph@, heli_root as int, heli_door as int);
            }
            graph.add_child(heli_root, heli_door);
            proof {
                lemma_no_way_back(graph@, heli_root as int, heli_main_rotor as int);
            }
            graph.add_child(heli_root, heli_main_rotor);
            proof {
                lemma_no_way_back(graph@, heli_root as int, heli_tail_rotor as int);
            }
            graph.add_child(heli_root, heli_tail_rotor);
            let ghost linked = graph@;
            assert forall|j: int| 0 <= j < added.len() && j != heli_root implies linked[j]
                == added[j] by {}
            assert(linked[1] == before[1]);
            assert(before[1].children.len() == i);
            proof {
                lemma_no_way_back(graph@, lunar_node as int, heli_root as int);
            }
            graph.add_child(lunar_node, heli_root);
            assert forall|j: int| 0 <= j < added.len() && j != heli_root && j != 1 implies graph@[j]
                == added[j] by {}
            assert(graph@[heli_root as int] == linked[heli_root as int]);
            table.heli_root.push(heli_root);
            table.heli_body.push(heli_body);
            table.heli_door.push(heli_door);
            table.heli_main_rotor.push(heli_main_rotor);
            table.heli_tail_rotor.push(heli_tail_rotor);
            proof {
                assert(graph@[1].children =~= strided((i + 1) as nat, 2));
                assert(graph@[heli_root as int].children =~= seq![
                    (3 + 5 * i) as usize,
                    (4 + 5 * i) as usize,
                    (5 + 5 * i) as usize,
                    (6 + 5 * i) as usize,
                ]);
                assert(graph@[heli_root as int] == group_view(
                    seq![(3 + 5 * i) as usize, (4 + 5 * i) as usize, (5 + 5 * i) as usize, (6 + 5 * i) as usize],
                ));
                assert(graph@[heli_body as int].children =~= Seq::<usize>::empty());
                assert(graph@[heli_door as int].children =~= Seq::<usize>::empty());
                assert(graph@[heli_main_rotor as int].children =~= Seq::<usize>::empty());
                assert(graph@[heli_tail_rotor as int].children =~= Seq::<usize>::empty());
                assert forall|k: int| 0 <= k < i + 1 implies {
                    &&& #[trigger] graph@[2 + 5 * k] == group_view(
                        seq![(3 + 5 * k) as usize, (4 + 5 * k) as usize, (5 + 5 * k) as usize, (6 + 5 * k) as usize],
                    )
                    &&& graph@[3 + 5 * k] == mesh_view(meshes.heli_body)
                    &&& graph@[4 + 5 * k] == mesh_view(meshes.heli_door)
                    &&& graph@[5 + 5 * k] == mesh_view(meshes.heli_main_rotor)
                    &&& graph@[6 + 5 * k] == mesh_view(meshes.heli_tail_rotor)
                } by {
                    if k < i {
                        assert(graph@[2 + 5 * k] == before[2 + 5 * k]);
                        assert(graph@[3 + 5 * k] == before[3 + 5 * k]);
                        assert(graph@[4 + 5 * k] == before[4 + 5 * k]);
                        assert(graph@[5 + 5 * k] == before[5 + 5 * k]);
                        assert(graph@[6 + 5 * k] == before[6 + 5 * k]);
                    }
                }
                assert(table.heli_root@ =~= strided((i + 1) as nat, 2));
                assert(table.heli_body@ =~= strided((i + 1) as nat, 3));
                assert(table.heli_door@ =~= strided((i + 1) as nat, 4));
                assert(table.heli_main_rotor@ =~= strided((i + 1) as nat, 5));
                assert(table.heli_tail_rotor@ =~= strided((i + 1) as nat, 6));
            }
            i = i + 1;
        }
        proof {
            assert forall|k: int| 0 <= k < NUM_HELICOPTERS implies {
                &&& graph@[#[trigger] table.heli_root@[k] as int] == group_view(
                    seq![table.heli_body@[k], table.heli_door@[k], table.heli_main_rotor@[k], table.heli_tail_rotor@[k]],
                )
                &&& graph@[table.heli_body@[k] as int] == mesh_view(meshes.heli_body)
                &&& graph@[table.heli_door@[k] as int] == mesh_view(meshes.heli_door)
                &&& graph@[table.heli_main_rotor@[k] as int] == mesh_view(meshes.heli_main_rotor)
                &&& graph@[table.heli_tail_rotor@[k] as int] == mesh_view(meshes.heli_tail_rotor)
            } by {
                assert(graph@[2 + 5 * k] == group_view(
                    seq![(3 + 5 * k) as usize, (4 + 5 * k) as usize, (5 + 5 * k) as usize, (6 + 5 * k) as usize],
                ));
            }
        }
        proof {
            assert forall|k: int| 0 <= k < NUM_HELICOPTERS implies {
                &&& #[trigger] table.heli_root@[k] == 2 + 5 * k
                &&& table.heli_body@[k] == 3 + 5 * k
                &&& table.heli_door@[k] == 4 + 5 * k
                &&& table.heli_main_rotor@[k] == 5 + 5 * k
                &&& table.heli_tail_rotor@[k] == 6 + 5 * k
            } by {}
            assert(is_scene_layout(graph@, table, *meshes));
        }
        // A graph is always well formed; its length query says so.
        let _ = graph.len();
        (graph, table)
    }
}

} // verus!
