use gloom_rs::draw::{draw_scene, DrawStep};
use gloom_rs::nodes::{Nodes, PlayerHelicopter};
use gloom_rs::scene_graph::{SceneGraph, SceneNode};
use gloom_rs::world::{prune_finished, MeshHandle, SceneMeshes, World, NUM_HELICOPTERS};
use gloom_rs::world::UpdatePlan;

fn meshes() -> SceneMeshes {
    SceneMeshes {
        lunar_surface: MeshHandle { vao_id: 1, index_count: 300 },
        heli_body: MeshHandle { vao_id: 2, index_count: 30 },
        heli_door: MeshHandle { vao_id: 3, index_count: 12 },
        heli_main_rotor: MeshHandle { vao_id: 4, index_count: 6 },
        heli_tail_rotor: MeshHandle { vao_id: 5, index_count: 0 },
    }
}

#[test]
fn player_helicopter_new_keeps_index() {
    let p = PlayerHelicopter::new(3);
    assert_eq!(p.node_index, 3);
}

#[test]
fn scene_node_defaults() {
    let n = SceneNode::new();
    assert_eq!(n.vao_id, 0);
    assert_eq!(n.index_count, -1);
    assert!(n.children.is_empty());
    let m = SceneNode::from_vao(7, 42);
    assert_eq!(m.vao_id, 7);
    assert_eq!(m.index_count, 42);
    assert!(m.children.is_empty());
}

#[test]
fn add_child_appends_in_order() {
    let mut g = SceneGraph::new();
    let a = g.add(SceneNode::new());
    let b = g.add(SceneNode::from_vao(1, 3));
    let c = g.add(SceneNode::from_vao(2, 6));
    assert_eq!((a, b, c), (0, 1, 2));
    g.add_child(a, c);
    g.add_child(a, b);
    assert_eq!(g.node(a).children, vec![2, 1]);
    assert_eq!(g.len(), 3);
}

#[test]
fn draw_scene_walks_depth_first() {
    let mut g = SceneGraph::new();
    let root = g.add(SceneNode::new());
    let x = g.add(SceneNode::from_vao(1, 3));
    let y = g.add(SceneNode::from_vao(2, 0));
    let z = g.add(SceneNode::from_vao(3, -5));
    g.add_child(root, x);
    g.add_child(root, z);
    g.add_child(x, y);
    let plan = draw_scene(&g, root);
    assert_eq!(
        plan,
        vec![
            DrawStep { node: 0, parent: None, visible: false },
            DrawStep { node: 1, parent: Some(0), visible: true },
            DrawStep { node: 2, parent: Some(1), visible: true },
            DrawStep { node: 3, parent: Some(0), visible: false },
        ]
    );
}

#[test]
fn draw_scene_visits_shared_child_twice() {
    let mut g = SceneGraph::new();
    let root = g.add(SceneNode::new());
    let a = g.add(SceneNode::new());
    let shared = g.add(SceneNode::from_vao(9, 3));
    g.add_child(root, a);
    g.add_child(root, shared);
    g.add_child(a, shared);
    let plan = draw_scene(&g, root);
    let nodes: Vec<usize> = plan.iter().map(|s| s.node).collect();
    assert_eq!(nodes, vec![0, 1, 2, 2]);
    assert_eq!(plan[2].parent, Some(1));
    assert_eq!(plan[3].parent, Some(0));
}

#[test]
fn draw_scene_from_a_leaf() {
    let mut g = SceneGraph::new();
    let root = g.add(SceneNode::new());
    let leaf = g.add(SceneNode::from_vao(4, 8));
    g.add_child(root, leaf);
    let plan = draw_scene(&g, leaf);
    assert_eq!(plan, vec![DrawStep { node: 1, parent: None, visible: true }]);
}

#[test]
fn world_scene_layout() {
    let world = World::new(&meshes());
    assert_eq!(NUM_HELICOPTERS, 5);
    assert_eq!(world.graph.len(), 27);
    assert_eq!(world.nodes.get(Nodes::SceneRoot), &vec![0]);
    assert_eq!(world.nodes.get(Nodes::LunarSurface), &vec![1]);
    assert_eq!(world.nodes.get(Nodes::HeliRoot), &vec![2, 7, 12, 17, 22]);
    assert_eq!(world.nodes.get(Nodes::HeliBody), &vec![3, 8, 13, 18, 23]);
    assert_eq!(world.nodes.get(Nodes::HeliDoor), &vec![4, 9, 14, 19, 24]);
    assert_eq!(world.nodes.get(Nodes::HeliMainRotor), &vec![5, 10, 15, 20, 25]);
    assert_eq!(world.nodes.get(Nodes::HeliTailRotor), &vec![6, 11, 16, 21, 26]);
    assert_eq!(world.graph.node(0).children, vec![1]);
    assert_eq!(world.graph.node(1).children, vec![2, 7, 12, 17, 22]);
    assert_eq!(world.graph.node(1).vao_id, 1);
    assert_eq!(world.graph.node(1).index_count, 300);
    assert_eq!(world.graph.node(12).children, vec![13, 14, 15, 16]);
    assert_eq!(world.graph.node(12).index_count, -1);
    assert_eq!(world.graph.node(14).vao_id, 3);
    assert_eq!(world.graph.node(15).index_count, 6);
    assert_eq!(world.player.node_index, 0);
    assert_eq!(world.get_player_node(), 2);
}

#[test]
fn world_scene_is_drawn_in_node_order() {
    let world = World::new(&meshes());
    let plan = draw_scene(&world.graph, 0);
    let nodes: Vec<usize> = plan.iter().map(|s| s.node).collect();
    assert_eq!(nodes, (0..27).collect::<Vec<usize>>());
    assert_eq!(plan[1].parent, Some(0));
    assert_eq!(plan[7].parent, Some(1));
    assert_eq!(plan[9].parent, Some(7));
    assert!(!plan[0].visible);
    assert!(!plan[2].visible);
    assert!(plan[6].visible);
}

#[test]
fn update_plan_spares_the_player() {
    let mut world = World::new(&meshes());
    world.player = PlayerHelicopter::new(2);
    let plan = world.update_plan();
    assert_eq!(plan.helicopters.len(), 5);
    let follows: Vec<bool> = plan.helicopters.iter().map(|h| h.follows_path).collect();
    assert_eq!(follows, vec![true, true, false, true, true]);
    assert_eq!(plan.helicopters[3].root, 17);
    assert_eq!(plan.helicopters[3].main_rotor, 20);
    assert_eq!(plan.helicopters[3].tail_rotor, 21);
    assert_eq!(plan.helicopters[3].index, 3);
    assert_eq!(plan.camera_target, 12);
    assert_eq!(plan.scene_root, 0);
    assert_eq!(world.get_player_node(), 12);
}

#[test]
fn prune_finished_keeps_order() {
    let mut items = vec!['a', 'b', 'c', 'd', 'e'];
    prune_finished(&mut items, &vec![false, true, true, false, true]);
    assert_eq!(items, vec!['a', 'd']);
    let mut none: Vec<u8> = vec![];
    prune_finished(&mut none, &vec![]);
    assert!(none.is_empty());
    let mut all = vec![1, 2];
    prune_finished(&mut all, &vec![true, true]);
    assert!(all.is_empty());
}

#[test]
fn child_may_be_older_than_parent() {
    let mut g = SceneGraph::new();
    let leaf = g.add(SceneNode::from_vao(5, 9));
    let mid = g.add(SceneNode::new());
    let top = g.add(SceneNode::new());
    assert!(!g.reaches(leaf, mid));
    g.add_child(mid, leaf);
    assert!(!g.reaches(mid, top));
    g.add_child(top, mid);
    assert!(g.reaches(top, leaf));
    assert!(g.reaches(leaf, leaf));
    assert!(!g.reaches(leaf, top));
    assert!(!g.reaches(0, 7));
    let plan = draw_scene(&g, top);
    assert_eq!(
        plan,
        vec![
            DrawStep { node: 2, parent: None, visible: false },
            DrawStep { node: 1, parent: Some(0), visible: false },
            DrawStep { node: 0, parent: Some(1), visible: true },
        ]
    );
}

#[test]
fn remove_child_and_detach() {
    let mut g = SceneGraph::new();
    let a = g.add(SceneNode::new());
    let b = g.add(SceneNode::new());
    let c = g.add(SceneNode::new());
    g.add_child(a, b);
    g.add_child(a, c);
    g.add_child(a, b);
    g.add_child(b, c);
    assert!(g.has_child(a, c));
    g.remove_child(a, b);
    assert_eq!(g.node(a).children, vec![2]);
    assert!(!g.has_child(a, b));
    g.add_child(a, b);
    g.remove_child(a, b);
    assert_eq!(g.node(a).children, vec![2]);
    g.detach(c);
    assert!(g.node(a).children.is_empty());
    assert!(g.node(b).children.is_empty());
    assert_eq!(g.len(), 3);
}

#[test]
fn released_door_falls_and_is_deleted() {
    let mut world = World::new(&meshes());
    world.player = PlayerHelicopter::new(1);
    assert_eq!(world.graph.node(7).children, vec![8, 9, 10, 11]);
    assert_eq!(world.release_door(), Some(9));
    assert_eq!(world.graph.node(7).children, vec![8, 10, 11]);
    assert_eq!(world.release_door(), None);
    let mut anims = vec!["door", "other"];
    let mut doors = vec![9, 14];
    world.finish_animations(&mut anims, &mut doors, &vec![true, false]);
    assert_eq!(anims, vec!["other"]);
    assert_eq!(doors, vec![14]);
    assert_eq!(world.nodes.get(Nodes::HeliDoor), &vec![4, 14, 19, 24]);
    assert_eq!(world.graph.node(12).children, vec![13, 14, 15, 16]);
    let plan: UpdatePlan = world.update_plan();
    assert_eq!(plan.helicopters.len(), 5);
    let drawn: Vec<usize> = draw_scene(&world.graph, 0).iter().map(|s| s.node).collect();
    assert!(!drawn.contains(&9));
    assert_eq!(drawn.len(), 26);
}

#[test]
fn delete_node_takes_it_everywhere() {
    let mut world = World::new(&meshes());
    world.delete_node(Nodes::HeliMainRotor, 10);
    assert_eq!(world.nodes.get(Nodes::HeliMainRotor), &vec![5, 15, 20, 25]);
    assert_eq!(world.graph.node(7).children, vec![8, 9, 11]);
    assert_eq!(world.graph.len(), 27);
}
