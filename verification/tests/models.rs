use gloom_rs::keys::{key_action, CameraAction, CameraKey, PressedKeys};
use gloom_rs::mesh::{
    find_model, generate_color_vec, helicopter_part, locate_helicopter_parts, HelicopterParts,
    MeshCounts, Terrain,
};
use gloom_rs::nodes::Nodes;
use gloom_rs::util::{byte_size_of_array, size_of};

#[test]
fn color_vec_repeats_the_color() {
    let c = generate_color_vec([0.3f32, 0.1, 0.1, 1.0], 3);
    assert_eq!(c, vec![0.3, 0.1, 0.1, 1.0, 0.3, 0.1, 0.1, 1.0, 0.3, 0.1, 0.1, 1.0]);
    assert!(generate_color_vec([1u8, 2, 3, 4], 0).is_empty());
}

#[test]
fn mesh_counts() {
    let m = MeshCounts::of(9, 6);
    assert_eq!(m.num_verts, 3);
    assert_eq!(m.index_count, 6);
    assert_eq!(MeshCounts::of(10, 0).num_verts, 3);
    assert_eq!(MeshCounts::of(0, 1usize << 32 | 5).index_count, 5);
}

#[test]
fn terrain_needs_exactly_one_model() {
    assert_eq!(Terrain::select_model(1), Some(0));
    assert_eq!(Terrain::select_model(0), None);
    assert_eq!(Terrain::select_model(2), None);
}

#[test]
fn helicopter_parts_by_index() {
    assert_eq!(helicopter_part(0), Nodes::HeliBody);
    assert_eq!(helicopter_part(1), Nodes::HeliMainRotor);
    assert_eq!(helicopter_part(2), Nodes::HeliTailRotor);
    assert_eq!(helicopter_part(3), Nodes::HeliDoor);
}

#[test]
fn find_model_gives_first_match() {
    let names: Vec<String> = vec!["a".into(), "b".into(), "a".into()];
    assert_eq!(find_model(&names, &"a".to_string()), Some(0));
    assert_eq!(find_model(&names, &"b".to_string()), Some(1));
    assert_eq!(find_model(&names, &"c".to_string()), None);
}

#[test]
fn helicopter_parts_located() {
    let names: Vec<String> = vec![
        "Tail_Rotor_tail_rotor".into(),
        "Body_body".into(),
        "Main_Rotor_main_rotor".into(),
        "Door_door".into(),
        "Body_body".into(),
    ];
    assert_eq!(
        locate_helicopter_parts(&names),
        Some(HelicopterParts { body: 1, door: 3, main_rotor: 2, tail_rotor: 0 })
    );
    let missing: Vec<String> = vec!["Body_body".into(), "Door_door".into(), "Main_Rotor_main_rotor".into()];
    assert_eq!(locate_helicopter_parts(&missing), None);
}

#[test]
fn pressed_keys_behave_as_a_set() {
    let mut k = PressedKeys::new();
    k.press(17);
    k.press(30);
    k.press(17);
    assert_eq!(k.keys(), &vec![17, 30]);
    assert!(k.contains(30));
    k.release(17);
    assert_eq!(k.keys(), &vec![30]);
    k.release(99);
    assert_eq!(k.keys(), &vec![30]);
    k.press(5);
    k.release(5);
    assert_eq!(k.keys(), &vec![30]);
    assert_eq!(k.position(30), Some(0));
    assert_eq!(k.position(5), None);
    assert!(!k.contains(5));
}

#[test]
fn buffer_sizes() {
    let v = vec![0f32; 12];
    assert_eq!(byte_size_of_array(&v), 48);
    assert_eq!(byte_size_of_array::<u32>(&[]), 0);
    assert_eq!(size_of::<f32>(), 4);
    assert_eq!(size_of::<u64>(), 8);
}

#[test]
fn keys_steer_the_camera() {
    assert_eq!(key_action(CameraKey::W), CameraAction::Move { forward: 1, right: 0, up: 0 });
    assert_eq!(key_action(CameraKey::A), CameraAction::Move { forward: 0, right: -1, up: 0 });
    assert_eq!(key_action(CameraKey::S), CameraAction::Move { forward: -1, right: 0, up: 0 });
    assert_eq!(key_action(CameraKey::D), CameraAction::Move { forward: 0, right: 1, up: 0 });
    assert_eq!(key_action(CameraKey::Space), CameraAction::Move { forward: 0, right: 0, up: -1 });
    assert_eq!(key_action(CameraKey::LShift), CameraAction::Move { forward: 0, right: 0, up: 1 });
    assert_eq!(key_action(CameraKey::Down), CameraAction::Turn { pitch: 1, yaw: 0 });
    assert_eq!(key_action(CameraKey::Up), CameraAction::Turn { pitch: -1, yaw: 0 });
    assert_eq!(key_action(CameraKey::Right), CameraAction::Turn { pitch: 0, yaw: 1 });
    assert_eq!(key_action(CameraKey::Left), CameraAction::Turn { pitch: 0, yaw: -1 });
}
