use vstd::prelude::*;

use crate::nodes::Nodes;

verus! {

/// The colour of every vertex of a mesh: the four components of `color`, once for each
/// of `num` vertices.
pub fn generate_color_vec<T: Copy>(color: [T; 4], num: usize) -> (r: Vec<T>)
    requires
        num <= usize::MAX / 4,
    ensures
        r@.len() == num * 4,
        forall|i: int| 0 <= i < r@.len() ==> #[trigger] r@[i] == color@[i % 4],
{
    let mut r: Vec<T> = Vec::new();
    let mut v: usize = 0;
    while v < num
        invariant
            v <= num,
            num <= usize::MAX / 4,
            r@.len() == v * 4,
            forall|i: int| 0 <= i < r@.len() ==> #[trigger] r@[i] == color@[i % 4],
        decreases num - v,
    {
        let mut c: usize = 0;
        while c < 4
            invariant
                v < num,
                num <= usize::MAX / 4,
                c <= 4,
                r@.len() == v * 4 + c,
                forall|i: int| 0 <= i < r@.len() ==> #[trigger] r@[i] == color@[i % 4],
            decreases 4 - c,
        {
            assert((v * 4 + c) % 4 == c as int) by (nonlinear_arith)
                requires
                    c < 4,
            ;
            r.push(color[c]);
            c = c + 1;
        }
        v = v + 1;
    }
    r
}

/// What a mesh is made of, counted: its vertices (three coordinates each) and the
/// indices it draws, as the graphics API takes that number.
#[derive(Clone, Copy, PartialEq, Eq, Structural, Debug)]
pub struct MeshCounts {
    pub num_verts: usize,
    pub index_count: i32,
}

impl MeshCounts {
    /// The counts of a mesh with `positions_len` coordinates and `indices_len` indices.
    pub fn of(positions_len: usize, indices_len: usize) -> (r: Self)
        ensures
            r.num_verts == positions_len / 3,
            r.index_count == indices_len as i32,
    {
        MeshCounts { num_verts: positions_len / 3, index_count: indices_len as i32 }
    }
}

/// The lunar terrain, which is made of a single mesh.
pub struct Terrain;

impl Terrain {
    /// Which of the `model_count` models of the terrain's file is the terrain: the one
    /// model, and none when the file holds no model or more than one.
    pub fn select_model(model_count: usize) -> (r: Option<usize>)
        ensures
            r == (if model_count == 1 {
                Some(0usize)
            } else {
                None
            }),
    {
        if model_count > 1 || model_count == 0 {
            None
        } else {
            Some(0)
        }
    }
}

/// The part of the helicopter at position `i`, counted as the helicopter's parts are
/// indexed: body, main rotor, tail rotor, door.
pub fn helicopter_part(i: usize) -> (r: Nodes)
    requires
        i < 4,
    ensures
        r == (if i == 0 {
            Nodes::HeliBody
        } else if i == 1 {
            Nodes::HeliMainRotor
        } else if i == 2 {
            Nodes::HeliTailRotor
        } else {
            Nodes::HeliDoor
        }),
{
    match i {
        0 => Nodes::HeliBody,
        1 => Nodes::HeliMainRotor,
        2 => Nodes::HeliTailRotor,
        _ => Nodes::HeliDoor,
    }
}

/// The names of the models, as text.
pub open spec fn names_of(names: Seq<String>) -> Seq<Seq<char>> {
    names.map_values(|s: String| s@)
}

/// The position of the first model called `name`.
pub fn find_model(names: &Vec<String>, name: &String) -> (r: Option<usize>)
    ensures
        r == (match names_of(names@).index_of_first(name@) {
            Some(i) => Some(i as usize),
            None => None::<usize>,
        }),
{
    let ghost text = names_of(names@);
    let mut i: usize = 0;
    while i < names.len()
        invariant
            text == names_of(names@),
            i <= names@.len(),
            forall|j: int| 0 <= j < i ==> text[j] != name@,
        decreases names@.len() - i,
    {
        if names[i] == *name {
            proof {
                assert(text[i as int] == name@);
                text.index_of_first_ensures(name@);
                let f = text.index_of_first(name@).unwrap();
                assert(f == i) by {
                    if f < i {
                        assert(text[f] != name@);
                    }
                }
            }
            return Some(i);
        }
        i = i + 1;
    }
    proof {
        text.index_of_first_ensures(name@);
        if text.contains(name@) {
            let j = choose|j: int| 0 <= j < text.len() && text[j] == name@;
            assert(text[j] != name@);
        }
    }
    None
}

/// Where the parts of the helicopter stand among the models of its file.
#[derive(Clone, Copy, PartialEq, Eq, Structural, Debug)]
pub struct HelicopterParts {
    pub body: usize,
    pub door: usize,
    pub main_rotor: usize,
    pub tail_rotor: usize,
}

/// The position of the first model called `name`, if there is one.
pub open spec fn first_named(names: Seq<String>, name: Seq<char>) -> Option<usize> {
    match names_of(names).index_of_first(name) {
        Some(i) => Some(i as usize),
        None => None,
    }
}

/// Finds the parts of the helicopter among the models of its file, by their names:
/// "Body_body", "Door_door", "Main_Rotor_main_rotor" and "Tail_Rotor_tail_rotor", each
/// the first model of that name. None when a part is missing.
pub fn locate_helicopter_parts(names: &Vec<String>) -> (r: Option<HelicopterParts>)
    ensures
        r == (match (
            first_named(names@, "Body_body"@),
            first_named(names@, "Door_door"@),
            first_named(names@, "Main_Rotor_main_rotor"@),
            first_named(names@, "Tail_Rotor_tail_rotor"@),
        ) {
            (Some(body), Some(door), Some(main_rotor), Some(tail_rotor)) => Some(
                HelicopterParts { body, door, main_rotor, tail_rotor },
            ),
            _ => None,
        }),
{
    let body = find_model(names, &"Body_body".to_owned());
    let door = find_model(names, &"Door_door".to_owned());
    let main_rotor = find_model(names, &"Main_Rotor_main_rotor".to_owned());
    let tail_rotor = find_model(names, &"Tail_Rotor_tail_rotor".to_owned());
    match (body, door, main_rotor, tail_rotor) {
        (Some(body), Some(door), Some(main_rotor), Some(tail_rotor)) => Some(
            HelicopterParts { body, door, main_rotor, tail_rotor },
        ),
        _ => None,
    }
}

} // verus!
