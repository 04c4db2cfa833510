use vstd::prelude::*;

pub mod nodes;
pub mod scene_graph;
pub mod draw;
pub mod world;
pub mod keys;
pub mod util;
pub mod mesh;

verus! {

} // verus!
