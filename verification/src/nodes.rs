use vstd::prelude::*;

verus! {

/// The kinds of node that the scene is built from.
#[derive(Clone, Copy, PartialEq, Eq, Structural, Debug, Hash)]
pub enum Nodes {
    LunarSurface,
    HeliBody,
    HeliDoor,
    HeliMainRotor,
    HeliTailRotor,
    HeliRoot,
    SceneRoot,
}

/// The helicopter that the player steers: which of the helicopters it is.
pub struct PlayerHelicopter {
    pub node_index: usize,
}

impl PlayerHelicopter {
    pub fn new(node_index: usize) -> (r: Self)
        ensures
            r.node_index == node_index,
    {
        Self { node_index }
    }

}

} // verus!
