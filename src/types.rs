use vstd::prelude::*;

verus! {

/// A compass direction, or none.
#[derive(Clone, Copy, PartialEq, Eq, Structural, Debug)]
pub enum Direction {
    NoDirection,
    North,
    South,
    West,
    East,
    NorthWest,
    SouthWest,
    NorthEast,
    SouthEast,
}

/// Unit tag for world space.
pub struct WorldSpace;

/// Unit tag for screen space.
pub struct ScreenSpace;

/// Whether a key is held down.
#[derive(Clone, Copy, PartialEq, Eq, Structural, Debug)]
pub enum KeyState {
    Pressed,
    Released,
}

/// The textures a renderer of the world draws, in the order it loads them.
#[derive(Clone, Copy, PartialEq, Eq, Structural, Debug)]
pub enum TextureType {
    FocusedRed,
    Tile,
    FocusedGreen,
    Water,
    Sand,
    Grass,
    GrassRock,
    Rock,
    Tree,
    House,
    Forester,
    NumBitmaps,
}

} // verus!
