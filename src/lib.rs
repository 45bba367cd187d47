/// Axial hexagonal grid coordinates and adjacency.
pub mod hex;
/// Regions: groups of cells with an owner and a stack of dice.
pub mod region;
/// The map and its randomized generation.
pub mod board;
/// Random choices, drawn from a seedable generator.
pub mod random;
/// The session: attacks, their resolution, turns and the end of the game.
pub mod game;
/// Picking regions to declare attacks.
pub mod selection;
