use vstd::prelude::*;

verus! {

/// Names an entity: its place in the world's list of entities.
pub type EntityId = usize;

/// An entity was shifted by one cell.
#[derive(Debug, Copy, Clone, PartialEq, Eq, Structural)]
pub struct EntityMoved {
    pub id: EntityId,
}

/// A box came to stand on a spot, of its own color or of another.
#[derive(Debug, Copy, Clone, PartialEq, Eq, Structural)]
pub struct BoxPlacedOnSpot {
    pub is_correct_spot: bool,
}

/// Something that has happened in the game and waits to be reacted to.
#[derive(Debug, Copy, Clone, PartialEq, Eq, Structural)]
pub enum Event {
    /// The push ran into something that cannot be pushed.
    PlayerHitObstacle,
    EntityMoved(EntityMoved),
    BoxPlacedOnSpot(BoxPlacedOnSpot),
    /// Every spot was found covered by a box of its color.
    GameOver,
}

} // verus!
