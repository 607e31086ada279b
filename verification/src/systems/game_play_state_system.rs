use vstd::prelude::*;
use crate::events::Event;
use crate::resources::{Gameplay, GameplayState};
use crate::world::{find_at, lemma_occupant, occupant, Components, Kind, World, WorldView};

verus! {

/// What lies on a spot.
#[derive(Debug, Copy, Clone, PartialEq, Eq, Structural)]
pub enum Cover {
    /// A box of the spot's color.
    Matching,
    /// A box of another color.
    Mismatched,
    /// No box at all.
    Bare,
}

/// What lies on the spot that entity `spot` marks. Of several boxes on one
/// cell, the one that was inserted last counts.
pub open spec fn cover(entities: Seq<Components>, spot: int) -> Cover {
    let p = entities[spot].position->0;
    match occupant(entities, Kind::Box, p.x, p.y) {
        Some(b) => if entities[b].the_box->0.color == entities[spot].box_spot->0.color {
            Cover::Matching
        } else {
            Cover::Mismatched
        },
        None => Cover::Bare,
    }
}

/// Whether entity `i` is a spot on the grid that does not hold a box of its
/// color.
pub open spec fn is_open_spot(entities: Seq<Components>, i: int) -> bool {
    entities[i].joins(Kind::BoxSpot) && cover(entities, i) != Cover::Matching
}

/// The first open spot among the first `n` entities.
pub open spec fn first_open_spot(entities: Seq<Components>, n: nat) -> Option<int>
    decreases n,
{
    if n == 0 {
        None
    } else {
        match first_open_spot(entities, (n - 1) as nat) {
            Some(i) => Some(i),
            None => if is_open_spot(entities, n - 1) {
                Some(n - 1)
            } else {
                None
            },
        }
    }
}

/// What `first_open_spot` finds is an open spot among the first `n`
/// entities, and no entity before it is one.
pub proof fn lemma_first_open_spot(entities: Seq<Components>, n: nat)
    ensures
        match first_open_spot(entities, n) {
            Some(i) => {
                &&& 0 <= i < n
                &&& is_open_spot(entities, i)
                &&& forall|j: int| 0 <= j < i ==> !is_open_spot(entities, j)
            },
            None => forall|j: int| 0 <= j < n ==> !is_open_spot(entities, j),
        },
    decreases n,
{
    if n > 0 {
        lemma_first_open_spot(entities, (n - 1) as nat);
    }
}

/// The state after the win condition was looked at. The spots are gone
/// through in the order of insertion. The first one that holds no box of its
/// color decides: bare, the game is being played; under a box of another
/// color, the phase stays what it was. With every spot under a box of its
/// color the game is won, and a `GameOver` event is queued.
pub open spec fn win_pass(world: WorldView) -> WorldView {
    match first_open_spot(world.entities, world.entities.len()) {
        Some(spot) => match cover(world.entities, spot) {
            Cover::Bare => WorldView {
                gameplay: Gameplay { state: GameplayState::Playing, ..world.gameplay },
                ..world
            },
            _ => world,
        },
        None => WorldView {
            gameplay: Gameplay { state: GameplayState::Won, ..world.gameplay },
            events: world.events.push(Event::GameOver),
            ..world
        },
    }
}

/// The pass of a tick that looks at the win condition.
pub struct GameplayStateSystem {}

impl GameplayStateSystem {
    /// Sets the phase of the game from where the boxes stand now.
    pub fn run(&mut self, world: &mut World)
        ensures
            final(world)@ == win_pass(old(world)@),
    {
        let ghost before = world@;
        let boxes = world.index_cells(Kind::Box);
        let mut i: usize = 0;
        while i < world.entities.len()
            invariant
                world@ == before,
                before == old(world)@,
                i <= before.entities.len(),
                crate::world::indexes(boxes@, before.entities, Kind::Box),
                first_open_spot(before.entities, i as nat) is None,
            decreases before.entities.len() - i,
        {
            let here = world.entities[i].position;
            let spot = world.entities[i].box_spot;
            if here.is_some() && spot.is_some() {
                let p = here.unwrap();
                proof {
                    lemma_occupant(before.entities, Kind::Box, p.x, p.y);
                    lemma_first_open_spot(before.entities, before.entities.len());
                    lemma_first_open_spot(before.entities, i as nat);
                }
                match find_at(&boxes, p.x, p.y) {
                    Some(b) => {
                        let the_box = world.entities[b].the_box.unwrap();
                        if the_box.color != spot.unwrap().color {
                            assert(is_open_spot(before.entities, i as int));
                            assert(first_open_spot(before.entities, before.entities.len())
                                == Some(i as int));
                            return ;
                        }
                    },
                    None => {
                        assert(is_open_spot(before.entities, i as int));
                        assert(first_open_spot(before.entities, before.entities.len()) == Some(
                            i as int,
                        ));
                        world.gameplay.state = GameplayState::Playing;
                        return ;
                    },
                }
            }
            i += 1;
        }
        world.gameplay.state = GameplayState::Won;
        world.event_queue.events.push(Event::GameOver);
    }
}

/// Whether a box stands on the cell of the spot `spot`, and every box that
/// does has the spot's color.
pub open spec fn is_covered_rightly(entities: Seq<Components>, spot: int) -> bool {
    &&& exists|b: int|
        0 <= b < entities.len() && #[trigger] entities[b].has(Kind::Box) && entities[b].shares_cell(
            entities[spot],
        )
    &&& forall|b: int|
        0 <= b < entities.len() && #[trigger] entities[b].has(Kind::Box) && entities[b].shares_cell(
            entities[spot],
        ) ==> entities[b].the_box->0.color == entities[spot].box_spot->0.color
}

/// Whether no box stands on the cell of the spot `spot`.
pub open spec fn is_bare(entities: Seq<Components>, spot: int) -> bool {
    forall|b: int|
        0 <= b < entities.len() && #[trigger] entities[b].has(Kind::Box)
            ==> !entities[b].shares_cell(entities[spot])
}

proof fn lemma_cover(entities: Seq<Components>, spot: int)
    requires
        0 <= spot < entities.len(),
        entities[spot].joins(Kind::BoxSpot),
    ensures
        is_covered_rightly(entities, spot) ==> cover(entities, spot) == Cover::Matching,
        is_bare(entities, spot) ==> cover(entities, spot) == Cover::Bare,
{
    let p = entities[spot].position->0;
    lemma_occupant(entities, Kind::Box, p.x, p.y);
    if is_covered_rightly(entities, spot) {
        let b = choose|b: int|
            0 <= b < entities.len() && #[trigger] entities[b].has(Kind::Box)
                && entities[b].shares_cell(entities[spot]);
        assert(entities[b].has(Kind::Box) && entities[b].stands_at(p.x, p.y));
        let found = occupant(entities, Kind::Box, p.x, p.y)->0;
        assert(entities[found].has(Kind::Box) && entities[found].shares_cell(entities[spot]));
    }
    if is_bare(entities, spot) {
        if let Some(found) = occupant(entities, Kind::Box, p.x, p.y) {
            assert(entities[found].has(Kind::Box) && entities[found].shares_cell(entities[spot]));
        }
    }
}

/// With a box of its color on every spot the game is won: the phase becomes
/// `Won` and one `GameOver` event is queued.
pub proof fn lemma_covered_spots_win(world: WorldView)
    requires
        forall|i: int|
            0 <= i < world.entities.len() && #[trigger] world.entities[i].joins(Kind::BoxSpot)
                ==> is_covered_rightly(world.entities, i),
    ensures
        win_pass(world).gameplay.state == GameplayState::Won,
        win_pass(world).events == world.events.push(Event::GameOver),
        win_pass(world).entities == world.entities,
        win_pass(world).gameplay.moves_count == world.gameplay.moves_count,
{
    lemma_first_open_spot(world.entities, world.entities.len());
    if let Some(spot) = first_open_spot(world.entities, world.entities.len()) {
        assert(world.entities[spot].joins(Kind::BoxSpot));
        lemma_cover(world.entities, spot);
    }
}

/// With one spot bare and a box of its color on every other spot the game
/// is being played: the phase becomes `Playing`, whatever it was, and no
/// event is queued.
pub proof fn lemma_bare_spot_keeps_playing(world: WorldView, bare: int)
    requires
        0 <= bare < world.entities.len(),
        world.entities[bare].joins(Kind::BoxSpot),
        is_bare(world.entities, bare),
        forall|i: int|
            0 <= i < world.entities.len() && i != bare && #[trigger] world.entities[i].joins(
                Kind::BoxSpot,
            ) ==> is_covered_rightly(world.entities, i),
    ensures
        win_pass(world).gameplay.state == GameplayState::Playing,
        win_pass(world).events == world.events,
        win_pass(world).entities == world.entities,
        win_pass(world).gameplay.moves_count == world.gameplay.moves_count,
{
    lemma_first_open_spot(world.entities, world.entities.len());
    lemma_cover(world.entities, bare);
    assert(is_open_spot(world.entities, bare));
    let spot = first_open_spot(world.entities, world.entities.len())->0;
    if spot != bare {
        assert(world.entities[spot].joins(Kind::BoxSpot));
        lemma_cover(world.entities, spot);
    }
}

} // verus!
