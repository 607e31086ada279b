use vstd::prelude::*;
use crate::audio::Sound;
use crate::events::{BoxPlacedOnSpot, EntityId, EntityMoved, Event};
use crate::resources::GameplayState;
use crate::world::{find_at, indexes, lemma_occupant, occupant, Components, Kind, World, WorldView};

verus! {

/// What the host is asked to do in reaction to an event.
#[derive(Debug, Copy, Clone, PartialEq, Eq, Structural)]
pub enum Effect {
    PlaySound(Sound),
    /// The game is won: leave the run loop.
    Quit,
}

/// What the host is asked to do for one event. A move asks for nothing by
/// itself, and `GameOver` counts only while the game is in the phase `Won`.
pub open spec fn effect_of(phase: GameplayState, event: Event) -> Option<Effect> {
    match event {
        Event::PlayerHitObstacle => Some(Effect::PlaySound(Sound::Wall)),
        Event::EntityMoved(_) => None,
        Event::BoxPlacedOnSpot(placed) => Some(
            Effect::PlaySound(
                if placed.is_correct_spot {
                    Sound::Correct
                } else {
                    Sound::Incorrect
                },
            ),
        ),
        Event::GameOver => if phase == GameplayState::Won {
            Some(Effect::Quit)
        } else {
            None
        },
    }
}

/// The event that one event gives rise to: a box that was moved and now
/// stands on a spot was placed there, rightly if their colors agree. Of
/// several spots on one cell, the one that was inserted last counts.
pub open spec fn follow_up(entities: Seq<Components>, event: Event) -> Option<Event> {
    match event {
        Event::EntityMoved(moved) => if moved.id < entities.len() && entities[moved.id as int].the_box
            is Some && entities[moved.id as int].position is Some {
            let mover = entities[moved.id as int];
            match occupant(entities, Kind::BoxSpot, mover.position->0.x, mover.position->0.y) {
                Some(spot) => Some(
                    Event::BoxPlacedOnSpot(
                        BoxPlacedOnSpot {
                            is_correct_spot: entities[spot].box_spot->0.color
                                == mover.the_box->0.color,
                        },
                    ),
                ),
                None => None,
            }
        } else {
            None
        },
        _ => None,
    }
}

/// The effects of a run of events, in the order of the events.
pub open spec fn effects(phase: GameplayState, events: Seq<Event>) -> Seq<Effect>
    decreases events.len(),
{
    if events.len() == 0 {
        Seq::empty()
    } else {
        effects(phase, events.drop_last()) + (match effect_of(phase, events.last()) {
            Some(effect) => seq![effect],
            None => Seq::empty(),
        })
    }
}

/// The events that a run of events gives rise to, in the order of the events.
pub open spec fn follow_ups(entities: Seq<Components>, events: Seq<Event>) -> Seq<Event>
    decreases events.len(),
{
    if events.len() == 0 {
        Seq::empty()
    } else {
        follow_ups(entities, events.drop_last()) + (match follow_up(entities, events.last()) {
            Some(event) => seq![event],
            None => Seq::empty(),
        })
    }
}

/// The state after one dispatch pass: every queued event was handled, and
/// the queue holds the events that they gave rise to, which wait for the next
/// pass.
pub open spec fn dispatch_pass(world: WorldView) -> WorldView {
    WorldView { events: follow_ups(world.entities, world.events), ..world }
}

/// The pass of a tick that reacts to the queued events.
pub struct EventSystem {}

impl EventSystem {
    /// Handles the queued events, oldest first, and returns what the host is
    /// asked to do.
    pub fn run(&mut self, world: &mut World) -> (asked: Vec<Effect>)
        ensures
            final(world)@ == dispatch_pass(old(world)@),
            asked@ == effects(old(world)@.gameplay.state, old(world)@.events),
    {
        let ghost before = world@;
        let spots = world.index_cells(Kind::BoxSpot);
        let mut asked: Vec<Effect> = Vec::new();
        let mut new_events: Vec<Event> = Vec::new();
        let mut i: usize = 0;
        while i < world.event_queue.events.len()
            invariant
                world@ == before,
                before == old(world)@,
                i <= before.events.len(),
                indexes(spots@, before.entities, Kind::BoxSpot),
                asked@ == effects(before.gameplay.state, before.events.take(i as int)),
                new_events@ == follow_ups(before.entities, before.events.take(i as int)),
            decreases before.events.len() - i,
        {
            let event = world.event_queue.events[i];
            proof {
                let done = before.events.take(i as int);
                let more = before.events.take(i + 1);
                assert(more.drop_last() =~= done);
                assert(more.last() == event);
            }
            match event {
                Event::PlayerHitObstacle => {
                    asked.push(Effect::PlaySound(Sound::Wall));
                },
                Event::EntityMoved(moved) => {
                    if moved.id < world.entities.len() {
                        let the_box = world.entities[moved.id].the_box;
                        let position = world.entities[moved.id].position;
                        if the_box.is_some() && position.is_some() {
                            let p = position.unwrap();
                            proof {
                                lemma_occupant(before.entities, Kind::BoxSpot, p.x, p.y);
                            }
                            match find_at(&spots, p.x, p.y) {
                                Some(spot) => {
                                    let spot_color = world.entities[spot].box_spot.unwrap().color;
                                    new_events.push(
                                        Event::BoxPlacedOnSpot(
                                            BoxPlacedOnSpot {
                                                is_correct_spot: spot_color
                                                    == the_box.unwrap().color,
                                            },
                                        ),
                                    );
                                },
                                None => {},
                            }
                        }
                    }
                },
                Event::BoxPlacedOnSpot(placed) => {
                    if placed.is_correct_spot {
                        asked.push(Effect::PlaySound(Sound::Correct));
                    } else {
                        asked.push(Effect::PlaySound(Sound::Incorrect));
                    }
                },
                Event::GameOver => {
                    if world.gameplay.state == GameplayState::Won {
                        asked.push(Effect::Quit);
                    }
                },
            }
            i += 1;
        }
        assert(before.events.take(i as int) =~= before.events);
        world.event_queue.events = new_events;
        asked
    }
}

/// A box that was moved onto a spot is reported as placed there, rightly
/// where box and spot have one color and wrongly where they have two, and the
/// report asks for the sound that goes with it. Here `spot` is the one spot
/// on the cell where the box `id` stands.
pub proof fn lemma_placed_box_is_reported(
    entities: Seq<Components>,
    phase: GameplayState,
    id: EntityId,
    spot: int,
)
    requires
        id < entities.len(),
        entities[id as int].joins(Kind::Box),
        0 <= spot < entities.len(),
        entities[spot].has(Kind::BoxSpot),
        entities[spot].shares_cell(entities[id as int]),
        forall|other: int|
            0 <= other < entities.len() && other != spot && #[trigger] entities[other].has(
                Kind::BoxSpot,
            ) ==> !entities[other].shares_cell(entities[id as int]),
    ensures
        ({
            let right = entities[id as int].the_box->0.color == entities[spot].box_spot->0.color;
            let report = Event::BoxPlacedOnSpot(BoxPlacedOnSpot { is_correct_spot: right });
            &&& follow_up(entities, Event::EntityMoved(EntityMoved { id })) == Some(report)
            &&& follow_ups(entities, seq![Event::EntityMoved(EntityMoved { id })]) == seq![report]
            &&& effect_of(phase, report) == Some(
                Effect::PlaySound(
                    if right {
                        Sound::Correct
                    } else {
                        Sound::Incorrect
                    },
                ),
            )
        }),
{
    let p = entities[id as int].position->0;
    lemma_occupant(entities, Kind::BoxSpot, p.x, p.y);
    assert(occupant(entities, Kind::BoxSpot, p.x, p.y) == Some(spot)) by {
        if let Some(found) = occupant(entities, Kind::BoxSpot, p.x, p.y) {
            assert(entities[found].has(Kind::BoxSpot));
            assert(entities[found].shares_cell(entities[id as int]));
        }
    }
    let moved = seq![Event::EntityMoved(EntityMoved { id })];
    assert(moved.drop_last() =~= Seq::<Event>::empty());
    assert(follow_ups(entities, moved.drop_last()) =~= Seq::<Event>::empty());
    let right = entities[id as int].the_box->0.color == entities[spot].box_spot->0.color;
    let report = Event::BoxPlacedOnSpot(BoxPlacedOnSpot { is_correct_spot: right });
    assert(follow_ups(entities, moved) =~= seq![report]);
}

} // verus!
