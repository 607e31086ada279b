//! A grid-based box-pushing puzzle: the entity and component store, the
//! movement rules, the event queue and the win condition, each with its
//! contract.

use vstd::prelude::*;

pub mod audio;
pub mod components;
pub mod constants;
pub mod entities;
pub mod events;
pub mod first_level;
pub mod maps;
pub mod resources;
pub mod systems;
pub mod world;

use crate::events::Event;
use crate::first_level::lemma_first_level_reads;
use crate::maps::{initialize_level, level, map_cells};
use crate::resources::{register_resources, Direction, Gameplay, GameplayState};
use crate::systems::event_system::{dispatch_pass, effects, follow_ups, Effect, EventSystem};
use crate::systems::game_play_state_system::{
    cover, first_open_spot, win_pass, Cover, GameplayStateSystem,
};
use crate::systems::input_system::{input_pass, player_of, resolve, resolve_move, InputSystem};
use crate::world::{extends, Components, World, WorldView};

verus! {

/// The state after the queued events were dispatched until none is left: a
/// second pass handles what the first gave rise to.
pub open spec fn settled(world: WorldView) -> WorldView {
    dispatch_pass(dispatch_pass(world))
}

/// What the host is asked to do while the events are dispatched, in the
/// order of the passes.
pub open spec fn settle_effects(world: WorldView) -> Seq<Effect> {
    effects(world.gameplay.state, world.events) + effects(
        world.gameplay.state,
        dispatch_pass(world).events,
    )
}

/// What a dispatch pass leaves in the queue gives rise to nothing further.
pub proof fn lemma_follow_ups_end(entities: Seq<Components>, events: Seq<Event>)
    ensures
        follow_ups(entities, follow_ups(entities, events)).len() == 0,
        forall|k: int|
            0 <= k < follow_ups(entities, events).len() ==> #[trigger] follow_ups(entities, events)[k]
                is BoxPlacedOnSpot,
{
    lemma_follow_ups_are_placements(entities, events);
    lemma_placements_end(entities, follow_ups(entities, events));
}

proof fn lemma_follow_ups_are_placements(entities: Seq<Components>, events: Seq<Event>)
    ensures
        forall|k: int|
            0 <= k < follow_ups(entities, events).len() ==> #[trigger] follow_ups(entities, events)[k]
                is BoxPlacedOnSpot,
    decreases events.len(),
{
    if events.len() > 0 {
        lemma_follow_ups_are_placements(entities, events.drop_last());
    }
}

proof fn lemma_placements_end(entities: Seq<Components>, events: Seq<Event>)
    requires
        forall|k: int| 0 <= k < events.len() ==> #[trigger] events[k] is BoxPlacedOnSpot,
    ensures
        follow_ups(entities, events).len() == 0,
    decreases events.len(),
{
    if events.len() > 0 {
        lemma_placements_end(entities, events.drop_last());
        assert(events.last() == events[events.len() - 1]);
    }
}

/// The state after one tick on a given input: the move, if one was asked
/// for, then the win condition, then the events.
pub open spec fn tick(world: WorldView, pending_input: Option<Direction>) -> WorldView {
    settled(
        win_pass(
            match pending_input {
                Some(direction) => resolve(world, direction),
                None => world,
            },
        ),
    )
}

/// What the host is asked to do in that tick.
pub open spec fn tick_effects(world: WorldView, pending_input: Option<Direction>) -> Seq<Effect> {
    settle_effects(
        win_pass(
            match pending_input {
                Some(direction) => resolve(world, direction),
                None => world,
            },
        ),
    )
}

/// A tick changes the entities and the move counter by its move alone: the
/// look at the win condition and the dispatch of the events leave both as
/// they are. After the tick no event waits.
pub proof fn lemma_tick_keeps_the_move(world: WorldView, direction: Direction)
    ensures
        tick(world, Some(direction)).entities == resolve(world, direction).entities,
        tick(world, Some(direction)).gameplay.moves_count == resolve(
            world,
            direction,
        ).gameplay.moves_count,
        tick(world, Some(direction)).events.len() == 0,
{
    let judged = win_pass(resolve(world, direction));
    lemma_follow_ups_end(judged.entities, judged.events);
}

/// Whether the phase of the game is what the spots call for: `Won` where
/// every spot holds a box of its color, `Playing` where the first spot that
/// does not is bare.
pub open spec fn phase_agrees(world: WorldView) -> bool {
    match first_open_spot(world.entities, world.entities.len()) {
        Some(spot) => cover(world.entities, spot) is Bare ==> world.gameplay.state
            == GameplayState::Playing,
        None => world.gameplay.state == GameplayState::Won,
    }
}

/// A tick without input moves nothing: the entities, the move counter, the
/// pending inputs and the time played stay as they are, and no event waits
/// after it. A second such tick changes nothing that the first has left.
pub proof fn lemma_idle_tick_keeps_the_board(world: WorldView)
    ensures
        tick(world, None).entities == world.entities,
        tick(world, None).gameplay.moves_count == world.gameplay.moves_count,
        tick(world, None).inputs == world.inputs,
        tick(world, None).time == world.time,
        tick(world, None).events.len() == 0,
        tick(tick(world, None), None) == tick(world, None),
{
    let judged = win_pass(world);
    lemma_follow_ups_end(judged.entities, judged.events);
    let once = tick(world, None);
    let again = win_pass(once);
    lemma_follow_ups_end(again.entities, again.events);
    assert(once.events =~= Seq::<Event>::empty());
    assert(tick(once, None).events =~= Seq::<Event>::empty());
}

/// Where the phase is what the spots call for, a tick without input leaves
/// the phase as it is too. If no event waited before the tick, the one event
/// that the tick handles is the `GameOver` of a won game, for which the host
/// is asked to quit; while the game is being played the tick handles no event
/// and asks for nothing.
pub proof fn lemma_idle_tick_changes_nothing(world: WorldView)
    requires
        phase_agrees(world),
    ensures
        tick(world, None).gameplay == world.gameplay,
        tick(world, None).entities == world.entities,
        world.events.len() == 0 ==> tick(world, None) == world,
        world.events.len() == 0 ==> win_pass(world).events == (if world.gameplay.state
            == GameplayState::Won && first_open_spot(world.entities, world.entities.len())
            is None {
            seq![Event::GameOver]
        } else {
            Seq::<Event>::empty()
        }),
        world.events.len() == 0 ==> tick_effects(world, None) == (if world.gameplay.state
            == GameplayState::Won && first_open_spot(world.entities, world.entities.len())
            is None {
            seq![Effect::Quit]
        } else {
            Seq::<Effect>::empty()
        }),
{
    let judged = win_pass(world);
    lemma_follow_ups_end(judged.entities, judged.events);
    if world.events.len() == 0 {
        assert(world.events =~= Seq::<Event>::empty());
        assert(tick(world, None).events =~= world.events);
        if first_open_spot(world.entities, world.entities.len()) is None {
            let queued = seq![Event::GameOver];
            assert(judged.events =~= queued);
            assert(queued.drop_last() =~= Seq::<Event>::empty());
            assert(effects(judged.gameplay.state, queued.drop_last()) =~= Seq::<Effect>::empty());
            assert(effects(judged.gameplay.state, queued) =~= seq![Effect::Quit]);
            assert(follow_ups(judged.entities, queued.drop_last()) =~= Seq::<Event>::empty());
            assert(follow_ups(judged.entities, queued) =~= Seq::<Event>::empty());
            assert(tick_effects(world, None) =~= seq![Effect::Quit]);
        } else {
            assert(judged.events =~= Seq::<Event>::empty());
            assert(tick_effects(world, None) =~= Seq::<Effect>::empty());
        }
    }
}

/// The state before the events of a frame are dispatched: the input queued
/// last was acted on, the win condition was looked at, and the time of the
/// frame was added to the time played.
pub open spec fn frame_before_dispatch(world: WorldView, elapsed: u128) -> WorldView {
    let judged = win_pass(input_pass(world));
    WorldView { time: (judged.time + elapsed) as u128, ..judged }
}

/// The level that a new game starts with.
pub const MAP: &'static str = "
    N N W W W W W W
    W W W . . . . W
    W . . . BB . . W
    W . . . . . . W 
    W . P . . RB . W
    W . . . . . . W
    W . . BS . . . W
    W . . . . RS . W
    W W W W W W W W
    ";

/// Sets a world up for a new game: the shared records are put back to the
/// start, and the entities of the first level are added.
pub fn create_game(world: &mut World)
    ensures
        map_cells(MAP@) is Ok,
        extends(
            WorldView {
                entities: old(world)@.entities,
                inputs: Seq::empty(),
                events: Seq::empty(),
                gameplay: Gameplay { state: GameplayState::Playing, moves_count: 0 },
                time: 0,
            },
            final(world)@,
            level(map_cells(MAP@)->Ok_0),
        ),
{
    proof {
        lemma_first_level_reads();
    }
    register_resources(world);
    match initialize_level(world, MAP) {
        Ok(()) => {},
        Err(_) => vstd::pervasive::unreached(),
    }
}

/// A game in progress.
pub struct Game {
    world: World,
}

impl View for Game {
    type V = WorldView;

    closed spec fn view(&self) -> WorldView {
        self.world@
    }
}

impl Game {
    /// A game on the given world.
    pub fn new(world: World) -> (game: Self)
        ensures
            game@ == world@,
    {
        Game { world }
    }

    /// The world as it stands, for the host to draw.
    pub fn world(&self) -> (world: &World)
        ensures
            world@ == self@,
    {
        &self.world
    }

    /// Queues a direction that the player asked for.
    pub fn submit_input(&mut self, direction: Direction)
        ensures
            final(self)@ == (WorldView { inputs: old(self)@.inputs.push(direction), ..old(self)@ }),
    {
        self.world.input_queue.keys_pressed.push(direction);
    }

    /// Dispatches the queued events until none is left.
    fn settle(&mut self) -> (asked: Vec<Effect>)
        ensures
            final(self)@ == settled(old(self)@),
            final(self)@.events.len() == 0,
            asked@ == settle_effects(old(self)@),
    {
        let ghost before = self@;
        let mut dispatcher = EventSystem {  };
        let mut asked = dispatcher.run(&mut self.world);
        let mut more = dispatcher.run(&mut self.world);
        asked.append(&mut more);
        proof {
            lemma_follow_ups_end(before.entities, before.events);
        }
        asked
    }

    /// Runs one tick on a given input: resolves the move, if one was asked
    /// for, looks at the win condition, and dispatches the events. Returns
    /// what the host is asked to do.
    pub fn resolve_tick(&mut self, pending_input: Option<Direction>) -> (asked: Vec<Effect>)
        requires
            old(self)@.gameplay.moves_count < u32::MAX,
        ensures
            final(self)@ == tick(old(self)@, pending_input),
            final(self)@.events.len() == 0,
            asked@ == tick_effects(old(self)@, pending_input),
    {
        match pending_input {
            Some(direction) => resolve_move(&mut self.world, direction),
            None => {},
        }
        let mut judge = GameplayStateSystem {  };
        judge.run(&mut self.world);
        self.settle()
    }

    /// Runs the tick of one frame, `elapsed` nanoseconds after the last: acts
    /// on the input that was queued last, looks at the win condition, adds
    /// the frame's time to the time played, and dispatches the events.
    /// Returns what the host is asked to do.
    pub fn update(&mut self, elapsed: u128) -> (asked: Vec<Effect>)
        requires
            old(self)@.gameplay.moves_count < u32::MAX,
            old(self)@.time + elapsed <= u128::MAX,
        ensures
            final(self)@ == settled(frame_before_dispatch(old(self)@, elapsed)),
            final(self)@.events.len() == 0,
            asked@ == settle_effects(frame_before_dispatch(old(self)@, elapsed)),
    {
        let mut mover = InputSystem {  };
        mover.run(&mut self.world);
        let mut judge = GameplayStateSystem {  };
        judge.run(&mut self.world);
        self.world.time.delta += elapsed;
        self.settle()
    }
}

} // verus!
