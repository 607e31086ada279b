use vstd::prelude::*;
use crate::events::Event;
use crate::world::{World, WorldView};

verus! {

/// One of the four ways the player can step.
#[derive(Debug, Copy, Clone, PartialEq, Eq, Structural)]
pub enum Direction {
    Up,
    Down,
    Left,
    Right,
}

/// The directions asked for and not yet acted on, oldest first.
pub struct InputQueue {
    pub keys_pressed: Vec<Direction>,
}

impl Default for InputQueue {
    fn default() -> (queue: Self)
        ensures
            queue.keys_pressed@ == Seq::<Direction>::empty(),
    {
        InputQueue { keys_pressed: Vec::new() }
    }
}

/// The phase of a game.
#[derive(Debug, Copy, Clone, PartialEq, Eq, Structural)]
pub enum GameplayState {
    Playing,
    Won,
}

impl Default for GameplayState {
    fn default() -> (state: Self)
        ensures
            state == GameplayState::Playing,
    {
        GameplayState::Playing
    }
}

impl GameplayState {
    /// The phase as shown to the player: `Playing` or `Won`.
    pub fn to_string(&self) -> (text: String)
        ensures
            text@ == self.text(),
    {
        match self {
            GameplayState::Playing => "Playing".to_owned(),
            GameplayState::Won => "Won".to_owned(),
        }
    }

    /// The phase's name as a mathematical value.
    pub open spec fn text(&self) -> Seq<char> {
        match self {
            GameplayState::Playing => "Playing"@,
            GameplayState::Won => "Won"@,
        }
    }
}

/// The phase of the game and the number of moves made so far.
#[derive(Debug, Copy, Clone, PartialEq, Eq, Structural)]
pub struct Gameplay {
    pub state: GameplayState,
    pub moves_count: u32,
}

impl Default for Gameplay {
    fn default() -> (gameplay: Self)
        ensures
            gameplay == (Gameplay { state: GameplayState::Playing, moves_count: 0 }),
    {
        Gameplay { state: GameplayState::Playing, moves_count: 0 }
    }
}

/// The character that shows a number below ten.
pub open spec fn digit(d: nat) -> char {
    if d == 0 {
        '0'
    } else if d == 1 {
        '1'
    } else if d == 2 {
        '2'
    } else if d == 3 {
        '3'
    } else if d == 4 {
        '4'
    } else if d == 5 {
        '5'
    } else if d == 6 {
        '6'
    } else if d == 7 {
        '7'
    } else if d == 8 {
        '8'
    } else {
        '9'
    }
}

/// A number written in base ten, without leading zeros.
pub open spec fn decimal(n: nat) -> Seq<char>
    decreases n,
{
    if n < 10 {
        seq![digit(n)]
    } else {
        decimal(n / 10).push(digit(n % 10))
    }
}

fn digit_text(d: u32) -> (text: &'static str)
    requires
        d < 10,
    ensures
        text@ == seq![digit(d as nat)],
{
    proof {
        reveal_strlit("0");
        reveal_strlit("1");
        reveal_strlit("2");
        reveal_strlit("3");
        reveal_strlit("4");
        reveal_strlit("5");
        reveal_strlit("6");
        reveal_strlit("7");
        reveal_strlit("8");
        reveal_strlit("9");
    }
    let text = match d {
        0 => "0",
        1 => "1",
        2 => "2",
        3 => "3",
        4 => "4",
        5 => "5",
        6 => "6",
        7 => "7",
        8 => "8",
        _ => "9",
    };
    assert(text@ =~= seq![digit(d as nat)]);
    text
}

/// Writes `n` in base ten at the end of `text`.
fn write_decimal(n: u32, text: &mut String)
    ensures
        final(text)@ == old(text)@ + decimal(n as nat),
    decreases n,
{
    if n >= 10 {
        write_decimal(n / 10, text);
    }
    text.append(digit_text(n % 10));
    assert(text@ =~= old(text)@ + decimal(n as nat));
}

impl Gameplay {
    /// The number of moves as shown to the player: in base ten.
    pub fn moves_text(&self) -> (text: String)
        ensures
            text@ == decimal(self.moves_count as nat),
    {
        let mut text = String::new();
        write_decimal(self.moves_count, &mut text);
        assert(text@ =~= decimal(self.moves_count as nat));
        text
    }
}

/// The time played so far, in nanoseconds.
#[derive(Debug, Copy, Clone, PartialEq, Eq, Structural)]
pub struct Time {
    pub delta: u128,
}

impl Default for Time {
    fn default() -> (time: Self)
        ensures
            time.delta == 0,
    {
        Time { delta: 0 }
    }
}

/// The events that wait to be dispatched, oldest first.
pub struct EventQueue {
    pub events: Vec<Event>,
}

impl Default for EventQueue {
    fn default() -> (queue: Self)
        ensures
            queue.events@ == Seq::<Event>::empty(),
    {
        EventQueue { events: Vec::new() }
    }
}

/// Puts the shared records of a world back to where a game starts: no
/// pending input, no waiting event, the phase `Playing`, no move made and no
/// time played. The entities stay.
pub fn register_resources(world: &mut World)
    ensures
        final(world)@ == (WorldView {
            entities: old(world)@.entities,
            inputs: Seq::empty(),
            events: Seq::empty(),
            gameplay: Gameplay { state: GameplayState::Playing, moves_count: 0 },
            time: 0,
        }),
{
    world.input_queue = InputQueue::default();
    world.gameplay = Gameplay::default();
    world.time = Time::default();
    world.event_queue = EventQueue::default();
}

} // verus!
