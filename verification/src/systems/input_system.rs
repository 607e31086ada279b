use vstd::prelude::*;
use std::collections::HashMap;
use crate::components::Position;
use crate::constants::{MAP_HEIGHT, MAP_WIDTH};
use crate::events::{EntityId, EntityMoved, Event};
use crate::resources::{Direction, Gameplay};
use crate::world::{
    find_at, first_joined, indexes, lemma_first_joined, lemma_occupant, occupant, Components, Kind,
    World, WorldView,
};

verus! {

/// The cell next to (`x`, `y`) in the given direction, or `None` where
/// (`x`, `y`) lies on the edge of the grid that faces that direction, or
/// beyond it.
pub open spec fn step(direction: Direction, x: u8, y: u8) -> Option<(u8, u8)> {
    match direction {
        Direction::Up => if y > 0 {
            Some((x, (y - 1) as u8))
        } else {
            None
        },
        Direction::Down => if y < MAP_HEIGHT {
            Some((x, (y + 1) as u8))
        } else {
            None
        },
        Direction::Left => if x > 0 {
            Some(((x - 1) as u8, y))
        } else {
            None
        },
        Direction::Right => if x < MAP_WIDTH {
            Some(((x + 1) as u8, y))
        } else {
            None
        },
    }
}

/// The number of cells between (`x`, `y`) and the edge of the grid in the
/// given direction, the edge's own cell counted.
pub open spec fn room(direction: Direction, x: u8, y: u8) -> nat {
    match direction {
        Direction::Up => y as nat,
        Direction::Down => if y < MAP_HEIGHT {
            (MAP_HEIGHT - y) as nat
        } else {
            0
        },
        Direction::Left => x as nat,
        Direction::Right => if x < MAP_WIDTH {
            (MAP_WIDTH - x) as nat
        } else {
            0
        },
    }
}

/// The cell `k` steps from (`x`, `y`) in the given direction.
pub open spec fn cell_ahead(direction: Direction, x: u8, y: u8, k: int) -> (int, int) {
    match direction {
        Direction::Up => (x as int, y - k),
        Direction::Down => (x as int, y + k),
        Direction::Left => (x - k, y as int),
        Direction::Right => (x + k, y as int),
    }
}

/// Computes the cell next to (`x`, `y`) in the given direction.
pub fn next_cell(direction: Direction, x: u8, y: u8) -> (cell: Option<(u8, u8)>)
    ensures
        cell == step(direction, x, y),
{
    match direction {
        Direction::Up => if y > 0 {
            Some((x, y - 1))
        } else {
            None
        },
        Direction::Down => if y < MAP_HEIGHT {
            Some((x, y + 1))
        } else {
            None
        },
        Direction::Left => if x > 0 {
            Some((x - 1, y))
        } else {
            None
        },
        Direction::Right => if x < MAP_WIDTH {
            Some((x + 1, y))
        } else {
            None
        },
    }
}

/// What a push finds in its way.
pub enum Push {
    /// A free cell behind these movable entities, nearest first: they give way.
    Free(Seq<int>),
    /// An immovable entity behind zero or more movable ones: nothing gives way.
    Blocked,
    /// Movable entities up to the edge of the grid, or the edge itself.
    Edge,
}

/// `chain` put in front of what a push found further on.
pub open spec fn behind(chain: Seq<int>, rest: Push) -> Push {
    match rest {
        Push::Free(more) => Push::Free(chain + more),
        Push::Blocked => Push::Blocked,
        Push::Edge => Push::Edge,
    }
}

/// What a push from (`x`, `y`) in the given direction finds: the cells are
/// looked at one by one, from the one next to (`x`, `y`) to the edge of the
/// grid. A movable entity joins the chain and the scan goes on. An immovable
/// one blocks the whole chain. A cell with neither ends the scan: the chain
/// can move.
pub open spec fn push(entities: Seq<Components>, direction: Direction, x: u8, y: u8) -> Push
    decreases room(direction, x, y),
{
    match step(direction, x, y) {
        None => Push::Edge,
        Some((nx, ny)) => match occupant(entities, Kind::Movable, nx, ny) {
            Some(id) => behind(seq![id], push(entities, direction, nx, ny)),
            None => if occupant(entities, Kind::Immovable, nx, ny) is Some {
                Push::Blocked
            } else {
                Push::Free(Seq::empty())
            },
        },
    }
}

/// The entity that the player steers: the first one that has a position and
/// the player's mark.
pub open spec fn player_of(entities: Seq<Components>) -> Option<int> {
    first_joined(entities, Kind::Player)
}

/// What the player's push in the given direction finds. Without a player
/// there is nothing to push.
pub open spec fn attempt(entities: Seq<Components>, direction: Direction) -> Push {
    match player_of(entities) {
        Some(player) => push(
            entities,
            direction,
            entities[player].position->0.x,
            entities[player].position->0.y,
        ),
        None => Push::Edge,
    }
}

/// The entities that a move in the given direction shifts: the player, then
/// the chain it pushes, nearest first. Empty where nothing moves.
pub open spec fn movers(entities: Seq<Components>, direction: Direction) -> Seq<int> {
    match attempt(entities, direction) {
        Push::Free(chain) => seq![player_of(entities)->0] + chain,
        _ => Seq::empty(),
    }
}

/// The entity one cell further in the given direction; unchanged where it has
/// no position or stands on the edge.
pub open spec fn moved_one(components: Components, direction: Direction) -> Components {
    match components.position {
        Some(p) => match step(direction, p.x, p.y) {
            Some((x, y)) => Components { position: Some(Position { x, y, z: p.z }), ..components },
            None => components,
        },
        None => components,
    }
}

/// The entities after those named in `ids` have moved one cell.
pub open spec fn shifted(entities: Seq<Components>, direction: Direction, ids: Seq<int>) -> Seq<
    Components,
> {
    Seq::new(
        entities.len(),
        |i: int|
            if ids.contains(i) {
                moved_one(entities[i], direction)
            } else {
                entities[i]
            },
    )
}

/// One `EntityMoved` event for each of `ids`, in their order.
pub open spec fn moved_events(ids: Seq<int>) -> Seq<Event> {
    Seq::new(ids.len(), |k: int| Event::EntityMoved(EntityMoved { id: ids[k] as usize }))
}

/// The state after a move in the given direction was resolved: the movers
/// have shifted and are reported, a blocked push is reported, and the move
/// counter has gone up by one where anything moved.
pub open spec fn resolve(world: WorldView, direction: Direction) -> WorldView {
    let ids = movers(world.entities, direction);
    WorldView {
        entities: shifted(world.entities, direction, ids),
        events: world.events + (if attempt(world.entities, direction) is Blocked {
            seq![Event::PlayerHitObstacle]
        } else {
            Seq::empty()
        }) + moved_events(ids),
        gameplay: Gameplay {
            moves_count: if ids.len() > 0 {
                (world.gameplay.moves_count + 1) as u32
            } else {
                world.gameplay.moves_count
            },
            ..world.gameplay
        },
        ..world
    }
}

/// The state after the movement pass: with a player on the grid, the input
/// that was queued last is taken from the queue and resolved. Earlier inputs
/// stay queued.
pub open spec fn input_pass(world: WorldView) -> WorldView {
    if player_of(world.entities) is Some && world.inputs.len() > 0 {
        resolve(WorldView { inputs: world.inputs.drop_last(), ..world }, world.inputs.last())
    } else {
        world
    }
}

/// The identifiers as mathematical integers.
pub open spec fn as_ints(ids: Seq<EntityId>) -> Seq<int> {
    Seq::new(ids.len(), |k: int| ids[k] as int)
}

/// Where a push finds a free cell, the chain fills the cells between: its
/// `k`-th member is the movable entity found `k + 1` cells ahead, and the
/// free cell, `chain.len() + 1` cells ahead, is still on the grid.
pub proof fn lemma_push_free(entities: Seq<Components>, direction: Direction, x: u8, y: u8)
    requires
        push(entities, direction, x, y) is Free,
    ensures
        ({
            let chain = push(entities, direction, x, y)->Free_0;
            &&& chain.len() < room(direction, x, y)
            &&& forall|k: int|
                0 <= k < chain.len() ==> {
                    let (cx, cy) = cell_ahead(direction, x, y, k + 1);
                    &&& 0 <= cx <= u8::MAX
                    &&& 0 <= cy <= u8::MAX
                    &&& occupant(entities, Kind::Movable, cx as u8, cy as u8) == Some(
                        #[trigger] chain[k],
                    )
                }
            &&& {
                let (fx, fy) = cell_ahead(direction, x, y, chain.len() as int + 1);
                &&& 0 <= fx <= u8::MAX
                &&& 0 <= fy <= u8::MAX
                &&& occupant(entities, Kind::Movable, fx as u8, fy as u8) is None
                &&& occupant(entities, Kind::Immovable, fx as u8, fy as u8) is None
            }
        }),
    decreases room(direction, x, y),
{
    let (nx, ny) = step(direction, x, y)->0;
    match occupant(entities, Kind::Movable, nx, ny) {
        Some(id) => {
            lemma_push_free(entities, direction, nx, ny);
            let rest = push(entities, direction, nx, ny)->Free_0;
            let chain = push(entities, direction, x, y)->Free_0;
            assert(chain =~= seq![id] + rest);
            assert forall|k: int| 0 <= k < chain.len() implies {
                let (cx, cy) = cell_ahead(direction, x, y, k + 1);
                &&& 0 <= cx <= u8::MAX
                &&& 0 <= cy <= u8::MAX
                &&& occupant(entities, Kind::Movable, cx as u8, cy as u8) == Some(
                    #[trigger] chain[k],
                )
            } by {
                if k > 0 {
                    assert(chain[k] == rest[k - 1]);
                    assert(cell_ahead(direction, x, y, k + 1) == cell_ahead(
                        direction,
                        nx,
                        ny,
                        k,
                    ));
                }
            }
            assert(cell_ahead(direction, x, y, chain.len() as int + 1) == cell_ahead(
                direction,
                nx,
                ny,
                rest.len() as int + 1,
            ));
        },
        None => {},
    }
}

/// Whether the entity exists, has a position and has a cell next to it in
/// the given direction.
pub open spec fn can_step(entities: Seq<Components>, direction: Direction, id: int) -> bool {
    &&& 0 <= id < entities.len()
    &&& entities[id].position matches Some(p) && step(direction, p.x, p.y) is Some
}

/// The movers stand in a row: the player first, each of the others one cell
/// further in the direction of the move, and each with a cell to move to. So
/// no entity is named twice.
pub proof fn lemma_movers(entities: Seq<Components>, direction: Direction)
    ensures
        ({
            let ids = movers(entities, direction);
            &&& ids.len() == 0 || (player_of(entities) is Some && ids[0] == player_of(entities)->0)
            &&& forall|k: int|
                0 <= k < ids.len() ==> {
                    let start = entities[player_of(entities)->0].position->0;
                    let (cx, cy) = cell_ahead(direction, start.x, start.y, k);
                    &&& can_step(entities, direction, #[trigger] ids[k])
                    &&& 0 <= cx <= u8::MAX
                    &&& 0 <= cy <= u8::MAX
                    &&& entities[ids[k]].stands_at(cx as u8, cy as u8)
                    &&& k > 0 ==> occupant(entities, Kind::Movable, cx as u8, cy as u8) == Some(
                        ids[k],
                    )
                }
            &&& forall|a: int, b: int| 0 <= a < b < ids.len() ==> ids[a] != ids[b]
            &&& ids.len() > 0 ==> {
                let start = entities[player_of(entities)->0].position->0;
                &&& on_board(direction, start.x, start.y, ids.len() as int)
                &&& !holds_ahead(
                    entities,
                    Kind::Movable,
                    direction,
                    start.x,
                    start.y,
                    ids.len() as int,
                )
                &&& !holds_ahead(
                    entities,
                    Kind::Immovable,
                    direction,
                    start.x,
                    start.y,
                    ids.len() as int,
                )
            }
        }),
{
    let ids = movers(entities, direction);
    if ids.len() > 0 {
        lemma_first_joined(entities, Kind::Player);
        let player = player_of(entities)->0;
        let start = entities[player].position->0;
        lemma_push_free(entities, direction, start.x, start.y);
        let chain = push(entities, direction, start.x, start.y)->Free_0;
        assert(ids =~= seq![player] + chain);
        assert forall|k: int| 0 <= k < ids.len() implies {
            let (cx, cy) = cell_ahead(direction, start.x, start.y, k);
            &&& can_step(entities, direction, #[trigger] ids[k])
            &&& 0 <= cx <= u8::MAX
            &&& 0 <= cy <= u8::MAX
            &&& entities[ids[k]].stands_at(cx as u8, cy as u8)
            &&& k > 0 ==> occupant(entities, Kind::Movable, cx as u8, cy as u8) == Some(ids[k])
        } by {
            if k > 0 {
                assert(ids[k] == chain[k - 1]);
                let (cx, cy) = cell_ahead(direction, start.x, start.y, k);
                lemma_occupant(entities, Kind::Movable, cx as u8, cy as u8);
            }
        }
    }
}

/// What a scan of the grid found for a push.
enum Scan {
    Free(Vec<EntityId>),
    Blocked,
    Edge,
}

impl View for Scan {
    type V = Push;

    closed spec fn view(&self) -> Push {
        match self {
            Scan::Free(chain) => Push::Free(as_ints(chain@)),
            Scan::Blocked => Push::Blocked,
            Scan::Edge => Push::Edge,
        }
    }
}

/// Scans the cells from the one next to (`x`, `y`) on, and puts the movable
/// entities it meets behind those of `head`.
fn scan(
    world: &World,
    movables: &HashMap<u16, EntityId>,
    immovables: &HashMap<u16, EntityId>,
    direction: Direction,
    x: u8,
    y: u8,
    head: Vec<EntityId>,
) -> (found: Scan)
    requires
        indexes(movables@, world@.entities, Kind::Movable),
        indexes(immovables@, world@.entities, Kind::Immovable),
    ensures
        found@ == behind(as_ints(head@), push(world@.entities, direction, x, y)),
{
    let ghost entities = world@.entities;
    let ghost goal = behind(as_ints(head@), push(entities, direction, x, y));
    let mut chain = head;
    let mut cx = x;
    let mut cy = y;
    loop
        invariant
            entities == world@.entities,
            indexes(movables@, entities, Kind::Movable),
            indexes(immovables@, entities, Kind::Immovable),
            goal == behind(as_ints(head@), push(entities, direction, x, y)),
            goal == behind(as_ints(chain@), push(entities, direction, cx, cy)),
        decreases room(direction, cx, cy),
    {
        match next_cell(direction, cx, cy) {
            None => {
                return Scan::Edge;
            },
            Some((nx, ny)) => {
                let ghost movable = occupant(entities, Kind::Movable, nx, ny);
                let ghost immovable = occupant(entities, Kind::Immovable, nx, ny);
                match find_at(movables, nx, ny) {
                    Some(id) => {
                        proof {
                            let rest = push(entities, direction, nx, ny);
                            let longer = as_ints(chain@.push(id));
                            assert(longer =~= as_ints(chain@) + seq![id as int]);
                            if let Push::Free(more) = rest {
                                assert(as_ints(chain@) + (seq![id as int] + more) =~= longer
                                    + more);
                            }
                        }
                        chain.push(id);
                        cx = nx;
                        cy = ny;
                    },
                    None => {
                        if find_at(immovables, nx, ny).is_some() {
                            return Scan::Blocked;
                        } else {
                            assert(as_ints(chain@) + Seq::<int>::empty() =~= as_ints(chain@));
                            return Scan::Free(chain);
                        }
                    },
                }
            },
        }
    }
}

/// Moves each of `ids` one cell and queues an `EntityMoved` event for it.
fn shift_all(world: &mut World, direction: Direction, ids: &Vec<EntityId>)
    requires
        forall|k: int| 0 <= k < ids@.len() ==> can_step(old(world)@.entities, direction, #[trigger] ids@[k] as int),
        forall|a: int, b: int| 0 <= a < b < ids@.len() ==> ids@[a] != ids@[b],
    ensures
        final(world)@ == (WorldView {
            entities: shifted(old(world)@.entities, direction, as_ints(ids@)),
            events: old(world)@.events + moved_events(as_ints(ids@)),
            ..old(world)@
        }),
{
    let ghost before = world@;
    let mut k: usize = 0;
    proof {
        let none = as_ints(ids@.take(0));
        assert(shifted(before.entities, direction, none) =~= before.entities);
        assert(before.events + moved_events(none) =~= before.events);
    }
    while k < ids.len()
        invariant
            k <= ids@.len(),
            forall|j: int| 0 <= j < ids@.len() ==> can_step(before.entities, direction, #[trigger] ids@[j] as int),
            forall|a: int, b: int| 0 <= a < b < ids@.len() ==> ids@[a] != ids@[b],
            world@ == (WorldView {
                entities: shifted(before.entities, direction, as_ints(ids@.take(k as int))),
                events: before.events + moved_events(as_ints(ids@.take(k as int))),
                ..before
            }),
        decreases ids@.len() - k,
    {
        let id = ids[k];
        let ghost done = as_ints(ids@.take(k as int));
        let ghost more = as_ints(ids@.take(k + 1));
        let ghost entities_now = world@.entities;
        let ghost events_now = world@.events;
        assert(more =~= done.push(id as int));
        assert(!done.contains(id as int)) by {
            if done.contains(id as int) {
                let j = choose|j: int| 0 <= j < done.len() && done[j] == id as int;
                assert(ids@[j] != ids@[k as int]);
            }
        }
        assert(can_step(before.entities, direction, ids@[k as int] as int));
        assert(entities_now[id as int] == before.entities[id as int]);
        let p = world.entities[id].position.unwrap();
        let (nx, ny) = next_cell(direction, p.x, p.y).unwrap();
        world.entities[id].position = Some(Position { x: nx, y: ny, z: p.z });
        world.event_queue.events.push(Event::EntityMoved(EntityMoved { id }));
        proof {
            assert(world@.entities =~= shifted(before.entities, direction, more)) by {
                assert forall|i: int| 0 <= i < before.entities.len() implies world@.entities[i]
                    == shifted(before.entities, direction, more)[i] by {
                    if i == id as int {
                        assert(more.contains(i)) by {
                            assert(more[k as int] == i);
                        }
                    } else {
                        assert(world@.entities[i] == entities_now[i]);
                        if done.contains(i) {
                            let j = choose|j: int| 0 <= j < done.len() && done[j] == i;
                            assert(more[j] == i);
                        } else if more.contains(i) {
                            let j = choose|j: int| 0 <= j < more.len() && more[j] == i;
                            assert(j < done.len());
                            assert(done[j] == i);
                        }
                    }
                }
            }
            assert(world@.events =~= before.events + moved_events(more));
        }
        k += 1;
    }
    assert(ids@.take(k as int) =~= ids@);
}

/// Resolves one move of the player: scans the cells in the given direction
/// for what the player would push, and moves the player and the chain if a
/// free cell lies behind them.
pub fn resolve_move(world: &mut World, direction: Direction)
    requires
        old(world)@.gameplay.moves_count < u32::MAX,
    ensures
        final(world)@ == resolve(old(world)@, direction),
{
    let ghost before = world@;
    let players = world.join(Kind::Player);
    proof {
        lemma_first_joined(before.entities, Kind::Player);
    }
    if players.len() == 0 {
        assert(world@ =~= resolve(before, direction)) by {
            assert(player_of(before.entities) is None) by {
                if let Some(id) = player_of(before.entities) {
                    assert(before.entities[id].joins(Kind::Player));
                    assert(players@.contains(id as usize));
                }
            }
            assert(movers(before.entities, direction) =~= Seq::<int>::empty());
            assert(shifted(before.entities, direction, Seq::<int>::empty()) =~= before.entities);
            assert(moved_events(Seq::<int>::empty()) =~= Seq::<Event>::empty());
            assert(before.events + Seq::<Event>::empty() + Seq::<Event>::empty() =~= before.events);
        }
        return ;
    }
    let player = players[0];
    assert(player_of(before.entities) == Some(player as int)) by {
        assert(before.entities[players@[0] as int].joins(Kind::Player));
        let first = player_of(before.entities)->0;
        assert(before.entities[first].joins(Kind::Player));
        assert(players@.contains(first as usize));
        let k = choose|k: int| 0 <= k < players@.len() && players@[k] == first as usize;
        if k > 0 {
            assert(players@[0] < players@[k]);
        }
    }
    let start = world.entities[player].position.unwrap();
    let movables = world.index_cells(Kind::Movable);
    let immovables = world.index_cells(Kind::Immovable);
    let mut head: Vec<EntityId> = Vec::new();
    head.push(player);
    assert(as_ints(head@) =~= seq![player as int]);
    let found = scan(world, &movables, &immovables, direction, start.x, start.y, head);
    match found {
        Scan::Free(to_move) => {
            proof {
                lemma_movers(before.entities, direction);
                assert(as_ints(to_move@) == movers(before.entities, direction));
                assert forall|k: int| 0 <= k < to_move@.len() implies can_step(
                    before.entities,
                    direction,
                    #[trigger] to_move@[k] as int,
                ) by {
                    assert(as_ints(to_move@)[k] == to_move@[k] as int);
                }
                assert forall|a: int, b: int| 0 <= a < b < to_move@.len() implies to_move@[a]
                    != to_move@[b] by {
                    assert(as_ints(to_move@)[a] == to_move@[a] as int);
                    assert(as_ints(to_move@)[b] == to_move@[b] as int);
                }
            }
            world.gameplay.moves_count += 1;
            shift_all(world, direction, &to_move);
            assert(world@ =~= resolve(before, direction)) by {
                assert(before.events + Seq::<Event>::empty() + moved_events(as_ints(to_move@))
                    =~= before.events + moved_events(as_ints(to_move@)));
            }
        },
        Scan::Blocked => {
            world.event_queue.events.push(Event::PlayerHitObstacle);
            assert(world@ =~= resolve(before, direction)) by {
                assert(movers(before.entities, direction) =~= Seq::<int>::empty());
                assert(shifted(before.entities, direction, Seq::<int>::empty())
                    =~= before.entities);
                assert(moved_events(Seq::<int>::empty()) =~= Seq::<Event>::empty());
                assert(before.events + seq![Event::PlayerHitObstacle] + Seq::<Event>::empty()
                    =~= before.events.push(Event::PlayerHitObstacle));
            }
        },
        Scan::Edge => {
            assert(world@ =~= resolve(before, direction)) by {
                assert(movers(before.entities, direction) =~= Seq::<int>::empty());
                assert(shifted(before.entities, direction, Seq::<int>::empty())
                    =~= before.entities);
                assert(moved_events(Seq::<int>::empty()) =~= Seq::<Event>::empty());
                assert(before.events + Seq::<Event>::empty() + Seq::<Event>::empty()
                    =~= before.events);
            }
        },
    }
}

/// The movement pass of a tick.
pub struct InputSystem {}

impl InputSystem {
    /// Takes the input that was queued last, if there is a player to act on
    /// it, and resolves it as a move.
    pub fn run(&mut self, world: &mut World)
        requires
            old(world)@.gameplay.moves_count < u32::MAX,
        ensures
            final(world)@ == input_pass(old(world)@),
    {
        let ghost before = world@;
        let players = world.join(Kind::Player);
        proof {
            lemma_first_joined(before.entities, Kind::Player);
        }
        if players.len() > 0 {
            assert(before.entities[players@[0] as int].joins(Kind::Player));
            match world.input_queue.keys_pressed.pop() {
                Some(direction) => {
                    assert(world@ == (WorldView { inputs: before.inputs.drop_last(), ..before }));
                    resolve_move(world, direction);
                },
                None => {
                    assert(world@ =~= before);
                },
            }
        } else {
            assert(player_of(before.entities) is None) by {
                if let Some(id) = player_of(before.entities) {
                    assert(before.entities[id].joins(Kind::Player));
                    assert(players@.contains(id as usize));
                }
            }
        }
    }
}

/// The cell `k` steps ahead, where it has coordinates that a position can
/// hold.
pub open spec fn on_board(direction: Direction, x: u8, y: u8, k: int) -> bool {
    let (cx, cy) = cell_ahead(direction, x, y, k);
    0 <= cx <= u8::MAX && 0 <= cy <= u8::MAX
}

/// Whether the cell `k` steps ahead holds an entity of the given kind.
pub open spec fn holds_ahead(
    entities: Seq<Components>,
    kind: Kind,
    direction: Direction,
    x: u8,
    y: u8,
    k: int,
) -> bool {
    let (cx, cy) = cell_ahead(direction, x, y, k);
    on_board(direction, x, y, k) && occupant(entities, kind, cx as u8, cy as u8) is Some
}

/// A move shifts a row and nothing else. Every entity either stays as it is
/// or goes one cell in the direction of the move, with its layer and its
/// other components unchanged. An entity that goes, other than the player, is
/// movable and stood ahead of the player with nothing but movable entities
/// between the two: it stood before the first cell that could stop the push.
pub proof fn lemma_move_shifts_a_row(world: WorldView, direction: Direction)
    ensures
        ({
            let before = world.entities;
            let after = resolve(world, direction).entities;
            &&& after.len() == before.len()
            &&& forall|i: int|
                0 <= i < before.len() ==> #[trigger] after[i] == before[i] || (can_step(
                    before,
                    direction,
                    i,
                ) && after[i] == moved_one(before[i], direction))
            &&& forall|i: int|
                0 <= i < before.len() && #[trigger] after[i] != before[i] && Some(i) != player_of(
                    before,
                ) ==> {
                    let start = before[player_of(before)->0].position->0;
                    &&& before[i].has(Kind::Movable)
                    &&& exists|k: int|
                        {
                            &&& 1 <= k
                            &&& on_board(direction, start.x, start.y, k)
                            &&& #[trigger] cell_ahead(direction, start.x, start.y, k) == (
                                before[i].position->0.x as int,
                                before[i].position->0.y as int,
                            )
                            &&& forall|j: int|
                                1 <= j <= k ==> #[trigger] holds_ahead(
                                    before,
                                    Kind::Movable,
                                    direction,
                                    start.x,
                                    start.y,
                                    j,
                                )
                        }
                }
        }),
{
    let before = world.entities;
    let after = resolve(world, direction).entities;
    let ids = movers(before, direction);
    lemma_movers(before, direction);
    assert forall|i: int| 0 <= i < before.len() implies #[trigger] after[i] == before[i] || (
    can_step(before, direction, i) && after[i] == moved_one(before[i], direction)) by {
        if ids.contains(i) {
            let k = choose|k: int| 0 <= k < ids.len() && ids[k] == i;
            assert(can_step(before, direction, ids[k]));
        }
    }
    assert forall|i: int|
        0 <= i < before.len() && #[trigger] after[i] != before[i] && Some(i) != player_of(
            before,
        ) implies {
        let start = before[player_of(before)->0].position->0;
        &&& before[i].has(Kind::Movable)
        &&& exists|k: int|
            {
                &&& 1 <= k
                &&& on_board(direction, start.x, start.y, k)
                &&& #[trigger] cell_ahead(direction, start.x, start.y, k) == (
                    before[i].position->0.x as int,
                    before[i].position->0.y as int,
                )
                &&& forall|j: int|
                    1 <= j <= k ==> #[trigger] holds_ahead(
                        before,
                        Kind::Movable,
                        direction,
                        start.x,
                        start.y,
                        j,
                    )
            }
    } by {
        let start = before[player_of(before)->0].position->0;
        assert(ids.contains(i));
        let k = choose|k: int| 0 <= k < ids.len() && ids[k] == i;
        assert(can_step(before, direction, ids[k]));
        assert(k >= 1);
        let (cx, cy) = cell_ahead(direction, start.x, start.y, k);
        lemma_occupant(before, Kind::Movable, cx as u8, cy as u8);
        assert forall|j: int| 1 <= j <= k implies #[trigger] holds_ahead(
            before,
            Kind::Movable,
            direction,
            start.x,
            start.y,
            j,
        ) by {
            assert(can_step(before, direction, ids[j]));
        }
        assert(cell_ahead(direction, start.x, start.y, k) == (
            before[i].position->0.x as int,
            before[i].position->0.y as int,
        ));
    }
}

/// A push from (`x`, `y`) is blocked where `boxes` movable entities in a row
/// stand between (`x`, `y`) and a cell of the grid that holds an immovable
/// entity and no movable one.
pub proof fn lemma_push_blocked(
    entities: Seq<Components>,
    direction: Direction,
    x: u8,
    y: u8,
    boxes: nat,
)
    requires
        boxes < room(direction, x, y),
        forall|k: int|
            1 <= k <= boxes ==> #[trigger] holds_ahead(entities, Kind::Movable, direction, x, y, k),
        !holds_ahead(entities, Kind::Movable, direction, x, y, boxes as int + 1),
        holds_ahead(entities, Kind::Immovable, direction, x, y, boxes as int + 1),
    ensures
        push(entities, direction, x, y) is Blocked,
    decreases boxes,
{
    let (nx, ny) = step(direction, x, y)->0;
    assert(cell_ahead(direction, x, y, 1) == (nx as int, ny as int));
    if boxes > 0 {
        assert(holds_ahead(entities, Kind::Movable, direction, x, y, 1));
        assert forall|k: int| 1 <= k <= boxes - 1 implies #[trigger] holds_ahead(
            entities,
            Kind::Movable,
            direction,
            nx,
            ny,
            k,
        ) by {
            assert(cell_ahead(direction, nx, ny, k) == cell_ahead(direction, x, y, k + 1));
            assert(holds_ahead(entities, Kind::Movable, direction, x, y, k + 1));
        }
        assert(cell_ahead(direction, nx, ny, boxes as int) == cell_ahead(
            direction,
            x,
            y,
            boxes as int + 1,
        ));
        lemma_push_blocked(entities, direction, nx, ny, (boxes - 1) as nat);
    }
}

/// A push from (`x`, `y`) gives way where `boxes` movable entities in a row
/// stand between (`x`, `y`) and a cell of the grid that holds neither a
/// movable nor an immovable entity: the chain is those entities.
pub proof fn lemma_push_gives_way(
    entities: Seq<Components>,
    direction: Direction,
    x: u8,
    y: u8,
    boxes: nat,
)
    requires
        boxes < room(direction, x, y),
        forall|k: int|
            1 <= k <= boxes ==> #[trigger] holds_ahead(entities, Kind::Movable, direction, x, y, k),
        !holds_ahead(entities, Kind::Movable, direction, x, y, boxes as int + 1),
        !holds_ahead(entities, Kind::Immovable, direction, x, y, boxes as int + 1),
    ensures
        push(entities, direction, x, y) is Free,
        push(entities, direction, x, y)->Free_0.len() == boxes,
    decreases boxes,
{
    let (nx, ny) = step(direction, x, y)->0;
    assert(cell_ahead(direction, x, y, 1) == (nx as int, ny as int));
    if boxes > 0 {
        assert(holds_ahead(entities, Kind::Movable, direction, x, y, 1));
        assert forall|k: int| 1 <= k <= boxes - 1 implies #[trigger] holds_ahead(
            entities,
            Kind::Movable,
            direction,
            nx,
            ny,
            k,
        ) by {
            assert(cell_ahead(direction, nx, ny, k) == cell_ahead(direction, x, y, k + 1));
            assert(holds_ahead(entities, Kind::Movable, direction, x, y, k + 1));
        }
        assert(cell_ahead(direction, nx, ny, boxes as int) == cell_ahead(
            direction,
            x,
            y,
            boxes as int + 1,
        ));
        lemma_push_gives_way(entities, direction, nx, ny, (boxes - 1) as nat);
    }
}

/// A push from (`x`, `y`) ends at the edge where movable entities fill every
/// cell from the one next to (`x`, `y`) to the edge of the grid, and where
/// (`x`, `y`) lies on that edge itself.
pub proof fn lemma_push_ends_at_edge(
    entities: Seq<Components>,
    direction: Direction,
    x: u8,
    y: u8,
)
    requires
        forall|k: int|
            1 <= k <= room(direction, x, y) ==> #[trigger] holds_ahead(
                entities,
                Kind::Movable,
                direction,
                x,
                y,
                k,
            ),
    ensures
        push(entities, direction, x, y) is Edge,
    decreases room(direction, x, y),
{
    if room(direction, x, y) > 0 {
        let (nx, ny) = step(direction, x, y)->0;
        assert(cell_ahead(direction, x, y, 1) == (nx as int, ny as int));
        assert(holds_ahead(entities, Kind::Movable, direction, x, y, 1));
        assert forall|k: int| 1 <= k <= room(direction, nx, ny) implies #[trigger] holds_ahead(
            entities,
            Kind::Movable,
            direction,
            nx,
            ny,
            k,
        ) by {
            assert(cell_ahead(direction, nx, ny, k) == cell_ahead(direction, x, y, k + 1));
            assert(holds_ahead(entities, Kind::Movable, direction, x, y, k + 1));
        }
        lemma_push_ends_at_edge(entities, direction, nx, ny);
    }
}

/// A chain is pushed as a whole. Where the player stands with `boxes`
/// movable entities in a row ahead and, behind them, a cell of the grid that
/// holds neither a movable nor an immovable entity, a move in that direction
/// takes the player and each of those entities one cell further, leaves every
/// other entity as it was, reports the move of each mover, the player first,
/// and counts as one move.
pub proof fn lemma_free_cell_lets_the_chain_move(
    world: WorldView,
    direction: Direction,
    boxes: nat,
)
    requires
        world.gameplay.moves_count < u32::MAX,
        player_of(world.entities) is Some,
        ({
            let start = world.entities[player_of(world.entities)->0].position->0;
            &&& boxes < room(direction, start.x, start.y)
            &&& forall|k: int|
                1 <= k <= boxes ==> #[trigger] holds_ahead(
                    world.entities,
                    Kind::Movable,
                    direction,
                    start.x,
                    start.y,
                    k,
                )
            &&& !holds_ahead(
                world.entities,
                Kind::Movable,
                direction,
                start.x,
                start.y,
                boxes as int + 1,
            )
            &&& !holds_ahead(
                world.entities,
                Kind::Immovable,
                direction,
                start.x,
                start.y,
                boxes as int + 1,
            )
        }),
    ensures
        ({
            let start = world.entities[player_of(world.entities)->0].position->0;
            let ids = movers(world.entities, direction);
            let after = resolve(world, direction);
            &&& ids.len() == boxes + 1
            &&& ids[0] == player_of(world.entities)->0
            &&& forall|k: int|
                0 <= k < ids.len() ==> {
                    let (cx, cy) = cell_ahead(direction, start.x, start.y, k);
                    let (nx, ny) = cell_ahead(direction, start.x, start.y, k + 1);
                    &&& 0 <= #[trigger] ids[k] < world.entities.len()
                    &&& world.entities[ids[k]].stands_at(cx as u8, cy as u8)
                    &&& on_board(direction, start.x, start.y, k + 1)
                    &&& after.entities[ids[k]].stands_at(nx as u8, ny as u8)
                    &&& k > 0 ==> occupant(world.entities, Kind::Movable, cx as u8, cy as u8)
                        == Some(ids[k])
                }
            &&& forall|i: int|
                0 <= i < world.entities.len() && !ids.contains(i) ==> #[trigger] after.entities[i]
                    == world.entities[i]
            &&& after.events == world.events + moved_events(ids)
            &&& after.gameplay.moves_count == world.gameplay.moves_count + 1
            &&& after.gameplay.state == world.gameplay.state
        }),
{
    let start = world.entities[player_of(world.entities)->0].position->0;
    lemma_push_gives_way(world.entities, direction, start.x, start.y, boxes);
    lemma_movers(world.entities, direction);
    let ids = movers(world.entities, direction);
    let after = resolve(world, direction);
    assert forall|k: int| 0 <= k < ids.len() implies {
        let (cx, cy) = cell_ahead(direction, start.x, start.y, k);
        let (nx, ny) = cell_ahead(direction, start.x, start.y, k + 1);
        &&& 0 <= #[trigger] ids[k] < world.entities.len()
        &&& world.entities[ids[k]].stands_at(cx as u8, cy as u8)
        &&& on_board(direction, start.x, start.y, k + 1)
        &&& after.entities[ids[k]].stands_at(nx as u8, ny as u8)
        &&& k > 0 ==> occupant(world.entities, Kind::Movable, cx as u8, cy as u8) == Some(ids[k])
    } by {
        assert(can_step(world.entities, direction, ids[k]));
        assert(ids.contains(ids[k]));
    }
    assert(after.events =~= world.events + moved_events(ids));
}

/// The edge of the grid stops a push. Where movable entities fill every
/// cell from the one next to the player to the edge of the grid, and where
/// the player stands on that edge, a move in that direction changes nothing
/// and queues no event.
pub proof fn lemma_edge_stops_the_push(world: WorldView, direction: Direction)
    requires
        player_of(world.entities) is Some,
        ({
            let start = world.entities[player_of(world.entities)->0].position->0;
            forall|k: int|
                1 <= k <= room(direction, start.x, start.y) ==> #[trigger] holds_ahead(
                    world.entities,
                    Kind::Movable,
                    direction,
                    start.x,
                    start.y,
                    k,
                )
        }),
    ensures
        resolve(world, direction) == world,
{
    let start = world.entities[player_of(world.entities)->0].position->0;
    lemma_push_ends_at_edge(world.entities, direction, start.x, start.y);
    assert(movers(world.entities, direction) =~= Seq::<int>::empty());
    assert(resolve(world, direction).entities =~= world.entities);
    assert(resolve(world, direction).events =~= world.events);
}

/// Pushing against a wall moves nothing. Where the player stands on the
/// grid with `boxes` movable entities in a row ahead and, behind them, a cell
/// of the grid that holds an immovable entity and no movable one, a move in
/// that direction leaves every entity and the move counter as they were, and
/// queues one event, `PlayerHitObstacle`.
pub proof fn lemma_wall_stops_the_push(world: WorldView, direction: Direction, boxes: nat)
    requires
        player_of(world.entities) is Some,
        ({
            let start = world.entities[player_of(world.entities)->0].position->0;
            &&& boxes < room(direction, start.x, start.y)
            &&& forall|k: int|
                1 <= k <= boxes ==> #[trigger] holds_ahead(
                    world.entities,
                    Kind::Movable,
                    direction,
                    start.x,
                    start.y,
                    k,
                )
            &&& !holds_ahead(world.entities, Kind::Movable, direction, start.x, start.y, boxes as int + 1)
            &&& holds_ahead(world.entities, Kind::Immovable, direction, start.x, start.y, boxes as int + 1)
        }),
    ensures
        resolve(world, direction).entities == world.entities,
        resolve(world, direction).gameplay == world.gameplay,
        resolve(world, direction).events == world.events.push(Event::PlayerHitObstacle),
{
    let start = world.entities[player_of(world.entities)->0].position->0;
    lemma_push_blocked(world.entities, direction, start.x, start.y, boxes);
    assert(movers(world.entities, direction) =~= Seq::<int>::empty());
    assert(resolve(world, direction).entities =~= world.entities);
    assert(resolve(world, direction).events =~= world.events.push(Event::PlayerHitObstacle));
}

/// The move counter counts the moves that moved something: it goes up by one
/// where the position of at least one entity has changed, and stays as it is
/// where none has.
pub proof fn lemma_counter_counts_moves(world: WorldView, direction: Direction)
    requires
        world.gameplay.moves_count < u32::MAX,
    ensures
        ({
            let after = resolve(world, direction);
            let changed = exists|i: int|
                0 <= i < world.entities.len() && (#[trigger] after.entities[i]).position
                    != world.entities[i].position;
            after.gameplay.moves_count == world.gameplay.moves_count + (if changed {
                1int
            } else {
                0int
            })
        }),
{
    let after = resolve(world, direction);
    let ids = movers(world.entities, direction);
    lemma_movers(world.entities, direction);
    if ids.len() > 0 {
        let player = ids[0];
        assert(can_step(world.entities, direction, player));
        assert(ids.contains(player));
        assert(after.entities[player].position != world.entities[player].position);
    } else {
        assert(after.entities =~= world.entities);
    }
}

/// Whether the entity is one that a push has to do with: a movable or an
/// immovable one, with a position.
pub open spec fn is_solid(components: Components) -> bool {
    components.position is Some && components.movability is Some
}

/// Whether the solid entities keep apart: no two of them stand on one cell.
pub open spec fn keeps_apart(entities: Seq<Components>) -> bool {
    forall|a: int, b: int|
        0 <= a < entities.len() && 0 <= b < entities.len() && a != b && is_solid(
            #[trigger] entities[a],
        ) && is_solid(#[trigger] entities[b]) ==> !entities[a].shares_cell(entities[b])
}

/// Whether every entity that has a position stands on the grid.
pub open spec fn all_on_grid(entities: Seq<Components>) -> bool {
    forall|i: int|
        0 <= i < entities.len() && (#[trigger] entities[i]).position is Some
            ==> entities[i].position->0.x <= MAP_WIDTH && entities[i].position->0.y <= MAP_HEIGHT
}

/// A move keeps the entities on the grid.
pub proof fn lemma_move_stays_on_grid(world: WorldView, direction: Direction)
    requires
        all_on_grid(world.entities),
    ensures
        all_on_grid(resolve(world, direction).entities),
{
    let before = world.entities;
    let after = resolve(world, direction).entities;
    assert forall|i: int| 0 <= i < after.len() && (#[trigger] after[i]).position is Some implies after[i].position->0.x
        <= MAP_WIDTH && after[i].position->0.y <= MAP_HEIGHT by {
        assert(before[i].position is Some ==> before[i].position->0.x <= MAP_WIDTH
            && before[i].position->0.y <= MAP_HEIGHT);
    }
}

/// A move keeps the solid entities apart: where no two of them stood on one
/// cell before the move, no two do after it.
pub proof fn lemma_move_keeps_apart(world: WorldView, direction: Direction)
    requires
        keeps_apart(world.entities),
    ensures
        keeps_apart(resolve(world, direction).entities),
{
    let before = world.entities;
    let after = resolve(world, direction).entities;
    let ids = movers(before, direction);
    lemma_movers(before, direction);
    if ids.len() == 0 {
        assert(after =~= before);
    } else {
        let start = before[player_of(before)->0].position->0;
        assert forall|a: int, b: int|
            0 <= a < after.len() && 0 <= b < after.len() && a != b && is_solid(
                #[trigger] after[a],
            ) && is_solid(#[trigger] after[b]) implies !after[a].shares_cell(after[b]) by {
            assert(is_solid(before[a]) && is_solid(before[b]));
            if ids.contains(a) && ids.contains(b) {
                let j = choose|j: int| 0 <= j < ids.len() && ids[j] == a;
                let k = choose|k: int| 0 <= k < ids.len() && ids[k] == b;
                assert(can_step(before, direction, ids[j]));
                assert(can_step(before, direction, ids[k]));
            } else if ids.contains(a) {
                let j = choose|j: int| 0 <= j < ids.len() && ids[j] == a;
                lemma_lands_on_free_cell(before, direction, j, b);
            } else if ids.contains(b) {
                let k = choose|k: int| 0 <= k < ids.len() && ids[k] == b;
                lemma_lands_on_free_cell(before, direction, k, a);
            }
        }
    }
}

/// The cell that the `j`-th mover goes to holds no solid entity that stays.
proof fn lemma_lands_on_free_cell(
    entities: Seq<Components>,
    direction: Direction,
    j: int,
    other: int,
)
    requires
        keeps_apart(entities),
        0 <= j < movers(entities, direction).len(),
        0 <= other < entities.len(),
        !movers(entities, direction).contains(other),
        is_solid(entities[other]),
    ensures
        !moved_one(entities[movers(entities, direction)[j]], direction).shares_cell(
            entities[other],
        ),
        !entities[other].shares_cell(
            moved_one(entities[movers(entities, direction)[j]], direction),
        ),
{
    let ids = movers(entities, direction);
    lemma_movers(entities, direction);
    let start = entities[player_of(entities)->0].position->0;
    assert(can_step(entities, direction, ids[j]));
    let (cx, cy) = cell_ahead(direction, start.x, start.y, j + 1);
    if j + 1 < ids.len() {
        assert(can_step(entities, direction, ids[j + 1]));
        lemma_occupant(entities, Kind::Movable, cx as u8, cy as u8);
        assert(ids.contains(ids[j + 1]));
        assert(is_solid(entities[ids[j + 1]]));
        if entities[other].stands_at(cx as u8, cy as u8) {
            assert(entities[other].shares_cell(entities[ids[j + 1]]));
        }
    } else {
        lemma_occupant(entities, Kind::Movable, cx as u8, cy as u8);
        lemma_occupant(entities, Kind::Immovable, cx as u8, cy as u8);
    }
}

} // verus!
