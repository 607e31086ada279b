use vstd::prelude::*;
use std::collections::HashMap;
use crate::components::{Box, BoxSpot, Movability, Player, Position, Renderable, Wall};
use crate::events::{EntityId, Event};
use crate::resources::{Direction, EventQueue, Gameplay, InputQueue, Time};

verus! {

broadcast use vstd::std_specs::hash::group_hash_axioms;

/// The components attached to one entity. An entity has at most one
/// component of each type; it has none of a type where the field is `None`.
/// It is movable, immovable or neither, and never both.
pub struct Components {
    pub position: Option<Position>,
    pub renderable: Option<Renderable>,
    pub wall: Option<Wall>,
    pub player: Option<Player>,
    pub the_box: Option<Box>,
    pub box_spot: Option<BoxSpot>,
    pub movability: Option<Movability>,
}

/// A type of component that can be asked for.
#[derive(Debug, Copy, Clone, PartialEq, Eq, Structural)]
pub enum Kind {
    Position,
    Renderable,
    Wall,
    Player,
    Box,
    BoxSpot,
    Movable,
    Immovable,
}

/// The components of one entity as a mathematical value: a renderable is
/// taken by its image paths.
pub struct ComponentsView {
    pub position: Option<Position>,
    pub renderable: Option<Seq<Seq<char>>>,
    pub wall: Option<Wall>,
    pub player: Option<Player>,
    pub the_box: Option<Box>,
    pub box_spot: Option<BoxSpot>,
    pub movability: Option<Movability>,
}

impl View for Components {
    type V = ComponentsView;

    open spec fn view(&self) -> ComponentsView {
        ComponentsView {
            position: self.position,
            renderable: match self.renderable {
                Some(renderable) => Some(renderable@),
                None => None,
            },
            wall: self.wall,
            player: self.player,
            the_box: self.the_box,
            box_spot: self.box_spot,
            movability: self.movability,
        }
    }
}

/// The entities as mathematical values.
pub open spec fn views(entities: Seq<Components>) -> Seq<ComponentsView> {
    Seq::new(entities.len(), |i: int| entities[i]@)
}

impl Components {
    /// An entity without any component.
    pub fn none() -> (components: Self)
        ensures
            components.position is None,
            components.renderable is None,
            components.wall is None,
            components.player is None,
            components.the_box is None,
            components.box_spot is None,
            components.movability is None,
    {
        Components {
            position: None,
            renderable: None,
            wall: None,
            player: None,
            the_box: None,
            box_spot: None,
            movability: None,
        }
    }

    /// Whether the entity has a component of the given kind.
    pub open spec fn has(&self, kind: Kind) -> bool {
        match kind {
            Kind::Position => self.position is Some,
            Kind::Renderable => self.renderable is Some,
            Kind::Wall => self.wall is Some,
            Kind::Player => self.player is Some,
            Kind::Box => self.the_box is Some,
            Kind::BoxSpot => self.box_spot is Some,
            Kind::Movable => self.movability matches Some(Movability::Movable(_)),
            Kind::Immovable => self.movability matches Some(Movability::Immovable(_)),
        }
    }

    /// Whether the entity has a position together with a component of the
    /// given kind: only such entities take part in a join over the two.
    pub open spec fn joins(&self, kind: Kind) -> bool {
        self.position is Some && self.has(kind)
    }

    /// Whether the entity has a component of each of the given kinds.
    pub open spec fn has_all(&self, kinds: Seq<Kind>) -> bool {
        forall|k: int| 0 <= k < kinds.len() ==> self.has(#[trigger] kinds[k])
    }

    /// Whether the entity has a position, and on the cell (`x`, `y`).
    pub open spec fn stands_at(&self, x: u8, y: u8) -> bool {
        self.position matches Some(p) && p.x == x && p.y == y
    }

    /// Whether both entities have a position, and on the same cell.
    pub open spec fn shares_cell(&self, other: Components) -> bool {
        self.position matches Some(p) && other.stands_at(p.x, p.y)
    }

    /// Tells whether the entity has a component of each of the given kinds.
    pub fn holds_all(&self, kinds: &Vec<Kind>) -> (held: bool)
        ensures
            held == self.has_all(kinds@),
    {
        let mut k: usize = 0;
        while k < kinds.len()
            invariant
                k <= kinds@.len(),
                forall|j: int| 0 <= j < k ==> self.has(#[trigger] kinds@[j]),
            decreases kinds@.len() - k,
        {
            if !self.holds(kinds[k]) {
                return false;
            }
            k += 1;
        }
        true
    }

    /// Tells whether the entity has a component of the given kind.
    pub fn holds(&self, kind: Kind) -> (held: bool)
        ensures
            held == self.has(kind),
    {
        match kind {
            Kind::Position => self.position.is_some(),
            Kind::Renderable => self.renderable.is_some(),
            Kind::Wall => self.wall.is_some(),
            Kind::Player => self.player.is_some(),
            Kind::Box => self.the_box.is_some(),
            Kind::BoxSpot => self.box_spot.is_some(),
            Kind::Movable => match self.movability {
                Some(Movability::Movable(_)) => true,
                _ => false,
            },
            Kind::Immovable => match self.movability {
                Some(Movability::Immovable(_)) => true,
                _ => false,
            },
        }
    }
}

/// The entity of the given kind that a lookup by coordinate finds at
/// (`x`, `y`): of several, the one that was inserted last.
pub open spec fn occupant(entities: Seq<Components>, kind: Kind, x: u8, y: u8) -> Option<int>
    decreases entities.len(),
{
    if entities.len() == 0 {
        None
    } else if entities.last().has(kind) && entities.last().stands_at(x, y) {
        Some(entities.len() - 1)
    } else {
        occupant(entities.drop_last(), kind, x, y)
    }
}

/// What `occupant` finds is an entity of that kind at that cell, and no
/// entity after it is one.
pub proof fn lemma_occupant(entities: Seq<Components>, kind: Kind, x: u8, y: u8)
    ensures
        match occupant(entities, kind, x, y) {
            Some(id) => {
                &&& 0 <= id < entities.len()
                &&& entities[id].has(kind)
                &&& entities[id].stands_at(x, y)
                &&& forall|j: int|
                    id < j < entities.len() ==> !(entities[j].has(kind) && entities[j].stands_at(
                        x,
                        y,
                    ))
            },
            None => forall|j: int|
                0 <= j < entities.len() ==> !(entities[j].has(kind) && entities[j].stands_at(x, y)),
        },
    decreases entities.len(),
{
    if entities.len() > 0 && !(entities.last().has(kind) && entities.last().stands_at(x, y)) {
        let rest = entities.drop_last();
        lemma_occupant(rest, kind, x, y);
        assert(forall|j: int| 0 <= j < rest.len() ==> rest[j] == entities[j]);
    }
}

/// The first entity, in the order of insertion, that has a position and a
/// component of the given kind.
pub open spec fn first_joined(entities: Seq<Components>, kind: Kind) -> Option<int>
    decreases entities.len(),
{
    if entities.len() == 0 {
        None
    } else {
        match first_joined(entities.drop_last(), kind) {
            Some(id) => Some(id),
            None => if entities.last().joins(kind) {
                Some(entities.len() - 1)
            } else {
                None
            },
        }
    }
}

/// What `first_joined` finds is an entity with a position and a component
/// of that kind, and no entity before it is one.
pub proof fn lemma_first_joined(entities: Seq<Components>, kind: Kind)
    ensures
        match first_joined(entities, kind) {
            Some(id) => {
                &&& 0 <= id < entities.len()
                &&& entities[id].joins(kind)
                &&& forall|j: int| 0 <= j < id ==> !entities[j].joins(kind)
            },
            None => forall|j: int| 0 <= j < entities.len() ==> !entities[j].joins(kind),
        },
    decreases entities.len(),
{
    if entities.len() > 0 {
        let rest = entities.drop_last();
        lemma_first_joined(rest, kind);
        assert(forall|j: int| 0 <= j < rest.len() ==> rest[j] == entities[j]);
    }
}

/// The key under which a coordinate index files the cell (`x`, `y`).
pub open spec fn cell_key(x: u8, y: u8) -> u16 {
    (x as u16 * 256 + y as u16) as u16
}

/// Computes the key of the cell (`x`, `y`).
pub fn key_of(x: u8, y: u8) -> (key: u16)
    ensures
        key == cell_key(x, y),
{
    x as u16 * 256 + y as u16
}

/// A coordinate index agrees with the entities it was built from: it files
/// under each cell the entity that `occupant` names, and nothing under a cell
/// that no entity of the kind stands on.
pub open spec fn indexes(
    index: Map<u16, EntityId>,
    entities: Seq<Components>,
    kind: Kind,
) -> bool {
    forall|x: u8, y: u8|
        match #[trigger] occupant(entities, kind, x, y) {
            Some(id) => index.contains_key(cell_key(x, y)) && index[cell_key(x, y)] == id,
            None => !index.contains_key(cell_key(x, y)),
        }
}

/// The state of a game as a mathematical value.
pub struct WorldView {
    pub entities: Seq<Components>,
    pub inputs: Seq<Direction>,
    pub events: Seq<Event>,
    pub gameplay: Gameplay,
    pub time: u128,
}

/// Whether `after` is `before` with new entities at the end that look like
/// `added`, and with nothing else changed.
pub open spec fn extends(before: WorldView, after: WorldView, added: Seq<ComponentsView>) -> bool {
    &&& after.entities.len() == before.entities.len() + added.len()
    &&& after.entities.take(before.entities.len() as int) == before.entities
    &&& views(after.entities.skip(before.entities.len() as int)) == added
    &&& after.inputs == before.inputs
    &&& after.events == before.events
    &&& after.gameplay == before.gameplay
    &&& after.time == before.time
}

/// The entities of a level with the game's shared records: the pending
/// inputs, the phase and move counter, the time played, and the events that
/// wait to be dispatched.
pub struct World {
    pub entities: Vec<Components>,
    pub input_queue: InputQueue,
    pub gameplay: Gameplay,
    pub time: Time,
    pub event_queue: EventQueue,
}

impl View for World {
    type V = WorldView;

    open spec fn view(&self) -> WorldView {
        WorldView {
            entities: self.entities@,
            inputs: self.input_queue.keys_pressed@,
            events: self.event_queue.events@,
            gameplay: self.gameplay,
            time: self.time.delta,
        }
    }
}

impl World {
    /// A world without entities, at the start of a game.
    pub fn new() -> (world: Self)
        ensures
            world@.entities.len() == 0,
            world@.inputs.len() == 0,
            world@.events.len() == 0,
            world@.gameplay == (Gameplay { state: crate::resources::GameplayState::Playing, moves_count: 0 }),
            world@.time == 0,
    {
        World {
            entities: Vec::new(),
            input_queue: InputQueue::default(),
            gameplay: Gameplay::default(),
            time: Time::default(),
            event_queue: EventQueue::default(),
        }
    }

    /// Adds an entity with the given components and returns its identifier.
    /// Entities are never removed, so an identifier stays valid.
    pub fn create_entity(&mut self, components: Components) -> (id: EntityId)
        ensures
            id == old(self)@.entities.len(),
            final(self)@.entities == old(self)@.entities.push(components),
            final(self)@.inputs == old(self)@.inputs,
            final(self)@.events == old(self)@.events,
            final(self)@.gameplay == old(self)@.gameplay,
            final(self)@.time == old(self)@.time,
    {
        let id = self.entities.len();
        self.entities.push(components);
        id
    }

    /// The components of an entity, or `None` where there is no such entity.
    pub fn entity(&self, id: EntityId) -> (found: Option<&Components>)
        ensures
            found == (if id < self@.entities.len() {
                Some(&self@.entities[id as int])
            } else {
                None
            }),
    {
        if id < self.entities.len() {
            Some(&self.entities[id])
        } else {
            None
        }
    }

    /// The position of an entity, or `None` where there is no such entity or
    /// it has no position.
    pub fn position(&self, id: EntityId) -> (position: Option<Position>)
        ensures
            position == (if id < self@.entities.len() {
                self@.entities[id as int].position
            } else {
                None
            }),
    {
        if id < self.entities.len() {
            self.entities[id].position
        } else {
            None
        }
    }

    /// The box component of an entity, or `None` where there is no such
    /// entity or it is no box.
    pub fn the_box(&self, id: EntityId) -> (the_box: Option<Box>)
        ensures
            the_box == (if id < self@.entities.len() {
                self@.entities[id as int].the_box
            } else {
                None
            }),
    {
        if id < self.entities.len() {
            self.entities[id].the_box
        } else {
            None
        }
    }

    /// A join over component types: the entities that have a component of
    /// each of the given kinds, in the order in which they were inserted.
    pub fn join_all(&self, kinds: &Vec<Kind>) -> (ids: Vec<EntityId>)
        ensures
            forall|k: int| 0 <= k < ids@.len() ==> ids@[k] < self@.entities.len(),
            forall|k: int|
                0 <= k < ids@.len() ==> (#[trigger] self@.entities[ids@[k] as int]).has_all(kinds@),
            forall|a: int, b: int| 0 <= a < b < ids@.len() ==> ids@[a] < ids@[b],
            forall|i: int|
                0 <= i < self@.entities.len() && (#[trigger] self@.entities[i]).has_all(kinds@)
                    ==> ids@.contains(i as usize),
    {
        let mut ids: Vec<EntityId> = Vec::new();
        let mut i: usize = 0;
        while i < self.entities.len()
            invariant
                i <= self@.entities.len(),
                forall|k: int| 0 <= k < ids@.len() ==> ids@[k] < i,
                forall|k: int|
                    0 <= k < ids@.len() ==> (#[trigger] self@.entities[ids@[k] as int]).has_all(
                        kinds@,
                    ),
                forall|a: int, b: int| 0 <= a < b < ids@.len() ==> ids@[a] < ids@[b],
                forall|j: int|
                    0 <= j < i && (#[trigger] self@.entities[j]).has_all(kinds@) ==> ids@.contains(
                        j as usize,
                    ),
            decreases self@.entities.len() - i,
        {
            if self.entities[i].holds_all(kinds) {
                let ghost before = ids@;
                ids.push(i);
                assert(ids@[ids@.len() - 1] == i);
                assert forall|j: int|
                    0 <= j < i + 1 && (#[trigger] self@.entities[j]).has_all(
                        kinds@,
                    ) implies ids@.contains(j as usize) by {
                    if j < i {
                        let k = choose|k: int| 0 <= k < before.len() && before[k] == j as usize;
                        assert(ids@[k] == j as usize);
                    }
                }
            }
            i += 1;
        }
        ids
    }

    /// The entities that have a position and a component of the given kind,
    /// in the order in which they were inserted.
    pub fn join(&self, kind: Kind) -> (ids: Vec<EntityId>)
        ensures
            forall|k: int| 0 <= k < ids@.len() ==> ids@[k] < self@.entities.len(),
            forall|k: int| 0 <= k < ids@.len() ==> #[trigger] self@.entities[ids@[k] as int].joins(kind),
            forall|a: int, b: int| 0 <= a < b < ids@.len() ==> ids@[a] < ids@[b],
            forall|i: int|
                0 <= i < self@.entities.len() && #[trigger] self@.entities[i].joins(kind)
                    ==> ids@.contains(i as usize),
    {
        let mut ids: Vec<EntityId> = Vec::new();
        let mut i: usize = 0;
        while i < self.entities.len()
            invariant
                i <= self@.entities.len(),
                forall|k: int| 0 <= k < ids@.len() ==> ids@[k] < i,
                forall|k: int|
                    0 <= k < ids@.len() ==> #[trigger] self@.entities[ids@[k] as int].joins(kind),
                forall|a: int, b: int| 0 <= a < b < ids@.len() ==> ids@[a] < ids@[b],
                forall|j: int|
                    0 <= j < i && #[trigger] self@.entities[j].joins(kind) ==> ids@.contains(
                        j as usize,
                    ),
            decreases self@.entities.len() - i,
        {
            if self.entities[i].position.is_some() && self.entities[i].holds(kind) {
                let ghost before = ids@;
                ids.push(i);
                assert(ids@[ids@.len() - 1] == i);
                assert forall|j: int|
                    0 <= j < i + 1 && #[trigger] self@.entities[j].joins(kind) implies ids@.contains(
                    j as usize,
                ) by {
                    if j < i {
                        let k = choose|k: int| 0 <= k < before.len() && before[k] == j as usize;
                        assert(ids@[k] == j as usize);
                    }
                }
            }
            i += 1;
        }
        ids
    }

    /// The entities of the given kind that stand on the cell (`x`, `y`), in
    /// the order in which they were inserted. The last of them is the one that
    /// a coordinate index holds for the cell.
    pub fn entities_at(&self, kind: Kind, x: u8, y: u8) -> (ids: Vec<EntityId>)
        ensures
            forall|k: int| 0 <= k < ids@.len() ==> ids@[k] < self@.entities.len(),
            forall|k: int|
                0 <= k < ids@.len() ==> (#[trigger] self@.entities[ids@[k] as int]).has(kind)
                    && self@.entities[ids@[k] as int].stands_at(x, y),
            forall|a: int, b: int| 0 <= a < b < ids@.len() ==> ids@[a] < ids@[b],
            forall|i: int|
                0 <= i < self@.entities.len() && (#[trigger] self@.entities[i]).has(kind)
                    && self@.entities[i].stands_at(x, y) ==> ids@.contains(i as usize),
            occupant(self@.entities, kind, x, y) == (if ids@.len() == 0 {
                None
            } else {
                Some(ids@.last() as int)
            }),
    {
        let mut ids: Vec<EntityId> = Vec::new();
        let mut i: usize = 0;
        while i < self.entities.len()
            invariant
                i <= self@.entities.len(),
                forall|k: int| 0 <= k < ids@.len() ==> ids@[k] < i,
                forall|k: int|
                    0 <= k < ids@.len() ==> (#[trigger] self@.entities[ids@[k] as int]).has(kind)
                        && self@.entities[ids@[k] as int].stands_at(x, y),
                forall|a: int, b: int| 0 <= a < b < ids@.len() ==> ids@[a] < ids@[b],
                forall|j: int|
                    0 <= j < i && (#[trigger] self@.entities[j]).has(kind)
                        && self@.entities[j].stands_at(x, y) ==> ids@.contains(j as usize),
                occupant(self@.entities.take(i as int), kind, x, y) == (if ids@.len() == 0 {
                    None
                } else {
                    Some(ids@.last() as int)
                }),
            decreases self@.entities.len() - i,
        {
            let ghost before = ids@;
            assert(self@.entities.take(i + 1).drop_last() =~= self@.entities.take(i as int));
            assert(self@.entities.take(i + 1).last() == self@.entities[i as int]);
            let here = match self.entities[i].position {
                Some(p) => p.x == x && p.y == y,
                None => false,
            };
            if here && self.entities[i].holds(kind) {
                ids.push(i);
                assert(ids@[ids@.len() - 1] == i);
                assert forall|j: int|
                    0 <= j < i + 1 && (#[trigger] self@.entities[j]).has(kind)
                        && self@.entities[j].stands_at(x, y) implies ids@.contains(j as usize) by {
                    if j < i {
                        let k = choose|k: int| 0 <= k < before.len() && before[k] == j as usize;
                        assert(ids@[k] == j as usize);
                    }
                }
            }
            i += 1;
        }
        assert(self@.entities.take(i as int) =~= self@.entities);
        ids
    }

    /// Files the entities of one kind under the cells they stand on, for the
    /// lookups of one pass. Where several stand on one cell, the index holds
    /// the one that was inserted last.
    pub fn index_cells(&self, kind: Kind) -> (index: HashMap<u16, EntityId>)
        ensures
            indexes(index@, self@.entities, kind),
    {
        let mut index: HashMap<u16, EntityId> = HashMap::new();
        let mut i: usize = 0;
        while i < self.entities.len()
            invariant
                i <= self@.entities.len(),
                indexes(index@, self@.entities.take(i as int), kind),
            decreases self@.entities.len() - i,
        {
            let ghost before = self@.entities.take(i as int);
            let ghost after = self@.entities.take(i + 1);
            assert(after.drop_last() =~= before);
            assert(after.last() == self@.entities[i as int]);
            if self.entities[i].holds(kind) {
                match self.entities[i].position {
                    Some(p) => {
                        index.insert(key_of(p.x, p.y), i);
                    },
                    None => {},
                }
            }
            assert forall|x: u8, y: u8|
                match #[trigger] occupant(after, kind, x, y) {
                    Some(id) => index@.contains_key(cell_key(x, y)) && index@[cell_key(x, y)]
                        == id,
                    None => !index@.contains_key(cell_key(x, y)),
                } by {
                let o = occupant(before, kind, x, y);
                if let Some(p) = self@.entities[i as int].position {
                    if !(x == p.x && y == p.y) {
                        assert(cell_key(x, y) != cell_key(p.x, p.y));
                    }
                }
            }
            i += 1;
        }
        assert(self@.entities.take(i as int) =~= self@.entities);
        index
    }
}

/// Looks a cell up in a coordinate index.
pub fn find_at(index: &HashMap<u16, EntityId>, x: u8, y: u8) -> (found: Option<EntityId>)
    ensures
        found == (if index@.contains_key(cell_key(x, y)) {
            Some(index@[cell_key(x, y)])
        } else {
            None
        }),
{
    match index.get(&key_of(x, y)) {
        Some(id) => Some(*id),
        None => None,
    }
}

} // verus!
