use vstd::prelude::*;
use crate::components::{Renderable, RenderableKind};
use crate::events::EntityId;
use crate::world::{Components, Kind, World};

verus! {

/// Whether entity `a` is drawn before entity `b`: the lower layer first, and
/// on one layer the entity that was inserted first.
pub open spec fn draws_before(entities: Seq<Components>, a: int, b: int) -> bool {
    let layer_a = entities[a].position->0.z;
    let layer_b = entities[b].position->0.z;
    layer_a < layer_b || (layer_a == layer_b && a < b)
}

/// Whether `order` names the entities that have a position and a
/// renderable, each once, in the order in which they are drawn.
pub open spec fn is_draw_order(entities: Seq<Components>, order: Seq<EntityId>) -> bool {
    &&& forall|k: int|
        0 <= k < order.len() ==> #[trigger] order[k] < entities.len()
            && entities[order[k] as int].joins(Kind::Renderable)
    &&& forall|a: int, b: int|
        0 <= a < b < order.len() ==> draws_before(entities, order[a] as int, order[b] as int)
    &&& forall|i: int|
        0 <= i < entities.len() && #[trigger] entities[i].joins(Kind::Renderable)
            ==> order.contains(i as usize)
}

/// Two entities of a draw order stand in it as they are drawn: the one at
/// the earlier place is drawn before the other, so it is another entity.
proof fn lemma_draw_order_is_strict(entities: Seq<Components>, order: Seq<EntityId>, a: int, b: int)
    requires
        is_draw_order(entities, order),
        0 <= a < order.len(),
        0 <= b < order.len(),
        a != b,
    ensures
        order[a] != order[b],
        a < b <==> draws_before(entities, order[a] as int, order[b] as int),
{
    if a < b {
        assert(draws_before(entities, order[a] as int, order[b] as int));
    } else {
        assert(draws_before(entities, order[b] as int, order[a] as int));
    }
}

/// There is one draw order: two sequences that both are a draw order of the
/// same entities are equal.
pub proof fn lemma_draw_order_is_unique(
    entities: Seq<Components>,
    first: Seq<EntityId>,
    second: Seq<EntityId>,
)
    requires
        is_draw_order(entities, first),
        is_draw_order(entities, second),
    ensures
        first == second,
{
    lemma_draw_orders_agree(entities, first, second, first.len() as int);
    lemma_draw_orders_agree(entities, second, first, second.len() as int);
    assert(first =~= second);
}

/// The first `n` places of one draw order hold what the same places of
/// another hold.
proof fn lemma_draw_orders_agree(
    entities: Seq<Components>,
    first: Seq<EntityId>,
    second: Seq<EntityId>,
    n: int,
)
    requires
        is_draw_order(entities, first),
        is_draw_order(entities, second),
        0 <= n <= first.len(),
    ensures
        n <= second.len(),
        forall|k: int| 0 <= k < n ==> first[k] == second[k],
    decreases n,
{
    if n > 0 {
        lemma_draw_orders_agree(entities, first, second, n - 1);
        let k = n - 1;
        let e = first[k];
        assert(entities[e as int].joins(Kind::Renderable));
        assert(second.contains(e));
        let m = choose|m: int| 0 <= m < second.len() && second[m] == e;
        if m < k {
            assert(first[m] == second[m]);
            lemma_draw_order_is_strict(entities, first, m, k);
        } else if m > k {
            let other = second[k];
            assert(entities[other as int].joins(Kind::Renderable));
            assert(first.contains(other));
            let j = choose|j: int| 0 <= j < first.len() && first[j] == other;
            lemma_draw_order_is_strict(entities, second, k, m);
            if j < k {
                assert(first[j] == second[j]);
                lemma_draw_order_is_strict(entities, second, j, k);
            } else if j > k {
                lemma_draw_order_is_strict(entities, first, k, j);
            }
        }
    }
}

/// The frame of an animation that is shown `delta` nanoseconds into the
/// game: the frames change every quarter of a second. A still picture has
/// the one frame 0.
pub open spec fn frame_at(frames: nat, delta: u128) -> nat {
    if frames == 1 {
        0
    } else {
        (((delta / 1_000_000) % 1000) / 250) as nat
    }
}

/// The image that shows a renderable `delta` nanoseconds into the game.
/// Where the frame's number is past the last image, the images start again.
pub open spec fn image_at(paths: Seq<Seq<char>>, delta: u128) -> Seq<char> {
    paths[(frame_at(paths.len(), delta) % paths.len()) as int]
}

/// One image of a frame, and the cell it is drawn at.
pub struct Sprite {
    pub entity: EntityId,
    pub x: u8,
    pub y: u8,
    pub image_path: String,
}

/// Whether the sprite shows entity `sprite.entity` as it stands in
/// `entities`, `delta` nanoseconds into the game.
pub open spec fn shows(sprite: Sprite, entities: Seq<Components>, delta: u128) -> bool {
    let shown = entities[sprite.entity as int];
    &&& sprite.x == shown.position->0.x
    &&& sprite.y == shown.position->0.y
    &&& sprite.image_path@ == image_at(shown.renderable->0@, delta)
}

/// The entities that the sprites show, in the order of the sprites.
pub open spec fn shown_entities(sprites: Seq<Sprite>) -> Seq<EntityId> {
    Seq::new(sprites.len(), |k: int| sprites[k].entity)
}

/// What the host needs to draw a frame.
pub struct RenderSystem {}

impl RenderSystem {
    /// A render system. It keeps nothing between frames.
    pub fn new() -> Self {
        RenderSystem {  }
    }

    /// The path of the image that shows `renderable`, `delta` nanoseconds
    /// into the game.
    pub fn get_image_path(&self, renderable: &Renderable, delta: u128) -> (path: String)
        ensures
            renderable@.len() > 0,
            path@ == image_at(renderable@, delta),
    {
        let path_index: usize = match renderable.kind() {
            RenderableKind::Static => 0,
            RenderableKind::Animated => (((delta / 1_000_000) % 1000) / 250) as usize,
        };
        renderable.path(path_index)
    }

    /// The entities to draw, back to front.
    pub fn draw_order(&self, world: &World) -> (order: Vec<EntityId>)
        ensures
            is_draw_order(world@.entities, order@),
    {
        let ghost entities = world@.entities;
        let mut order: Vec<EntityId> = Vec::new();
        let mut layer: u16 = 0;
        while layer < 256
            invariant
                entities == world@.entities,
                layer <= 256,
                forall|k: int|
                    0 <= k < order@.len() ==> #[trigger] order@[k] < entities.len()
                        && entities[order@[k] as int].joins(Kind::Renderable)
                        && entities[order@[k] as int].position->0.z < layer,
                forall|a: int, b: int|
                    0 <= a < b < order@.len() ==> draws_before(
                        entities,
                        order@[a] as int,
                        order@[b] as int,
                    ),
                forall|i: int|
                    0 <= i < entities.len() && #[trigger] entities[i].joins(Kind::Renderable)
                        && entities[i].position->0.z < layer ==> order@.contains(i as usize),
            decreases 256 - layer,
        {
            let mut i: usize = 0;
            while i < world.entities.len()
                invariant
                    entities == world@.entities,
                    layer < 256,
                    i <= entities.len(),
                    forall|k: int|
                        0 <= k < order@.len() ==> #[trigger] order@[k] < entities.len()
                            && entities[order@[k] as int].joins(Kind::Renderable) && (entities[order@[k] as int].position->0.z
                            < layer || (entities[order@[k] as int].position->0.z == layer
                            && order@[k] < i)),
                    forall|a: int, b: int|
                        0 <= a < b < order@.len() ==> draws_before(
                            entities,
                            order@[a] as int,
                            order@[b] as int,
                        ),
                    forall|j: int|
                        0 <= j < entities.len() && #[trigger] entities[j].joins(Kind::Renderable)
                            && (entities[j].position->0.z < layer || (entities[j].position->0.z
                            == layer && j < i)) ==> order@.contains(j as usize),
                decreases entities.len() - i,
            {
                let on_layer = match world.entities[i].position {
                    Some(p) => p.z as u16 == layer,
                    None => false,
                };
                if on_layer && world.entities[i].renderable.is_some() {
                    let ghost before = order@;
                    order.push(i);
                    assert(order@[order@.len() - 1] == i);
                    assert forall|j: int|
                        0 <= j < entities.len() && #[trigger] entities[j].joins(Kind::Renderable)
                            && (entities[j].position->0.z < layer || (entities[j].position->0.z
                            == layer && j < i + 1)) implies order@.contains(j as usize) by {
                        if j != i {
                            let k = choose|k: int| 0 <= k < before.len() && before[k] == j as usize;
                            assert(order@[k] == j as usize);
                        }
                    }
                }
                i += 1;
            }
            layer += 1;
        }
        order
    }

    /// The images of a frame and the cells they are drawn at, back to front.
    pub fn run(&mut self, world: &World) -> (sprites: Vec<Sprite>)
        ensures
            is_draw_order(world@.entities, shown_entities(sprites@)),
            forall|k: int|
                0 <= k < sprites@.len() ==> shows(#[trigger] sprites@[k], world@.entities, world@.time),
    {
        let order = self.draw_order(world);
        let mut sprites: Vec<Sprite> = Vec::new();
        let mut k: usize = 0;
        while k < order.len()
            invariant
                is_draw_order(world@.entities, order@),
                k <= order@.len(),
                sprites@.len() == k,
                forall|j: int| 0 <= j < k ==> (#[trigger] sprites@[j]).entity == order@[j],
                forall|j: int| 0 <= j < k ==> shows(#[trigger] sprites@[j], world@.entities, world@.time),
            decreases order@.len() - k,
        {
            let id = order[k];
            assert(order@[k as int] < world@.entities.len() && world@.entities[order@[k as int] as int].joins(
                Kind::Renderable,
            ));
            let position = world.entities[id].position.unwrap();
            let image_path = match &world.entities[id].renderable {
                Some(renderable) => self.get_image_path(renderable, world.time.delta),
                None => String::new(),
            };
            sprites.push(Sprite { entity: id, x: position.x, y: position.y, image_path });
            k += 1;
        }
        assert(shown_entities(sprites@) =~= order@);
        sprites
    }
}

} // verus!
