use vstd::prelude::*;

verus! {

/// Where an entity stands on the grid (`x`, `y`) and the layer it is drawn
/// on (`z`). The rules of the game read `x` and `y` only.
#[derive(Debug, Copy, Clone, PartialEq, Eq, Structural)]
pub struct Position {
    pub x: u8,
    pub y: u8,
    pub z: u8,
}

/// The images that show an entity: one for a still picture, several for the
/// frames of an animation. A renderable always has at least one image.
pub struct Renderable {
    paths: Vec<String>,
}

/// Whether a renderable is a still picture or an animation.
#[derive(Debug, Copy, Clone, PartialEq, Eq, Structural)]
pub enum RenderableKind {
    Static,
    Animated,
}

impl View for Renderable {
    type V = Seq<Seq<char>>;

    /// The image paths, in the order of the frames.
    closed spec fn view(&self) -> Seq<Seq<char>> {
        Seq::new(self.paths@.len(), |i: int| self.paths@[i]@)
    }
}

impl Renderable {
    #[verifier::type_invariant]
    spec fn has_an_image(&self) -> bool {
        self.paths@.len() > 0
    }

    /// A renderable with the given frames. An empty list of images is a broken
    /// entity definition and is not accepted.
    pub fn new(paths: Vec<String>) -> (renderable: Self)
        requires
            paths@.len() > 0,
        ensures
            renderable@.len() == paths@.len(),
            forall|i: int| 0 <= i < paths@.len() ==> renderable@[i] == paths@[i]@,
    {
        Self { paths }
    }

    /// A renderable with one image: a still picture.
    pub fn new_static(path: String) -> (renderable: Self)
        ensures
            renderable@ == seq![path@],
    {
        let renderable = Self { paths: vec![path] };
        assert(renderable@ =~= seq![path@]);
        renderable
    }

    /// The number of images, which is never zero.
    pub fn frame_count(&self) -> (count: usize)
        ensures
            count == self@.len(),
            count > 0,
    {
        proof {
            use_type_invariant(self);
        }
        self.paths.len()
    }

    /// Static with one image, animated with more.
    pub fn kind(&self) -> (kind: RenderableKind)
        ensures
            self@.len() > 0,
            kind == (if self@.len() == 1 {
                RenderableKind::Static
            } else {
                RenderableKind::Animated
            }),
    {
        proof {
            use_type_invariant(self);
        }
        if self.paths.len() == 1 {
            RenderableKind::Static
        } else {
            RenderableKind::Animated
        }
    }

    /// The image of frame `path_index`. An index past the last frame wraps
    /// round to the first.
    pub fn path(&self, path_index: usize) -> (path: String)
        ensures
            self@.len() > 0,
            path@ == self@[path_index as int % self@.len() as int],
    {
        proof {
            use_type_invariant(self);
        }
        self.paths[path_index % self.paths.len()].clone()
    }
}

/// Marks a wall.
#[derive(Debug, Copy, Clone, PartialEq, Eq, Structural)]
pub struct Wall {}

/// Marks the entity that the player steers.
#[derive(Debug, Copy, Clone, PartialEq, Eq, Structural)]
pub struct Player {}

/// The colors of boxes and of the spots they belong on.
#[derive(Debug, Copy, Clone, PartialEq, Eq, Structural)]
pub enum BoxColor {
    Blue,
    Red,
}

impl BoxColor {
    /// The color's name as it appears in image paths: `blue` or `red`.
    pub fn to_string(&self) -> (name: String)
        ensures
            name@ == self.name(),
    {
        match self {
            BoxColor::Blue => "blue".to_owned(),
            BoxColor::Red => "red".to_owned(),
        }
    }

    /// The color's name as a mathematical value.
    pub open spec fn name(&self) -> Seq<char> {
        match self {
            BoxColor::Blue => "blue"@,
            BoxColor::Red => "red"@,
        }
    }
}

/// A box of some color, to be pushed onto a spot of that color.
#[derive(Debug, Copy, Clone, PartialEq, Eq, Structural)]
pub struct Box {
    pub color: BoxColor,
}

/// A place on the floor where a box of the same color belongs.
#[derive(Debug, Copy, Clone, PartialEq, Eq, Structural)]
pub struct BoxSpot {
    pub color: BoxColor,
}

/// Marks an entity that can be pushed.
#[derive(Debug, Copy, Clone, PartialEq, Eq, Structural, Default)]
pub struct Movable;

/// Marks an entity that blocks a push.
#[derive(Debug, Copy, Clone, PartialEq, Eq, Structural, Default)]
pub struct Immovable;

/// How an entity takes a push: it gives way or it blocks. An entity cannot
/// do both; one that does neither is passed over.
#[derive(Debug, Copy, Clone, PartialEq, Eq, Structural)]
pub enum Movability {
    Movable(Movable),
    Immovable(Immovable),
}

} // verus!
