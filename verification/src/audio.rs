use vstd::prelude::*;

verus! {

/// The sounds that the game asks for. The library does not play them: it
/// names them, and the host maps each name to what it plays.
#[derive(Debug, Copy, Clone, PartialEq, Eq, Structural)]
pub enum Sound {
    /// A box was pushed onto a spot of its color.
    Correct,
    /// A box was pushed onto a spot of another color.
    Incorrect,
    /// The player ran into a wall.
    Wall,
}

impl Sound {
    /// The sound's name as a mathematical value.
    pub open spec fn name_of(&self) -> Seq<char> {
        match self {
            Sound::Correct => "correct"@,
            Sound::Incorrect => "incorrect"@,
            Sound::Wall => "wall"@,
        }
    }

    /// The name by which the host knows the sound: `correct`, `incorrect` or
    /// `wall`.
    pub fn name(&self) -> (name: &'static str)
        ensures
            name@ == self.name_of(),
    {
        match self {
            Sound::Correct => "correct",
            Sound::Incorrect => "incorrect",
            Sound::Wall => "wall",
        }
    }

    /// Where the host finds the sound among its resources:
    /// `/sounds/`, the name, `.wav`.
    pub fn asset_path(&self) -> (path: String)
        ensures
            path@ == "/sounds/"@ + self.name_of() + ".wav"@,
    {
        let mut path = "/sounds/".to_owned();
        path.append(self.name());
        path.append(".wav");
        path
    }
}

} // verus!
