use vstd::prelude::*;

verus! {

/// The decoder state, tagged with the kind of item that was just decoded.
pub enum State {
    /// A literal byte followed the given state.
    Literal(u32),
    /// A new match followed the given state.
    Match(u32),
    /// A repeated match followed the given state.
    Repetition(u32),
    /// A one-byte repetition followed the given state.
    ShortRepetition(u32),
}

impl State {
    /// The state that follows.
    pub open spec fn next(self) -> u32 {
        match self {
            State::Literal(s) => if s < 4 { 0 } else if s < 10 { (s - 3) as u32 } else { (s - 6) as u32 },
            State::Match(s) => if s < 7 { 7 } else { 10 },
            State::Repetition(s) => if s < 7 { 8 } else { 11 },
            State::ShortRepetition(s) => if s < 7 { 9 } else { 11 },
        }
    }

    /// Update the state.
    pub fn update(self) -> (r: u32)
        ensures
            r == self.next(),
    {
        match self {
            State::Literal(value) => {
                if value < 4 {
                    0
                } else if value < 10 {
                    value - 3
                } else {
                    value - 6
                }
            },
            State::Match(value) => if value < 7 { 7 } else { 10 },
            State::Repetition(value) => if value < 7 { 8 } else { 11 },
            State::ShortRepetition(value) => if value < 7 { 9 } else { 11 },
        }
    }
}

} // verus!
