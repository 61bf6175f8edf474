use vstd::prelude::*;

verus! {

/// Minimum size for the dictionary.
pub const MINIMUM_DICTIONARY_SIZE: u32 = 4096;

/// Minimum value for the range after normalisation.
pub const TOP_VALUE: u32 = 0x0100_0000;

/// The number of bits for probabilities.
pub const MODEL_TOTAL_BITS: u32 = 11;

/// Number of bits a probability moves by on each update.
pub const MOVE_BITS: u16 = 5;

/// The exclusive upper bound of a probability.
pub const PROBABILITY_LIMIT: u16 = 2048;

/// The initial probability value, standing for one half.
pub const PROBABILITY_INITIAL_VALUE: u16 = 1024;

/// The largest number of position bits.
pub const POSITION_BITS_MAX: usize = 4;

/// Number of decoder states.
pub const STATES: usize = 12;

/// First distance slot whose low bits are coded without a model.
pub const END_POSITION_MODEL_INDEX: usize = 14;

/// Number of distances whose low bits are coded with a model.
pub const FULL_DISTANCES: usize = 128;

/// Number of low distance bits coded with the alignment tree.
pub const ALIGN_BITS: usize = 4;

/// Number of length classes that select a distance slot tree.
pub const LENGTH_TO_POSITION_STATES: usize = 4;

/// The shortest match length.
pub const MATCH_MINIMUM_LENGTH: usize = 2;

} // verus!
