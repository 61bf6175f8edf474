pub mod stream;
pub use self::stream::Stream;

pub mod range;
pub use self::range::{Range, RangeModel};

pub mod probabilities;
pub use self::probabilities::{Probabilities, reverse};

pub mod bit_tree;
pub use self::bit_tree::BitTree;

pub mod length;
pub use self::length::{Length, LengthModel};

pub mod state;
pub use self::state::State;

pub mod cache;
pub use self::cache::Cache;

pub mod window;
pub use self::window::Window;

pub mod step;
pub use self::step::Model;

pub mod reader;
pub use self::reader::{Reader, read};
