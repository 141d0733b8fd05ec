//! Counts, for every width up to a limit, how often each number occurs among
//! the runs of digits of a byte stream.

pub mod counter;
pub mod dense;
pub mod digits;
pub mod driver;
pub mod hash;
pub mod laws;
pub mod listing;
pub mod model;
pub mod original;
pub mod process;
pub mod register;
pub mod sparse;
pub mod tally;
pub mod text;
pub mod variant;

pub use crate::counter::{CountStrat, CounterForWidth, CounterStrategy, EarlyCount, LateCount};
pub use crate::dense::{VecCounter, VecCounterWidth, DENSE_MAX_DIGITS};
pub use crate::digits::{is_not_numeric, HexDigit, NumericType, StdNumeric, DIGIT_MAP, NOT_DIGIT};
pub use crate::model::MAX_DIGITS;
pub use crate::original::Original;
pub use crate::process::{EngineError, Process};
pub use crate::register::{BytesState, HEX_MASKS};
pub use crate::sparse::{HashMapCounter, HashMapCounterWidth};
pub use crate::variant::{Variant, Variant1};
