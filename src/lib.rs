//! Small arithmetic helpers, a flat person record with a text codec, and a
//! bounded random draw.

pub mod arith;
pub mod codec;
pub mod person;
pub mod random;

pub use arith::{add, factorial, multiply};
pub use person::{ParseError, Person};
pub use random::random_number;
