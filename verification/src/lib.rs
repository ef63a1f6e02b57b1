//! A small library of verified puzzle-solving building blocks, centred on an
//! ordered set of disjoint half-open integer intervals (`range::Ranges`) with
//! union, intersection and coverage-length queries.

pub mod cards;
pub mod closed;
pub mod cubes;
pub mod digits;
pub mod hands;
pub mod lens;
pub mod mapping;
pub mod pos;
pub mod race;
pub mod range;
pub mod series;
pub mod workflow;

pub use pos::Pos;
pub use range::Range;
pub use range::Ranges;
