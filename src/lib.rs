//! Verified puzzle kernels.
//!
//! - `reactor`: exact accounting of lit cells as a set of disjoint boxes under
//!   a stream of on/off instructions; its instruction grammar is in `parse`.
//! - `dice`: a dice game played with a deterministic die, and in every
//!   universe that a three-sided die splits.
//! - `beacon`: scanner orientations, scan matching and placement.
//! - `trench`: an infinite image enhanced step by step.
//! - `seabed`: two herds of sea cucumbers moving on a wrapping grid.
//! - `snail`: snailfish numbers, read and measured.
//! - `bingo`, `diagnostic`, `heightmap`, `monad`, `segments`, `sonar`,
//!   `syntax`: small counting, scoring and lookup routines.

pub mod beacon;
pub mod bingo;
pub mod diagnostic;
pub mod dice;
pub mod heightmap;
pub mod monad;
pub mod parse;
pub mod reactor;
pub mod seabed;
pub mod segments;
pub mod snail;
pub mod sonar;
pub mod syntax;
pub mod trench;
pub mod vents;
