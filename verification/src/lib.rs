//! Echo's pure rules, each stated as a contract and proved with Verus.
//!
//! * [`game`] holds the rules about what a reading from the game means:
//!   which side a player is on, whether a pawn reading is believable, and
//!   how an entity index becomes an address.
//! * [`overlay`] holds the rectangle arithmetic that decides which parts of
//!   the drawing surface a frame touched.
//! * [`process`] holds the decoding of the names Windows hands back.
//! * [`log`] and [`console`] hold the text the run shows.

pub mod console;
pub mod game;
pub mod log;
pub mod overlay;
pub mod process;
