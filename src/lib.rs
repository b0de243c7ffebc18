//! Turns a script, its scene rosters and each character's numbered lines into the transcript
//! of a play: entrances, dialogue merged by line number, and exits.
pub mod text;
pub mod order;
pub mod player;
pub mod merge;
pub mod scene_fragment;
pub mod play;
pub mod return_wrapper;
pub mod server;
