//! An event queue ordered by time, the state machine that drives a
//! self-similar melody generator, and the small integer steps of audio
//! playback, each with a verified contract.

pub mod time_queue;
pub mod generator;
pub mod time_key;
pub mod playback;
