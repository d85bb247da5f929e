//! Audio streaming: scheduling, mixing and playback state.

use vstd::prelude::*;

pub mod float;
pub mod sample;
pub mod seconds;
pub mod shared;
pub mod stream_player;
pub mod streamer;

verus! {

} // verus!
