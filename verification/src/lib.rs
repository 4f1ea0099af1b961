//! Chat-protocol line decoding, record classification and sliding-window
//! command statistics for a vote-following chat bot.

pub mod decoder;
pub mod grammar;
pub mod log;
pub mod outbound;
pub mod policy;
pub mod reply;
pub mod round_trip;
pub mod sample;
pub mod session;
pub mod text;
pub mod window;
