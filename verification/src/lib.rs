//! Driver logic for the Thermaltake 3.9" bar LCD (264a:233d): the wire format,
//! the text the dashboard draws, and the readings it is drawn from.

pub mod protocol;
pub mod text;
pub mod render;
pub mod sensors;
pub mod session;
pub mod weather;
pub mod device;
pub mod art;
pub mod player;
pub mod daemon;
pub mod config;
