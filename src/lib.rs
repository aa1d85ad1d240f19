//! A Luby transform fountain code: a degree distribution, an encoder that
//! turns a message into an endless stream of droplets, and a peeling decoder
//! that rebuilds the message from any sufficient subset of them.

pub mod block;
pub mod decoder;
pub mod droplet;
pub mod encoder;
pub mod iterext;
pub mod soliton;
pub mod types;
pub mod xor;
