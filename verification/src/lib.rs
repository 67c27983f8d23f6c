pub mod client;
pub mod frame;
pub mod heartbeat;
pub mod message;
pub mod reassembly;
pub mod registry;
pub mod wire;
