//! Cascade file distribution for classroom networks: address handling, the
//! distribution tree and its healing, the teacher's selection state, the
//! distribution plan, the daemon's transfer bookkeeping and the wire messages.

pub mod addr;
pub mod topology;
pub mod tree_laws;
pub mod proto;
pub mod transport;
pub mod app_state;
pub mod digest;
pub mod orchestrator;
pub mod daemon;
pub mod monitor;
pub mod discovery;
pub mod size;
