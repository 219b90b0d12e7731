//! The control plane of the Aeterno service manager: the line protocol spoken
//! by the reaper, the framed protocol between master and slaves, and the
//! decisions each of the three processes takes on what it receives.

pub mod text;
pub mod reaper;
pub mod protocol;
pub mod master;
pub mod slave;
pub mod config;
