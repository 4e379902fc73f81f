//! What holds of every state that a pipeline can reach from its start.
pub mod arrival;
pub mod census;
pub mod delivery;
pub mod fidelity;
pub mod orders;
pub mod progress;
pub mod protocol;
pub mod single_file;
pub mod token;
pub mod work;
