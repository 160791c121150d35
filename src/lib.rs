//! Turns text grids of the Orca livecoding notation into replayable input for a
//! Uxn/Varvara machine, and decides when a requester may submit another job.
pub mod text;
pub mod parser;
pub mod history;
pub mod replay;
pub mod job;
pub mod vm;
pub mod artifact;
