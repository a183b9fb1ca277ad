pub mod hash;
pub mod queue;
pub mod sketch;
pub mod matcher;
