//! A personal, single-node sequential job queue: the ordering of jobs by
//! sparse integer ids, the job status state machine, the classification of
//! commands, the reading of user input, the job table with its single
//! runner, the decisions of the execution loop, and the job listing.
pub mod allocator;
pub mod classify;
pub mod executor;
pub mod input;
pub mod job;
pub mod render;
pub mod scheduler;
pub mod table;
