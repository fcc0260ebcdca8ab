//! Coordination core for a batch of ordered, independent jobs that a pool of
//! workers runs until the finished prefix of the batch has reached a limit.
//!
//! The jobs of a batch stand at the positions `0..n`. A worker claims a
//! position from the [`dispatcher`], looks at the total that the
//! [`accumulator`] holds, and either skips the job or runs it and records its
//! cost ([`worker`]). The [`collector`] puts the outcomes back into the order
//! of the positions. Running the jobs, the pool of threads and the locks
//! around the shared dispatcher and accumulator are the caller's.
//!
//! [`slots`] and [`history`] hold the model that the accumulator's contracts
//! speak of, and what follows from it; [`counting`] holds an argument that
//! two of the modules share.

pub mod accumulator;
pub mod collector;
pub mod counting;
pub mod dispatcher;
pub mod history;
pub mod slots;
pub mod worker;
