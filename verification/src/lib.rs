//! A bounded multi-producer multi-consumer queue that lives in POSIX shared memory.
//!
//! Processes that open the same shared memory object by name exchange fixed-size `Copy` values
//! through it without locks. This library holds what such a queue decides:
//!
//! * [`protocol`]: the accesses by which a push and a pop work on the shared region;
//! * [`interleaving`]: what holds of any number of pushes and pops at once;
//! * [`progress`]: what a call comes to that nobody disturbs;
//! * [`runs`]: what holds of all the calls of a run together;
//! * [`region`] and [`queue`]: the contents of a region, and the queue for one that has it to
//!   itself;
//! * [`create`], [`open`], [`unlink`] and [`os`]: the requests to the operating system by which a
//!   region comes and goes;
//! * [`layout`], [`name`] and [`error`]: sizes and offsets, names of objects, errors;
//! * [`words`]: machine words as remainders of counters.
//!
//! The library itself makes no system call and shares no memory: each call names the next access or
//! request, and whoever runs the call performs it and hands back the reply.

pub mod create;
pub mod error;
pub mod interleaving;
pub mod layout;
pub mod name;
pub mod open;
pub mod os;
pub mod progress;
pub mod protocol;
pub mod queue;
pub mod region;
pub mod runs;
pub mod unlink;
pub mod words;

pub use crate::error::{ShmError, TryPopError, TryPushError};
pub use crate::queue::ShmRingBuffer;
