//! The decision core of an asset orchestrator: partition schemes and mappings,
//! plan execution, step lifecycles and the records that they leave behind.
use vstd::prelude::*;

pub mod code_location;
pub mod errors;
pub mod executor;
pub mod gil_threads;
pub mod hooks;
pub mod job;
pub mod job_laws;
pub mod log_capture;
pub mod metadata;
pub mod moment;
pub mod names;
pub mod net;
pub mod partitions;
pub mod request_laws;
pub mod requests;
pub mod schedule_laws;
pub mod text;
pub mod value_laws;

verus! {

} // verus!
