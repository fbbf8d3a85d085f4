//! How a run executes its steps.
pub mod args;
pub mod args_laws;
pub mod batch;
pub mod classify;
pub mod classify_laws;
pub mod event_writer;
pub mod events;
pub mod failure;
pub mod in_process;
pub mod invoke;
pub mod io;
pub mod kind;
pub mod kubernetes;
pub mod laws;
pub mod life_laws;
pub mod lifecycle;
pub mod mapped_laws;
pub mod obj;
pub mod orchestrate;
pub mod outcome_laws;
pub mod outputs;
pub mod parallel;
pub mod parallel_laws;
pub mod plan;
pub mod plan_laws;
pub mod plan_run;
pub mod pod_laws;
pub mod pool_claim;
pub mod record_laws;
pub mod result_laws;
pub mod results;
pub mod run_lifecycle;
pub mod span_laws;
pub mod spans;
pub mod submit;
pub mod window;
pub mod worker;
