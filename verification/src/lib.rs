//! A lockstep simulator of a multi-core scheduler: four scheduling policies,
//! a pool of three shared resources, and a coordinator that reconciles the
//! waiting queue and decides when the run is over.
//!
//! `task`, `pool`, `queue` and `signal` hold the parts; `worker` is one tick
//! of one core and `master` the coordinator's part of a tick; `sim` puts them
//! together into a whole simulation whose cores tick one after the other.
//! `laws`, `termination` and `pace` state what holds of every tick and of
//! every run.

pub mod task;
pub mod pool;
pub mod signal;
pub mod queue;
pub mod worker;
pub mod master;
pub mod laws;
pub mod sim;
pub mod termination;
pub mod pace;
