//! Verified core of the rivet orchestration toolkit.

pub mod cgroups;
pub mod config;
pub mod digest;
pub mod exec;
pub mod health;
pub mod iptlb;
pub mod merge;
pub mod pass;
pub mod plan;
pub mod podlet;
pub mod probe;
pub mod reconciler;
pub mod scheduler;
pub mod spec;
pub mod state;
pub mod text;
