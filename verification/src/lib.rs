//! The decision core of an observatory run-plan service.
//!
//! Everything here is a function of plain values: the service around it reads
//! the sky, the disk and the network, hands the readings over, and acts on
//! what comes back.
pub mod arithmetic;
pub mod binary64;
pub mod deadlines;
pub mod error;
pub mod motion_gate;
pub mod persistence;
pub mod planner;
pub mod routes;
pub mod text;
pub mod time;
