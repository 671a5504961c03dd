//! Service supervision core: the service lifecycle state machine, validated
//! service names and commands, unit collection, and the supervisor's bookkeeping.

pub mod state;
pub mod service;
pub mod execspec;
pub mod unit;
pub mod config;
pub mod sup;
