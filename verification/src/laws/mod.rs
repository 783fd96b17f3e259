//! What holds of the loader as a whole.

pub mod account;
pub mod calls;
pub mod coherence;
pub mod counting;
pub mod delivery;
pub mod exchanges;
pub mod flight;
pub mod holding;
pub mod lifecycle;
pub mod lifetime;
pub mod loading;
pub mod lookups;
pub mod noting;
pub mod operations;
pub mod pass;
pub mod phases;
pub mod process;
pub mod reading;
pub mod references;
pub mod reload;
pub mod renewal;
pub mod reports;
pub mod requests;
pub mod round;
pub mod rounds;
pub mod sending;
pub mod steps;
pub mod storing;
pub mod tables;
pub mod unloading;
pub mod waiting;
