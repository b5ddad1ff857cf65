//! Verified core of a catalog listing tracker: the data model of listings and
//! observations, the processing of catalog pages fetched from a vendor, and the
//! state that a vendor worker keeps between polls.

pub mod catalog;
pub mod config;
pub mod data;
pub mod descriptor;
pub mod keyed;
pub mod models;
pub mod poll;
pub mod square;
pub mod state;
pub mod vendor;
pub mod vendors;
