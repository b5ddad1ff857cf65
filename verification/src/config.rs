use vstd::prelude::*;
use crate::vendors::square::SquareConfig;

verus! {

/// What the tracker is configured with: where profiles go, and the vendors to
/// poll, each under its name.
#[derive(Debug)]
pub struct Config {
    pub profiling_directory: String,
    pub vendors: Vec<(String, VendorConfig)>,
}

/// The configuration of one vendor.
#[derive(Debug)]
pub enum VendorConfig {
    Square(SquareConfig),
}

} // verus!
