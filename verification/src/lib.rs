//! Verified core of a Linux system monitor: the readers of `/proc` and
//! `/sys` text, the sampling state that turns two readings into rates, and
//! the rules that turn a reading into insights.
use vstd::prelude::*;

pub mod collector;
pub mod cpu;
pub mod disk;
pub mod gpu;
pub mod insights;
pub mod memory;
pub mod network;
pub mod processes;
pub mod ranking;
pub mod services;
pub mod strings;
pub mod temperature;
pub mod text;

verus! {

} // verus!
