//! The run's settings.
use vstd::prelude::*;

verus! {

/// The mode a run is started in.
#[derive(PartialEq, Eq, Structural, Clone, Copy, Debug)]
pub enum Mode {
    Migrate,
    Warn,
    Error,
}

/// The settings of a run: its mode, how much it reports, and the root of the
/// package tree.
pub struct Args {
    pub mode: Mode,
    pub debug: u8,
    pub path: String,
}

} // verus!
