use vstd::prelude::*;

verus! {

/// The phases of the application.
#[derive(Debug, Clone, Copy, PartialEq, Eq, Structural, Hash)]
pub enum AppState {
    AssetLoading,
    InGame,
}

/// Labels that order the systems of a tick.
#[derive(Debug, Clone, Copy, PartialEq, Eq, Structural, Hash)]
pub enum SystemLabels {
    Input,
}

} // verus!
