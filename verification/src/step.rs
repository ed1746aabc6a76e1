//! The shape in which the library states what a parsing step does.
use crate::error::ErrorView;
use crate::window::WindowView;
use vstd::prelude::*;

verus! {

/// The outcome of a step that reads the input: what the record it fills
/// holds afterwards, the position reached, and the result. A step that
/// fails keeps what it had filled in.
pub struct Read<O, R> {
    pub out: O,
    pub pos: int,
    pub res: Result<R, ErrorView>,
}

/// The outcome of a step that reads the input and appends to the window.
pub struct Step<O, R> {
    pub out: O,
    pub pos: int,
    pub win: WindowView,
    pub res: Result<R, ErrorView>,
}

} // verus!
