use vstd::prelude::*;

verus! {

/// A mouse button.
#[derive(Debug, Clone, Copy, PartialEq, Eq, Structural)]
pub enum MouseKey {
    Left,
    Middle,
    Right,
}

} // verus!
