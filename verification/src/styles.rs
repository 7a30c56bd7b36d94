//! The style tags attached to rendered nodes. How a tag is painted is the
//! backend's business; the core only tells tags apart.

use vstd::prelude::*;

verus! {

/// A rendering style for a span of output: ordinary code, the screen
/// background, a window frame, or the highlighted node under the cursor.
#[derive(Clone, Copy, Debug, PartialEq, Eq, Structural)]
pub enum Style {
    Default,
    Background,
    Frame,
    Highlight,
}

impl Default for Style {
    /// The style used where none was chosen.
    fn default() -> (r: Self)
        ensures
            r == Style::Default,
    {
        Style::Default
    }
}

} // verus!
