//! Assembly of the interactive part of the user interface.

use vstd::prelude::*;

verus! {

use crate::view::ImageView;

/// Build the interactive core of the UI: the image view in its initial
/// state. The windowing shell wraps it in its scrollable container and
/// background widgets and drives it with decoded events.
pub fn build_ui() -> (r: ImageView)
    ensures
        r.ctrl_pressed == false,
{
    ImageView::new()
}

} // verus!
