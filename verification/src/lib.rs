//! An image-viewing surface: fit a raster image to a viewport, zoom it
//! anchored at the cursor, and keep a scrollable container in step with the
//! viewer's notion of where it is looking.
//!
//! All view-position arithmetic is exact: coordinates and scale factors are
//! rational numbers (`rational::Frac`), so the fit, zoom and reconciliation
//! rules are proved as stated, with no rounding error.

pub mod delegate;
pub mod geom;
pub mod image;
pub mod laws;
pub mod ocr;
pub mod rational;
pub mod ui;
pub mod view;

use vstd::prelude::*;

verus! {

use crate::geom::Size;
use crate::image::ImageState;

/// Latched keyboard-modifier state.
#[derive(Clone, Copy, PartialEq, Eq, Structural, Debug)]
pub struct KeyState {
    pub ctrl: bool,
}

impl Default for KeyState {
    /// No modifier held.
    fn default() -> (r: KeyState)
        ensures
            r.ctrl == false,
    {
        KeyState { ctrl: false }
    }
}

/// The application's whole data: the viewport engine's state, a text field
/// for the decoration overlay, the last known window size, and the modifier
/// latch.
#[derive(Clone, Debug)]
pub struct AppState {
    pub image_state: ImageState,
    pub text: String,
    pub window_size: Size,
    pub key_state: KeyState,
}

impl AppState {
    pub open spec fn wf(self) -> bool {
        self.image_state.wf() && self.window_size.wf()
    }
}

} // verus!
