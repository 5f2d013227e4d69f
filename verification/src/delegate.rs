//! The application delegate: window-level event routing. It remembers the
//! window size, turns control-key transitions into view commands, asks for
//! the open-file panel on startup, and loads a chosen file into the engine.

use vstd::prelude::*;

verus! {

use crate::geom::{ImageSize, Size};
use crate::image::{change_image_post, FitOutcome};
use crate::rational::Frac;
use crate::AppState;

/// A window-level event, already decoded by the windowing shell.
pub enum DelegateEvent {
    /// The window finished connecting and can be addressed.
    WindowConnected,
    /// The window was resized to this size.
    WindowSizeChanged { size: Size },
    /// The control key went down.
    CtrlKeyDown,
    /// The control key went up.
    CtrlKeyUp,
    /// Anything else.
    Other,
}

impl DelegateEvent {
    pub open spec fn wf(self) -> bool {
        match self {
            DelegateEvent::WindowSizeChanged { size } => size.wf(),
            _ => true,
        }
    }
}

/// What the windowing shell must do after a delegate decision.
pub struct DelegateResponse {
    /// Ask the shell to show the open-file panel.
    pub show_open_panel: bool,
    /// Ask the shell to hide the window until an image is chosen.
    pub hide_window: bool,
    /// Tell the view that the control key changed.
    pub ctrl_command: Option<bool>,
    /// Whether the event is still to be delivered to the widgets.
    pub pass_event_on: bool,
}

/// A request to open the file at `path`, with what the decoder made of it.
pub struct OpenFileCommand {
    pub path: String,
    pub decoded: Option<ImageSize>,
}

/// The delegate: it tracks the window size that a fit-to-window needs.
pub struct Delegate {
    pub window_size: Size,
}

impl Delegate {
    pub open spec fn wf(self) -> bool {
        self.window_size.wf()
    }

    /// Decide what a window-level event means. Connection asks for the open
    /// panel and hides the window; a resize is remembered; control-key
    /// transitions become view commands and are swallowed; the rest passes.
    pub fn event(&mut self, ev: &DelegateEvent) -> (r: DelegateResponse)
        requires
            old(self).wf(),
            ev.wf(),
        ensures
            final(self).wf(),
            match *ev {
                DelegateEvent::WindowConnected => {
                    &&& *final(self) == *old(self)
                    &&& r.show_open_panel
                    &&& r.hide_window
                    &&& r.ctrl_command is None
                    &&& r.pass_event_on
                },
                DelegateEvent::WindowSizeChanged { size } => {
                    &&& final(self).window_size == size
                    &&& !r.show_open_panel
                    &&& !r.hide_window
                    &&& r.ctrl_command is None
                    &&& r.pass_event_on
                },
                DelegateEvent::CtrlKeyDown => {
                    &&& *final(self) == *old(self)
                    &&& !r.show_open_panel
                    &&& !r.hide_window
                    &&& r.ctrl_command == Some(true)
                    &&& !r.pass_event_on
                },
                DelegateEvent::CtrlKeyUp => {
                    &&& *final(self) == *old(self)
                    &&& !r.show_open_panel
                    &&& !r.hide_window
                    &&& r.ctrl_command == Some(false)
                    &&& !r.pass_event_on
                },
                DelegateEvent::Other => {
                    &&& *final(self) == *old(self)
                    &&& !r.show_open_panel
                    &&& !r.hide_window
                    &&& r.ctrl_command is None
                    &&& r.pass_event_on
                },
            },
    {
        match ev {
            DelegateEvent::WindowConnected => DelegateResponse {
                show_open_panel: true,
                hide_window: true,
                ctrl_command: None,
                pass_event_on: true,
            },
            DelegateEvent::WindowSizeChanged { size } => {
                self.window_size = *size;
                DelegateResponse {
                    show_open_panel: false,
                    hide_window: false,
                    ctrl_command: None,
                    pass_event_on: true,
                }
            },
            DelegateEvent::CtrlKeyDown => DelegateResponse {
                show_open_panel: false,
                hide_window: false,
                ctrl_command: Some(true),
                pass_event_on: false,
            },
            DelegateEvent::CtrlKeyUp => DelegateResponse {
                show_open_panel: false,
                hide_window: false,
                ctrl_command: Some(false),
                pass_event_on: false,
            },
            DelegateEvent::Other => DelegateResponse {
                show_open_panel: false,
                hide_window: false,
                ctrl_command: None,
                pass_event_on: true,
            },
        }
    }

    /// Handle an application command: an open-file request loads the image
    /// at the remembered window size and is reported handled, with the fit
    /// outcome; anything else is left alone.
    pub fn command(&self, data: &mut AppState, open_file: Option<OpenFileCommand>) -> (r: Option<
        FitOutcome,
    >)
        requires
            self.wf(),
            old(data).wf(),
        ensures
            final(data).wf(),
            final(data).text == old(data).text,
            final(data).window_size == old(data).window_size,
            final(data).key_state == old(data).key_state,
            (r is Some) == (open_file is Some),
            match open_file {
                Some(cmd) => change_image_post(
                    old(data).image_state,
                    final(data).image_state,
                    cmd.path,
                    cmd.decoded,
                    self.window_size,
                    r->0,
                ),
                None => *final(data) == *old(data),
            },
    {
        match open_file {
            Some(cmd) => {
                let outcome = data.image_state.change_image(
                    cmd.path,
                    cmd.decoded,
                    self.window_size,
                );
                Some(outcome)
            },
            None => None,
        }
    }
}

impl Default for Delegate {
    /// Before the first resize event the window size is taken as one by one.
    fn default() -> (r: Delegate)
        ensures
            r.window_size == (Size {
                width: Frac { num: 1, den: 1 },
                height: Frac { num: 1, den: 1 },
            }),
            r.wf(),
    {
        Delegate {
            window_size: Size {
                width: Frac { num: 1, den: 1 },
                height: Frac { num: 1, den: 1 },
            },
        }
    }
}

} // verus!
