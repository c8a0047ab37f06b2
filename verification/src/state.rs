//! What the engine knows about the text being typed.
use vstd::prelude::*;

verus! {

/// Typed text and the suggestion currently offered for it.
#[derive(Debug)]
pub struct AppState {
    pub typed_buffer: String,
    pub current_full: Option<String>,
    pub current_suffix: Option<String>,
    pub engine_running: bool,
    pub overlay_visible: bool,
    pub last_auto_completed: Option<String>,
}

impl Default for AppState {
    fn default() -> (s: Self)
        ensures
            s.typed_buffer@ == Seq::<char>::empty(),
            s.current_full is None,
            s.current_suffix is None,
            !s.engine_running,
            !s.overlay_visible,
            s.last_auto_completed is None,
    {
        AppState {
            typed_buffer: String::new(),
            current_full: None,
            current_suffix: None,
            engine_running: false,
            overlay_visible: false,
            last_auto_completed: None,
        }
    }
}

impl AppState {
    /// Drops the current suggestion.
    pub fn clear_suggestion(&mut self)
        ensures
            final(self).current_full is None,
            final(self).current_suffix is None,
            final(self).typed_buffer == old(self).typed_buffer,
            final(self).engine_running == old(self).engine_running,
            final(self).overlay_visible == old(self).overlay_visible,
            final(self).last_auto_completed == old(self).last_auto_completed,
    {
        self.current_full = None;
        self.current_suffix = None;
    }
}

} // verus!
