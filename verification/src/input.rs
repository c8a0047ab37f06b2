//! Key presses as the keyboard hook reports them.
use vstd::prelude::*;

verus! {

/// One key press.
#[derive(Debug, Clone, Copy)]
pub struct KeyEvent {
    pub vk_code: u32,
    pub scan_code: u32,
    pub is_keydown: bool,
}

/// Which modifier keys are held.
#[derive(Debug, Clone, Copy)]
pub struct Modifiers {
    pub ctrl: bool,
    pub shift: bool,
    pub alt: bool,
}

} // verus!
