//! Compiled-in configuration for the text overlays.

use vstd::prelude::*;

verus! {

/// Maximum pixel width of a line of the global text panel.
pub const DEF_GUI_TXT_MAX_WIDTH: u32 = 200;

/// Font size of the global text panel.
pub const DEF_GUI_FONT_SZ: u16 = 20;

/// Font size of a mini-text label.
pub const GUI_MINITEXT_FONT_SZ: u16 = 16;

/// Maximum pixel width of a line of a mini-text label.
pub const GUI_MINITEXT_MAX_WIDTH: u32 = 100;

} // verus!
