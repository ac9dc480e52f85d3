//! The colour palette: the one place where the colours of the interface are defined.

use vstd::prelude::*;

verus! {

/// A colour, one byte each from the top: red, green, blue and opacity, not premultiplied.
pub type Color32 = u32;

/// The theme's blue.
pub const ACCENT_BLUE: Color32 = 0x4C8B_F5FF;

/// Background of a selected row.
pub const SELECT_BG: Color32 = 0x4C8B_F540;

/// Overlay that dims hidden and system entries.
pub const DIM_OVERLAY: Color32 = 0x2424_289C;

/// Text of the header that the list is sorted by.
pub const HEADER_ACTIVE_YELLOW: Color32 = 0xFFD7_00FF;

/// Neutral grey of files.
pub const FILE_COLOR: Color32 = 0x6C75_7DFF;

/// Badge of hidden and system entries.
pub const HIDDEN_ACCENT: Color32 = 0x6B8A_A8FF;

/// Badge of links and mount points.
pub const REPARSE_ACCENT: Color32 = 0x8B5C_F6FF;

/// Text of links and mount points.
pub const REPARSE_TEXT: Color32 = 0xC4A7_F5FF;

/// Rows that group duplicates or extensions.
pub const GROUP_COLOR: Color32 = 0xF5A6_23FF;

/// Status line: error.
pub const STATUS_ERROR_RED: Color32 = 0xE060_60FF;

/// Background of a button that deletes.
pub const DANGER_BUTTON_RED: Color32 = 0xC040_40FF;

/// Status line: success.
pub const STATUS_OK_GREEN: Color32 = 0x6CC7_8AFF;

/// The colours that folders take in turn, by depth.
pub const FOLDER_PALETTE: [Color32; 6] = [
    0x4C8B_F5FF,
    0x34C7_59FF,
    0xF5A6_23FF,
    0xE055_5BFF,
    0x9C6A_DEFF,
    0x2EC4_B6FF,
];

/// The folder colour at a depth: the palette, over and over.
pub fn folder_color(depth: usize) -> (color: Color32)
    ensures
        color == FOLDER_PALETTE@[depth as int % 6],
{
    FOLDER_PALETTE[depth % 6]
}

} // verus!
