//! The measures of the calculator's window, in pixels.

use vstd::prelude::*;

verus! {

pub const WINDOW_WIDTH: i32 = 320;

pub const WINDOW_HEIGHT: i32 = 350;

/// A quarter of the window's width: four buttons fill a row.
pub const BUTTON_WIDTH: i32 = 80;

pub const BUTTON_HEIGHT: i32 = 50;

pub const RESULT_SCREEN_HEIGHT: i32 = WINDOW_HEIGHT - (BUTTON_HEIGHT * 5);

pub const RESULT_HEIGHT: i32 = 60;

pub const MEMORY_OFFSET: i32 = 20;

pub const MEMORY_HEIGHT: i32 = RESULT_SCREEN_HEIGHT - RESULT_HEIGHT - MEMORY_OFFSET;

pub const RESULT_LABEL_SIZE: i32 = 28;

} // verus!
