//! Decisions of the overlay window: how it answers window messages, and
//! where it stands relative to the game's window.

use vstd::prelude::*;

verus! {

/// The message a window receives when it is being destroyed.
pub const WM_DESTROY: u32 = 0x0002;

/// The message a window receives when it should repaint itself.
pub const WM_PAINT: u32 = 0x000F;

/// Width of the overlay and of the game's client area.
pub const OVERLAY_WIDTH: i32 = 800;

/// Height of the overlay and of the game's client area.
pub const OVERLAY_HEIGHT: i32 = 600;

/// Horizontal distance from the game window's frame to its client area.
pub const FRAME_OFFSET_X: i32 = 3;

/// Vertical distance from the game window's frame to its client area.
pub const FRAME_OFFSET_Y: i32 = 32;

/// How the overlay's window procedure answers a message.
#[derive(Clone, Copy, Debug, PartialEq, Eq, Structural)]
pub enum MessageAction {
    /// Post the quit message, then answer 0.
    QuitAndAnswerZero,
    /// Answer 0 and do nothing else.
    AnswerZero,
    /// Hand the message to the default window procedure.
    PassToDefault,
}

pub open spec fn action_for(message: u32) -> MessageAction {
    if message == WM_DESTROY {
        MessageAction::QuitAndAnswerZero
    } else if message == WM_PAINT {
        MessageAction::AnswerZero
    } else {
        MessageAction::PassToDefault
    }
}

/// The overlay quits on `WM_DESTROY` and on no other message, answers 0
/// without further action to `WM_PAINT` alone, and hands every other
/// message to the default window procedure.
pub proof fn law_message_actions(message: u32)
    ensures
        action_for(message) == MessageAction::QuitAndAnswerZero <==> message == 0x0002,
        action_for(message) == MessageAction::AnswerZero <==> message == 0x000F,
        message != 0x0002 && message != 0x000F ==> action_for(message)
            == MessageAction::PassToDefault,
{
}

/// The overlay's answer to a window message.
pub fn message_action(message: u32) -> (r: MessageAction)
    ensures
        r == action_for(message),
{
    if message == WM_DESTROY {
        MessageAction::QuitAndAnswerZero
    } else if message == WM_PAINT {
        MessageAction::AnswerZero
    } else {
        MessageAction::PassToDefault
    }
}

/// Where the overlay's top-left corner goes, given the game window's
/// top-left corner: over the game's client area.  `None` where a coordinate
/// would pass the largest `i32`.
pub fn overlay_origin(game_left: i32, game_top: i32) -> (r: Option<(i32, i32)>)
    ensures
        r == (if game_left + FRAME_OFFSET_X <= i32::MAX && game_top + FRAME_OFFSET_Y <= i32::MAX {
            Some(((game_left + FRAME_OFFSET_X) as i32, (game_top + FRAME_OFFSET_Y) as i32))
        } else {
            None
        }),
{
    match (game_left.checked_add(FRAME_OFFSET_X), game_top.checked_add(FRAME_OFFSET_Y)) {
        (Some(left), Some(top)) => Some((left, top)),
        _ => None,
    }
}

} // verus!
