//! The state of the buttons of a controller.

use vstd::prelude::*;

verus! {

/// What happened to a button during a frame: how often it changed between
/// up and down, and whether it was down at the end.
#[derive(Clone, Copy, Debug, Default, PartialEq, Eq, Structural)]
pub struct GameButtonState {
    pub half_tansition_count: i32,
    pub ended_down: bool,
}

/// The buttons of a controller, by name.
#[derive(Clone, Copy, Debug, Default, PartialEq, Eq, Structural)]
pub struct GameControllerDistinctButtons {
    pub move_up: GameButtonState,
    pub move_down: GameButtonState,
    pub move_left: GameButtonState,
    pub move_right: GameButtonState,
    pub action_up: GameButtonState,
    pub action_down: GameButtonState,
    pub action_left: GameButtonState,
    pub action_right: GameButtonState,
    pub left_shoulder: GameButtonState,
    pub right_shoulder: GameButtonState,
    pub back: GameButtonState,
    pub start: GameButtonState,
    pub terminator: GameButtonState,
}

/// Sets the state of a button from the button bits of a gamepad: the button
/// is down if all the bits of `button_bit` are set in `button_state`, and
/// has changed once if that differs from the state before.
pub fn process_xinput_digital_button(
    button_state: u16,
    old_state: &GameButtonState,
    button_bit: u16,
    new_state: &mut GameButtonState,
)
    ensures
        final(new_state).ended_down == (button_state & button_bit == button_bit),
        final(new_state).half_tansition_count == if old_state.ended_down != final(new_state).ended_down {
            1i32
        } else {
            0i32
        },
{
    new_state.ended_down = button_state & button_bit == button_bit;
    new_state.half_tansition_count = if old_state.ended_down != new_state.ended_down {
        1
    } else {
        0
    };
}

/// Records that a key is down or up: a change counts as one transition,
/// no change leaves the state as it is.
pub fn process_keyboard_message(new_state: &mut GameButtonState, is_down: bool)
    requires
        old(new_state).half_tansition_count < i32::MAX,
    ensures
        *final(new_state) == if old(new_state).ended_down != is_down {
            GameButtonState {
                half_tansition_count: (old(new_state).half_tansition_count + 1) as i32,
                ended_down: is_down,
            }
        } else {
            *old(new_state)
        },
{
    if new_state.ended_down != is_down {
        new_state.ended_down = is_down;
        new_state.half_tansition_count += 1;
    }
}

} // verus!
