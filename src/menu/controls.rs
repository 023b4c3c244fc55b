use vstd::prelude::*;
use crate::menu::AppState;

verus! {

/// The screen the controls screen leads to: world generation once Return
/// goes down.
pub fn btn_listeners(return_just_pressed: bool) -> (r: Option<AppState>)
    ensures
        r == (if return_just_pressed {
            Some(AppState::WorldGen)
        } else {
            None
        }),
{
    if return_just_pressed {
        Some(AppState::WorldGen)
    } else {
        None
    }
}

} // verus!
