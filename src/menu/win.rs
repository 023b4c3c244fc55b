use vstd::prelude::*;
use crate::menu::{AppState, Interaction};

verus! {

/// The buttons of the end-of-match screen.
#[derive(Debug, Clone, Copy, PartialEq, Eq, Structural)]
pub enum MenuWinBtn {
    Back,
}

/// The outcome the end-of-match screen shows.
pub struct MatchData {
    pub result: Vec<char>,
}

/// The screen a click on the end-of-match screen leads to.
pub fn btn_listeners(interaction: Interaction, btn: MenuWinBtn) -> (r: Option<AppState>)
    ensures
        r == (if interaction == Interaction::Clicked {
            Some(AppState::MenuMain)
        } else {
            None
        }),
{
    match interaction {
        Interaction::Clicked => match btn {
            MenuWinBtn::Back => Some(AppState::MenuMain),
        },
        _ => None,
    }
}

} // verus!
