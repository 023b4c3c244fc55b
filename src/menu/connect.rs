use vstd::prelude::*;
use crate::menu::{AppState, Interaction};

verus! {

/// The buttons of the connecting screen.
#[derive(Debug, Clone, Copy, PartialEq, Eq, Structural)]
pub enum MenuConnectBtn {
    Back,
}

/// The room the connecting screen joins.
pub struct ConnectData {
    pub lobby_id: Vec<char>,
}

/// The screen a click on the connecting screen leads to.
pub fn btn_listeners(interaction: Interaction, btn: MenuConnectBtn) -> (r: Option<AppState>)
    ensures
        r == (if interaction == Interaction::Clicked {
            Some(AppState::MenuMain)
        } else {
            None
        }),
{
    match interaction {
        Interaction::Clicked => match btn {
            MenuConnectBtn::Back => Some(AppState::MenuMain),
        },
        _ => None,
    }
}

} // verus!
