use vstd::prelude::*;
use crate::menu::{AppState, Interaction};

verus! {

/// The buttons of the main menu.
#[derive(Debug, Clone, Copy, PartialEq, Eq, Structural)]
pub enum MenuMainBtn {
    PlayGame,
    Quit,
}

/// What a click on the main menu asks for.
#[derive(Debug, Clone, Copy, PartialEq, Eq, Structural)]
pub enum MainMenuAction {
    Goto(AppState),
    Exit,
}

/// The action a click on the main menu leads to: the controls screen for
/// play, leaving the application for quit.
pub fn btn_listeners(interaction: Interaction, btn: MenuMainBtn) -> (r: Option<MainMenuAction>)
    ensures
        interaction != Interaction::Clicked ==> r is None,
        interaction == Interaction::Clicked ==> r == Some(
            match btn {
                MenuMainBtn::PlayGame => MainMenuAction::Goto(AppState::Controls),
                MenuMainBtn::Quit => MainMenuAction::Exit,
            },
        ),
{
    match interaction {
        Interaction::Clicked => match btn {
            MenuMainBtn::PlayGame => Some(MainMenuAction::Goto(AppState::Controls)),
            MenuMainBtn::Quit => Some(MainMenuAction::Exit),
        },
        _ => None,
    }
}

} // verus!
