use vstd::prelude::*;

pub mod connect;
pub mod controls;
pub mod main_menu;
pub mod online;
pub mod win;

verus! {

/// The screens of the application.
#[derive(Debug, Clone, Copy, PartialEq, Eq, Structural)]
pub enum AppState {
    AssetLoading,
    MenuMain,
    MenuOnline,
    MenuConnect,
    WorldGen,
    Controls,
    InGame,
    Win,
}

/// Sub-states of a round.
#[derive(Debug, Clone, Copy, PartialEq, Eq, Structural)]
pub enum InGameState {
    Playing,
    Controls,
}

/// The ordering labels of the frame's systems.
#[derive(Debug, Clone, Copy, PartialEq, Eq, Structural)]
pub enum SystemLabels {
    CameraMove,
    Input,
    Spawning,
    PlayerMove,
    Collection,
    PlayerDamage,
    BulletReload,
    BulletMove,
    ZombieMove,
    ApplyForce,
    ZombieDamage,
}

/// How the pointer relates to a button this frame.
#[derive(Debug, Clone, Copy, PartialEq, Eq, Structural)]
pub enum Interaction {
    Clicked,
    Hovered,
    Idle,
}

/// The colour role a button is drawn with.
#[derive(Debug, Clone, Copy, PartialEq, Eq, Structural)]
pub enum ButtonColor {
    Disabled,
    Normal,
    Hovered,
    Pressed,
}

pub open spec fn color_for(interaction: Interaction) -> ButtonColor {
    match interaction {
        Interaction::Clicked => ButtonColor::Pressed,
        Interaction::Hovered => ButtonColor::Hovered,
        Interaction::Idle => ButtonColor::Normal,
    }
}

/// The colour of an always-enabled button.
pub fn btn_visuals(interaction: Interaction) -> (r: ButtonColor)
    ensures
        r == color_for(interaction),
{
    match interaction {
        Interaction::Clicked => ButtonColor::Pressed,
        Interaction::Hovered => ButtonColor::Hovered,
        Interaction::Idle => ButtonColor::Normal,
    }
}

} // verus!
