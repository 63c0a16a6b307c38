//! The actions the menu screens report back to the game loop, and the
//! settings they edit. The screens themselves are drawn by the frontend;
//! this module holds only the plain data they exchange.

use vstd::prelude::*;

verus! {

/// What the main menu asks the game loop to do.
#[derive(Clone, Copy, Debug, PartialEq, Eq, Structural)]
pub enum MainMenuAction {
    Idle,
    NewGame,
    Settings,
    Exit,
}

/// How the flavor-text model is hosted.
#[derive(Clone, Copy, Debug, PartialEq, Eq, Structural)]
pub enum LLMMode {
    Cuda,
    Cpu,
    Off,
}

/// What the settings menu asks the game loop to do.
#[derive(Clone, Copy, Debug, PartialEq, Eq, Structural)]
pub enum SettingsMenuAction {
    Idle,
    Save,
    Return,
}

/// What the new-game menu asks the game loop to do.
#[derive(Clone, Copy, Debug, PartialEq, Eq, Structural)]
pub enum NewGameMenuAction {
    Idle,
    Start,
    Return,
}

} // verus!
