//! The command-line flavor-text mode switch and its mapping onto the menu
//! setting.

use vstd::prelude::*;

use crate::menu;

verus! {

/// The flavor-text mode selected on the command line.
#[derive(Clone, Copy, Debug, PartialEq, Eq, Structural)]
pub enum LLMMode {
    Off,
    Cpu,
    Cuda,
}

impl LLMMode {
    /// The name the mode prints as.
    pub fn label(&self) -> (r: &'static str)
        ensures
            r@ == (match self {
                LLMMode::Off => "none"@,
                LLMMode::Cpu => "cpu"@,
                LLMMode::Cuda => "cuda"@,
            }),
    {
        match self {
            LLMMode::Off => "none",
            LLMMode::Cpu => "cpu",
            LLMMode::Cuda => "cuda",
        }
    }

    /// The equivalent menu setting.
    pub fn to_menu(&self) -> (r: menu::LLMMode)
        ensures
            r == (match self {
                LLMMode::Off => menu::LLMMode::Off,
                LLMMode::Cpu => menu::LLMMode::Cpu,
                LLMMode::Cuda => menu::LLMMode::Cuda,
            }),
    {
        match self {
            LLMMode::Off => menu::LLMMode::Off,
            LLMMode::Cpu => menu::LLMMode::Cpu,
            LLMMode::Cuda => menu::LLMMode::Cuda,
        }
    }

    /// The mode a menu setting selects.
    pub fn from_menu(m: menu::LLMMode) -> (r: LLMMode)
        ensures
            r == (match m {
                menu::LLMMode::Off => LLMMode::Off,
                menu::LLMMode::Cpu => LLMMode::Cpu,
                menu::LLMMode::Cuda => LLMMode::Cuda,
            }),
    {
        match m {
            menu::LLMMode::Off => LLMMode::Off,
            menu::LLMMode::Cpu => LLMMode::Cpu,
            menu::LLMMode::Cuda => LLMMode::Cuda,
        }
    }
}

} // verus!
