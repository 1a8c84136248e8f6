//! The chat commands the bot answers to.
use vstd::prelude::*;

verus! {

#[derive(Debug, Clone, Copy, PartialEq, Eq)]
pub enum DickCommands {
    Grow,
    Top,
    Gift,
    Fire,
}

#[derive(Debug, Clone, Copy, PartialEq, Eq)]
pub enum AdminCommands {
    Deluser,
}

#[derive(Debug, Clone, Copy, PartialEq, Eq)]
pub enum HelpCommands {
    Help,
}

#[derive(Debug, Clone, Copy, PartialEq, Eq)]
pub enum PrivacyCommands {
    Privacy,
}

} // verus!
