//! The appearance that the user chose.

use vstd::prelude::*;

use crate::records::Event;

verus! {

/// An appearance.
#[derive(Clone, Copy, Debug, PartialEq, Eq, Structural)]
pub enum ThemePreference {
    /// Whatever the system shows.
    System,
    /// One of the appearances that the shell offers, by its number.
    Chosen(u8),
}

impl Default for ThemePreference {
    fn default() -> (res: ThemePreference)
        ensures
            res == ThemePreference::System,
    {
        ThemePreference::System
    }
}

/// The appearance in effect: the stored one or, without any, that of the system.
pub fn theme_preference(stored: Option<ThemePreference>) -> (res: ThemePreference)
    ensures
        res == match stored {
            Some(choice) => choice,
            None => ThemePreference::System,
        },
{
    match stored {
        Some(choice) => choice,
        None => ThemePreference::System,
    }
}

/// What is told after an appearance was chosen.
pub fn theme_changed(changed: bool) -> (res: Option<Event>)
    ensures
        res == if changed {
            Some(Event::ThemeChanged)
        } else {
            None
        },
{
    if changed {
        Some(Event::ThemeChanged)
    } else {
        None
    }
}

} // verus!
