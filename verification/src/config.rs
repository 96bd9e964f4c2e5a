//! The handful of settings that are neither keys nor places. One flat
//! table, every field optional, so an empty file — or none — is the
//! defaults. Reading and writing the file are the application's.

use vstd::prelude::*;

verus! {

#[derive(Debug, Clone, Copy, PartialEq, Eq, Structural)]
pub struct Config {
    /// Whether action buttons spell out their verb beside the glyph. Off by
    /// default: a bar of glyphs reads as chrome, and the verb is one hover
    /// away.
    pub button_labels: bool,
}

impl Default for Config {
    fn default() -> (c: Self)
        ensures
            !c.button_labels,
    {
        Config { button_labels: false }
    }
}

} // verus!
