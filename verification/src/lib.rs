//! omafiles: the model of a keyboard-first file explorer, verified.

pub mod text;
mod probe;
pub mod path;
pub mod table;
pub mod split;
pub mod numfmt;
pub mod natural;
pub mod entry;
pub mod diff;
pub mod git;
pub mod listing;
pub mod navigation;
pub mod places;
pub mod keymap;
pub mod preview;
pub mod family;
pub mod actions;
pub mod network;
pub mod presentation;
pub mod imageops;
pub mod fileops;
pub mod grep;
pub mod palette;
pub mod config;
pub mod highlight;
pub mod selection;
pub mod cursor;
pub mod pathpick;
