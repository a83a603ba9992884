//! A snapshot of the deck's visual state, for a terminal mirror of what is
//! on (or would be on) the physical deck, with or without hardware.

use vstd::prelude::*;

verus! {

/// What a key tile shows.
#[derive(Debug, Clone, Default)]
pub struct KeyView {
    pub kind: KeyKind,
    pub label: String,
    pub value: String,
}

/// The kind of a key tile.
#[derive(Debug, Clone, Copy, Default, PartialEq, Eq, Structural)]
pub enum KeyKind {
    #[default]
    Empty,
    Text,
    Icon,
    Annunciator { lit: bool },
}

/// One side-strip cell.
#[derive(Debug, Clone, Default)]
pub struct Cell {
    pub label: String,
    pub value: String,
}

/// One round LED button.
#[derive(Debug, Clone, Default)]
pub struct LedView {
    pub on: bool,
    pub rgb: [u8; 3],
    /// Page this LED navigates to, if any.
    pub target: String,
}

/// The whole deck as last drawn.
#[derive(Debug, Clone, Default)]
pub struct DeckState {
    pub device: String,
    pub sim: String,
    pub page: String,
    pub keys: [KeyView; 12],
    pub left: [Cell; 3],
    pub right: [Cell; 3],
    pub leds: [LedView; 8],
    /// Resolved live datarefs (name, formatted value).
    pub datarefs: Vec<(String, String)>,
    /// Most-recent input events, newest last.
    pub events: Vec<String>,
}

} // verus!
