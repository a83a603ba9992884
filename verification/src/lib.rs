//! rustdecks: the verified core of a Loupedeck Live controller for X-Plane 12.
//!
//! The library holds the logic: the Loupedeck serial wire protocol (framing,
//! frame scanning, event decoding, outbound command frames), the RGB canvas
//! and colour/icon parsing used to compose tiles, profile validation, the
//! X-Plane Web API message interpretation, and the deck controller that maps
//! input to actions and decides what to redraw. Everything that talks to the
//! serial port, the network, the terminal or a font rasteriser lives in the
//! companion application.

pub mod config;
pub mod deck;
pub mod device;
pub mod format;
pub mod mirror;
pub mod render;
pub mod sim;
pub mod text;
pub mod tui;
