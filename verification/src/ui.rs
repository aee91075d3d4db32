//! What the game makes of the player's input, apart from any window.

pub mod editor;
pub mod game;
pub mod main_window;
pub mod modal;
pub mod player;
