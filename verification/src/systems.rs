//! The passes that make up one tick of the game.

pub mod input_system;
pub mod game_play_state_system;
pub mod event_system;
pub mod render_system;
