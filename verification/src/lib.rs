//! A verified rules engine for a two-player, turn-based collectible card
//! game: match state, the turn-phase cycle, cost validation and payment,
//! combat resolution, and a pending-effect queue drained to quiescence after
//! every action, with reactions dispatched from declared windows. The model
//! of every operation lives in `model`; the engine's general laws are stated
//! and proved in `laws`.

pub mod card;
pub mod choice_req;
pub mod choice_res;
pub mod common;
pub mod effect;
pub mod game;
pub mod game_diff;
pub mod laws;
pub mod lua_api;
pub mod model;
pub mod player;
pub mod player_actions;
pub mod targeting;
pub mod window_event;
