//! Rules of Burraco, a rummy-family card game: card model, meld ("run")
//! validation and scoring, move enumeration and the match state machine.

pub mod card;
pub mod error;
pub mod notation;
pub mod run;
mod random;
pub mod state;
pub mod actions;
pub mod enumerate;
pub mod agent;
