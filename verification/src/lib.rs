//! Critical Path Method scheduling: activities, their precedence network,
//! and the forward/backward passes that give dates, floats and the critical path.

pub mod activity;
pub mod app_state;
pub mod calendar;
pub mod display;
pub mod network;
pub mod input;
pub mod laws;
pub mod passes;
pub mod project;
pub mod scheduler;
pub mod text;
