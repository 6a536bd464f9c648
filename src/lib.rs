pub mod calendar;
pub mod config;
pub mod orchestrator;
pub mod prices;
pub mod pvpc;
pub mod regeneration;
pub mod rules;
pub mod schedule;
pub mod selector;
mod sorting;
pub mod requests;
pub mod text;
