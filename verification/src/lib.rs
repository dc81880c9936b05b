//! League-table logic: standings, results, history, schedules and the
//! decisions behind each bot command.
pub mod text;
pub mod table_utils;
pub mod history;
pub mod schedule;
pub mod validator;
pub mod standings;
pub mod commands;
pub mod fixtures;
pub mod views;
pub mod predict;
pub mod season;
pub mod config;
pub mod fairness;
