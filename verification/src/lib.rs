//! hindsight: a shell command-history store. The library holds the history
//! database's tables as values, answers every query of the command line over
//! them, and states each recording operation as the row changes it issues.

pub mod clock;
pub mod config;
pub mod counting;
pub mod db;
pub mod entries;
pub mod keyed;
pub mod laws;
pub mod like;
pub mod model;
pub mod ops;
pub mod present;
pub mod promises;
pub mod rank;
pub mod shell;
pub mod text;
pub mod zsh;
