//! Scene description settings.

pub mod config;
