//! Agent F-Row: what coding agents are doing, read from their hooks and shown
//! on keys.

pub mod agents;
pub mod autostart;
pub mod commands;
pub mod event;
pub mod focus;
pub mod gauges;
pub mod icon;
pub mod ingress;
pub mod install;
pub mod json;
pub mod keys;
pub mod lanes;
pub mod lastseen;
pub mod number;
pub mod paths;
pub mod seating;
pub mod settings;
pub mod settings_file;
pub mod single;
pub mod state;
pub mod surface;
pub mod table;
pub mod text;
pub mod tracker;
