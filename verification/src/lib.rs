//! Ringboard: a clipboard history kept in two ring files, a set of size-classed
//! bucket files and a directory of directly allocated files.
//!
//! This crate holds the logic of the database format, its readers, the search
//! engine and the clients, with every function stated and proved in Verus.

pub mod api;
pub mod applet;
pub mod cli;
pub mod config;
pub mod cosmic;
pub mod dirs;
pub mod duplicate_detection;
pub mod egui;
pub mod error;
pub mod fuzz;
pub mod gch;
pub mod gnome;
pub mod iced;
pub mod import;
pub mod lock_file;
pub mod pipeline;
pub mod protocol;
pub mod ring;
pub mod ring_reader;
pub mod search;
pub mod startup;
pub mod stats;
pub mod text;
pub mod transfer;
pub mod ui_actor;
pub mod ui_entry;
pub mod utils;
pub mod views;
