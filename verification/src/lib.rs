//! Decision and text logic of a Windows service manager for a network
//! bypass tool: service arguments built from a configuration file, the
//! user's PATH entries, menu and command-line choices, and the reports on
//! a service's state.
pub mod text;
pub mod paths;
pub mod config;
pub mod choice;
pub mod service;
