//! Filing of scanned pages into a date-structured notes archive.
pub mod actions;
pub mod application;
pub mod messages;
pub mod scans;
pub mod settings;
pub mod text;
