//! Panel services.
pub mod backups;
pub mod blueprint;
pub mod console;
pub mod databases;
pub mod egg;
pub mod files;
pub mod pull;
pub mod registry;
pub mod revisions;
