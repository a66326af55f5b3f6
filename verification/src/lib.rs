//! The decision-making core of a bridge that exposes local project
//! directories to remote clients: path containment, permission gates, patch
//! parsing and application, bounded file reading, search policy, command and
//! git planning, and the workspace registry.
//!
//! Every item is verified. Disk, process and network access lives with the
//! caller, which hands plain facts to these functions and carries out what
//! they decide.

pub mod cli;
pub mod config;
pub mod error;
pub mod permissions;
pub mod registry;
pub mod server;
pub mod text;
pub mod tools;
pub mod transport;
pub mod workspace;
pub mod workspace_id;
