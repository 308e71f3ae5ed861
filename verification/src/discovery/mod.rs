//! How participants and their endpoints find each other.

pub mod announcement;
pub mod data_types;
pub mod discovery;
pub mod discovery_db;
pub mod parameter_list;
pub mod wire;
