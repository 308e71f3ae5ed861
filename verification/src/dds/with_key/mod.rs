//! Readers of topics whose samples belong to instances.

pub mod datareader;
pub mod delivery;
