//! Sample types to try the middleware with.

pub mod random_data;
pub mod shape_type;
