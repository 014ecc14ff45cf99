pub mod keyed;
pub mod laws;
pub mod store;
