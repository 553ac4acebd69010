//! A product catalog: products carry named variant dimensions (size, color,
//! ...), each dimension holding an ordered list of values. One association row
//! records one concrete value of one variant for one product.
//!
//! The store keeps three relations (products, variants, associations) in
//! memory behind an explicit handle, so every operation is a plain function
//! of the previous state, verified against the model in `model`.

pub mod laws;
pub mod model;
pub mod models;
pub mod store;
pub mod text;
