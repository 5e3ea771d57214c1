pub mod events;
pub mod layer;
pub mod types;
