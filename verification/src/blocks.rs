pub mod breaking;
pub mod codec;
pub mod events;
pub mod grid;
pub mod packets;
pub mod types;
