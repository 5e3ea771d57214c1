pub mod blocks;
pub mod codec;
pub mod compress;
pub mod errors;
pub mod events;
pub mod inventory;
pub mod items;
pub mod laws;
pub mod server_blocks;
pub mod walls;
pub mod world_map;
