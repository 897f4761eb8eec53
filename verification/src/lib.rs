pub mod text;
pub mod order;
pub mod test_paths;
pub mod group_map;
pub mod syntax;
pub mod index;
pub mod storage;
pub mod server;
pub mod benchmark;
