pub mod error;
pub mod text;
pub mod types;
pub mod index;
pub mod ticket;
pub mod watcher;
pub mod node;
pub mod daemon;
pub mod transcode;
