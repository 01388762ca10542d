pub mod buffers;
pub mod cancel;
pub mod cli;
pub mod convert;
pub mod error;
pub mod handlers;
pub mod index;
pub mod laws;
pub mod lookup;
pub mod model;
pub mod order;
pub mod path;
pub mod position;
pub mod protocol;
pub mod reindex;
pub mod server;
pub mod shards;
pub mod text;
pub mod types;
