pub mod append_order;
pub mod block_provider;
pub mod blocks_writer;
pub mod chain;
pub mod hash;
pub mod message;
pub mod orphan_blocks_pool;
pub mod server_task_executor;
pub mod synchronization_chain;
pub mod synchronization_executor;
pub mod synchronization_server;
pub mod synchronization_verifier;
pub mod types;
