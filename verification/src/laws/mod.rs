//! What holds of whole transfers.
pub mod asking;
pub mod block_wise;
pub mod blocks;
pub mod bursts;
pub mod demands;
pub mod dispatch;
pub mod driving;
pub mod exchanges;
pub mod parts;
pub mod receiving;
pub mod recovery;
pub mod registry;
pub mod sending;
pub mod server;
pub mod tags;
pub mod transfer;
