//! Q-Block block transfers and the server-side decisions of a CoAP endpoint.
//!
//! Everything here is synchronous and free of I/O: each function takes what the transport or
//! the clock reported and says what to do next. Sockets, channels and timers live in the
//! application around this library. What holds of whole transfers is proved in [`laws`].
pub mod address;
pub mod block_wise;
pub mod body;
pub mod config;
pub mod drive;
pub mod laws;
pub mod missing_blocks;
pub mod packet;
pub mod qblock_server;
pub mod range_set;
pub mod receiver;
pub mod receivers;
pub mod reports;
pub mod request;
pub mod sender;
pub mod server;
pub mod table;
pub mod time;
pub mod uint;
