mod shared_cell;
pub mod boxt;
pub mod draw;
pub mod rct;
pub mod refcellt_with_rct;
pub mod timer;
pub mod timed;
pub mod combine;
pub mod channel;
pub mod executor;
pub mod title;
pub mod producers;
