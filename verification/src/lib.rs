//! A relay that hands out plain HTTP download links for files that stay on
//! the sender's machine.

pub mod channel;
pub mod client;
pub mod config;
pub mod delivery;
pub mod disposition;
pub mod download;
pub mod frame;
pub mod guarantees;
pub mod limits;
pub mod protocol;
pub mod range;
pub mod sanitize;
pub mod share;
pub mod text;
pub mod uploader;
