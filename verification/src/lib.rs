//! Recording and replay of timestamped messages in one self-describing file.

pub mod calls;
pub mod cli;
pub mod compress;
pub mod crc;
pub mod damage;
pub mod export;
pub mod fastlio;
pub mod inspect;
pub mod json;
pub mod jsonline;
pub mod jsonvalue;
pub mod layout;
pub mod le;
pub mod memory;
pub mod message;
pub mod msgs;
pub mod order;
pub mod pacing;
pub mod play;
pub mod record;
pub mod selftest;
pub mod sequential;
pub mod singlefile;
pub mod split;
pub mod storage;
pub mod text;
pub mod wire;
