//! zfmt: low-overhead binary event logging — wire format, formatting engine,
//! bytecode interpreter and host-side decoding logic.

pub mod leb128;
pub mod text;
pub mod hash;
pub mod elf;
pub mod bytecode;
pub mod numfmt;
pub mod interpret;
pub mod display;
pub mod decode;
pub mod db;
pub mod db_laws;
pub mod write;
pub mod format;
pub mod events;
pub mod logger;
pub mod output;
pub mod fmtstr;
pub mod textlog;
pub mod schema;
pub mod derived;
pub mod testfw;
pub mod readback;
pub mod laws;
pub mod rendering;
pub mod export;
