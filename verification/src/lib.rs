//! An in-memory MAC-address vendor-prefix database: a prefix codec, a
//! text-record parser, and longest-prefix-match lookup over a sorted table.

pub mod mac;
pub mod oui;
pub mod text;
pub mod meta;
pub mod db;

pub use mac::{parse_mac_addr, parse_mac_addr_extend, ParseMacError};
pub use meta::OuiMeta;
pub use oui::{Oui, ParseOuiError};
pub use db::{OuiDb, ParseOuiDbError};
