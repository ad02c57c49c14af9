//! A rainbow table over MD5: chains of alternating digest and reduction
//! steps, a binary file format for them, and the search that recovers a
//! preimage of a digest from the stored chains.

pub mod chain;
pub mod codec;
pub mod digest;
pub mod encoding;
pub mod hex;
pub mod lookup;
pub mod reduce;
pub mod table;

pub use codec::TableError;
pub use hex::{from_hex, HexError};
pub use table::{Chain, Table, TableView};
