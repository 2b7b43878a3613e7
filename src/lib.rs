//! Reading and writing PNG-style chunk streams: validated chunk type codes,
//! single checksummed chunks, and the container that holds them in order.

pub mod chunk;
pub mod chunk_type;
pub mod png;
