//! Encoding of chat messages as sequences of block offsets around a unit cube.
//!
//! A message is framed into a packet, the packet's bytes are packed into
//! symbols of a fixed bit width, and every symbol selects one entry of the
//! reachability table: the block offsets that can be interacted with from
//! anywhere inside the origin block.

pub mod bit_width;
pub mod bitpack;
pub mod encoder;
pub mod error;
pub mod framing;
pub mod generator;
pub mod offset;
pub mod reach;
pub mod reach_laws;
pub mod table;

pub use crate::encoder::ProxChatEncoder;
pub use crate::error::EncodeError;
pub use crate::generator::ProxChatGenerator;
pub use crate::offset::Offset;
pub use crate::table::OffsetTable;
