//! The wire format of a framed packet and of the chat payload inside it.
//!
//! A framed packet is a three-byte length, a two-byte identifier and the
//! data, all integers big-endian. The length counts the identifier and the
//! data. A chat payload is a zero byte, the length of the message in one
//! byte, and the bytes of the message.

use vstd::prelude::*;

verus! {

/// Identifier of a chat message.
pub const PACKET_ID_CHAT: u16 = 1;

/// Identifier reserved for pats of a player or entity.
pub const PACKET_ID_PATPAT_PATENTITY: u16 = 2;

/// Identifier reserved for emotes.
pub const PACKET_ID_EMOTECRAFT: u16 = 3;

/// The number of bytes that the identifier takes in a framed packet.
pub const PACKET_ID_SIZE: usize = 2;

/// The largest length that the three-byte length field can say.
pub const MAX_PACKET_LENGTH: usize = 0xFF_FFFF;

/// The longest chat message, in bytes, whose length fits the one byte that
/// says it.
pub const MAX_CHAT_MESSAGE_LENGTH: usize = 0xFF;

/// Whether `data` is short enough to be framed.
pub open spec fn fits_packet(data: Seq<u8>) -> bool {
    PACKET_ID_SIZE + data.len() <= MAX_PACKET_LENGTH
}

/// The framed packet that carries `data` under the identifier `id`.
pub open spec fn framed_packet(id: u16, data: Seq<u8>) -> Seq<u8> {
    let length = PACKET_ID_SIZE + data.len();
    seq![
        (length / 0x1_0000 % 0x100) as u8,
        (length / 0x100 % 0x100) as u8,
        (length % 0x100) as u8,
        (id / 0x100) as u8,
        (id % 0x100) as u8,
    ] + data
}

/// Whether a message of these bytes is short enough for a chat payload.
pub open spec fn fits_chat(message: Seq<u8>) -> bool {
    message.len() <= MAX_CHAT_MESSAGE_LENGTH
}

/// The chat payload for a message of these bytes.
pub open spec fn chat_payload(message: Seq<u8>) -> Seq<u8> {
    seq![0u8, message.len() as u8] + message
}

/// The length field of a framed packet reads back as the number of bytes
/// that follow it, and a packet that fits is five bytes longer than its
/// data.
pub proof fn lemma_framed_packet_length(id: u16, data: Seq<u8>)
    requires
        fits_packet(data),
    ensures
        framed_packet(id, data).len() == 3 + PACKET_ID_SIZE + data.len(),
        framed_packet(id, data)[0] * 0x1_0000 + framed_packet(id, data)[1] * 0x100 + framed_packet(
            id,
            data,
        )[2] == framed_packet(id, data).len() - 3,
        framed_packet(id, data)[3] * 0x100 + framed_packet(id, data)[4] == id,
        framed_packet(id, data).subrange(5, framed_packet(id, data).len() as int) == data,
{
    assert(framed_packet(id, data).subrange(5, framed_packet(id, data).len() as int) =~= data);
}

} // verus!
