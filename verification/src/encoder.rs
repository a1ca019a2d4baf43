//! The encoder: from a chat message to the offsets that transmit it.

use vstd::prelude::*;
use vstd::arithmetic::power2::lemma2_to64;
use vstd::utf8::encode_utf8;
use crate::bit_width::storable_bits;
use crate::bitpack::{pack_bits, packed_units};
use crate::error::EncodeError;
use crate::framing::{
    chat_payload, fits_chat, fits_packet, framed_packet, MAX_CHAT_MESSAGE_LENGTH, MAX_PACKET_LENGTH,
    PACKET_ID_CHAT, PACKET_ID_SIZE,
};
use crate::generator::ProxChatGenerator;
use crate::offset::Offset;
use crate::reach::reach_table;
use crate::reach_laws::lemma_reach_table_ordered;
use crate::table::OffsetTable;

verus! {

/// Encoder of packets into symbols and offsets.
pub struct ProxChatEncoder;

/// The symbols that `bytes` pack into at the width of the table.
pub open spec fn data_units(bytes: Seq<u8>) -> Seq<u32> {
    packed_units(bytes, storable_bits(reach_table().len()))
}

/// The two symbols that mark the start of a transmission.
pub open spec fn magic_units() -> Seq<u32> {
    seq![(reach_table().len() - 1) as u32, (reach_table().len() - 19) as u32]
}

/// Whether every symbol of `units` indexes the table.
pub open spec fn units_index_table(units: Seq<u32>) -> bool {
    forall|i: int| 0 <= i < units.len() ==> #[trigger] units[i] < reach_table().len()
}

/// The table entries that the symbols of `units` index, in order.
pub open spec fn unit_offsets(units: Seq<u32>) -> Seq<Offset> {
    Seq::new(units.len(), |i: int| reach_table()[units[i] as int])
}

/// The symbols that transmit a chat message of these bytes: the start
/// marker, then the framed chat payload packed at the width of the table.
pub open spec fn chat_units(message: Seq<u8>) -> Seq<u32> {
    magic_units() + data_units(framed_packet(PACKET_ID_CHAT, chat_payload(message)))
}

/// The offsets tell the symbols apart: since the table holds no offset
/// twice, two symbol sequences with the same offsets are the same.
pub proof fn lemma_unit_offsets_tell_units(first: Seq<u32>, second: Seq<u32>)
    requires
        units_index_table(first),
        units_index_table(second),
        unit_offsets(first) == unit_offsets(second),
    ensures
        first == second,
{
    lemma_reach_table_ordered();
    assert(first.len() == unit_offsets(first).len());
    assert(second.len() == unit_offsets(second).len());
    assert forall|i: int| 0 <= i < first.len() implies first[i] == second[i] by {
        assert(unit_offsets(first)[i] == reach_table()[first[i] as int]);
        assert(unit_offsets(second)[i] == reach_table()[second[i] as int]);
    }
    assert(first =~= second);
}

impl ProxChatEncoder {
    /// Encodes a chat message as the offsets that transmit it, in order.
    ///
    /// Fails when the message takes more bytes than the one byte of the chat
    /// payload that says its length can count.
    pub fn encode_prox_chat_packet(table: &OffsetTable, message: String) -> (result: Result<
        Vec<Offset>,
        EncodeError,
    >)
        ensures
            result is Ok <==> fits_chat(encode_utf8(message@)),
            result matches Ok(offsets) ==> offsets@ == unit_offsets(
                chat_units(encode_utf8(message@)),
            ),
            result matches Err(e) ==> e == EncodeError::PayloadTooLarge,
    {
        let id = PACKET_ID_CHAT;
        let data = match Self::encode_chat_payload(message.as_str().as_bytes()) {
            Ok(data) => data,
            Err(e) => {
                return Err(e);
            },
        };
        let proxdata = Self::encode_prox_packet(id, data.as_slice()).unwrap();

        let magic = ProxChatGenerator::packet_pdu_magic();
        let mut proxdataunits: Vec<u32> = Vec::new();
        proxdataunits.push(magic[0] as u32);
        proxdataunits.push(magic[1] as u32);
        let mut packed = Self::bytes_to_prox_data_units(proxdata.as_slice());
        proxdataunits.append(&mut packed);
        assert(proxdataunits@ =~= chat_units(encode_utf8(message@)));
        Ok(Self::data_units_to_offsets(table, proxdataunits))
    }

    /// Builds the chat payload for a message of these bytes.
    ///
    /// Fails when the message is longer than one byte can count.
    pub fn encode_chat_payload(message: &[u8]) -> (result: Result<Vec<u8>, EncodeError>)
        ensures
            result is Ok <==> fits_chat(message@),
            result matches Ok(data) ==> data@ == chat_payload(message@),
            result matches Err(e) ==> e == EncodeError::PayloadTooLarge,
    {
        if message.len() > MAX_CHAT_MESSAGE_LENGTH {
            return Err(EncodeError::PayloadTooLarge);
        }
        let mut data: Vec<u8> = Vec::new();
        data.push(0);
        data.push(message.len() as u8);
        data.extend_from_slice(message);
        assert(data@ =~= chat_payload(message@));
        Ok(data)
    }

    /// Frames `data` under the identifier `id`.
    ///
    /// Fails when the identifier and the data together are longer than the
    /// length field can say.
    pub fn encode_prox_packet(id: u16, data: &[u8]) -> (result: Result<Vec<u8>, EncodeError>)
        ensures
            result is Ok <==> fits_packet(data@),
            result matches Ok(packet) ==> packet@ == framed_packet(id, data@),
            result matches Err(e) ==> e == EncodeError::PayloadTooLarge,
    {
        if data.len() > MAX_PACKET_LENGTH - PACKET_ID_SIZE {
            return Err(EncodeError::PayloadTooLarge);
        }
        let length: u32 = (PACKET_ID_SIZE + data.len()) as u32;
        let mut bout: Vec<u8> = Vec::with_capacity(3 + PACKET_ID_SIZE + data.len());

        bout.push(((length >> 16) & 0xFF) as u8);
        bout.push(((length >> 8) & 0xFF) as u8);
        bout.push((length & 0xFF) as u8);

        bout.push(((id >> 8) & 0xFF) as u8);
        bout.push((id & 0xFF) as u8);

        bout.extend_from_slice(data);

        proof {
            assert((length >> 16) & 0xFF == length / 0x1_0000 % 0x100) by (bit_vector);
            assert((length >> 8) & 0xFF == length / 0x100 % 0x100) by (bit_vector);
            assert(length & 0xFF == length % 0x100) by (bit_vector);
            assert((id >> 8) & 0xFF == id / 0x100) by (bit_vector);
            assert(id & 0xFF == id % 0x100) by (bit_vector);
            assert(bout@ =~= framed_packet(id, data@));
        }
        Ok(bout)
    }

    /// Packs `input` into symbols of the width of the table. Every symbol
    /// indexes the table.
    pub fn bytes_to_prox_data_units(input: &[u8]) -> (units: Vec<u32>)
        ensures
            units@ == data_units(input@),
            units_index_table(units@),
    {
        let width = ProxChatGenerator::get_storable_bit_count();
        proof {
            lemma2_to64();
        }
        pack_bits(input, width as u32).unwrap()
    }

    /// Looks every symbol of `data_units` up in the table.
    pub fn data_units_to_offsets(table: &OffsetTable, data_units: Vec<u32>) -> (offsets: Vec<
        Offset,
    >)
        requires
            units_index_table(data_units@),
        ensures
            offsets@ == unit_offsets(data_units@),
    {
        let mut offsets: Vec<Offset> = Vec::new();
        let mut i: usize = 0;
        while i < data_units.len()
            invariant
                i <= data_units.len(),
                units_index_table(data_units@),
                offsets@ == unit_offsets(data_units@.take(i as int)),
            decreases data_units.len() - i,
        {
            let unit = data_units[i];
            assert(data_units@[i as int] < reach_table().len());
            offsets.push(table.get(unit as usize));
            assert(offsets@ =~= unit_offsets(data_units@.take(i + 1)));
            i = i + 1;
        }
        assert(data_units@.take(i as int) =~= data_units@);
        offsets
    }
}

} // verus!
