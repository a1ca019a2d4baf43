use prox_chat::bitpack::pack_bits;
use prox_chat::encoder::ProxChatEncoder;
use prox_chat::error::EncodeError;
use prox_chat::framing::{PACKET_ID_CHAT, PACKET_ID_EMOTECRAFT, PACKET_ID_PATPAT_PATENTITY};
use prox_chat::offset::Offset;
use prox_chat::table::OffsetTable;

fn unpack(units: &[u32], width: u32, len: usize) -> Vec<u8> {
    let bit = |k: usize| (units[k / width as usize] >> (k % width as usize)) & 1;
    (0..len).map(|i| (0..8).map(|t| (bit(8 * i + t) as u8) << t).sum()).collect()
}

#[test]
fn packet_identifiers() {
    assert_eq!(PACKET_ID_CHAT, 1);
    assert_eq!(PACKET_ID_PATPAT_PATENTITY, 2);
    assert_eq!(PACKET_ID_EMOTECRAFT, 3);
}

#[test]
fn framing_no_data() {
    // Three bytes of length (2), two bytes of identifier (1), no data.
    assert_eq!(ProxChatEncoder::encode_prox_packet(1, &[]), Ok(vec![0, 0, 2, 0, 1]));
}

#[test]
fn framing_is_big_endian() {
    assert_eq!(
        ProxChatEncoder::encode_prox_packet(0x1234, &[9, 8, 7]),
        Ok(vec![0, 0, 5, 0x12, 0x34, 9, 8, 7])
    );
    let data = vec![0xAB; 0x01_02_03 - 2];
    let packet = ProxChatEncoder::encode_prox_packet(0xFFFF, &data).unwrap();
    assert_eq!(packet.len(), 3 + 0x01_02_03);
    assert_eq!(&packet[..5], &[1, 2, 3, 0xFF, 0xFF]);
    assert_eq!(&packet[5..], &data[..]);
}

#[test]
fn framing_rejects_what_the_length_field_cannot_say() {
    let longest = vec![0u8; 0xFF_FFFF - 2];
    let packet = ProxChatEncoder::encode_prox_packet(1, &longest).unwrap();
    assert_eq!(&packet[..3], &[0xFF, 0xFF, 0xFF]);
    let too_long = vec![0u8; 0xFF_FFFF - 1];
    assert_eq!(
        ProxChatEncoder::encode_prox_packet(1, &too_long),
        Err(EncodeError::PayloadTooLarge)
    );
}

#[test]
fn chat_message_hi_is_framed() {
    let data = ProxChatEncoder::encode_chat_payload("hi".as_bytes()).unwrap();
    assert_eq!(data, vec![0, 2, 0x68, 0x69]);
    let framed = ProxChatEncoder::encode_prox_packet(PACKET_ID_CHAT, &data).unwrap();
    assert_eq!(framed, vec![0, 0, 6, 0, 1, 0, 2, 0x68, 0x69]);
}

#[test]
fn chat_payload_length_limit() {
    let longest = vec![b'a'; 255];
    let data = ProxChatEncoder::encode_chat_payload(&longest).unwrap();
    assert_eq!(data.len(), 257);
    assert_eq!(&data[..2], &[0, 255]);
    assert_eq!(
        ProxChatEncoder::encode_chat_payload(&vec![b'a'; 256]),
        Err(EncodeError::PayloadTooLarge)
    );
}

#[test]
fn packing_nothing_gives_nothing() {
    assert_eq!(pack_bits(&[], 3), Ok(vec![]));
    assert_eq!(ProxChatEncoder::bytes_to_prox_data_units(&[]), Vec::<u32>::new());
}

#[test]
fn packing_ff_at_width_three() {
    let units = pack_bits(&[0xFF], 3).unwrap();
    assert_eq!(units, vec![7, 7, 3]);
    assert_eq!(unpack(&units, 3, 1), vec![0xFF]);
}

#[test]
fn packing_exact_values() {
    assert_eq!(pack_bits(&[0xAB, 0xCD], 4), Ok(vec![11, 10, 13, 12]));
    assert_eq!(pack_bits(&[1, 2, 3], 9), Ok(vec![1, 385, 0]));
    assert_eq!(pack_bits(&[0x80], 1), Ok(vec![0, 0, 0, 0, 0, 0, 0, 1]));
    assert_eq!(pack_bits(&[0xFF; 4], 32), Ok(vec![u32::MAX]));
    assert_eq!(pack_bits(&[0x78, 0x56, 0x34, 0x12, 0x01], 32), Ok(vec![0x1234_5678, 1]));
    assert_eq!(ProxChatEncoder::bytes_to_prox_data_units(&[1, 2, 3]), vec![1, 385, 0]);
}

#[test]
fn packing_rejects_widths_out_of_range() {
    assert_eq!(pack_bits(&[1], 0), Err(EncodeError::BitWidthOutOfRange));
    assert_eq!(pack_bits(&[1], 33), Err(EncodeError::BitWidthOutOfRange));
    assert_eq!(pack_bits(&[], 0), Err(EncodeError::BitWidthOutOfRange));
}

#[test]
fn packing_round_trips_at_every_width() {
    let bytes: Vec<u8> = (0..=255u8).chain([0x5A, 0xC3, 0xFF, 0x00, 0x81]).collect();
    for width in 1..=32u32 {
        let units = pack_bits(&bytes, width).unwrap();
        assert_eq!(units.len(), (8 * bytes.len() + width as usize - 1) / width as usize);
        assert!(units.iter().all(|&u| (u as u64) < (1u64 << width)));
        let mut padded = units.clone();
        padded.push(0);
        assert_eq!(unpack(&padded, width, bytes.len()), bytes);
    }
}

#[test]
fn table_width_symbols_index_the_table() {
    let bytes = vec![0xFF; 90];
    let units = ProxChatEncoder::bytes_to_prox_data_units(&bytes);
    assert_eq!(units.len(), 80);
    assert!(units.iter().all(|&u| u == 511));
    let table = OffsetTable::new();
    let offsets = ProxChatEncoder::data_units_to_offsets(&table, units);
    assert!(offsets.iter().all(|&o| o == Offset::new(-3, -3, 2)));
}

#[test]
fn units_map_to_table_entries() {
    let table = OffsetTable::new();
    assert_eq!(
        ProxChatEncoder::data_units_to_offsets(&table, vec![0, 1, 2, 610, 592, 136, 1]),
        vec![
            Offset::new(0, 0, 0),
            Offset::new(0, 0, 1),
            Offset::new(0, 0, -1),
            Offset::new(-5, -1, -1),
            Offset::new(-4, -3, -1),
            Offset::new(1, -2, 3),
            Offset::new(0, 0, 1),
        ]
    );
    assert_eq!(ProxChatEncoder::data_units_to_offsets(&table, vec![]), vec![]);
}

#[test]
fn chat_message_hi_end_to_end() {
    let table = OffsetTable::new();
    let offsets = ProxChatEncoder::encode_prox_chat_packet(&table, "hi".to_string()).unwrap();
    let expected: Vec<Offset> = [
        (-5, -1, -1),
        (-4, -3, -1),
        (0, 0, 0),
        (-1, -4, -1),
        (0, 0, 1),
        (0, -1, -5),
        (0, 0, 0),
        (0, 1, 3),
        (3, 1, -1),
        (-1, -1, -5),
    ]
    .iter()
    .map(|&(x, y, z)| Offset::new(x, y, z))
    .collect();
    assert_eq!(offsets, expected);
    let units: Vec<usize> = offsets.iter().map(|&o| table.index_of(o).unwrap()).collect();
    assert_eq!(units, vec![610, 592, 0, 256, 1, 32, 0, 16, 416, 210]);
}

#[test]
fn empty_chat_message_end_to_end() {
    let table = OffsetTable::new();
    let offsets = ProxChatEncoder::encode_prox_chat_packet(&table, String::new()).unwrap();
    let units: Vec<usize> = offsets.iter().map(|&o| table.index_of(o).unwrap()).collect();
    assert_eq!(units, vec![610, 592, 0, 0, 1, 32, 0, 0, 0]);
}

#[test]
fn chat_message_length_counts_bytes() {
    let table = OffsetTable::new();
    // 85 characters of three bytes each make 255 bytes; one more byte is
    // too many.
    let longest = "\u{20AC}".repeat(85);
    let offsets = ProxChatEncoder::encode_prox_chat_packet(&table, longest.clone()).unwrap();
    assert_eq!(offsets.len(), 2 + (8 * (5 + 2 + 255) + 8) / 9);
    assert_eq!(
        ProxChatEncoder::encode_prox_chat_packet(&table, longest + "a"),
        Err(EncodeError::PayloadTooLarge)
    );
}

#[test]
fn chat_offsets_start_with_the_magic_symbols() {
    let table = OffsetTable::new();
    let offsets = ProxChatEncoder::encode_prox_chat_packet(&table, "hello".to_string()).unwrap();
    assert_eq!(offsets[0], table.get(table.len() - 1));
    assert_eq!(offsets[1], table.get(table.len() - 19));
}

#[test]
fn error_messages() {
    assert_eq!(EncodeError::PayloadTooLarge.message(), "payload too large");
    assert_eq!(EncodeError::BitWidthOutOfRange.message(), "bit width out of range");
}
