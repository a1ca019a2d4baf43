use prox_chat::bit_width::floor_log2;
use prox_chat::generator::{offset_key, ProxChatGenerator};
use prox_chat::offset::Offset;
use prox_chat::reach::{axis_offset, is_in_reach};
use prox_chat::reach_laws::TABLE_SIZE;
use prox_chat::table::OffsetTable;

fn far_corner_distance(o: Offset) -> i32 {
    let side = |a: i32| (2 * a.abs() + 1) * (2 * a.abs() + 1);
    side(o.x) + side(o.y) + side(o.z)
}

#[test]
fn axis_values_alternate_outwards() {
    let values: Vec<i32> = (0..13).map(axis_offset).collect();
    assert_eq!(values, vec![0, 1, -1, 2, -2, 3, -3, 4, -4, 5, -5, 6, -6]);
}

#[test]
fn table_has_611_entries() {
    assert_eq!(ProxChatGenerator::create_all_offsets().len(), 611);
    assert_eq!(ProxChatGenerator::get_max_prox_data_unit(), 611);
    assert_eq!(TABLE_SIZE, 611);
    assert_eq!(OffsetTable::new().len(), 611);
}

#[test]
fn table_starts_and_ends_as_enumerated() {
    let table = ProxChatGenerator::create_all_offsets();
    assert_eq!(table[0], Offset::new(0, 0, 0));
    assert_eq!(table[1], Offset::new(0, 0, 1));
    assert_eq!(table[2], Offset::new(0, 0, -1));
    assert_eq!(table[10], Offset::new(0, 0, -5));
    assert_eq!(table[11], Offset::new(0, 1, 0));
    assert_eq!(table[88], Offset::new(0, -5, -1));
    assert_eq!(table[89], Offset::new(1, 0, 0));
    assert_eq!(table[511], Offset::new(-3, -3, 2));
    assert_eq!(table[592], Offset::new(-4, -3, -1));
    assert_eq!(table[610], Offset::new(-5, -1, -1));
}

#[test]
fn table_is_the_same_at_every_build() {
    let first = ProxChatGenerator::create_all_offsets();
    let second = ProxChatGenerator::create_all_offsets();
    assert_eq!(first, second);
    assert_eq!(OffsetTable::new().offsets(), &first);
}

#[test]
fn every_entry_is_within_reach_of_all_corners() {
    for o in ProxChatGenerator::create_all_offsets() {
        for cx in 0..2 {
            for cy in 0..2 {
                for cz in 0..2 {
                    let dx = o.x as f64 + 0.5 - cx as f64;
                    let dy = o.y as f64 + 0.5 - cy as f64;
                    let dz = o.z as f64 + 0.5 - cz as f64;
                    assert!(dx * dx + dy * dy + dz * dz <= 36.0);
                }
            }
        }
        assert!(is_in_reach(o));
    }
}

#[test]
fn offsets_just_outside_are_excluded() {
    let table = OffsetTable::new();
    // (5, 1, 1) is the farthest entry along x; one step further on any
    // axis leaves the reach.
    assert!(is_in_reach(Offset::new(5, 1, 1)));
    for o in [
        Offset::new(6, 0, 0),
        Offset::new(-6, 0, 0),
        Offset::new(0, 6, 0),
        Offset::new(0, 0, -6),
        Offset::new(5, 2, 0),
        Offset::new(5, 1, 2),
        Offset::new(-5, -2, 0),
        Offset::new(4, 4, 0),
        Offset::new(3, 3, 3),
        Offset::new(7, 0, 0),
    ] {
        assert!(!is_in_reach(o));
        assert!(far_corner_distance(o) > 144);
        assert_eq!(table.index_of(o), None);
    }
}

#[test]
fn offsets_far_away_are_excluded() {
    let table = OffsetTable::new();
    for o in [
        Offset::new(i32::MAX, 0, 0),
        Offset::new(0, i32::MIN, 0),
        Offset::new(i32::MIN, i32::MAX, i32::MIN),
        Offset::new(0, 0, 1000),
    ] {
        assert!(!is_in_reach(o));
        assert_eq!(table.index_of(o), None);
    }
}

#[test]
fn the_far_corner_decides() {
    // (-5, -1, -1) is within 36 of the corner (0, 0, 0) only just:
    // 4.5^2 + 0.5^2 + 0.5^2 = 20.75, but from the corner (1, 1, 1) it is
    // 5.5^2 + 1.5^2 + 1.5^2 = 34.75.
    assert!(is_in_reach(Offset::new(-5, -1, -1)));
    // (4, 3, 1) is 4.5^2 + 3.5^2 + 1.5^2 = 34.75 from its far corner,
    // (4, 3, 2) is 4.5^2 + 3.5^2 + 2.5^2 = 38.75.
    assert!(is_in_reach(Offset::new(4, 3, 1)));
    assert!(!is_in_reach(Offset::new(4, 3, 2)));
}

#[test]
fn membership_matches_the_far_corner_distance() {
    let table = ProxChatGenerator::create_all_offsets();
    let mut count = 0;
    for x in -7..=7 {
        for y in -7..=7 {
            for z in -7..=7 {
                let o = Offset::new(x, y, z);
                let expected = far_corner_distance(o) <= 144;
                assert_eq!(is_in_reach(o), expected);
                assert_eq!(table.contains(&o), expected);
                if expected {
                    count += 1;
                }
            }
        }
    }
    assert_eq!(count, 611);
}

#[test]
fn lookup_leads_back_to_the_index() {
    let table = OffsetTable::new();
    for index in 0..table.len() {
        assert_eq!(table.index_of(table.get(index)), Some(index));
    }
    assert_eq!(table.index_of(Offset::new(1, -2, 3)), Some(136));
    assert_eq!(table.index_of(Offset::new(0, 0, 0)), Some(0));
}

#[test]
fn lookup_map_holds_every_entry_once() {
    let offsets = ProxChatGenerator::create_all_offsets();
    let lookup = ProxChatGenerator::create_offset_lookup_map(&offsets);
    assert_eq!(lookup.len(), 611);
    assert_eq!(lookup.get(&offset_key(Offset::new(0, 0, 1))), Some(&1));
    assert_eq!(lookup.get(&offset_key(Offset::new(-5, -1, -1))), Some(&610));
    assert_eq!(lookup.get(&offset_key(Offset::new(6, 6, 6))), None);
}

#[test]
fn offset_key_is_the_candidate_number() {
    assert_eq!(offset_key(Offset::new(0, 0, 0)), 0);
    assert_eq!(offset_key(Offset::new(0, 0, 1)), 1);
    assert_eq!(offset_key(Offset::new(0, 0, -1)), 2);
    assert_eq!(offset_key(Offset::new(0, 1, 0)), 13);
    assert_eq!(offset_key(Offset::new(1, 0, 0)), 169);
    assert_eq!(offset_key(Offset::new(-6, -6, -6)), 2196);
}

#[test]
fn bit_count_is_the_floor_of_the_logarithm() {
    assert_eq!(ProxChatGenerator::get_storable_bit_count(), 9);
    let n = ProxChatGenerator::get_max_prox_data_unit();
    let w = ProxChatGenerator::get_storable_bit_count() as u32;
    assert!((1usize << w) <= n && n < (1usize << (w + 1)));
}

#[test]
fn floor_log2_values() {
    assert_eq!(floor_log2(0), 0);
    assert_eq!(floor_log2(1), 0);
    assert_eq!(floor_log2(2), 1);
    assert_eq!(floor_log2(3), 1);
    assert_eq!(floor_log2(4), 2);
    assert_eq!(floor_log2(511), 8);
    assert_eq!(floor_log2(512), 9);
    assert_eq!(floor_log2(611), 9);
    assert_eq!(floor_log2(1023), 9);
    assert_eq!(floor_log2(1024), 10);
    assert_eq!(floor_log2(usize::MAX), usize::BITS - 1);
}

#[test]
fn magic_symbols_are_last_and_eighteen_before() {
    let n = ProxChatGenerator::get_max_prox_data_unit();
    assert!(n > 19);
    assert_eq!(ProxChatGenerator::packet_pdu_magic(), [n - 1, n - 19]);
    assert_eq!(ProxChatGenerator::packet_pdu_magic(), [610, 592]);
}
