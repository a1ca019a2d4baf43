//! Construction of the reachability table.

use std::collections::HashMap;
use vstd::prelude::*;
use vstd::arithmetic::power2::pow2;
use crate::bit_width::{floor_log2, lemma_storable_bits_bounds, storable_bits};
use crate::offset::Offset;
use crate::reach::{axis_offset, axis_value, is_in_reach, reach_table, AXIS_STEPS};
use crate::reach_laws::{
    candidate_index, is_candidate, lemma_candidate_components, lemma_reach_table_len,
    lemma_reach_table_ordered, lemma_reach_table_prefix_ends, lemma_reach_table_prefix_step,
    reach_table_prefix, TABLE_SIZE,
};

verus! {

broadcast use vstd::std_specs::hash::group_hash_axioms;

/// Builder of the reachability table and of the quantities derived from it.
pub struct ProxChatGenerator;

/// The key under which the lookup map files an offset: its number in the
/// enumeration of candidates.
pub open spec fn lookup_key(o: Offset) -> u64 {
    candidate_index(o) as u64
}

/// Whether `lookup` maps the key of each entry of `table` to the index of
/// that entry, and nothing else.
pub open spec fn is_lookup_of(lookup: Map<u64, usize>, table: Seq<Offset>) -> bool {
    &&& forall|i: int|
        0 <= i < table.len() ==> lookup.contains_key(lookup_key(#[trigger] table[i]))
            && lookup[lookup_key(table[i])] == i
    &&& forall|key: u64| #[trigger]
        lookup.contains_key(key) ==> lookup[key] < table.len() && lookup_key(
            table[lookup[key] as int],
        ) == key
}

/// Computes the lookup key of an offset whose components are axis values.
pub fn offset_key(o: Offset) -> (key: u64)
    requires
        is_candidate(o),
    ensures
        key == lookup_key(o),
        key == candidate_index(o),
{
    169 * axis_position(o.x) + 13 * axis_position(o.y) + axis_position(o.z)
}

/// Computes the position of an axis value among the axis values.
fn axis_position(a: i32) -> (i: u64)
    requires
        -6 <= a <= 6,
    ensures
        i == crate::reach_laws::axis_index(a as int),
        i < AXIS_STEPS,
{
    if a > 0 {
        (2 * a - 1) as u64
    } else {
        (2 * (0 - a)) as u64
    }
}

impl ProxChatGenerator {
    /// Enumerates the candidates, `x` outermost and `z` innermost, and keeps
    /// those that are in reach.
    pub fn create_all_offsets() -> (offsets: Vec<Offset>)
        ensures
            offsets@ == reach_table(),
    {
        let mut offsets: Vec<Offset> = Vec::new();
        proof {
            lemma_reach_table_prefix_ends();
        }
        let mut xi: usize = 0;
        while xi < AXIS_STEPS
            invariant
                xi <= AXIS_STEPS,
                offsets@ == reach_table_prefix(169 * xi),
            decreases AXIS_STEPS - xi,
        {
            let x = axis_offset(xi);
            let mut yi: usize = 0;
            while yi < AXIS_STEPS
                invariant
                    xi < AXIS_STEPS,
                    yi <= AXIS_STEPS,
                    x == axis_value(xi as int),
                    offsets@ == reach_table_prefix(169 * xi + 13 * yi),
                decreases AXIS_STEPS - yi,
            {
                let y = axis_offset(yi);
                let mut zi: usize = 0;
                while zi < AXIS_STEPS
                    invariant
                        xi < AXIS_STEPS,
                        yi < AXIS_STEPS,
                        zi <= AXIS_STEPS,
                        x == axis_value(xi as int),
                        y == axis_value(yi as int),
                        offsets@ == reach_table_prefix(169 * xi + 13 * yi + zi),
                    decreases AXIS_STEPS - zi,
                {
                    let offset = Offset::new(x, y, axis_offset(zi));
                    proof {
                        lemma_candidate_components(xi as int, yi as int, zi as int);
                        lemma_reach_table_prefix_step(169 * xi + 13 * yi + zi);
                    }
                    if is_in_reach(offset) {
                        offsets.push(offset);
                    }
                    zi += 1;
                }
                yi += 1;
            }
            xi += 1;
        }
        offsets
    }

    /// Files every entry of the table under its lookup key, so that an
    /// offset can be traced back to its index.
    pub fn create_offset_lookup_map(offsets: &Vec<Offset>) -> (lookup: HashMap<u64, usize>)
        requires
            offsets@ == reach_table(),
        ensures
            is_lookup_of(lookup@, reach_table()),
    {
        let mut lookup: HashMap<u64, usize> = HashMap::new();
        proof {
            lemma_reach_table_ordered();
        }
        let mut index: usize = 0;
        while index < offsets.len()
            invariant
                index <= offsets.len(),
                offsets@ == reach_table(),
                is_lookup_of(lookup@, reach_table().take(index as int)),
                forall|i: int|
                    0 <= i < reach_table().len() ==> is_candidate(#[trigger] reach_table()[i]),
                forall|i: int, j: int|
                    0 <= i < j < reach_table().len() ==> candidate_index(
                        #[trigger] reach_table()[i],
                    ) < candidate_index(#[trigger] reach_table()[j]),
            decreases offsets.len() - index,
        {
            let offset = offsets[index];
            let key = offset_key(offset);
            let ghost before = lookup@;
            lookup.insert(key, index);
            proof {
                let shorter = reach_table().take(index as int);
                let longer = reach_table().take(index + 1);
                assert(longer[index as int] == offset);
                assert forall|i: int| 0 <= i < longer.len() implies lookup@.contains_key(
                    lookup_key(#[trigger] longer[i]),
                ) && lookup@[lookup_key(longer[i])] == i by {
                    if i < index {
                        assert(shorter[i] == longer[i]);
                        assert(candidate_index(reach_table()[i]) < candidate_index(
                            reach_table()[index as int],
                        ));
                    }
                }
                assert forall|k: u64| #[trigger] lookup@.contains_key(k) implies lookup@[k]
                    < longer.len() && lookup_key(longer[lookup@[k] as int]) == k by {
                    if k != key {
                        assert(before.contains_key(k));
                        assert(shorter[before[k] as int] == longer[before[k] as int]);
                    }
                }
            }
            index = index + 1;
        }
        assert(reach_table().take(index as int) =~= reach_table());
        lookup
    }

    /// The number of bits that one symbol carries: the widest width all of
    /// whose symbols index the table.
    pub fn get_storable_bit_count() -> (bits: i32)
        ensures
            bits == storable_bits(reach_table().len()),
            pow2(bits as nat) <= reach_table().len() < pow2((bits + 1) as nat),
            bits == 9,
    {
        proof {
            lemma_reach_table_len();
            lemma_storable_bits_bounds(TABLE_SIZE as nat);
            lemma_storable_bits_of_table_size();
        }
        floor_log2(Self::get_max_prox_data_unit()) as i32
    }

    /// The number of entries of the table, which bounds the symbols from
    /// above.
    pub fn get_max_prox_data_unit() -> (size: usize)
        ensures
            size == reach_table().len(),
            size == TABLE_SIZE,
    {
        proof {
            lemma_reach_table_len();
        }
        TABLE_SIZE
    }

    /// The two symbols that mark the start of a transmission: the last
    /// symbol of the table and the one eighteen before it.
    pub fn packet_pdu_magic() -> (magic: [usize; 2])
        ensures
            reach_table().len() > 19,
            magic[0] == reach_table().len() - 1,
            magic[1] == reach_table().len() - 19,
    {
        let size = Self::get_max_prox_data_unit();
        [size - 1, size - 19]
    }
}

/// The table size lies between the ninth and the tenth power of two.
pub proof fn lemma_storable_bits_of_table_size()
    ensures
        storable_bits(TABLE_SIZE as nat) == 9,
{
    vstd::arithmetic::power2::lemma2_to64();
    crate::bit_width::lemma_storable_bits_widest(TABLE_SIZE as nat, 9);
    lemma_storable_bits_bounds(TABLE_SIZE as nat);
    if storable_bits(TABLE_SIZE as nat) > 9 {
        if storable_bits(TABLE_SIZE as nat) > 10 {
            vstd::arithmetic::power2::lemma_pow2_strictly_increases(
                10,
                storable_bits(TABLE_SIZE as nat),
            );
        }
    }
}

} // verus!
