//! The reachability table as a value: built once, then only read.

use std::collections::HashMap;
use vstd::prelude::*;
use crate::generator::{is_lookup_of, lookup_key, offset_key, ProxChatGenerator};
use crate::offset::Offset;
use crate::reach::{in_reach, lemma_far_offset_out_of_reach, reach_table};
use crate::reach_laws::{
    lemma_candidate_of_candidate_index, lemma_reach_table_contains, lemma_reach_table_len,
    lemma_reach_table_ordered, TABLE_SIZE,
};

verus! {

broadcast use vstd::std_specs::hash::group_hash_axioms;

/// The reachability table together with the map that leads from an offset
/// back to its index.
///
/// Every value of this type holds the same table, `reach_table()`.
pub struct OffsetTable {
    offsets: Vec<Offset>,
    lookup: HashMap<u64, usize>,
}

impl View for OffsetTable {
    type V = Seq<Offset>;

    /// The entries, in table order.
    closed spec fn view(&self) -> Seq<Offset> {
        self.offsets@
    }
}

impl OffsetTable {
    #[verifier::type_invariant]
    spec fn well_formed(&self) -> bool {
        &&& self.offsets@ == reach_table()
        &&& is_lookup_of(self.lookup@, reach_table())
    }

    /// Builds the table and its lookup map.
    pub fn new() -> (table: OffsetTable)
        ensures
            table@ == reach_table(),
    {
        let offsets = ProxChatGenerator::create_all_offsets();
        let lookup = ProxChatGenerator::create_offset_lookup_map(&offsets);
        OffsetTable { offsets, lookup }
    }

    /// The number of entries.
    pub fn len(&self) -> (n: usize)
        ensures
            n == reach_table().len(),
            n == TABLE_SIZE,
    {
        proof {
            use_type_invariant(self);
            lemma_reach_table_len();
        }
        self.offsets.len()
    }

    /// The entry at `index`.
    pub fn get(&self, index: usize) -> (o: Offset)
        requires
            index < reach_table().len(),
        ensures
            o == reach_table()[index as int],
    {
        proof {
            use_type_invariant(self);
        }
        self.offsets[index]
    }

    /// All entries, in table order.
    pub fn offsets(&self) -> (entries: &Vec<Offset>)
        ensures
            entries@ == self@,
            entries@ == reach_table(),
    {
        proof {
            use_type_invariant(self);
        }
        &self.offsets
    }

    /// The index at which the table holds `o`, if it holds it: exactly the
    /// offsets in reach have one.
    pub fn index_of(&self, o: Offset) -> (found: Option<usize>)
        ensures
            found is Some <==> in_reach(o),
            found matches Some(index) ==> index < reach_table().len() && reach_table()[index as int]
                == o,
    {
        proof {
            use_type_invariant(self);
            lemma_reach_table_contains(o);
            lemma_reach_table_ordered();
        }
        if o.x < -6 || o.x > 6 || o.y < -6 || o.y > 6 || o.z < -6 || o.z > 6 {
            proof {
                lemma_far_offset_out_of_reach(o);
            }
            return None;
        }
        let key = offset_key(o);
        match self.lookup.get(&key) {
            Some(index) => {
                proof {
                    let entry = reach_table()[*index as int];
                    lemma_candidate_of_candidate_index(entry);
                    lemma_candidate_of_candidate_index(o);
                }
                Some(*index)
            },
            None => {
                proof {
                    if reach_table().contains(o) {
                        let i = choose|i: int| 0 <= i < reach_table().len() && reach_table()[i] == o;
                        assert(self.lookup@.contains_key(lookup_key(reach_table()[i])));
                    }
                }
                None
            },
        }
    }
}

} // verus!
