//! Facts about the reachability table: what it contains, in which order, and
//! how many entries it has.

use vstd::prelude::*;
use vstd::arithmetic::div_mod::lemma_fundamental_div_mod_converse;
use crate::offset::Offset;
use crate::reach::{
    axis_value, candidate, candidates, far_side, in_reach, lemma_far_offset_out_of_reach,
    lemma_in_reach_by_far_corner, reach_predicate, reach_table, AXIS_STEPS, CANDIDATE_COUNT,
    REACH_LIMIT,
};

verus! {

/// The number of entries of the reachability table.
pub const TABLE_SIZE: usize = 611;

/// The part of the reachability table that the first `k` candidates
/// contribute.
pub open spec fn reach_table_prefix(k: int) -> Seq<Offset> {
    candidates().take(k).filter(reach_predicate())
}

/// The position of the axis value `a` among the axis values.
pub open spec fn axis_index(a: int) -> int {
    if a > 0 {
        2 * a - 1
    } else {
        -2 * a
    }
}

/// The position of `o` in the enumeration of candidates, for an `o` with
/// every component between -6 and 6.
pub open spec fn candidate_index(o: Offset) -> int {
    169 * axis_index(o.x as int) + 13 * axis_index(o.y as int) + axis_index(o.z as int)
}

/// Whether every component of `o` is an axis value.
pub open spec fn is_candidate(o: Offset) -> bool {
    -6 <= o.x <= 6 && -6 <= o.y <= 6 && -6 <= o.z <= 6
}

/// Examining one more candidate appends it to the table exactly when it is
/// in reach.
pub proof fn lemma_reach_table_prefix_step(k: int)
    requires
        0 <= k < CANDIDATE_COUNT,
    ensures
        reach_table_prefix(k + 1) == if in_reach(candidate(k)) {
            reach_table_prefix(k).push(candidate(k))
        } else {
            reach_table_prefix(k)
        },
{
    assert(candidates().take(k + 1) =~= candidates().take(k).push(candidate(k)));
    candidates().take(k).lemma_filter_push(candidate(k), reach_predicate());
}

/// Before any candidate is examined the table is empty, and once all are
/// examined it is complete.
pub proof fn lemma_reach_table_prefix_ends()
    ensures
        reach_table_prefix(0) == Seq::<Offset>::empty(),
        reach_table_prefix(CANDIDATE_COUNT as int) == reach_table(),
{
    assert(candidates().take(0) =~= Seq::<Offset>::empty());
    assert(reach_table_prefix(0) =~= Seq::<Offset>::empty()) by {
        reveal(Seq::filter);
    }
    assert(candidates().take(CANDIDATE_COUNT as int) =~= candidates());
}

/// The candidate at position `(xi, yi, zi)` of the enumeration has the axis
/// values of those positions as its components.
pub proof fn lemma_candidate_components(xi: int, yi: int, zi: int)
    requires
        0 <= xi < AXIS_STEPS,
        0 <= yi < AXIS_STEPS,
        0 <= zi < AXIS_STEPS,
    ensures
        0 <= 169 * xi + 13 * yi + zi < CANDIDATE_COUNT,
        candidate(169 * xi + 13 * yi + zi) == (Offset {
            x: axis_value(xi) as i32,
            y: axis_value(yi) as i32,
            z: axis_value(zi) as i32,
        }),
{
    let k = 169 * xi + 13 * yi + zi;
    lemma_fundamental_div_mod_converse(k, 169, xi, 13 * yi + zi);
    lemma_fundamental_div_mod_converse(k, 13, 13 * xi + yi, zi);
    lemma_fundamental_div_mod_converse(13 * xi + yi, 13, xi, yi);
}

/// `candidate_index` undoes `candidate`.
pub proof fn lemma_candidate_index_of_candidate(k: int)
    requires
        0 <= k < CANDIDATE_COUNT,
    ensures
        is_candidate(candidate(k)),
        candidate_index(candidate(k)) == k,
{
    let xi = k / 169;
    let yi = k / 13 % 13;
    let zi = k % 13;
    assert(k == 13 * (k / 13) + k % 13);
    assert(k / 13 == 13 * (k / 13 / 13) + k / 13 % 13);
    lemma_fundamental_div_mod_converse(k, 169, k / 13 / 13, 13 * yi + zi);
    assert(axis_index(axis_value(xi)) == xi);
    assert(axis_index(axis_value(yi)) == yi);
    assert(axis_index(axis_value(zi)) == zi);
}

/// `candidate` undoes `candidate_index`.
pub proof fn lemma_candidate_of_candidate_index(o: Offset)
    requires
        is_candidate(o),
    ensures
        0 <= candidate_index(o) < CANDIDATE_COUNT,
        candidate(candidate_index(o)) == o,
{
    let xi = axis_index(o.x as int);
    let yi = axis_index(o.y as int);
    let zi = axis_index(o.z as int);
    lemma_candidate_components(xi, yi, zi);
    assert(axis_value(xi) == o.x);
    assert(axis_value(yi) == o.y);
    assert(axis_value(zi) == o.z);
}

/// The entries that the first `k` candidates contribute are in reach, come
/// from among those candidates, and appear in enumeration order.
pub proof fn lemma_reach_table_prefix_entries(k: int)
    requires
        0 <= k <= CANDIDATE_COUNT,
    ensures
        forall|i: int|
            0 <= i < reach_table_prefix(k).len() ==> {
                let o = #[trigger] reach_table_prefix(k)[i];
                in_reach(o) && is_candidate(o) && 0 <= candidate_index(o) < k
            },
        forall|i: int, j: int|
            0 <= i < j < reach_table_prefix(k).len() ==> candidate_index(
                #[trigger] reach_table_prefix(k)[i],
            ) < candidate_index(#[trigger] reach_table_prefix(k)[j]),
    decreases k,
{
    if k == 0 {
        lemma_reach_table_prefix_ends();
    } else {
        lemma_reach_table_prefix_entries(k - 1);
        lemma_reach_table_prefix_step(k - 1);
        lemma_candidate_index_of_candidate(k - 1);
    }
}

/// The table holds exactly the offsets that are in reach.
pub proof fn lemma_reach_table_contains(o: Offset)
    ensures
        reach_table().contains(o) <==> in_reach(o),
{
    lemma_reach_table_prefix_ends();
    lemma_reach_table_prefix_entries(CANDIDATE_COUNT as int);
    if in_reach(o) {
        if !is_candidate(o) {
            lemma_far_offset_out_of_reach(o);
        }
        lemma_candidate_of_candidate_index(o);
        let k = candidate_index(o);
        assert(candidates()[k] == o);
        candidates().lemma_filter_contains(reach_predicate(), k);
    }
}

/// Every entry of the table is in reach and has all its components between
/// -6 and 6, and the entries appear in the order of the candidate
/// enumeration; in particular no offset occurs twice.
pub proof fn lemma_reach_table_ordered()
    ensures
        forall|i: int|
            0 <= i < reach_table().len() ==> in_reach(#[trigger] reach_table()[i]) && is_candidate(
                reach_table()[i],
            ),
        forall|i: int, j: int|
            0 <= i < j < reach_table().len() ==> candidate_index(#[trigger] reach_table()[i])
                < candidate_index(#[trigger] reach_table()[j]),
        reach_table().no_duplicates(),
{
    lemma_reach_table_prefix_ends();
    lemma_reach_table_prefix_entries(CANDIDATE_COUNT as int);
    assert forall|i: int, j: int|
        0 <= i < reach_table().len() && 0 <= j < reach_table().len() && i != j implies reach_table()[i]
        != reach_table()[j] by {
        if i < j {
            assert(candidate_index(reach_table()[i]) < candidate_index(reach_table()[j]));
        } else {
            assert(candidate_index(reach_table()[j]) < candidate_index(reach_table()[i]));
        }
    }
}

/// How many of the first `n` axis values have a far side within `budget`.
pub open spec fn axis_count(budget: int, n: int) -> int
    decreases n,
{
    if n <= 0 {
        0
    } else {
        axis_count(budget, n - 1) + if far_side(axis_value(n - 1)) <= budget {
            1int
        } else {
            0int
        }
    }
}

/// How many offsets are in reach among those whose first free component is
/// one of the first `n` axis values and whose second free component is any
/// axis value, when `budget` is what the fixed component leaves of the
/// reach limit.
pub open spec fn plane_count(budget: int, n: int) -> int
    decreases n,
{
    if n <= 0 {
        0
    } else {
        plane_count(budget, n - 1) + axis_count(
            budget - far_side(axis_value(n - 1)),
            AXIS_STEPS as int,
        )
    }
}

/// How many offsets are in reach among those whose `x` component is one of
/// the first `n` axis values.
pub open spec fn space_count(n: int) -> int
    decreases n,
{
    if n <= 0 {
        0
    } else {
        space_count(n - 1) + plane_count(
            REACH_LIMIT - far_side(axis_value(n - 1)),
            AXIS_STEPS as int,
        )
    }
}

/// The number of axis values with a far side within `budget`, in closed
/// form: the far sides are the squares of the odd numbers 1 to 13, each but
/// the first taken by two axis values.
pub open spec fn axis_total(budget: int) -> int {
    if budget < 1 {
        0
    } else if budget < 9 {
        1
    } else if budget < 25 {
        3
    } else if budget < 49 {
        5
    } else if budget < 81 {
        7
    } else if budget < 121 {
        9
    } else if budget < 169 {
        11
    } else {
        13
    }
}

/// The number of in-reach offsets of a plane, in closed form.
pub open spec fn plane_total(budget: int) -> int {
    axis_total(budget - 1) + 2 * (axis_total(budget - 9) + axis_total(budget - 25) + axis_total(
        budget - 49,
    ) + axis_total(budget - 81) + axis_total(budget - 121) + axis_total(budget - 169))
}

proof fn lemma_far_side_values(m: int)
    by (nonlinear_arith)
    requires
        0 <= m,
    ensures
        far_side(m) == 4 * m * m + 4 * m + 1,
        far_side(-m) == 4 * m * m + 4 * m + 1,
{
}

proof fn lemma_axis_far_sides()
    ensures
        far_side(axis_value(0)) == 1,
        far_side(axis_value(1)) == 9,
        far_side(axis_value(2)) == 9,
        far_side(axis_value(3)) == 25,
        far_side(axis_value(4)) == 25,
        far_side(axis_value(5)) == 49,
        far_side(axis_value(6)) == 49,
        far_side(axis_value(7)) == 81,
        far_side(axis_value(8)) == 81,
        far_side(axis_value(9)) == 121,
        far_side(axis_value(10)) == 121,
        far_side(axis_value(11)) == 169,
        far_side(axis_value(12)) == 169,
{
    lemma_far_side_values(0);
    lemma_far_side_values(1);
    lemma_far_side_values(2);
    lemma_far_side_values(3);
    lemma_far_side_values(4);
    lemma_far_side_values(5);
    lemma_far_side_values(6);
}

proof fn lemma_axis_total(budget: int)
    ensures
        axis_count(budget, AXIS_STEPS as int) == axis_total(budget),
{
    lemma_axis_far_sides();
    reveal_with_fuel(axis_count, 14);
}

proof fn lemma_plane_total(budget: int)
    ensures
        plane_count(budget, AXIS_STEPS as int) == plane_total(budget),
{
    lemma_axis_far_sides();
    reveal_with_fuel(plane_count, 14);
    lemma_axis_total(budget - 1);
    lemma_axis_total(budget - 9);
    lemma_axis_total(budget - 25);
    lemma_axis_total(budget - 49);
    lemma_axis_total(budget - 81);
    lemma_axis_total(budget - 121);
    lemma_axis_total(budget - 169);
}

proof fn lemma_space_total()
    ensures
        space_count(AXIS_STEPS as int) == TABLE_SIZE,
{
    lemma_axis_far_sides();
    reveal_with_fuel(space_count, 14);
    lemma_plane_total(REACH_LIMIT - 1);
    lemma_plane_total(REACH_LIMIT - 9);
    lemma_plane_total(REACH_LIMIT - 25);
    lemma_plane_total(REACH_LIMIT - 49);
    lemma_plane_total(REACH_LIMIT - 81);
    lemma_plane_total(REACH_LIMIT - 121);
    lemma_plane_total(REACH_LIMIT - 169);
}

proof fn lemma_row_len(xi: int, yi: int, n: int)
    requires
        0 <= xi < AXIS_STEPS,
        0 <= yi < AXIS_STEPS,
        0 <= n <= AXIS_STEPS,
    ensures
        reach_table_prefix(169 * xi + 13 * yi + n).len() == reach_table_prefix(
            169 * xi + 13 * yi,
        ).len() + axis_count(REACH_LIMIT - far_side(axis_value(xi)) - far_side(axis_value(yi)), n),
    decreases n,
{
    if n > 0 {
        lemma_row_len(xi, yi, n - 1);
        lemma_candidate_components(xi, yi, n - 1);
        lemma_reach_table_prefix_step(169 * xi + 13 * yi + n - 1);
        lemma_in_reach_by_far_corner(candidate(169 * xi + 13 * yi + n - 1));
    }
}

proof fn lemma_plane_len(xi: int, n: int)
    requires
        0 <= xi < AXIS_STEPS,
        0 <= n <= AXIS_STEPS,
    ensures
        reach_table_prefix(169 * xi + 13 * n).len() == reach_table_prefix(169 * xi).len()
            + plane_count(REACH_LIMIT - far_side(axis_value(xi)), n),
    decreases n,
{
    if n > 0 {
        lemma_plane_len(xi, n - 1);
        lemma_row_len(xi, n - 1, AXIS_STEPS as int);
    }
}

proof fn lemma_space_len(n: int)
    requires
        0 <= n <= AXIS_STEPS,
    ensures
        reach_table_prefix(169 * n).len() == space_count(n),
    decreases n,
{
    if n > 0 {
        lemma_space_len(n - 1);
        lemma_plane_len(n - 1, AXIS_STEPS as int);
    } else {
        lemma_reach_table_prefix_ends();
    }
}

/// The reachability table has exactly `TABLE_SIZE` entries.
pub proof fn lemma_reach_table_len()
    ensures
        reach_table().len() == TABLE_SIZE,
{
    lemma_space_len(AXIS_STEPS as int);
    lemma_space_total();
    lemma_reach_table_prefix_ends();
}

} // verus!
