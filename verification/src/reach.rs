//! The geometry of reach: which block offsets can be interacted with from
//! anywhere inside the origin block, and the canonical order in which they
//! are enumerated.
//!
//! All distances are measured in half blocks, so that block centres (which
//! sit at half-integer coordinates) and cube corners are both integers and
//! every comparison is exact.

use vstd::prelude::*;
use crate::offset::Offset;

verus! {

/// How many values each axis component of a candidate offset ranges over.
pub const AXIS_STEPS: usize = 13;

/// How many candidate offsets are examined: `AXIS_STEPS` cubed.
pub const CANDIDATE_COUNT: usize = 2197;

/// The squared interaction radius of six blocks, in squared half blocks.
pub const REACH_LIMIT: i32 = 144;

/// The `i`-th value an axis component takes: `0, 1, -1, 2, -2, ..., 6, -6`.
pub open spec fn axis_value(i: int) -> int {
    if i % 2 == 0 {
        -(i / 2)
    } else {
        (i + 1) / 2
    }
}

/// The `k`-th candidate offset. Candidates are enumerated with the `x`
/// component varying slowest and the `z` component varying fastest.
pub open spec fn candidate(k: int) -> Offset {
    Offset {
        x: axis_value(k / 169) as i32,
        y: axis_value(k / 13 % 13) as i32,
        z: axis_value(k % 13) as i32,
    }
}

/// Every candidate offset, in enumeration order.
pub open spec fn candidates() -> Seq<Offset> {
    Seq::new(CANDIDATE_COUNT as nat, |k: int| candidate(k))
}

/// Four times the squared Euclidean distance between the centre of the block
/// at `o` and the corner `(cx, cy, cz)` of the origin block.
pub open spec fn corner_distance(o: Offset, cx: int, cy: int, cz: int) -> int {
    let dx = 2 * o.x + 1 - 2 * cx;
    let dy = 2 * o.y + 1 - 2 * cy;
    let dz = 2 * o.z + 1 - 2 * cz;
    dx * dx + dy * dy + dz * dz
}

/// Whether `c` is a coordinate of a corner of the origin block.
pub open spec fn is_corner_coordinate(c: int) -> bool {
    c == 0 || c == 1
}

/// An offset is in reach when the centre of its block lies within the
/// interaction radius of all eight corners of the origin block.
pub open spec fn in_reach(o: Offset) -> bool {
    forall|cx: int, cy: int, cz: int|
        is_corner_coordinate(cx) && is_corner_coordinate(cy) && is_corner_coordinate(cz)
            ==> #[trigger] corner_distance(o, cx, cy, cz) <= REACH_LIMIT
}

/// `in_reach` as a predicate value, for filtering.
pub open spec fn reach_predicate() -> spec_fn(Offset) -> bool {
    |o: Offset| in_reach(o)
}

/// The reachability table: the candidates that are in reach, in enumeration
/// order.
pub open spec fn reach_table() -> Seq<Offset> {
    candidates().filter(reach_predicate())
}

/// Computes the `i`-th axis value.
pub fn axis_offset(i: usize) -> (v: i32)
    requires
        i < AXIS_STEPS,
    ensures
        v == axis_value(i as int),
{
    if i % 2 == 0 {
        -((i / 2) as i32)
    } else {
        ((i + 1) / 2) as i32
    }
}

/// The decomposition of a corner number `0..8` into corner coordinates.
pub open spec fn corner_of(c: int) -> (int, int, int) {
    (c / 4, c / 2 % 2, c % 2)
}

/// Decides whether `o` is in reach, giving up at the first corner that is
/// too far away.
pub fn is_in_reach(o: Offset) -> (r: bool)
    ensures
        r == in_reach(o),
{
    if o.x < -6 || o.x > 6 || o.y < -6 || o.y > 6 || o.z < -6 || o.z > 6 {
        proof {
            lemma_far_offset_out_of_reach(o);
        }
        return false;
    }
    let mut c: i32 = 0;
    while c < 8
        invariant
            0 <= c <= 8,
            -6 <= o.x <= 6,
            -6 <= o.y <= 6,
            -6 <= o.z <= 6,
            forall|b: int|
                0 <= b < c ==> corner_distance(o, corner_of(b).0, corner_of(b).1, corner_of(b).2)
                    <= REACH_LIMIT,
        decreases 8 - c,
    {
        let dx: i32 = 2 * o.x + 1 - 2 * (c / 4);
        let dy: i32 = 2 * o.y + 1 - 2 * (c / 2 % 2);
        let dz: i32 = 2 * o.z + 1 - 2 * (c % 2);
        assert(-13 <= dx <= 13 && -13 <= dy <= 13 && -13 <= dz <= 13);
        assert(0 <= dx * dx <= 169 && 0 <= dy * dy <= 169 && 0 <= dz * dz <= 169)
            by (nonlinear_arith)
            requires
                -13 <= dx <= 13,
                -13 <= dy <= 13,
                -13 <= dz <= 13,
        ;
        if dx * dx + dy * dy + dz * dz > REACH_LIMIT {
            let ghost corner = corner_of(c as int);
            assert(corner_distance(o, corner.0, corner.1, corner.2) > REACH_LIMIT);
            return false;
        }
        c += 1;
    }
    proof {
        assert forall|cx: int, cy: int, cz: int|
            is_corner_coordinate(cx) && is_corner_coordinate(cy) && is_corner_coordinate(
                cz,
            ) implies #[trigger] corner_distance(o, cx, cy, cz) <= REACH_LIMIT by {
            let b = 4 * cx + 2 * cy + cz;
            assert(corner_of(b) == (cx, cy, cz));
        }
    }
    true
}

/// The largest squared half-block distance, along one axis, between the
/// centre of a block at coordinate `a` and a corner of the origin block.
pub open spec fn far_side(a: int) -> int {
    if a >= 0 {
        (2 * a + 1) * (2 * a + 1)
    } else {
        (2 * a - 1) * (2 * a - 1)
    }
}

/// The corner coordinate of the origin block that is farthest from the
/// centre of a block at coordinate `a`.
pub open spec fn far_corner(a: int) -> int {
    if a >= 0 {
        0
    } else {
        1
    }
}

proof fn lemma_far_side_bounds(a: int, c: int)
    requires
        is_corner_coordinate(c),
    ensures
        (2 * a + 1 - 2 * c) * (2 * a + 1 - 2 * c) <= far_side(a),
        (2 * a + 1 - 2 * far_corner(a)) * (2 * a + 1 - 2 * far_corner(a)) == far_side(a),
        far_side(a) >= 1,
{
    assert((2 * a + 1 - 2 * c) * (2 * a + 1 - 2 * c) <= far_side(a)) by (nonlinear_arith)
        requires
            c == 0 || c == 1,
            far_side(a) == if a >= 0 {
                (2 * a + 1) * (2 * a + 1)
            } else {
                (2 * a - 1) * (2 * a - 1)
            },
    ;
    assert(far_side(a) >= 1) by (nonlinear_arith)
        requires
            far_side(a) == if a >= 0 {
                (2 * a + 1) * (2 * a + 1)
            } else {
                (2 * a - 1) * (2 * a - 1)
            },
    ;
}

/// Being in reach of all eight corners is the same as being in reach of the
/// farthest one.
pub proof fn lemma_in_reach_by_far_corner(o: Offset)
    ensures
        in_reach(o) <==> far_side(o.x as int) + far_side(o.y as int) + far_side(o.z as int)
            <= REACH_LIMIT,
{
    let (fx, fy, fz) = (far_corner(o.x as int), far_corner(o.y as int), far_corner(o.z as int));
    lemma_far_side_bounds(o.x as int, fx);
    lemma_far_side_bounds(o.y as int, fy);
    lemma_far_side_bounds(o.z as int, fz);
    assert(corner_distance(o, fx, fy, fz) == far_side(o.x as int) + far_side(o.y as int) + far_side(
        o.z as int,
    ));
    if far_side(o.x as int) + far_side(o.y as int) + far_side(o.z as int) <= REACH_LIMIT {
        assert forall|cx: int, cy: int, cz: int|
            is_corner_coordinate(cx) && is_corner_coordinate(cy) && is_corner_coordinate(
                cz,
            ) implies #[trigger] corner_distance(o, cx, cy, cz) <= REACH_LIMIT by {
            lemma_far_side_bounds(o.x as int, cx);
            lemma_far_side_bounds(o.y as int, cy);
            lemma_far_side_bounds(o.z as int, cz);
        }
    }
}

/// No offset with a component beyond six blocks is in reach.
pub proof fn lemma_far_offset_out_of_reach(o: Offset)
    requires
        o.x < -6 || o.x > 6 || o.y < -6 || o.y > 6 || o.z < -6 || o.z > 6,
    ensures
        !in_reach(o),
{
    lemma_in_reach_by_far_corner(o);
    lemma_far_side_bounds(o.x as int, 0);
    lemma_far_side_bounds(o.y as int, 0);
    lemma_far_side_bounds(o.z as int, 0);
    lemma_far_side_grows(o.x as int);
    lemma_far_side_grows(o.y as int);
    lemma_far_side_grows(o.z as int);
}

proof fn lemma_far_side_grows(a: int)
    ensures
        a < -6 || a > 6 ==> far_side(a) >= 225,
{
    if a > 6 {
        assert((2 * a + 1) * (2 * a + 1) >= 225) by (nonlinear_arith)
            requires
                a >= 7,
        ;
    }
    if a < -6 {
        assert((2 * a - 1) * (2 * a - 1) >= 225) by (nonlinear_arith)
            requires
                a <= -7,
        ;
    }
}

} // verus!
