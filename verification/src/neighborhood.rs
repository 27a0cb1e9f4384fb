//! Square neighborhoods of chunk positions.
use vstd::arithmetic::div_mod::{
    lemma_fundamental_div_mod, lemma_fundamental_div_mod_converse,
};
use vstd::prelude::*;

verus! {

/// Radius of the area whose chunks must be carved before a chunk is decorated.
///
/// A decoration pass writes within radius 1 and reads from neighbors within
/// distance 1, and passes run in an area of radius 1 around the target.
pub const FEATURE_RADIUS: i32 = 3;

/// Radius of the area whose decoration passes run for one target chunk.
pub const PASS_RADIUS: i32 = 1;

/// Radius of the area that a decoration pass writes to.
pub const WRITE_RADIUS: i32 = 1;

/// The position `(x, z)` lies in the square of the given radius around
/// `(chunk_x, chunk_z)`.
pub open spec fn in_area(chunk_x: i32, chunk_z: i32, radius: int, pos: (i32, i32)) -> bool {
    &&& chunk_x - radius <= pos.0 <= chunk_x + radius
    &&& chunk_z - radius <= pos.1 <= chunk_z + radius
}

/// All positions of the square of the given radius are positions: none of its
/// coordinates leaves the range of `i32`.
pub open spec fn area_fits(chunk_x: i32, chunk_z: i32, radius: int) -> bool {
    &&& i32::MIN <= chunk_x - radius && chunk_x + radius <= i32::MAX
    &&& i32::MIN <= chunk_z - radius && chunk_z + radius <= i32::MAX
}

/// The positions of the square of the given radius around `(chunk_x, chunk_z)`,
/// column by column: by `x` first and by `z` within one `x`.
pub open spec fn area(chunk_x: i32, chunk_z: i32, radius: int) -> Seq<(i32, i32)>
    recommends
        radius >= 0,
        area_fits(chunk_x, chunk_z, radius),
{
    let side = 2 * radius + 1;
    Seq::new(
        (side * side) as nat,
        |i: int| ((chunk_x - radius + i / side) as i32, (chunk_z - radius + i % side) as i32),
    )
}

/// Place of the position `(chunk_x + dx, chunk_z + dz)` in [`area`].
pub open spec fn area_index(radius: int, dx: int, dz: int) -> int {
    (dx + radius) * (2 * radius + 1) + (dz + radius)
}

/// [`area`] lists every position of the square, at the place that
/// [`area_index`] gives.
pub proof fn lemma_area_at(chunk_x: i32, chunk_z: i32, radius: int, pos: (i32, i32))
    requires
        radius >= 0,
        area_fits(chunk_x, chunk_z, radius),
        in_area(chunk_x, chunk_z, radius, pos),
    ensures
        ({
            let i = area_index(radius, pos.0 - chunk_x, pos.1 - chunk_z);
            0 <= i < area(chunk_x, chunk_z, radius).len() && area(chunk_x, chunk_z, radius)[i] == pos
        }),
{
    let side = 2 * radius + 1;
    let row = pos.0 - chunk_x + radius;
    let column = pos.1 - chunk_z + radius;
    let i = row * side + column;
    assert(0 <= row * side && row * side <= (side - 1) * side) by (nonlinear_arith)
        requires
            0 <= row <= side - 1,
            side > 0,
    ;
    assert((side - 1) * side == side * side - side) by (nonlinear_arith);
    lemma_fundamental_div_mod_converse(i, side, row, column);
}

/// Every position that [`area`] lists lies in the square, and at no other place
/// than [`area_index`] gives.
pub proof fn lemma_area_member(chunk_x: i32, chunk_z: i32, radius: int, i: int)
    requires
        radius >= 0,
        area_fits(chunk_x, chunk_z, radius),
        0 <= i < area(chunk_x, chunk_z, radius).len(),
    ensures
        in_area(chunk_x, chunk_z, radius, area(chunk_x, chunk_z, radius)[i]),
        ({
            let pos = area(chunk_x, chunk_z, radius)[i];
            i == area_index(radius, pos.0 - chunk_x, pos.1 - chunk_z)
        }),
{
    let side = 2 * radius + 1;
    assert(side * side >= 0) by (nonlinear_arith)
        requires
            side > 0,
    ;
    lemma_fundamental_div_mod(i, side);
    let row = i / side;
    let column = i % side;
    assert(i == row * side + column) by (nonlinear_arith)
        requires
            i == side * row + column,
    ;
    assert(0 <= column < side) by (nonlinear_arith)
        requires
            side > 0,
            column == i % side,
    ;
    assert(0 <= row && row < side) by (nonlinear_arith)
        requires
            0 <= i < side * side,
            i == side * row + column,
            0 <= column < side,
            side > 0,
    ;
}

/// [`area`] lists exactly the positions of the square, each once.
pub proof fn lemma_area_is_the_square(chunk_x: i32, chunk_z: i32, radius: int)
    requires
        radius >= 0,
        area_fits(chunk_x, chunk_z, radius),
    ensures
        area(chunk_x, chunk_z, radius).len() == (2 * radius + 1) * (2 * radius + 1),
        area(chunk_x, chunk_z, radius).no_duplicates(),
        forall|pos: (i32, i32)| #[trigger]
            area(chunk_x, chunk_z, radius).contains(pos) <==> in_area(chunk_x, chunk_z, radius, pos),
{
    let positions = area(chunk_x, chunk_z, radius);
    let side = 2 * radius + 1;
    assert(side * side >= 0) by (nonlinear_arith)
        requires
            side > 0,
    ;
    assert forall|i: int, j: int|
        0 <= i < positions.len() && 0 <= j < positions.len() && i != j implies positions[i]
        != positions[j] by {
        lemma_area_member(chunk_x, chunk_z, radius, i);
        lemma_area_member(chunk_x, chunk_z, radius, j);
    }
    assert forall|pos: (i32, i32)| #[trigger]
        positions.contains(pos) <==> in_area(chunk_x, chunk_z, radius, pos) by {
        if in_area(chunk_x, chunk_z, radius, pos) {
            lemma_area_at(chunk_x, chunk_z, radius, pos);
        }
        if positions.contains(pos) {
            let i = choose|i: int| 0 <= i < positions.len() && positions[i] == pos;
            lemma_area_member(chunk_x, chunk_z, radius, i);
        }
    }
}

/// The neighborhood of a chunk is 7 by 7 chunks, and its passes are those of 3 by
/// 3 chunks.
pub proof fn lemma_area_sizes(chunk_x: i32, chunk_z: i32)
    ensures
        area(chunk_x, chunk_z, FEATURE_RADIUS as int).len() == 7 * 7,
        area(chunk_x, chunk_z, PASS_RADIUS as int).len() == 3 * 3,
{
    assert(2 * FEATURE_RADIUS + 1 == 7);
    assert(2 * PASS_RADIUS + 1 == 3);
}

/// Whether the neighborhood that decoration needs around a chunk can be named:
/// no coordinate of it leaves the range of `i32`.
pub fn neighborhood_fits(chunk_x: i32, chunk_z: i32) -> (fits: bool)
    ensures
        fits == area_fits(chunk_x, chunk_z, FEATURE_RADIUS as int),
{
    chunk_x >= i32::MIN + FEATURE_RADIUS && chunk_x <= i32::MAX - FEATURE_RADIUS && chunk_z
        >= i32::MIN + FEATURE_RADIUS && chunk_z <= i32::MAX - FEATURE_RADIUS
}

/// The positions of the square of the given radius around a chunk, by `x` first
/// and by `z` within one `x`.
pub(crate) fn area_positions(chunk_x: i32, chunk_z: i32, radius: i32) -> (positions: Vec<(i32, i32)>)
    requires
        0 <= radius <= FEATURE_RADIUS,
        area_fits(chunk_x, chunk_z, radius as int),
    ensures
        positions@ == area(chunk_x, chunk_z, radius as int),
{
    let ghost side = 2 * radius + 1;
    let ghost listed = area(chunk_x, chunk_z, radius as int);
    let mut positions: Vec<(i32, i32)> = Vec::new();
    let mut dx: i32 = -radius;
    assert((dx + radius) * side == 0) by (nonlinear_arith)
        requires
            dx == -radius,
    ;
    while dx <= radius
        invariant
            0 <= radius <= FEATURE_RADIUS,
            -radius <= dx <= radius + 1,
            side == 2 * radius + 1,
            area_fits(chunk_x, chunk_z, radius as int),
            listed == area(chunk_x, chunk_z, radius as int),
            positions@.len() == (dx + radius) * side,
            positions@.len() <= listed.len(),
            forall|i: int| 0 <= i < positions@.len() ==> positions@[i] == #[trigger] listed[i],
        decreases radius + 1 - dx,
    {
        let mut dz: i32 = -radius;
        while dz <= radius
            invariant
                0 <= radius <= FEATURE_RADIUS,
                -radius <= dx <= radius,
                -radius <= dz <= radius + 1,
                side == 2 * radius + 1,
                area_fits(chunk_x, chunk_z, radius as int),
                listed == area(chunk_x, chunk_z, radius as int),
                positions@.len() == (dx + radius) * side + (dz + radius),
                positions@.len() <= listed.len(),
                forall|i: int| 0 <= i < positions@.len() ==> positions@[i] == #[trigger] listed[i],
            decreases radius + 1 - dz,
        {
            proof {
                lemma_area_at(
                    chunk_x,
                    chunk_z,
                    radius as int,
                    ((chunk_x + dx) as i32, (chunk_z + dz) as i32),
                );
            }
            positions.push((chunk_x + dx, chunk_z + dz));
            dz = dz + 1;
        }
        assert((dx + radius) * side + side == (dx + 1 + radius) * side) by (nonlinear_arith);
        dx = dx + 1;
    }
    assert(positions@ =~= listed);
    positions
}

/// A square holds the positions that are no further from its center than its
/// radius, in both coordinates, and it fits where its corners are positions.
pub proof fn lemma_square_by_distance(chunk_x: i32, chunk_z: i32, radius: int, pos: (i32, i32))
    ensures
        in_area(chunk_x, chunk_z, radius, pos) <==> -radius <= pos.0 - chunk_x <= radius && -radius
            <= pos.1 - chunk_z <= radius,
        radius >= 0 ==> (area_fits(chunk_x, chunk_z, radius) <==> chunk_x - radius >= i32::MIN
            && chunk_x + radius <= i32::MAX && chunk_z - radius >= i32::MIN && chunk_z + radius
            <= i32::MAX),
{
}

/// The neighborhood of a chunk is listed column by column: the position `b` rows
/// into the column `a` of the seven stands at place `7 * a + b`.
pub proof fn lemma_neighborhood_in_order(chunk_x: i32, chunk_z: i32, a: int, b: int)
    requires
        0 <= a < 7,
        0 <= b < 7,
        i32::MIN + 3 <= chunk_x <= i32::MAX - 3,
        i32::MIN + 3 <= chunk_z <= i32::MAX - 3,
    ensures
        area_fits(chunk_x, chunk_z, FEATURE_RADIUS as int),
        area(chunk_x, chunk_z, FEATURE_RADIUS as int).len() == 49,
        area(chunk_x, chunk_z, FEATURE_RADIUS as int)[7 * a + b].0 == chunk_x - 3 + a,
        area(chunk_x, chunk_z, FEATURE_RADIUS as int)[7 * a + b].1 == chunk_z - 3 + b,
{
    let pos = ((chunk_x - 3 + a) as i32, (chunk_z - 3 + b) as i32);
    lemma_area_at(chunk_x, chunk_z, FEATURE_RADIUS as int, pos);
    assert(area_index(FEATURE_RADIUS as int, pos.0 - chunk_x, pos.1 - chunk_z) == 7 * a + b);
    lemma_area_sizes(chunk_x, chunk_z);
}

/// The area of the passes of a chunk, and the area that a pass writes to, are
/// listed column by column: the position `b` rows into the column `a` of the
/// three stands at place `3 * a + b`.
pub proof fn lemma_passes_in_order(chunk_x: i32, chunk_z: i32, a: int, b: int)
    requires
        0 <= a < 3,
        0 <= b < 3,
        i32::MIN + 1 <= chunk_x <= i32::MAX - 1,
        i32::MIN + 1 <= chunk_z <= i32::MAX - 1,
    ensures
        PASS_RADIUS == WRITE_RADIUS,
        area_fits(chunk_x, chunk_z, PASS_RADIUS as int),
        area(chunk_x, chunk_z, PASS_RADIUS as int).len() == 9,
        area(chunk_x, chunk_z, PASS_RADIUS as int)[3 * a + b].0 == chunk_x - 1 + a,
        area(chunk_x, chunk_z, PASS_RADIUS as int)[3 * a + b].1 == chunk_z - 1 + b,
{
    let pos = ((chunk_x - 1 + a) as i32, (chunk_z - 1 + b) as i32);
    lemma_area_at(chunk_x, chunk_z, PASS_RADIUS as int, pos);
    assert(area_index(PASS_RADIUS as int, pos.0 - chunk_x, pos.1 - chunk_z) == 3 * a + b);
    lemma_area_sizes(chunk_x, chunk_z);
}

/// `one` stands before `other` in the order of [`area`]: by the first coordinate,
/// and by the second where the first is the same.
pub open spec fn comes_before(one: (i32, i32), other: (i32, i32)) -> bool {
    one.0 < other.0 || (one.0 == other.0 && one.1 < other.1)
}

/// [`area`] lists its positions in ascending order.
pub proof fn lemma_area_ascends(chunk_x: i32, chunk_z: i32, radius: int)
    requires
        radius >= 0,
        area_fits(chunk_x, chunk_z, radius),
    ensures
        forall|i: int, j: int|
            0 <= i < j < area(chunk_x, chunk_z, radius).len() ==> comes_before(
                #[trigger] area(chunk_x, chunk_z, radius)[i],
                #[trigger] area(chunk_x, chunk_z, radius)[j],
            ),
{
    let positions = area(chunk_x, chunk_z, radius);
    let side = 2 * radius + 1;
    assert forall|i: int, j: int| 0 <= i < j < positions.len() implies comes_before(
        #[trigger] positions[i],
        #[trigger] positions[j],
    ) by {
        lemma_area_member(chunk_x, chunk_z, radius, i);
        lemma_area_member(chunk_x, chunk_z, radius, j);
        let p = positions[i];
        let q = positions[j];
        let a = p.0 - chunk_x + radius;
        let b = q.0 - chunk_x + radius;
        let c = p.1 - chunk_z + radius;
        let d = q.1 - chunk_z + radius;
        assert(i == a * side + c && j == b * side + d);
        assert(a < b || (a == b && c < d)) by (nonlinear_arith)
            requires
                a * side + c < b * side + d,
                0 <= c < side,
                0 <= d < side,
        ;
    }
}

/// What a filter keeps of positions in ascending order is in ascending order.
pub(crate) proof fn lemma_filter_ascends(
    all: Seq<(i32, i32)>,
    keep: spec_fn((i32, i32)) -> bool,
)
    requires
        forall|i: int, j: int|
            0 <= i < j < all.len() ==> comes_before(#[trigger] all[i], #[trigger] all[j]),
    ensures
        forall|i: int, j: int|
            0 <= i < j < all.filter(keep).len() ==> comes_before(
                #[trigger] all.filter(keep)[i],
                #[trigger] all.filter(keep)[j],
            ),
    decreases all.len(),
{
    reveal(Seq::filter);
    if all.len() > 0 {
        let rest = all.drop_last();
        let kept = rest.filter(keep);
        assert forall|i: int, j: int| 0 <= i < j < rest.len() implies comes_before(
            #[trigger] rest[i],
            #[trigger] rest[j],
        ) by {
            assert(comes_before(all[i], all[j]));
        }
        lemma_filter_ascends(rest, keep);
        assert forall|i: int| 0 <= i < kept.len() implies comes_before(
            #[trigger] kept[i],
            all.last(),
        ) by {
            rest.lemma_filter_contains_rev(keep, kept[i]);
            let j = choose|j: int| 0 <= j < rest.len() && rest[j] == kept[i];
            assert(comes_before(all[j], all[all.len() - 1]));
        }
    }
}

} // verus!
