//! What rotations of channel pairs and conversions of boxes are, as numbers.
use crate::boxes::coordinate;
use crate::corners::greater;
use crate::dtype::is_floating;
use crate::elements::{
    joined_values_follow_one_another, lemma_unravel, narrowing_shifts_one_axis, ravel,
    reshape_keeps_the_order, stacked_values_are_its_slices, unbound_values_are_slices,
    unit_axes_hold_the_same_elements, within,
};
use crate::facts::group_extents;
use crate::graph::{Expr, Value};
use crate::indexing::unbound;
use crate::numbers::{group_numbers, group_operands, spread_number, Numbers};
use crate::op::{Scalar, F32_HALF};
use crate::products::pulled;
use crate::rotary::RotaryLayout;
use crate::sound::axis_total;
use vstd::prelude::*;

verus! {

/// Where the two channels of a pair stand, in halves or side by side.
pub open spec fn pair_of(
    dims: Seq<i64>,
    layout: RotaryLayout,
    at: Seq<int>,
) -> (Seq<int>, Seq<int>) {
    let axis = dims.len() - 1;
    match layout {
        RotaryLayout::SplitHalf => (at, at.update(axis, at[axis] + dims[axis] / 2)),
        RotaryLayout::Interleaved => (
            at.update(axis, 2 * at[axis]),
            at.update(axis, 2 * at[axis] + 1),
        ),
    }
}

proof fn lemma_doubled(prefix: int, half: int, width: int, c: int, k: int)
    by (nonlinear_arith)
    requires
        width == 2 * half,
    ensures
        (prefix * half + c) * 2 + k == prefix * width + (2 * c + k),
{
}

/// A pair, as a new axis, keeps the place of its channels.
proof fn lemma_side_by_side(dims: Seq<i64>, half: Seq<i64>, at: Seq<int>, k: int)
    requires
        dims.len() > 0,
        dims.last() > 0,
        dims.last() as int % 2 == 0,
        half == dims.update(dims.len() - 1, (dims.last() / 2) as i64),
        within(half, at),
        0 <= k < 2,
    ensures
        ({
            let spot = at.update(dims.len() - 1, 2 * at.last() + k);
            &&& within(dims, spot)
            &&& within(half.push(2), at.push(k))
            &&& ravel(half.push(2), at.push(k)) == ravel(dims, spot)
        }),
{
    let axis = dims.len() - 1;
    let spot = at.update(axis, 2 * at.last() + k);
    let w = dims.last() as int;
    assert(0 <= at[axis] < half[axis]);
    assert(w == 2 * (w / 2));
    assert forall|i: int| 0 <= i < dims.len() implies 0 <= #[trigger] spot[i] < dims[i] by {
        assert(0 <= at[i] < half[i]);
    }
    let (longer, place) = (half.push(2), at.push(k));
    assert forall|i: int| 0 <= i < longer.len() implies 0 <= #[trigger] place[i] < longer[i] by {
        if i < half.len() {
            assert(0 <= at[i] < half[i]);
        }
    }
    assert(longer.drop_last() =~= half);
    assert(place.drop_last() =~= at);
    assert(half.drop_last() =~= dims.drop_last());
    assert(at.drop_last() =~= spot.drop_last());
    let p = ravel(dims.drop_last(), spot.drop_last());
    assert(ravel(half, at) == p * (w / 2) + at.last());
    assert(ravel(dims, spot) == p * w + (2 * at.last() + k));
    lemma_doubled(p, w / 2, w, at.last(), k);
}

/// Rotary embeddings turn every pair of channels by the angle whose cosine and
/// sine are given.
#[verifier::rlimit(40)]
pub proof fn rotary_embeddings_turn_pairs(
    n: Numbers,
    x: Expr,
    cos: Expr,
    sin: Expr,
    layout: RotaryLayout,
    at: Seq<int>,
)
    requires
        n.lawful(),
        x.rotary_embedding(cos, sin, layout) is Is,
        is_floating(cos->Is_0.dtype),
        x->Is_0.dims.len() < usize::MAX,
        within(
            x->Is_0.dims.update(x->Is_0.dims.len() - 1, (x->Is_0.dims.last() / 2) as i64),
            at,
        ),
    ensures
        ({
            let (i, j) = pair_of(x->Is_0.dims, layout, at);
            let (a, b) = (n.at(x, i), n.at(x, j));
            let c = n.at(cos, pulled(cos->Is_0.dims, at));
            let s = n.at(sin, pulled(sin->Is_0.dims, at));
            let z = x.rotary_embedding(cos, sin, layout);
            &&& n.at(z, i) == a * c - b * s
            &&& n.at(z, j) == b * c + a * s
        }),
{
    broadcast use {group_extents, group_operands, group_numbers};

    reveal(Expr::rotary_embedding);
    let v = x->Is_0;
    let dims = v.dims;
    let axis = (dims.len() - 1) as usize;
    let width = (dims.last() / 2) as i64;
    let half = dims.update(axis as int, width);
    let cosine = cos.broadcast_to(half);
    let sine = sin.broadcast_to(half);
    let (a, b) = x.rotary_pair(half, layout);
    let first = a.mul(cosine).sub(b.mul(sine));
    let second = b.mul(cosine).add(a.mul(sine));
    assert(first is Is && second is Is && a is Is && b is Is && cosine is Is && sine is Is);
    let (i, j) = pair_of(dims, layout, at);
    assert(0 <= at[axis as int] < half[axis as int]);
    assert(half.last() == width);
    assert(dims.last() == 2 * width);
    spread_number(n, cos, half, at);
    spread_number(n, sin, half, at);
    let deep = (axis + 1) as usize;
    match layout {
        RotaryLayout::SplitHalf => {
            narrowing_shifts_one_axis(x, axis, 0, width, at);
            narrowing_shifts_one_axis(x, axis, width, width, at);
            assert(at.update(axis as int, at[axis as int] + 0) =~= at);
        },
        RotaryLayout::Interleaved => {
            let paired = x.reshape(half.push(2));
            assert(paired is Is);
            let left = paired.narrow(deep, 0, 1);
            let right = paired.narrow(deep, 1, 1);
            assert(left is Is && right is Is);
            let unit = half.push(1);
            assert(half.push(2).update(deep as int, 1) =~= unit);
            assert(left->Is_0.dims =~= unit && right->Is_0.dims =~= unit);
            assert(unit.remove(deep as int) =~= half);
            assert(at.insert(deep as int, 0) =~= at.push(0));
            unit_axes_hold_the_same_elements(left, deep, at);
            unit_axes_hold_the_same_elements(right, deep, at);
            narrowing_shifts_one_axis(paired, deep, 0, 1, at.push(0));
            narrowing_shifts_one_axis(paired, deep, 1, 1, at.push(0));
            assert(at.push(0).update(deep as int, 0int + 0int) =~= at.push(0));
            assert(at.push(0).update(deep as int, 0int + 1int) =~= at.push(1));
            lemma_side_by_side(dims, half, at, 0);
            lemma_side_by_side(dims, half, at, 1);
            reshape_keeps_the_order(x, half.push(2), at.push(0));
            reshape_keeps_the_order(x, half.push(2), at.push(1));
            lemma_unravel(dims, i);
            lemma_unravel(dims, j);
        },
    }
    assert(a->Is_0.dims =~= half && b->Is_0.dims =~= half);
    assert(n.at(a, at) == n.at(x, i) && n.at(b, at) == n.at(x, j));
    assert(n.at(first, at) == n.at(a, at) * n.at(cosine, at) - n.at(b, at) * n.at(sine, at));
    assert(n.at(second, at) == n.at(b, at) * n.at(cosine, at) + n.at(a, at) * n.at(sine, at));
    let args = seq![first->Is_0, second->Is_0];
    match layout {
        RotaryLayout::SplitHalf => {
            assert(args[0].dims == half && args[1].dims == half);
            joined_values_follow_one_another(args, axis, 0, at);
            joined_values_follow_one_another(args, axis, 1, at);
            assert(axis_total(args.take(0), axis) == 0);
            assert(args.take(1).drop_last() =~= args.take(0));
            assert(axis_total(args.take(1), axis) == width) by {
                reveal_with_fuel(axis_total, 2);
            }
            assert(at.update(axis as int, 0 + at[axis as int]) =~= at);
        },
        RotaryLayout::Interleaved => {
            stacked_values_are_its_slices(args, deep, 0, at);
            stacked_values_are_its_slices(args, deep, 1, at);
            let stack = crate::indexing::stacked(args, deep);
            assert(half.insert(deep as int, 2) =~= half.push(2));
            assert(at.insert(deep as int, 0) =~= at.push(0));
            assert(at.insert(deep as int, 1) =~= at.push(1));
            reshape_keeps_the_order(stack, dims, i);
            reshape_keeps_the_order(stack, dims, j);
            lemma_unravel(half.push(2), at.push(0));
            lemma_unravel(half.push(2), at.push(1));
        },
    }
}

/// Rotations by angles take their cosines and sines.
#[verifier::rlimit(40)]
pub proof fn rotary_angles_are_in_radians(
    n: Numbers,
    x: Expr,
    angles: Expr,
    layout: RotaryLayout,
    at: Seq<int>,
)
    requires
        n.lawful(),
        x.rotary_embedding_angles(angles, layout) is Is,
        x->Is_0.dims.len() < usize::MAX,
        within(
            x->Is_0.dims.update(x->Is_0.dims.len() - 1, (x->Is_0.dims.last() / 2) as i64),
            at,
        ),
        within(angles->Is_0.dims, pulled(angles->Is_0.dims, at)),
    ensures
        ({
            let (i, j) = pair_of(x->Is_0.dims, layout, at);
            let (a, b) = (n.at(x, i), n.at(x, j));
            let angle = n.at(angles, pulled(angles->Is_0.dims, at));
            let z = x.rotary_embedding_angles(angles, layout);
            &&& n.at(z, i) == a * (n.cos)(angle) - b * (n.sin)(angle)
            &&& n.at(z, j) == b * (n.cos)(angle) + a * (n.sin)(angle)
        }),
{
    broadcast use {group_extents, group_operands, group_numbers};

    assert(angles.cos() is Is && angles.sin() is Is) by {
        reveal(Expr::rotary_embedding);
    }
    rotary_embeddings_turn_pairs(n, x, angles.cos(), angles.sin(), layout, at);
}

/// The coordinates of boxes.
proof fn lemma_box_number(n: Numbers, x: Expr, k: int, index: Seq<int>)
    requires
        coordinate(x, k) is Is,
        x->Is_0.dims.len() <= usize::MAX,
        within(x->Is_0.dims.drop_last(), index),
        0 <= k < 4,
    ensures
        coordinate(x, k)->Is_0.dims == x->Is_0.dims.drop_last(),
        n.at(coordinate(x, k), index) == n.at(x, index.push(k)),
{
    let v = x->Is_0;
    let axis = (v.dims.len() - 1) as usize;
    assert(v.dims.remove(axis as int) =~= v.dims.drop_last());
    assert(unbound(v, axis) is Ok);
    unbound_values_are_slices(v, axis, k, index);
    assert(index.insert(axis as int, k) =~= index.push(k));
}

/// Four values stacked along a last axis.
proof fn lemma_box_stacked(n: Numbers, args: Seq<Value>, index: Seq<int>, k: int)
    requires
        args.len() == 4,
        crate::indexing::stacked(args, index.len() as usize) is Is,
        index.len() <= usize::MAX,
        within(args[0].dims, index),
        0 <= k < 4,
    ensures
        n.at(crate::indexing::stacked(args, index.len() as usize), index.push(k)) == n.of(
            args[k],
            index,
        ),
{
    stacked_values_are_its_slices(args, index.len() as usize, k, index);
    assert(index.insert(index.len() as int, k) =~= index.push(k));
}

/// The corners of a box lie half of its size to either side of its center.
#[verifier::rlimit(40)]
pub proof fn corners_surround_the_center(n: Numbers, x: Expr, index: Seq<int>)
    requires
        n.lawful(),
        x.box_cxcywh_to_xyxy() is Is,
        x->Is_0.dims.len() <= usize::MAX,
        within(x->Is_0.dims.drop_last(), index),
    ensures
        ({
            let z = x.box_cxcywh_to_xyxy();
            &&& n.at(z, index.push(0)) + n.at(z, index.push(2)) == 2 as real * n.at(
                x,
                index.push(0),
            )
            &&& n.at(z, index.push(1)) + n.at(z, index.push(3)) == 2 as real * n.at(
                x,
                index.push(1),
            )
            &&& n.at(z, index.push(2)) - n.at(z, index.push(0)) == n.at(x, index.push(2))
            &&& n.at(z, index.push(3)) - n.at(z, index.push(1)) == n.at(x, index.push(3))
        }),
{
    broadcast use {group_extents, group_operands, group_numbers};

    let (c0, c1) = (coordinate(x, 0), coordinate(x, 1));
    let half = Scalar::Bits(F32_HALF);
    let hw = coordinate(x, 2).mul_scalar(half);
    let hh = coordinate(x, 3).mul_scalar(half);
    assert(c0 is Is && c1 is Is && hw is Is && hh is Is);
    lemma_box_number(n, x, 0, index);
    lemma_box_number(n, x, 1, index);
    lemma_box_number(n, x, 2, index);
    lemma_box_number(n, x, 3, index);
    let (z0, z1, z2, z3) = (c0.sub(hw), c1.sub(hh), c0.add(hw), c1.add(hh));
    assert(z0 is Is && z1 is Is && z2 is Is && z3 is Is);
    let args = seq![z0->Is_0, z1->Is_0, z2->Is_0, z3->Is_0];
    lemma_box_stacked(n, args, index, 0);
    lemma_box_stacked(n, args, index, 1);
    lemma_box_stacked(n, args, index, 2);
    lemma_box_stacked(n, args, index, 3);
    let w = n.at(x, index.push(2));
    let h = n.at(x, index.push(3));
    lemma_halved(w, (n.literal)(F32_HALF));
    lemma_halved(h, (n.literal)(F32_HALF));
    assert(n.at(z0, index) == n.at(c0, index) - n.at(hw, index));
    assert(n.at(z1, index) == n.at(c1, index) - n.at(hh, index));
    assert(n.at(z2, index) == n.at(c0, index) + n.at(hw, index));
    assert(n.at(z3, index) == n.at(c1, index) + n.at(hh, index));
}

proof fn lemma_halved(a: real, half: real)
    by (nonlinear_arith)
    requires
        2 as real * half == 1 as real,
    ensures
        2 as real * (a * half) == a,
        a * half + a * half == a,
{
}

/// The center of a box is the mean of its corners, its size their difference.
#[verifier::rlimit(40)]
pub proof fn centers_halve_the_corners(n: Numbers, x: Expr, index: Seq<int>)
    requires
        n.lawful(),
        x.box_xyxy_to_cxcywh() is Is,
        x->Is_0.dims.len() <= usize::MAX,
        within(x->Is_0.dims.drop_last(), index),
    ensures
        ({
            let z = x.box_xyxy_to_cxcywh();
            &&& 2 as real * n.at(z, index.push(0)) == n.at(x, index.push(0)) + n.at(
                x,
                index.push(2),
            )
            &&& 2 as real * n.at(z, index.push(1)) == n.at(x, index.push(1)) + n.at(
                x,
                index.push(3),
            )
            &&& n.at(z, index.push(2)) == n.at(x, index.push(2)) - n.at(x, index.push(0))
            &&& n.at(z, index.push(3)) == n.at(x, index.push(3)) - n.at(x, index.push(1))
        }),
{
    broadcast use {group_extents, group_operands, group_numbers};

    let (c0, c1, c2, c3) = (
        coordinate(x, 0),
        coordinate(x, 1),
        coordinate(x, 2),
        coordinate(x, 3),
    );
    let half = Scalar::Bits(F32_HALF);
    let z0 = c0.mul_scalar(half).add(c2.mul_scalar(half));
    let z1 = c1.mul_scalar(half).add(c3.mul_scalar(half));
    let (z2, z3) = (c2.sub(c0), c3.sub(c1));
    assert(z0 is Is && z1 is Is && z2 is Is && z3 is Is);
    assert(c0 is Is && c1 is Is && c2 is Is && c3 is Is);
    lemma_box_number(n, x, 0, index);
    lemma_box_number(n, x, 1, index);
    lemma_box_number(n, x, 2, index);
    lemma_box_number(n, x, 3, index);
    let args = seq![z0->Is_0, z1->Is_0, z2->Is_0, z3->Is_0];
    lemma_box_stacked(n, args, index, 0);
    lemma_box_stacked(n, args, index, 1);
    lemma_box_stacked(n, args, index, 2);
    lemma_box_stacked(n, args, index, 3);
    lemma_halved(n.at(c0, index), (n.literal)(F32_HALF));
    lemma_halved(n.at(c1, index), (n.literal)(F32_HALF));
    lemma_halved(n.at(c2, index), (n.literal)(F32_HALF));
    lemma_halved(n.at(c3, index), (n.literal)(F32_HALF));
    assert(n.at(z0, index) == n.at(c0.mul_scalar(half), index) + n.at(c2.mul_scalar(half), index));
    assert(n.at(z1, index) == n.at(c1.mul_scalar(half), index) + n.at(c3.mul_scalar(half), index));
    assert(n.at(z2, index) == n.at(c2, index) - n.at(c0, index));
    assert(n.at(z3, index) == n.at(c3, index) - n.at(c1, index));
}

/// The area of a box is the product of its sizes, none below zero.
#[verifier::rlimit(40)]
pub proof fn areas_multiply_the_sizes(n: Numbers, x: Expr, index: Seq<int>)
    requires
        n.lawful(),
        x.box_area() is Is,
        x->Is_0.dims.len() <= usize::MAX,
        within(x->Is_0.dims.drop_last(), index),
    ensures
        n.at(x.box_area(), index) == greater(
            n.at(x, index.push(2)) - n.at(x, index.push(0)),
            0 as real,
        ) * greater(n.at(x, index.push(3)) - n.at(x, index.push(1)), 0 as real),
{
    broadcast use {group_extents, group_operands, group_numbers};

    reveal(Expr::box_area);
    let (c0, c1, c2, c3) = (
        coordinate(x, 0),
        coordinate(x, 1),
        coordinate(x, 2),
        coordinate(x, 3),
    );
    let (w, h) = (c2.sub(c0), c3.sub(c1));
    assert(x.box_area() == w.relu().mul(h.relu()));
    assert(w is Is && h is Is && c0 is Is && c1 is Is && c2 is Is && c3 is Is);
    lemma_box_number(n, x, 0, index);
    lemma_box_number(n, x, 1, index);
    lemma_box_number(n, x, 2, index);
    lemma_box_number(n, x, 3, index);
    assert(n.at(w, index) == n.at(c2, index) - n.at(c0, index));
    assert(n.at(h, index) == n.at(c3, index) - n.at(c1, index));
    assert(n.at(w.relu(), index) == greater(n.at(w, index), 0 as real));
    assert(n.at(h.relu(), index) == greater(n.at(h, index), 0 as real));
}

} // verus!
