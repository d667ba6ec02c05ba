//! What the overlaps of boxes measure, in exact arithmetic.
use crate::autodiff::lemma_collected;
use crate::boxes::{coordinate, is_boxes};
use crate::corners::{
    generalized_overlaps_are_symmetric_and_bounded, greater, length, lesser,
    overlaps_are_symmetric_fractions, Corners,
};
use crate::dtype::DType;
use crate::elements::{
    copied, origin, unbound_values_are_slices, unit_axes_hold_the_same_elements, within, Element,
};
use crate::graph::{applied, scalar, Expr, Value};
use crate::indexing::unbound;
use crate::masks::lemma_pulled;
use crate::matmul::{aligned, batch_of, broadcast_shape, broadcastable, joint_rank};
use crate::op::{Binary, Comparison, OpModel, Scalar, F32_ONE, F32_ZERO};
use crate::products::pulled;
use crate::shape::volume;
use crate::success::{
    lemma_made_binary, lemma_made_broadcast, lemma_made_filled, lemma_made_ordered,
    lemma_made_reshape, lemma_made_select, lemma_made_shaped, lemma_made_unbound, lemma_volume_unit,
    made,
};
use vstd::prelude::*;

verus! {

/// The exact result of an arithmetic operation.
pub open spec fn exact(op: Binary, a: real, b: real) -> real {
    match op {
        Binary::Add => a + b,
        Binary::Sub => a - b,
        Binary::Mul => a * b,
        Binary::Div => a / b,
        Binary::Maximum => greater(a, b),
        Binary::Minimum => lesser(a, b),
    }
}

/// A scalar constant, as an element.
pub open spec fn constant_element(graph: u64, bits: u32) -> Element {
    Element { value: scalar(graph, Scalar::Bits(bits))->Is_0, index: Seq::empty() }
}

/// Whether a reading takes one element of an arithmetic operation to its exact
/// result.
pub open spec fn exact_element(
    read: spec_fn(Element) -> real,
    x: Expr,
    y: Expr,
    op: Binary,
    index: Seq<int>,
) -> bool {
    x.binary(y, op) is Is && within(x->Is_0.dims, index) ==> read(copied(x.binary(y, op), index))
        == exact(op, read(copied(x, index)), read(copied(y, index)))
}

/// Whether a reading clamps one element at zero.
pub open spec fn clamped_element(read: spec_fn(Element) -> real, x: Expr, index: Seq<int>) -> bool {
    x.relu() is Is && within(x->Is_0.dims, index) ==> read(copied(x.relu(), index)) == greater(
        read(copied(x, index)),
        0 as real,
    )
}

/// Whether a reading takes one element of a mask to one where its operands are
/// in order.
pub open spec fn ordered_element(
    read: spec_fn(Element) -> real,
    x: Expr,
    y: Expr,
    index: Seq<int>,
) -> bool {
    x.gt_mask(y) is Is && within(x->Is_0.dims, index) ==> read(copied(x.gt_mask(y), index)) == if read(
        copied(x, index),
    ) > read(copied(y, index)) {
        1 as real
    } else {
        0 as real
    }
}

/// Whether a reading takes one element of a choice to the branch that its mask
/// selects.
pub open spec fn selected_element(
    read: spec_fn(Element) -> real,
    m: Expr,
    x: Expr,
    y: Expr,
    index: Seq<int>,
) -> bool {
    m.select(x, y) is Is && within(m->Is_0.dims, index) ==> read(copied(m.select(x, y), index))
        == if read(copied(m, index)) != 0 as real {
        read(copied(x, index))
    } else {
        read(copied(y, index))
    }
}

/// Whether a reading of elements as numbers follows exact arithmetic.
pub open spec fn reads_exactly(read: spec_fn(Element) -> real) -> bool {
    &&& forall|x: Expr, y: Expr, op: Binary, index: Seq<int>| #[trigger]
        exact_element(read, x, y, op, index)
    &&& forall|x: Expr, index: Seq<int>| #[trigger] clamped_element(read, x, index)
    &&& forall|x: Expr, y: Expr, index: Seq<int>| #[trigger] ordered_element(read, x, y, index)
    &&& forall|m: Expr, x: Expr, y: Expr, index: Seq<int>| #[trigger]
        selected_element(read, m, x, y, index)
    &&& forall|graph: u64| read(#[trigger] constant_element(graph, F32_ZERO)) == 0 as real
    &&& forall|graph: u64| read(#[trigger] constant_element(graph, F32_ONE)) == 1 as real
}

/// Whether every axis of a shape has a number.
pub open spec fn numbered_axes(dims: Seq<i64>) -> bool {
    dims.len() <= usize::MAX + 1
}

/// A coordinate of boxes, which is an element of its own.
proof fn lemma_coordinate(x: Expr, k: int, graph: u64, prefix: Seq<i64>, dtype: DType)
    requires
        made(x, graph, prefix.push(4), dtype),
        volume(prefix.push(4)) is Some,
        prefix.len() <= usize::MAX,
        0 <= k < 4,
    ensures
        volume(prefix) is Some,
        made(coordinate(x, k), graph, prefix, dtype),
        forall|index: Seq<int>|
            within(prefix, index) ==> #[trigger] copied(coordinate(x, k), index) == copied(
                x,
                index.push(k),
            ),
{
    let v = x->Is_0;
    let axis = prefix.len() as usize;
    assert(prefix.push(4).drop_last() =~= prefix);
    assert(prefix.push(4).remove(axis as int) =~= prefix);
    lemma_made_unbound(v, axis);
    assert(made(Expr::Is(unbound(v, axis)->Ok_0[k]), graph, prefix, dtype));
    assert forall|index: Seq<int>| within(prefix, index) implies #[trigger] copied(
        coordinate(x, k),
        index,
    ) == copied(x, index.push(k)) by {
        unbound_values_are_slices(v, axis, k, index);
        assert(index.insert(axis as int, k) =~= index.push(k));
    }
}

/// The box that a value of four coordinates holds at an index.
pub open spec fn box_at(read: spec_fn(Element) -> real, x: Expr, index: Seq<int>) -> Corners {
    Corners {
        left: read(copied(x, index.push(0))),
        top: read(copied(x, index.push(1))),
        right: read(copied(x, index.push(2))),
        bottom: read(copied(x, index.push(3))),
    }
}

/// The clamped difference of two values, and what it reads as.
proof fn lemma_length(
    read: spec_fn(Element) -> real,
    high: Expr,
    low: Expr,
    graph: u64,
    dims: Seq<i64>,
)
    requires
        made(high, graph, dims, DType::F32),
        made(low, graph, dims, DType::F32),
        volume(dims) is Some,
    ensures
        made(high.sub(low).relu(), graph, dims, DType::F32),
        reads_exactly(read) ==> forall|index: Seq<int>|
            within(dims, index) ==> read(#[trigger] copied(high.sub(low).relu(), index)) == length(
                read(copied(low, index)),
                read(copied(high, index)),
            ),
{
    lemma_made_binary(high, low, Binary::Sub, graph, dims);
    lemma_made_shaped(high.sub(low), OpModel::Relu, graph, dims);
    if reads_exactly(read) {
        assert forall|index: Seq<int>| within(dims, index) implies read(
            #[trigger] copied(high.sub(low).relu(), index),
        ) == length(read(copied(low, index)), read(copied(high, index))) by {
            assert(exact_element(read, high, low, Binary::Sub, index));
            assert(clamped_element(read, high.sub(low), index));
        }
    }
}

/// An arithmetic operation on F32 values, and what it reads as.
proof fn lemma_exact(
    read: spec_fn(Element) -> real,
    x: Expr,
    y: Expr,
    op: Binary,
    graph: u64,
    dims: Seq<i64>,
)
    requires
        made(x, graph, dims, DType::F32),
        made(y, graph, dims, DType::F32),
        volume(dims) is Some,
    ensures
        made(x.binary(y, op), graph, dims, DType::F32),
        reads_exactly(read) ==> forall|index: Seq<int>|
            within(dims, index) ==> read(#[trigger] copied(x.binary(y, op), index)) == exact(
                op,
                read(copied(x, index)),
                read(copied(y, index)),
            ),
{
    lemma_made_binary(x, y, op, graph, dims);
    if reads_exactly(read) {
        assert forall|index: Seq<int>| within(dims, index) implies read(
            #[trigger] copied(x.binary(y, op), index),
        ) == exact(op, read(copied(x, index)), read(copied(y, index))) by {
            assert(exact_element(read, x, y, op, index));
        }
    }
}

/// The area of boxes.
proof fn lemma_area(read: spec_fn(Element) -> real, x: Expr, graph: u64, prefix: Seq<i64>)
    requires
        made(x, graph, prefix.push(4), DType::F32),
        volume(prefix.push(4)) is Some,
        prefix.len() <= usize::MAX,
    ensures
        made(x.box_area(), graph, prefix, DType::F32),
        reads_exactly(read) ==> forall|index: Seq<int>|
            within(prefix, index) ==> read(#[trigger] copied(x.box_area(), index)) == box_at(
                read,
                x,
                index,
            ).area(),
{
    reveal(Expr::box_area);
    lemma_coordinate(x, 0, graph, prefix, DType::F32);
    lemma_coordinate(x, 1, graph, prefix, DType::F32);
    lemma_coordinate(x, 2, graph, prefix, DType::F32);
    lemma_coordinate(x, 3, graph, prefix, DType::F32);
    let (c0, c1) = (coordinate(x, 0), coordinate(x, 1));
    let (c2, c3) = (coordinate(x, 2), coordinate(x, 3));
    lemma_length(read, c2, c0, graph, prefix);
    lemma_length(read, c3, c1, graph, prefix);
    lemma_exact(read, c2.sub(c0).relu(), c3.sub(c1).relu(), Binary::Mul, graph, prefix);
    if reads_exactly(read) {
        assert forall|index: Seq<int>| within(prefix, index) implies read(
            #[trigger] copied(x.box_area(), index),
        ) == box_at(read, x, index).area() by {
            assert(copied(c0, index) == copied(x, index.push(0)));
            assert(copied(c1, index) == copied(x, index.push(1)));
            assert(copied(c2, index) == copied(x, index.push(2)));
            assert(copied(c3, index) == copied(x, index.push(3)));
            assert(read(copied(c2.sub(c0).relu(), index)) == length(
                read(copied(c0, index)),
                read(copied(c2, index)),
            ));
            assert(read(copied(c3.sub(c1).relu(), index)) == length(
                read(copied(c1, index)),
                read(copied(c3, index)),
            ));
        }
    }
}

/// The area that boxes share.
proof fn lemma_span(
    read: spec_fn(Element) -> real,
    x: Expr,
    y: Expr,
    graph: u64,
    prefix: Seq<i64>,
)
    requires
        made(x, graph, prefix.push(4), DType::F32),
        made(y, graph, prefix.push(4), DType::F32),
        volume(prefix.push(4)) is Some,
        prefix.len() <= usize::MAX,
    ensures
        made(x.box_span(y, false), graph, prefix, DType::F32),
        reads_exactly(read) ==> forall|index: Seq<int>|
            within(prefix, index) ==> read(#[trigger] copied(x.box_span(y, false), index))
                == box_at(read, x, index).shared(box_at(read, y, index)),
{
    reveal(Expr::box_span);
    lemma_coordinate(x, 0, graph, prefix, DType::F32);
    lemma_coordinate(x, 1, graph, prefix, DType::F32);
    lemma_coordinate(x, 2, graph, prefix, DType::F32);
    lemma_coordinate(x, 3, graph, prefix, DType::F32);
    lemma_coordinate(y, 0, graph, prefix, DType::F32);
    lemma_coordinate(y, 1, graph, prefix, DType::F32);
    lemma_coordinate(y, 2, graph, prefix, DType::F32);
    lemma_coordinate(y, 3, graph, prefix, DType::F32);
    let (a0, a1) = (coordinate(x, 0), coordinate(x, 1));
    let (a2, a3) = (coordinate(x, 2), coordinate(x, 3));
    let (b0, b1) = (coordinate(y, 0), coordinate(y, 1));
    let (b2, b3) = (coordinate(y, 2), coordinate(y, 3));
    lemma_exact(read, a2, b2, Binary::Minimum, graph, prefix);
    lemma_exact(read, a0, b0, Binary::Maximum, graph, prefix);
    lemma_exact(read, a3, b3, Binary::Minimum, graph, prefix);
    lemma_exact(read, a1, b1, Binary::Maximum, graph, prefix);
    let (right, left) = (a2.minimum(b2), a0.maximum(b0));
    let (bottom, top) = (a3.minimum(b3), a1.maximum(b1));
    lemma_length(read, right, left, graph, prefix);
    lemma_length(read, bottom, top, graph, prefix);
    let (width, height) = (right.sub(left).relu(), bottom.sub(top).relu());
    lemma_exact(read, width, height, Binary::Mul, graph, prefix);
    if reads_exactly(read) {
        assert forall|index: Seq<int>| within(prefix, index) implies read(
            #[trigger] copied(x.box_span(y, false), index),
        ) == box_at(read, x, index).shared(box_at(read, y, index)) by {
            assert(copied(a0, index) == copied(x, index.push(0)));
            assert(copied(a1, index) == copied(x, index.push(1)));
            assert(copied(a2, index) == copied(x, index.push(2)));
            assert(copied(a3, index) == copied(x, index.push(3)));
            assert(copied(b0, index) == copied(y, index.push(0)));
            assert(copied(b1, index) == copied(y, index.push(1)));
            assert(copied(b2, index) == copied(y, index.push(2)));
            assert(copied(b3, index) == copied(y, index.push(3)));
            assert(read(copied(right, index)) == lesser(
                read(copied(a2, index)),
                read(copied(b2, index)),
            ));
            assert(read(copied(left, index)) == greater(
                read(copied(a0, index)),
                read(copied(b0, index)),
            ));
            assert(read(copied(bottom, index)) == lesser(
                read(copied(a3, index)),
                read(copied(b3, index)),
            ));
            assert(read(copied(top, index)) == greater(
                read(copied(a1, index)),
                read(copied(b1, index)),
            ));
            assert(read(copied(width, index)) == length(
                read(copied(left, index)),
                read(copied(right, index)),
            ));
            assert(read(copied(height, index)) == length(
                read(copied(top, index)),
                read(copied(bottom, index)),
            ));
        }
    }
}

/// The area of the boxes around boxes.
proof fn lemma_hull(
    read: spec_fn(Element) -> real,
    x: Expr,
    y: Expr,
    graph: u64,
    prefix: Seq<i64>,
)
    requires
        made(x, graph, prefix.push(4), DType::F32),
        made(y, graph, prefix.push(4), DType::F32),
        volume(prefix.push(4)) is Some,
        prefix.len() <= usize::MAX,
    ensures
        made(x.box_span(y, true), graph, prefix, DType::F32),
        reads_exactly(read) ==> forall|index: Seq<int>|
            within(prefix, index) ==> read(#[trigger] copied(x.box_span(y, true), index))
                == box_at(read, x, index).enclosed(box_at(read, y, index)),
{
    reveal(Expr::box_span);
    lemma_coordinate(x, 0, graph, prefix, DType::F32);
    lemma_coordinate(x, 1, graph, prefix, DType::F32);
    lemma_coordinate(x, 2, graph, prefix, DType::F32);
    lemma_coordinate(x, 3, graph, prefix, DType::F32);
    lemma_coordinate(y, 0, graph, prefix, DType::F32);
    lemma_coordinate(y, 1, graph, prefix, DType::F32);
    lemma_coordinate(y, 2, graph, prefix, DType::F32);
    lemma_coordinate(y, 3, graph, prefix, DType::F32);
    let (a0, a1) = (coordinate(x, 0), coordinate(x, 1));
    let (a2, a3) = (coordinate(x, 2), coordinate(x, 3));
    let (b0, b1) = (coordinate(y, 0), coordinate(y, 1));
    let (b2, b3) = (coordinate(y, 2), coordinate(y, 3));
    lemma_exact(read, a2, b2, Binary::Maximum, graph, prefix);
    lemma_exact(read, a0, b0, Binary::Minimum, graph, prefix);
    lemma_exact(read, a3, b3, Binary::Maximum, graph, prefix);
    lemma_exact(read, a1, b1, Binary::Minimum, graph, prefix);
    let (right, left) = (a2.maximum(b2), a0.minimum(b0));
    let (bottom, top) = (a3.maximum(b3), a1.minimum(b1));
    lemma_length(read, right, left, graph, prefix);
    lemma_length(read, bottom, top, graph, prefix);
    let (width, height) = (right.sub(left).relu(), bottom.sub(top).relu());
    lemma_exact(read, width, height, Binary::Mul, graph, prefix);
    if reads_exactly(read) {
        assert forall|index: Seq<int>| within(prefix, index) implies read(
            #[trigger] copied(x.box_span(y, true), index),
        ) == box_at(read, x, index).enclosed(box_at(read, y, index)) by {
            assert(copied(a0, index) == copied(x, index.push(0)));
            assert(copied(a1, index) == copied(x, index.push(1)));
            assert(copied(a2, index) == copied(x, index.push(2)));
            assert(copied(a3, index) == copied(x, index.push(3)));
            assert(copied(b0, index) == copied(y, index.push(0)));
            assert(copied(b1, index) == copied(y, index.push(1)));
            assert(copied(b2, index) == copied(y, index.push(2)));
            assert(copied(b3, index) == copied(y, index.push(3)));
            assert(read(copied(right, index)) == greater(
                read(copied(a2, index)),
                read(copied(b2, index)),
            ));
            assert(read(copied(left, index)) == lesser(
                read(copied(a0, index)),
                read(copied(b0, index)),
            ));
            assert(read(copied(bottom, index)) == greater(
                read(copied(a3, index)),
                read(copied(b3, index)),
            ));
            assert(read(copied(top, index)) == lesser(
                read(copied(a1, index)),
                read(copied(b1, index)),
            ));
            assert(read(copied(width, index)) == length(
                read(copied(left, index)),
                read(copied(right, index)),
            ));
            assert(read(copied(height, index)) == length(
                read(copied(top, index)),
                read(copied(bottom, index)),
            ));
        }
    }
}

/// A constant everywhere reads as that constant.
proof fn lemma_constant_everywhere(x: Expr, bits: u32, graph: u64, dims: Seq<i64>, index: Seq<int>)
    requires
        made(x, graph, dims, DType::F32),
        volume(dims) is Some,
        numbered_axes(dims),
        within(dims, index),
    ensures
        copied(x.filled(Scalar::Bits(bits)), index) == constant_element(graph, bits),
{
    lemma_made_filled(x, 0, Scalar::Bits(bits), graph, dims);
    reveal(Expr::filled);
    let one = scalar(graph, Scalar::Bits(bits));
    lemma_pulled(one, dims, index);
    reveal(applied);
    reveal(origin);
    assert(pulled(one->Is_0.dims, index) =~= Seq::empty());
}

/// A part over a whole, or over one where the whole is not positive.
proof fn lemma_share(
    read: spec_fn(Element) -> real,
    part: Expr,
    whole: Expr,
    graph: u64,
    dims: Seq<i64>,
)
    requires
        made(part, graph, dims, DType::F32),
        made(whole, graph, dims, DType::F32),
        volume(dims) is Some,
        numbered_axes(dims),
    ensures
        ({
            let one = whole.filled(Scalar::Bits(F32_ONE));
            &&& made(one, graph, dims, DType::F32)
            &&& made(part.share_of(whole, one), graph, dims, DType::F32)
            &&& reads_exactly(read) ==> forall|index: Seq<int>|
                within(dims, index) ==> read(#[trigger] copied(part.share_of(whole, one), index))
                    == read(copied(part, index)) / if read(copied(whole, index)) > 0 as real {
                    read(copied(whole, index))
                } else {
                    1 as real
                }
        }),
{
    reveal(Expr::share_of);
    reveal(Expr::positive_mask);
    let one = whole.filled(Scalar::Bits(F32_ONE));
    let zero = whole.filled(Scalar::Bits(F32_ZERO));
    lemma_made_filled(whole, 0, Scalar::Bits(F32_ONE), graph, dims);
    lemma_made_filled(whole, 0, Scalar::Bits(F32_ZERO), graph, dims);
    let mask = whole.gt_mask(zero);
    lemma_made_ordered(whole, zero, Comparison::Greater, graph, dims);
    let divisor = mask.select(whole, one);
    lemma_made_select(mask, whole, one, graph, dims, DType::F32);
    lemma_exact(read, part, divisor, Binary::Div, graph, dims);
    if reads_exactly(read) {
        assert forall|index: Seq<int>| within(dims, index) implies read(
            #[trigger] copied(part.share_of(whole, one), index),
        ) == read(copied(part, index)) / if read(copied(whole, index)) > 0 as real {
            read(copied(whole, index))
        } else {
            1 as real
        } by {
            lemma_constant_everywhere(whole, F32_ONE, graph, dims, index);
            lemma_constant_everywhere(whole, F32_ZERO, graph, dims, index);
            assert(read(constant_element(graph, F32_ONE)) == 1 as real);
            assert(read(constant_element(graph, F32_ZERO)) == 0 as real);
            assert(ordered_element(read, whole, zero, index));
            assert(selected_element(read, mask, whole, one, index));
            assert(read(copied(part.binary(divisor, Binary::Div), index)) == exact(
                Binary::Div,
                read(copied(part, index)),
                read(copied(divisor, index)),
            ));
        }
    }
}

/// The overlap of boxes under one shape.
proof fn lemma_overlap_of(
    read: spec_fn(Element) -> real,
    x: Expr,
    y: Expr,
    graph: u64,
    prefix: Seq<i64>,
)
    requires
        made(x, graph, prefix.push(4), DType::F32),
        made(y, graph, prefix.push(4), DType::F32),
        volume(prefix.push(4)) is Some,
        prefix.len() <= usize::MAX,
    ensures
        made(x.overlap_of(y, false), graph, prefix, DType::F32),
        reads_exactly(read) ==> forall|index: Seq<int>|
            within(prefix, index) ==> read(#[trigger] copied(x.overlap_of(y, false), index))
                == box_at(read, x, index).overlap(box_at(read, y, index)),
{
    reveal(Expr::overlap_of);
    assert(prefix.push(4).drop_last() =~= prefix);
    let (first, second) = (x.box_area(), y.box_area());
    lemma_area(read, x, graph, prefix);
    lemma_area(read, y, graph, prefix);
    let shared = x.box_span(y, false);
    lemma_span(read, x, y, graph, prefix);
    lemma_exact(read, first, second, Binary::Add, graph, prefix);
    let covered = first.add(second).sub(shared);
    lemma_exact(read, first.add(second), shared, Binary::Sub, graph, prefix);
    lemma_share(read, shared, covered, graph, prefix);
    if reads_exactly(read) {
        assert forall|index: Seq<int>| within(prefix, index) implies read(
            #[trigger] copied(x.overlap_of(y, false), index),
        ) == box_at(read, x, index).overlap(box_at(read, y, index)) by {
            assert(read(copied(first, index)) == box_at(read, x, index).area());
            assert(read(copied(second, index)) == box_at(read, y, index).area());
            assert(read(copied(shared, index)) == box_at(read, x, index).shared(
                box_at(read, y, index),
            ));
            assert(read(copied(first.add(second), index)) == read(copied(first, index)) + read(
                copied(second, index),
            ));
            assert(read(copied(covered, index)) == read(copied(first.add(second), index)) - read(
                copied(shared, index),
            ));
        }
    }
}

/// An overlap less the part of an enclosure outside of a union.
proof fn lemma_less_enclosure(
    read: spec_fn(Element) -> real,
    iou: Expr,
    union: Expr,
    enclosure: Expr,
    graph: u64,
    dims: Seq<i64>,
)
    requires
        made(iou, graph, dims, DType::F32),
        made(union, graph, dims, DType::F32),
        made(enclosure, graph, dims, DType::F32),
        volume(dims) is Some,
        numbered_axes(dims),
    ensures
        ({
            let one = union.filled(Scalar::Bits(F32_ONE));
            let less = iou.less_enclosure(union, one, enclosure);
            &&& made(one, graph, dims, DType::F32)
            &&& made(less, graph, dims, DType::F32)
            &&& reads_exactly(read) ==> forall|index: Seq<int>|
                within(dims, index) ==> read(#[trigger] copied(less, index)) == read(
                    copied(iou, index),
                ) - (read(copied(enclosure, index)) - read(copied(union, index))) / if read(
                    copied(enclosure, index),
                ) > 0 as real {
                    read(copied(enclosure, index))
                } else {
                    1 as real
                }
        }),
{
    reveal(Expr::less_enclosure);
    reveal(Expr::positive_mask);
    let one = union.filled(Scalar::Bits(F32_ONE));
    let zero = enclosure.filled(Scalar::Bits(F32_ZERO));
    lemma_made_filled(union, 0, Scalar::Bits(F32_ONE), graph, dims);
    lemma_made_filled(enclosure, 0, Scalar::Bits(F32_ZERO), graph, dims);
    let mask = enclosure.gt_mask(zero);
    lemma_made_ordered(enclosure, zero, Comparison::Greater, graph, dims);
    let divisor = mask.select(enclosure, one);
    lemma_made_select(mask, enclosure, one, graph, dims, DType::F32);
    let spare = enclosure.sub(union);
    lemma_exact(read, enclosure, union, Binary::Sub, graph, dims);
    let penalty = spare.div(divisor);
    lemma_exact(read, spare, divisor, Binary::Div, graph, dims);
    lemma_exact(read, iou, penalty, Binary::Sub, graph, dims);
    let less = iou.less_enclosure(union, one, enclosure);
    assert(less == iou.sub(penalty));
    if reads_exactly(read) {
        assert forall|index: Seq<int>| within(dims, index) implies read(
            #[trigger] copied(less, index),
        ) == read(copied(iou, index)) - (read(copied(enclosure, index)) - read(
            copied(union, index),
        )) / if read(copied(enclosure, index)) > 0 as real {
            read(copied(enclosure, index))
        } else {
            1 as real
        } by {
            lemma_constant_everywhere(union, F32_ONE, graph, dims, index);
            lemma_constant_everywhere(enclosure, F32_ZERO, graph, dims, index);
            assert(read(constant_element(graph, F32_ONE)) == 1 as real);
            assert(read(constant_element(graph, F32_ZERO)) == 0 as real);
            assert(ordered_element(read, enclosure, zero, index));
            assert(selected_element(read, mask, enclosure, one, index));
            assert(read(copied(spare, index)) == read(copied(enclosure, index)) - read(
                copied(union, index),
            ));
            assert(read(copied(penalty, index)) == read(copied(spare, index)) / read(
                copied(divisor, index),
            ));
            assert(read(copied(iou.sub(penalty), index)) == read(copied(iou, index)) - read(
                copied(penalty, index),
            ));
        }
    }
}

/// The generalized overlap of boxes under one shape.
proof fn lemma_generalized_of(
    read: spec_fn(Element) -> real,
    x: Expr,
    y: Expr,
    graph: u64,
    prefix: Seq<i64>,
)
    requires
        made(x, graph, prefix.push(4), DType::F32),
        made(y, graph, prefix.push(4), DType::F32),
        volume(prefix.push(4)) is Some,
        prefix.len() <= usize::MAX,
    ensures
        made(x.overlap_of(y, true), graph, prefix, DType::F32),
        reads_exactly(read) ==> forall|index: Seq<int>|
            within(prefix, index) ==> read(#[trigger] copied(x.overlap_of(y, true), index))
                == box_at(read, x, index).generalized(box_at(read, y, index)),
{
    assert(prefix.push(4).drop_last() =~= prefix);
    let (first, second) = (x.box_area(), y.box_area());
    lemma_area(read, x, graph, prefix);
    lemma_area(read, y, graph, prefix);
    let shared = x.box_span(y, false);
    lemma_span(read, x, y, graph, prefix);
    lemma_exact(read, first, second, Binary::Add, graph, prefix);
    let covered = first.add(second).sub(shared);
    lemma_exact(read, first.add(second), shared, Binary::Sub, graph, prefix);
    lemma_share(read, shared, covered, graph, prefix);
    let iou = x.overlap_of(y, false);
    lemma_overlap_of(read, x, y, graph, prefix);
    let enclosure = x.box_span(y, true);
    lemma_hull(read, x, y, graph, prefix);
    lemma_less_enclosure(read, iou, covered, enclosure, graph, prefix);
    let one = covered.filled(Scalar::Bits(F32_ONE));
    let less = iou.less_enclosure(covered, one, enclosure);
    assert(x.overlap_of(y, true) == less) by {
        reveal(Expr::overlap_of);
    }
    if reads_exactly(read) {
        assert forall|index: Seq<int>| within(prefix, index) implies read(
            #[trigger] copied(x.overlap_of(y, true), index),
        ) == box_at(read, x, index).generalized(box_at(read, y, index)) by {
            let (p, q) = (box_at(read, x, index), box_at(read, y, index));
            assert(read(copied(first, index)) == p.area());
            assert(read(copied(second, index)) == q.area());
            assert(read(copied(shared, index)) == p.shared(q));
            assert(read(copied(first.add(second), index)) == read(copied(first, index)) + read(
                copied(second, index),
            ));
            assert(read(copied(covered, index)) == p.covered(q));
            assert(read(copied(iou, index)) == p.overlap(q));
            assert(read(copied(enclosure, index)) == p.enclosed(q));
            assert(copied(less, index) == copied(x.overlap_of(y, true), index));
        }
    }
}

/// Whether two values are F32 boxes of one graph under one broadcast shape.
pub open spec fn matching_boxes(x: Value, y: Value) -> bool {
    &&& x.graph == y.graph
    &&& x.dtype == DType::F32 && y.dtype == DType::F32
    &&& is_boxes(x.dims) && is_boxes(y.dims)
    &&& broadcastable(x.dims, y.dims)
    &&& volume(broadcast_shape(x.dims, y.dims)) is Some
}

/// Broadcast shapes do not depend on the order of the operands.
proof fn lemma_broadcast_symmetric(a: Seq<i64>, b: Seq<i64>)
    ensures
        broadcastable(a, b) == broadcastable(b, a),
        broadcastable(a, b) ==> broadcast_shape(a, b) == broadcast_shape(b, a),
{
    let rank = joint_rank(a, b);
    assert(joint_rank(b, a) == rank);
    if broadcastable(a, b) {
        assert forall|i: int| 0 <= i < rank implies (#[trigger] aligned(b, rank, i) == 1 || aligned(
            a,
            rank,
            i,
        ) == 1 || aligned(b, rank, i) == aligned(a, rank, i)) by {
            assert(aligned(a, rank, i) == 1 || aligned(b, rank, i) == 1 || aligned(a, rank, i)
                == aligned(b, rank, i));
        }
        assert forall|i: int| 0 <= i < rank implies #[trigger] broadcast_shape(a, b)[i]
            == broadcast_shape(b, a)[i] by {
            assert(aligned(a, rank, i) == 1 || aligned(b, rank, i) == 1 || aligned(a, rank, i)
                == aligned(b, rank, i));
        }
        assert(broadcast_shape(a, b) =~= broadcast_shape(b, a));
    }
    if broadcastable(b, a) {
        assert forall|i: int| 0 <= i < rank implies (#[trigger] aligned(a, rank, i) == 1 || aligned(
            b,
            rank,
            i,
        ) == 1 || aligned(a, rank, i) == aligned(b, rank, i)) by {
            assert(aligned(b, rank, i) == 1 || aligned(a, rank, i) == 1 || aligned(b, rank, i)
                == aligned(a, rank, i));
        }
    }
}

/// The extents of both operands fit their broadcast shape.
proof fn lemma_broadcast_fits(a: Seq<i64>, b: Seq<i64>)
    requires
        broadcastable(a, b),
    ensures
        forall|i: int|
            0 <= i < a.len() ==> (#[trigger] a[i] == 1 || a[i] == broadcast_shape(a, b)[i
                + joint_rank(a, b) - a.len()]),
        forall|i: int|
            0 <= i < b.len() ==> (#[trigger] b[i] == 1 || b[i] == broadcast_shape(a, b)[i
                + joint_rank(a, b) - b.len()]),
        broadcast_shape(a, b).len() == joint_rank(a, b),
{
    let rank = joint_rank(a, b);
    assert forall|i: int| 0 <= i < a.len() implies (#[trigger] a[i] == 1 || a[i]
        == broadcast_shape(a, b)[i + rank - a.len()]) by {
        assert(aligned(a, rank, i + rank - a.len()) == a[i]);
    }
    assert forall|i: int| 0 <= i < b.len() implies (#[trigger] b[i] == 1 || b[i]
        == broadcast_shape(a, b)[i + rank - b.len()]) by {
        let j = i + rank - b.len();
        assert(aligned(b, rank, j) == b[i]);
        assert(aligned(a, rank, j) == 1 || aligned(b, rank, j) == 1 || aligned(a, rank, j)
            == aligned(b, rank, j));
    }
}

/// Both operands of matching boxes, under their shape.
proof fn lemma_matched(x: Value, y: Value)
    requires
        matching_boxes(x, y),
        numbered_axes(x.dims),
        numbered_axes(y.dims),
    ensures
        ({
            let shape = broadcast_shape(x.dims, y.dims);
            &&& shape.len() == joint_rank(x.dims, y.dims)
            &&& shape == shape.drop_last().push(4)
            &&& made(Expr::Is(x).broadcast_to(shape), x.graph, shape, DType::F32)
            &&& made(Expr::Is(y).broadcast_to(shape), x.graph, shape, DType::F32)
        }),
{
    let shape = broadcast_shape(x.dims, y.dims);
    let rank = joint_rank(x.dims, y.dims);
    lemma_broadcast_fits(x.dims, y.dims);
    lemma_made_broadcast(Expr::Is(x), x.graph, x.dims, shape, DType::F32);
    lemma_made_broadcast(Expr::Is(y), x.graph, y.dims, shape, DType::F32);
    assert(aligned(x.dims, rank, rank - 1) == 4);
    assert(aligned(y.dims, rank, rank - 1) == 4);
    assert(shape.last() == 4);
    assert(shape =~= shape.drop_last().push(4));
}

/// The overlap of boxes takes F32 values of one graph alone.
proof fn lemma_overlap_takes(x: Expr, y: Expr)
    requires
        x.overlap_of(y, false) is Is,
        numbered_axes(x->Is_0.dims),
        numbered_axes(y->Is_0.dims),
    ensures
        x is Is && y is Is,
        x->Is_0.dtype == DType::F32 && y->Is_0.dtype == DType::F32,
        x->Is_0.graph == y->Is_0.graph,
{
    reveal(Expr::overlap_of);
    reveal(Expr::share_of);
    let first = x.box_area().given(y);
    let second = y.box_area().given(first);
    let shared = x.box_span(y, false).given(second);
    assert(shared is Is);
    lemma_area_takes(x);
    lemma_area_takes(y);
    reveal(Expr::box_span);
    let (a2, b2) = (coordinate(x, 2), coordinate(y, 2));
    let (a0, b0) = (coordinate(x, 0), coordinate(y, 0));
    assert(a2.minimum(b2).sub(a0.maximum(b0)).relu() is Is);
    assert(a2.minimum(b2) is Is);
    lemma_coordinate_graph(x, 2);
    lemma_coordinate_graph(y, 2);
}

/// A coordinate belongs to the graph of its boxes and has their element type.
proof fn lemma_coordinate_graph(x: Expr, k: int)
    requires
        coordinate(x, k) is Is,
        numbered_axes(x->Is_0.dims),
        0 <= k < 4,
    ensures
        x is Is,
        coordinate(x, k)->Is_0.graph == x->Is_0.graph,
        coordinate(x, k)->Is_0.dtype == x->Is_0.dtype,
{
    let v = x->Is_0;
    let axis = (v.dims.len() - 1) as usize;
    let parts = Seq::new(
        v.dims[axis as int] as nat,
        |i: int| Expr::Is(v).narrow(axis, i as i64, 1).reshape(v.dims.remove(axis as int)),
    );
    lemma_collected(parts);
    assert(parts[k] == Expr::Is(unbound(v, axis)->Ok_0[k]));
    reveal(Expr::narrow);
    reveal(applied);
}

/// An area takes F32 boxes alone.
proof fn lemma_area_takes(x: Expr)
    requires
        x.box_area() is Is,
        numbered_axes(x->Is_0.dims),
    ensures
        x is Is,
        x->Is_0.dtype == DType::F32,
{
    reveal(Expr::box_area);
    let (c0, c2) = (coordinate(x, 0), coordinate(x, 2));
    assert(c2.sub(c0).relu() is Is);
    assert(c2.sub(c0) is Is);
    lemma_coordinate_graph(x, 2);
    assert(c2->Is_0.dtype == DType::F32) by {
        reveal(applied);
    }
}

/// The overlap of two values of boxes succeeds just where they are F32 boxes of
/// one graph that broadcast against each other, empty ones included. It then
/// has one element for each pair of boxes of the broadcast shape.
pub proof fn overlaps_succeed_exactly_on_matching_boxes(x: Value, y: Value)
    requires
        numbered_axes(x.dims),
        numbered_axes(y.dims),
    ensures
        Expr::Is(x).box_iou(Expr::Is(y)) is Is <==> matching_boxes(x, y),
        matching_boxes(x, y) ==> made(
            Expr::Is(x).box_iou(Expr::Is(y)),
            x.graph,
            broadcast_shape(x.dims, y.dims).drop_last(),
            DType::F32,
        ),
{
    let shape = broadcast_shape(x.dims, y.dims);
    let a = Expr::Is(x).broadcast_to(shape);
    let b = Expr::Is(y).broadcast_to(shape);
    if matching_boxes(x, y) {
        lemma_matched(x, y);
        lemma_overlap_of(|e: Element| 0 as real, a, b, x.graph, shape.drop_last());
    }
    if Expr::Is(x).box_iou(Expr::Is(y)) is Is {
        reveal(applied);
        assert(a is Is && b is Is) by {
            reveal(Expr::overlap_of);
            reveal(Expr::box_area);
            reveal(Expr::share_of);
        }
        lemma_overlap_takes(a, b);
    }
}

/// The box that a value holds at an index of a broadcast shape, trailing axes
/// aligned.
pub open spec fn box_of(read: spec_fn(Element) -> real, x: Value, index: Seq<int>) -> Corners {
    Corners {
        left: read(origin(x, pulled(x.dims, index.push(0)))),
        top: read(origin(x, pulled(x.dims, index.push(1)))),
        right: read(origin(x, pulled(x.dims, index.push(2)))),
        bottom: read(origin(x, pulled(x.dims, index.push(3)))),
    }
}

/// A broadcast of boxes holds the boxes of its operand.
proof fn lemma_box_of(
    read: spec_fn(Element) -> real,
    x: Value,
    shape: Seq<i64>,
    index: Seq<int>,
)
    requires
        Expr::Is(x).broadcast_to(shape) is Is,
        numbered_axes(shape),
        shape.len() > 0,
        shape == shape.drop_last().push(4),
        within(shape.drop_last(), index),
    ensures
        box_at(read, Expr::Is(x).broadcast_to(shape), index) == box_of(read, x, index),
{
    assert forall|k: int| 0 <= k < 4 implies within(shape, #[trigger] index.push(k)) by {
        assert forall|i: int| 0 <= i < shape.len() implies 0 <= #[trigger] index.push(k)[i]
            < shape[i] by {
            if i < shape.len() - 1 {
                assert(0 <= index[i] < shape.drop_last()[i]);
            }
        }
    }
    lemma_pulled(Expr::Is(x), shape, index.push(0));
    lemma_pulled(Expr::Is(x), shape, index.push(1));
    lemma_pulled(Expr::Is(x), shape, index.push(2));
    lemma_pulled(Expr::Is(x), shape, index.push(3));
}

/// Each element of an overlap is the overlap of the two boxes at its index.
pub proof fn overlaps_measure_their_boxes(
    read: spec_fn(Element) -> real,
    x: Value,
    y: Value,
    index: Seq<int>,
)
    requires
        reads_exactly(read),
        numbered_axes(x.dims),
        numbered_axes(y.dims),
        matching_boxes(x, y),
        within(broadcast_shape(x.dims, y.dims).drop_last(), index),
    ensures
        read(copied(Expr::Is(x).box_iou(Expr::Is(y)), index)) == box_of(read, x, index).overlap(
            box_of(read, y, index),
        ),
{
    let shape = broadcast_shape(x.dims, y.dims);
    lemma_matched(x, y);
    let a = Expr::Is(x).broadcast_to(shape);
    let b = Expr::Is(y).broadcast_to(shape);
    lemma_overlap_of(read, a, b, x.graph, shape.drop_last());
    assert(Expr::Is(x).box_iou(Expr::Is(y)) == a.overlap_of(b, false));
    lemma_box_of(read, x, shape, index);
    lemma_box_of(read, y, shape, index);
}

/// Exchanging the operands changes neither whether an overlap succeeds, nor its
/// extents, nor any of its elements. Every element lies between zero and one,
/// and is zero where the two boxes cover nothing.
pub proof fn overlaps_do_not_depend_on_the_order(
    read: spec_fn(Element) -> real,
    x: Value,
    y: Value,
    index: Seq<int>,
)
    requires
        reads_exactly(read),
        numbered_axes(x.dims),
        numbered_axes(y.dims),
    ensures
        ({
            let there = Expr::Is(x).box_iou(Expr::Is(y));
            let back = Expr::Is(y).box_iou(Expr::Is(x));
            &&& there is Is <==> back is Is
            &&& there is Is ==> there->Is_0.dims == back->Is_0.dims
            &&& there is Is && within(there->Is_0.dims, index) ==> {
                &&& read(copied(there, index)) == read(copied(back, index))
                &&& 0 as real <= read(copied(there, index)) <= 1 as real
                &&& box_of(read, x, index).covered(box_of(read, y, index)) == 0 as real ==> read(
                    copied(there, index),
                ) == 0 as real
            }
        }),
{
    overlaps_succeed_exactly_on_matching_boxes(x, y);
    overlaps_succeed_exactly_on_matching_boxes(y, x);
    lemma_broadcast_symmetric(x.dims, y.dims);
    let there = Expr::Is(x).box_iou(Expr::Is(y));
    if there is Is && within(there->Is_0.dims, index) {
        overlaps_measure_their_boxes(read, x, y, index);
        overlaps_measure_their_boxes(read, y, x, index);
        overlaps_are_symmetric_fractions(box_of(read, x, index), box_of(read, y, index));
    }
}

/// The generalized overlap of two values of boxes succeeds just where their
/// overlap does, and has the same extents.
pub proof fn generalized_overlaps_succeed_exactly_on_matching_boxes(x: Value, y: Value)
    requires
        numbered_axes(x.dims),
        numbered_axes(y.dims),
    ensures
        Expr::Is(x).box_giou(Expr::Is(y)) is Is <==> matching_boxes(x, y),
        matching_boxes(x, y) ==> made(
            Expr::Is(x).box_giou(Expr::Is(y)),
            x.graph,
            broadcast_shape(x.dims, y.dims).drop_last(),
            DType::F32,
        ),
{
    let shape = broadcast_shape(x.dims, y.dims);
    let a = Expr::Is(x).broadcast_to(shape);
    let b = Expr::Is(y).broadcast_to(shape);
    overlaps_succeed_exactly_on_matching_boxes(x, y);
    if matching_boxes(x, y) {
        lemma_matched(x, y);
        lemma_generalized_of(|e: Element| 0 as real, a, b, x.graph, shape.drop_last());
    }
    if Expr::Is(x).box_giou(Expr::Is(y)) is Is {
        let c = b.given(a);
        assert(a.overlap_of(c, true) is Is ==> a.overlap_of(c, false) is Is) by {
            reveal(Expr::overlap_of);
            reveal(Expr::less_enclosure);
        }
    }
}

/// Each element of a generalized overlap is that of the two boxes at its index.
pub proof fn generalized_overlaps_measure_their_boxes(
    read: spec_fn(Element) -> real,
    x: Value,
    y: Value,
    index: Seq<int>,
)
    requires
        reads_exactly(read),
        numbered_axes(x.dims),
        numbered_axes(y.dims),
        matching_boxes(x, y),
        within(broadcast_shape(x.dims, y.dims).drop_last(), index),
    ensures
        read(copied(Expr::Is(x).box_giou(Expr::Is(y)), index)) == box_of(
            read,
            x,
            index,
        ).generalized(box_of(read, y, index)),
{
    let shape = broadcast_shape(x.dims, y.dims);
    lemma_matched(x, y);
    let a = Expr::Is(x).broadcast_to(shape);
    let b = Expr::Is(y).broadcast_to(shape);
    lemma_generalized_of(read, a, b, x.graph, shape.drop_last());
    assert(Expr::Is(x).box_giou(Expr::Is(y)) == a.overlap_of(b, true));
    lemma_box_of(read, x, shape, index);
    lemma_box_of(read, y, shape, index);
}

/// Exchanging the operands changes neither whether a generalized overlap
/// succeeds, nor its extents, nor any of its elements. Every element is at most
/// the overlap's, lies between minus one and one, and is zero where the box
/// around the two boxes has no area.
pub proof fn generalized_overlaps_do_not_depend_on_the_order(
    read: spec_fn(Element) -> real,
    x: Value,
    y: Value,
    index: Seq<int>,
)
    requires
        reads_exactly(read),
        numbered_axes(x.dims),
        numbered_axes(y.dims),
    ensures
        ({
            let there = Expr::Is(x).box_giou(Expr::Is(y));
            let back = Expr::Is(y).box_giou(Expr::Is(x));
            let plain = Expr::Is(x).box_iou(Expr::Is(y));
            &&& there is Is <==> back is Is
            &&& there is Is <==> plain is Is
            &&& there is Is ==> there->Is_0.dims == back->Is_0.dims
            &&& there is Is && within(there->Is_0.dims, index) ==> {
                &&& read(copied(there, index)) == read(copied(back, index))
                &&& -1 as real <= read(copied(there, index)) <= read(copied(plain, index))
                &&& read(copied(plain, index)) <= 1 as real
                &&& box_of(read, x, index).enclosed(box_of(read, y, index)) == 0 as real ==> read(
                    copied(there, index),
                ) == 0 as real
            }
        }),
{
    generalized_overlaps_succeed_exactly_on_matching_boxes(x, y);
    generalized_overlaps_succeed_exactly_on_matching_boxes(y, x);
    overlaps_succeed_exactly_on_matching_boxes(x, y);
    lemma_broadcast_symmetric(x.dims, y.dims);
    let there = Expr::Is(x).box_giou(Expr::Is(y));
    if there is Is && within(there->Is_0.dims, index) {
        generalized_overlaps_measure_their_boxes(read, x, y, index);
        generalized_overlaps_measure_their_boxes(read, y, x, index);
        overlaps_measure_their_boxes(read, x, y, index);
        generalized_overlaps_are_symmetric_and_bounded(
            box_of(read, x, index),
            box_of(read, y, index),
        );
    }
}

/// Boxes overlap themselves wholly where they have an area, and not at all
/// where they have none.
pub proof fn boxes_overlap_themselves(
    read: spec_fn(Element) -> real,
    x: Value,
    index: Seq<int>,
)
    requires
        reads_exactly(read),
        x.dtype == DType::F32,
        is_boxes(x.dims),
        volume(x.dims) is Some,
        numbered_axes(x.dims),
        within(x.dims.drop_last(), index),
    ensures
        made(Expr::Is(x).box_iou(Expr::Is(x)), x.graph, x.dims.drop_last(), DType::F32),
        read(copied(Expr::Is(x).box_iou(Expr::Is(x)), index)) == if box_of(
            read,
            x,
            index,
        ).area() > 0 as real {
            1 as real
        } else {
            0 as real
        },
{
    assert(broadcast_shape(x.dims, x.dims) =~= x.dims);
    overlaps_succeed_exactly_on_matching_boxes(x, x);
    overlaps_measure_their_boxes(read, x, x, index);
    overlaps_are_symmetric_fractions(box_of(read, x, index), box_of(read, x, index));
}

/// The extents of boxes with a unit axis before or after the axis that counts
/// them.
pub open spec fn spread_boxes(dims: Seq<i64>, first: bool) -> Seq<i64> {
    if first {
        dims.insert(dims.len() - 1, 1)
    } else {
        dims.insert(dims.len() - 2, 1)
    }
}

/// Whether every pair of two lists of F32 boxes of one graph can be formed.
pub open spec fn pairable_boxes(x: Value, y: Value) -> bool {
    &&& x.graph == y.graph
    &&& x.dtype == DType::F32 && y.dtype == DType::F32
    &&& x.dims.len() >= 2 && y.dims.len() >= 2
    &&& is_boxes(x.dims) && is_boxes(y.dims)
    &&& broadcastable(batch_of(x.dims), batch_of(y.dims))
    &&& volume(pairs_of(x.dims, y.dims).push(4)) is Some
}

/// The extents of all pairs of boxes.
pub open spec fn pairs_of(x: Seq<i64>, y: Seq<i64>) -> Seq<i64> {
    broadcast_shape(batch_of(x), batch_of(y)) + seq![x[x.len() - 2], y[y.len() - 2]]
}

/// The shape of all pairs is the broadcast of both lists, each spread along its
/// own axis.
proof fn lemma_pairs(x: Seq<i64>, y: Seq<i64>)
    requires
        x.len() >= 2,
        y.len() >= 2,
        is_boxes(x),
        is_boxes(y),
    ensures
        broadcastable(spread_boxes(x, true), spread_boxes(y, false)) == broadcastable(
            batch_of(x),
            batch_of(y),
        ),
        broadcast_shape(spread_boxes(x, true), spread_boxes(y, false)) == pairs_of(x, y).push(4),
{
    let (a, b) = (spread_boxes(x, true), spread_boxes(y, false));
    let (p, q) = (batch_of(x), batch_of(y));
    let rank = joint_rank(a, b);
    let inner = joint_rank(p, q);
    assert(rank == inner + 3);
    assert forall|i: int| 0 <= i < inner implies #[trigger] aligned(a, rank, i) == aligned(
        p,
        inner,
        i,
    ) && aligned(b, rank, i) == aligned(q, inner, i) by {}
    assert(aligned(a, rank, inner as int) == x[x.len() - 2] && aligned(b, rank, inner as int) == 1);
    assert(aligned(a, rank, inner + 1int) == 1 && aligned(b, rank, inner + 1int) == y[y.len() - 2]);
    assert(aligned(a, rank, inner + 2int) == 4 && aligned(b, rank, inner + 2int) == 4);
    if broadcastable(p, q) {
        assert forall|i: int| 0 <= i < rank implies (#[trigger] aligned(a, rank, i) == 1 || aligned(
            b,
            rank,
            i,
        ) == 1 || aligned(a, rank, i) == aligned(b, rank, i)) by {
            if i < inner {
                assert(aligned(p, inner, i) == 1 || aligned(q, inner, i) == 1 || aligned(p, inner, i)
                    == aligned(q, inner, i));
            }
        }
    }
    if broadcastable(a, b) {
        assert forall|i: int| 0 <= i < inner implies (#[trigger] aligned(p, inner, i) == 1
            || aligned(q, inner, i) == 1 || aligned(p, inner, i) == aligned(q, inner, i)) by {
            assert(aligned(a, rank, i) == aligned(p, inner, i));
        }
    }
    let joint = broadcast_shape(a, b);
    assert forall|i: int| 0 <= i < rank implies #[trigger] joint[i] == pairs_of(x, y).push(4)[i] by {
        if i < inner {
            assert(aligned(a, rank, i) == aligned(p, inner, i));
            assert(broadcast_shape(p, q)[i] == joint[i]);
        }
    }
    assert(joint =~= pairs_of(x, y).push(4));
}

/// The overlaps of every pair of two lists of boxes succeed just where the
/// lists are F32 boxes of one graph whose batches broadcast against each other,
/// empty lists included.
pub proof fn pairwise_overlaps_succeed_exactly_on_lists(x: Value, y: Value)
    requires
        volume(x.dims) is Some,
        volume(y.dims) is Some,
        x.dims.len() <= usize::MAX,
        y.dims.len() <= usize::MAX,
    ensures
        Expr::Is(x).pairwise_box_iou(Expr::Is(y)) is Is <==> pairable_boxes(x, y),
        pairable_boxes(x, y) ==> made(
            Expr::Is(x).pairwise_box_iou(Expr::Is(y)),
            x.graph,
            pairs_of(x.dims, y.dims),
            DType::F32,
        ),
{
    if x.dims.len() >= 2 && y.dims.len() >= 2 && is_boxes(x.dims) && is_boxes(y.dims) {
        lemma_spread(x, true);
        lemma_spread(y, false);
        let a = Expr::Is(x).unsqueeze((x.dims.len() - 1) as usize);
        let b = Expr::Is(y).unsqueeze((y.dims.len() - 2) as usize);
        lemma_pairs(x.dims, y.dims);
        overlaps_succeed_exactly_on_matching_boxes(a->Is_0, b->Is_0);
        assert(pairs_of(x.dims, y.dims).push(4).drop_last() =~= pairs_of(x.dims, y.dims));
    }
}

/// A list of boxes spread along its own axis.
proof fn lemma_spread(x: Value, first: bool)
    requires
        volume(x.dims) is Some,
        x.dims.len() <= usize::MAX,
        x.dims.len() >= 2,
        is_boxes(x.dims),
    ensures
        is_boxes(spread_boxes(x.dims, first)),
        made(
            Expr::Is(x).unsqueeze(
                if first {
                    (x.dims.len() - 1) as usize
                } else {
                    (x.dims.len() - 2) as usize
                },
            ),
            x.graph,
            spread_boxes(x.dims, first),
            x.dtype,
        ),
{
    let axis = if first {
        x.dims.len() - 1
    } else {
        x.dims.len() - 2
    };
    lemma_volume_unit(x.dims, axis);
    lemma_made_reshape(Expr::Is(x), x.graph, x.dims, x.dims.insert(axis, 1), x.dtype);
}

/// A spread list holds its boxes: at the index of a pair, the one of its own
/// axis.
proof fn lemma_spread_boxes(
    x: Value,
    first: bool,
    at: Seq<int>,
    i: int,
    j: int,
    k: int,
)
    requires
        volume(x.dims) is Some,
        x.dims.len() <= usize::MAX,
        x.dims.len() >= 2,
        is_boxes(x.dims),
        x.dims.len() - 2 <= at.len(),
        0 <= k < 4,
        within(
            x.dims,
            pulled(
                x.dims,
                at.push(
                    if first {
                        i
                    } else {
                        j
                    },
                ).push(k),
            ),
        ),
    ensures
        ({
            let axis = if first {
                (x.dims.len() - 1) as usize
            } else {
                (x.dims.len() - 2) as usize
            };
            let spread = Expr::Is(x).unsqueeze(axis)->Is_0;
            origin(spread, pulled(spread.dims, at.push(i).push(j).push(k))) == origin(
                x,
                pulled(
                    x.dims,
                    at.push(
                        if first {
                            i
                        } else {
                            j
                        },
                    ).push(k),
                ),
            )
        }),
{
    let axis = if first {
        (x.dims.len() - 1) as usize
    } else {
        (x.dims.len() - 2) as usize
    };
    lemma_spread(x, first);
    let own = at.push(
        if first {
            i
        } else {
            j
        },
    ).push(k);
    let index = pulled(x.dims, own);
    let dims = spread_boxes(x.dims, first);
    let whole = at.push(i).push(j).push(k);
    let found = pulled(dims, whole);
    assert forall|t: int| 0 <= t < dims.len() implies #[trigger] found[t] == index.insert(
        axis as int,
        0,
    )[t] by {}
    assert(found =~= index.insert(axis as int, 0));
    unit_axes_hold_the_same_elements(Expr::Is(x), axis, index);
}

/// Entry `(i, j)` of the pairwise overlaps is the overlap of box `i` of the
/// first list with box `j` of the second.
pub proof fn pairwise_overlaps_pair_every_box(
    read: spec_fn(Element) -> real,
    x: Value,
    y: Value,
    at: Seq<int>,
    i: int,
    j: int,
)
    requires
        reads_exactly(read),
        volume(x.dims) is Some,
        volume(y.dims) is Some,
        x.dims.len() <= usize::MAX,
        y.dims.len() <= usize::MAX,
        pairable_boxes(x, y),
        within(pairs_of(x.dims, y.dims), at.push(i).push(j)),
    ensures
        read(copied(Expr::Is(x).pairwise_box_iou(Expr::Is(y)), at.push(i).push(j))) == box_of(
            read,
            x,
            at.push(i),
        ).overlap(box_of(read, y, at.push(j))),
{
    let (ax, ay) = ((x.dims.len() - 1) as usize, (y.dims.len() - 2) as usize);
    lemma_spread(x, true);
    lemma_spread(y, false);
    lemma_pairs(x.dims, y.dims);
    let a = Expr::Is(x).unsqueeze(ax)->Is_0;
    let b = Expr::Is(y).unsqueeze(ay)->Is_0;
    let index = at.push(i).push(j);
    let pairs = pairs_of(x.dims, y.dims);
    assert(pairs.push(4).drop_last() =~= pairs);
    overlaps_measure_their_boxes(read, a, b, index);
    assert forall|k: int| 0 <= k < 4 implies #[trigger] within(
        x.dims,
        pulled(x.dims, at.push(i).push(k)),
    ) && within(y.dims, pulled(y.dims, at.push(j).push(k))) by {
        lemma_pair_within(x.dims, y.dims, at, i, j, k);
    }
    assert(within(x.dims, pulled(x.dims, at.push(i).push(0))));
    assert(within(x.dims, pulled(x.dims, at.push(i).push(1))));
    assert(within(x.dims, pulled(x.dims, at.push(i).push(2))));
    assert(within(x.dims, pulled(x.dims, at.push(i).push(3))));
    lemma_spread_boxes(x, true, at, i, j, 0);
    lemma_spread_boxes(x, true, at, i, j, 1);
    lemma_spread_boxes(x, true, at, i, j, 2);
    lemma_spread_boxes(x, true, at, i, j, 3);
    lemma_spread_boxes(y, false, at, i, j, 0);
    lemma_spread_boxes(y, false, at, i, j, 1);
    lemma_spread_boxes(y, false, at, i, j, 2);
    lemma_spread_boxes(y, false, at, i, j, 3);
}

/// The index of a pair leads to a box of either list.
proof fn lemma_pair_within(x: Seq<i64>, y: Seq<i64>, at: Seq<int>, i: int, j: int, k: int)
    requires
        x.len() >= 2,
        y.len() >= 2,
        is_boxes(x),
        is_boxes(y),
        broadcastable(batch_of(x), batch_of(y)),
        within(pairs_of(x, y), at.push(i).push(j)),
        0 <= k < 4,
    ensures
        within(x, pulled(x, at.push(i).push(k))),
        within(y, pulled(y, at.push(j).push(k))),
{
    let (p, q) = (batch_of(x), batch_of(y));
    let joint = broadcast_shape(p, q);
    let rank = joint_rank(p, q);
    let index = at.push(i).push(j);
    let pairs = pairs_of(x, y);
    assert(at.len() == rank);
    assert(0 <= index[rank as int] < pairs[rank as int]);
    assert(0 <= index[rank + 1int] < pairs[rank + 1int]);
    lemma_broadcast_fits(p, q);
    let (u, v) = (at.push(i).push(k), at.push(j).push(k));
    assert forall|t: int| 0 <= t < x.len() implies 0 <= #[trigger] pulled(x, u)[t] < x[t] by {
        let s = t + u.len() - x.len();
        if t < x.len() - 2 {
            assert(p[t] == x[t]);
            assert(0 <= index[s] < pairs[s]);
            assert(pairs[s] == joint[s]);
        }
    }
    assert forall|t: int| 0 <= t < y.len() implies 0 <= #[trigger] pulled(y, v)[t] < y[t] by {
        let s = t + v.len() - y.len();
        if t < y.len() - 2 {
            assert(q[t] == y[t]);
            assert(0 <= index[s] < pairs[s]);
            assert(pairs[s] == joint[s]);
        }
    }
}

} // verus!
