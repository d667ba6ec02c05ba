//! What scans compute: each element combines the elements up to it.
use crate::autodiff::lemma_collected;
use crate::elements::{
    broadcasting_repeats, copied, joined_values_follow_one_another, lemma_ravel_split,
    lemma_ravel_unit, lemma_total_step, lemma_unravel, narrowing_shifts_one_axis,
    reshape_keeps_the_order, slices_read_by_their_strides, stacked_values_are_its_slices, within,
    Element,
};
use crate::extents::lemma_prefix_tree;
use crate::facts::group_extents;
use crate::graph::{applied, Expr, Value};
use crate::indexing::{concatenated, joined, stacked, stacked_all, two};
use crate::scans::{
    combined_strict, lemma_combined, lemma_concatenated, lemma_doubling_failed, lemma_every_other,
    prefix_tree_strict, unit, Combine,
};
use crate::shape::volume;
use crate::sound::axis_total;
use crate::success::tree_scans_succeed_as_doubling_scans_do;
use vstd::prelude::*;

verus! {

/// Whether an operation is associative.
pub open spec fn associative<A>(join: spec_fn(A, A) -> A) -> bool {
    forall|a: A, b: A, c: A|
        #![trigger join(join(a, b), c)]
        #![trigger join(a, join(b, c))]
        join(join(a, b), c) == join(a, join(b, c))
}

/// Whether an operation is commutative.
pub open spec fn commutative<A>(join: spec_fn(A, A) -> A) -> bool {
    forall|a: A, b: A| #[trigger] join(a, b) == join(b, a)
}

/// The items of a row from one position to another, combined from the left.
pub open spec fn span<A>(row: spec_fn(int) -> A, join: spec_fn(A, A) -> A, from: int, to: int) -> A
    decreases to - from,
{
    if to <= from {
        row(from)
    } else {
        join(span(row, join, from, to - 1), row(to))
    }
}

/// Two neighbouring spans combine to one.
proof fn lemma_span<A>(
    row: spec_fn(int) -> A,
    join: spec_fn(A, A) -> A,
    from: int,
    middle: int,
    to: int,
)
    requires
        associative(join),
        from <= middle < to,
    ensures
        join(span(row, join, from, middle), span(row, join, middle + 1, to)) == span(
            row,
            join,
            from,
            to,
        ),
    decreases to - middle,
{
    if middle + 1 < to {
        lemma_span(row, join, from, middle, to - 1);
    }
}

/// A row of combined pairs has the spans of the row itself.
proof fn lemma_span_pairs<A>(
    row: spec_fn(int) -> A,
    pairs: spec_fn(int) -> A,
    join: spec_fn(A, A) -> A,
    to: int,
)
    requires
        associative(join),
        0 <= to,
        forall|i: int| 0 <= i <= to ==> #[trigger] pairs(i) == join(row(2 * i), row(2 * i + 1)),
    ensures
        span(pairs, join, 0, to) == span(row, join, 0, 2 * to + 1),
    decreases to,
{
    if to == 0 {
        assert(pairs(0) == join(row(0), row(1)));
        assert(span(row, join, 0, 1) == join(span(row, join, 0, 0), row(1)));
    } else {
        lemma_span_pairs(row, pairs, join, to - 1);
        let before = span(row, join, 0, 2 * to - 1);
        assert(span(row, join, 0, 2 * to) == join(before, row(2 * to)));
        assert(pairs(to) == join(row(2 * to), row(2 * to + 1)));
        assert(join(join(before, row(2 * to)), row(2 * to + 1)) == join(
            before,
            join(row(2 * to), row(2 * to + 1)),
        ));
    }
}

/// The index of one part of a cell: where cells are pairs, the last coordinate
/// tells their parts apart.
pub open spec fn probe(pairs: bool, index: Seq<int>, part: int) -> Seq<int> {
    if pairs {
        index.update(index.len() - 1, part)
    } else {
        index
    }
}

/// A cell of an expression under a reading of its elements. Where cells are not
/// pairs, both parts are the element itself.
pub open spec fn cell<A>(
    read: spec_fn(Element) -> A,
    pairs: bool,
    x: Expr,
    index: Seq<int>,
) -> (A, A) {
    (read(copied(x, probe(pairs, index, 0))), read(copied(x, probe(pairs, index, 1))))
}

/// Extents whose cells can be scanned along an axis.
pub open spec fn scannable(pairs: bool, dims: Seq<i64>, axis: usize) -> bool {
    &&& volume(dims) is Some
    &&& if pairs {
        axis + 1 < dims.len() <= usize::MAX + 1 && dims.last() == 2
    } else {
        axis < dims.len() <= usize::MAX
    }
}

proof fn lemma_cell_narrowed<A>(
    read: spec_fn(Element) -> A,
    pairs: bool,
    x: Expr,
    axis: usize,
    start: i64,
    length: i64,
    index: Seq<int>,
)
    requires
        x.narrow(axis, start, length) is Is,
        index.len() == x->Is_0.dims.len(),
        scannable(pairs, x->Is_0.dims, axis),
    ensures
        cell(read, pairs, x.narrow(axis, start, length), index) == cell(
            read,
            pairs,
            x,
            index.update(axis as int, index[axis as int] + start),
        ),
{
    let a = axis as int;
    let moved = index.update(a, index[a] + start);
    assert forall|part: int| copied(x.narrow(axis, start, length), #[trigger] probe(pairs, index, part))
        == copied(x, probe(pairs, moved, part)) by {
        let at = probe(pairs, index, part);
        narrowing_shifts_one_axis(x, axis, start, length, at);
        assert(at.update(a, at[a] + start) =~= probe(pairs, moved, part));
    }
}

proof fn lemma_cell_every_other<A>(
    read: spec_fn(Element) -> A,
    pairs: bool,
    x: Expr,
    axis: usize,
    start: i64,
    index: Seq<int>,
)
    requires
        x.every_other(axis, start) is Is,
        index.len() == x->Is_0.dims.len(),
        scannable(pairs, x->Is_0.dims, axis),
    ensures
        cell(read, pairs, x.every_other(axis, start), index) == cell(
            read,
            pairs,
            x,
            index.update(axis as int, 2 * index[axis as int] + start),
        ),
{
    let a = axis as int;
    let dims = x->Is_0.dims;
    let moved = index.update(a, 2 * index[a] + start);
    let starts = unit(dims.len(), axis, 0, start);
    let strides = unit(dims.len(), axis, 1, 2);
    assert forall|part: int| copied(x.every_other(axis, start), #[trigger] probe(pairs, index, part))
        == copied(x, probe(pairs, moved, part)) by {
        let at = probe(pairs, index, part);
        slices_read_by_their_strides(x, starts, dims, strides, at);
        let source = Seq::new(at.len(), |i: int| starts[i] + at[i] * strides[i]);
        let there = probe(pairs, moved, part);
        assert forall|i: int| 0 <= i < at.len() implies #[trigger] source[i] == there[i] by {
            if i == a {
                assert(strides[i] == 2 && starts[i] == start);
                assert(at[i] * 2 == 2 * at[i]);
            } else {
                assert(strides[i] == 1 && starts[i] == 0);
                assert(at[i] * 1 == at[i]);
            }
        }
        assert(source =~= there);
    }
}

proof fn lemma_cell_joined<A>(
    read: spec_fn(Element) -> A,
    pairs: bool,
    x: Value,
    y: Value,
    axis: usize,
    index: Seq<int>,
)
    requires
        concatenated(seq![x, y], axis) is Is,
        scannable(pairs, x.dims, axis),
        index.len() == x.dims.len(),
        x.dims[axis as int] >= 0,
        0 <= index[axis as int] < x.dims[axis as int] + y.dims[axis as int],
        y.dims[axis as int] >= 0,
    ensures
        cell(read, pairs, concatenated(seq![x, y], axis), index) == if index[axis as int]
            < x.dims[axis as int] {
            cell(read, pairs, Expr::Is(x), index)
        } else {
            cell(
                read,
                pairs,
                Expr::Is(y),
                index.update(axis as int, index[axis as int] - x.dims[axis as int]),
            )
        },
{
    let a = axis as int;
    let args = seq![x, y];
    assert(args.take(0).len() == 0);
    lemma_total_step(args, axis, 0);
    let size = x.dims[a];
    if index[a] < size {
        assert forall|part: int| copied(concatenated(args, axis), #[trigger] probe(pairs, index, part))
            == copied(Expr::Is(x), probe(pairs, index, part)) by {
            let at = probe(pairs, index, part);
            joined_values_follow_one_another(args, axis, 0, at);
            assert(at.update(a, axis_total(args.take(0), axis) + at[a]) =~= at);
        }
    } else {
        let moved = index.update(a, index[a] - size);
        assert forall|part: int| copied(concatenated(args, axis), #[trigger] probe(pairs, index, part))
            == copied(Expr::Is(y), probe(pairs, moved, part)) by {
            let at = probe(pairs, moved, part);
            joined_values_follow_one_another(args, axis, 1, at);
            assert(at.update(a, axis_total(args.take(1), axis) + at[a]) =~= probe(
                pairs,
                index,
                part,
            ));
        }
    }
}

/// Two values stacked after an axis and merged into it alternate along it.
proof fn lemma_cell_interleaved<A>(
    read: spec_fn(Element) -> A,
    pairs: bool,
    x: Value,
    y: Value,
    axis: usize,
    dims: Seq<i64>,
    index: Seq<int>,
)
    requires
        stacked(seq![x, y], (axis + 1) as usize).reshape(dims) is Is,
        scannable(pairs, x.dims, axis),
        0 <= x.dims[axis as int],
        2 * x.dims[axis as int] <= i64::MAX,
        dims == x.dims.update(axis as int, (2 * x.dims[axis as int]) as i64),
        within(dims, index),
    ensures
        cell(read, pairs, stacked(seq![x, y], (axis + 1) as usize).reshape(dims), index) == cell(
            read,
            pairs,
            if index[axis as int] % 2 == 0 {
                Expr::Is(x)
            } else {
                Expr::Is(y)
            },
            index.update(axis as int, index[axis as int] / 2),
        ),
{
    let a = axis as int;
    let args = seq![x, y];
    let next = (axis + 1) as usize;
    let stack = stacked(args, next);
    let half = index.update(a, index[a] / 2);
    let k = index[a] % 2;
    assert(0 <= index[a] < dims[a]);
    assert forall|part: int| 0 <= part < 2 implies copied(
        stack.reshape(dims),
        #[trigger] probe(pairs, index, part),
    ) == copied(Expr::Is(args[k]), probe(pairs, half, part)) by {
        let at = probe(pairs, index, part);
        let local = probe(pairs, half, part);
        reshape_keeps_the_order(stack, dims, at);
        assert(within(x.dims, local)) by {
            assert forall|i: int| 0 <= i < x.dims.len() implies 0 <= #[trigger] local[i]
                < x.dims[i] by {
                assert(0 <= index[i] < dims[i]);
            }
        }
        stacked_values_are_its_slices(args, next, k, local);
        let wide = x.dims.insert(a + 1, 2);
        let there = local.insert(a + 1, k);
        lemma_ravel_split(dims, at, a, x.dims[a], 2, at[a] / 2, k);
        assert(dims.update(a, x.dims[a]).insert(a + 1, 2) =~= wide);
        assert(at.update(a, at[a] / 2).insert(a + 1, k) =~= there);
        assert(within(wide, there)) by {
            assert forall|i: int| 0 <= i < wide.len() implies 0 <= #[trigger] there[i] < wide[i] by {
                if i <= a {
                    assert(0 <= local[i] < x.dims[i]);
                } else if i > a + 1 {
                    assert(0 <= local[i - 1] < x.dims[i - 1]);
                }
            }
        }
        lemma_unravel(wide, there);
    }
}

/// The row of cells along an axis through an index.
pub open spec fn row<A>(
    read: spec_fn(Element) -> A,
    pairs: bool,
    x: Expr,
    axis: usize,
    index: Seq<int>,
) -> spec_fn(int) -> (A, A) {
    |k: int| cell(read, pairs, x, index.update(axis as int, k))
}

/// Whether a cell of two combined blocks is the combination of their cells.
pub open spec fn combined_cell<A>(
    read: spec_fn(Element) -> A,
    join: spec_fn((A, A), (A, A)) -> (A, A),
    combine: Combine,
    x: Value,
    y: Value,
    index: Seq<int>,
) -> bool {
    let pairs = combine == Combine::Affine;
    let z = Expr::Is(x).combined(Expr::Is(y), combine);
    z is Is && x.dims == y.dims && within(x.dims, index) && (pairs ==> x.dims.len() > 0
        && x.dims.last() == 2) && x.dims.len() <= usize::MAX + 1 ==> cell(read, pairs, z, index)
        == join(cell(read, pairs, Expr::Is(x), index), cell(read, pairs, Expr::Is(y), index))
}

/// Whether the cells of combined blocks are the combinations of their cells.
pub open spec fn combines<A>(
    read: spec_fn(Element) -> A,
    join: spec_fn((A, A), (A, A)) -> (A, A),
    combine: Combine,
) -> bool {
    forall|x: Value, y: Value, index: Seq<int>| #[trigger]
        combined_cell(read, join, combine, x, y, index)
}

/// Combined blocks can be scanned as their operands can.
proof fn lemma_combined_extents(x: Value, y: Value, axis: usize, combine: Combine)
    requires
        Expr::Is(x).combined(Expr::Is(y), combine) is Is,
        x.dims == y.dims,
        scannable(combine == Combine::Affine, x.dims, axis),
    ensures
        Expr::Is(x).combined(Expr::Is(y), combine)->Is_0.dims == x.dims,
{
    let z = Expr::Is(x).combined(Expr::Is(y), combine)->Is_0;
    lemma_combined(x, y, z, combine);
    if combine == Combine::Affine {
        broadcast use group_extents;

        reveal(Expr::combined);
        let (l, r) = (Expr::Is(x), Expr::Is(y));
        let last = (x.dims.len() - 1) as usize;
        let a = r.narrow(last, 0, 1);
        let offset = l.narrow(last, 1, 1).given(a);
        let b = a.mul(offset).add(r.narrow(last, 1, 1));
        let factor = l.narrow(last, 0, 1).given(b);
        let p = a.mul(factor).given(factor);
        lemma_concatenated(p->Is_0, b->Is_0, z, last);
        assert(z.dims =~= x.dims);
    }
}

/// The combined pairs of a row, as cells.
proof fn lemma_paired<A>(
    read: spec_fn(Element) -> A,
    join: spec_fn((A, A), (A, A)) -> (A, A),
    combine: Combine,
    x: Value,
    axis: usize,
    length: int,
)
    requires
        combines(read, join, combine),
        scannable(combine == Combine::Affine, x.dims, axis),
        x.dims[axis as int] == length,
        length > 1,
        Expr::Is(x).paired(axis, combine, length) is Is,
    ensures
        ({
            let y = Expr::Is(x).paired(axis, combine, length);
            let pairs = combine == Combine::Affine;
            let half = x.dims.update(axis as int, (length / 2) as i64);
            &&& Expr::Is(x).every_other(axis, 0) is Is
            &&& y->Is_0.dims == half
            &&& scannable(pairs, half, axis)
            &&& forall|index: Seq<int>| #[trigger]
                within(half, index) ==> cell(read, pairs, y, index) == join(
                    cell(
                        read,
                        pairs,
                        Expr::Is(x),
                        index.update(axis as int, 2 * index[axis as int]),
                    ),
                    cell(
                        read,
                        pairs,
                        Expr::Is(x),
                        index.update(axis as int, 2 * index[axis as int] + 1),
                    ),
                )
        }),
{
    broadcast use group_extents;

    reveal(Expr::paired);
    let pairs = combine == Combine::Affine;
    let a = axis as int;
    let e = Expr::Is(x);
    let even = e.every_other(axis, 0);
    let odd = e.every_other(axis, 1);
    let near = even.narrow(axis, 0, (length / 2) as i64);
    let y = e.paired(axis, combine, length);
    let other = odd.given(even);
    combined_strict(near.given(other), other, combine);
    assert(even is Is);
    lemma_every_other(x, even->Is_0, axis, 0);
    assert(odd is Is && near is Is && y == near.combined(odd, combine));
    lemma_every_other(x, odd->Is_0, axis, 1);
    let half = x.dims.update(a, (length / 2) as i64);
    assert(near->Is_0.dims =~= half);
    assert(odd->Is_0.dims =~= half);
    assert(volume(half) is Some && volume(even->Is_0.dims) is Some) by {
        reveal(applied);
    }
    lemma_combined_extents(near->Is_0, odd->Is_0, axis, combine);
    assert forall|index: Seq<int>| #[trigger] within(half, index) implies cell(
        read,
        pairs,
        y,
        index,
    ) == join(
        cell(read, pairs, e, index.update(a, 2 * index[a])),
        cell(read, pairs, e, index.update(a, 2 * index[a] + 1)),
    ) by {
        assert(combined_cell(read, join, combine, near->Is_0, odd->Is_0, index));
        lemma_cell_narrowed(read, pairs, even, axis, 0, (length / 2) as i64, index);
        assert(index.update(a, index[a] + 0) =~= index);
        lemma_cell_every_other(read, pairs, e, axis, 0, index);
        lemma_cell_every_other(read, pairs, e, axis, 1, index);
    }
}

/// The cells of an assembled scan: even positions hold the even prefixes, odd
/// ones the scanned pairs.
proof fn lemma_assembled<A>(
    read: spec_fn(Element) -> A,
    join: spec_fn((A, A), (A, A)) -> (A, A),
    combine: Combine,
    x: Value,
    odds: Value,
    axis: usize,
    length: int,
    index: Seq<int>,
)
    requires
        combines(read, join, combine),
        scannable(combine == Combine::Affine, x.dims, axis),
        x.dims[axis as int] == length,
        length > 1,
        odds.dims == x.dims.update(axis as int, (length / 2) as i64),
        scannable(combine == Combine::Affine, odds.dims, axis),
        Expr::Is(x).every_other(axis, 0) is Is,
        Expr::Is(x).assembled(
            Expr::Is(x).every_other(axis, 0),
            Expr::Is(odds),
            axis,
            combine,
            length,
        ) is Is,
        within(x.dims, index),
    ensures
        ({
            let pairs = combine == Combine::Affine;
            let at = index[axis as int];
            let here = cell(read, pairs, Expr::Is(x), index);
            cell(
                read,
                pairs,
                Expr::Is(x).assembled(
                    Expr::Is(x).every_other(axis, 0),
                    Expr::Is(odds),
                    axis,
                    combine,
                    length,
                ),
                index,
            ) == if at == 0 {
                here
            } else if at % 2 == 0 {
                join(
                    cell(read, pairs, Expr::Is(odds), index.update(axis as int, at / 2 - 1)),
                    here,
                )
            } else {
                cell(read, pairs, Expr::Is(odds), index.update(axis as int, at / 2))
            }
        }),
{
    broadcast use group_extents;

    reveal(Expr::assembled);
    let pairs = combine == Combine::Affine;
    let a = axis as int;
    let e = Expr::Is(x);
    let o = Expr::Is(odds);
    let even = e.every_other(axis, 0);
    let y = e.assembled(even, o, axis, combine, length);
    let half = length / 2;
    let remaining = length - half - 1;
    let first = e.narrow(axis, 0, 1);
    let earlier = o.narrow(axis, 0, remaining as i64).given(first);
    let own = even.narrow(axis, 1, remaining as i64).given(earlier);
    let later = earlier.combined(own, combine);
    let evens = if remaining == 0 {
        first
    } else {
        joined(two(first, later.given(own)), axis)
    };
    let front = evens.narrow(axis, 0, half as i64);
    let dims = x.dims.update(a, (2 * half) as i64);
    let merged = stacked_all(two(front, o), (axis + 1) as usize).reshape(dims);
    let at = index[a];
    assert(0 <= at < length);
    assert(first is Is && evens is Is && front is Is && merged is Is);
    lemma_every_other(x, even->Is_0, axis, 0);
    assert(volume(even->Is_0.dims) is Some && volume(first->Is_0.dims) is Some) by {
        reveal(applied);
        reveal(Expr::narrow);
    }
    if remaining > 0 {
        assert(later is Is && earlier is Is && own is Is);
        assert(earlier->Is_0.dims =~= x.dims.update(a, remaining as i64));
        assert(own->Is_0.dims =~= x.dims.update(a, remaining as i64));
        assert(volume(earlier->Is_0.dims) is Some) by {
            reveal(applied);
            reveal(Expr::narrow);
        }
        lemma_combined_extents(earlier->Is_0, own->Is_0, axis, combine);
        lemma_concatenated(first->Is_0, later->Is_0, evens->Is_0, axis);
    }
    assert(evens->Is_0.dims =~= x.dims.update(a, (remaining + 1) as i64));
    assert(front->Is_0.dims =~= odds.dims);
    assert(odds.dims.update(a, (2 * half) as i64) =~= dims);
    if at < 2 * half {
        lemma_half(at, half);
        assert forall|i: int| 0 <= i < dims.len() implies 0 <= #[trigger] index[i] < dims[i] by {
            assert(0 <= index[i] < x.dims[i]);
        }
        lemma_cell_interleaved(read, pairs, front->Is_0, odds, axis, dims, index);
    }
    if length % 2 == 1 {
        let last = evens.narrow(axis, half as i64, 1);
        lemma_concatenated(merged->Is_0, last->Is_0, y->Is_0, axis);
        assert(scannable(pairs, dims, axis)) by {
            reveal(applied);
        }
        lemma_cell_joined(read, pairs, merged->Is_0, last->Is_0, axis, index);
        if at == 2 * half {
            let end = index.update(a, 0);
            lemma_cell_narrowed(read, pairs, evens, axis, half as i64, 1, end);
            assert(end.update(a, 0 + half) =~= index.update(a, at / 2));
            assert(index.update(a, at - dims[a]) =~= end);
        }
    }
    if at % 2 == 0 {
        let k = index.update(a, at / 2);
        assert(cell(read, pairs, y, index) == cell(read, pairs, evens, k)) by {
            if at < 2 * half {
                lemma_cell_narrowed(read, pairs, evens, axis, 0, half as i64, k);
                assert(k.update(a, k[a] + 0) =~= k);
            }
        }
        if remaining > 0 {
            lemma_cell_joined(read, pairs, first->Is_0, later->Is_0, axis, k);
        }
        if at == 0 {
            lemma_cell_narrowed(read, pairs, e, axis, 0, 1, k);
            assert(k.update(a, k[a] + 0) =~= index);
        } else {
            let j = index.update(a, at / 2 - 1);
            assert(k.update(a, k[a] - 1) =~= j);
            assert(within(earlier->Is_0.dims, j)) by {
                assert forall|i: int| 0 <= i < j.len() implies 0 <= #[trigger] j[i]
                    < earlier->Is_0.dims[i] by {
                    assert(0 <= index[i] < x.dims[i]);
                }
            }
            assert(combined_cell(read, join, combine, earlier->Is_0, own->Is_0, j));
            lemma_cell_narrowed(read, pairs, o, axis, 0, remaining as i64, j);
            assert(j.update(a, j[a] + 0) =~= j);
            lemma_cell_narrowed(read, pairs, even, axis, 1, remaining as i64, j);
            assert(j.update(a, j[a] + 1) =~= k);
            lemma_cell_every_other(read, pairs, e, axis, 0, k);
            assert(k.update(a, 2 * k[a] + 0) =~= index);
        }
    }
}

/// Halves of positions below twice a number lie below it.
proof fn lemma_half(at: int, half: int)
    requires
        0 <= at < 2 * half,
    ensures
        0 <= at / 2 < half,
{
}

/// The scanned pairs of a row are its spans of even length.
proof fn lemma_scanned_pairs<A>(
    read: spec_fn(Element) -> A,
    join: spec_fn((A, A), (A, A)) -> (A, A),
    combine: Combine,
    x: Value,
    axis: usize,
    length: int,
    index: Seq<int>,
    k: int,
)
    requires
        combines(read, join, combine),
        associative(join),
        scannable(combine == Combine::Affine, x.dims, axis),
        x.dims[axis as int] == length,
        length > 1,
        Expr::Is(x).paired(axis, combine, length).prefix_tree(axis, combine, length / 2) is Is,
        within(x.dims, index),
        0 <= k < length / 2,
    ensures
        cell(
            read,
            combine == Combine::Affine,
            Expr::Is(x).paired(axis, combine, length).prefix_tree(axis, combine, length / 2),
            index.update(axis as int, k),
        ) == span(
            row(read, combine == Combine::Affine, Expr::Is(x), axis, index),
            join,
            0,
            2 * k + 1,
        ),
    decreases length, 0int,
{
    let pairs = combine == Combine::Affine;
    let a = axis as int;
    let e = Expr::Is(x);
    let y = e.paired(axis, combine, length);
    prefix_tree_strict(y, axis, combine, length / 2);
    lemma_paired(read, join, combine, x, axis, length);
    let half = x.dims.update(a, (length / 2) as i64);
    let j = index.update(a, k);
    assert(within(half, j)) by {
        assert forall|i: int| 0 <= i < j.len() implies 0 <= #[trigger] j[i] < half[i] by {
            assert(0 <= index[i] < x.dims[i]);
        }
    }
    lemma_tree(read, join, combine, y->Is_0, axis, length / 2, j);
    let whole = row(read, pairs, e, axis, index);
    let parts = row(read, pairs, y, axis, j);
    assert forall|i: int| 0 <= i <= k implies #[trigger] parts(i) == join(
        whole(2 * i),
        whole(2 * i + 1),
    ) by {
        let at = j.update(a, i);
        assert(within(half, at)) by {
            assert forall|n: int| 0 <= n < at.len() implies 0 <= #[trigger] at[n] < half[n] by {
                assert(0 <= index[n] < x.dims[n]);
            }
        }
        assert(at.update(a, 2 * at[a]) =~= index.update(a, 2 * i));
        assert(at.update(a, 2 * at[a] + 1) =~= index.update(a, 2 * i + 1));
    }
    lemma_span_pairs(whole, parts, join, k);
}

/// A tree scan gives each cell the span of its row up to it.
proof fn lemma_tree<A>(
    read: spec_fn(Element) -> A,
    join: spec_fn((A, A), (A, A)) -> (A, A),
    combine: Combine,
    x: Value,
    axis: usize,
    length: int,
    index: Seq<int>,
)
    requires
        combines(read, join, combine),
        associative(join),
        scannable(combine == Combine::Affine, x.dims, axis),
        x.dims[axis as int] == length,
        Expr::Is(x).prefix_tree(axis, combine, length) is Is,
        within(x.dims, index),
    ensures
        cell(
            read,
            combine == Combine::Affine,
            Expr::Is(x).prefix_tree(axis, combine, length),
            index,
        ) == span(
            row(read, combine == Combine::Affine, Expr::Is(x), axis, index),
            join,
            0,
            index[axis as int],
        ),
    decreases length, 1int,
{
    let pairs = combine == Combine::Affine;
    let a = axis as int;
    let e = Expr::Is(x);
    let at = index[a];
    let whole = row(read, pairs, e, axis, index);
    assert(0 <= at < length);
    assert(index.update(a, at) =~= index);
    assert(whole(at) == cell(read, pairs, e, index));
    assert(!x.dims.contains(0)) by {
        if x.dims.contains(0) {
            let i = choose|i: int| 0 <= i < x.dims.len() && x.dims[i] == 0;
            assert(0 <= index[i] < x.dims[i]);
        }
    }
    if length > 1 {
        let y = e.paired(axis, combine, length);
        let odds = y.prefix_tree(axis, combine, length / 2);
        assert(odds is Is);
        prefix_tree_strict(y, axis, combine, length / 2);
        lemma_paired(read, join, combine, x, axis, length);
        lemma_prefix_tree(y->Is_0, axis, combine, length / 2);
        lemma_assembled(read, join, combine, x, odds->Is_0, axis, length, index);
        if at % 2 == 1 {
            lemma_scanned_pairs(read, join, combine, x, axis, length, index, at / 2);
        } else if at > 0 {
            lemma_scanned_pairs(read, join, combine, x, axis, length, index, at / 2 - 1);
        }
    }
}

/// The readings of the elements along an axis through an index.
pub open spec fn line<A>(
    read: spec_fn(Element) -> A,
    x: Expr,
    axis: usize,
    index: Seq<int>,
) -> spec_fn(int) -> A {
    |k: int| read(copied(x, index.update(axis as int, k)))
}

/// Whether a reading takes combined blocks, element by element, to `join`.
pub open spec fn reads_combined<A>(
    read: spec_fn(Element) -> A,
    join: spec_fn(A, A) -> A,
    combine: Combine,
) -> bool {
    forall|x: Expr, y: Expr, index: Seq<int>|
        x.combined(y, combine) is Is && within(x->Is_0.dims, index) ==> read(
            #[trigger] copied(x.combined(y, combine), index),
        ) == join(read(copied(x, index)), read(copied(y, index)))
}

/// An operation on both parts of a cell.
pub open spec fn both<A>(join: spec_fn(A, A) -> A) -> spec_fn((A, A), (A, A)) -> (A, A) {
    |p: (A, A), q: (A, A)| (join(p.0, q.0), join(p.1, q.1))
}

/// A span of cells holds the span of their first parts.
proof fn lemma_first_parts<A>(
    cells: spec_fn(int) -> (A, A),
    items: spec_fn(int) -> A,
    join: spec_fn(A, A) -> A,
    from: int,
    to: int,
)
    requires
        forall|k: int| #[trigger] cells(k).0 == items(k),
    ensures
        span(cells, both(join), from, to).0 == span(items, join, from, to),
    decreases to - from,
{
    if to > from {
        lemma_first_parts(cells, items, join, from, to - 1);
    }
}

/// Rows that agree have the same spans.
proof fn lemma_same_spans<A>(
    one: spec_fn(int) -> A,
    other: spec_fn(int) -> A,
    join: spec_fn(A, A) -> A,
    from: int,
    to: int,
)
    requires
        forall|k: int| #[trigger] one(k) == other(k),
    ensures
        span(one, join, from, to) == span(other, join, from, to),
    decreases to - from,
{
    if to > from {
        lemma_same_spans(one, other, join, from, to - 1);
    }
}

/// A tree scan combines, at each position, the elements up to it: whatever an
/// associative operation stands for the combination, sums of exponentials as
/// products alike.
pub proof fn tree_scans_combine_the_elements_up_to_each<A>(
    read: spec_fn(Element) -> A,
    join: spec_fn(A, A) -> A,
    combine: Combine,
    x: Value,
    axis: usize,
    index: Seq<int>,
)
    requires
        combine != Combine::Affine,
        associative(join),
        reads_combined(read, join, combine),
        volume(x.dims) is Some,
        x.dims.len() <= usize::MAX,
        Expr::Is(x).scanned(axis, combine) is Is,
        within(x.dims, index),
    ensures
        read(copied(Expr::Is(x).scanned(axis, combine), index)) == span(
            line(read, Expr::Is(x), axis, index),
            join,
            0,
            index[axis as int],
        ),
{
    let e = Expr::Is(x);
    assert(combines(read, both(join), combine)) by {
        assert forall|l: Value, r: Value, at: Seq<int>| #[trigger]
            combined_cell(read, both(join), combine, l, r, at) by {}
    }
    assert(associative(both(join))) by {
        assert forall|a: (A, A), b: (A, A), c: (A, A)|
            #![trigger both(join)(both(join)(a, b), c)]
            #![trigger both(join)(a, both(join)(b, c))]
            both(join)(both(join)(a, b), c) == both(join)(a, both(join)(b, c)) by {
            assert(join(join(a.0, b.0), c.0) == join(a.0, join(b.0, c.0)));
            assert(join(join(a.1, b.1), c.1) == join(a.1, join(b.1, c.1)));
        }
    }
    lemma_tree(read, both(join), combine, x, axis, x.dims[axis as int] as int, index);
    let cells = row(read, false, e, axis, index);
    let items = line(read, e, axis, index);
    assert forall|k: int| #[trigger] cells(k).0 == items(k) by {}
    lemma_first_parts(cells, items, join, 0, index[axis as int]);
}

/// The position from which a window of a width reaches to a position.
pub open spec fn reach(at: int, width: int) -> int {
    if at - width + 1 > 0 {
        at - width + 1
    } else {
        0
    }
}

/// Whether the elements of a value hold the windows of a width over another.
spec fn windowed<A>(
    read: spec_fn(Element) -> A,
    join: spec_fn(A, A) -> A,
    x: Value,
    v: Value,
    axis: usize,
    width: int,
) -> bool {
    forall|index: Seq<int>| #[trigger]
        within(x.dims, index) ==> read(copied(Expr::Is(v), index)) == span(
            line(read, Expr::Is(x), axis, index),
            join,
            reach(index[axis as int], width),
            index[axis as int],
        )
}

/// One stage of a doubling scan doubles the windows.
proof fn lemma_doubled<A>(
    read: spec_fn(Element) -> A,
    join: spec_fn(A, A) -> A,
    x: Value,
    v: Value,
    axis: usize,
    length: i64,
    width: i64,
)
    requires
        associative(join),
        commutative(join),
        reads_combined(read, join, Combine::LogAddExp),
        scannable(false, x.dims, axis),
        v.dims == x.dims,
        x.dims[axis as int] == length,
        0 < width < length,
        windowed(read, join, x, v, axis, width as int),
        Expr::Is(v).doubling_stage(axis, length, width) is Is,
    ensures
        Expr::Is(v).doubling_stage(axis, length, width)->Is_0.dims == x.dims,
        windowed(
            read,
            join,
            x,
            Expr::Is(v).doubling_stage(axis, length, width)->Is_0,
            axis,
            2 * width,
        ),
{
    broadcast use group_extents;

    let a = axis as int;
    let e = Expr::Is(v);
    let y = e.doubling_stage(axis, length, width);
    let rest = (length - width) as i64;
    let prefix = e.narrow(axis, 0, width);
    let late = e.narrow(axis, width, rest);
    let early = e.narrow(axis, 0, rest);
    let tail = late.given(prefix).logaddexp(early);
    combined_strict(late.given(prefix), early, Combine::LogAddExp);
    assert(tail == late.given(prefix).combined(early, Combine::LogAddExp)) by {
        reveal(Expr::combined);
    }
    assert(prefix is Is && tail is Is && late is Is && early is Is);
    assert(late->Is_0.dims =~= x.dims.update(a, rest));
    assert(early->Is_0.dims =~= x.dims.update(a, rest));
    assert(volume(late->Is_0.dims) is Some && volume(prefix->Is_0.dims) is Some) by {
        reveal(applied);
        reveal(Expr::narrow);
    }
    lemma_combined_extents(late->Is_0, early->Is_0, axis, Combine::LogAddExp);
    lemma_concatenated(prefix->Is_0, tail->Is_0, y->Is_0, axis);
    assert(y->Is_0.dims =~= x.dims);
    assert forall|index: Seq<int>| #[trigger] within(x.dims, index) implies read(copied(y, index))
        == span(
        line(read, Expr::Is(x), axis, index),
        join,
        reach(index[a], 2 * width),
        index[a],
    ) by {
        let at = index[a];
        let items = line(read, Expr::Is(x), axis, index);
        assert(0 <= index[a] < x.dims[a]);
        lemma_cell_joined(read, false, prefix->Is_0, tail->Is_0, axis, index);
        if at < width {
            lemma_cell_narrowed(read, false, e, axis, 0, width, index);
            assert(index.update(a, at + 0) =~= index);
        } else {
            let j = index.update(a, at - width);
            assert(within(late->Is_0.dims, j)) by {
                assert forall|i: int| 0 <= i < j.len() implies 0 <= #[trigger] j[i]
                    < late->Is_0.dims[i] by {
                    assert(0 <= index[i] < x.dims[i]);
                }
            }
            assert(read(copied(tail, j)) == join(read(copied(late, j)), read(copied(early, j))));
            lemma_cell_narrowed(read, false, e, axis, width, rest, j);
            assert(j.update(a, j[a] + width) =~= index);
            lemma_cell_narrowed(read, false, e, axis, 0, rest, j);
            assert(j.update(a, j[a] + 0) =~= j);
            assert(within(x.dims, j)) by {
                assert forall|i: int| 0 <= i < j.len() implies 0 <= #[trigger] j[i] < x.dims[i] by {
                    assert(0 <= index[i] < x.dims[i]);
                }
            }
            let others = line(read, Expr::Is(x), axis, j);
            assert forall|k: int| #[trigger] others(k) == items(k) by {
                assert(j.update(a, k) =~= index.update(a, k));
            }
            let from = reach(at - width, width as int);
            lemma_same_spans(others, items, join, from, at - width);
            let before = span(items, join, from, at - width);
            let here = span(items, join, at - width + 1, at);
            assert(join(here, before) == join(before, here));
            lemma_span(items, join, from, at - width, at);
        }
    }
}

/// The stages of a doubling scan end with windows that reach the beginning.
proof fn lemma_doubling_windows<A>(
    read: spec_fn(Element) -> A,
    join: spec_fn(A, A) -> A,
    x: Value,
    v: Value,
    axis: usize,
    length: i64,
    width: i64,
    index: Seq<int>,
)
    requires
        associative(join),
        commutative(join),
        reads_combined(read, join, Combine::LogAddExp),
        scannable(false, x.dims, axis),
        v.dims == x.dims,
        x.dims[axis as int] == length,
        0 < width < length,
        windowed(read, join, x, v, axis, width as int),
        Expr::Is(v).doubling(axis, length, width) is Is,
        within(x.dims, index),
    ensures
        read(copied(Expr::Is(v).doubling(axis, length, width), index)) == span(
            line(read, Expr::Is(x), axis, index),
            join,
            0,
            index[axis as int],
        ),
    decreases length - width,
{
    let next = Expr::Is(v).doubling_stage(axis, length, width);
    assert(0 <= index[axis as int] < x.dims[axis as int]);
    if next is Fails && width < length - width {
        lemma_doubling_failed(next->Fails_0, axis, length, (width * 2) as i64);
    }
    lemma_doubled(read, join, x, v, axis, length, width);
    if width < length - width {
        lemma_doubling_windows(
            read,
            join,
            x,
            next->Is_0,
            axis,
            length,
            (width * 2) as i64,
            index,
        );
    }
}

/// A doubling scan combines, at each position, the elements up to it, as a tree
/// scan does, where the combination is commutative too.
pub proof fn doubling_scans_combine_the_elements_up_to_each<A>(
    read: spec_fn(Element) -> A,
    join: spec_fn(A, A) -> A,
    x: Value,
    axis: usize,
    index: Seq<int>,
)
    requires
        associative(join),
        commutative(join),
        reads_combined(read, join, Combine::LogAddExp),
        volume(x.dims) is Some,
        x.dims.len() <= usize::MAX,
        Expr::Is(x).logcumsumexp(axis) is Is,
        within(x.dims, index),
    ensures
        read(copied(Expr::Is(x).logcumsumexp(axis), index)) == span(
            line(read, Expr::Is(x), axis, index),
            join,
            0,
            index[axis as int],
        ),
        Expr::Is(x).scanned(axis, Combine::LogAddExp) is Is ==> read(
            copied(Expr::Is(x).logcumsumexp(axis), index),
        ) == read(copied(Expr::Is(x).scanned(axis, Combine::LogAddExp), index)),
{
    let a = axis as int;
    let length = x.dims[a];
    assert(0 <= index[a] < x.dims[a]);
    assert(!x.dims.contains(0)) by {
        if x.dims.contains(0) {
            let i = choose|i: int| 0 <= i < x.dims.len() && x.dims[i] == 0;
            assert(0 <= index[i] < x.dims[i]);
        }
    }
    let items = line(read, Expr::Is(x), axis, index);
    assert(index.update(a, index[a]) =~= index);
    assert(items(index[a]) == read(copied(Expr::Is(x), index)));
    if length > 1 {
        assert(windowed(read, join, x, x, axis, 1)) by {
            assert forall|at: Seq<int>| #[trigger] within(x.dims, at) implies read(
                copied(Expr::Is(x), at),
            ) == span(line(read, Expr::Is(x), axis, at), join, reach(at[a], 1), at[a]) by {
                assert(0 <= at[a] < x.dims[a]);
                assert(at.update(a, at[a]) =~= at);
            }
        }
        lemma_doubling_windows(read, join, x, x, axis, length, 1, index);
    }
    if Expr::Is(x).scanned(axis, Combine::LogAddExp) is Is {
        tree_scans_combine_the_elements_up_to_each(read, join, Combine::LogAddExp, x, axis, index);
    }
}

/// The cumulative log-sum-exp by a tree and the one by doubling succeed on the
/// same inputs, have the same extents and hold the same elements, whatever
/// associative and commutative operation stands for the combination.
pub proof fn tree_scans_agree_with_doubling_scans<A>(
    read: spec_fn(Element) -> A,
    join: spec_fn(A, A) -> A,
    x: Value,
    axis: usize,
    index: Seq<int>,
)
    requires
        associative(join),
        commutative(join),
        reads_combined(read, join, Combine::LogAddExp),
        volume(x.dims) is Some,
        x.dims.len() <= usize::MAX,
    ensures
        ({
            let doubled = Expr::Is(x).logcumsumexp(axis);
            let tree = Expr::Is(x).scanned(axis, Combine::LogAddExp);
            &&& tree is Is <==> doubled is Is
            &&& doubled is Is ==> tree->Is_0.dims == x.dims && doubled->Is_0.dims == x.dims
            &&& doubled is Is && within(x.dims, index) ==> read(copied(tree, index)) == read(
                copied(doubled, index),
            )
        }),
{
    tree_scans_succeed_as_doubling_scans_do(x, axis);
    if Expr::Is(x).logcumsumexp(axis) is Is && within(x.dims, index) {
        doubling_scans_combine_the_elements_up_to_each(read, join, x, axis, index);
    }
}

/// The sum of the numbers of a row up to a position.
pub open spec fn running_sum(row: spec_fn(int) -> real, to: int) -> real
    decreases to,
{
    if to <= 0 {
        row(0)
    } else {
        running_sum(row, to - 1) + row(to)
    }
}

/// Spans by addition are running sums.
proof fn lemma_running_sum(row: spec_fn(int) -> real, join: spec_fn(real, real) -> real, to: int)
    requires
        forall|a: real, b: real| #[trigger] join(a, b) == a + b,
    ensures
        span(row, join, 0, to) == running_sum(row, to),
    decreases to,
{
    if to > 0 {
        lemma_running_sum(row, join, to - 1);
    }
}

/// Where every element is read as its exponential, so that combining two adds
/// what they are read as, both cumulative log-sum-exps hold at each position the
/// sum of the exponentials up to it.
pub proof fn cumulative_scans_sum_exponentials(
    exponential: spec_fn(Element) -> real,
    x: Value,
    axis: usize,
    index: Seq<int>,
)
    requires
        reads_combined(exponential, |a: real, b: real| a + b, Combine::LogAddExp),
        volume(x.dims) is Some,
        x.dims.len() <= usize::MAX,
        Expr::Is(x).logcumsumexp(axis) is Is,
        within(x.dims, index),
    ensures
        exponential(copied(Expr::Is(x).logcumsumexp(axis), index)) == running_sum(
            line(exponential, Expr::Is(x), axis, index),
            index[axis as int],
        ),
        exponential(copied(Expr::Is(x).scanned(axis, Combine::LogAddExp), index)) == running_sum(
            line(exponential, Expr::Is(x), axis, index),
            index[axis as int],
        ),
{
    let join = |a: real, b: real| a + b;
    doubling_scans_combine_the_elements_up_to_each(exponential, join, x, axis, index);
    tree_scans_agree_with_doubling_scans(exponential, join, x, axis, index);
    lemma_running_sum(line(exponential, Expr::Is(x), axis, index), join, index[axis as int]);
}

/// Whether a reading takes elementwise products to `product`.
pub open spec fn reads_products<A>(
    read: spec_fn(Element) -> A,
    product: spec_fn(A, A) -> A,
) -> bool {
    forall|x: Expr, y: Expr, index: Seq<int>|
        x.mul(y) is Is && within(x->Is_0.dims, index) ==> read(
            #[trigger] copied(x.mul(y), index),
        ) == product(read(copied(x, index)), read(copied(y, index)))
}

/// Whether a reading takes elementwise sums to `sum`.
pub open spec fn reads_sums<A>(read: spec_fn(Element) -> A, sum: spec_fn(A, A) -> A) -> bool {
    forall|x: Expr, y: Expr, index: Seq<int>|
        x.add(y) is Is && within(x->Is_0.dims, index) ==> read(
            #[trigger] copied(x.add(y), index),
        ) == sum(read(copied(x, index)), read(copied(y, index)))
}

/// Whether a product on the left distributes over sums.
pub open spec fn distributes<A>(product: spec_fn(A, A) -> A, sum: spec_fn(A, A) -> A) -> bool {
    forall|a: A, b: A, c: A| #[trigger]
        product(a, sum(b, c)) == sum(product(a, b), product(a, c))
}

/// Two affine maps, as factor and offset, one after the other.
pub open spec fn composition<A>(
    product: spec_fn(A, A) -> A,
    sum: spec_fn(A, A) -> A,
) -> spec_fn((A, A), (A, A)) -> (A, A) {
    |p: (A, A), q: (A, A)| (product(q.0, p.0), sum(product(q.0, p.1), q.1))
}

proof fn lemma_composition<A>(product: spec_fn(A, A) -> A, sum: spec_fn(A, A) -> A)
    requires
        associative(product),
        associative(sum),
        distributes(product, sum),
    ensures
        associative(composition(product, sum)),
{
    let join = composition(product, sum);
    assert forall|a: (A, A), b: (A, A), c: (A, A)|
        #![trigger join(join(a, b), c)]
        #![trigger join(a, join(b, c))]
        join(join(a, b), c) == join(a, join(b, c)) by {
        assert(product(c.0, product(b.0, a.0)) == product(product(c.0, b.0), a.0));
        assert(product(c.0, sum(product(b.0, a.1), b.1)) == sum(
            product(c.0, product(b.0, a.1)),
            product(c.0, b.1),
        ));
        assert(product(c.0, product(b.0, a.1)) == product(product(c.0, b.0), a.1));
        assert(sum(sum(product(product(c.0, b.0), a.1), product(c.0, b.1)), c.1) == sum(
            product(product(c.0, b.0), a.1),
            sum(product(c.0, b.1), c.1),
        ));
    }
}

/// The element of one coordinate of a narrowed last axis.
proof fn lemma_part<A>(
    read: spec_fn(Element) -> A,
    x: Expr,
    last: usize,
    part: i64,
    index: Seq<int>,
)
    requires
        x.narrow(last, part, 1) is Is,
        index.len() == x->Is_0.dims.len(),
        last < index.len(),
        index[last as int] == 0,
    ensures
        read(copied(x.narrow(last, part, 1), index)) == read(
            copied(x, index.update(last as int, part as int)),
        ),
{
    narrowing_shifts_one_axis(x, last, part, 1, index);
}

/// Composed pairs hold composed maps.
proof fn lemma_composed<A>(
    read: spec_fn(Element) -> A,
    product: spec_fn(A, A) -> A,
    sum: spec_fn(A, A) -> A,
    x: Value,
    y: Value,
    index: Seq<int>,
)
    requires
        reads_products(read, product),
        reads_sums(read, sum),
        x.dims == y.dims,
        x.dims.len() > 0,
        x.dims.last() == 2,
        x.dims.len() <= usize::MAX + 1,
        within(x.dims, index),
        Expr::Is(x).combined(Expr::Is(y), Combine::Affine) is Is,
    ensures
        cell(read, true, Expr::Is(x).combined(Expr::Is(y), Combine::Affine), index)
            == composition(product, sum)(
            cell(read, true, Expr::Is(x), index),
            cell(read, true, Expr::Is(y), index),
        ),
{
    broadcast use group_extents;

    reveal(Expr::combined);
    let (l, r) = (Expr::Is(x), Expr::Is(y));
    let n = x.dims.len() - 1;
    let last = n as usize;
    let a = r.narrow(last, 0, 1);
    let offset = l.narrow(last, 1, 1).given(a);
    let right = r.narrow(last, 1, 1);
    let b = a.mul(offset).add(right);
    let factor = l.narrow(last, 0, 1).given(b);
    let p = a.mul(factor).given(factor);
    let z = l.combined(r, Combine::Affine);
    let args = seq![p->Is_0, b->Is_0];
    assert(z == concatenated(args, last));
    let zero = index.update(n, 0);
    let unit = x.dims.update(n, 1);
    assert(within(unit, zero)) by {
        assert forall|i: int| 0 <= i < unit.len() implies 0 <= #[trigger] zero[i] < unit[i] by {
            assert(0 <= index[i] < x.dims[i]);
        }
    }
    assert(a->Is_0.dims =~= unit && p->Is_0.dims =~= unit && b->Is_0.dims =~= unit);
    assert(a.mul(offset)->Is_0.dims =~= unit);
    assert(args.take(0).len() == 0);
    lemma_total_step(args, last, 0);
    joined_values_follow_one_another(args, last, 0, zero);
    assert(zero.update(n, axis_total(args.take(0), last) + zero[n]) =~= zero);
    joined_values_follow_one_another(args, last, 1, zero);
    assert(zero.update(n, axis_total(args.take(1), last) + zero[n]) =~= index.update(n, 1));
    lemma_part(read, r, last, 0, zero);
    lemma_part(read, r, last, 1, zero);
    lemma_part(read, l, last, 0, zero);
    lemma_part(read, l, last, 1, zero);
    assert(zero.update(n, 0) =~= zero);
    assert(zero.update(n, 1) =~= index.update(n, 1));
    assert(read(copied(p, zero)) == product(read(copied(a, zero)), read(copied(factor, zero))));
    assert(read(copied(a.mul(offset), zero)) == product(
        read(copied(a, zero)),
        read(copied(offset, zero)),
    ));
    assert(read(copied(b, zero)) == sum(
        read(copied(a.mul(offset), zero)),
        read(copied(right, zero)),
    ));
}

/// The element of one part of pairs, taken out along the last axis.
proof fn lemma_taken_part<A>(
    read: spec_fn(Element) -> A,
    q: Expr,
    dims: Seq<i64>,
    part: i64,
    index: Seq<int>,
)
    requires
        q.narrow(dims.len() as usize, part, 1).reshape(dims) is Is,
        dims.len() <= usize::MAX,
        q->Is_0.dims == dims.push(2),
        within(dims, index),
    ensures
        read(copied(q.narrow(dims.len() as usize, part, 1).reshape(dims), index)) == read(
            copied(q, index.push(part as int)),
        ),
{
    broadcast use group_extents;

    let n = dims.len() as int;
    let last = dims.len() as usize;
    let y = q.narrow(last, part, 1);
    let unit = dims.push(1);
    let there = index.push(0);
    assert(y->Is_0.dims =~= unit);
    reshape_keeps_the_order(y, dims, index);
    lemma_ravel_unit(dims, index, n);
    assert(dims.insert(n, 1) =~= unit);
    assert(index.insert(n, 0) =~= there);
    assert(within(unit, there)) by {
        assert forall|i: int| 0 <= i < unit.len() implies 0 <= #[trigger] there[i] < unit[i] by {
            if i < n {
                assert(0 <= index[i] < dims[i]);
            }
        }
    }
    lemma_unravel(unit, there);
    lemma_part(read, q, last, part, there);
    assert(there.update(n, part as int) =~= index.push(part as int));
}

/// The affine maps along an axis through an index: multiplier and offset.
pub open spec fn maps<A>(
    read: spec_fn(Element) -> A,
    multiplier: Value,
    x: Value,
    axis: usize,
    index: Seq<int>,
) -> spec_fn(int) -> (A, A) {
    |k: int|
        (
            line(read, Expr::Is(multiplier), axis, index)(k),
            line(read, Expr::Is(x), axis, index)(k),
        )
}

/// The scanned pairs hold the composed maps up to each position.
proof fn lemma_prefix_pairs<A>(
    read: spec_fn(Element) -> A,
    product: spec_fn(A, A) -> A,
    sum: spec_fn(A, A) -> A,
    multiplier: Value,
    x: Value,
    axis: usize,
    index: Seq<int>,
)
    requires
        associative(product),
        associative(sum),
        distributes(product, sum),
        reads_products(read, product),
        reads_sums(read, sum),
        x.dims.len() <= usize::MAX,
        Expr::Is(x).affine_prefix_pairs(Expr::Is(multiplier), axis) is Is,
        within(x.dims, index),
    ensures
        Expr::Is(x).affine_prefix_pairs(Expr::Is(multiplier), axis)->Is_0.dims == x.dims.push(2),
        axis < x.dims.len(),
        ({
            let q = Expr::Is(x).affine_prefix_pairs(Expr::Is(multiplier), axis);
            (read(copied(q, index.push(0))), read(copied(q, index.push(1)))) == span(
                maps(read, multiplier, x, axis, index),
                composition(product, sum),
                0,
                index[axis as int],
            )
        }),
{
    reveal(Expr::affine_prefix_pairs);
    let a = axis as int;
    let n = x.dims.len() as int;
    let last = x.dims.len() as usize;
    let join = composition(product, sum);
    let args = seq![multiplier, x];
    let s = stacked(args, last);
    let q = s.scanned(axis, Combine::Affine);
    let wide = index.push(0);
    assert(s is Is);
    stacked_values_are_its_slices(args, last, 0, index);
    let dims = s->Is_0.dims;
    assert(dims =~= x.dims.push(2));
    assert(volume(dims) is Some) by {
        lemma_stack_volume(args, last);
    }
    lemma_prefix_tree(s->Is_0, axis, Combine::Affine, dims[a] as int);
    assert(within(dims, wide)) by {
        assert forall|i: int| 0 <= i < dims.len() implies 0 <= #[trigger] wide[i] < dims[i] by {
            if i < n {
                assert(0 <= index[i] < x.dims[i]);
            }
        }
    }
    lemma_composition(product, sum);
    assert(combines(read, join, Combine::Affine)) by {
        assert forall|l: Value, r: Value, at: Seq<int>| #[trigger]
            combined_cell(read, join, Combine::Affine, l, r, at) by {
            if Expr::Is(l).combined(Expr::Is(r), Combine::Affine) is Is && l.dims == r.dims
                && within(l.dims, at) && l.dims.len() > 0 && l.dims.last() == 2 && l.dims.len()
                <= usize::MAX + 1 {
                lemma_composed(read, product, sum, l, r, at);
            }
        }
    }
    lemma_tree(read, join, Combine::Affine, s->Is_0, axis, dims[a] as int, wide);
    assert(wide.update(n, 0) =~= index.push(0));
    assert(wide.update(n, 1) =~= index.push(1));
    let cells = row(read, true, s, axis, wide);
    let items = maps(read, multiplier, x, axis, index);
    assert(0 <= index[a] < x.dims[a]);
    lemma_rows(read, s, multiplier, x, axis, index, index[a]);
    lemma_spans_agree(cells, items, join, 0, index[a]);
}

/// The cells of stacked multipliers and offsets are the maps.
proof fn lemma_rows<A>(
    read: spec_fn(Element) -> A,
    s: Expr,
    multiplier: Value,
    x: Value,
    axis: usize,
    index: Seq<int>,
    to: int,
)
    requires
        s is Is,
        s == stacked(seq![multiplier, x], x.dims.len() as usize),
        multiplier.dims == x.dims,
        x.dims.len() <= usize::MAX,
        axis < x.dims.len(),
        within(x.dims, index),
        to < x.dims[axis as int],
    ensures
        forall|k: int|
            0 <= k <= to ==> #[trigger] row(
                read,
                true,
                s,
                axis,
                index.push(0),
            )(k) == maps(read, multiplier, x, axis, index)(k),
{
    let a = axis as int;
    let n = x.dims.len() as int;
    let args = seq![multiplier, x];
    let last = x.dims.len() as usize;
    let wide = index.push(0);
    assert forall|k: int| 0 <= k <= to implies #[trigger] row(read, true, s, axis, wide)(k)
        == maps(read, multiplier, x, axis, index)(k) by {
        let at = index.update(a, k);
        assert(within(x.dims, at)) by {
            assert forall|i: int| 0 <= i < n implies 0 <= #[trigger] at[i] < x.dims[i] by {
                assert(0 <= index[i] < x.dims[i]);
            }
        }
        stacked_values_are_its_slices(args, last, 0, at);
        stacked_values_are_its_slices(args, last, 1, at);
        assert(wide.update(a, k).update(n, 0) =~= at.insert(n, 0));
        assert(wide.update(a, k).update(n, 1) =~= at.insert(n, 1));
    }
}

/// Rows that agree from one position to another have the same span there.
proof fn lemma_spans_agree<A>(
    one: spec_fn(int) -> A,
    other: spec_fn(int) -> A,
    join: spec_fn(A, A) -> A,
    from: int,
    to: int,
)
    requires
        from <= to,
        forall|k: int| from <= k <= to ==> #[trigger] one(k) == other(k),
    ensures
        span(one, join, from, to) == span(other, join, from, to),
    decreases to - from,
{
    if to > from {
        lemma_spans_agree(one, other, join, from, to - 1);
        assert(one(to) == other(to));
    } else {
        assert(one(from) == other(from));
    }
}

/// A stack of two values has a representable element count.
proof fn lemma_stack_volume(args: Seq<Value>, axis: usize)
    requires
        args.len() == 2,
        stacked(args, axis) is Is,
    ensures
        volume(stacked(args, axis)->Is_0.dims) is Some,
{
    reveal(stacked);
    reveal(concatenated);
    reveal(applied);
    let parts = Seq::new(args.len(), |k: int| Expr::Is(args[k]).unsqueeze(axis));
    lemma_collected(parts);
}

/// An affine scan follows the recurrence from a zero state: the first state is
/// the first offset, and each later one the product of its multiplier and the
/// state before it, plus its offset. The arithmetic is any in which products
/// and sums are associative and products distribute over sums.
pub proof fn affine_scans_follow_the_recurrence<A>(
    read: spec_fn(Element) -> A,
    product: spec_fn(A, A) -> A,
    sum: spec_fn(A, A) -> A,
    multiplier: Value,
    x: Value,
    axis: usize,
    index: Seq<int>,
)
    requires
        associative(product),
        associative(sum),
        distributes(product, sum),
        reads_products(read, product),
        reads_sums(read, sum),
        x.dims.len() <= usize::MAX,
        Expr::Is(x).affine_scan(Expr::Is(multiplier), axis) is Is,
        within(x.dims, index),
    ensures
        ({
            let states = line(
                read,
                Expr::Is(x).affine_scan(Expr::Is(multiplier), axis),
                axis,
                index,
            );
            let (factors, offsets) = (
                line(read, Expr::Is(multiplier), axis, index),
                line(read, Expr::Is(x), axis, index),
            );
            let at = index[axis as int];
            states(at) == if at == 0 {
                offsets(0)
            } else {
                sum(product(factors(at), states(at - 1)), offsets(at))
            }
        }),
{
    let a = axis as int;
    let at = index[a];
    let e = Expr::Is(x);
    let m = Expr::Is(multiplier);
    let q = e.affine_prefix_pairs(m, axis);
    assert(q is Is) by {
        reveal(Expr::narrow);
    }
    lemma_prefix_pairs(read, product, sum, multiplier, x, axis, index);
    lemma_taken_part(read, q, x.dims, 1, index);
    assert(0 <= index[a] < x.dims[a]);
    assert(index.update(a, at) =~= index);
    if at > 0 {
        let before = index.update(a, at - 1);
        assert(within(x.dims, before)) by {
            assert forall|i: int| 0 <= i < before.len() implies 0 <= #[trigger] before[i]
                < x.dims[i] by {
                assert(0 <= index[i] < x.dims[i]);
            }
        }
        lemma_prefix_pairs(read, product, sum, multiplier, x, axis, before);
        lemma_taken_part(read, q, x.dims, 1, before);
        lemma_same_maps(read, product, sum, multiplier, x, axis, index, at - 1);
    }
}

/// The composed maps up to a position do not depend on the coordinate along the
/// axis.
proof fn lemma_same_maps<A>(
    read: spec_fn(Element) -> A,
    product: spec_fn(A, A) -> A,
    sum: spec_fn(A, A) -> A,
    multiplier: Value,
    x: Value,
    axis: usize,
    index: Seq<int>,
    to: int,
)
    requires
        axis < index.len(),
    ensures
        span(
            maps(read, multiplier, x, axis, index.update(axis as int, to)),
            composition(product, sum),
            0,
            to,
        ) == span(maps(read, multiplier, x, axis, index), composition(product, sum), 0, to),
{
    let a = axis as int;
    let one = maps(read, multiplier, x, axis, index.update(a, to));
    let other = maps(read, multiplier, x, axis, index);
    assert forall|k: int| #[trigger] one(k) == other(k) by {
        assert(index.update(a, to).update(a, k) =~= index.update(a, k));
    }
    lemma_same_spans(one, other, composition(product, sum), 0, to);
}

/// A state without the scanned axis, spread along it.
proof fn lemma_spread_state(initial: Expr, dims: Seq<i64>, axis: usize, index: Seq<int>)
    requires
        axis < dims.len() <= usize::MAX,
        initial is Is,
        initial->Is_0.dims == dims.remove(axis as int),
        initial.reshape(dims.remove(axis as int).insert(axis as int, 1)).broadcast_to(dims) is Is,
        within(dims, index),
    ensures
        copied(
            initial.reshape(dims.remove(axis as int).insert(axis as int, 1)).broadcast_to(dims),
            index,
        ) == copied(initial, index.remove(axis as int)),
{
    broadcast use group_extents;

    let a = axis as int;
    let short = dims.remove(a);
    let unit = short.insert(a, 1);
    let y = initial.reshape(unit);
    let there = index.remove(a);
    let zero = there.insert(a, 0);
    assert(y->Is_0.dims == unit);
    broadcasting_repeats(y, dims, index);
    let source = Seq::new(
        unit.len(),
        |i: int|
            if unit[i] == 1 {
                0
            } else {
                index[i + dims.len() - unit.len()]
            },
    );
    assert forall|i: int| 0 <= i < unit.len() implies #[trigger] source[i] == zero[i] by {
        assert(0 <= index[i] < dims[i]);
        if i < a {
            assert(unit[i] == dims[i] && zero[i] == index[i]);
        } else if i > a {
            assert(unit[i] == dims[i] && zero[i] == index[i]);
        }
    }
    assert(source =~= zero);
    reshape_keeps_the_order(initial, unit, zero);
    lemma_ravel_unit(short, there, a);
    assert(within(short, there)) by {
        assert forall|i: int| 0 <= i < short.len() implies 0 <= #[trigger] there[i] < short[i] by {
            if i < a {
                assert(0 <= index[i] < dims[i]);
            } else {
                assert(0 <= index[i + 1] < dims[i + 1]);
            }
        }
    }
    lemma_unravel(short, there);
}

/// The states of an affine scan from an initial one, by the composed maps.
proof fn lemma_state_from<A>(
    read: spec_fn(Element) -> A,
    product: spec_fn(A, A) -> A,
    sum: spec_fn(A, A) -> A,
    multiplier: Value,
    initial: Value,
    x: Value,
    axis: usize,
    index: Seq<int>,
)
    requires
        associative(product),
        associative(sum),
        distributes(product, sum),
        reads_products(read, product),
        reads_sums(read, sum),
        x.dims.len() <= usize::MAX,
        Expr::Is(x).affine_scan_from(Expr::Is(multiplier), Expr::Is(initial), axis) is Is,
        within(x.dims, index),
    ensures
        axis < x.dims.len(),
        ({
            let map = span(
                maps(read, multiplier, x, axis, index),
                composition(product, sum),
                0,
                index[axis as int],
            );
            read(
                copied(
                    Expr::Is(x).affine_scan_from(Expr::Is(multiplier), Expr::Is(initial), axis),
                    index,
                ),
            ) == sum(
                product(map.0, read(copied(Expr::Is(initial), index.remove(axis as int)))),
                map.1,
            )
        }),
{
    broadcast use group_extents;

    let e = Expr::Is(x);
    let i = Expr::Is(initial);
    let dims = x.dims;
    let last = dims.len() as usize;
    let q = e.affine_prefix_pairs(Expr::Is(multiplier), axis);
    let state = i.reshape(dims.remove(axis as int).insert(axis as int, 1)).broadcast_to(dims);
    let a = q.narrow(last, 0, 1).reshape(dims);
    let b = q.narrow(last, 1, 1).reshape(dims);
    let y = e.affine_scan_from(Expr::Is(multiplier), i, axis);
    assert(q is Is && state is Is && a is Is && b is Is && a.mul(state) is Is);
    assert(y == a.mul(state).add(b));
    lemma_prefix_pairs(read, product, sum, multiplier, x, axis, index);
    lemma_taken_part(read, q, dims, 0, index);
    lemma_taken_part(read, q, dims, 1, index);
    lemma_spread_state(i, dims, axis, index);
    assert(read(copied(a.mul(state), index)) == product(
        read(copied(a, index)),
        read(copied(state, index)),
    ));
    assert(read(copied(y, index)) == sum(
        read(copied(a.mul(state), index)),
        read(copied(b, index)),
    ));
}

/// An affine scan from an initial state follows the recurrence: the first state
/// takes the initial one as the state before it.
pub proof fn affine_scans_continue_an_initial_state<A>(
    read: spec_fn(Element) -> A,
    product: spec_fn(A, A) -> A,
    sum: spec_fn(A, A) -> A,
    multiplier: Value,
    initial: Value,
    x: Value,
    axis: usize,
    index: Seq<int>,
)
    requires
        associative(product),
        associative(sum),
        distributes(product, sum),
        reads_products(read, product),
        reads_sums(read, sum),
        x.dims.len() <= usize::MAX,
        Expr::Is(x).affine_scan_from(Expr::Is(multiplier), Expr::Is(initial), axis) is Is,
        within(x.dims, index),
    ensures
        ({
            let states = line(
                read,
                Expr::Is(x).affine_scan_from(Expr::Is(multiplier), Expr::Is(initial), axis),
                axis,
                index,
            );
            let (factors, offsets) = (
                line(read, Expr::Is(multiplier), axis, index),
                line(read, Expr::Is(x), axis, index),
            );
            let at = index[axis as int];
            let before = if at == 0 {
                read(copied(Expr::Is(initial), index.remove(axis as int)))
            } else {
                states(at - 1)
            };
            states(at) == sum(product(factors(at), before), offsets(at))
        }),
{
    lemma_state_from(read, product, sum, multiplier, initial, x, axis, index);
    let a = axis as int;
    let at = index[a];
    assert(0 <= index[a] < x.dims[a]);
    assert(index.update(a, at) =~= index);
    if at > 0 {
        let earlier = index.update(a, at - 1);
        assert(within(x.dims, earlier)) by {
            assert forall|i: int| 0 <= i < earlier.len() implies 0 <= #[trigger] earlier[i]
                < x.dims[i] by {
                assert(0 <= index[i] < x.dims[i]);
            }
        }
        lemma_state_from(read, product, sum, multiplier, initial, x, axis, earlier);
        lemma_same_maps(read, product, sum, multiplier, x, axis, index, at - 1);
        assert(earlier.remove(a) =~= index.remove(a));
        let items = maps(read, multiplier, x, axis, index);
        let map = span(items, composition(product, sum), 0, at - 1);
        let (m, b) = items(at);
        let i = read(copied(Expr::Is(initial), index.remove(a)));
        assert(product(product(m, map.0), i) == product(m, product(map.0, i)));
        assert(sum(product(m, product(map.0, i)), sum(product(m, map.1), b)) == sum(
            sum(product(m, product(map.0, i)), product(m, map.1)),
            b,
        ));
        assert(product(m, sum(product(map.0, i), map.1)) == sum(
            product(m, product(map.0, i)),
            product(m, map.1),
        ));
    }
}

} // verus!
