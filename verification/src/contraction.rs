//! Contractions: general dot products, diagonals and two-operand einsum.
use crate::error::{err, invalid, Error};
use crate::graph::{applied, Expr, Graph, Tensor, Value};
use crate::op::{Scalar, Widths, F32_ZERO};
use crate::shape::{
    axes_valid, bad_shape, contains_axis, distinct_axes, elements, gather_extents, gathered,
    lemma_volume_nonnegative, volume,
};
use vstd::prelude::*;

verus! {

/// The axes below a rank that are not listed, in order.
pub open spec fn free_axes(rank: nat, used: Seq<usize>) -> Seq<usize>
    decreases rank,
{
    if rank == 0 {
        Seq::empty()
    } else {
        let last = (rank - 1) as usize;
        let rest = free_axes((rank - 1) as nat, used);
        if used.contains(last) {
            rest
        } else {
            rest.push(last)
        }
    }
}

/// The product of extents, taken from the left, while it fits `i64`.
pub open spec fn flat_extent(dims: Seq<i64>) -> Option<int>
    decreases dims.len(),
{
    if dims.len() == 0 {
        Some(1)
    } else {
        match flat_extent(dims.drop_last()) {
            None => None,
            Some(n) => if n * dims.last() > i64::MAX {
                None
            } else {
                Some(n * dims.last())
            },
        }
    }
}

/// Whether every paired axis has the same extent on both sides.
pub open spec fn pairs_match(
    x: Seq<i64>,
    y: Seq<i64>,
    left: Seq<usize>,
    right: Seq<usize>,
) -> bool {
    forall|i: int| 0 <= i < left.len() ==> x[#[trigger] left[i] as int] == y[right[i] as int]
}

/// The failure of a flattened extent that does not fit.
pub open spec fn flat_overflow() -> Error {
    invalid("flattened contraction dimension overflows i64")
}

/// The number of rows that an offset diagonal skips.
pub open spec fn diagonal_row(offset: i64, rows: i64) -> int {
    if offset >= 0 {
        0
    } else if -offset <= rows {
        -offset
    } else {
        rows as int
    }
}

/// The number of columns that an offset diagonal skips.
pub open spec fn diagonal_column(offset: i64, columns: i64) -> int {
    if offset <= 0 {
        0
    } else if offset <= columns {
        offset as int
    } else {
        columns as int
    }
}

/// The length of an offset diagonal of a matrix.
pub open spec fn diagonal_length(offset: i64, rows: i64, columns: i64) -> int {
    let down = rows - diagonal_row(offset, rows);
    let across = columns - diagonal_column(offset, columns);
    if down <= across {
        down
    } else {
        across
    }
}

/// Copies of one extent with another last entry.
pub open spec fn with_last(length: nat, fill: i64, last: i64) -> Seq<i64> {
    Seq::new(
        length,
        |i: int|
            if i == length - 1 {
                last
            } else {
                fill
            },
    )
}

/// No padding but at the last two axes.
pub open spec fn last_two_padded(rank: nat, before: Widths, last: Widths) -> Seq<Widths> {
    Seq::new(
        rank,
        |i: int|
            if i == rank - 1 {
                last
            } else if i == rank - 2 {
                before
            } else {
                (0i64, 0i64)
            },
    )
}

/// The first reason why two values cannot be contracted over paired axes.
pub open spec fn contraction_error(
    x: Value,
    y: Value,
    lhs_contract: Seq<usize>,
    rhs_contract: Seq<usize>,
    lhs_batch: Seq<usize>,
    rhs_batch: Seq<usize>,
) -> Option<Error> {
    if x.graph != y.graph {
        Some(invalid("cross-graph contraction operands"))
    } else if lhs_contract.len() != rhs_contract.len() || lhs_batch.len() != rhs_batch.len() {
        Some(invalid("contraction axis lists must pair one-to-one"))
    } else if !axes_valid(lhs_contract + lhs_batch, x.dims.len()) || !axes_valid(
        rhs_contract + rhs_batch,
        y.dims.len(),
    ) {
        Some(invalid("contraction axes must be in range, unique and disjoint"))
    } else if !pairs_match(x.dims, y.dims, lhs_contract, rhs_contract) || !pairs_match(
        x.dims,
        y.dims,
        lhs_batch,
        rhs_batch,
    ) {
        Some(invalid("paired contraction/batch dimensions differ"))
    } else {
        None
    }
}

/// The first reason why an axis cannot be placed on an offset diagonal.
pub open spec fn diag_embed_error(dims: Seq<i64>, offset: i64) -> Option<Error> {
    if dims.len() == 0 {
        Some(invalid("diag_embed requires a vector axis"))
    } else if offset == i64::MIN {
        Some(invalid("diagonal offset overflow"))
    } else {
        let n = dims.last();
        let shift = if offset < 0 {
            -offset
        } else {
            offset as int
        };
        let prefix = dims.take(dims.len() - 1);
        let side = (n + shift) as i64;
        if n + shift > i64::MAX {
            Some(invalid("diagonal dimension overflow"))
        } else if n * (n + 1) > i64::MAX {
            Some(invalid("diagonal staging dimension overflow"))
        } else if volume(prefix.push(side).push(side)) is None || volume(
            prefix.push((n * (n + 1)) as i64),
        ) is None {
            Some(bad_shape())
        } else {
            None
        }
    }
}

/// The first reason why there is no diagonal across two axes.
pub open spec fn diagonal_error(dims: Seq<i64>, axis1: usize, axis2: usize) -> Option<Error> {
    if axis1 >= dims.len() || axis2 >= dims.len() || axis1 == axis2 {
        Some(invalid("diagonal requires two distinct valid axes"))
    } else if dims[axis1 as int] * dims[axis2 as int] > i64::MAX {
        Some(invalid("diagonal dimension overflow"))
    } else {
        None
    }
}

impl Expr {
    /// A contraction over paired axes with paired batch axes.
    #[verifier::opaque]
    pub open spec fn dot_general(
        self,
        rhs: Expr,
        lhs_contract: Seq<usize>,
        rhs_contract: Seq<usize>,
        lhs_batch: Seq<usize>,
        rhs_batch: Seq<usize>,
    ) -> Expr {
        match (self, rhs) {
            (Expr::Fails(e), _) => Expr::Fails(e),
            (_, Expr::Fails(e)) => Expr::Fails(e),
            (Expr::Is(x), Expr::Is(y)) => match contraction_error(
                x,
                y,
                lhs_contract,
                rhs_contract,
                lhs_batch,
                rhs_batch,
            ) {
                Some(e) => Expr::Fails(e),
                None => {
                    let lhs_free = free_axes(x.dims.len(), lhs_contract + lhs_batch);
                    let rhs_free = free_axes(y.dims.len(), rhs_contract + rhs_batch);
                    match (
                        flat_extent(gathered(x.dims, lhs_free)),
                        flat_extent(gathered(x.dims, lhs_contract)),
                        flat_extent(gathered(y.dims, rhs_free)),
                    ) {
                        (Some(m), Some(k), Some(n)) => {
                            let batch = gathered(x.dims, lhs_batch);
                            self.transpose(lhs_batch + lhs_free + lhs_contract).reshape(
                                batch + seq![m as i64, k as i64],
                            ).matmul(
                                rhs.transpose(rhs_batch + rhs_contract + rhs_free).reshape(
                                    batch + seq![k as i64, n as i64],
                                ),
                            ).reshape(
                                batch + gathered(x.dims, lhs_free) + gathered(y.dims, rhs_free),
                            )
                        },
                        _ => Expr::Fails(flat_overflow()),
                    }
                },
            },
        }
    }

    /// A contraction over paired axes.
    pub open spec fn tensordot(self, rhs: Expr, lhs_axes: Seq<usize>, rhs_axes: Seq<usize>) -> Expr {
        self.dot_general(rhs, lhs_axes, rhs_axes, Seq::empty(), Seq::empty())
    }

    /// The last axis placed on an offset diagonal of two new axes.
    pub open spec fn diag_embed(self, offset: i64) -> Expr {
        match self {
            Expr::Fails(e) => Expr::Fails(e),
            Expr::Is(x) => match diag_embed_error(x.dims, offset) {
                Some(e) => Expr::Fails(e),
                None => {
                    let rank = x.dims.len();
                    let n = x.dims.last();
                    let shift = if offset < 0 {
                        -offset
                    } else {
                        offset as int
                    };
                    let prefix = x.dims.take(rank - 1);
                    let flat = prefix.push((n * (n + 1)) as i64);
                    let square = self.unsqueeze(rank as usize).pad(
                        last_two_padded(rank + 1, (0, 0), (0, n)),
                        Scalar::Bits(F32_ZERO),
                    ).reshape(flat).slice(
                        with_last(rank, 0, 0),
                        prefix.push((n * n) as i64),
                        with_last(rank, 1, 1),
                    ).reshape(prefix.push(n).push(n));
                    let (before, last) = if offset >= 0 {
                        ((0i64, shift as i64), (shift as i64, 0i64))
                    } else {
                        ((shift as i64, 0i64), (0i64, shift as i64))
                    };
                    square.pad(
                        last_two_padded(rank + 1, before, last),
                        Scalar::Bits(F32_ZERO),
                    )
                },
            },
        }
    }

    /// The offset diagonal across two axes, appended as the last axis.
    #[verifier::opaque]
    pub open spec fn diagonal(self, offset: i64, axis1: usize, axis2: usize) -> Expr {
        match self {
            Expr::Fails(e) => Expr::Fails(e),
            Expr::Is(x) => match diagonal_error(x.dims, axis1, axis2) {
                Some(e) => Expr::Fails(e),
                None => {
                    let rows = x.dims[axis1 as int];
                    let columns = x.dims[axis2 as int];
                    let others = free_axes(x.dims.len(), seq![axis1, axis2]);
                    let shape = gathered(x.dims, others).push((rows * columns) as i64);
                    let length = diagonal_length(offset, rows, columns);
                    let start = if length == 0 {
                        0
                    } else {
                        diagonal_row(offset, rows) * columns + diagonal_column(offset, columns)
                    };
                    let stride = if length <= 1 {
                        1
                    } else {
                        columns + 1
                    };
                    let limit = if length == 0 {
                        0
                    } else {
                        start + (length - 1) * stride + 1
                    };
                    self.transpose(others.push(axis1).push(axis2)).reshape(shape).slice(
                        with_last(shape.len(), 0, start as i64),
                        shape.update(shape.len() - 1, limit as i64),
                        with_last(shape.len(), 1, stride as i64),
                    )
                },
            },
        }
    }

    /// The sum of an offset diagonal.
    pub open spec fn trace(self, offset: i64, axis1: usize, axis2: usize) -> Expr {
        match self.diagonal(offset, axis1, axis2) {
            Expr::Fails(e) => Expr::Fails(e),
            Expr::Is(d) => Expr::Is(d).sum(seq![(d.dims.len() - 1) as usize], false),
        }
    }
}

/// Concatenation of two lists of axes.
pub(crate) fn chained_axes(a: &[usize], b: &[usize]) -> (r: Vec<usize>)
    ensures
        r@ == a@ + b@,
{
    let mut result: Vec<usize> = vstd::slice::slice_to_vec(a);
    let mut i: usize = 0;
    while i < b.len()
        invariant
            i <= b@.len(),
            result@ == a@ + b@.take(i as int),
        decreases b@.len() - i,
    {
        result.push(b[i]);
        assert(result@ =~= a@ + b@.take(i + 1));
        i += 1;
    }
    assert(b@.take(i as int) =~= b@);
    result
}

/// The axes below a rank that are not listed, in order.
pub(crate) fn unlisted_axes(rank: usize, used: &[usize]) -> (r: Vec<usize>)
    ensures
        r@ == free_axes(rank as nat, used@),
        forall|i: int| 0 <= i < r@.len() ==> #[trigger] r@[i] < rank,
        forall|i: int| 0 <= i < r@.len() ==> !used@.contains(#[trigger] r@[i]),
{
    let mut free: Vec<usize> = Vec::new();
    let mut i: usize = 0;
    while i < rank
        invariant
            i <= rank,
            free@ == free_axes(i as nat, used@),
            forall|j: int| 0 <= j < free@.len() ==> #[trigger] free@[j] < i,
            forall|j: int| 0 <= j < free@.len() ==> !used@.contains(#[trigger] free@[j]),
        decreases rank - i,
    {
        if !contains_axis(used, i) {
            free.push(i);
        }
        i += 1;
    }
    free
}

/// The product of nonnegative extents, while it fits `i64`.
pub(crate) fn product(dims: &[i64]) -> (r: Result<i64, Error>)
    requires
        forall|i: int| 0 <= i < dims@.len() ==> #[trigger] dims@[i] >= 0,
    ensures
        match r {
            Ok(n) => flat_extent(dims@) == Some(n as int) && n >= 0,
            Err(e) => flat_extent(dims@) is None && e == flat_overflow(),
        },
{
    let mut n: i64 = 1;
    let mut i: usize = 0;
    assert(dims@.take(0) =~= Seq::<i64>::empty());
    while i < dims.len()
        invariant
            forall|j: int| 0 <= j < dims@.len() ==> #[trigger] dims@[j] >= 0,
            i <= dims@.len(),
            n >= 0,
            flat_extent(dims@.take(i as int)) == Some(n as int),
        decreases dims@.len() - i,
    {
        let size: i64 = dims[i];
        proof {
            assert(dims@.take(i + 1).drop_last() =~= dims@.take(i as int));
            assert(dims@.take(i + 1).last() == size);
            assert(n * size >= 0) by (nonlinear_arith)
                requires
                    n >= 0,
                    size >= 0,
            ;
        }
        n = match n.checked_mul(size) {
            Some(product) => product,
            None => {
                proof {
                    lemma_flat_prefix(dims@, i + 1);
                }
                return Err(err("flattened contraction dimension overflows i64"));
            },
        };
        i += 1;
    }
    assert(dims@.take(i as int) =~= dims@);
    Ok(n)
}

/// A list has no flat extent where one of its prefixes has none.
proof fn lemma_flat_prefix(dims: Seq<i64>, length: int)
    requires
        0 <= length <= dims.len(),
        flat_extent(dims.take(length)) is None,
    ensures
        flat_extent(dims) is None,
    decreases dims.len(),
{
    if length == dims.len() {
        assert(dims.take(length) =~= dims);
    } else {
        assert(dims.drop_last().take(length) =~= dims.take(length));
        lemma_flat_prefix(dims.drop_last(), length);
    }
}

/// Whether every paired axis has the same extent on both sides.
fn pairs_agree(x: &[i64], y: &[i64], left: &[usize], right: &[usize]) -> (r: bool)
    requires
        left@.len() == right@.len(),
        forall|i: int| 0 <= i < left@.len() ==> #[trigger] left@[i] < x@.len(),
        forall|i: int| 0 <= i < right@.len() ==> #[trigger] right@[i] < y@.len(),
    ensures
        r == pairs_match(x@, y@, left@, right@),
{
    let mut i: usize = 0;
    while i < left.len()
        invariant
            left@.len() == right@.len(),
            forall|j: int| 0 <= j < left@.len() ==> #[trigger] left@[j] < x@.len(),
            forall|j: int| 0 <= j < right@.len() ==> #[trigger] right@[j] < y@.len(),
            i <= left@.len(),
            forall|j: int|
                0 <= j < i ==> x@[#[trigger] left@[j] as int] == y@[right@[j] as int],
        decreases left@.len() - i,
    {
        let a: usize = left[i];
        let b: usize = right[i];
        if x[a] != y[b] {
            assert(x@[left@[i as int] as int] != y@[right@[i as int] as int]);
            return false;
        }
        i += 1;
    }
    true
}

/// Copies of one extent with another last entry.
fn entries_with_last(length: usize, fill: i64, last: i64) -> (r: Vec<i64>)
    ensures
        r@ == with_last(length as nat, fill, last),
{
    let mut entries: Vec<i64> = Vec::new();
    let mut i: usize = 0;
    while i < length
        invariant
            i <= length,
            entries@.len() == i,
            forall|j: int|
                0 <= j < i ==> #[trigger] entries@[j] == with_last(length as nat, fill, last)[j],
        decreases length - i,
    {
        if i + 1 == length {
            entries.push(last);
        } else {
            entries.push(fill);
        }
        i += 1;
    }
    assert(entries@ =~= with_last(length as nat, fill, last));
    entries
}

/// No padding but at the last two axes.
fn padding_of_last_two(rank: usize, before: Widths, last: Widths) -> (r: Vec<Widths>)
    requires
        rank >= 2,
    ensures
        r@ == last_two_padded(rank as nat, before, last),
{
    let mut padding: Vec<Widths> = Vec::new();
    let mut i: usize = 0;
    while i < rank
        invariant
            rank >= 2,
            i <= rank,
            padding@.len() == i,
            forall|j: int|
                0 <= j < i ==> #[trigger] padding@[j] == last_two_padded(
                    rank as nat,
                    before,
                    last,
                )[j],
        decreases rank - i,
    {
        if i == rank - 1 {
            padding.push(last);
        } else if i == rank - 2 {
            padding.push(before);
        } else {
            padding.push((0, 0));
        }
        i += 1;
    }
    assert(padding@ =~= last_two_padded(rank as nat, before, last));
    padding
}

/// The last element of an offset diagonal lies within the flattened matrix.
proof fn lemma_diagonal_bound(
    row: int,
    column: int,
    length: int,
    rows: int,
    columns: int,
)
    by (nonlinear_arith)
    requires
        0 <= row,
        0 <= column,
        1 <= length,
        row + length <= rows,
        column + length <= columns,
    ensures
        0 <= row * columns + column,
        0 <= (length - 1) * (columns + 1),
        row * columns + column + (length - 1) * (columns + 1) + 1 <= rows * columns,
        0 <= row * columns <= rows * columns,
        length >= 2 ==> columns + 1 <= rows * columns,
{
    assert(row * columns + column + (length - 1) * (columns + 1) + 1 == (row + length - 1) * columns
        + (column + length));
    assert((row + length - 1) * columns <= (rows - 1) * columns);
}

/// Where the diagonal of a flattened matrix starts, its stride, and where it
/// ends.
fn diagonal_run(offset: i64, rows: i64, columns: i64) -> (r: (i64, i64, i64))
    requires
        rows >= 0,
        columns >= 0,
        rows * columns <= i64::MAX,
    ensures
        ({
            let length = diagonal_length(offset, rows, columns);
            let start = if length == 0 {
                0
            } else {
                diagonal_row(offset, rows) * columns + diagonal_column(offset, columns)
            };
            let stride = if length <= 1 {
                1
            } else {
                columns + 1
            };
            &&& r.0 == start
            &&& r.1 == stride
            &&& r.2 == if length == 0 {
                0
            } else {
                start + (length - 1) * stride + 1
            }
        }),
{
    let row: i64 = if offset >= 0 {
        0
    } else if offset >= -rows {
        -offset
    } else {
        rows
    };
    let column: i64 = if offset <= 0 {
        0
    } else if offset <= columns {
        offset
    } else {
        columns
    };
    let down: i64 = rows - row;
    let across: i64 = columns - column;
    let length: i64 = if down <= across {
        down
    } else {
        across
    };
    proof {
        if length >= 1 {
            lemma_diagonal_bound(
                row as int,
                column as int,
                length as int,
                rows as int,
                columns as int,
            );
        }
    }
    let start: i64 = if length == 0 {
        0
    } else {
        row * columns + column
    };
    let stride: i64 = if length <= 1 {
        1
    } else {
        columns + 1
    };
    let limit: i64 = if length == 0 {
        0
    } else if length == 1 {
        start + 1
    } else {
        start + (length - 1) * stride + 1
    };
    (start, stride, limit)
}

impl Tensor {
    /// General contraction with explicit paired contraction and batch axes.
    /// Each paired dimension must match. The output has the batch axes, the
    /// remaining left axes, then the remaining right axes.
    #[verifier::rlimit(40)]
    pub fn dot_general(
        &self,
        graph: &mut Graph,
        rhs: &Tensor,
        lhs_contract: &[usize],
        rhs_contract: &[usize],
        lhs_batch: &[usize],
        rhs_batch: &[usize],
    ) -> (r: Result<Tensor, Error>)
        requires
            old(graph).wf(),
            old(graph).owns(*self),
            old(graph).admits(*rhs),
        ensures
            final(graph).extends(*old(graph)),
            final(graph).yields(r, self.expr().dot_general(rhs.expr(), lhs_contract@, rhs_contract@, lhs_batch@, rhs_batch@)),
            contraction_error(
                self@,
                rhs@,
                lhs_contract@,
                rhs_contract@,
                lhs_batch@,
                rhs_batch@,
            ) is Some ==> *final(graph) == *old(graph),
    {
        proof {
            reveal(Expr::dot_general);
            reveal(Expr::matmul);
        }
        if !self.same_graph(rhs) {
            return Err(err("cross-graph contraction operands"));
        }
        if lhs_contract.len() != rhs_contract.len() || lhs_batch.len() != rhs_batch.len() {
            return Err(err("contraction axis lists must pair one-to-one"));
        }
        let lhs_used: Vec<usize> = chained_axes(lhs_contract, lhs_batch);
        let rhs_used: Vec<usize> = chained_axes(rhs_contract, rhs_batch);
        if !distinct_axes(lhs_used.as_slice(), self.shape().len()) || !distinct_axes(
            rhs_used.as_slice(),
            rhs.shape().len(),
        ) {
            return Err(err("contraction axes must be in range, unique and disjoint"));
        }
        let lhs_free: Vec<usize> = unlisted_axes(self.shape().len(), lhs_used.as_slice());
        let rhs_free: Vec<usize> = unlisted_axes(rhs.shape().len(), rhs_used.as_slice());
        proof {
            let (lc, lb, rc, rb) = (lhs_contract@, lhs_batch@, rhs_contract@, rhs_batch@);
            assert forall|i: int| 0 <= i < lc.len() implies #[trigger] lc[i] < self@.dims.len() by {
                assert((lc + lb)[i] == lc[i]);
            }
            assert forall|i: int| 0 <= i < lb.len() implies #[trigger] lb[i] < self@.dims.len() by {
                assert((lc + lb)[lc.len() + i] == lb[i]);
            }
            assert forall|i: int| 0 <= i < rc.len() implies #[trigger] rc[i] < rhs@.dims.len() by {
                assert((rc + rb)[i] == rc[i]);
            }
            assert forall|i: int| 0 <= i < rb.len() implies #[trigger] rb[i] < rhs@.dims.len() by {
                assert((rc + rb)[rc.len() + i] == rb[i]);
            }
            lemma_volume_nonnegative(self@.dims);
            lemma_volume_nonnegative(rhs@.dims);
        }
        if !pairs_agree(self.shape(), rhs.shape(), lhs_contract, rhs_contract) || !pairs_agree(
            self.shape(),
            rhs.shape(),
            lhs_batch,
            rhs_batch,
        ) {
            return Err(err("paired contraction/batch dimensions differ"));
        }
        let rows: Vec<i64> = gather_extents(self.shape(), lhs_free.as_slice());
        let depth: Vec<i64> = gather_extents(self.shape(), lhs_contract);
        let columns: Vec<i64> = gather_extents(rhs.shape(), rhs_free.as_slice());
        let m: i64 = product(rows.as_slice())?;
        let k: i64 = product(depth.as_slice())?;
        let n: i64 = product(columns.as_slice())?;
        let batch: Vec<i64> = gather_extents(self.shape(), lhs_batch);
        let mut left_shape: Vec<i64> = crate::op::copied(&batch);
        left_shape.push(m);
        left_shape.push(k);
        let mut right_shape: Vec<i64> = crate::op::copied(&batch);
        right_shape.push(k);
        right_shape.push(n);
        assert(left_shape@ =~= batch@ + seq![m, k]);
        assert(right_shape@ =~= batch@ + seq![k, n]);
        let left_order: Vec<usize> = chained_axes(
            chained_axes(lhs_batch, lhs_free.as_slice()).as_slice(),
            lhs_contract,
        );
        let right_order: Vec<usize> = chained_axes(
            chained_axes(rhs_batch, rhs_contract).as_slice(),
            rhs_free.as_slice(),
        );
        let output: Vec<i64> = crate::matmul::chained(
            crate::matmul::chained(batch.as_slice(), rows.as_slice()).as_slice(),
            columns.as_slice(),
        );
        let left: Tensor = self.transpose(graph, left_order.as_slice())?.reshape(
            graph,
            left_shape.as_slice(),
        )?;
        let right: Tensor = rhs.transpose(graph, right_order.as_slice())?.reshape(
            graph,
            right_shape.as_slice(),
        )?;
        left.matmul(graph, &right)?.reshape(graph, output.as_slice())
    }

    /// Contract paired axes without batch axes; empty lists form an outer
    /// product.
    pub fn tensordot(
        &self,
        graph: &mut Graph,
        rhs: &Tensor,
        lhs_axes: &[usize],
        rhs_axes: &[usize],
    ) -> (r: Result<Tensor, Error>)
        requires
            old(graph).wf(),
            old(graph).owns(*self),
            old(graph).admits(*rhs),
        ensures
            final(graph).extends(*old(graph)),
            final(graph).yields(r, self.expr().tensordot(rhs.expr(), lhs_axes@, rhs_axes@)),
    {
        let none: Vec<usize> = Vec::new();
        self.dot_general(graph, rhs, lhs_axes, rhs_axes, none.as_slice(), none.as_slice())
    }

    /// Embed the last dimension as a diagonal in two appended matrix axes, zero
    /// elsewhere. Positive offsets lie above the main diagonal.
    #[verifier::rlimit(40)]
    pub fn diag_embed(
        &self,
        graph: &mut Graph,
        offset: i64,
    ) -> (r: Result<Tensor, Error>)
        requires
            old(graph).wf(),
            old(graph).owns(*self),
        ensures
            final(graph).extends(*old(graph)),
            final(graph).yields(r, self.expr().diag_embed(offset)),
            diag_embed_error(self@.dims, offset) is Some ==> *final(graph) == *old(graph),
    {
        let rank: usize = self.shape().len();
        if rank == 0 {
            return Err(err("diag_embed requires a vector axis"));
        }
        let n: i64 = self.shape()[rank - 1];
        proof {
            lemma_volume_nonnegative(self@.dims);
        }
        if offset == i64::MIN {
            return Err(err("diagonal offset overflow"));
        }
        let shift: i64 = if offset < 0 {
            -offset
        } else {
            offset
        };
        let side: i64 = match n.checked_add(shift) {
            Some(side) => side,
            None => {
                return Err(err("diagonal dimension overflow"));
            },
        };
        let staged: Option<i64> = match n.checked_add(1) {
            Some(next) => n.checked_mul(next),
            None => None,
        };
        proof {
            assert(n * (n + 1) >= 0) by (nonlinear_arith)
                requires
                    n >= 0,
            ;
            assert(n == i64::MAX ==> n * (n + 1) > i64::MAX) by (nonlinear_arith);
            assert(0 <= n * n <= n * (n + 1)) by (nonlinear_arith)
                requires
                    n >= 0,
            ;
        }
        let padded: i64 = match staged {
            Some(padded) => padded,
            None => {
                return Err(err("diagonal staging dimension overflow"));
            },
        };
        let mut prefix: Vec<i64> = vstd::slice::slice_to_vec(self.shape());
        prefix.pop();
        assert(prefix@ =~= self@.dims.take(rank - 1));
        let mut output_shape: Vec<i64> = crate::op::copied(&prefix);
        output_shape.push(side);
        output_shape.push(side);
        match elements(output_shape.as_slice()) {
            Err(e) => {
                return Err(e);
            },
            Ok(_) => {},
        }
        let mut flat_shape: Vec<i64> = crate::op::copied(&prefix);
        flat_shape.push(padded);
        match elements(flat_shape.as_slice()) {
            Err(e) => {
                return Err(e);
            },
            Ok(_) => {},
        }
        let mut limits: Vec<i64> = crate::op::copied(&prefix);
        limits.push(n * n);
        let mut square_shape: Vec<i64> = crate::op::copied(&prefix);
        square_shape.push(n);
        square_shape.push(n);
        let padding: Vec<Widths> = padding_of_last_two(rank + 1, (0, 0), (0, n));
        let starts: Vec<i64> = entries_with_last(rank, 0, 0);
        let strides: Vec<i64> = entries_with_last(rank, 1, 1);
        let square: Tensor = self.unsqueeze(graph, rank)?.pad(
            graph,
            padding.as_slice(),
            Scalar::Bits(F32_ZERO),
        )?.reshape(graph, flat_shape.as_slice())?.slice(
            graph,
            starts.as_slice(),
            limits.as_slice(),
            strides.as_slice(),
        )?.reshape(graph, square_shape.as_slice())?;
        let outer: Vec<Widths> = if offset >= 0 {
            padding_of_last_two(rank + 1, (0, shift), (shift, 0))
        } else {
            padding_of_last_two(rank + 1, (shift, 0), (0, shift))
        };
        square.pad(graph, outer.as_slice(), Scalar::Bits(F32_ZERO))
    }

    /// Extract a diagonal across two distinct axes, appending its dimension
    /// after the remaining axes. Positive offsets move along `axis2`, negative
    /// offsets along `axis1`; out-of-range offsets give an empty diagonal.
    #[verifier::rlimit(40)]
    pub fn diagonal(
        &self,
        graph: &mut Graph,
        offset: i64,
        axis1: usize,
        axis2: usize,
    ) -> (r: Result<Tensor, Error>)
        requires
            old(graph).wf(),
            old(graph).owns(*self),
        ensures
            final(graph).extends(*old(graph)),
            final(graph).yields(r, self.expr().diagonal(offset, axis1, axis2)),
            r matches Ok(t) ==> t@.dims.len() >= 1,
            diagonal_error(self@.dims, axis1, axis2) is Some ==> *final(graph) == *old(graph),
    {
        proof {
            reveal(Expr::diagonal);
        }
        let rank: usize = self.shape().len();
        if axis1 >= rank || axis2 >= rank || axis1 == axis2 {
            return Err(err("diagonal requires two distinct valid axes"));
        }
        proof {
            lemma_volume_nonnegative(self@.dims);
        }
        let rows: i64 = self.shape()[axis1];
        let columns: i64 = self.shape()[axis2];
        proof {
            assert(rows * columns >= 0) by (nonlinear_arith)
                requires
                    rows >= 0,
                    columns >= 0,
            ;
        }
        let flat: i64 = match rows.checked_mul(columns) {
            Some(flat) => flat,
            None => {
                return Err(err("diagonal dimension overflow"));
            },
        };
        let pair: Vec<usize> = vec![axis1, axis2];
        assert(pair@ =~= seq![axis1, axis2]);
        let mut order: Vec<usize> = unlisted_axes(rank, pair.as_slice());
        let mut shape: Vec<i64> = gather_extents(self.shape(), order.as_slice());
        order.push(axis1);
        order.push(axis2);
        shape.push(flat);
        let last: usize = shape.len() - 1;
        let (start, stride, limit): (i64, i64, i64) = diagonal_run(offset, rows, columns);
        let starts: Vec<i64> = entries_with_last(shape.len(), 0, start);
        let strides: Vec<i64> = entries_with_last(shape.len(), 1, stride);
        let mut limits: Vec<i64> = crate::op::copied(&shape);
        limits.set(last, limit);
        let result: Tensor = self.transpose(graph, order.as_slice())?.reshape(
            graph,
            shape.as_slice(),
        )?.slice(graph, starts.as_slice(), limits.as_slice(), strides.as_slice())?;
        proof {
            reveal(applied);
        }
        Ok(result)
    }

    /// Sum an offset diagonal, removing both axes. An empty diagonal sums to zero.
    pub fn trace(
        &self,
        graph: &mut Graph,
        offset: i64,
        axis1: usize,
        axis2: usize,
    ) -> (r: Result<Tensor, Error>)
        requires
            old(graph).wf(),
            old(graph).owns(*self),
        ensures
            final(graph).extends(*old(graph)),
            final(graph).yields(r, self.expr().trace(offset, axis1, axis2)),
    {
        let diagonal: Tensor = self.diagonal(graph, offset, axis1, axis2)?;
        let last: usize = diagonal.shape().len() - 1;
        let axes: Vec<usize> = vec![last];
        assert(axes@ =~= seq![last]);
        diagonal.sum(graph, axes.as_slice(), false)
    }
}

} // verus!
