//! Extents of expressions: what a successful construction looks like.
use crate::dtype::DType;
use crate::graph::{applied, scalar, Expr};
use crate::indexing::narrowing;
use crate::op::{Binary, Comparison, OpModel, Reduction, Scalar, Unary};
use crate::shape::{collapsed, gathered, kept};
use crate::sound::slice_dims;
use vstd::prelude::*;

verus! {

/// The extents of a reduction.
pub open spec fn reduced_dims(dims: Seq<i64>, axes: Seq<usize>, keepdims: bool) -> Seq<i64> {
    if axes.len() == 0 {
        dims
    } else if keepdims {
        collapsed(dims, axes)
    } else {
        kept(dims, axes)
    }
}

impl Expr {
    /// A failure carries over, and a value stays in its graph with its extents.
    pub open spec fn keeps(self, from: Expr) -> bool {
        match (from, self) {
            (Expr::Fails(e), _) => self == from,
            (Expr::Is(x), Expr::Is(y)) => y.graph == x.graph && y.dims == x.dims,
            (Expr::Is(_), Expr::Fails(_)) => true,
        }
    }

    /// A failure carries over, and a value stays in its graph with new extents.
    pub open spec fn lands(self, from: Expr, dims: Seq<i64>) -> bool {
        match (from, self) {
            (Expr::Fails(e), _) => self == from,
            (Expr::Is(x), Expr::Is(y)) => y.graph == x.graph && y.dims == dims,
            (Expr::Is(_), Expr::Fails(_)) => true,
        }
    }
}

pub broadcast proof fn unary_keeps(x: Expr, op: Unary)
    ensures
        (#[trigger] x.unary(op)).keeps(x),
{
    reveal(applied);
}

pub broadcast proof fn same_shaped_keeps(x: Expr, op: OpModel)
    ensures
        (#[trigger] x.same_shaped(op)).keeps(x),
{
    reveal(applied);
}

pub broadcast proof fn binary_keeps(x: Expr, y: Expr, op: Binary)
    ensures
        (#[trigger] x.binary(y, op)).keeps(x),
{
    reveal(applied);
}

pub broadcast proof fn compared_keeps(x: Expr, y: Expr, op: Comparison)
    ensures
        (#[trigger] x.compared(y, op)).keeps(x),
{
    reveal(applied);
}

pub broadcast proof fn select_keeps(m: Expr, x: Expr, y: Expr)
    ensures
        (#[trigger] m.select(x, y)).keeps(m),
{
    reveal(applied);
}

pub broadcast proof fn cast_keeps(x: Expr, dtype: DType)
    ensures
        (#[trigger] x.cast(dtype)).keeps(x),
{
    reveal(applied);
}

pub broadcast proof fn reshape_lands(x: Expr, dims: Seq<i64>)
    ensures
        (#[trigger] x.reshape(dims)).lands(x, dims),
{
    reveal(applied);
}

pub broadcast proof fn broadcast_in_dim_lands(x: Expr, dims: Seq<i64>, axes: Seq<usize>)
    ensures
        (#[trigger] x.broadcast_in_dim(dims, axes)).lands(x, dims),
{
    reveal(applied);
}

pub broadcast proof fn broadcast_to_lands(x: Expr, dims: Seq<i64>)
    ensures
        (#[trigger] x.broadcast_to(dims)).lands(x, dims),
{
    reveal(applied);
}

pub broadcast proof fn filled_keeps(x: Expr, value: Scalar)
    ensures
        (#[trigger] x.filled(value)).keeps(x),
{
    reveal(applied);
    reveal(Expr::filled);
}

pub broadcast proof fn add_scalar_keeps(x: Expr, value: Scalar)
    ensures
        (#[trigger] x.add_scalar(value)).keeps(x),
{
    reveal(applied);
    reveal(Expr::add_scalar);
}

pub broadcast proof fn mul_scalar_keeps(x: Expr, value: Scalar)
    ensures
        (#[trigger] x.mul_scalar(value)).keeps(x),
{
    reveal(applied);
    reveal(Expr::mul_scalar);
}

pub broadcast proof fn flip_keeps(x: Expr, axes: Seq<usize>)
    ensures
        (#[trigger] x.flip(axes)).keeps(x),
{
    reveal(applied);
}

pub broadcast proof fn cumsum_keeps(x: Expr, axis: usize)
    ensures
        (#[trigger] x.cumsum(axis)).keeps(x),
{
    reveal(applied);
}

pub broadcast proof fn transpose_lands(x: Expr, permutation: Seq<usize>)
    ensures
        (#[trigger] x.transpose(permutation)) matches Expr::Is(y) ==> (x matches Expr::Is(v)
            && y.graph == v.graph && y.dims == gathered(v.dims, permutation)),
        x matches Expr::Fails(e) ==> x.transpose(permutation) == x,
{
    reveal(applied);
}

pub broadcast proof fn reduce_lands(x: Expr, kind: Reduction, axes: Seq<usize>, keepdims: bool)
    ensures
        (#[trigger] x.reduce(kind, axes, keepdims)) matches Expr::Is(y) ==> (x matches Expr::Is(v)
            && y.graph == v.graph && y.dims == reduced_dims(v.dims, axes, keepdims)),
        x matches Expr::Fails(e) ==> x.reduce(kind, axes, keepdims) == x,
{
    reveal(applied);
    reveal(Expr::reduce);
}

pub broadcast proof fn narrow_lands(x: Expr, axis: usize, start: i64, length: i64)
    ensures
        (#[trigger] x.narrow(axis, start, length)) matches Expr::Is(y) ==> (x matches Expr::Is(v)
            && y.graph == v.graph && axis < v.dims.len() && y.dims == v.dims.update(
            axis as int,
            length,
        )),
        x matches Expr::Fails(e) ==> x.narrow(axis, start, length) == x,
{
    reveal(applied);
    reveal(Expr::narrow);
    if let (Expr::Is(v), Expr::Is(y)) = (x, x.narrow(axis, start, length)) {
        let axes = narrowing(v.dims, axis, start, length);
        assert(y.dims == slice_dims(axes));
        assert forall|i: int| 0 <= i < v.dims.len() implies #[trigger] y.dims[i] == v.dims.update(
            axis as int,
            length,
        )[i] by {
            assert(axes[i].stride == 1);
            assert(crate::sound::slice_extent(axes[i]) == axes[i].limit - axes[i].start);
        }
        assert(y.dims =~= v.dims.update(axis as int, length));
    }
}

pub broadcast proof fn mean_keeps(x: Expr, axes: Seq<usize>, keepdims: bool)
    ensures
        (#[trigger] x.mean(axes, keepdims)) matches Expr::Is(y) ==> (x matches Expr::Is(v)
            && y.graph == v.graph && y.dims == reduced_dims(v.dims, axes, keepdims)),
        x matches Expr::Fails(e) ==> x.mean(axes, keepdims) == x,
{
    reveal(Expr::mean);
    broadcast use {mul_scalar_keeps, reduce_lands};

}

pub broadcast proof fn softmax_keeps(x: Expr, axis: usize)
    ensures
        (#[trigger] x.softmax(axis)).keeps(x),
{
    reveal(Expr::softmax);
    broadcast use {unary_keeps, binary_keeps};

}

/// A scalar constant has no extents, and belongs to its graph.
pub proof fn lemma_scalar_extents(graph: u64, value: Scalar)
    ensures
        scalar(graph, value) matches Expr::Is(y) ==> y.graph == graph && y.dims.len() == 0,
{
    reveal(applied);
}

/// Extents of the elementwise and reshaping operations.
pub broadcast group group_extents {
    unary_keeps,
    same_shaped_keeps,
    binary_keeps,
    compared_keeps,
    select_keeps,
    cast_keeps,
    reshape_lands,
    broadcast_in_dim_lands,
    broadcast_to_lands,
    filled_keeps,
    add_scalar_keeps,
    mul_scalar_keeps,
    flip_keeps,
    cumsum_keeps,
    transpose_lands,
    reduce_lands,
    narrow_lands,
    mean_keeps,
    softmax_keeps,
}

} // verus!
