//! Axis moves, flattening and static metadata of tensors.
use crate::error::{err, invalid, Error};
use crate::graph::{applied, constant_i32, values_of, Expr, Graph, Tensor};
use crate::indexing::{collect, concatenated, lemma_collect_err, lemma_collect_ok};
use crate::op::{Op, OpModel};
use crate::shape::{
    axis_span, bad_shape, contains_extent, elements, lemma_volume_nonnegative, span, volume,
};
use vstd::prelude::*;

verus! {

/// The axes with one moved to another position.
pub open spec fn moved(rank: nat, source: usize, destination: usize) -> Seq<usize> {
    span(0, rank).remove(source as int).insert(destination as int, source)
}

/// The axes with two exchanged.
pub open spec fn swapped(rank: nat, first: usize, second: usize) -> Seq<usize> {
    span(0, rank).update(first as int, second).update(second as int, first)
}

/// The product of extents while it fits `i64`; zero where one is zero.
pub open spec fn merged_extent(dims: Seq<i64>) -> Option<int> {
    if dims.contains(0) {
        Some(0)
    } else {
        crate::contraction::flat_extent(dims)
    }
}

/// The extents with the axes `start..=end` merged.
pub open spec fn flattened(dims: Seq<i64>, start: usize, end: usize) -> Result<Seq<i64>, Error> {
    if dims.len() == 0 && start == 0 && end == 0 {
        Ok(seq![1i64])
    } else if start > end || end >= dims.len() {
        Err(invalid("flatten requires an ordered inclusive axis range within rank"))
    } else {
        match merged_extent(dims.subrange(start as int, end as int + 1)) {
            None => Err(invalid("flattened dimension exceeds i64")),
            Some(size) => Ok(
                dims.take(start as int) + seq![size as i64] + dims.skip(end as int + 1),
            ),
        }
    }
}

/// The extents with one axis replaced by sizes of the same product.
pub open spec fn unflattened(dims: Seq<i64>, axis: usize, sizes: Seq<i64>) -> Result<
    Seq<i64>,
    Error,
> {
    if axis >= dims.len() {
        Err(invalid("unflatten axis out of range"))
    } else if sizes.len() > 0 && volume(sizes) is None {
        Err(bad_shape())
    } else if sizes.len() == 0 || volume(sizes) != Some(dims[axis as int] as nat) {
        Err(
            invalid(
                "unflatten sizes must be nonempty and multiply to the selected dimension",
            ),
        )
    } else {
        Ok(dims.take(axis as int) + sizes + dims.skip(axis as int + 1))
    }
}

impl Expr {
    /// One axis moved to another position.
    pub open spec fn move_axis(self, source: usize, destination: usize) -> Expr {
        match self {
            Expr::Fails(e) => Expr::Fails(e),
            Expr::Is(x) => if source >= x.dims.len() || destination >= x.dims.len() {
                Expr::invalid("move_axis axis out of range")
            } else {
                self.transpose(moved(x.dims.len(), source, destination))
            },
        }
    }

    /// Two axes exchanged.
    pub open spec fn swap_axes(self, first: usize, second: usize) -> Expr {
        match self {
            Expr::Fails(e) => Expr::Fails(e),
            Expr::Is(x) => if first >= x.dims.len() || second >= x.dims.len() {
                Expr::invalid("swap_axes axis out of range")
            } else {
                self.transpose(swapped(x.dims.len(), first, second))
            },
        }
    }

    /// Consecutive axes merged.
    pub open spec fn flatten(self, start: usize, end: usize) -> Expr {
        match self {
            Expr::Fails(e) => Expr::Fails(e),
            Expr::Is(x) => match flattened(x.dims, start, end) {
                Err(e) => Expr::Fails(e),
                Ok(dims) => self.reshape(dims),
            },
        }
    }

    /// One axis split into several.
    pub open spec fn unflatten(self, axis: usize, sizes: Seq<i64>) -> Expr {
        match self {
            Expr::Fails(e) => Expr::Fails(e),
            Expr::Is(x) => match unflattened(x.dims, axis, sizes) {
                Err(e) => Expr::Fails(e),
                Ok(dims) => self.reshape(dims),
            },
        }
    }

    /// The runtime size of one axis, as an I32 scalar.
    pub open spec fn dim(self, axis: usize) -> Expr {
        match self {
            Expr::Fails(e) => Expr::Fails(e),
            Expr::Is(x) => if axis >= x.dims.len() {
                Expr::Fails(
                    Error::AxisOutOfRange { operation: "dim", axis, rank: x.dims.len() as usize },
                )
            } else {
                applied(x.graph, OpModel::GetDimensionSize { axis }, seq![x], Seq::empty())
            },
        }
    }

    /// All runtime sizes, as a rank-one I32 tensor.
    pub open spec fn shape_tensor(self) -> Expr {
        match self {
            Expr::Fails(e) => Expr::Fails(e),
            Expr::Is(x) => if x.dims.len() == 0 {
                constant_i32(x.graph, seq![0i64], Seq::empty())
            } else {
                match collect(
                    Seq::new(x.dims.len(), |i: int| self.dim(i as usize).reshape(seq![1i64])),
                ) {
                    Err(e) => Expr::Fails(e),
                    Ok(sizes) => concatenated(sizes, 0),
                }
            },
        }
    }
}

/// The product of nonnegative extents, zero where one is zero.
fn merge_extents(dims: &[i64]) -> (r: Option<i64>)
    requires
        forall|i: int| 0 <= i < dims@.len() ==> #[trigger] dims@[i] >= 0,
    ensures
        match r {
            Some(size) => merged_extent(dims@) == Some(size as int),
            None => merged_extent(dims@) is None,
        },
{
    if contains_extent(dims, 0) {
        return Some(0);
    }
    match crate::contraction::product(dims) {
        Ok(size) => Some(size),
        Err(_) => None,
    }
}

impl Tensor {
    /// Number of axes; a scalar has rank zero.
    pub fn ndim(&self) -> (r: usize)
        requires
            self.wf(),
        ensures
            r == self@.dims.len(),
    {
        self.shape().len()
    }

    /// A statically known dimension size; `None` for an invalid axis.
    pub fn static_dim(&self, axis: usize) -> (r: Option<usize>)
        requires
            self.wf(),
        ensures
            match r {
                Some(size) => axis < self@.dims.len() && size == self@.dims[axis as int],
                None => axis >= self@.dims.len() || self@.dims[axis as int] > usize::MAX,
            },
    {
        let dims: &[i64] = self.shape();
        if axis >= dims.len() {
            return None;
        }
        proof {
            lemma_volume_nonnegative(self@.dims);
        }
        let size: i64 = dims[axis];
        if size as u64 > usize::MAX as u64 {
            return None;
        }
        Some(size as usize)
    }

    /// Static element count; a scalar has one element.
    pub fn numel(&self) -> (r: usize)
        requires
            self.wf(),
        ensures
            volume(self@.dims) == Some(r as nat),
    {
        match elements(self.shape()) {
            Ok(count) => count,
            Err(_) => 0,
        }
    }

    /// Whether any axis has extent zero. Scalars are not empty.
    pub fn is_empty(&self) -> (r: bool)
        requires
            self.wf(),
        ensures
            r == self@.dims.contains(0),
    {
        contains_extent(self.shape(), 0)
    }

    /// Move one axis to its final position, preserving the relative order of all
    /// other axes.
    pub fn move_axis(
        &self,
        graph: &mut Graph,
        source: usize,
        destination: usize,
    ) -> (r: Result<Tensor, Error>)
        requires
            old(graph).wf(),
            old(graph).owns(*self),
        ensures
            final(graph).extends(*old(graph)),
            final(graph).yields(r, self.expr().move_axis(source, destination)),
            final(graph).records(*old(graph), r),
    {
        let rank: usize = self.shape().len();
        if source >= rank || destination >= rank {
            return Err(err("move_axis axis out of range"));
        }
        let mut permutation: Vec<usize> = axis_span(0, rank);
        permutation.remove(source);
        permutation.insert(destination, source);
        self.transpose(graph, permutation.as_slice())
    }

    /// Exchange two axes, leaving all other axes in place.
    pub fn swap_axes(
        &self,
        graph: &mut Graph,
        first: usize,
        second: usize,
    ) -> (r: Result<Tensor, Error>)
        requires
            old(graph).wf(),
            old(graph).owns(*self),
        ensures
            final(graph).extends(*old(graph)),
            final(graph).yields(r, self.expr().swap_axes(first, second)),
            final(graph).records(*old(graph), r),
    {
        let rank: usize = self.shape().len();
        if first >= rank || second >= rank {
            return Err(err("swap_axes axis out of range"));
        }
        let mut permutation: Vec<usize> = axis_span(0, rank);
        permutation.set(first, second);
        permutation.set(second, first);
        self.transpose(graph, permutation.as_slice())
    }

    /// Merge axes `start..=end`. A scalar supports only `flatten(0, 0)`, which
    /// gives shape `[1]`.
    pub fn flatten(
        &self,
        graph: &mut Graph,
        start: usize,
        end: usize,
    ) -> (r: Result<Tensor, Error>)
        requires
            old(graph).wf(),
            old(graph).owns(*self),
        ensures
            final(graph).extends(*old(graph)),
            final(graph).yields(r, self.expr().flatten(start, end)),
            final(graph).records(*old(graph), r),
    {
        let dims: &[i64] = self.shape();
        let rank: usize = dims.len();
        if rank == 0 && start == 0 && end == 0 {
            let unit: Vec<i64> = vec![1];
            assert(unit@ =~= seq![1i64]);
            return self.reshape(graph, unit.as_slice());
        }
        if start > end || end >= rank {
            return Err(err("flatten requires an ordered inclusive axis range within rank"));
        }
        proof {
            lemma_volume_nonnegative(self@.dims);
        }
        let selected: &[i64] = vstd::slice::slice_subrange(dims, start, end + 1);
        let size: i64 = match merge_extents(selected) {
            Some(size) => size,
            None => {
                return Err(err("flattened dimension exceeds i64"));
            },
        };
        let mut head: Vec<i64> = vstd::slice::slice_to_vec(
            vstd::slice::slice_subrange(dims, 0, start),
        );
        head.push(size);
        let result: Vec<i64> = crate::matmul::chained(
            head.as_slice(),
            vstd::slice::slice_subrange(dims, end + 1, rank),
        );
        assert(result@ =~= self@.dims.take(start as int) + seq![size] + self@.dims.skip(end as int + 1));
        self.reshape(graph, result.as_slice())
    }

    /// Replace one axis with explicit sizes whose product equals it.
    pub fn unflatten(
        &self,
        graph: &mut Graph,
        axis: usize,
        sizes: &[i64],
    ) -> (r: Result<Tensor, Error>)
        requires
            old(graph).wf(),
            old(graph).owns(*self),
        ensures
            final(graph).extends(*old(graph)),
            final(graph).yields(r, self.expr().unflatten(axis, sizes@)),
            final(graph).records(*old(graph), r),
    {
        let dims: &[i64] = self.shape();
        let rank: usize = dims.len();
        if axis >= rank {
            return Err(err("unflatten axis out of range"));
        }
        proof {
            lemma_volume_nonnegative(self@.dims);
        }
        if sizes.len() == 0 {
            return Err(err("unflatten sizes must be nonempty and multiply to the selected dimension"));
        }
        let count: usize = match elements(sizes) {
            Err(e) => {
                return Err(e);
            },
            Ok(count) => count,
        };
        if count as u64 != dims[axis] as u64 {
            return Err(err("unflatten sizes must be nonempty and multiply to the selected dimension"));
        }
        let head: Vec<i64> = crate::matmul::chained(
            vstd::slice::slice_subrange(dims, 0, axis),
            sizes,
        );
        let result: Vec<i64> = crate::matmul::chained(
            head.as_slice(),
            vstd::slice::slice_subrange(dims, axis + 1, rank),
        );
        assert(result@ =~= self@.dims.take(axis as int) + sizes@ + self@.dims.skip(axis as int + 1));
        self.reshape(graph, result.as_slice())
    }

    /// Record the runtime size of one axis as a scalar I32 value. Unlike
    /// `static_dim`, this remains in the program.
    pub fn dim(
        &self,
        graph: &mut Graph,
        axis: usize,
    ) -> (r: Result<Tensor, Error>)
        requires
            old(graph).wf(),
            old(graph).owns(*self),
        ensures
            final(graph).extends(*old(graph)),
            final(graph).yields(r, self.expr().dim(axis)),
            final(graph).records(*old(graph), r),
    {
        if axis >= self.ndim() {
            return Err(Error::AxisOutOfRange { operation: "dim", axis, rank: self.ndim() });
        }
        let scalar: Vec<i64> = Vec::new();
        graph.node1(Op::GetDimensionSize { axis }, self, scalar.as_slice())
    }

    /// Record all runtime dimension sizes as a rank-one I32 tensor. A scalar
    /// gives an empty tensor.
    pub fn shape_tensor(
        &self,
        graph: &mut Graph,
    ) -> (r: Result<Tensor, Error>)
        requires
            old(graph).wf(),
            old(graph).owns(*self),
        ensures
            final(graph).extends(*old(graph)),
            final(graph).yields(r, self.expr().shape_tensor()),
    {
        let rank: usize = self.ndim();
        if rank == 0 {
            let dims: Vec<i64> = vec![0];
            let values: Vec<i32> = Vec::new();
            assert(dims@ =~= seq![0i64]);
            return graph.constant_i32(dims.as_slice(), values.as_slice());
        }
        let ghost parts = Seq::new(
            self@.dims.len(),
            |i: int| self.expr().dim(i as usize).reshape(seq![1i64]),
        );
        let unit: Vec<i64> = vec![1];
        assert(unit@ =~= seq![1i64]);
        let mut sizes: Vec<Tensor> = Vec::new();
        let mut axis: usize = 0;
        while axis < rank
            invariant
                old(graph).owns(*self),
                graph.extends(*old(graph)),
                rank == self@.dims.len(),
                rank > 0,
                unit@ == seq![1i64],
                parts == Seq::new(
                    self@.dims.len(),
                    |i: int| self.expr().dim(i as usize).reshape(seq![1i64]),
                ),
                axis <= rank,
                sizes@.len() == axis,
                forall|j: int| 0 <= j < axis ==> #[trigger] graph.owns(sizes@[j]),
                forall|j: int| 0 <= j < axis ==> #[trigger] parts[j] == Expr::Is(sizes@[j]@),
            decreases rank - axis,
        {
            let ghost before = *graph;
            assert(graph.admits(*self));
            assert(parts[axis as int] == self.expr().dim(axis).reshape(seq![1i64]));
            let size: Tensor = match self.dim(graph, axis) {
                Ok(size) => size,
                Err(e) => {
                    proof {
                        lemma_collect_err(parts, axis as int, e);
                    }
                    return Err(e);
                },
            };
            match size.reshape(graph, unit.as_slice()) {
                Ok(piece) => {
                    proof {
                        assert forall|j: int| 0 <= j < axis implies #[trigger] graph.owns(sizes@[j]) by {
                            assert(before.owns(sizes@[j]));
                            assert(graph.admits(sizes@[j]));
                        }
                    }
                    sizes.push(piece);
                },
                Err(e) => {
                    proof {
                        lemma_collect_err(parts, axis as int, e);
                    }
                    return Err(e);
                },
            }
            axis += 1;
        }
        proof {
            lemma_collect_ok(parts, values_of(sizes@));
            assert forall|j: int| 0 <= j < sizes@.len() implies #[trigger] graph.admits(sizes@[j]) by {
                assert(graph.owns(sizes@[j]));
            }
            assert(graph.owns(sizes@[0]));
        }
        Tensor::concatenate(graph, sizes.as_slice(), 0)
    }
}

} // verus!
