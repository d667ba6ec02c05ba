//! Matrix multiplication with broadcast batch axes.
use crate::error::{err, invalid, Error};
use crate::graph::{applied, Expr, Graph, Tensor, Value};
use crate::op::{Op, OpModel};
use crate::sound::matmul_fits;
use vstd::prelude::*;

verus! {

/// The extent of a right-aligned shape at one axis of a larger rank; one where
/// the shape has no such axis.
pub open spec fn aligned(dims: Seq<i64>, rank: nat, axis: int) -> i64 {
    if axis < rank - dims.len() {
        1
    } else {
        dims[axis - (rank - dims.len())]
    }
}

/// The larger of two ranks.
pub open spec fn joint_rank(a: Seq<i64>, b: Seq<i64>) -> nat {
    if a.len() >= b.len() {
        a.len()
    } else {
        b.len()
    }
}

/// Whether two right-aligned shapes broadcast against each other.
pub open spec fn broadcastable(a: Seq<i64>, b: Seq<i64>) -> bool {
    let rank = joint_rank(a, b);
    forall|i: int|
        0 <= i < rank ==> (#[trigger] aligned(a, rank, i) == 1 || aligned(b, rank, i) == 1
            || aligned(a, rank, i) == aligned(b, rank, i))
}

/// The shape that two right-aligned shapes broadcast to.
pub open spec fn broadcast_shape(a: Seq<i64>, b: Seq<i64>) -> Seq<i64> {
    let rank = joint_rank(a, b);
    Seq::new(
        rank,
        |i: int|
            if aligned(a, rank, i) == 1 {
                aligned(b, rank, i)
            } else {
                aligned(a, rank, i)
            },
    )
}

/// A left operand as a matrix: a vector becomes one row.
pub open spec fn lhs_matrix(dims: Seq<i64>) -> Seq<i64> {
    if dims.len() == 1 {
        dims.insert(0, 1)
    } else {
        dims
    }
}

/// A right operand as a matrix: a vector becomes one column.
pub open spec fn rhs_matrix(dims: Seq<i64>) -> Seq<i64> {
    if dims.len() == 1 {
        dims.push(1)
    } else {
        dims
    }
}

/// The batch extents of a matrix shape.
pub open spec fn batch_of(dims: Seq<i64>) -> Seq<i64> {
    dims.take(dims.len() - 2)
}

/// The last two extents of a matrix shape.
pub open spec fn matrix_of(dims: Seq<i64>) -> Seq<i64> {
    dims.skip(dims.len() - 2)
}

/// The first reason why two values have no matrix product.
pub open spec fn matmul_error(x: Value, y: Value) -> Option<Error> {
    if x.graph != y.graph {
        Some(invalid("cross-graph operands"))
    } else if x.dims.len() == 0 || y.dims.len() == 0 {
        Some(invalid("matmul does not accept scalars"))
    } else {
        let a = lhs_matrix(x.dims);
        let b = rhs_matrix(y.dims);
        if a[a.len() - 1] != b[b.len() - 2] {
            Some(invalid("matmul contracting dimensions differ"))
        } else if !broadcastable(batch_of(a), batch_of(b)) {
            Some(invalid("matmul batch dimensions cannot broadcast"))
        } else {
            None
        }
    }
}

impl Expr {
    /// The matrix product of two values already broadcast to one batch.
    pub open spec fn batched_product(self, rhs: Expr, dims: Seq<i64>) -> Expr {
        match (self, rhs) {
            (Expr::Fails(e), _) => Expr::Fails(e),
            (_, Expr::Fails(e)) => Expr::Fails(e),
            (Expr::Is(x), Expr::Is(y)) => applied(
                x.graph,
                OpModel::Matmul { batch_rank: (dims.len() - 2) as usize },
                seq![x, y],
                dims,
            ),
        }
    }

    /// Matrix multiplication of the last two axes. Vectors are promoted
    /// for the product; earlier axes broadcast.
    #[verifier::opaque]
    pub open spec fn matmul(self, rhs: Expr) -> Expr {
        match (self, rhs) {
            (Expr::Fails(e), _) => Expr::Fails(e),
            (_, Expr::Fails(e)) => Expr::Fails(e),
            (Expr::Is(x), Expr::Is(y)) => match matmul_error(x, y) {
                Some(e) => Expr::Fails(e),
                None => {
                    let row = x.dims.len() == 1;
                    let column = y.dims.len() == 1;
                    let a = lhs_matrix(x.dims);
                    let b = rhs_matrix(y.dims);
                    let batch = broadcast_shape(batch_of(a), batch_of(b));
                    let left = if row {
                        self.reshape(a)
                    } else {
                        self
                    };
                    let right = if column {
                        rhs.reshape(b)
                    } else {
                        rhs
                    };
                    let lhs = left.broadcast_to(batch + matrix_of(a)).given(right);
                    let product = lhs.batched_product(
                        right.broadcast_to(batch + matrix_of(b)),
                        batch + seq![a[a.len() - 2], b[b.len() - 1]],
                    ).given(lhs).given(left);
                    if row || column {
                        let rows = if row {
                            Seq::empty()
                        } else {
                            seq![a[a.len() - 2]]
                        };
                        let columns = if column {
                            Seq::empty()
                        } else {
                            seq![b[b.len() - 1]]
                        };
                        product.reshape(batch + rows + columns)
                    } else {
                        product
                    }
                },
            },
        }
    }
}

/// The shape that two right-aligned shapes broadcast to, if they do.
pub(crate) fn broadcast_extents(a: &[i64], b: &[i64]) -> (r: Option<Vec<i64>>)
    ensures
        match r {
            Some(dims) => broadcastable(a@, b@) && dims@ == broadcast_shape(a@, b@),
            None => !broadcastable(a@, b@),
        },
{
    let rank: usize = if a.len() >= b.len() {
        a.len()
    } else {
        b.len()
    };
    let mut dims: Vec<i64> = Vec::new();
    let mut i: usize = 0;
    while i < rank
        invariant
            rank == joint_rank(a@, b@),
            i <= rank,
            dims@.len() == i,
            forall|j: int|
                0 <= j < i ==> (#[trigger] aligned(a@, rank as nat, j) == 1 || aligned(
                    b@,
                    rank as nat,
                    j,
                ) == 1 || aligned(a@, rank as nat, j) == aligned(b@, rank as nat, j)),
            forall|j: int| 0 <= j < i ==> #[trigger] dims@[j] == broadcast_shape(a@, b@)[j],
        decreases rank - i,
    {
        let x: i64 = if i < rank - a.len() {
            1
        } else {
            a[i - (rank - a.len())]
        };
        let y: i64 = if i < rank - b.len() {
            1
        } else {
            b[i - (rank - b.len())]
        };
        assert(x == aligned(a@, rank as nat, i as int));
        assert(y == aligned(b@, rank as nat, i as int));
        if x == 1 {
            dims.push(y);
        } else if y == 1 || x == y {
            dims.push(x);
        } else {
            return None;
        }
        i += 1;
    }
    assert(dims@ =~= broadcast_shape(a@, b@));
    Some(dims)
}

/// One list of extents followed by another.
pub(crate) fn chained(a: &[i64], b: &[i64]) -> (r: Vec<i64>)
    ensures
        r@ == a@ + b@,
{
    let mut result: Vec<i64> = vstd::slice::slice_to_vec(a);
    let mut i: usize = 0;
    while i < b.len()
        invariant
            i <= b@.len(),
            result@ == a@ + b@.take(i as int),
        decreases b@.len() - i,
    {
        result.push(b[i]);
        assert(result@ =~= a@ + b@.take(i + 1));
        i += 1;
    }
    assert(b@.take(i as int) =~= b@);
    result
}

/// A broadcast has the target's extents, and stays in its graph.
pub proof fn lemma_broadcast_dims(x: Value, y: Value, dims: Seq<i64>)
    requires
        Expr::Is(x).broadcast_to(dims) == Expr::Is(y),
    ensures
        y.dims == dims,
        y.graph == x.graph,
        y.dtype == x.dtype,
{
    reveal(applied);
}

impl Tensor {
    /// Matrix multiplication with trailing matrix axes and broadcast batch axes.
    /// Vectors are promoted temporarily; vector by vector gives a scalar.
    #[verifier::rlimit(40)]
    pub fn matmul(
        &self,
        graph: &mut Graph,
        rhs: &Tensor,
    ) -> (r: Result<Tensor, Error>)
        requires
            old(graph).wf(),
            old(graph).owns(*self),
            old(graph).admits(*rhs),
        ensures
            final(graph).extends(*old(graph)),
            final(graph).yields(r, self.expr().matmul(rhs.expr())),
            matmul_error(self@, rhs@) is Some ==> *final(graph) == *old(graph),
    {
        proof {
            reveal(Expr::matmul);
        }
        if !self.same_graph(rhs) {
            return Err(err("cross-graph operands"));
        }
        if self.shape().len() == 0 || rhs.shape().len() == 0 {
            return Err(err("matmul does not accept scalars"));
        }
        let row: bool = self.shape().len() == 1;
        let column: bool = rhs.shape().len() == 1;
        let mut a: Vec<i64> = vstd::slice::slice_to_vec(self.shape());
        let mut b: Vec<i64> = vstd::slice::slice_to_vec(rhs.shape());
        if row {
            a.insert(0, 1);
        }
        if column {
            b.push(1);
        }
        assert(a@ == lhs_matrix(self@.dims));
        assert(b@ == rhs_matrix(rhs@.dims));
        let l: usize = a.len();
        let r: usize = b.len();
        if a[l - 1] != b[r - 2] {
            return Err(err("matmul contracting dimensions differ"));
        }
        let m: i64 = a[l - 2];
        let n: i64 = b[r - 1];
        let lhs_batch: &[i64] = vstd::slice::slice_subrange(a.as_slice(), 0, l - 2);
        let rhs_batch: &[i64] = vstd::slice::slice_subrange(b.as_slice(), 0, r - 2);
        assert(lhs_batch@ =~= batch_of(a@));
        assert(rhs_batch@ =~= batch_of(b@));
        let batch: Vec<i64> = match broadcast_extents(lhs_batch, rhs_batch) {
            Some(batch) => batch,
            None => {
                return Err(err("matmul batch dimensions cannot broadcast"));
            },
        };
        let lhs_tail: &[i64] = vstd::slice::slice_subrange(a.as_slice(), l - 2, l);
        let rhs_tail: &[i64] = vstd::slice::slice_subrange(b.as_slice(), r - 2, r);
        assert(lhs_tail@ =~= matrix_of(a@));
        assert(rhs_tail@ =~= matrix_of(b@));
        let lhs_target: Vec<i64> = chained(batch.as_slice(), lhs_tail);
        let rhs_target: Vec<i64> = chained(batch.as_slice(), rhs_tail);
        let left: Tensor = if row {
            self.reshape(graph, a.as_slice())?
        } else {
            self.copy()
        };
        let right: Tensor = if column {
            rhs.reshape(graph, b.as_slice())?
        } else {
            rhs.copy()
        };
        let lhs: Tensor = left.broadcast_to(graph, lhs_target.as_slice())?;
        let rhs: Tensor = right.broadcast_to(graph, rhs_target.as_slice())?;
        let mut output: Vec<i64> = crate::op::copied(&batch);
        let batch_rank: usize = batch.len();
        output.push(m);
        output.push(n);
        assert(output@ =~= batch@ + seq![m, n]);
        proof {
            lemma_broadcast_dims(left@, lhs@, lhs_target@);
            lemma_broadcast_dims(right@, rhs@, rhs_target@);
            assert(batch_of(lhs_target@) =~= batch@);
            assert(batch_of(rhs_target@) =~= batch@);
            assert(batch_of(output@) =~= batch@);
            assert(matmul_fits(lhs_target@, rhs_target@, output@));
        }
        let result: Tensor = graph.node2(Op::Matmul { batch_rank }, &lhs, &rhs, output.as_slice())?;
        if column {
            output.pop();
        }
        if row {
            output.remove(batch_rank);
        }
        if row || column {
            proof {
                let rows = if row {
                    Seq::empty()
                } else {
                    seq![m]
                };
                let columns = if column {
                    Seq::empty()
                } else {
                    seq![n]
                };
                assert(output@ =~= batch@ + rows + columns);
            }
            result.reshape(graph, output.as_slice())
        } else {
            Ok(result)
        }
    }
}

} // verus!
