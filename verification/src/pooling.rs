//! Two-dimensional pooling of NHWC data.
use crate::error::{err, invalid, Error};
use crate::graph::{applied, scalar, Expr, Graph, Tensor};
use crate::op::{Op, OpModel, Pool2dOptions, Scalar, Widths, F32_ONE};
use crate::shape::lemma_volume_nonnegative;
use crate::sound::{padded_extent, pool_fits, window_count, window_valid};
use vstd::prelude::*;

verus! {

/// The number of window positions along one axis, or the refusal.
pub open spec fn pool_extent(size: i64, window: i64, stride: i64, widths: Widths) -> Result<
    i64,
    Error,
> {
    if window <= 0 || stride <= 0 || widths.0 < 0 || widths.1 < 0 {
        Err(invalid("pool2d requires positive windows/strides and nonnegative padding"))
    } else if padded_extent(size, widths) > i64::MAX {
        Err(invalid("pool2d padded size overflow"))
    } else {
        Ok(window_count(size, window as int, stride, widths) as i64)
    }
}

/// The extents of pooled data, or the refusal.
pub open spec fn pool_shape(x: Seq<i64>, options: Pool2dOptions) -> Result<Seq<i64>, Error> {
    if x.len() != 4 {
        Err(invalid("pool2d requires rank-four NHWC input"))
    } else {
        match (
            pool_extent(x[1], options.window.0, options.strides.0, options.padding.0),
            pool_extent(x[2], options.window.1, options.strides.1, options.padding.1),
        ) {
            (Err(e), _) => Err(e),
            (_, Err(e)) => Err(e),
            (Ok(height), Ok(width)) => Ok(seq![x[0], height, width, x[3]]),
        }
    }
}

impl Expr {
    /// Maxima over windows; padding is negative infinity.
    pub open spec fn max_pool2d(self, options: Pool2dOptions) -> Expr {
        match self {
            Expr::Fails(e) => Expr::Fails(e),
            Expr::Is(x) => match pool_shape(x.dims, options) {
                Err(e) => Expr::Fails(e),
                Ok(dims) => applied(x.graph, OpModel::MaxPool2d(options), seq![x], dims),
            },
        }
    }

    /// Sums over windows; padding is zero.
    pub open spec fn sum_pool2d(self, options: Pool2dOptions) -> Expr {
        match self {
            Expr::Fails(e) => Expr::Fails(e),
            Expr::Is(x) => match pool_shape(x.dims, options) {
                Err(e) => Expr::Fails(e),
                Ok(dims) => applied(x.graph, OpModel::SumPool2d(options), seq![x], dims),
            },
        }
    }

    /// Averages over windows, dividing by the window area or by the number of
    /// input elements in each window.
    pub open spec fn avg_pool2d(self, options: Pool2dOptions, count_include_pad: bool) -> Expr {
        match self {
            Expr::Fails(e) => Expr::Fails(e),
            Expr::Is(x) => match pool_shape(x.dims, options) {
                Err(e) => Expr::Fails(e),
                Ok(dims) => {
                    let sum = self.sum_pool2d(options);
                    if count_include_pad {
                        sum.mul_scalar(
                            Scalar::ReciprocalProduct { a: options.window.0, b: options.window.1 },
                        )
                    } else {
                        let ones = scalar(x.graph, Scalar::Bits(F32_ONE)).broadcast_to(
                            seq![1i64, x.dims[1], x.dims[2], 1i64],
                        ).given(sum);
                        sum.div(ones.sum_pool2d(options).broadcast_to(dims))
                    }
                },
            },
        }
    }
}

/// The number of window positions along one axis, or the refusal.
fn pool_positions(size: i64, window: i64, stride: i64, widths: Widths) -> (r: Result<i64, Error>)
    requires
        size >= 0,
    ensures
        r == pool_extent(size, window, stride, widths),
        r is Ok ==> window > 0 && window_valid(size, stride, widths),
{
    let (low, high): (i64, i64) = widths;
    if window <= 0 || stride <= 0 || low < 0 || high < 0 {
        return Err(err("pool2d requires positive windows/strides and nonnegative padding"));
    }
    let sum: Option<i64> = match size.checked_add(low) {
        Some(partial) => partial.checked_add(high),
        None => None,
    };
    let padded: i64 = match sum {
        Some(padded) => padded,
        None => {
            return Err(err("pool2d padded size overflow"));
        },
    };
    if padded < window {
        Ok(0)
    } else {
        let room: i64 = padded - window;
        proof {
            crate::convolution::lemma_quotient(room as int, stride as int);
        }
        Ok(room / stride + 1)
    }
}

impl Tensor {
    /// The extents of pooled data, or the refusal.
    fn pool2d_shape(&self, options: Pool2dOptions) -> (r: Result<Vec<i64>, Error>)
        requires
            self.wf(),
        ensures
            match r {
                Ok(dims) => pool_shape(self@.dims, options) == Ok::<Seq<i64>, Error>(dims@)
                    && pool_fits(self@.dims, options, dims@),
                Err(e) => pool_shape(self@.dims, options) == Err::<Seq<i64>, Error>(e),
            },
    {
        let x: &[i64] = self.shape();
        if x.len() != 4 {
            return Err(err("pool2d requires rank-four NHWC input"));
        }
        proof {
            lemma_volume_nonnegative(self@.dims);
        }
        let height: i64 = pool_positions(
            x[1],
            options.window.0,
            options.strides.0,
            options.padding.0,
        )?;
        let width: i64 = pool_positions(
            x[2],
            options.window.1,
            options.strides.1,
            options.padding.1,
        )?;
        let dims: Vec<i64> = vec![x[0], height, width, x[3]];
        assert(dims@ =~= seq![self@.dims[0], height, width, self@.dims[3]]);
        Ok(dims)
    }

    /// Max pooling over height and width, independently for every batch and
    /// channel. Padding is negative infinity; output sizes use floor division.
    pub fn max_pool2d(
        &self,
        graph: &mut Graph,
        options: Pool2dOptions,
    ) -> (r: Result<Tensor, Error>)
        requires
            old(graph).wf(),
            old(graph).owns(*self),
        ensures
            final(graph).extends(*old(graph)),
            final(graph).yields(r, self.expr().max_pool2d(options)),
            final(graph).records(*old(graph), r),
    {
        let dims: Vec<i64> = self.pool2d_shape(options)?;
        graph.node1(Op::MaxPool2d(options), self, dims.as_slice())
    }

    /// Sums over windows; padding is zero.
    fn sum_pool2d(
        &self,
        graph: &mut Graph,
        options: Pool2dOptions,
    ) -> (r: Result<Tensor, Error>)
        requires
            old(graph).wf(),
            old(graph).owns(*self),
        ensures
            final(graph).extends(*old(graph)),
            final(graph).yields(r, self.expr().sum_pool2d(options)),
            final(graph).records(*old(graph), r),
    {
        let dims: Vec<i64> = self.pool2d_shape(options)?;
        graph.node1(Op::SumPool2d(options), self, dims.as_slice())
    }

    /// Average pooling with zero-valued padding and floor output sizes. With
    /// `count_include_pad`, divide by the full window area; otherwise by the number
    /// of input elements in each window.
    pub fn avg_pool2d(
        &self,
        graph: &mut Graph,
        options: Pool2dOptions,
        count_include_pad: bool,
    ) -> (r: Result<Tensor, Error>)
        requires
            old(graph).wf(),
            old(graph).owns(*self),
        ensures
            final(graph).extends(*old(graph)),
            final(graph).yields(r, self.expr().avg_pool2d(options, count_include_pad)),
    {
        let output: Vec<i64> = self.pool2d_shape(options)?;
        proof {
            reveal(Expr::mul_scalar);
        }
        let sum: Tensor = self.sum_pool2d(graph, options)?;
        if count_include_pad {
            return sum.mul_scalar(
                graph,
                Scalar::ReciprocalProduct { a: options.window.0, b: options.window.1 },
            );
        }
        let plane: Vec<i64> = vec![1, self.shape()[1], self.shape()[2], 1];
        assert(plane@ =~= seq![1i64, self@.dims[1], self@.dims[2], 1i64]);
        let ones: Tensor = graph.scalar(Scalar::Bits(F32_ONE))?.broadcast_to(
            graph,
            plane.as_slice(),
        )?;
        let counts: Tensor = ones.sum_pool2d(graph, options)?;
        let divisor: Tensor = counts.broadcast_to(graph, output.as_slice())?;
        sum.div(graph, &divisor)
    }
}

} // verus!
