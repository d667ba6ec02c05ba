//! Rotary position embeddings.
use crate::dtype::DType;
use crate::error::{err, Error};
use crate::graph::{applied, types_of, values_of, Expr, Graph, Tensor};
use crate::indexing::{joined, stacked_all, two};
use crate::listing::listed;
use vstd::prelude::*;

verus! {

/// Pairing of last-axis channels for rotary position embeddings.
#[derive(Clone, Copy, PartialEq, Eq, Structural, Debug)]
pub enum RotaryLayout {
    /// Pair channel `i` with `i + width/2`.
    SplitHalf,
    /// Pair channels `2*i` and `2*i + 1`.
    Interleaved,
}

impl Expr {
    /// Both channels of every pair.
    pub open spec fn rotary_pair(self, half: Seq<i64>, layout: RotaryLayout) -> (Expr, Expr) {
        let axis = (half.len() - 1) as usize;
        let width = half.last();
        match layout {
            RotaryLayout::SplitHalf => (
                self.narrow(axis, 0, width),
                self.narrow(axis, width, width),
            ),
            RotaryLayout::Interleaved => {
                let paired = self.reshape(half.push(2));
                (
                    paired.narrow((axis + 1) as usize, 0, 1).squeeze((axis + 1) as usize),
                    paired.narrow((axis + 1) as usize, 1, 1).squeeze((axis + 1) as usize),
                )
            },
        }
    }

    /// `(a*cos - b*sin, b*cos + a*sin)` on last-axis channel pairs.
    #[verifier::opaque]
    pub open spec fn rotary_embedding(self, cos: Expr, sin: Expr, layout: RotaryLayout) -> Expr {
        match (self, cos, sin) {
            (Expr::Fails(e), _, _) => Expr::Fails(e),
            (_, Expr::Fails(e), _) => Expr::Fails(e),
            (_, _, Expr::Fails(e)) => Expr::Fails(e),
            (Expr::Is(x), Expr::Is(c), Expr::Is(s)) => if x.dims.len() == 0 {
                Expr::invalid("RoPE requires rank >= 1")
            } else if x.dims.last() <= 0 || x.dims.last() as int % 2 != 0 {
                Expr::invalid("RoPE requires positive even last-axis width")
            } else if x.graph != c.graph || x.graph != s.graph {
                Expr::invalid("cross-graph RoPE angle tensor")
            } else {
                let axis = (x.dims.len() - 1) as usize;
                let half = x.dims.update(axis as int, (x.dims.last() / 2) as i64);
                let cosine = cos.broadcast_to(half);
                let sine = sin.broadcast_to(half).given(cosine);
                let (a, b0) = self.rotary_pair(half, layout);
                let b = b0.given(a);
                let first = a.mul(cosine).sub(b.mul(sine)).given(b).given(sine);
                let second = b.mul(cosine).add(a.mul(sine));
                match layout {
                    RotaryLayout::SplitHalf => joined(two(first, second), axis),
                    RotaryLayout::Interleaved => stacked_all(
                        two(first, second),
                        (axis + 1) as usize,
                    ).reshape(x.dims),
                }
            },
        }
    }

    /// A rotation by angles in radians.
    pub open spec fn rotary_embedding_angles(self, angles: Expr, layout: RotaryLayout) -> Expr {
        match (self, angles) {
            (Expr::Fails(e), _) => Expr::Fails(e),
            _ => self.rotary_embedding(angles.cos(), angles.sin(), layout),
        }
    }
}

impl Tensor {
    /// Both channels of every pair.
    fn rotary_pair(&self, graph: &mut Graph, half: &Vec<i64>, layout: RotaryLayout) -> (r: Result<
        (Tensor, Tensor),
        Error,
    >)
        requires
            old(graph).wf(),
            old(graph).owns(*self),
            half@.len() > 0,
        ensures
            final(graph).extends(*old(graph)),
            match r {
                Ok((a, b)) => {
                    &&& final(graph).owns(a)
                    &&& final(graph).owns(b)
                    &&& self.expr().rotary_pair(half@, layout) == (a.expr(), b.expr())
                },
                Err(e) => {
                    let (a, b) = self.expr().rotary_pair(half@, layout);
                    b.given(a) == Expr::Fails(e)
                },
            },
    {
        let axis: usize = half.len() - 1;
        let width: i64 = half[axis];
        match layout {
            RotaryLayout::SplitHalf => {
                let a: Tensor = self.narrow(graph, axis, 0, width)?;
                let b: Tensor = self.narrow(graph, axis, width, width)?;
                Ok((a, b))
            },
            RotaryLayout::Interleaved => {
                proof {
                    reveal(Expr::narrow);
                }
                let mut dims: Vec<i64> = crate::op::copied(half);
                dims.push(2);
                let paired: Tensor = self.reshape(graph, dims.as_slice())?;
                let a: Tensor = paired.narrow(graph, axis + 1, 0, 1)?.squeeze(graph, axis + 1)?;
                let b: Tensor = paired.narrow(graph, axis + 1, 1, 1)?.squeeze(graph, axis + 1)?;
                Ok((a, b))
            },
        }
    }

    /// Apply `(a*cos - b*sin, b*cos + a*sin)` to last-axis channel pairs. The
    /// width must be positive and even; `cos` and `sin` broadcast to this shape with
    /// its last extent halved.
    #[verifier::rlimit(40)]
    pub fn rotary_embedding(
        &self,
        graph: &mut Graph,
        cos: &Tensor,
        sin: &Tensor,
        layout: RotaryLayout,
    ) -> (r: Result<Tensor, Error>)
        requires
            old(graph).wf(),
            old(graph).owns(*self),
            old(graph).admits(*cos),
            old(graph).admits(*sin),
        ensures
            final(graph).extends(*old(graph)),
            final(graph).yields(r, self.expr().rotary_embedding(cos.expr(), sin.expr(), layout)),
    {
        proof {
            reveal(Expr::rotary_embedding);
        }
        let rank: usize = self.shape().len();
        if rank == 0 {
            return Err(err("RoPE requires rank >= 1"));
        }
        let width: i64 = self.shape()[rank - 1];
        if width <= 0 || width % 2 != 0 {
            return Err(err("RoPE requires positive even last-axis width"));
        }
        if !self.same_graph(cos) || !self.same_graph(sin) {
            return Err(err("cross-graph RoPE angle tensor"));
        }
        let axis: usize = rank - 1;
        let mut half: Vec<i64> = vstd::slice::slice_to_vec(self.shape());
        half.set(axis, width / 2);
        let cosine: Tensor = cos.broadcast_to(graph, half.as_slice())?;
        let sine: Tensor = sin.broadcast_to(graph, half.as_slice())?;
        let (a, b): (Tensor, Tensor) = self.rotary_pair(graph, &half, layout)?;
        let ac: Tensor = a.mul(graph, &cosine)?;
        let bs: Tensor = b.mul(graph, &sine)?;
        let first: Tensor = ac.sub(graph, &bs)?;
        let bc: Tensor = b.mul(graph, &cosine)?;
        let sa: Tensor = a.mul(graph, &sine)?;
        let second: Tensor = bc.add(graph, &sa)?;
        let pair: Vec<Tensor> = vec![first, second];
        assert(values_of(pair@) =~= seq![first@, second@]);
        match layout {
            RotaryLayout::SplitHalf => Tensor::concatenate(graph, pair.as_slice(), axis),
            RotaryLayout::Interleaved => Tensor::stack(graph, pair.as_slice(), axis + 1)?.reshape(
                graph,
                self.shape(),
            ),
        }
    }

    /// Rotate by graph-computed angles in radians, which use the half-width
    /// convention of `rotary_embedding`.
    pub fn rotary_embedding_angles(
        &self,
        graph: &mut Graph,
        angles: &Tensor,
        layout: RotaryLayout,
    ) -> (r: Result<Tensor, Error>)
        requires
            old(graph).wf(),
            old(graph).owns(*self),
            old(graph).admits(*angles),
        ensures
            final(graph).extends(*old(graph)),
            final(graph).yields(r, self.expr().rotary_embedding_angles(angles.expr(), layout)),
    {
        proof {
            reveal(Expr::rotary_embedding);
        }
        if !self.same_graph(angles) {
            proof {
                reveal(applied);
                assert(types_of(seq![angles@]) =~= seq![angles@.dtype]);
                assert(angles@.dims == seq![angles@][0].dims);
            }
            if angles.dtype() != DType::F32 {
                assert(types_of(seq![angles@])[0] != DType::F32);
                let types: [DType; 1] = [angles.dtype()];
                assert(types@ =~= seq![angles@.dtype]);
                return Err(
                    Error::UnsupportedOperandTypes { operation: "Unary", types: listed(&types) },
                );
            }
            let dims: &[i64] = angles.shape();
            let rank: usize = self.shape().len();
            if rank == 0 {
                return Err(err("RoPE requires rank >= 1"));
            }
            let width: i64 = self.shape()[rank - 1];
            if width <= 0 || width % 2 != 0 {
                return Err(err("RoPE requires positive even last-axis width"));
            }
            return Err(err("cross-graph RoPE angle tensor"));
        }
        let cos: Tensor = angles.cos(graph)?;
        let sin: Tensor = angles.sin(graph)?;
        self.rotary_embedding(graph, &cos, &sin, layout)
    }
}

} // verus!
