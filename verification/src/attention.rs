//! Scaled dot-product attention, grouped queries and causal masks.
use crate::dtype::DType;
use crate::error::{err, invalid, Error};
use crate::graph::{iota, typed, values_of, Expr, Graph, Tensor, Value};
use crate::matmul::{
    batch_of, broadcast_extents, broadcast_shape, broadcastable, chained, lemma_broadcast_dims,
};
use crate::op::{f32_finite, is_finite, Op, OpModel, Scalar};
use crate::shape::{lemma_volume_nonnegative, same_dims};
use vstd::prelude::*;

verus! {

/// The expression of an optional operand.
pub open spec fn optional(operand: Option<&Tensor>) -> Option<Expr> {
    match operand {
        Some(tensor) => Some(tensor.expr()),
        None => None,
    }
}

/// The factor of the scores: the given one, or one over the root of the depth.
pub open spec fn score_scale(scale: Option<u32>, depth: i64) -> Scalar {
    match scale {
        Some(bits) => Scalar::Bits(bits),
        None => Scalar::ReciprocalSqrt { radicand: depth },
    }
}

/// Whether query, key and value shapes fit attention.
pub open spec fn lengths_fit(q: Seq<i64>, k: Seq<i64>, v: Seq<i64>) -> bool {
    let depth = q[q.len() - 1];
    depth > 0 && k[k.len() - 1] == depth && k[k.len() - 2] != 0 && k[k.len() - 2] == v[v.len() - 2]
}

/// The last two extents of a shape.
pub open spec fn last_two(dims: Seq<i64>) -> Seq<i64> {
    seq![dims[dims.len() - 2], dims[dims.len() - 1]]
}

/// Whether grouped heads fit: equal prefixes and divisible positive counts.
pub open spec fn heads_fit(q: Seq<i64>, k: Seq<i64>, v: Seq<i64>) -> bool {
    let head = q.len() - 3;
    q.take(head) == k.take(head) && q.take(head) == v.take(head) && q[head] > 0 && k[head] > 0
        && v[head] == k[head] && q[head] as int % k[head] as int == 0
}

/// The first reason why queries cannot attend to keys and values.
pub open spec fn attention_error(
    q: Value,
    k: Value,
    v: Value,
    m: Option<Expr>,
    scale: Option<u32>,
) -> Option<Error> {
    if q.dims.len() < 2 || k.dims.len() < 2 || v.dims.len() < 2 {
        Some(invalid("attention requires rank >= 2 Q/K/V"))
    } else if q.dtype != DType::F32 || k.dtype != DType::F32 || v.dtype != DType::F32 || (m is Some
        && m->0->Is_0.dtype != DType::F32) {
        Some(invalid("attention requires F32 Q/K/V and mask tensors"))
    } else if !lengths_fit(q.dims, k.dims, v.dims) {
        Some(invalid("attention requires matching positive Q/K depth and K/V length"))
    } else if q.graph != k.graph || q.graph != v.graph || (m is Some && m->0->Is_0.graph
        != q.graph) {
        Some(invalid("cross-graph attention operand"))
    } else if scale is Some && !f32_finite(scale->0) {
        Some(invalid("attention scale must be finite"))
    } else if !broadcastable(batch_of(q.dims), batch_of(k.dims)) || !broadcastable(
        broadcast_shape(batch_of(q.dims), batch_of(k.dims)),
        batch_of(v.dims),
    ) {
        Some(invalid("attention batch dimensions cannot broadcast"))
    } else {
        None
    }
}

/// The first reason why queries cannot be grouped over fewer heads.
pub open spec fn grouping_error(q: Value, k: Value, v: Value, m: Option<Expr>) -> Option<Error> {
    if q.dims.len() < 3 || q.dims.len() != k.dims.len() || q.dims.len() != v.dims.len() {
        Some(invalid("GQA requires matching ranks >= 3"))
    } else if !heads_fit(q.dims, k.dims, v.dims) {
        Some(invalid("GQA requires equal batch prefixes and divisible positive head counts"))
    } else {
        let head = q.dims.len() - 3;
        if q.dims[head + 1] * (q.dims[head] / k.dims[head]) > i64::MAX {
            Some(invalid("GQA query row overflow"))
        } else if m is Some && m->0->Is_0.graph != q.graph {
            Some(invalid("cross-graph GQA mask"))
        } else {
            None
        }
    }
}

impl Expr {
    /// `softmax(Q K^T * scale + mask) V`, leading dimensions broadcast.
    #[verifier::opaque]
    pub open spec fn scaled_dot_product_attention(
        self,
        key: Expr,
        value: Expr,
        mask: Option<Expr>,
        scale: Option<u32>,
    ) -> Expr {
        match (self, key, value, mask) {
            (Expr::Fails(e), _, _, _) => Expr::Fails(e),
            (_, Expr::Fails(e), _, _) => Expr::Fails(e),
            (_, _, Expr::Fails(e), _) => Expr::Fails(e),
            (_, _, _, Some(Expr::Fails(e))) => Expr::Fails(e),
            (Expr::Is(q), Expr::Is(k), Expr::Is(v), m) => match attention_error(q, k, v, m, scale) {
                Some(e) => Expr::Fails(e),
                None => {
                    let batch = broadcast_shape(
                        broadcast_shape(batch_of(q.dims), batch_of(k.dims)),
                        batch_of(v.dims),
                    );
                    let rows = q.dims[q.dims.len() - 2];
                    let op = OpModel::Attention {
                        scale: score_scale(scale, q.dims[q.dims.len() - 1]),
                    };
                    let dims = batch + seq![rows, v.dims[v.dims.len() - 1]];
                    match (
                        self.broadcast_to(batch + last_two(q.dims)),
                        key.broadcast_to(batch + last_two(k.dims)),
                        value.broadcast_to(batch + last_two(v.dims)),
                    ) {
                        (Expr::Fails(e), _, _) => Expr::Fails(e),
                        (_, Expr::Fails(e), _) => Expr::Fails(e),
                        (_, _, Expr::Fails(e)) => Expr::Fails(e),
                        (Expr::Is(qb), Expr::Is(kb), Expr::Is(vb)) => match m {
                            None => typed(q.graph, op, seq![qb, kb, vb], dims, DType::F32),
                            Some(mask) => match mask.broadcast_to(
                                batch + seq![rows, k.dims[k.dims.len() - 2]],
                            ) {
                                Expr::Fails(e) => Expr::Fails(e),
                                Expr::Is(mb) => typed(
                                    q.graph,
                                    op,
                                    seq![qb, kb, vb, mb],
                                    dims,
                                    DType::F32,
                                ),
                            },
                        },
                    }
                },
            },
        }
    }

    /// Attention in which consecutive query heads share one key/value head.
    pub open spec fn grouped_query_attention(
        self,
        key: Expr,
        value: Expr,
        mask: Option<Expr>,
        scale: Option<u32>,
    ) -> Expr {
        match (self, key, value, mask) {
            (Expr::Fails(e), _, _, _) => Expr::Fails(e),
            (_, Expr::Fails(e), _, _) => Expr::Fails(e),
            (_, _, Expr::Fails(e), _) => Expr::Fails(e),
            (_, _, _, Some(Expr::Fails(e))) => Expr::Fails(e),
            (Expr::Is(q), Expr::Is(k), Expr::Is(v), m) => match grouping_error(q, k, v, m) {
                Some(e) => Expr::Fails(e),
                None => {
                    let head = q.dims.len() - 3;
                    let rows = q.dims[head + 1] * (q.dims[head] / k.dims[head]);
                    let grouped = q.dims.update(head, k.dims[head]).update(head + 1, rows as i64);
                    let bias = match m {
                        None => None,
                        Some(mask) => Some(
                            mask.broadcast_to(q.dims.update(head + 2, k.dims[head + 1])).reshape(
                                grouped.update(head + 2, k.dims[head + 1]),
                            ),
                        ),
                    };
                    let queries = match bias {
                        None => self.reshape(grouped),
                        Some(b) => self.reshape(grouped).given(b),
                    };
                    queries.scaled_dot_product_attention(key, value, bias, scale).reshape(
                        q.dims.update(head + 2, v.dims[head + 2]),
                    )
                },
            },
        }
    }

    /// Zero where a key position is at most the query position, else minus
    /// infinity.
    #[verifier::opaque]
    pub open spec fn causal_attention_mask(self, key_positions: Expr) -> Expr {
        match (self, key_positions) {
            (Expr::Fails(e), _) => Expr::Fails(e),
            (_, Expr::Fails(e)) => Expr::Fails(e),
            (Expr::Is(q), Expr::Is(k)) => if q.dtype != DType::I32 || k.dtype != DType::I32 {
                Expr::invalid("causal positions must be I32 tensors")
            } else if q.dims.len() != 1 || k.dims.len() != 1 {
                Expr::invalid("causal positions must be rank-one I32 tensors")
            } else if q.graph != k.graph {
                Expr::invalid("cross-graph causal positions")
            } else {
                let shape = seq![q.dims[0], k.dims[0]];
                let query = self.reshape(seq![q.dims[0], 1i64]).broadcast_to(shape);
                key_positions.reshape(seq![1i64, k.dims[0]]).broadcast_to(shape).given(
                    query,
                ).le_mask(query).log().detach()
            },
        }
    }
}

/// The mask of queries from an offset against keys from position zero.
pub open spec fn causal_mask(graph: u64, queries: i64, keys: i64, query_offset: i64) -> Expr {
    if queries < 0 || keys < 0 || keys > 0x8000_0000 || query_offset < 0 || query_offset
        > 0x7fff_ffff || queries > 0x8000_0000 - query_offset {
        Expr::invalid("causal mask requires nonnegative I32-representable positions")
    } else {
        let query = iota(graph, seq![queries], 0).wrapping_add_scalar(query_offset as i32);
        query.causal_attention_mask(iota(graph, seq![keys], 0).given(query))
    }
}

/// The last two extents of a shape.
fn tail_of(dims: &[i64]) -> (r: Vec<i64>)
    requires
        dims@.len() >= 2,
    ensures
        r@ == last_two(dims@),
{
    let n: usize = dims.len();
    let tail: Vec<i64> = vec![dims[n - 2], dims[n - 1]];
    assert(tail@ =~= last_two(dims@));
    tail
}

/// The batch extents of a shape.
fn head_of(dims: &[i64]) -> (r: Vec<i64>)
    requires
        dims@.len() >= 2,
    ensures
        r@ == batch_of(dims@),
{
    let n: usize = dims.len();
    let head: Vec<i64> = vstd::slice::slice_to_vec(vstd::slice::slice_subrange(dims, 0, n - 2));
    assert(head@ =~= batch_of(dims@));
    head
}

impl Graph {
    /// Additive F32 causal mask `[queries, keys]`: key `j` is visible to row
    /// `i` iff `j <= query_offset + i`. Visible entries are zero, others
    /// negative infinity.
    pub fn causal_attention_mask(&mut self, queries: i64, keys: i64, query_offset: i64) -> (r:
        Result<Tensor, Error>)
        requires
            old(self).wf(),
        ensures
            final(self).extends(*old(self)),
            final(self).yields(r, causal_mask(old(self).key(), queries, keys, query_offset)),
    {
        let max: i64 = 0x7fff_ffff;
        if queries < 0 || keys < 0 || keys > max + 1 || query_offset < 0 || query_offset > max
            || queries > max + 1 - query_offset {
            return Err(err("causal mask requires nonnegative I32-representable positions"));
        }
        proof {
            reveal(Expr::wrapping_add_scalar);
            reveal(Expr::causal_attention_mask);
        }
        let rows: Vec<i64> = vec![queries];
        let columns: Vec<i64> = vec![keys];
        assert(rows@ =~= seq![queries]);
        assert(columns@ =~= seq![keys]);
        let query: Tensor = self.iota_i32(rows.as_slice(), 0)?.wrapping_add_scalar(
            self,
            query_offset as i32,
        )?;
        let key: Tensor = self.iota_i32(columns.as_slice(), 0)?;
        query.causal_attention_mask(self, &key)
    }
}

impl Tensor {
    /// Additive causal mask from explicit query and key positions. Entry
    /// `(i, j)` is zero iff `key_positions[j] <= self[i]`, else negative infinity.
    /// Comparison is signed I32.
    pub fn causal_attention_mask(
        &self,
        graph: &mut Graph,
        key_positions: &Tensor,
    ) -> (r: Result<Tensor, Error>)
        requires
            old(graph).wf(),
            old(graph).owns(*self),
            old(graph).admits(*key_positions),
        ensures
            final(graph).extends(*old(graph)),
            final(graph).yields(r, self.expr().causal_attention_mask(key_positions.expr())),
    {
        proof {
            reveal(Expr::causal_attention_mask);
        }
        if self.dtype() != DType::I32 || key_positions.dtype() != DType::I32 {
            return Err(err("causal positions must be I32 tensors"));
        }
        if self.shape().len() != 1 || key_positions.shape().len() != 1 {
            return Err(err("causal positions must be rank-one I32 tensors"));
        }
        if !self.same_graph(key_positions) {
            return Err(err("cross-graph causal positions"));
        }
        let q: i64 = self.shape()[0];
        let k: i64 = key_positions.shape()[0];
        let shape: Vec<i64> = vec![q, k];
        let column: Vec<i64> = vec![q, 1];
        let row: Vec<i64> = vec![1, k];
        assert(shape@ =~= seq![q, k]);
        assert(column@ =~= seq![q, 1i64]);
        assert(row@ =~= seq![1i64, k]);
        let query: Tensor = self.reshape(graph, column.as_slice())?.broadcast_to(
            graph,
            shape.as_slice(),
        )?;
        let key: Tensor = key_positions.reshape(graph, row.as_slice())?.broadcast_to(
            graph,
            shape.as_slice(),
        )?;
        key.le_mask(graph, &query)?.log(graph)?.detach(graph)
    }

    /// Scaled dot-product attention: `softmax(Q K^T * scale + mask) V`. Leading
    /// dimensions broadcast. The scale defaults to one over the root of the depth;
    /// an explicit one, given by its F32 bits, must be finite. The mask is additive.
    #[verifier::rlimit(60)]
    pub fn scaled_dot_product_attention(
        &self,
        graph: &mut Graph,
        key: &Tensor,
        value: &Tensor,
        mask: Option<&Tensor>,
        scale: Option<u32>,
    ) -> (r: Result<Tensor, Error>)
        requires
            old(graph).wf(),
            old(graph).owns(*self),
            old(graph).admits(*key),
            old(graph).admits(*value),
            mask is Some ==> old(graph).admits(*mask->0),
        ensures
            final(graph).extends(*old(graph)),
            final(graph).yields(r, self.expr().scaled_dot_product_attention(
                    key.expr(),
                    value.expr(),
                    optional(mask),
                    scale,
                )),
            attention_error(self@, key@, value@, optional(mask), scale) is Some ==> *final(graph)
                == *old(graph),
    {
        proof {
            reveal(Expr::scaled_dot_product_attention);
        }
        let ql: usize = self.shape().len();
        let kl: usize = key.shape().len();
        let vl: usize = value.shape().len();
        if ql < 2 || kl < 2 || vl < 2 {
            return Err(err("attention requires rank >= 2 Q/K/V"));
        }
        let mask_typed: bool = match mask {
            Some(mask) => mask.dtype() == DType::F32,
            None => true,
        };
        if self.dtype() != DType::F32 || key.dtype() != DType::F32 || value.dtype() != DType::F32
            || !mask_typed {
            return Err(err("attention requires F32 Q/K/V and mask tensors"));
        }
        let depth: i64 = self.shape()[ql - 1];
        if depth <= 0 || key.shape()[kl - 1] != depth || key.shape()[kl - 2] == 0 || key.shape()[kl
            - 2] != value.shape()[vl - 2] {
            return Err(err("attention requires matching positive Q/K depth and K/V length"));
        }
        let mask_local: bool = match mask {
            Some(mask) => self.same_graph(mask),
            None => true,
        };
        if !self.same_graph(key) || !self.same_graph(value) || !mask_local {
            return Err(err("cross-graph attention operand"));
        }
        let factor: Scalar = match scale {
            Some(bits) => {
                if !is_finite(bits) {
                    return Err(err("attention scale must be finite"));
                }
                Scalar::Bits(bits)
            },
            None => Scalar::ReciprocalSqrt { radicand: depth },
        };
        let q_batch: Vec<i64> = head_of(self.shape());
        let k_batch: Vec<i64> = head_of(key.shape());
        let v_batch: Vec<i64> = head_of(value.shape());
        let pair: Vec<i64> = match broadcast_extents(q_batch.as_slice(), k_batch.as_slice()) {
            Some(pair) => pair,
            None => {
                return Err(err("attention batch dimensions cannot broadcast"));
            },
        };
        let batch: Vec<i64> = match broadcast_extents(pair.as_slice(), v_batch.as_slice()) {
            Some(batch) => batch,
            None => {
                return Err(err("attention batch dimensions cannot broadcast"));
            },
        };
        let rows: i64 = self.shape()[ql - 2];
        let q_dims: Vec<i64> = chained(batch.as_slice(), tail_of(self.shape()).as_slice());
        let k_dims: Vec<i64> = chained(batch.as_slice(), tail_of(key.shape()).as_slice());
        let v_dims: Vec<i64> = chained(batch.as_slice(), tail_of(value.shape()).as_slice());
        let query_b: Tensor = self.broadcast_to(graph, q_dims.as_slice())?;
        let key_b: Tensor = key.broadcast_to(graph, k_dims.as_slice())?;
        let value_b: Tensor = value.broadcast_to(graph, v_dims.as_slice())?;
        let score_tail: Vec<i64> = vec![rows, key.shape()[kl - 2]];
        assert(score_tail@ =~= seq![rows, key@.dims[kl - 2]]);
        let score_dims: Vec<i64> = chained(batch.as_slice(), score_tail.as_slice());
        let out_tail: Vec<i64> = vec![rows, value.shape()[vl - 1]];
        assert(out_tail@ =~= seq![rows, value@.dims[vl - 1]]);
        let dims: Vec<i64> = chained(batch.as_slice(), out_tail.as_slice());
        proof {
            lemma_broadcast_dims(self@, query_b@, q_dims@);
            lemma_broadcast_dims(key@, key_b@, k_dims@);
            lemma_broadcast_dims(value@, value_b@, v_dims@);
            assert(batch_of(q_dims@) =~= batch@);
            assert(batch_of(k_dims@) =~= batch@);
            assert(batch_of(v_dims@) =~= batch@);
            assert(batch_of(score_dims@) =~= batch@);
            assert(batch_of(dims@) =~= batch@);
        }
        let mut operands: Vec<Tensor> = vec![query_b, key_b, value_b];
        assert(values_of(operands@) =~= seq![query_b@, key_b@, value_b@]);
        match mask {
            Some(mask) => {
                let mask_b: Tensor = mask.broadcast_to(graph, score_dims.as_slice())?;
                proof {
                    lemma_broadcast_dims(mask@, mask_b@, score_dims@);
                }
                operands.push(mask_b);
                assert(values_of(operands@) =~= seq![query_b@, key_b@, value_b@, mask_b@]);
            },
            None => {},
        }
        graph.typed_list(
            Op::Attention { scale: factor },
            operands.as_slice(),
            dims.as_slice(),
            DType::F32,
        )
    }

    /// Grouped-query attention without explicit K/V head repetition. Consecutive
    /// query heads share one K/V head; batch prefixes match exactly and the query
    /// head count is divisible by the positive K/V head count.
    #[verifier::rlimit(60)]
    pub fn grouped_query_attention(
        &self,
        graph: &mut Graph,
        key: &Tensor,
        value: &Tensor,
        mask: Option<&Tensor>,
        scale: Option<u32>,
    ) -> (r: Result<Tensor, Error>)
        requires
            old(graph).wf(),
            old(graph).owns(*self),
            old(graph).admits(*key),
            old(graph).admits(*value),
            mask is Some ==> old(graph).admits(*mask->0),
        ensures
            final(graph).extends(*old(graph)),
            final(graph).yields(r, self.expr().grouped_query_attention(key.expr(), value.expr(), optional(mask), scale)),
            grouping_error(self@, key@, value@, optional(mask)) is Some ==> *final(graph) == *old(
                graph,
            ),
    {
        let q: &[i64] = self.shape();
        let k: &[i64] = key.shape();
        let v: &[i64] = value.shape();
        if q.len() < 3 || q.len() != k.len() || q.len() != v.len() {
            return Err(err("GQA requires matching ranks >= 3"));
        }
        proof {
            lemma_volume_nonnegative(self@.dims);
            reveal(Expr::scaled_dot_product_attention);
        }
        let rank: usize = q.len();
        let head: usize = rank - 3;
        let q_prefix: &[i64] = vstd::slice::slice_subrange(q, 0, head);
        let k_prefix: &[i64] = vstd::slice::slice_subrange(k, 0, head);
        let v_prefix: &[i64] = vstd::slice::slice_subrange(v, 0, head);
        assert(q_prefix@ =~= self@.dims.take(head as int));
        assert(k_prefix@ =~= key@.dims.take(head as int));
        assert(v_prefix@ =~= value@.dims.take(head as int));
        if !same_dims(q_prefix, k_prefix) || !same_dims(q_prefix, v_prefix) || q[head] <= 0 || k[head]
            <= 0 || v[head] != k[head] || q[head] % k[head] != 0 {
            return Err(err("GQA requires equal batch prefixes and divisible positive head counts"));
        }
        let share: i64 = q[head] / k[head];
        proof {
            assert(self@.dims[head + 1] * share >= 0) by (nonlinear_arith)
                requires
                    self@.dims[head + 1] >= 0,
                    share >= 0,
            ;
        }
        let rows: i64 = match q[head + 1].checked_mul(share) {
            Some(rows) => rows,
            None => {
                return Err(err("GQA query row overflow"));
            },
        };
        let keys: i64 = k[head + 1];
        let mut grouped: Vec<i64> = vstd::slice::slice_to_vec(q);
        grouped.set(head, k[head]);
        grouped.set(head + 1, rows);
        let mut output: Vec<i64> = vstd::slice::slice_to_vec(q);
        output.set(head + 2, v[head + 2]);
        let bias: Option<Tensor> = match mask {
            Some(mask) => {
                if !self.same_graph(mask) {
                    return Err(err("cross-graph GQA mask"));
                }
                let mut full: Vec<i64> = vstd::slice::slice_to_vec(q);
                full.set(head + 2, keys);
                let mut folded: Vec<i64> = crate::op::copied(&grouped);
                folded.set(head + 2, keys);
                let bias: Tensor = mask.broadcast_to(graph, full.as_slice())?.reshape(
                    graph,
                    folded.as_slice(),
                )?;
                Some(bias)
            },
            None => None,
        };
        let queries: Tensor = self.reshape(graph, grouped.as_slice())?;
        let result: Tensor = match &bias {
            Some(bias) => queries.scaled_dot_product_attention(graph, key, value, Some(bias), scale)?,
            None => queries.scaled_dot_product_attention(graph, key, value, None, scale)?,
        };
        result.reshape(graph, output.as_slice())
    }
}

} // verus!
