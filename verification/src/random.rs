//! Explicit counter-based randomness in the graph: Threefry blocks,
//! distributions of random words, and categorical sampling.
use crate::error::{err, invalid, Error};
use crate::facts::group_extents;
use crate::graph::{iota, scalar_i32, Expr, Graph, Tensor, Value};
use crate::op::{
    f32_order, f32_positive_finite, is_positive_finite, order, Scalar, Widths, F32_HALF,
    F32_NEG_INFINITY, F32_ONE, F32_ZERO,
};
use crate::shape::{counted, elements, lemma_volume_nonnegative, same_dims};
use vstd::prelude::*;

verus! {

/// `2^-23` in F32.
pub const F32_TWO_POW_NEG_23: u32 = 0x3400_0000;

/// `2^-24` in F32.
pub const F32_TWO_POW_NEG_24: u32 = 0x3380_0000;

/// `-2` in F32.
pub const F32_NEG_TWO: u32 = 0xc000_0000;

/// `2 * pi` in F32.
pub const F32_TAU: u32 = 0x40c9_0fdb;

/// The parity constant of the Threefry key schedule.
pub const THREEFRY_PARITY: i32 = 0x1bd1_1bda;

/// A categorical draw with the category axis removed from both outputs.
pub struct CategoricalSample {
    pub indices: Tensor,
    /// F32 0 or 1 per row. Invalid rows have the placeholder index zero.
    pub valid: Tensor,
}

/// Two random words per element and a proposed scalar counter.
pub struct ThreefryBlocks {
    pub bits: (Tensor, Tensor),
    /// Low word, then high word, of the counter after all blocks.
    pub next_counter: (Tensor, Tensor),
    /// Scalar F32 0 or 1: whether advancing crossed the 64-bit period.
    pub counter_wrapped: Tensor,
}

/// Two expressions, built in order.
pub struct Duo {
    pub first: Expr,
    pub second: Expr,
}

impl Duo {
    /// The second expression, or the first failure.
    pub open spec fn outcome(self) -> Expr {
        self.second.given(self.first)
    }
}

/// A draw of blocks: two words per element, the next counter, and whether it
/// wrapped.
pub struct Draw {
    pub bits: Duo,
    pub next: Duo,
    pub wrapped: Expr,
}

impl Draw {
    /// Whether the counter wrapped, or the first failure.
    pub open spec fn outcome(self) -> Expr {
        self.wrapped.given(self.next.outcome()).given(self.bits.outcome())
    }
}

/// A draw of categories: the chosen indices, and which rows are valid.
pub struct Choice {
    pub indices: Expr,
    pub valid: Expr,
}

/// The rotation of a Threefry round.
pub open spec fn rotation(round: nat) -> u32 {
    let step = round % 8;
    if step == 0 {
        13
    } else if step == 1 {
        15
    } else if step == 2 {
        26
    } else if step == 3 {
        6
    } else if step == 4 {
        17
    } else if step == 5 {
        29
    } else if step == 6 {
        16
    } else {
        24
    }
}

/// A word of the Threefry key schedule.
pub open spec fn schedule(keys: (Expr, Expr, Expr), index: nat) -> Expr {
    if index % 3 == 0 {
        keys.0
    } else if index % 3 == 1 {
        keys.1
    } else {
        keys.2
    }
}

impl Duo {
    /// One mixing step: an addition, a rotation and an exclusive or.
    #[verifier::opaque]
    pub open spec fn mixed(self, bits: u32) -> Duo {
        let a = self.first.wrapping_add(self.second);
        let left = self.second.shift_left(bits);
        let b = left.bitwise_or(self.second.shift_right_logical((32 - bits) as u32)).bitwise_xor(a);
        Duo { first: a, second: b.given(a) }
    }

    /// A key injection.
    #[verifier::opaque]
    pub open spec fn injected(self, keys: (Expr, Expr, Expr), injection: nat) -> Duo {
        let a = self.first.given(self.second).wrapping_add(schedule(keys, injection));
        let b = self.second.wrapping_add(schedule(keys, injection + 1));
        Duo { first: a, second: b.wrapping_add_scalar(injection as i32).given(a) }
    }

    /// One round: a mixing step, with a key injection after every fourth.
    pub open spec fn round(self, keys: (Expr, Expr, Expr), round: nat) -> Duo {
        let mixed = self.mixed(rotation(round));
        if (round + 1) % 4 == 0 {
            mixed.injected(keys, (round + 1) / 4)
        } else {
            mixed
        }
    }

    /// The first `count` rounds.
    pub open spec fn rounds(self, keys: (Expr, Expr, Expr), count: nat) -> Duo
        decreases count,
    {
        if count == 0 {
            self
        } else {
            self.rounds(keys, (count - 1) as nat).round(keys, (count - 1) as nat)
        }
    }
}

/// Whether a value has the graph and extents of another.
pub open spec fn alike(x: Value, y: Value) -> bool {
    x.graph == y.graph && x.dims == y.dims
}

/// Threefry2x32 with twenty rounds.
#[verifier::opaque]
pub open spec fn threefry2x32_of(key: (Value, Value), counter: (Value, Value)) -> Duo {
    let k = key.0;
    if !alike(k, key.1) || !alike(k, counter.0) || !alike(k, counter.1) {
        let refused = Expr::invalid("Threefry key/counter words must match graph and shape");
        Duo { first: refused, second: refused }
    } else {
        let parity = scalar_i32(k.graph, THREEFRY_PARITY).broadcast_to(k.dims);
        let third = Expr::Is(k).bitwise_xor(Expr::Is(key.1)).given(parity).bitwise_xor(parity);
        let keys = (Expr::Is(k), Expr::Is(key.1), third);
        let a = Expr::Is(counter.0).wrapping_add(Expr::Is(k)).given(third);
        let b = Expr::Is(counter.1).wrapping_add(Expr::Is(key.1)).given(a);
        (Duo { first: a, second: b }).rounds(keys, 20)
    }
}

/// One where the first word is less than the second as an unsigned number,
/// zero elsewhere.
#[verifier::opaque]
pub open spec fn unsigned_less(a: Expr, b: Expr) -> Expr {
    let sign = a.filled_i32(i32::MIN);
    let right = b.bitwise_xor(sign).given(sign);
    right.le_mask(a.bitwise_xor(sign)).neg().add_scalar(Scalar::Bits(F32_ONE))
}

/// A 64-bit counter advanced by an increment, and whether it wrapped.
#[verifier::opaque]
pub open spec fn advanced(low: Expr, high: Expr, increment: Expr) -> (Duo, Expr) {
    let next_low = low.wrapping_add(increment);
    let carry = unsigned_less(next_low, low).given(next_low);
    let next_high = carry.select(high.wrapping_add_scalar(1).given(carry), high);
    let wrapped = unsigned_less(next_high, high).given(next_high);
    (Duo { first: next_low, second: next_high }, wrapped)
}

/// The failure of a draw.
pub open spec fn failed_draw(error: Error) -> Draw {
    let failed = Expr::Fails(error);
    Draw {
        bits: Duo { first: failed, second: failed },
        next: Duo { first: failed, second: failed },
        wrapped: failed,
    }
}

/// Whether a word is a scalar of the same graph.
pub open spec fn scalar_word(key: Value, word: Value) -> bool {
    word.dims.len() == 0 && word.graph == key.graph
}

/// Consecutive Threefry blocks for every element of a shape.
pub open spec fn blocks_of(
    key: (Value, Value),
    counter: (Value, Value),
    shape: Seq<i64>,
) -> Draw {
    match counted(shape) {
        Err(e) => failed_draw(e),
        Ok(count) => if count > i32::MAX {
            failed_draw(invalid("Threefry block count exceeds I32 iota range"))
        } else if !scalar_word(key.0, key.0) || !scalar_word(key.0, key.1) || !scalar_word(
            key.0,
            counter.0,
        ) || !scalar_word(key.0, counter.1) {
            failed_draw(invalid("Threefry batch key/counter must be same-graph scalars"))
        } else {
            drawn(key, counter, shape, count)
        },
    }
}

/// The counter of every element, or the first failure.
#[verifier::opaque]
pub open spec fn lanes_of(graph: u64, counter: (Value, Value), shape: Seq<i64>, count: nat) -> (
    Duo,
    Expr,
) {
    let offset = iota(graph, seq![count as i64], 0).reshape(shape);
    let low = Expr::Is(counter.0).broadcast_to(shape).given(offset);
    let high = Expr::Is(counter.1).broadcast_to(shape).given(low);
    advanced(low.given(high), high, offset)
}

/// The blocks of every element of a shape, from scalar words of one graph.
#[verifier::opaque]
pub open spec fn drawn(
    key: (Value, Value),
    counter: (Value, Value),
    shape: Seq<i64>,
    count: nat,
) -> Draw {
    let lanes = lanes_of(key.0.graph, counter, shape, count);
    let first = Expr::Is(key.0).broadcast_to(shape).given(lanes.1);
    let second = Expr::Is(key.1).broadcast_to(shape).given(first);
    match (first, second, lanes.0.first, lanes.0.second) {
        (Expr::Is(k0), Expr::Is(k1), Expr::Is(c0), Expr::Is(c1)) => {
            let bits = threefry2x32_of((k0, k1), (c0, c1));
            let increment = scalar_i32(key.0.graph, count as i32);
            let next = advanced(
                Expr::Is(counter.0).given(increment),
                Expr::Is(counter.1),
                increment,
            );
            Draw { bits, next: next.0, wrapped: next.1 }
        },
        _ => {
            let failed = second.given(first);
            Draw {
                bits: Duo { first: failed, second: failed },
                next: Duo { first: failed, second: failed },
                wrapped: failed,
            }
        },
    }
}

impl Expr {
    /// Uniform F32 values in `[0, 1)` from the high 24 bits of random words.
    #[verifier::opaque]
    pub open spec fn uniform_from_bits(self) -> Expr {
        self.shift_right_logical(8).to_f32().mul_scalar(Scalar::Bits(F32_TWO_POW_NEG_24))
    }

    /// F32 midpoints strictly inside `(0, 1)` from the high 23 bits of random
    /// words.
    #[verifier::opaque]
    pub open spec fn midpoints_from_bits(self) -> Expr {
        let whole = self.shift_right_logical(9).to_f32();
        whole.add_scalar(Scalar::Bits(F32_HALF)).mul_scalar(Scalar::Bits(F32_TWO_POW_NEG_23))
    }

    /// Approximate standard-normal values from two random words.
    pub open spec fn normal_from_bits(self, angle: Expr) -> Expr {
        match (self, angle) {
            (Expr::Fails(e), _) => Expr::Fails(e),
            (_, Expr::Fails(e)) => Expr::Fails(e),
            (Expr::Is(x), Expr::Is(y)) => if x.graph != y.graph || x.dims != y.dims {
                Expr::invalid("normal bits must have the same shape and graph")
            } else {
                let radius = self.midpoints_from_bits().log().mul_scalar(
                    Scalar::Bits(F32_NEG_TWO),
                ).sqrt();
                let turn = angle.uniform_from_bits().mul_scalar(Scalar::Bits(F32_TAU)).cos();
                radius.mul(turn)
            },
        }
    }

    /// One per row whose logits are finite or masked with one finite at least,
    /// zero elsewhere.
    #[verifier::opaque]
    pub open spec fn row_validity(self, logits: Expr, masked: Expr, axis: usize) -> Expr {
        let allowed = self.add(logits.eq_mask(masked));
        let low = allowed.min(seq![axis], false);
        low.mul(self.max(seq![axis], false))
    }

    /// Finite logits less their maximum along an axis.
    #[verifier::opaque]
    pub open spec fn row_centered(self, finite: Expr, masked: Expr, axis: usize) -> Expr {
        let safe = finite.select(self, masked);
        let maximum = safe.max(seq![axis], true);
        let mask = maximum.is_finite_mask();
        let level = mask.select(maximum, maximum.filled(Scalar::Bits(F32_ZERO)));
        safe.sub(level.broadcast_to(self->Is_0.dims).given(safe))
    }

    /// The probability of all categories before each one, along an axis.
    #[verifier::opaque]
    pub open spec fn prior_mass(self, dims: Seq<i64>, axis: usize) -> Expr {
        self.softmax(axis).cumsum(axis).narrow(axis, 0, (dims[axis as int] - 1) as i64).pad(
            leading_pad(dims.len(), axis),
            Scalar::Bits(F32_ZERO),
        )
    }

    /// Gumbel noise from random words.
    #[verifier::opaque]
    pub open spec fn gumbel_from_bits(self) -> Expr {
        self.midpoints_from_bits().log().neg().log().neg()
    }
}

/// The placeholder zero where a row is not valid.
#[verifier::opaque]
pub open spec fn guarded(valid: Expr, indices: Expr) -> Expr {
    valid.select(indices, indices.filled_i32(0))
}

/// A categorical draw by the largest perturbed logit.
pub open spec fn categorical_of(logits: Value, bits: Value, axis: usize) -> Choice {
    if logits.graph != bits.graph || logits.dims != bits.dims {
        let refused = Expr::invalid("categorical logits/bits must have the same graph and shape");
        Choice { indices: refused, valid: refused }
    } else if axis >= logits.dims.len() || logits.dims[axis as int] == 0 || logits.dims[axis as int]
        > i32::MAX {
        let refused = Expr::invalid("categorical axis must be valid and nonempty");
        Choice { indices: refused, valid: refused }
    } else {
        gumbel_max(Expr::Is(logits), Expr::Is(bits), axis)
    }
}

/// The index of the largest perturbed logit of each row.
#[verifier::opaque]
pub open spec fn gumbel_max(x: Expr, bits: Expr, axis: usize) -> Choice {
    let masked = x.filled(Scalar::Bits(F32_NEG_INFINITY));
    let finite = x.is_finite_mask().given(masked);
    let valid = finite.row_validity(x, masked, axis).given(finite);
    let centered = x.row_centered(finite, masked, axis).given(valid);
    let noise = bits.gumbel_from_bits().given(centered);
    let perturbed = centered.add(noise).given(noise);
    let scores = finite.select(perturbed, masked).given(perturbed);
    let found = scores.argmax(axis, false);
    Choice { indices: guarded(valid, found).given(found), valid }
}

/// Why a truncated draw is refused, or the extents of its candidates.
pub open spec fn topk_sample_shape(logits: Value, k: usize, axis: usize) -> Result<Seq<i64>, Error> {
    if axis >= logits.dims.len() || logits.dims[axis as int] > i32::MAX || k == 0 || k
        > logits.dims[axis as int] {
        Err(invalid("top-k sampling requires a valid I32-sized axis and 1 <= k <= axis size"))
    } else {
        Ok(logits.dims.update(axis as int, k as i64))
    }
}

/// A draw among sorted candidates, named by the original categories.
#[verifier::opaque]
pub open spec fn relabeled(
    logits: Expr,
    candidates: Expr,
    draw: Choice,
    masked: Expr,
    dims: Seq<i64>,
    axis: usize,
) -> Choice {
    let chosen = draw.indices.reshape(dims.update(axis as int, 1));
    let named = candidates.take_along_axis(chosen, axis).reshape(draw.indices->Is_0.dims);
    let finite = logits.is_finite_mask().given(named);
    let rows = finite.row_validity(logits, masked.given(finite), axis).given(masked.given(finite));
    let valid = rows.mul(draw.valid);
    Choice { indices: guarded(valid, named).given(valid), valid }
}

/// The failure of a choice.
pub open spec fn failed_choice(failed: Expr) -> Choice {
    Choice { indices: failed, valid: failed }
}

/// A draw among the largest `k` logits.
pub open spec fn topk_categorical_of(
    logits: Value,
    bits: Value,
    k: usize,
    axis: usize,
) -> Choice {
    match topk_sample_shape(logits, k, axis) {
        Err(e) => failed_choice(Expr::Fails(e)),
        Ok(dims) => if logits.graph != bits.graph || bits.dims != dims {
            failed_choice(
                Expr::invalid("top-k sampling bits must match candidate shape and graph"),
            )
        } else {
            let x = Expr::Is(logits);
            match (x.topk_values(k, axis), x.topk_indices(k, axis)) {
                (Expr::Fails(e), _) => failed_choice(Expr::Fails(e)),
                (_, Expr::Fails(e)) => failed_choice(Expr::Fails(e)),
                (Expr::Is(values), Expr::Is(candidates)) => {
                    let draw = categorical_of(values, bits, axis);
                    if draw.indices is Fails {
                        failed_choice(draw.indices)
                    } else {
                        relabeled(
                            x,
                            Expr::Is(candidates),
                            draw,
                            x.filled(Scalar::Bits(F32_NEG_INFINITY)),
                            dims,
                            axis,
                        )
                    }
                },
            }
        },
    }
}

/// Padding of one element in front of one axis.
pub open spec fn leading_pad(rank: nat, axis: usize) -> Seq<Widths> {
    Seq::new(rank, |i: int| if i == axis { (1i64, 0i64) } else { (0i64, 0i64) })
}

/// Sorted logits, masked behind the smallest prefix whose probability reaches
/// `p`.
#[verifier::opaque]
pub open spec fn nucleus(logits: Expr, sorted: Expr, masked: Expr, p: u32, axis: usize) -> Expr {
    let dims = logits->Is_0.dims;
    let preceding = sorted.prior_mass(dims, axis);
    let limit = logits.filled(Scalar::Bits(p)).given(preceding);
    let keep = preceding.lt_mask(limit);
    let positions = iota(logits->Is_0.graph, dims, axis).given(keep);
    let first = positions.le_mask(logits.filled_i32(0));
    let chosen = keep.maximum(first);
    chosen.select(sorted, masked)
}

/// A draw from the smallest set of likeliest categories whose probability
/// reaches `p`.
pub open spec fn top_p_categorical_of(
    logits: Value,
    bits: Value,
    p: u32,
    axis: usize,
) -> Choice {
    if !f32_positive_finite(p) || f32_order(p) > f32_order(F32_ONE) {
        failed_choice(Expr::invalid("top-p probability must be finite and in (0, 1]"))
    } else if logits.graph != bits.graph || logits.dims != bits.dims {
        failed_choice(Expr::invalid("top-p bits must match logits shape and graph"))
    } else if axis >= logits.dims.len() || logits.dims[axis as int] == 0 {
        failed_choice(Expr::invalid("top-p requires a valid nonempty category axis"))
    } else {
        let x = Expr::Is(logits);
        let k = logits.dims[axis as int] as usize;
        match (x.topk_values(k, axis), x.topk_indices(k, axis)) {
            (Expr::Fails(e), _) => failed_choice(Expr::Fails(e)),
            (_, Expr::Fails(e)) => failed_choice(Expr::Fails(e)),
            (Expr::Is(sorted), Expr::Is(candidates)) => {
                let masked = x.filled(Scalar::Bits(F32_NEG_INFINITY));
                let filtered = if p == F32_ONE {
                    Expr::Is(sorted).given(masked)
                } else {
                    nucleus(x, Expr::Is(sorted), masked, p, axis).given(masked)
                };
                match filtered {
                    Expr::Fails(e) => failed_choice(Expr::Fails(e)),
                    Expr::Is(kept) => {
                        let draw = categorical_of(kept, bits, axis);
                        if draw.indices is Fails {
                            failed_choice(draw.indices)
                        } else {
                            relabeled(x, Expr::Is(candidates), draw, masked, logits.dims, axis)
                        }
                    },
                }
            },
        }
    }
}

/// Uniform F32 samples in `[0, 1)` from I32 bit patterns: the high 24 bits,
/// scaled by `2^-24`. Zero is possible, one is not.
pub fn uniform_f32_from_bits(
    graph: &mut Graph,
    bits: &Tensor,
) -> (r: Result<Tensor, Error>)
    requires
        old(graph).wf(),
        old(graph).owns(*bits),
    ensures
        final(graph).extends(*old(graph)),
        final(graph).yields(r, bits.expr().uniform_from_bits()),
{
    proof {
        reveal(Expr::uniform_from_bits);
        reveal(Expr::mul_scalar);
    }
    let whole: Tensor = bits.shift_right_logical(graph, 8)?.to_f32(graph)?;
    whole.mul_scalar(graph, Scalar::Bits(F32_TWO_POW_NEG_24))
}

/// Midpoints strictly inside `(0, 1)` from the high 23 bits of I32 patterns.
fn midpoints_from_bits(
    graph: &mut Graph,
    bits: &Tensor,
) -> (r: Result<Tensor, Error>)
    requires
        old(graph).wf(),
        old(graph).owns(*bits),
    ensures
        final(graph).extends(*old(graph)),
        final(graph).yields(r, bits.expr().midpoints_from_bits()),
{
    proof {
        reveal(Expr::midpoints_from_bits);
        reveal(Expr::mul_scalar);
        reveal(Expr::add_scalar);
    }
    let whole: Tensor = bits.shift_right_logical(graph, 9)?.to_f32(graph)?;
    let shifted: Tensor = whole.add_scalar(graph, Scalar::Bits(F32_HALF))?;
    shifted.mul_scalar(graph, Scalar::Bits(F32_TWO_POW_NEG_23))
}

/// Approximate standard-normal F32 samples by Box-Muller, one per pair of
/// same-shape words. The sine companion is discarded.
pub fn normal_f32_from_bits(
    graph: &mut Graph,
    bits: (&Tensor, &Tensor),
) -> (r: Result<Tensor, Error>)
    requires
        old(graph).wf(),
        old(graph).owns(*bits.0),
        old(graph).admits(*bits.1),
    ensures
        final(graph).extends(*old(graph)),
        final(graph).yields(r, bits.0.expr().normal_from_bits(bits.1.expr())),
{
    if !bits.0.same_graph(bits.1) || !same_dims(bits.0.shape(), bits.1.shape()) {
        return Err(err("normal bits must have the same shape and graph"));
    }
    proof {
        reveal(Expr::mul_scalar);
    }
    let radius: Tensor = midpoints_from_bits(graph, bits.0)?.log(graph)?;
    let radius: Tensor = radius.mul_scalar(graph, Scalar::Bits(F32_NEG_TWO))?.sqrt(graph)?;
    let turn: Tensor = uniform_f32_from_bits(graph, bits.1)?;
    let turn: Tensor = turn.mul_scalar(graph, Scalar::Bits(F32_TAU))?.cos(graph)?;
    radius.mul(graph, &turn)
}

/// The failure of a state carries through a round.
pub(crate) proof fn lemma_round_failed(state: Duo, keys: (Expr, Expr, Expr), round: nat, error: Error)
    requires
        state.outcome() == Expr::Fails(error),
    ensures
        state.round(keys, round).outcome() == Expr::Fails(error),
        state.mixed(rotation(round)).outcome() == Expr::Fails(error),
{
    reveal(Duo::mixed);
    reveal(Duo::injected);
}

/// The failure of a state carries through all later rounds.
pub(crate) proof fn lemma_rounds_failed(
    state: Duo,
    keys: (Expr, Expr, Expr),
    early: nat,
    count: nat,
    error: Error,
)
    requires
        early <= count,
        state.rounds(keys, early).outcome() == Expr::Fails(error),
    ensures
        state.rounds(keys, count).outcome() == Expr::Fails(error),
    decreases count - early,
{
    if early < count {
        lemma_round_failed(state.rounds(keys, early), keys, early, error);
        lemma_rounds_failed(state, keys, early + 1, count, error);
    }
}

/// The outcome of a pair: both values, held by the graph, or the first failure.
pub open spec fn yields_duo(graph: Graph, r: Result<(Tensor, Tensor), Error>, duo: Duo) -> bool {
    match r {
        Ok((a, b)) => {
            &&& graph.owns(a)
            &&& graph.owns(b)
            &&& duo.first == Expr::Is(a@)
            &&& duo.second == Expr::Is(b@)
        },
        Err(e) => duo.outcome() == Expr::Fails(e),
    }
}

/// The rotation of a Threefry round.
fn rotation_of(round: usize) -> (r: u32)
    ensures
        r == rotation(round as nat),
        0 < r < 32,
{
    let step: usize = round % 8;
    if step == 0 {
        13
    } else if step == 1 {
        15
    } else if step == 2 {
        26
    } else if step == 3 {
        6
    } else if step == 4 {
        17
    } else if step == 5 {
        29
    } else if step == 6 {
        16
    } else {
        24
    }
}

/// One mixing step.
fn mixed(
    graph: &mut Graph,
    a: &Tensor,
    b: &Tensor,
    bits: u32,
) -> (r: Result<(Tensor, Tensor), Error>)
    requires
        old(graph).wf(),
        old(graph).owns(*a),
        old(graph).owns(*b),
        0 < bits < 32,
    ensures
        final(graph).extends(*old(graph)),
        yields_duo(*final(graph), r, (Duo { first: a.expr(), second: b.expr() }).mixed(bits)),
{
    proof {
        reveal(Duo::mixed);
    }
    let sum: Tensor = a.wrapping_add(graph, b)?;
    let left: Tensor = b.shift_left(graph, bits)?;
    let right: Tensor = b.shift_right_logical(graph, 32 - bits)?;
    let turned: Tensor = left.bitwise_or(graph, &right)?.bitwise_xor(graph, &sum)?;
    Ok((sum, turned))
}

/// A key injection.
fn injected(
    graph: &mut Graph,
    a: &Tensor,
    b: &Tensor,
    first: &Tensor,
    second: &Tensor,
    injection: i32,
    Ghost(keys): Ghost<(Expr, Expr, Expr)>,
) -> (r: Result<(Tensor, Tensor), Error>)
    requires
        old(graph).wf(),
        old(graph).owns(*a),
        old(graph).owns(*b),
        old(graph).owns(*first),
        old(graph).owns(*second),
        injection >= 0,
        schedule(keys, injection as nat) == first.expr(),
        schedule(keys, (injection + 1) as nat) == second.expr(),
    ensures
        final(graph).extends(*old(graph)),
        yields_duo(*final(graph), r, (Duo { first: a.expr(), second: b.expr() }).injected(keys, injection as nat)),
{
    proof {
        reveal(Duo::injected);
        reveal(Expr::wrapping_add_scalar);
    }
    let sum: Tensor = a.wrapping_add(graph, first)?;
    let other: Tensor = b.wrapping_add(graph, second)?.wrapping_add_scalar(graph, injection)?;
    Ok((sum, other))
}

/// A word of the Threefry key schedule.
fn scheduled<'a>(
    index: usize,
    first: &'a Tensor,
    second: &'a Tensor,
    third: &'a Tensor,
) -> (r: &'a Tensor)
    ensures
        schedule((first.expr(), second.expr(), third.expr()), index as nat) == r.expr(),
        r == first || r == second || r == third,
{
    if index % 3 == 0 {
        first
    } else if index % 3 == 1 {
        second
    } else {
        third
    }
}

/// The rounds of Threefry2x32.
fn twenty_rounds(
    graph: &mut Graph,
    start: (&Tensor, &Tensor),
    first: &Tensor,
    second: &Tensor,
    third: &Tensor,
) -> (r: Result<(Tensor, Tensor), Error>)
    requires
        old(graph).wf(),
        old(graph).owns(*start.0),
        old(graph).owns(*start.1),
        old(graph).owns(*first),
        old(graph).owns(*second),
        old(graph).owns(*third),
    ensures
        final(graph).extends(*old(graph)),
        yields_duo(
            *final(graph),
            r,
            (Duo { first: start.0.expr(), second: start.1.expr() }).rounds(
                (first.expr(), second.expr(), third.expr()),
                20,
            ),
        ),
{
    let ghost keys = (first.expr(), second.expr(), third.expr());
    let ghost origin = Duo { first: start.0.expr(), second: start.1.expr() };
    let mut state: (Tensor, Tensor) = (start.0.copy(), start.1.copy());
    let mut round: usize = 0;
    while round < 20
        invariant
            graph.extends(*old(graph)),
            old(graph).owns(*first),
            old(graph).owns(*second),
            old(graph).owns(*third),
            keys == (first.expr(), second.expr(), third.expr()),
            origin == (Duo { first: start.0.expr(), second: start.1.expr() }),
            round <= 20,
            graph.owns(state.0),
            graph.owns(state.1),
            origin.rounds(keys, round as nat) == (Duo {
                first: state.0.expr(),
                second: state.1.expr(),
            }),
        decreases 20 - round,
    {
        let ghost before = origin.rounds(keys, round as nat);
        let bits: u32 = rotation_of(round);
        let turned: (Tensor, Tensor) = match mixed(graph, &state.0, &state.1, bits) {
            Ok(turned) => turned,
            Err(e) => {
                proof {
                    reveal(Duo::mixed);
                    reveal(Duo::injected);
                    assert(before.round(keys, round as nat).outcome() == Expr::Fails(e));
                    lemma_rounds_failed(origin, keys, (round + 1) as nat, 20, e);
                }
                return Err(e);
            },
        };
        if (round + 1) % 4 == 0 {
            let injection: usize = (round + 1) / 4;
            let one: &Tensor = scheduled(injection, first, second, third);
            let two: &Tensor = scheduled(injection + 1, first, second, third);
            match injected(graph, &turned.0, &turned.1, one, two, injection as i32, Ghost(keys)) {
                Ok(next) => {
                    state = next;
                },
                Err(e) => {
                    proof {
                        assert(before.round(keys, round as nat).outcome() == Expr::Fails(e));
                        lemma_rounds_failed(origin, keys, (round + 1) as nat, 20, e);
                    }
                    return Err(e);
                },
            }
        } else {
            state = turned;
        }
        round += 1;
    }
    Ok(state)
}

/// Threefry2x32 with twenty rounds: two I32 tensors of random bit patterns.
/// Key and counter have two words each, all of one graph and shape; each
/// element is an independent block. Equal keys and counters give equal
/// blocks.
pub fn threefry2x32(
    graph: &mut Graph,
    key: (&Tensor, &Tensor),
    counter: (&Tensor, &Tensor),
) -> (r: Result<(Tensor, Tensor), Error>)
    requires
        old(graph).wf(),
        old(graph).owns(*key.0),
        old(graph).admits(*key.1),
        old(graph).admits(*counter.0),
        old(graph).admits(*counter.1),
    ensures
        final(graph).extends(*old(graph)),
        yields_duo(*final(graph), r, threefry2x32_of((key.0@, key.1@), (counter.0@, counter.1@))),
{
    proof {
        reveal(threefry2x32_of);
    }
    let first: &Tensor = key.0;
    if !first.same_graph(key.1) || !same_dims(first.shape(), key.1.shape()) || !first.same_graph(
        counter.0,
    ) || !same_dims(first.shape(), counter.0.shape()) || !first.same_graph(counter.1)
        || !same_dims(first.shape(), counter.1.shape()) {
        return Err(err("Threefry key/counter words must match graph and shape"));
    }
    let parity: Tensor = match graph.scalar_i32(THREEFRY_PARITY) {
        Ok(parity) => parity,
        Err(e) => {
            proof {
                lemma_start_failed(key.0@, key.1@, counter.0@, counter.1@, e);
            }
            return Err(e);
        },
    };
    let third: Tensor = match schedule_word(graph, key.0, key.1, &parity) {
        Ok(third) => third,
        Err(e) => {
            proof {
                lemma_start_failed(key.0@, key.1@, counter.0@, counter.1@, e);
            }
            return Err(e);
        },
    };
    let a: Tensor = match counter.0.wrapping_add(graph, key.0) {
        Ok(a) => a,
        Err(e) => {
            proof {
                lemma_start_failed(key.0@, key.1@, counter.0@, counter.1@, e);
            }
            return Err(e);
        },
    };
    let b: Tensor = match counter.1.wrapping_add(graph, key.1) {
        Ok(b) => b,
        Err(e) => {
            proof {
                lemma_start_failed(key.0@, key.1@, counter.0@, counter.1@, e);
            }
            return Err(e);
        },
    };
    twenty_rounds(graph, (&a, &b), key.0, key.1, &third)
}

/// The third word of the key schedule.
fn schedule_word(
    graph: &mut Graph,
    first: &Tensor,
    second: &Tensor,
    parity: &Tensor,
) -> (r: Result<Tensor, Error>)
    requires
        old(graph).wf(),
        old(graph).owns(*first),
        old(graph).owns(*second),
        old(graph).owns(*parity),
    ensures
        final(graph).extends(*old(graph)),
        final(graph).yields(r, first.expr().bitwise_xor(second.expr()).given(parity.expr().broadcast_to(first@.dims)).bitwise_xor(parity.expr().broadcast_to(first@.dims))),
{
    let parity: Tensor = parity.broadcast_to(graph, first.shape())?;
    first.bitwise_xor(graph, second)?.bitwise_xor(graph, &parity)
}

/// What fails before the rounds fails the block.
proof fn lemma_start_failed(k0: Value, k1: Value, c0: Value, c1: Value, error: Error)
    requires
        alike(k0, k1),
        alike(k0, c0),
        alike(k0, c1),
        ({
            let parity = scalar_i32(k0.graph, THREEFRY_PARITY).broadcast_to(k0.dims);
            let third = Expr::Is(k0).bitwise_xor(Expr::Is(k1)).given(parity).bitwise_xor(parity);
            let a = Expr::Is(c0).wrapping_add(Expr::Is(k0)).given(third);
            let b = Expr::Is(c1).wrapping_add(Expr::Is(k1)).given(a);
            b.given(a) == Expr::Fails(error)
        }),
    ensures
        threefry2x32_of((k0, k1), (c0, c1)).outcome() == Expr::Fails(error),
{
    reveal(threefry2x32_of);
    let parity = scalar_i32(k0.graph, THREEFRY_PARITY).broadcast_to(k0.dims);
    let third = Expr::Is(k0).bitwise_xor(Expr::Is(k1)).given(parity).bitwise_xor(parity);
    let a = Expr::Is(c0).wrapping_add(Expr::Is(k0)).given(third);
    let b = Expr::Is(c1).wrapping_add(Expr::Is(k1)).given(a);
    let keys = (Expr::Is(k0), Expr::Is(k1), third);
    let start = Duo { first: a, second: b };
    assert(start.rounds(keys, 0) == start);
    lemma_rounds_failed(start, keys, 0, 20, error);
}

/// One where the first word is less than the second as an unsigned number.
fn lesser_unsigned(
    graph: &mut Graph,
    a: &Tensor,
    b: &Tensor,
) -> (r: Result<Tensor, Error>)
    requires
        old(graph).wf(),
        old(graph).owns(*a),
        old(graph).owns(*b),
    ensures
        final(graph).extends(*old(graph)),
        final(graph).yields(r, unsigned_less(a.expr(), b.expr())),
{
    proof {
        reveal(unsigned_less);
        reveal(Expr::add_scalar);
    }
    let sign: Tensor = a.filled_i32(graph, i32::MIN)?;
    let right: Tensor = b.bitwise_xor(graph, &sign)?;
    let left: Tensor = a.bitwise_xor(graph, &sign)?;
    right.le_mask(graph, &left)?.neg(graph)?.add_scalar(graph, Scalar::Bits(F32_ONE))
}

/// A 64-bit counter advanced by an increment, and whether it wrapped.
fn add_counter(
    graph: &mut Graph,
    low: &Tensor,
    high: &Tensor,
    increment: &Tensor,
) -> (r: Result<(Tensor, Tensor, Tensor), Error>)
    requires
        old(graph).wf(),
        old(graph).owns(*low),
        old(graph).owns(*high),
        old(graph).owns(*increment),
    ensures
        final(graph).extends(*old(graph)),
        match r {
            Ok((a, b, wrapped)) => {
                let spec = advanced(low.expr(), high.expr(), increment.expr());
                &&& final(graph).owns(a)
                &&& final(graph).owns(b)
                &&& final(graph).owns(wrapped)
                &&& spec.0.first == a.expr()
                &&& spec.0.second == b.expr()
                &&& spec.1 == wrapped.expr()
            },
            Err(e) => advanced(low.expr(), high.expr(), increment.expr()).1 == Expr::Fails(e),
        },
{
    proof {
        reveal(advanced);
        reveal(unsigned_less);
    }
    let next_low: Tensor = low.wrapping_add(graph, increment)?;
    let carry: Tensor = lesser_unsigned(graph, &next_low, low)?;
    let bumped: Tensor = high.wrapping_add_scalar(graph, 1)?;
    let next_high: Tensor = carry.select(graph, &bumped, high)?;
    let wrapped: Tensor = lesser_unsigned(graph, &next_high, high)?;
    Ok((next_low, next_high, wrapped))
}

/// The counter of every element.
fn lanes(
    graph: &mut Graph,
    counter: (&Tensor, &Tensor),
    shape: &[i64],
    count: usize,
) -> (r: Result<(Tensor, Tensor, Tensor), Error>)
    requires
        old(graph).wf(),
        old(graph).owns(*counter.0),
        old(graph).owns(*counter.1),
        count <= i32::MAX,
    ensures
        final(graph).extends(*old(graph)),
        match r {
            Ok((a, b, wrapped)) => {
                let spec = lanes_of(
                    old(graph).key(),
                    (counter.0@, counter.1@),
                    shape@,
                    count as nat,
                );
                &&& final(graph).owns(a)
                &&& final(graph).owns(b)
                &&& spec.0.first == a.expr()
                &&& spec.0.second == b.expr()
                &&& spec.1 is Is
            },
            Err(e) => lanes_of(
                old(graph).key(),
                (counter.0@, counter.1@),
                shape@,
                count as nat,
            ).1 == Expr::Fails(e),
        },
{
    proof {
        reveal(lanes_of);
        reveal(advanced);
        reveal(unsigned_less);
    }
    let extent: Vec<i64> = vec![count as i64];
    assert(extent@ =~= seq![count as i64]);
    let offset: Tensor = graph.iota_i32(extent.as_slice(), 0)?.reshape(graph, shape)?;
    let low: Tensor = counter.0.broadcast_to(graph, shape)?;
    let high: Tensor = counter.1.broadcast_to(graph, shape)?;
    add_counter(graph, &low, &high, &offset)
}

/// The outcome of a draw: its values, held by the graph, or the first failure.
pub open spec fn yields_draw(graph: Graph, r: Result<ThreefryBlocks, Error>, draw: Draw) -> bool {
    match r {
        Ok(blocks) => {
            &&& graph.owns(blocks.bits.0)
            &&& graph.owns(blocks.bits.1)
            &&& graph.owns(blocks.next_counter.0)
            &&& graph.owns(blocks.next_counter.1)
            &&& graph.owns(blocks.counter_wrapped)
            &&& draw.bits.first == blocks.bits.0.expr()
            &&& draw.bits.second == blocks.bits.1.expr()
            &&& draw.next.first == blocks.next_counter.0.expr()
            &&& draw.next.second == blocks.next_counter.1.expr()
            &&& draw.wrapped == blocks.counter_wrapped.expr()
        },
        Err(e) => draw.outcome() == Expr::Fails(e),
    }
}

/// Allocate consecutive Threefry2x32 blocks from scalar key and counter
/// words. Element i uses counter + i in row-major order; the counter is low
/// word, high word, and addition is modulo 2^64. A scalar shape consumes one
/// block, an empty shape none, and at most `i32::MAX` elements are supported.
pub fn threefry2x32_blocks(
    graph: &mut Graph,
    key: (&Tensor, &Tensor),
    counter: (&Tensor, &Tensor),
    shape: &[i64],
) -> (r: Result<ThreefryBlocks, Error>)
    requires
        old(graph).wf(),
        old(graph).owns(*key.0),
        old(graph).admits(*key.1),
        old(graph).admits(*counter.0),
        old(graph).admits(*counter.1),
    ensures
        final(graph).extends(*old(graph)),
        yields_draw(*final(graph), r, blocks_of((key.0@, key.1@), (counter.0@, counter.1@), shape@)),
{
    let count: usize = elements(shape)?;
    if count > i32::MAX as usize {
        return Err(err("Threefry block count exceeds I32 iota range"));
    }
    let first: &Tensor = key.0;
    if first.shape().len() != 0 || key.1.shape().len() != 0 || !first.same_graph(key.1)
        || counter.0.shape().len() != 0 || !first.same_graph(counter.0) || counter.1.shape().len()
        != 0 || !first.same_graph(counter.1) {
        return Err(err("Threefry batch key/counter must be same-graph scalars"));
    }
    proof {
        reveal(drawn);
    }
    let (low, high, _wrapped): (Tensor, Tensor, Tensor) = lanes(graph, counter, shape, count)?;
    let k0: Tensor = key.0.broadcast_to(graph, shape)?;
    let k1: Tensor = key.1.broadcast_to(graph, shape)?;
    let bits: (Tensor, Tensor) = threefry2x32(graph, (&k0, &k1), (&low, &high))?;
    proof {
        reveal(advanced);
    }
    let increment: Tensor = graph.scalar_i32(count as i32)?;
    let (next_low, next_high, wrapped): (Tensor, Tensor, Tensor) = add_counter(
        graph,
        counter.0,
        counter.1,
        &increment,
    )?;
    Ok(
        ThreefryBlocks {
            bits,
            next_counter: (next_low, next_high),
            counter_wrapped: wrapped,
        },
    )
}

/// The outcome of a choice: both values, held by the graph, or the first
/// failure.
pub open spec fn yields_choice(graph: Graph, r: Result<CategoricalSample, Error>, choice: Choice) -> bool {
    match r {
        Ok(sample) => {
            &&& graph.owns(sample.indices)
            &&& graph.owns(sample.valid)
            &&& choice.indices == sample.indices.expr()
            &&& choice.valid == sample.valid.expr()
        },
        Err(e) => choice.indices == Expr::Fails(e),
    }
}

/// One per valid row, zero elsewhere.
fn row_validity(
    graph: &mut Graph,
    finite: &Tensor,
    logits: &Tensor,
    masked: &Tensor,
    axis: usize,
) -> (r: Result<Tensor, Error>)
    requires
        old(graph).wf(),
        old(graph).owns(*finite),
        old(graph).owns(*logits),
        old(graph).owns(*masked),
    ensures
        final(graph).extends(*old(graph)),
        final(graph).yields(r, finite.expr().row_validity(logits.expr(), masked.expr(), axis)),
{
    proof {
        reveal(Expr::row_validity);
        reveal(Expr::reduce);
    }
    let axes: Vec<usize> = vec![axis];
    assert(axes@ =~= seq![axis]);
    let mask: Tensor = logits.eq_mask(graph, masked)?;
    let allowed: Tensor = finite.add(graph, &mask)?;
    let low: Tensor = allowed.min(graph, axes.as_slice(), false)?;
    let high: Tensor = finite.max(graph, axes.as_slice(), false)?;
    low.mul(graph, &high)
}

/// Finite logits less their maximum along an axis.
fn row_centered(
    graph: &mut Graph,
    logits: &Tensor,
    finite: &Tensor,
    masked: &Tensor,
    axis: usize,
) -> (r: Result<Tensor, Error>)
    requires
        old(graph).wf(),
        old(graph).owns(*logits),
        old(graph).owns(*finite),
        old(graph).owns(*masked),
    ensures
        final(graph).extends(*old(graph)),
        final(graph).yields(r, logits.expr().row_centered(finite.expr(), masked.expr(), axis)),
{
    proof {
        reveal(Expr::row_centered);
        reveal(Expr::reduce);
        reveal(Expr::filled);
    }
    let axes: Vec<usize> = vec![axis];
    assert(axes@ =~= seq![axis]);
    let safe: Tensor = finite.select(graph, logits, masked)?;
    let maximum: Tensor = safe.max(graph, axes.as_slice(), true)?;
    let mask: Tensor = maximum.is_finite_mask(graph)?;
    let zero: Tensor = maximum.filled(graph, Scalar::Bits(F32_ZERO))?;
    let level: Tensor = mask.select(graph, &maximum, &zero)?;
    let level: Tensor = level.broadcast_to(graph, logits.shape())?;
    safe.sub(graph, &level)
}

/// Gumbel noise from random words.
fn gumbel_from_bits(
    graph: &mut Graph,
    bits: &Tensor,
) -> (r: Result<Tensor, Error>)
    requires
        old(graph).wf(),
        old(graph).owns(*bits),
    ensures
        final(graph).extends(*old(graph)),
        final(graph).yields(r, bits.expr().gumbel_from_bits()),
{
    proof {
        reveal(Expr::gumbel_from_bits);
    }
    let uniform: Tensor = midpoints_from_bits(graph, bits)?;
    uniform.log(graph)?.neg(graph)?.log(graph)?.neg(graph)
}

/// The placeholder zero where a row is not valid.
fn guarded_indices(
    graph: &mut Graph,
    valid: &Tensor,
    indices: &Tensor,
) -> (r: Result<Tensor, Error>)
    requires
        old(graph).wf(),
        old(graph).owns(*valid),
        old(graph).owns(*indices),
    ensures
        final(graph).extends(*old(graph)),
        final(graph).yields(r, guarded(valid.expr(), indices.expr())),
{
    proof {
        reveal(guarded);
    }
    let zero: Tensor = indices.filled_i32(graph, 0)?;
    valid.select(graph, indices, &zero)
}

/// Draw categories by Gumbel-max from explicit random words of the logits'
/// shape. Finite logits and negative-infinity masks are accepted; a row with
/// NaN, positive infinity or no finite category is not valid.
#[verifier::rlimit(30)]
pub fn categorical_from_bits(
    graph: &mut Graph,
    logits: &Tensor,
    bits: &Tensor,
    axis: usize,
) -> (r: Result<CategoricalSample, Error>)
    requires
        old(graph).wf(),
        old(graph).owns(*logits),
        old(graph).admits(*bits),
    ensures
        final(graph).extends(*old(graph)),
        yields_choice(*final(graph), r, categorical_of(logits@, bits@, axis)),
{
    if !logits.same_graph(bits) || !same_dims(logits.shape(), bits.shape()) {
        return Err(err("categorical logits/bits must have the same graph and shape"));
    }
    if axis >= logits.shape().len() || logits.shape()[axis] == 0 || logits.shape()[axis]
        > i32::MAX as i64 {
        return Err(err("categorical axis must be valid and nonempty"));
    }
    proof {
        reveal(gumbel_max);
    }
    let masked: Tensor = logits.filled(graph, Scalar::Bits(F32_NEG_INFINITY))?;
    let finite: Tensor = logits.is_finite_mask(graph)?;
    let valid: Tensor = row_validity(graph, &finite, logits, &masked, axis)?;
    let centered: Tensor = row_centered(graph, logits, &finite, &masked, axis)?;
    let noise: Tensor = gumbel_from_bits(graph, bits)?;
    let perturbed: Tensor = centered.add(graph, &noise)?;
    let scores: Tensor = finite.select(graph, &perturbed, &masked)?;
    let found: Tensor = scores.argmax(graph, axis, false)?;
    let indices: Tensor = guarded_indices(graph, &valid, &found)?;
    Ok(CategoricalSample { indices, valid })
}

/// A draw among sorted candidates, named by the original categories.
#[verifier::rlimit(30)]
fn relabel(
    graph: &mut Graph,
    logits: &Tensor,
    candidates: &Tensor,
    draw: &CategoricalSample,
    masked: Option<&Tensor>,
    dims: &[i64],
    axis: usize,
) -> (r: Result<CategoricalSample, Error>)
    requires
        old(graph).wf(),
        old(graph).owns(*logits),
        old(graph).owns(*candidates),
        old(graph).owns(draw.indices),
        old(graph).owns(draw.valid),
        axis < dims@.len(),
        masked is Some ==> old(graph).owns(*masked->0) && logits.expr().filled(Scalar::Bits(F32_NEG_INFINITY)) == masked->0.expr(),
    ensures
        final(graph).extends(*old(graph)),
        yields_choice(
            *final(graph),
            r,
            relabeled(
                logits.expr(),
                candidates.expr(),
                Choice { indices: draw.indices.expr(), valid: draw.valid.expr() },
                logits.expr().filled(Scalar::Bits(F32_NEG_INFINITY)),
                dims@,
                axis,
            ),
        ),
{
    proof {
        reveal(relabeled);
    }
    let mut selected: Vec<i64> = vstd::slice::slice_to_vec(dims);
    selected.set(axis, 1);
    let chosen: Tensor = draw.indices.reshape(graph, selected.as_slice())?;
    let named: Tensor = candidates.take_along_axis(graph, &chosen, axis)?;
    let named: Tensor = named.reshape(graph, draw.indices.shape())?;
    let finite: Tensor = logits.is_finite_mask(graph)?;
    let valid: Tensor = match masked {
        Some(masked) => row_validity(graph, &finite, logits, masked, axis)?,
        None => {
            let masked: Tensor = logits.filled(graph, Scalar::Bits(F32_NEG_INFINITY))?;
            row_validity(graph, &finite, logits, &masked, axis)?
        },
    };
    let valid: Tensor = valid.mul(graph, &draw.valid)?;
    let indices: Tensor = guarded_indices(graph, &valid, &named)?;
    Ok(CategoricalSample { indices, valid })
}

/// The extents of the candidates of a truncated draw.
pub(crate) fn candidate_shape(logits: &Tensor, k: usize, axis: usize) -> (r: Result<
    Vec<i64>,
    Error,
>)
    requires
        logits.wf(),
    ensures
        match r {
            Ok(dims) => topk_sample_shape(logits@, k, axis) == Ok::<Seq<i64>, Error>(dims@),
            Err(e) => topk_sample_shape(logits@, k, axis) == Err::<Seq<i64>, Error>(e),
        },
{
    let dims: &[i64] = logits.shape();
    proof {
        lemma_volume_nonnegative(dims@);
    }
    if axis >= dims.len() || dims[axis] > i32::MAX as i64 || k == 0 || k as u64 > dims[axis] as u64 {
        return Err(
            err("top-k sampling requires a valid I32-sized axis and 1 <= k <= axis size"),
        );
    }
    let mut shape: Vec<i64> = vstd::slice::slice_to_vec(dims);
    shape.set(axis, k as i64);
    Ok(shape)
}

/// Sample among the largest k logits, by original category. Random words have
/// the logits' shape with the axis replaced by k, and are assigned in
/// descending order. All original logits are validated.
pub fn topk_categorical_from_bits(
    graph: &mut Graph,
    logits: &Tensor,
    bits: &Tensor,
    k: usize,
    axis: usize,
) -> (r: Result<CategoricalSample, Error>)
    requires
        old(graph).wf(),
        old(graph).owns(*logits),
        old(graph).admits(*bits),
    ensures
        final(graph).extends(*old(graph)),
        yields_choice(*final(graph), r, topk_categorical_of(logits@, bits@, k, axis)),
{
    let shape: Vec<i64> = candidate_shape(logits, k, axis)?;
    if !logits.same_graph(bits) || !same_dims(bits.shape(), shape.as_slice()) {
        return Err(err("top-k sampling bits must match candidate shape and graph"));
    }
    let (values, candidates): (Tensor, Tensor) = logits.topk(graph, k, axis)?;
    let draw: CategoricalSample = categorical_from_bits(graph, &values, bits, axis)?;
    relabel(graph, logits, &candidates, &draw, None, shape.as_slice(), axis)
}

/// Sorted logits, masked behind the smallest prefix that reaches `p`.
#[verifier::rlimit(30)]
fn filtered(
    graph: &mut Graph,
    logits: &Tensor,
    sorted: &Tensor,
    masked: &Tensor,
    p: u32,
    axis: usize,
) -> (r: Result<Tensor, Error>)
    requires
        old(graph).wf(),
        old(graph).owns(*logits),
        old(graph).owns(*sorted),
        old(graph).owns(*masked),
        axis < logits@.dims.len(),
        logits@.dims[axis as int] > 0,
    ensures
        final(graph).extends(*old(graph)),
        final(graph).yields(r, nucleus(logits.expr(), sorted.expr(), masked.expr(), p, axis)),
{
    proof {
        reveal(nucleus);
    }
    let dims: &[i64] = logits.shape();
    let preceding: Tensor = prior_mass(graph, sorted, dims, axis)?;
    let limit: Tensor = logits.filled(graph, Scalar::Bits(p))?;
    let keep: Tensor = preceding.lt_mask(graph, &limit)?;
    let positions: Tensor = graph.iota_i32(dims, axis)?;
    let zero: Tensor = logits.filled_i32(graph, 0)?;
    let first: Tensor = positions.le_mask(graph, &zero)?;
    let chosen: Tensor = keep.maximum(graph, &first)?;
    chosen.select(graph, sorted, masked)
}

/// The probability of all categories before each one.
fn prior_mass(
    graph: &mut Graph,
    sorted: &Tensor,
    dims: &[i64],
    axis: usize,
) -> (r: Result<Tensor, Error>)
    requires
        old(graph).wf(),
        old(graph).owns(*sorted),
        axis < dims@.len(),
        dims@[axis as int] > 0,
    ensures
        final(graph).extends(*old(graph)),
        final(graph).yields(r, sorted.expr().prior_mass(dims@, axis)),
{
    proof {
        reveal(Expr::prior_mass);
        broadcast use group_extents;
    }
    let cumulative: Tensor = sorted.softmax(graph, axis)?.cumsum(graph, axis)?;
    let padding: Vec<Widths> = leading_padding(dims.len(), axis);
    let shorter: Tensor = cumulative.narrow(graph, axis, 0, dims[axis] - 1)?;
    shorter.pad(graph, padding.as_slice(), Scalar::Bits(F32_ZERO))
}

/// Padding of one element in front of one axis.
fn leading_padding(rank: usize, axis: usize) -> (r: Vec<Widths>)
    ensures
        r@ == leading_pad(rank as nat, axis),
{
    let mut padding: Vec<Widths> = Vec::new();
    let mut i: usize = 0;
    while i < rank
        invariant
            i <= rank,
            padding@ =~= leading_pad(i as nat, axis),
        decreases rank - i,
    {
        if i == axis {
            padding.push((1, 0));
        } else {
            padding.push((0, 0));
        }
        i += 1;
    }
    padding
}

/// Nucleus sampling, by original category: the smallest prefix of the sorted
/// categories whose probability reaches `p`, a value in (0, 1] given by its
/// F32 bits. Random words have the logits' shape and are assigned in sorted
/// order. All original logits are validated.
#[verifier::rlimit(30)]
pub fn top_p_categorical_from_bits(
    graph: &mut Graph,
    logits: &Tensor,
    bits: &Tensor,
    p: u32,
    axis: usize,
) -> (r: Result<CategoricalSample, Error>)
    requires
        old(graph).wf(),
        old(graph).owns(*logits),
        old(graph).admits(*bits),
    ensures
        final(graph).extends(*old(graph)),
        yields_choice(*final(graph), r, top_p_categorical_of(logits@, bits@, p, axis)),
{
    if !is_positive_finite(p) || order(p) > order(F32_ONE) {
        return Err(err("top-p probability must be finite and in (0, 1]"));
    }
    if !logits.same_graph(bits) || !same_dims(logits.shape(), bits.shape()) {
        return Err(err("top-p bits must match logits shape and graph"));
    }
    if axis >= logits.shape().len() || logits.shape()[axis] == 0 {
        return Err(err("top-p requires a valid nonempty category axis"));
    }
    proof {
        lemma_volume_nonnegative(logits@.dims);
    }
    let (sorted, candidates): (Tensor, Tensor) = logits.topk(
        graph,
        logits.shape()[axis] as usize,
        axis,
    )?;
    let masked: Tensor = logits.filled(graph, Scalar::Bits(F32_NEG_INFINITY))?;
    let kept: Tensor = if p == F32_ONE {
        sorted
    } else {
        filtered(graph, logits, &sorted, &masked, p, axis)?
    };
    let draw: CategoricalSample = categorical_from_bits(graph, &kept, bits, axis)?;
    relabel(graph, logits, &candidates, &draw, Some(&masked), logits.shape(), axis)
}

} // verus!
