//! What numbers random words become, and which category a draw takes.
use crate::adjoints::zeroed;
use crate::diagonals::{zero_element, zero_padding_surrounds_the_interior};
use crate::dtype::DType;
use crate::elements::{copied, narrowing_shifts_one_axis, origin, ravel, unpadded_index, within};
use crate::facts::group_extents;
use crate::flows::running_sums_add_up;
use crate::graph::{applied, constant_i32, iota, scalar, scalar_i32, typed, Expr, Value};
use crate::likelihoods::{
    exponentials, lemma_scaled_total, softmax_shares_one_among_the_exponentials,
};
use crate::masks::lemma_pulled;
use crate::normalizations::lemma_quotient;
use crate::numbers::{
    encoded, exponent_of, greatest, group_numbers, group_operands, indicator, power_of_two, signed,
    scalar_number, significand_of, spread_number, total, Numbers,
};
use crate::op::{
    IntegerBinary, OpModel, Reduction, Scalar, F32_HALF, F32_NEG_INFINITY, F32_ONE, F32_ZERO,
};
use crate::products::pulled;
use crate::random::{
    categorical_of, gumbel_max, guarded, leading_pad, nucleus, relabeled, top_p_categorical_of,
    topk_categorical_of, F32_NEG_TWO, F32_TAU, F32_TWO_POW_NEG_23, F32_TWO_POW_NEG_24,
};
use crate::reductions::{axes_reduce_their_lines, removed_axes_reduce_their_lines};
use crate::shape::is_permutation;
use crate::words::bits_of;
use vstd::prelude::*;

verus! {

/// The number that the high twenty-four bits of a word are of two to the power
/// of twenty-four.
pub open spec fn fraction(word: u32) -> real {
    ((word as int / 0x100) as real) / (0x100_0000 as real)
}

/// The middle of the interval that the high twenty-three bits of a word name, of
/// the equal ones that make up the unit interval.
pub open spec fn midpoint(word: u32) -> real {
    ((2 * (word as int / 0x200) + 1) as real) / (0x100_0000 as real)
}

/// Gumbel noise: the negated logarithm of the negated logarithm of a midpoint.
pub open spec fn gumbel(n: Numbers, word: u32) -> real {
    -(n.log)(-(n.log)(midpoint(word)))
}

/// A word constant holds its bits everywhere.
proof fn lemma_filled_word(n: Numbers, x: Expr, value: i32, index: Seq<int>)
    requires
        n.computes(),
        x.filled_i32(value) is Is,
        within(x->Is_0.dims, index),
        x->Is_0.dims.len() <= usize::MAX,
    ensures
        n.word_at(x.filled_i32(value), index) == bits_of(value),
{
    let one = scalar_i32(x->Is_0.graph, value);
    assert(one is Is && one->Is_0.dims == Seq::<i64>::empty() && one->Is_0.op
        == OpModel::ConstantI32(seq![value]) && one->Is_0.args.len() == 0) by {
        reveal(constant_i32);
        reveal(typed);
        reveal(applied);
    }
    lemma_pulled(one, x->Is_0.dims, index);
    let nowhere = Seq::<int>::empty();
    assert(pulled(one->Is_0.dims, index) =~= nowhere);
    assert(within(one->Is_0.dims, nowhere));
    assert(ravel(one->Is_0.dims, nowhere) == 0);
    reveal(Numbers::obeys);
    assert(n.obeys(one->Is_0, nowhere));
}

/// A logical shift moves the bits of a word.
proof fn lemma_shifted_word(n: Numbers, x: Expr, bits: u32, index: Seq<int>)
    requires
        n.computes(),
        x.shift_right_logical(bits) is Is,
        within(x->Is_0.dims, index),
        x->Is_0.dims.len() <= usize::MAX,
    ensures
        bits < 32,
        n.word_at(x.shift_right_logical(bits), index) == n.word_at(x, index) >> bits,
        x.shift_right_logical(bits)->Is_0.dims == x->Is_0.dims,
        x.shift_right_logical(bits)->Is_0.dtype == DType::I32,
{
    let count = x.filled_i32(bits as i32);
    lemma_filled_word(n, x, bits as i32, index);
    assert(bits_of(bits as i32) == bits);
    reveal(typed);
    reveal(Numbers::obeys);
    let z = x.shift_right_logical(bits)->Is_0;
    assert(z.op == OpModel::IntegerBinary(IntegerBinary::ShiftRightLogical));
    assert(n.obeys(z, index));
}

proof fn lemma_small_powers()
    ensures
        power_of_two(21) == 2097152 as real,
        power_of_two(22) == 4194304 as real,
        power_of_two(46) == 70368744177664 as real,
        power_of_two(47) == 140737488355328 as real,
{
    reveal_with_fuel(power_of_two, 48);
}

/// The factors that bits are scaled by.
proof fn lemma_factors(n: Numbers)
    requires
        n.literals(),
    ensures
        (n.literal)(F32_TWO_POW_NEG_23) * (8388608 as real) == 1 as real,
        (n.literal)(F32_TWO_POW_NEG_24) * (16777216 as real) == 1 as real,
        (n.literal)(F32_NEG_TWO) == -(2 as real),
        6283185 as real <= 1000000 as real * (n.literal)(F32_TAU) <= 6283186 as real,
{
    lemma_small_powers();
    assert(exponent_of(F32_TWO_POW_NEG_23) == 104 && significand_of(F32_TWO_POW_NEG_23)
        == 8388608);
    assert(exponent_of(F32_TWO_POW_NEG_24) == 103 && significand_of(F32_TWO_POW_NEG_24)
        == 8388608);
    assert(exponent_of(F32_NEG_TWO) == 128 && significand_of(F32_NEG_TWO) == -8388608);
    assert(exponent_of(F32_TAU) == 129 && significand_of(F32_TAU) == 13176795);
    assert(encoded(F32_TWO_POW_NEG_23, (n.literal)(F32_TWO_POW_NEG_23)));
    assert(encoded(F32_TWO_POW_NEG_24, (n.literal)(F32_TWO_POW_NEG_24)));
    assert(encoded(F32_NEG_TWO, (n.literal)(F32_NEG_TWO)));
    assert(encoded(F32_TAU, (n.literal)(F32_TAU)));
}

proof fn lemma_fraction(a: real, factor: real)
    by (nonlinear_arith)
    requires
        factor * (16777216 as real) == 1 as real,
    ensures
        a * factor == a / (16777216 as real),
{
    assert(a * factor * (16777216 as real) == a);
}

proof fn lemma_midpoint(a: real, factor: real, half: real)
    by (nonlinear_arith)
    requires
        factor * (8388608 as real) == 1 as real,
        2 as real * half == 1 as real,
    ensures
        (a + half) * factor == (2 as real * a + 1 as real) / (16777216 as real),
{
    assert((a + half) * factor * (16777216 as real) == 2 as real * (a + half));
}

/// A shifted word is the quotient of the word.
proof fn lemma_quotients(word: u32)
    ensures
        signed(word >> 8u32) == word as int / 0x100,
        signed(word >> 9u32) == word as int / 0x200,
{
    assert(word >> 8u32 == word / 0x100) by (bit_vector);
    assert(word >> 9u32 == word / 0x200) by (bit_vector);
}

/// Uniform numbers are the fractions that the high bits of their words name.
#[verifier::rlimit(40)]
pub proof fn uniforms_are_fractions(n: Numbers, x: Expr, index: Seq<int>)
    requires
        n.lawful(),
        x.uniform_from_bits() is Is,
        within(x->Is_0.dims, index),
        x->Is_0.dims.len() <= usize::MAX,
    ensures
        x.uniform_from_bits()->Is_0.dims == x->Is_0.dims,
        n.at(x.uniform_from_bits(), index) == fraction(n.word_at(x, index)),
        0 as real <= fraction(n.word_at(x, index)) < 1 as real,
{
    broadcast use {group_extents, group_operands, group_numbers};

    reveal(Expr::uniform_from_bits);
    reveal(applied);
    lemma_shifted_word(n, x, 8, index);
    lemma_quotients(n.word_at(x, index));
    lemma_factors(n);
    let whole = x.shift_right_logical(8).to_f32();
    let a = (n.word_at(x, index) as int / 0x100) as real;
    assert(n.at(whole, index) == a);
    lemma_fraction(a, (n.literal)(F32_TWO_POW_NEG_24));
}

/// Midpoints are those of the intervals that the high bits of their words name,
/// and lie strictly inside the unit interval.
#[verifier::rlimit(40)]
pub proof fn midpoints_halve_their_intervals(n: Numbers, x: Expr, index: Seq<int>)
    requires
        n.lawful(),
        x.midpoints_from_bits() is Is,
        within(x->Is_0.dims, index),
        x->Is_0.dims.len() <= usize::MAX,
    ensures
        x.midpoints_from_bits()->Is_0.dims == x->Is_0.dims,
        n.at(x.midpoints_from_bits(), index) == midpoint(n.word_at(x, index)),
        midpoint(n.word_at(x, index)) > 0 as real,
        midpoint(n.word_at(x, index)) < 1 as real,
{
    broadcast use {group_extents, group_operands, group_numbers};

    reveal(Expr::midpoints_from_bits);
    reveal(applied);
    lemma_shifted_word(n, x, 9, index);
    lemma_quotients(n.word_at(x, index));
    lemma_factors(n);
    let whole = x.shift_right_logical(9).to_f32();
    let a = (n.word_at(x, index) as int / 0x200) as real;
    assert(n.at(whole, index) == a);
    lemma_midpoint(a, (n.literal)(F32_TWO_POW_NEG_23), (n.literal)(F32_HALF));
}

/// Gumbel noise from words.
#[verifier::rlimit(40)]
pub proof fn gumbel_noise_is_twice_a_logarithm(n: Numbers, x: Expr, index: Seq<int>)
    requires
        n.lawful(),
        x.gumbel_from_bits() is Is,
        within(x->Is_0.dims, index),
        x->Is_0.dims.len() <= usize::MAX,
    ensures
        n.at(x.gumbel_from_bits(), index) == gumbel(n, n.word_at(x, index)),
{
    broadcast use {group_extents, group_operands, group_numbers};

    reveal(Expr::gumbel_from_bits);
    assert(x.midpoints_from_bits() is Is);
    midpoints_halve_their_intervals(n, x, index);
}

/// Normal numbers: the root of minus twice the logarithm of a midpoint, times the
/// cosine of a uniform part of a full turn.
#[verifier::rlimit(40)]
pub proof fn normals_turn_a_radius(n: Numbers, x: Expr, angle: Expr, index: Seq<int>)
    requires
        n.lawful(),
        x.normal_from_bits(angle) is Is,
        within(x->Is_0.dims, index),
        x->Is_0.dims.len() <= usize::MAX,
    ensures
        n.at(x.normal_from_bits(angle), index) == (n.sqrt)(
            -(2 as real * (n.log)(midpoint(n.word_at(x, index)))),
        ) * (n.cos)(fraction(n.word_at(angle, index)) * (n.literal)(F32_TAU)),
        6283185 as real <= 1000000 as real * (n.literal)(F32_TAU) <= 6283186 as real,
{
    broadcast use {group_extents, group_operands, group_numbers};

    let radius = x.midpoints_from_bits().log().mul_scalar(Scalar::Bits(F32_NEG_TWO)).sqrt();
    let turn = angle.uniform_from_bits().mul_scalar(Scalar::Bits(F32_TAU)).cos();
    assert(radius is Is && turn is Is);
    midpoints_halve_their_intervals(n, x, index);
    uniforms_are_fractions(n, angle, index);
    lemma_factors(n);
    let (u, v) = (x.midpoints_from_bits(), angle.uniform_from_bits());
    assert(n.at(u.log(), index) == (n.log)(midpoint(n.word_at(x, index))));
    assert(n.at(radius, index) == (n.sqrt)(n.at(u.log(), index) * n.constant(Scalar::Bits(F32_NEG_TWO))));
    assert(n.at(turn, index) == (n.cos)(n.at(v, index) * n.constant(Scalar::Bits(F32_TAU))));
}

/// Whether the logit of a category of a row is finite.
pub open spec fn finite_in(n: Numbers, logits: Value, axis: usize, index: Seq<int>, k: int) -> bool {
    (n.finite)(origin(logits, index.update(axis as int, k)))
}

/// The logit of a category of a row.
pub open spec fn logit_in(n: Numbers, logits: Value, axis: usize, index: Seq<int>, k: int) -> real {
    n.of(logits, index.update(axis as int, k))
}

/// The logit of a category plus the Gumbel noise of its word.
pub open spec fn perturbed_in(
    n: Numbers,
    logits: Value,
    bits: Value,
    axis: usize,
    index: Seq<int>,
    k: int,
) -> real {
    logit_in(n, logits, axis, index, k) + gumbel(
        n,
        (n.word)(origin(bits, index.update(axis as int, k))),
    )
}

/// Whether the number that stands for negative infinity lies below the logits of
/// a row, perturbed or not, and below their differences.
pub open spec fn infinity_is_low(
    n: Numbers,
    logits: Value,
    bits: Value,
    axis: usize,
    index: Seq<int>,
) -> bool {
    let size = logits.dims[axis as int];
    let low = (n.literal)(F32_NEG_INFINITY);
    &&& forall|k: int|
        0 <= k < size && #[trigger] finite_in(n, logits, axis, index, k) ==> low < logit_in(
            n,
            logits,
            axis,
            index,
            k,
        ) && low < perturbed_in(n, logits, bits, axis, index, k)
    &&& forall|k: int, j: int|
        0 <= k < size && 0 <= j < size && #[trigger] finite_in(n, logits, axis, index, k)
            && #[trigger] finite_in(n, logits, axis, index, j) ==> low < perturbed_in(
            n,
            logits,
            bits,
            axis,
            index,
            k,
        ) - logit_in(n, logits, axis, index, j)
}

/// Whether a row can be drawn from: its logits are finite or negative infinity,
/// and one is finite.
pub open spec fn drawable(n: Numbers, logits: Value, axis: usize, index: Seq<int>) -> bool {
    let size = logits.dims[axis as int];
    &&& forall|k: int|
        0 <= k < size ==> #[trigger] finite_in(n, logits, axis, index, k) || logit_in(
            n,
            logits,
            axis,
            index,
            k,
        ) == (n.literal)(F32_NEG_INFINITY)
    &&& exists|k: int| 0 <= k < size && #[trigger] finite_in(n, logits, axis, index, k)
}

/// The recorded mark of the rows that can be drawn from.
pub open spec fn validity_of(logits: Value, axis: usize) -> Expr {
    let x = Expr::Is(logits);
    x.is_finite_mask().row_validity(x, x.filled(Scalar::Bits(F32_NEG_INFINITY)), axis)
}

/// The pieces that a draw is recorded of.
ghost struct Pieces {
    masked: Expr,
    finite: Expr,
    valid: Expr,
    centered: Expr,
    noise: Expr,
    scores: Expr,
    found: Expr,
}

spec fn pieces(x: Expr, bits: Expr, axis: usize) -> Pieces {
    let masked = x.filled(Scalar::Bits(F32_NEG_INFINITY));
    let finite = x.is_finite_mask();
    let centered = x.row_centered(finite, masked, axis);
    let noise = bits.gumbel_from_bits();
    let scores = finite.select(centered.add(noise), masked);
    Pieces {
        masked,
        finite,
        valid: finite.row_validity(x, masked, axis),
        centered,
        noise,
        scores,
        found: scores.argmax(axis, false),
    }
}

proof fn lemma_within_line(dims: Seq<i64>, axis: usize, index: Seq<int>, k: int)
    requires
        within(dims, index),
        axis < dims.len(),
        0 <= k < dims[axis as int],
    ensures
        within(dims, index.update(axis as int, k)),
        zeroed(index.update(axis as int, k), seq![axis]) == zeroed(index, seq![axis]),
        index.update(axis as int, k).remove(axis as int) == index.remove(axis as int),
{
    let at = index.update(axis as int, k);
    assert forall|i: int| 0 <= i < dims.len() implies 0 <= #[trigger] at[i] < dims[i] by {
        assert(0 <= index[i] < dims[i]);
    }
    let axes = seq![axis];
    assert(axes[0] == axis);
    assert(zeroed(at, axes) =~= zeroed(index, axes));
    assert(at.remove(axis as int) =~= index.remove(axis as int));
}

/// The recorded pieces of a draw, and where they stand.
#[verifier::rlimit(40)]
proof fn lemma_pieces(logits: Value, bits: Value, axis: usize)
    requires
        categorical_of(logits, bits, axis).indices is Is,
        logits.dims.len() <= usize::MAX,
    ensures
        ({
            let x = Expr::Is(logits);
            let p = pieces(x, Expr::Is(bits), axis);
            &&& axis < logits.dims.len() && bits.dims == logits.dims
            &&& 0 < logits.dims[axis as int] <= i32::MAX
            &&& logits.dtype == DType::F32
            &&& p.masked is Is && p.finite is Is && p.valid is Is && p.centered is Is && p.noise is Is
            &&& p.scores is Is && p.found is Is
            &&& p.finite->Is_0.dims == logits.dims && p.centered->Is_0.dims == logits.dims
            &&& p.scores->Is_0.dims == logits.dims
            &&& p.finite->Is_0.dtype == DType::F32 && p.scores->Is_0.dtype == DType::F32
            &&& categorical_of(logits, bits, axis).valid == p.valid
            &&& categorical_of(logits, bits, axis).indices == guarded(p.valid, p.found)
            &&& guarded(p.valid, p.found) is Is
            &&& guarded(p.valid, p.found)->Is_0.dims == logits.dims.remove(axis as int)
        }),
{
    broadcast use {group_extents, group_operands};

    reveal(gumbel_max);
    reveal(guarded);
    let p = pieces(Expr::Is(logits), Expr::Is(bits), axis);
    assert(p.found is Is && p.scores is Is);
    assert(guarded(p.valid, p.found) is Is);
    assert(p.found->Is_0.dims == logits.dims.remove(axis as int)) by {
        reveal(typed);
    }
}

/// The level that a row is centered on is the greatest of its finite logits, or
/// zero.
#[verifier::rlimit(40)]
proof fn lemma_centered_row(n: Numbers, logits: Value, bits: Value, axis: usize, index: Seq<int>) -> (
    level: real)
    requires
        n.lawful(),
        categorical_of(logits, bits, axis).indices is Is,
        logits.dims.len() <= usize::MAX,
        within(logits.dims, index),
        infinity_is_low(n, logits, bits, axis, index),
    ensures
        ({
            let p = pieces(Expr::Is(logits), Expr::Is(bits), axis);
            let size = logits.dims[axis as int];
            &&& forall|k: int|
                0 <= k < size && finite_in(n, logits, axis, index, k) ==> #[trigger] n.at(
                    p.centered,
                    index.update(axis as int, k),
                ) == logit_in(n, logits, axis, index, k) - level
            &&& level == 0 as real || (exists|j: int|
                0 <= j < size && level == logit_in(n, logits, axis, index, j) && #[trigger] finite_in(
                    n,
                    logits,
                    axis,
                    index,
                    j,
                )) || forall|j: int|
                0 <= j < size ==> !#[trigger] finite_in(n, logits, axis, index, j)
        }),
{
    broadcast use {group_extents, group_operands, group_numbers};

    lemma_pieces(logits, bits, axis);
    reveal(Expr::row_centered);
    let x = Expr::Is(logits);
    let p = pieces(x, Expr::Is(bits), axis);
    let axes = seq![axis];
    let safe = p.finite.select(x, p.masked);
    let maximum = safe.max(axes, true);
    let mask = maximum.is_finite_mask();
    let zero = maximum.filled(Scalar::Bits(F32_ZERO));
    let level = mask.select(maximum, zero);
    let spread = level.broadcast_to(logits.dims);
    assert(p.centered == safe.sub(spread));
    assert(safe is Is && maximum is Is && mask is Is && level is Is && spread is Is);
    axes_reduce_their_lines(n, safe, Reduction::Maximum, axis, index);
    let there = zeroed(index, axes);
    assert(0 <= index[axis as int] < logits.dims[axis as int]);
    let size = logits.dims[axis as int];
    let line = n.line(safe, axis, index);
    let low = (n.literal)(F32_NEG_INFINITY);
    assert forall|k: int| 0 <= k < size implies #[trigger] line[k] == if finite_in(
        n,
        logits,
        axis,
        index,
        k,
    ) {
        logit_in(n, logits, axis, index, k)
    } else {
        low
    } by {
        let at = index.update(axis as int, k);
        lemma_within_line(logits.dims, axis, index, k);
        assert(n.at(p.finite, at) == indicator((n.finite)(origin(logits, at))));
        assert(n.at(p.masked, at) == low);
    }
    assert forall|k: int| 0 <= k < size && finite_in(n, logits, axis, index, k) implies #[trigger] n.at(
        p.centered,
        index.update(axis as int, k),
    ) == logit_in(n, logits, axis, index, k) - n.at(level, there) by {
        let at = index.update(axis as int, k);
        lemma_within_line(logits.dims, axis, index, k);
        crate::reductions::lemma_pulled_back(logits.dims, axes, at);
        spread_number(n, level, logits.dims, at);
        assert(line[k] == n.at(safe, at));
    }
    let most = n.at(maximum, there);
    if n.at(level, there) != 0 as real {
        assert(n.at(level, there) == most);
        let j = choose|j: int| 0 <= j < line.len() && #[trigger] line[j] == most;
        if exists|k: int| 0 <= k < size && #[trigger] finite_in(n, logits, axis, index, k) {
            let k = choose|k: int| 0 <= k < size && #[trigger] finite_in(n, logits, axis, index, k);
            assert(line[k] <= most);
            assert(finite_in(n, logits, axis, index, j));
        }
    }
    n.at(level, there)
}

proof fn lemma_zero_one(a: real, b: real)
    by (nonlinear_arith)
    ensures
        0 as real * b == 0 as real,
        a * (0 as real) == 0 as real,
        a == 0 as real ==> a * b == 0 as real,
        b == 0 as real ==> a * b == 0 as real,
        a == 1 as real && b == 1 as real ==> a * b == 1 as real,
{
}

/// A row is marked by one where it can be drawn from, by zero elsewhere.
#[verifier::rlimit(40)]
pub proof fn validity_marks_the_rows_to_draw_from(
    n: Numbers,
    logits: Value,
    axis: usize,
    index: Seq<int>,
)
    requires
        n.lawful(),
        validity_of(logits, axis) is Is,
        logits.dims.len() <= usize::MAX,
        within(logits.dims, index),
        forall|k: int|
            0 <= k < logits.dims[axis as int] && #[trigger] finite_in(n, logits, axis, index, k)
                ==> (n.literal)(F32_NEG_INFINITY) < logit_in(n, logits, axis, index, k),
    ensures
        axis < logits.dims.len(),
        validity_of(logits, axis)->Is_0.dims == logits.dims.remove(axis as int),
        within(logits.dims.remove(axis as int), index.remove(axis as int)),
        n.at(validity_of(logits, axis), index.remove(axis as int)) == indicator(
            drawable(n, logits, axis, index),
        ),
{
    broadcast use {group_extents, group_operands, group_numbers};

    reveal(Expr::row_validity);
    let x = Expr::Is(logits);
    let masked = x.filled(Scalar::Bits(F32_NEG_INFINITY));
    let finite = x.is_finite_mask();
    let axes = seq![axis];
    let allowed = finite.add(x.eq_mask(masked));
    let opposite = allowed.neg();
    let most = opposite.max(axes, false);
    let least = most.neg();
    let any = finite.max(axes, false);
    let valid = least.mul(any);
    assert(validity_of(logits, axis) == valid);
    assert(opposite is Is && most is Is && any is Is && allowed is Is && finite is Is && masked is Is);
    let row = index.remove(axis as int);
    let size = logits.dims[axis as int];
    removed_axes_reduce_their_lines(n, opposite, Reduction::Maximum, axis, index);
    removed_axes_reduce_their_lines(n, finite, Reduction::Maximum, axis, index);
    assert(0 <= index[axis as int] < size);
    let opposites = n.line(opposite, axis, index);
    let finites = n.line(finite, axis, index);
    let low = (n.literal)(F32_NEG_INFINITY);
    assert forall|k: int| 0 <= k < size implies #[trigger] finites[k] == indicator(
        finite_in(n, logits, axis, index, k),
    ) && opposites[k] == -indicator(
        finite_in(n, logits, axis, index, k) || logit_in(n, logits, axis, index, k) == low,
    ) by {
        let at = index.update(axis as int, k);
        lemma_within_line(logits.dims, axis, index, k);
        assert(n.at(finite, at) == indicator((n.finite)(origin(logits, at))));
        assert(n.at(masked, at) == low);
        assert(n.at(x.eq_mask(masked), at) == indicator(logit_in(n, logits, axis, index, k) == low));
        assert(n.at(allowed, at) == n.at(finite, at) + n.at(x.eq_mask(masked), at));
        assert(n.at(opposite, at) == -n.at(allowed, at));
    }
    assert(most->Is_0.dims == logits.dims.remove(axis as int) && any->Is_0.dims
        == logits.dims.remove(axis as int)) by {
        reveal(applied);
        crate::reductions::lemma_kept_dims_one(logits.dims, axis);
    }
    assert(within(logits.dims.remove(axis as int), row)) by {
        let dims = logits.dims.remove(axis as int);
        assert forall|i: int| 0 <= i < dims.len() implies 0 <= #[trigger] row[i] < dims[i] by {
            if i < axis {
                assert(0 <= index[i] < logits.dims[i]);
            } else {
                assert(0 <= index[i + 1] < logits.dims[i + 1]);
            }
        }
    }
    let (a, b) = (n.at(least, row), n.at(any, row));
    assert(a == -n.at(most, row));
    assert(n.at(valid, row) == a * b);
    lemma_zero_one(a, b);
    let i = choose|i: int| 0 <= i < opposites.len() && #[trigger] opposites[i] == n.at(most, row);
    let j = choose|j: int| 0 <= j < finites.len() && #[trigger] finites[j] == n.at(any, row);
    assert(finites[i] == finites[i] && finites[j] == finites[j]);
    if drawable(n, logits, axis, index) {
        let k = choose|k: int| 0 <= k < size && #[trigger] finite_in(n, logits, axis, index, k);
        assert(finites[k] == 1 as real && finites[k] <= b);
        assert(b == 1 as real);
        assert(finite_in(n, logits, axis, index, i) || logit_in(n, logits, axis, index, i) == low);
        assert(a == 1 as real);
    } else {
        if exists|k: int| 0 <= k < size && #[trigger] finite_in(n, logits, axis, index, k) {
            let k = choose|k: int|
                0 <= k < size && !(#[trigger] finite_in(n, logits, axis, index, k) || logit_in(
                    n,
                    logits,
                    axis,
                    index,
                    k,
                ) == low);
            assert(finites[k] == finites[k]);
            assert(opposites[k] == 0 as real && opposites[k] <= n.at(most, row));
            assert(a == 0 as real);
        } else {
            assert(!finite_in(n, logits, axis, index, j));
            assert(b == 0 as real);
        }
    }
}

/// A draw takes a category whose logit plus Gumbel noise is the greatest among
/// those of the finite logits of its row; where no row can be drawn from, zero.
#[verifier::rlimit(40)]
pub proof fn draws_take_the_greatest_perturbed_logit(
    n: Numbers,
    logits: Value,
    bits: Value,
    axis: usize,
    index: Seq<int>,
)
    requires
        n.lawful(),
        categorical_of(logits, bits, axis).indices is Is,
        logits.dims.len() <= usize::MAX,
        within(logits.dims, index),
        infinity_is_low(n, logits, bits, axis, index),
    ensures
        ({
            let drawn = signed(
                n.word_at(categorical_of(logits, bits, axis).indices, index.remove(axis as int)),
            );
            &&& n.at(categorical_of(logits, bits, axis).valid, index.remove(axis as int))
                == indicator(drawable(n, logits, axis, index))
            &&& if drawable(n, logits, axis, index) {
                &&& 0 <= drawn < logits.dims[axis as int]
                &&& finite_in(n, logits, axis, index, drawn)
                &&& forall|k: int|
                    0 <= k < logits.dims[axis as int] && #[trigger] finite_in(
                        n,
                        logits,
                        axis,
                        index,
                        k,
                    ) ==> perturbed_in(n, logits, bits, axis, index, k) <= perturbed_in(
                        n,
                        logits,
                        bits,
                        axis,
                        index,
                        drawn,
                    )
            } else {
                drawn == 0
            }
        }),
{
    broadcast use {group_extents, group_operands, group_numbers};

    lemma_pieces(logits, bits, axis);
    validity_marks_the_rows_to_draw_from(n, logits, axis, index);
    let level = lemma_centered_row(n, logits, bits, axis, index);
    let x = Expr::Is(logits);
    let p = pieces(x, Expr::Is(bits), axis);
    let row = index.remove(axis as int);
    let size = logits.dims[axis as int];
    assert(0 <= index[axis as int] < size);
    let drawn = guarded(p.valid, p.found);
    let line = n.line(p.scores, axis, index);
    let low = (n.literal)(F32_NEG_INFINITY);
    assert forall|k: int| 0 <= k < size implies #[trigger] line[k] == if finite_in(
        n,
        logits,
        axis,
        index,
        k,
    ) {
        perturbed_in(n, logits, bits, axis, index, k) - level
    } else {
        low
    } by {
        let at = index.update(axis as int, k);
        lemma_within_line(logits.dims, axis, index, k);
        assert(n.at(p.finite, at) == indicator((n.finite)(origin(logits, at))));
        assert(n.at(p.masked, at) == low);
        gumbel_noise_is_twice_a_logarithm(n, Expr::Is(bits), at);
        let summed = p.centered.add(p.noise);
        assert(summed is Is);
        assert(n.at(summed, at) == n.at(p.centered, at) + n.at(p.noise, at));
    }
    let best = signed(n.word_at(p.found, row));
    assert(0 <= best < size && greatest(line, line[best])) by {
        reveal(typed);
        reveal(Numbers::obeys);
        let v = p.found->Is_0;
        assert(v.op == (OpModel::ArgMax { axis }) && v.args[0] == p.scores->Is_0);
        assert(n.obeys(v, index));
    }
    assert(p.found->Is_0.dims == logits.dims.remove(axis as int)) by {
        reveal(typed);
    }
    assert(within(logits.dims.remove(axis as int), row)) by {
        let dims = logits.dims.remove(axis as int);
        assert forall|i: int| 0 <= i < dims.len() implies 0 <= #[trigger] row[i] < dims[i] by {
            if i < axis {
                assert(0 <= index[i] < logits.dims[i]);
            } else {
                assert(0 <= index[i + 1] < logits.dims[i + 1]);
            }
        }
    }
    assert(n.word_at(drawn, row) == if drawable(n, logits, axis, index) {
        n.word_at(p.found, row)
    } else {
        0
    }) by {
        reveal(guarded);
        reveal(applied);
        reveal(Numbers::obeys);
        let other = p.found.filled_i32(0);
        lemma_filled_word(n, p.found, 0, row);
        let v = drawn->Is_0;
        assert(v.op == OpModel::Select && v.args[0] == p.valid->Is_0 && v.args[1]
            == p.found->Is_0 && v.args[2] == other->Is_0);
        assert(v.dims == p.valid->Is_0.dims && p.valid->Is_0.dims == p.found->Is_0.dims);
        assert(n.obeys(v, row));
    }
    if drawable(n, logits, axis, index) {
        let k = choose|k: int| 0 <= k < size && #[trigger] finite_in(n, logits, axis, index, k);
        assert(line[k] > low) by {
            if level != 0 as real {
                let j = choose|j: int|
                    0 <= j < size && level == logit_in(n, logits, axis, index, j)
                        && #[trigger] finite_in(n, logits, axis, index, j);
                assert(finite_in(n, logits, axis, index, j) && finite_in(n, logits, axis, index, k));
            }
        }
        assert(line[k] <= line[best]);
        assert(finite_in(n, logits, axis, index, best));
        assert forall|k: int|
            0 <= k < size && #[trigger] finite_in(n, logits, axis, index, k) implies perturbed_in(
            n,
            logits,
            bits,
            axis,
            index,
            k,
        ) <= perturbed_in(n, logits, bits, axis, index, best) by {
            assert(line[k] <= line[best]);
        }
    }
}

/// A drawn category is drawn again where its logit alone is raised.
pub proof fn raising_the_drawn_logit_keeps_it_drawn(
    n: Numbers,
    one: Value,
    other: Value,
    bits: Value,
    axis: usize,
    index: Seq<int>,
)
    requires
        n.lawful(),
        categorical_of(one, bits, axis).indices is Is,
        categorical_of(other, bits, axis).indices is Is,
        other.dims == one.dims,
        one.dims.len() <= usize::MAX,
        within(one.dims, index),
        infinity_is_low(n, one, bits, axis, index),
        infinity_is_low(n, other, bits, axis, index),
        drawable(n, one, axis, index),
        ({
            let drawn = signed(
                n.word_at(categorical_of(one, bits, axis).indices, index.remove(axis as int)),
            );
            &&& finite_in(n, other, axis, index, drawn)
            &&& logit_in(n, one, axis, index, drawn) < logit_in(n, other, axis, index, drawn)
            &&& forall|k: int|
                0 <= k < one.dims[axis as int] && k != drawn ==> #[trigger] finite_in(
                    n,
                    other,
                    axis,
                    index,
                    k,
                ) == finite_in(n, one, axis, index, k) && logit_in(n, other, axis, index, k)
                    == logit_in(n, one, axis, index, k)
        }),
    ensures
        signed(n.word_at(categorical_of(other, bits, axis).indices, index.remove(axis as int)))
            == signed(
            n.word_at(categorical_of(one, bits, axis).indices, index.remove(axis as int)),
        ),
{
    let at = index.remove(axis as int);
    let drawn = signed(n.word_at(categorical_of(one, bits, axis).indices, at));
    let again = signed(n.word_at(categorical_of(other, bits, axis).indices, at));
    draws_take_the_greatest_perturbed_logit(n, one, bits, axis, index);
    assert(drawable(n, other, axis, index)) by {
        assert forall|k: int| 0 <= k < one.dims[axis as int] implies #[trigger] finite_in(
            n,
            other,
            axis,
            index,
            k,
        ) || logit_in(n, other, axis, index, k) == (n.literal)(F32_NEG_INFINITY) by {
            assert(finite_in(n, one, axis, index, k) || logit_in(n, one, axis, index, k)
                == (n.literal)(F32_NEG_INFINITY));
        }
    }
    draws_take_the_greatest_perturbed_logit(n, other, bits, axis, index);
    if again != drawn {
        assert(finite_in(n, other, axis, index, again));
        assert(finite_in(n, one, axis, index, again));
        assert(finite_in(n, other, axis, index, drawn));
        assert(perturbed_in(n, other, bits, axis, index, drawn) <= perturbed_in(
            n,
            other,
            bits,
            axis,
            index,
            again,
        ));
        assert(perturbed_in(n, one, bits, axis, index, again) <= perturbed_in(
            n,
            one,
            bits,
            axis,
            index,
            drawn,
        ));
    }
}

/// With equal words the drawn category is one of the greatest logits.
pub proof fn equal_words_draw_the_greatest_logit(
    n: Numbers,
    logits: Value,
    bits: Value,
    axis: usize,
    index: Seq<int>,
)
    requires
        n.lawful(),
        categorical_of(logits, bits, axis).indices is Is,
        logits.dims.len() <= usize::MAX,
        within(logits.dims, index),
        infinity_is_low(n, logits, bits, axis, index),
        drawable(n, logits, axis, index),
        forall|k: int|
            0 <= k < logits.dims[axis as int] ==> #[trigger] (n.word)(
                origin(bits, index.update(axis as int, k)),
            ) == (n.word)(origin(bits, index)),
    ensures
        ({
            let drawn = signed(
                n.word_at(categorical_of(logits, bits, axis).indices, index.remove(axis as int)),
            );
            forall|k: int|
                0 <= k < logits.dims[axis as int] && #[trigger] finite_in(
                    n,
                    logits,
                    axis,
                    index,
                    k,
                ) ==> logit_in(n, logits, axis, index, k) <= logit_in(n, logits, axis, index, drawn)
        }),
{
    draws_take_the_greatest_perturbed_logit(n, logits, bits, axis, index);
    let drawn = signed(
        n.word_at(categorical_of(logits, bits, axis).indices, index.remove(axis as int)),
    );
    assert((n.word)(origin(bits, index.update(axis as int, drawn))) == (n.word)(
        origin(bits, index),
    ));
    assert forall|k: int|
        0 <= k < logits.dims[axis as int] && #[trigger] finite_in(
            n,
            logits,
            axis,
            index,
            k,
        ) implies logit_in(n, logits, axis, index, k) <= logit_in(n, logits, axis, index, drawn) by {
        assert((n.word)(origin(bits, index.update(axis as int, k))) == (n.word)(
            origin(bits, index),
        ));
    }
}

/// Whether categories of a row are distinct and none outside them has a greater
/// logit than any of them.
pub open spec fn greatest_ones(
    n: Numbers,
    logits: Value,
    axis: usize,
    index: Seq<int>,
    categories: Seq<int>,
) -> bool {
    let size = logits.dims[axis as int];
    &&& forall|p: int| 0 <= p < categories.len() ==> 0 <= #[trigger] categories[p] < size
    &&& forall|p: int, q: int|
        0 <= p < q < categories.len() ==> #[trigger] categories[p] != #[trigger] categories[q]
    &&& forall|p: int, j: int|
        0 <= p < categories.len() && 0 <= j < size && !(#[trigger] categories.contains(j))
            ==> logit_in(n, logits, axis, index, j) <= logit_in(
            n,
            logits,
            axis,
            index,
            #[trigger] categories[p],
        )
}

/// The logit of a category plus the Gumbel noise of the word of its rank.
pub open spec fn ranked_score(
    n: Numbers,
    logits: Value,
    bits: Value,
    axis: usize,
    index: Seq<int>,
    category: int,
    rank: int,
) -> real {
    logit_in(n, logits, axis, index, category) + gumbel(
        n,
        (n.word)(origin(bits, index.update(axis as int, rank))),
    )
}

/// Whether the number that stands for negative infinity lies below the logits of
/// a row, perturbed by any of its words or not, and below their differences.
pub open spec fn infinity_is_low_at_all_ranks(
    n: Numbers,
    logits: Value,
    bits: Value,
    axis: usize,
    index: Seq<int>,
) -> bool {
    let size = logits.dims[axis as int];
    let low = (n.literal)(F32_NEG_INFINITY);
    &&& forall|i: int|
        0 <= i < size && #[trigger] finite_in(n, logits, axis, index, i) ==> low < logit_in(
            n,
            logits,
            axis,
            index,
            i,
        )
    &&& forall|i: int, p: int|
        0 <= i < size && 0 <= p < bits.dims[axis as int] && finite_in(n, logits, axis, index, i)
            ==> low < #[trigger] ranked_score(n, logits, bits, axis, index, i, p)
    &&& forall|i: int, p: int, j: int|
        0 <= i < size && 0 <= p < bits.dims[axis as int] && 0 <= j < size && finite_in(
            n,
            logits,
            axis,
            index,
            i,
        ) && #[trigger] finite_in(n, logits, axis, index, j) ==> low < #[trigger] ranked_score(
            n,
            logits,
            bits,
            axis,
            index,
            i,
            p,
        ) - logit_in(n, logits, axis, index, j)
}

/// The category at a rank of a row.
spec fn ranked(n: Numbers, logits: Value, axis: usize, index: Seq<int>, p: int) -> int {
    let sorted = sorted_of(logits, axis);
    signed(n.word_at(sorted, index.update(axis as int, p)))
}

/// Whether a category stands at some rank.
spec fn has_rank(n: Numbers, logits: Value, axis: usize, index: Seq<int>, j: int) -> bool {
    exists|p: int|
        0 <= p < logits.dims[axis as int] && #[trigger] ranked(n, logits, axis, index, p) == j
}

spec fn sorted_of(logits: Value, axis: usize) -> Expr {
    typed(
        logits.graph,
        OpModel::SortedIndices { axis, descending: true },
        seq![logits],
        logits.dims,
        DType::I32,
    )
}

/// Ranks name every category once, in descending order of the logits.
proof fn lemma_ranked(n: Numbers, logits: Value, axis: usize, index: Seq<int>)
    requires
        n.computes(),
        sorted_of(logits, axis) is Is,
        axis < logits.dims.len(),
        logits.dims[axis as int] <= i32::MAX,
        within(logits.dims, index),
    ensures
        ({
            let size = logits.dims[axis as int];
            &&& forall|p: int|
                0 <= p < size ==> 0 <= #[trigger] ranked(n, logits, axis, index, p) < size
            &&& forall|p: int, q: int|
                0 <= p < q < size ==> #[trigger] ranked(n, logits, axis, index, p)
                    != #[trigger] ranked(n, logits, axis, index, q) && logit_in(
                    n,
                    logits,
                    axis,
                    index,
                    ranked(n, logits, axis, index, q),
                ) <= logit_in(n, logits, axis, index, ranked(n, logits, axis, index, p))
            &&& forall|j: int| 0 <= j < size ==> #[trigger] has_rank(n, logits, axis, index, j)
        }),
{
    let size = logits.dims[axis as int];
    let v = sorted_of(logits, axis)->Is_0;
    assert(v.op == (OpModel::SortedIndices { axis, descending: true }) && v.args == seq![logits]
        && v.dims == logits.dims) by {
        reveal(typed);
    }
    assert(0 <= index[axis as int] < size);
    assert forall|p: int, q: int| 0 <= p < size && p <= q < size implies 0 <= #[trigger] ranked(
        n,
        logits,
        axis,
        index,
        p,
    ) < size && (p < q ==> ranked(n, logits, axis, index, p) != #[trigger] ranked(
        n,
        logits,
        axis,
        index,
        q,
    ) && logit_in(n, logits, axis, index, ranked(n, logits, axis, index, q)) <= logit_in(
        n,
        logits,
        axis,
        index,
        ranked(n, logits, axis, index, p),
    )) by {
        let at = index.update(axis as int, p);
        lemma_within_line(logits.dims, axis, index, p);
        reveal(Numbers::obeys);
        assert(n.obeys(v, at));
        let line = n.line(Expr::Is(logits), axis, at);
        assert forall|r: int| at.update(axis as int, r) == #[trigger] index.update(
            axis as int,
            r,
        ) by {
            assert(at.update(axis as int, r) =~= index.update(axis as int, r));
        }
        assert(at.update(axis as int, at[axis as int]) =~= at);
        let place = |r: int| signed((n.word)(origin(v, at.update(axis as int, r))));
        assert(place(q) == ranked(n, logits, axis, index, q)) by {
            assert(at.update(axis as int, q) =~= index.update(axis as int, q));
        }
        assert(place(p) == ranked(n, logits, axis, index, p)) by {
            assert(at.update(axis as int, p) =~= index.update(axis as int, p));
        }
        let (a, b) = (ranked(n, logits, axis, index, p), ranked(n, logits, axis, index, q));
        assert(0 <= a < line.len());
        assert(line[a] == logit_in(n, logits, axis, index, a)) by {
            assert(at.update(axis as int, a) =~= index.update(axis as int, a));
        }
        if p < q {
            assert(0 <= b < line.len() && b != a);
            assert(line[b] == logit_in(n, logits, axis, index, b)) by {
                assert(at.update(axis as int, b) =~= index.update(axis as int, b));
            }
        }
    }
    let order = Seq::new(
        size as nat,
        |p: int| ranked(n, logits, axis, index, p) as usize,
    );
    assert(is_permutation(order, size as nat)) by {
        assert forall|p: int| 0 <= p < order.len() implies #[trigger] order[p] < size by {
            assert(0 <= ranked(n, logits, axis, index, p) < size);
        }
        assert forall|p: int, q: int| 0 <= p < q < order.len() implies #[trigger] order[p]
            != #[trigger] order[q] by {
            assert(ranked(n, logits, axis, index, p) != ranked(n, logits, axis, index, q));
            assert(0 <= ranked(n, logits, axis, index, q) < size);
        }
    }
    crate::gradients::lemma_permutation_onto(order);
    assert forall|j: int| 0 <= j < size implies #[trigger] has_rank(
        n,
        logits,
        axis,
        index,
        j,
    ) by {
        assert(order.contains(j as usize));
        let p = choose|p: int| 0 <= p < order.len() && order[p] == j as usize;
        assert(0 <= ranked(n, logits, axis, index, p) < size);
        assert(ranked(n, logits, axis, index, p) == j);
    }
}

/// Whether a draw takes, of listed categories, one whose logit plus the Gumbel
/// noise of its rank is the greatest among those with finite logits.
pub open spec fn drawn_among(
    n: Numbers,
    logits: Value,
    bits: Value,
    axis: usize,
    index: Seq<int>,
    categories: Seq<int>,
    rank: int,
) -> bool {
    &&& 0 <= rank < categories.len()
    &&& finite_in(n, logits, axis, index, categories[rank])
    &&& forall|p: int|
        0 <= p < categories.len() && finite_in(n, logits, axis, index, #[trigger] categories[p])
            ==> ranked_score(n, logits, bits, axis, index, categories[p], p) <= ranked_score(
            n,
            logits,
            bits,
            axis,
            index,
            categories[rank],
            rank,
        )
}

/// The candidates of a truncated draw hold the logits of their ranks.
#[verifier::rlimit(40)]
proof fn lemma_candidates(
    n: Numbers,
    logits: Value,
    k: usize,
    axis: usize,
    index: Seq<int>,
    p: int,
)
    requires
        n.computes(),
        Expr::Is(logits).topk_values(k, axis) is Is,
        Expr::Is(logits).topk_indices(k, axis) is Is,
        0 < k,
        axis < logits.dims.len() <= usize::MAX,
        k <= logits.dims[axis as int] <= i32::MAX,
        within(logits.dims, index),
        0 <= p < k,
    ensures
        ({
            let x = Expr::Is(logits);
            let at = index.update(axis as int, p);
            let source = index.update(axis as int, ranked(n, logits, axis, index, p));
            let values = x.topk_values(k, axis);
            &&& sorted_of(logits, axis) is Is
            &&& values->Is_0.dims == logits.dims.update(axis as int, k as i64)
            &&& x.topk_indices(k, axis)->Is_0.dims == logits.dims.update(axis as int, k as i64)
            &&& signed(n.word_at(x.topk_indices(k, axis), at)) == ranked(n, logits, axis, index, p)
            &&& n.at(values, at) == n.of(logits, source)
            &&& n.finite_at(values, at) == (n.finite)(origin(logits, source))
        }),
{
    broadcast use group_extents;

    let x = Expr::Is(logits);
    let sorted = sorted_of(logits, axis);
    let candidates = x.topk_indices(k, axis);
    assert(candidates == sorted.narrow(axis, 0, k as i64));
    assert(sorted is Is && sorted->Is_0.dims == logits.dims) by {
        reveal(typed);
    }
    lemma_ranked(n, logits, axis, index);
    let at = index.update(axis as int, p);
    lemma_within_line(logits.dims, axis, index, p);
    narrowing_shifts_one_axis(sorted, axis, 0, k as i64, at);
    assert(at.update(axis as int, at[axis as int] + 0) =~= at);
    let dims = logits.dims.update(axis as int, k as i64);
    assert(candidates->Is_0.dims =~= dims);
    let values = x.topk_values(k, axis);
    assert(values == x.take_along_axis(candidates, axis));
    let v = values->Is_0;
    assert(v.op == (OpModel::TakeAlongAxis { axis }) && v.args == seq![logits, candidates->Is_0]
        && v.dims == dims) by {
        reveal(applied);
    }
    assert(within(dims, at)) by {
        assert forall|i: int| 0 <= i < dims.len() implies 0 <= #[trigger] at[i] < dims[i] by {
            assert(0 <= index[i] < logits.dims[i]);
        }
    }
    reveal(Numbers::obeys);
    assert(n.obeys(v, at));
    let r = ranked(n, logits, axis, index, p);
    assert(0 <= r < logits.dims[axis as int]);
    assert(at.update(axis as int, r) =~= index.update(axis as int, r));
}

/// A truncated draw takes one of the given number of categories with the greatest
/// logits: the one whose logit plus Gumbel noise is the greatest.
#[verifier::rlimit(80)]
pub proof fn truncated_draws_take_one_of_the_greatest(
    n: Numbers,
    logits: Value,
    bits: Value,
    k: usize,
    axis: usize,
    index: Seq<int>,
)
    requires
        n.lawful(),
        topk_categorical_of(logits, bits, k, axis).indices is Is,
        logits.dims.len() <= usize::MAX,
        within(logits.dims.update(axis as int, k as i64), index),
        infinity_is_low_at_all_ranks(n, logits, bits, axis, index),
        drawable(n, logits, axis, index),
    ensures
        ({
            let drawn = signed(
                n.word_at(
                    topk_categorical_of(logits, bits, k, axis).indices,
                    index.remove(axis as int),
                ),
            );
            exists|categories: Seq<int>, rank: int|
                categories.len() == k && categories[rank] == drawn && greatest_ones(
                    n,
                    logits,
                    axis,
                    index,
                    categories,
                ) && #[trigger] drawn_among(n, logits, bits, axis, index, categories, rank)
        }),
{
    broadcast use {group_extents, group_operands, group_numbers};

    let x = Expr::Is(logits);
    let dims = logits.dims.update(axis as int, k as i64);
    let candidates = x.topk_indices(k, axis);
    let values = x.topk_values(k, axis);
    assert(axis < logits.dims.len() && 0 < k <= logits.dims[axis as int] <= i32::MAX);
    assert(candidates is Is && values is Is && bits.dims == dims);
    let size = logits.dims[axis as int];
    assert(within(logits.dims, index)) by {
        assert forall|i: int| 0 <= i < logits.dims.len() implies 0 <= #[trigger] index[i]
            < logits.dims[i] by {
            assert(0 <= index[i] < dims[i]);
        }
    }
    assert(0 <= index[axis as int] < dims[axis as int]);
    lemma_candidates(n, logits, k, axis, index, 0);
    lemma_ranked(n, logits, axis, index);
    let v = values->Is_0;
    let categories = Seq::new(k as nat, |p: int| ranked(n, logits, axis, index, p));
    let low = (n.literal)(F32_NEG_INFINITY);
    assert forall|p: int| 0 <= p < k implies #[trigger] finite_in(n, v, axis, index, p)
        == finite_in(n, logits, axis, index, categories[p]) && logit_in(n, v, axis, index, p)
        == logit_in(n, logits, axis, index, categories[p]) && perturbed_in(
        n,
        v,
        bits,
        axis,
        index,
        p,
    ) == ranked_score(n, logits, bits, axis, index, categories[p], p) by {
        lemma_candidates(n, logits, k, axis, index, p);
    }
    assert(infinity_is_low(n, v, bits, axis, index)) by {
        assert forall|p: int| 0 <= p < k && #[trigger] finite_in(n, v, axis, index, p) implies low
            < logit_in(n, v, axis, index, p) && low < perturbed_in(n, v, bits, axis, index, p) by {
            assert(0 <= categories[p] < size);
        }
        assert forall|p: int, q: int|
            0 <= p < k && 0 <= q < k && #[trigger] finite_in(n, v, axis, index, p)
                && #[trigger] finite_in(n, v, axis, index, q) implies low < perturbed_in(
            n,
            v,
            bits,
            axis,
            index,
            p,
        ) - logit_in(n, v, axis, index, q) by {
            assert(0 <= categories[p] < size && 0 <= categories[q] < size);
            assert(finite_in(n, logits, axis, index, categories[q]));
        }
    }
    assert(drawable(n, v, axis, index)) by {
        assert forall|p: int| 0 <= p < k implies #[trigger] finite_in(n, v, axis, index, p)
            || logit_in(n, v, axis, index, p) == low by {
            assert(0 <= categories[p] < size);
            assert(finite_in(n, logits, axis, index, categories[p]) || logit_in(
                n,
                logits,
                axis,
                index,
                categories[p],
            ) == low);
        }
        let j = choose|j: int| 0 <= j < size && #[trigger] finite_in(n, logits, axis, index, j);
        assert(has_rank(n, logits, axis, index, j));
        let p = choose|p: int|
            0 <= p < size && #[trigger] ranked(n, logits, axis, index, p) == j;
        assert(logit_in(n, logits, axis, index, j) <= logit_in(
            n,
            logits,
            axis,
            index,
            categories[0],
        )) by {
            if p > 0 {
                assert(ranked(n, logits, axis, index, 0) != ranked(n, logits, axis, index, p));
            }
        }
        assert(0 <= categories[0] < size);
        assert(finite_in(n, logits, axis, index, categories[0]));
        assert(finite_in(n, v, axis, index, 0));
    }
    let draw = categorical_of(v, bits, axis);
    let named_choice = topk_categorical_of(logits, bits, k, axis);
    let masked = x.filled(Scalar::Bits(F32_NEG_INFINITY));
    assert(named_choice == relabeled(x, candidates, draw, masked, dims, axis));
    assert(draw.indices is Is);
    draws_take_the_greatest_perturbed_logit(n, v, bits, axis, index);
    lemma_pieces(v, bits, axis);
    let row = index.remove(axis as int);
    let rank = signed(n.word_at(draw.indices, row));
    assert(dims.remove(axis as int) =~= logits.dims.remove(axis as int));
    lemma_relabeled(n, logits, candidates, draw, dims, axis, index, rank);
    lemma_candidates(n, logits, k, axis, index, rank);
    assert(greatest_ones(n, logits, axis, index, categories)) by {
        assert forall|p: int| 0 <= p < categories.len() implies 0 <= #[trigger] categories[p]
            < size by {
            assert(0 <= ranked(n, logits, axis, index, p) < size);
        }
        assert forall|p: int, q: int| 0 <= p < q < categories.len() implies #[trigger] categories[p]
            != #[trigger] categories[q] by {
            assert(ranked(n, logits, axis, index, p) != ranked(n, logits, axis, index, q));
        }
        assert forall|p: int, j: int|
            0 <= p < categories.len() && 0 <= j < size && !(#[trigger] categories.contains(
                j,
            )) implies logit_in(n, logits, axis, index, j) <= logit_in(
            n,
            logits,
            axis,
            index,
            #[trigger] categories[p],
        ) by {
            assert(has_rank(n, logits, axis, index, j));
            let q = choose|q: int|
                0 <= q < size && #[trigger] ranked(n, logits, axis, index, q) == j;
            if q < k {
                assert(categories[q] == j);
            }
            assert(ranked(n, logits, axis, index, p) != ranked(n, logits, axis, index, q));
        }
    }
    assert(drawn_among(n, logits, bits, axis, index, categories, rank)) by {
        assert forall|p: int|
            0 <= p < categories.len() && finite_in(
                n,
                logits,
                axis,
                index,
                #[trigger] categories[p],
            ) implies ranked_score(n, logits, bits, axis, index, categories[p], p) <= ranked_score(
            n,
            logits,
            bits,
            axis,
            index,
            categories[rank],
            rank,
        ) by {
            assert(finite_in(n, v, axis, index, p));
            assert(finite_in(n, v, axis, index, rank));
        }
        assert(finite_in(n, v, axis, index, rank));
    }
    assert(categories[rank] == signed(n.word_at(named_choice.indices, row)));
}

/// A draw among candidates is named by the candidate that it takes.
#[verifier::rlimit(40)]
proof fn lemma_relabeled(
    n: Numbers,
    logits: Value,
    candidates: Expr,
    draw: crate::random::Choice,
    dims: Seq<i64>,
    axis: usize,
    index: Seq<int>,
    rank: int,
)
    requires
        n.lawful(),
        logits.dims.len() <= usize::MAX,
        axis < logits.dims.len(),
        within(logits.dims, index),
        dims.len() == logits.dims.len(),
        dims.remove(axis as int) == logits.dims.remove(axis as int),
        candidates is Is,
        candidates->Is_0.dims == dims,
        draw.indices is Is,
        draw.indices->Is_0.dims == logits.dims.remove(axis as int),
        0 <= rank < dims[axis as int],
        rank == signed(n.word_at(draw.indices, index.remove(axis as int))),
        drawable(n, logits, axis, index),
        n.at(draw.valid, index.remove(axis as int)) == 1 as real,
        forall|k: int|
            0 <= k < logits.dims[axis as int] && #[trigger] finite_in(n, logits, axis, index, k)
                ==> (n.literal)(F32_NEG_INFINITY) < logit_in(n, logits, axis, index, k),
        relabeled(
            Expr::Is(logits),
            candidates,
            draw,
            Expr::Is(logits).filled(Scalar::Bits(F32_NEG_INFINITY)),
            dims,
            axis,
        ).indices is Is,
    ensures
        n.word_at(
            relabeled(
                Expr::Is(logits),
                candidates,
                draw,
                Expr::Is(logits).filled(Scalar::Bits(F32_NEG_INFINITY)),
                dims,
                axis,
            ).indices,
            index.remove(axis as int),
        ) == n.word_at(candidates, index.update(axis as int, rank)),
{
    broadcast use {group_extents, group_operands, group_numbers};

    reveal(relabeled);
    reveal(guarded);
    let x = Expr::Is(logits);
    let a = axis as int;
    let unit = dims.update(a, 1);
    let flat = logits.dims.remove(a);
    let picked = draw.indices.reshape(unit);
    let taken = candidates.take_along_axis(picked, axis);
    let named = taken.reshape(flat);
    let rows = validity_of(logits, axis);
    let valid = rows.mul(draw.valid);
    let result = guarded(valid, named);
    assert(relabeled(
        x,
        candidates,
        draw,
        x.filled(Scalar::Bits(F32_NEG_INFINITY)),
        dims,
        axis,
    ).indices == result);
    assert(result is Is && valid is Is && named is Is && taken is Is && picked is Is && rows is Is);
    validity_marks_the_rows_to_draw_from(n, logits, axis, index);
    let row = index.remove(a);
    let longer = row.insert(a, 0);
    assert(unit =~= flat.insert(a, 1)) by {
        assert(dims.remove(a).insert(a, 1) =~= unit);
    }
    crate::elements::lemma_ravel_unit(flat, row, a);
    assert(within(unit, longer)) by {
        assert forall|i: int| 0 <= i < unit.len() implies 0 <= #[trigger] longer[i] < unit[i] by {
            if i < a {
                assert(0 <= row[i] < flat[i]);
            } else if i > a {
                assert(0 <= row[i - 1] < flat[i - 1]);
            }
        }
    }
    crate::elements::reshape_keeps_the_order(draw.indices, unit, longer);
    crate::elements::lemma_unravel(flat, row);
    assert(taken->Is_0.dims == unit && picked->Is_0.dims == unit) by {
        reveal(applied);
    }
    crate::elements::reshape_keeps_the_order(taken, flat, row);
    crate::elements::lemma_unravel(unit, longer);
    assert(n.word_at(taken, longer) == n.word_at(candidates, longer.update(a, rank))) by {
        reveal(applied);
        reveal(Numbers::obeys);
        assert(n.obeys(taken->Is_0, longer));
    }
    assert(longer.update(a, rank) =~= index.update(a, rank));
    lemma_zero_one(n.at(rows, row), n.at(draw.valid, row));
    assert(rows->Is_0.dtype == DType::F32) by {
        reveal(Expr::row_validity);
    }
    assert(n.at(valid, row) == n.at(rows, row) * n.at(draw.valid, row));
    assert(n.at(valid, row) == 1 as real);
    assert(n.word_at(result, row) == n.word_at(named, row)) by {
        reveal(applied);
        reveal(Numbers::obeys);
        let v = result->Is_0;
        assert(v.op == OpModel::Select && v.args[0] == valid->Is_0 && v.args[1] == named->Is_0);
        assert(v.dims == valid->Is_0.dims);
        assert(n.obeys(v, row));
    }
}

/// The probability of the categories before one: their exponentials over the sum
/// of all.
pub open spec fn mass_before(n: Numbers, line: Seq<real>, at: int) -> real {
    total(exponentials(n, line).take(at)) / total(exponentials(n, line))
}

/// The recorded probability of all categories before one.
#[verifier::rlimit(40)]
proof fn lemma_prior_mass(n: Numbers, sorted: Expr, axis: usize, index: Seq<int>)
    requires
        n.lawful(),
        sorted is Is,
        sorted.prior_mass(sorted->Is_0.dims, axis) is Is,
        axis < sorted->Is_0.dims.len() <= usize::MAX,
        within(sorted->Is_0.dims, index),
    ensures
        sorted.prior_mass(sorted->Is_0.dims, axis)->Is_0.dims == sorted->Is_0.dims,
        n.at(sorted.prior_mass(sorted->Is_0.dims, axis), index) == mass_before(
            n,
            n.line(sorted, axis, index),
            index[axis as int],
        ),
{
    broadcast use {group_extents, group_operands, group_numbers};

    reveal(Expr::prior_mass);
    let dims = sorted->Is_0.dims;
    let a = axis as int;
    let likely = sorted.softmax(axis);
    let running = likely.cumsum(axis);
    let length = (dims[a] - 1) as i64;
    let part = running.narrow(axis, 0, length);
    let widths = leading_pad(dims.len(), axis);
    let zero = Scalar::Bits(F32_ZERO);
    let padded = part.pad(widths, zero);
    assert(sorted.prior_mass(dims, axis) == padded);
    assert(padded is Is && part is Is && running is Is && likely is Is);
    assert(0 <= index[a] < dims[a]);
    softmax_shares_one_among_the_exponentials(n, sorted, axis, index);
    assert(likely->Is_0.dims == dims) by {
        reveal(Expr::softmax);
    }
    assert(running->Is_0.dims == dims) by {
        running_sums_add_up(n, likely, axis, index);
    }
    assert(part->Is_0.dims =~= dims.update(a, length));
    let line = n.line(sorted, axis, index);
    let all = exponentials(n, line);
    let whole = total(all);
    let inner = unpadded_index(widths, index);
    assert(inner =~= index.update(a, index[a] - 1));
    assert(crate::sound::padded(part->Is_0.dims, widths) =~= dims);
    zero_padding_surrounds_the_interior(part, widths, index);
    if index[a] == 0 {
        assert(!within(part->Is_0.dims, inner)) by {
            assert(inner[a] == -1);
        }
        assert(all.take(0) =~= Seq::<real>::empty());
        assert(total(Seq::<real>::empty()) == 0 as real);
        scalar_number(n, part->Is_0.graph, zero);
        assert(scalar(part->Is_0.graph, zero) is Is && copied(
            scalar(part->Is_0.graph, zero),
            Seq::empty(),
        ) == zero_element(part->Is_0.graph)) by {
            reveal(applied);
            reveal(origin);
        }
        assert((0 as real) / whole == 0 as real) by (nonlinear_arith)
            requires
                whole > 0 as real,
        ;
    } else {
        assert(within(part->Is_0.dims, inner)) by {
            let small = part->Is_0.dims;
            assert forall|i: int| 0 <= i < small.len() implies 0 <= #[trigger] inner[i]
                < small[i] by {
                assert(0 <= index[i] < dims[i]);
            }
        }
        narrowing_shifts_one_axis(running, axis, 0, length, inner);
        assert(inner.update(a, inner[a] + 0) =~= inner);
        lemma_within_line(dims, axis, index, index[a] - 1);
        running_sums_add_up(n, likely, axis, inner);
        let shares = n.line(likely, axis, inner).take(inner[a] + 1);
        let front = all.take(index[a]);
        assert forall|q: int| 0 <= q < shares.len() implies #[trigger] shares[q] * whole
            == front[q] by {
            lemma_within_line(dims, axis, index, q);
            let at = index.update(a, q);
            assert(inner.update(a, q) =~= at);
            softmax_shares_one_among_the_exponentials(n, sorted, axis, at);
            assert(n.line(sorted, axis, at) =~= line) by {
                assert forall|r: int| at.update(a, r) == #[trigger] index.update(a, r) by {
                    assert(at.update(a, r) =~= index.update(a, r));
                }
            }
        }
        lemma_scaled_total(shares, front, whole);
        lemma_quotient(total(shares), total(front), whole);
    }
}

/// A nucleus keeps a sorted logit where it is the first, or where the
/// probability of those before it lies below the limit; it masks the others with
/// negative infinity.
#[verifier::rlimit(40)]
pub proof fn nuclei_keep_the_likeliest_up_to_the_limit(
    n: Numbers,
    logits: Value,
    sorted: Value,
    p: u32,
    axis: usize,
    index: Seq<int>,
)
    requires
        n.lawful(),
        nucleus_of(logits, sorted, p, axis) is Is,
        sorted.dims == logits.dims,
        axis < logits.dims.len() <= usize::MAX,
        within(logits.dims, index),
        logits.dims[axis as int] <= 0x8000_0000,
    ensures
        ({
            let before = mass_before(
                n,
                n.line(Expr::Is(sorted), axis, index),
                index[axis as int],
            );
            n.at(nucleus_of(logits, sorted, p, axis), index) == if index[axis as int] == 0 || before
                < (n.literal)(p) {
                n.of(sorted, index)
            } else {
                (n.literal)(F32_NEG_INFINITY)
            }
        }),
{
    broadcast use {group_extents, group_operands, group_numbers};

    reveal(nucleus);
    let (x, s) = (Expr::Is(logits), Expr::Is(sorted));
    let masked = x.filled(Scalar::Bits(F32_NEG_INFINITY));
    let preceding = s.prior_mass(logits.dims, axis);
    let limit = x.filled(Scalar::Bits(p));
    let keep = preceding.lt_mask(limit);
    let positions = iota(logits.graph, logits.dims, axis);
    let start = x.filled_i32(0);
    let first = positions.le_mask(start);
    let kept_mask = keep.maximum(first);
    assert(nucleus_of(logits, sorted, p, axis) == kept_mask.select(s, masked));
    assert(kept_mask is Is && keep is Is && first is Is && preceding is Is && limit is Is
        && positions is Is && start is Is && masked is Is);
    lemma_prior_mass(n, s, axis, index);
    lemma_filled_word(n, x, 0, index);
    assert(0 <= index[axis as int] < logits.dims[axis as int]);
    assert(signed(n.word_at(positions, index)) == index[axis as int] && positions->Is_0.dims
        == logits.dims && positions->Is_0.dtype == DType::I32) by {
        reveal(typed);
        reveal(applied);
        reveal(Numbers::obeys);
        let v = positions->Is_0;
        assert(v.op == (OpModel::Iota { axis }) && v.args.len() == 0);
        assert(n.obeys(v, index));
    }
    assert(n.at(first, index) == indicator(index[axis as int] <= 0));
    assert(n.at(keep, index) == indicator(n.at(preceding, index) < (n.literal)(p)));
    assert(keep->Is_0.dtype == DType::F32) by {
        reveal(applied);
    }
    assert(n.at(kept_mask, index) == crate::corners::greater(n.at(keep, index), n.at(first, index)));
}

/// The nucleus of sorted logits.
pub open spec fn nucleus_of(logits: Value, sorted: Value, p: u32, axis: usize) -> Expr {
    let x = Expr::Is(logits);
    nucleus(x, Expr::Is(sorted), x.filled(Scalar::Bits(F32_NEG_INFINITY)), p, axis)
}

/// Whether categories of a row are all of them, in descending order of the
/// logits.
pub open spec fn descending(
    n: Numbers,
    logits: Value,
    axis: usize,
    index: Seq<int>,
    categories: Seq<int>,
) -> bool {
    let size = logits.dims[axis as int];
    &&& categories.len() == size
    &&& forall|p: int| 0 <= p < size ==> 0 <= #[trigger] categories[p] < size
    &&& forall|p: int, q: int|
        0 <= p < q < size ==> #[trigger] categories[p] != #[trigger] categories[q] && logit_in(
            n,
            logits,
            axis,
            index,
            categories[q],
        ) <= logit_in(n, logits, axis, index, categories[p])
}

/// Whether a rank lies in the nucleus: it is the first, or the probability of the
/// ranks before it lies below the limit, if there is one.
pub open spec fn in_nucleus(
    n: Numbers,
    logits: Value,
    axis: usize,
    index: Seq<int>,
    categories: Seq<int>,
    p: u32,
    rank: int,
) -> bool {
    let line = Seq::new(
        categories.len(),
        |q: int| logit_in(n, logits, axis, index, categories[q]),
    );
    p == F32_ONE || rank == 0 || mass_before(n, line, rank) < (n.literal)(p)
}

/// Whether a draw takes, of the ranks in the nucleus with finite logits, one
/// whose logit plus Gumbel noise is the greatest.
pub open spec fn drawn_in_nucleus(
    n: Numbers,
    logits: Value,
    bits: Value,
    axis: usize,
    index: Seq<int>,
    categories: Seq<int>,
    p: u32,
    rank: int,
) -> bool {
    &&& 0 <= rank < categories.len()
    &&& in_nucleus(n, logits, axis, index, categories, p, rank)
    &&& finite_in(n, logits, axis, index, categories[rank])
    &&& forall|q: int|
        0 <= q < categories.len() && in_nucleus(n, logits, axis, index, categories, p, q)
            && finite_in(n, logits, axis, index, #[trigger] categories[q]) ==> ranked_score(
            n,
            logits,
            bits,
            axis,
            index,
            categories[q],
            q,
        ) <= ranked_score(n, logits, bits, axis, index, categories[rank], rank)
}

/// The logits of a nucleus, rank by rank, and which are finite.
#[verifier::rlimit(40)]
proof fn lemma_nucleus_row(
    n: Numbers,
    logits: Value,
    kept_ones: Value,
    p: u32,
    axis: usize,
    index: Seq<int>,
    rank: int,
)
    requires
        n.lawful(),
        axis < logits.dims.len() <= usize::MAX,
        0 < logits.dims[axis as int] <= i32::MAX,
        logits.dims[axis as int] <= usize::MAX,
        within(logits.dims, index),
        Expr::Is(logits).topk_values(logits.dims[axis as int] as usize, axis) is Is,
        Expr::Is(logits).topk_indices(logits.dims[axis as int] as usize, axis) is Is,
        ({
            let values = Expr::Is(logits).topk_values(logits.dims[axis as int] as usize, axis);
            Expr::Is(kept_ones) == if p == F32_ONE {
                values
            } else {
                nucleus_of(logits, values->Is_0, p, axis)
            }
        }),
        0 <= rank < logits.dims[axis as int],
    ensures
        ({
            let categories = Seq::new(
                logits.dims[axis as int] as nat,
                |q: int| ranked(n, logits, axis, index, q),
            );
            let inside = in_nucleus(n, logits, axis, index, categories, p, rank);
            &&& finite_in(n, kept_ones, axis, index, rank) == (inside && finite_in(
                n,
                logits,
                axis,
                index,
                categories[rank],
            ))
            &&& logit_in(n, kept_ones, axis, index, rank) == if inside {
                logit_in(n, logits, axis, index, categories[rank])
            } else {
                (n.literal)(F32_NEG_INFINITY)
            }
            &&& kept_ones.dims == logits.dims
        }),
{
    broadcast use {group_extents, group_operands};

    let x = Expr::Is(logits);
    let a = axis as int;
    let size = logits.dims[a];
    let k = size as usize;
    let values = x.topk_values(k, axis);
    let v = values->Is_0;
    let at = index.update(a, rank);
    lemma_within_line(logits.dims, axis, index, rank);
    lemma_candidates(n, logits, k, axis, index, rank);
    assert(logits.dims.update(a, k as i64) =~= logits.dims);
    let categories = Seq::new(size as nat, |q: int| ranked(n, logits, axis, index, q));
    let line = Seq::new(
        categories.len(),
        |q: int| logit_in(n, logits, axis, index, categories[q]),
    );
    assert(n.line(values, axis, at) =~= line) by {
        assert forall|q: int| 0 <= q < size implies #[trigger] n.line(values, axis, at)[q]
            == line[q] by {
            lemma_candidates(n, logits, k, axis, index, q);
            assert(at.update(a, q) =~= index.update(a, q));
        }
    }
    if p != F32_ONE {
        nuclei_keep_the_likeliest_up_to_the_limit(n, logits, v, p, axis, at);
        reveal(nucleus);
        reveal(applied);
        reveal(Numbers::obeys);
        let z = nucleus_of(logits, v, p, axis)->Is_0;
        let masked = x.filled(Scalar::Bits(F32_NEG_INFINITY));
        assert(z.op == OpModel::Select && z.args[1] == v && Expr::Is(z.args[2]) == masked);
        assert(z.dims == logits.dims);
        assert(n.obeys(z, at));
        lemma_masked_infinite(n, x, at);
        lemma_nucleus_choice(n, logits, v, p, axis, at);
    }
}

/// The constant negative infinity is not finite.
proof fn lemma_masked_infinite(n: Numbers, x: Expr, index: Seq<int>)
    requires
        n.computes(),
        x is Is,
        x.filled(Scalar::Bits(F32_NEG_INFINITY)) is Is,
        within(x->Is_0.dims, index),
        x->Is_0.dims.len() <= usize::MAX,
    ensures
        !n.finite_at(x.filled(Scalar::Bits(F32_NEG_INFINITY)), index),
{
    reveal(Expr::filled);
    let value = Scalar::Bits(F32_NEG_INFINITY);
    let one = scalar(x->Is_0.graph, value);
    let nowhere = Seq::<int>::empty();
    assert(one is Is && one->Is_0.dims == Seq::<i64>::empty() && one->Is_0.op
        == OpModel::ConstantF32(seq![value]) && one->Is_0.args.len() == 0) by {
        reveal(applied);
    }
    lemma_pulled(one, x->Is_0.dims, index);
    assert(pulled(one->Is_0.dims, index) =~= nowhere);
    assert(ravel(one->Is_0.dims, nowhere) == 0);
    assert(exponent_of(F32_NEG_INFINITY) == 255);
    reveal(Numbers::obeys);
    assert(n.obeys(one->Is_0, nowhere));
}

/// The mask of a nucleus selects what lies in it.
#[verifier::rlimit(40)]
proof fn lemma_nucleus_choice(
    n: Numbers,
    logits: Value,
    sorted: Value,
    p: u32,
    axis: usize,
    index: Seq<int>,
)
    requires
        n.lawful(),
        nucleus_of(logits, sorted, p, axis) is Is,
        sorted.dims == logits.dims,
        axis < logits.dims.len() <= usize::MAX,
        within(logits.dims, index),
        logits.dims[axis as int] <= 0x8000_0000,
    ensures
        ({
            let before = mass_before(
                n,
                n.line(Expr::Is(sorted), axis, index),
                index[axis as int],
            );
            (n.of(nucleus_of(logits, sorted, p, axis)->Is_0.args[0], index) != 0 as real) == (
            index[axis as int] == 0 || before < (n.literal)(p))
        }),
{
    broadcast use {group_extents, group_operands, group_numbers};

    reveal(nucleus);
    let (x, s) = (Expr::Is(logits), Expr::Is(sorted));
    let masked = x.filled(Scalar::Bits(F32_NEG_INFINITY));
    let preceding = s.prior_mass(logits.dims, axis);
    let limit = x.filled(Scalar::Bits(p));
    let keep = preceding.lt_mask(limit);
    let positions = iota(logits.graph, logits.dims, axis);
    let start = x.filled_i32(0);
    let first = positions.le_mask(start);
    let kept_mask = keep.maximum(first);
    assert(nucleus_of(logits, sorted, p, axis) == kept_mask.select(s, masked));
    assert(kept_mask is Is && keep is Is && first is Is && preceding is Is && limit is Is
        && positions is Is && start is Is && masked is Is);
    lemma_prior_mass(n, s, axis, index);
    lemma_filled_word(n, x, 0, index);
    assert(0 <= index[axis as int] < logits.dims[axis as int]);
    assert(signed(n.word_at(positions, index)) == index[axis as int] && positions->Is_0.dims
        == logits.dims && positions->Is_0.dtype == DType::I32) by {
        reveal(typed);
        reveal(applied);
        reveal(Numbers::obeys);
        let v = positions->Is_0;
        assert(v.op == (OpModel::Iota { axis }) && v.args.len() == 0);
        assert(n.obeys(v, index));
    }
    assert(n.at(first, index) == indicator(index[axis as int] <= 0));
    assert(n.at(keep, index) == indicator(n.at(preceding, index) < (n.literal)(p)));
    assert(keep->Is_0.dtype == DType::F32) by {
        reveal(applied);
    }
    assert(n.at(kept_mask, index) == crate::corners::greater(n.at(keep, index), n.at(first, index)));
    assert(nucleus_of(logits, sorted, p, axis)->Is_0.args[0] == kept_mask->Is_0) by {
        reveal(applied);
    }
}

/// A draw limited by probability takes one of the likeliest categories whose
/// probability before it lies below the limit: the one whose logit plus Gumbel
/// noise is the greatest.
#[verifier::rlimit(80)]
pub proof fn limited_draws_take_one_of_the_nucleus(
    n: Numbers,
    logits: Value,
    bits: Value,
    p: u32,
    axis: usize,
    index: Seq<int>,
)
    requires
        n.lawful(),
        top_p_categorical_of(logits, bits, p, axis).indices is Is,
        logits.dims.len() <= usize::MAX,
        within(logits.dims, index),
        logits.dims[axis as int] <= usize::MAX,
        infinity_is_low_at_all_ranks(n, logits, bits, axis, index),
        drawable(n, logits, axis, index),
    ensures
        ({
            let drawn = signed(
                n.word_at(
                    top_p_categorical_of(logits, bits, p, axis).indices,
                    index.remove(axis as int),
                ),
            );
            exists|categories: Seq<int>, rank: int|
                categories[rank] == drawn && descending(n, logits, axis, index, categories)
                    && #[trigger] drawn_in_nucleus(
                    n,
                    logits,
                    bits,
                    axis,
                    index,
                    categories,
                    p,
                    rank,
                )
        }),
{
    let x = Expr::Is(logits);
    let a = axis as int;
    assert(0 <= index[a] < logits.dims[a]);
    let size = logits.dims[a];
    let k = size as usize;
    let candidates = x.topk_indices(k, axis);
    let values = x.topk_values(k, axis);
    assert(axis < logits.dims.len() && bits.dims == logits.dims);
    assert(candidates is Is && values is Is);
    assert(size <= i32::MAX);
    let masked = x.filled(Scalar::Bits(F32_NEG_INFINITY));
    let filtered = if p == F32_ONE {
        values
    } else {
        nucleus_of(logits, values->Is_0, p, axis)
    };
    assert(filtered is Is && masked is Is);
    let v = filtered->Is_0;
    let draw = categorical_of(v, bits, axis);
    let named_choice = top_p_categorical_of(logits, bits, p, axis);
    assert(named_choice == relabeled(x, candidates, draw, masked, logits.dims, axis));
    assert(draw.indices is Is);
    lemma_candidates(n, logits, k, axis, index, 0);
    assert(logits.dims.update(a, k as i64) =~= logits.dims);
    lemma_ranked(n, logits, axis, index);
    lemma_nucleus_row(n, logits, v, p, axis, index, 0);
    let categories = Seq::new(size as nat, |q: int| ranked(n, logits, axis, index, q));
    let low = (n.literal)(F32_NEG_INFINITY);
    assert forall|q: int| 0 <= q < size implies 0 <= #[trigger] categories[q] < size by {
        assert(0 <= ranked(n, logits, axis, index, q) < size);
    }
    assert forall|q: int| 0 <= q < size implies #[trigger] finite_in(n, v, axis, index, q) == (
    in_nucleus(n, logits, axis, index, categories, p, q) && finite_in(
        n,
        logits,
        axis,
        index,
        categories[q],
    )) && (finite_in(n, v, axis, index, q) ==> logit_in(n, v, axis, index, q) == logit_in(
        n,
        logits,
        axis,
        index,
        categories[q],
    ) && perturbed_in(n, v, bits, axis, index, q) == ranked_score(
        n,
        logits,
        bits,
        axis,
        index,
        categories[q],
        q,
    )) && (finite_in(n, v, axis, index, q) || logit_in(n, v, axis, index, q) == low) by {
        lemma_nucleus_row(n, logits, v, p, axis, index, q);
        assert(finite_in(n, logits, axis, index, categories[q]) || logit_in(
            n,
            logits,
            axis,
            index,
            categories[q],
        ) == low);
    }
    assert(infinity_is_low(n, v, bits, axis, index)) by {
        assert forall|q: int, r: int|
            0 <= q < size && 0 <= r < size && #[trigger] finite_in(n, v, axis, index, q)
                && #[trigger] finite_in(n, v, axis, index, r) implies low < perturbed_in(
            n,
            v,
            bits,
            axis,
            index,
            q,
        ) - logit_in(n, v, axis, index, r) by {
            assert(0 <= categories[q] < size && 0 <= categories[r] < size);
            assert(finite_in(n, logits, axis, index, categories[r]));
        }
        assert forall|q: int| 0 <= q < size && #[trigger] finite_in(n, v, axis, index, q) implies low
            < logit_in(n, v, axis, index, q) && low < perturbed_in(n, v, bits, axis, index, q) by {
            assert(0 <= categories[q] < size);
        }
    }
    assert(drawable(n, v, axis, index)) by {
        let j = choose|j: int| 0 <= j < size && #[trigger] finite_in(n, logits, axis, index, j);
        assert(has_rank(n, logits, axis, index, j));
        let q = choose|q: int|
            0 <= q < size && #[trigger] ranked(n, logits, axis, index, q) == j;
        assert(logit_in(n, logits, axis, index, j) <= logit_in(
            n,
            logits,
            axis,
            index,
            categories[0],
        )) by {
            if q > 0 {
                assert(ranked(n, logits, axis, index, 0) != ranked(n, logits, axis, index, q));
            }
        }
        assert(0 <= categories[0] < size);
        assert(finite_in(n, logits, axis, index, categories[0]));
        assert(finite_in(n, v, axis, index, 0));
    }
    draws_take_the_greatest_perturbed_logit(n, v, bits, axis, index);
    lemma_pieces(v, bits, axis);
    let row = index.remove(a);
    let rank = signed(n.word_at(draw.indices, row));
    assert(finite_in(n, v, axis, index, rank));
    lemma_relabeled(n, logits, candidates, draw, logits.dims, axis, index, rank);
    lemma_candidates(n, logits, k, axis, index, rank);
    assert(descending(n, logits, axis, index, categories)) by {
        assert forall|q: int, r: int| 0 <= q < r < size implies #[trigger] categories[q]
            != #[trigger] categories[r] && logit_in(n, logits, axis, index, categories[r])
            <= logit_in(n, logits, axis, index, categories[q]) by {
            assert(ranked(n, logits, axis, index, q) != ranked(n, logits, axis, index, r));
        }
    }
    assert(drawn_in_nucleus(n, logits, bits, axis, index, categories, p, rank)) by {
        assert forall|q: int|
            0 <= q < categories.len() && in_nucleus(n, logits, axis, index, categories, p, q)
                && finite_in(
                n,
                logits,
                axis,
                index,
                #[trigger] categories[q],
            ) implies ranked_score(n, logits, bits, axis, index, categories[q], q) <= ranked_score(
            n,
            logits,
            bits,
            axis,
            index,
            categories[rank],
            rank,
        ) by {
            assert(finite_in(n, v, axis, index, q));
        }
    }
    assert(categories[rank] == signed(n.word_at(named_choice.indices, row)));
}

} // verus!
