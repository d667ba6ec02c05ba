//! What the elements of values are as real numbers, operation by operation.
use crate::assignments::{count, kept_index, replaced};
use crate::corners::greater;
use crate::dtype::{is_floating, DType};
use crate::elements::{clamped, copied, origin, ravel, unravel, within, Element};
use crate::graph::{applied, scalar, Expr, Value};
use crate::masks::lemma_pulled;
use crate::op::{
    Binary, Comparison, OpModel, Pool2dOptions, Reduction, Scalar, Unary, F32_HALF, F32_NEG_HALF,
    F32_NEG_ONE, F32_ONE, F32_TWO, F32_ZERO,
};
use crate::overlaps::exact;
use crate::products::pulled;
use crate::shape::gathered;
use crate::words::{bits_of, bitwise};
use vstd::prelude::*;

verus! {

/// A reading of the elements of values as numbers: what the elements of inputs
/// are, which elements are finite, the bits of words, what F32 literals stand
/// for, and the elementary functions.
pub ghost struct Numbers {
    pub read: spec_fn(Element) -> real,
    pub finite: spec_fn(Element) -> bool,
    pub word: spec_fn(Element) -> u32,
    pub literal: spec_fn(u32) -> real,
    pub exp: spec_fn(real) -> real,
    pub log: spec_fn(real) -> real,
    pub sqrt: spec_fn(real) -> real,
    pub erf: spec_fn(real) -> real,
    pub sin: spec_fn(real) -> real,
    pub cos: spec_fn(real) -> real,
    pub rounded: spec_fn(Unary, real) -> real,
}

/// The sum of a list of numbers.
pub open spec fn total(items: Seq<real>) -> real
    decreases items.len(),
{
    if items.len() == 0 {
        0 as real
    } else {
        total(items.drop_last()) + items.last()
    }
}

/// Whether a number is the greatest of a list.
pub open spec fn greatest(items: Seq<real>, a: real) -> bool {
    &&& exists|k: int| 0 <= k < items.len() && #[trigger] items[k] == a
    &&& forall|k: int| 0 <= k < items.len() ==> #[trigger] items[k] <= a
}

/// Whether two numbers compare as an operation asks.
pub open spec fn holds(comparison: Comparison, a: real, b: real) -> bool {
    match comparison {
        Comparison::Equal => a == b,
        Comparison::NotEqual => a != b,
        Comparison::Less => a < b,
        Comparison::LessEqual => a <= b,
        Comparison::Greater => a > b,
        Comparison::GreaterEqual => a >= b,
    }
}

/// One where a condition holds, zero elsewhere.
pub open spec fn indicator(condition: bool) -> real {
    if condition {
        1 as real
    } else {
        0 as real
    }
}

/// The signed number that a word stands for.
pub open spec fn signed(word: u32) -> int {
    if word < 0x8000_0000 {
        word as int
    } else {
        word - 0x1_0000_0000
    }
}

/// A power of two.
pub open spec fn power_of_two(exponent: nat) -> real
    decreases exponent,
{
    if exponent == 0 {
        1 as real
    } else {
        2 as real * power_of_two((exponent - 1) as nat)
    }
}

/// The biased exponent of F32 bits.
pub open spec fn exponent_of(bits: u32) -> int {
    (bits as int / 0x80_0000) % 0x100
}

/// The signed significand of F32 bits, as an integer.
pub open spec fn significand_of(bits: u32) -> int {
    let digits = 0x80_0000 + bits as int % 0x80_0000;
    if bits >= 0x8000_0000 {
        -digits
    } else {
        digits
    }
}

/// Whether a number is the one that normal F32 bits encode.
pub open spec fn encoded(bits: u32, a: real) -> bool {
    let exponent = exponent_of(bits);
    if exponent >= 150 {
        a == significand_of(bits) as real * power_of_two((exponent - 150) as nat)
    } else {
        a * power_of_two((150 - exponent) as nat) == significand_of(bits) as real
    }
}

/// Where an element of a window of NHWC data stands in the source, row by row.
pub open spec fn window_index(options: Pool2dOptions, index: Seq<int>, k: int) -> Seq<int> {
    let columns = options.window.1 as int;
    seq![
        index[0],
        index[1] * options.strides.0 + k / columns - options.padding.0.0,
        index[2] * options.strides.1 + k % columns - options.padding.1.0,
        index[3],
    ]
}

impl Numbers {
    /// The number at an index of a value.
    pub open spec fn of(self, v: Value, index: Seq<int>) -> real {
        (self.read)(origin(v, index))
    }

    /// The number at an index of an expression.
    pub open spec fn at(self, e: Expr, index: Seq<int>) -> real {
        (self.read)(copied(e, index))
    }

    /// The word at an index of an expression.
    pub open spec fn word_at(self, e: Expr, index: Seq<int>) -> u32 {
        (self.word)(copied(e, index))
    }

    /// Whether the element at an index of an expression is finite.
    pub open spec fn finite_at(self, e: Expr, index: Seq<int>) -> bool {
        (self.finite)(copied(e, index))
    }

    /// The logistic function.
    pub open spec fn logistic(self, a: real) -> real {
        1 as real / (1 as real + (self.exp)(-a))
    }

    /// The hyperbolic tangent.
    pub open spec fn tanh(self, a: real) -> real {
        ((self.exp)(a) - (self.exp)(-a)) / ((self.exp)(a) + (self.exp)(-a))
    }

    /// A function of one number.
    pub open spec fn function(self, op: Unary, a: real) -> real {
        match op {
            Unary::Exp => (self.exp)(a),
            Unary::Log => (self.log)(a),
            Unary::Log1p => (self.log)(1 as real + a),
            Unary::Expm1 => (self.exp)(a) - 1 as real,
            Unary::Abs => if a >= 0 as real {
                a
            } else {
                -a
            },
            Unary::Neg => -a,
            Unary::Sqrt => (self.sqrt)(a),
            Unary::Rsqrt => 1 as real / (self.sqrt)(a),
            Unary::Tanh => self.tanh(a),
            Unary::Erf => (self.erf)(a),
            Unary::Sin => (self.sin)(a),
            Unary::Cos => (self.cos)(a),
            _ => (self.rounded)(op, a),
        }
    }

    /// The number that a constant stands for.
    pub open spec fn constant(self, value: Scalar) -> real {
        match value {
            Scalar::Bits(bits) => (self.literal)(bits),
            Scalar::Reciprocal { count } => 1 as real / (count as real),
            Scalar::ReciprocalProduct { a, b } => 1 as real / (a as real * b as real),
            Scalar::ReciprocalSqrt { radicand } => 1 as real / (self.sqrt)(radicand as real),
            Scalar::ReciprocalOf(bits) => 1 as real / (self.literal)(bits),
            Scalar::OneMinus(bits) => 1 as real - (self.literal)(bits),
            Scalar::Negated(bits) => -(self.literal)(bits),
            Scalar::NegatedLog(bits) => -(self.log)((self.literal)(bits)),
            Scalar::Quotient { numerator, divisor } => (self.literal)(numerator) / (divisor as real),
        }
    }

    /// The numbers that a reduction over axes combines, at an index of its
    /// operand.
    pub open spec fn row(self, x: Expr, axes: Seq<usize>, index: Seq<int>) -> Seq<real> {
        let dims = gathered(x->Is_0.dims, axes);
        Seq::new(
            count(dims) as nat,
            |d: int| self.at(x, replaced(index, axes, unravel(dims, d))),
        )
    }

    /// The numbers along one axis, at an index.
    pub open spec fn line(self, x: Expr, axis: usize, index: Seq<int>) -> Seq<real> {
        Seq::new(
            x->Is_0.dims[axis as int] as nat,
            |k: int| self.at(x, index.update(axis as int, k)),
        )
    }

    /// The inner product of a row of one matrix and a column of another.
    pub open spec fn inner(self, xs: (Value, Value), at: Seq<int>, row: int, column: int) -> real {
        total(
            Seq::new(
                xs.0.dims.last() as nat,
                |j: int| self.of(xs.0, at + seq![row, j]) * self.of(xs.1, at + seq![j, column]),
            ),
        )
    }

    /// The score of a key for a query: their inner product, scaled, with the
    /// bias of the pair.
    pub open spec fn score(
        self,
        args: Seq<Value>,
        scale: Scalar,
        at: Seq<int>,
        i: int,
        j: int,
    ) -> real {
        total(
            Seq::new(
                args[0].dims.last() as nat,
                |d: int| self.of(args[0], at + seq![i, d]) * self.of(args[1], at + seq![j, d]),
            ),
        ) * self.constant(scale) + if args.len() == 4 {
            self.of(args[3], at + seq![i, j])
        } else {
            0 as real
        }
    }

    /// The exponentials of the scores of all keys for a query.
    pub open spec fn weights(self, args: Seq<Value>, scale: Scalar, at: Seq<int>, i: int) -> Seq<
        real,
    > {
        Seq::new(
            args[1].dims[args[1].dims.len() - 2] as nat,
            |j: int| (self.exp)(self.score(args, scale, at, i, j)),
        )
    }

    /// The sum of the numbers of a window, where padding counts as zero.
    pub open spec fn window_sum(self, x: Value, options: Pool2dOptions, index: Seq<int>) -> real {
        total(
            Seq::new(
                (options.window.0 * options.window.1) as nat,
                |k: int|
                    if within(x.dims, window_index(options, index, k)) {
                        self.of(x, window_index(options, index, k))
                    } else {
                        0 as real
                    },
            ),
        )
    }

    /// Whether one element of a value is what its operation makes of the
    /// elements of its operands. The index of a reduction is one of its operand.
    #[verifier::opaque]
    pub open spec fn obeys(self, v: Value, index: Seq<int>) -> bool {
        let y = self.of(v, index);
        let x = self.of(v.args[0], index);
        match v.op {
            OpModel::ConstantF32(values) => {
                let value = values[ravel(v.dims, index)];
                y == self.constant(value) && (value matches Scalar::Bits(bits) ==> (self.finite)(
                    origin(v, index),
                ) == (exponent_of(bits) < 255))
            },
            OpModel::ConstantI32(values) => (self.word)(origin(v, index)) == bits_of(
                values[ravel(v.dims, index)],
            ),
            OpModel::Iota { axis } => axis < v.dims.len() && index[axis as int] < 0x8000_0000
                ==> signed((self.word)(origin(v, index))) == index[axis as int],
            OpModel::IndexToFloat => y == signed((self.word)(origin(v.args[0], index))) as real,
            OpModel::IntegerBinary(op) => bitwise(
                op,
                (self.word)(origin(v.args[0], index)),
                (self.word)(origin(v.args[1], index)),
            ) matches Some(word) ==> (self.word)(origin(v, index)) == word,
            OpModel::Bf16ToFloat
            | OpModel::StopGradient
            | OpModel::OptimizationBarrier
            | OpModel::WithGradient
            | OpModel::WithElementwiseDerivative => y == x,
            OpModel::Convert { dtype } => is_floating(dtype) ==> y == x,
            OpModel::Unary(op) => y == self.function(op, x),
            OpModel::Binary(op) => is_floating(v.dtype) ==> y == exact(
                op,
                x,
                self.of(v.args[1], index),
            ),
            OpModel::CompareMask(comparison) => y == indicator(
                holds(comparison, x, self.of(v.args[1], index)),
            ),
            OpModel::IndexLessEqualMask => y == indicator(
                signed((self.word)(origin(v.args[0], index))) <= signed(
                    (self.word)(origin(v.args[1], index)),
                ),
            ),
            OpModel::IsFiniteMask => y == indicator((self.finite)(origin(v.args[0], index))),
            OpModel::Select => {
                let branch = if x != 0 as real {
                    origin(v.args[1], index)
                } else {
                    origin(v.args[2], index)
                };
                y == (self.read)(branch) && (self.word)(origin(v, index)) == (self.word)(branch)
                    && (self.finite)(origin(v, index)) == (self.finite)(branch)
            },
            OpModel::Relu => y == greater(x, 0 as real),
            OpModel::Softplus => y == (self.log)(1 as real + (self.exp)(x)),
            OpModel::Sigmoid => y == self.logistic(x),
            OpModel::Reduce { kind, axes } => {
                let row = self.row(Expr::Is(v.args[0]), axes, index);
                let z = self.of(v, kept_index(index, axes));
                match kind {
                    Reduction::Sum => z == total(row),
                    Reduction::Maximum => row.len() > 0 ==> greatest(row, z),
                }
            },
            OpModel::SumPool2d(options) => y == self.window_sum(v.args[0], options, index),
            OpModel::Cumsum { axis } => y == total(
                self.line(Expr::Is(v.args[0]), axis, index).take(index[axis as int] + 1),
            ),
            OpModel::Matmul { .. } => y == self.inner(
                (v.args[0], v.args[1]),
                index.take(index.len() - 2),
                index[index.len() - 2],
                index[index.len() - 1],
            ),
            OpModel::Attention { scale } => {
                let at = index.take(index.len() - 2);
                let weights = self.weights(v.args, scale, at, index[index.len() - 2]);
                y * total(weights) == total(
                    Seq::new(
                        weights.len(),
                        |j: int|
                            weights[j] * self.of(v.args[2], at + seq![j, index[index.len() - 1]]),
                    ),
                )
            },
            OpModel::TakeAlongAxis { axis } => {
                let at = signed((self.word)(origin(v.args[1], index)));
                let source = origin(
                    v.args[0],
                    index.update(
                        axis as int,
                        clamped(at, v.args[0].dims[axis as int] as int),
                    ),
                );
                y == (self.read)(source) && (self.word)(origin(v, index)) == (self.word)(source)
                    && (self.finite)(origin(v, index)) == (self.finite)(source)
            },
            OpModel::ArgMax { axis } => {
                let line = self.line(Expr::Is(v.args[0]), axis, index);
                let k = signed((self.word)(origin(v, index.remove(axis as int))));
                axis < v.args[0].dims.len() && line.len() < 0x8000_0000 ==> 0 <= k < line.len()
                    && greatest(line, line[k])
            },
            OpModel::SortedIndices { axis, descending } => {
                let line = self.line(Expr::Is(v.args[0]), axis, index);
                let place = |at: int|
                    signed((self.word)(origin(v, index.update(axis as int, at))));
                let here = place(index[axis as int]);
                axis < v.dims.len() && v.args[0].dims == v.dims && line.len() < 0x8000_0000 ==> {
                    &&& 0 <= here < line.len()
                    &&& signed((self.word)(origin(v, index))) == here
                    &&& forall|later: int|
                        index[axis as int] < later < line.len() ==> {
                            let there = #[trigger] place(later);
                            &&& there != here
                            &&& 0 <= there < line.len()
                            &&& if descending {
                                line[there] <= line[here]
                            } else {
                                line[here] <= line[there]
                            }
                        }
                }
            },
            _ => true,
        }
    }

    /// The index at which one element of a value is constrained.
    pub open spec fn applies(self, v: Value, index: Seq<int>) -> bool {
        match v.op {
            OpModel::Reduce { .. } | OpModel::ArgMax { .. } => within(v.args[0].dims, index),
            _ => within(v.dims, index),
        }
    }

    /// Whether every operation acts on numbers as it should.
    pub open spec fn computes(self) -> bool {
        forall|v: Value, index: Seq<int>|
            self.applies(v, index) ==> #[trigger] self.obeys(v, index)
    }

    /// Whether the exponential and the logarithm are what they are called.
    pub open spec fn exponential(self) -> bool {
        &&& forall|a: real| #[trigger] (self.exp)(a) > 0 as real
        &&& forall|a: real, b: real| #[trigger] (self.exp)(a + b) == (self.exp)(a) * (self.exp)(b)
        &&& (self.exp)(0 as real) == 1 as real
        &&& forall|a: real, b: real| a < b ==> #[trigger] (self.exp)(a) < #[trigger] (self.exp)(b)
        &&& forall|a: real| #[trigger] (self.log)((self.exp)(a)) == a
        &&& forall|a: real| a > 0 as real ==> (self.exp)(#[trigger] (self.log)(a)) == a
    }

    /// Whether the square root is what it is called.
    pub open spec fn rooted(self) -> bool {
        forall|a: real|
            a >= 0 as real ==> #[trigger] (self.sqrt)(a) >= 0 as real && (self.sqrt)(a) * (self.sqrt)(
                a,
            ) == a
    }

    /// Whether literals stand for the numbers they are.
    pub open spec fn literals(self) -> bool {
        &&& (self.literal)(F32_ZERO) == 0 as real
        &&& (self.literal)(F32_ONE) == 1 as real
        &&& (self.literal)(F32_NEG_ONE) == -(1 as real)
        &&& (self.literal)(F32_TWO) == 2 as real
        &&& 2 as real * (self.literal)(F32_HALF) == 1 as real
        &&& 2 as real * (self.literal)(F32_NEG_HALF) == -(1 as real)
        &&& forall|bits: u32|
            1 <= exponent_of(bits) <= 254 ==> encoded(bits, #[trigger] (self.literal)(bits))
    }

    /// Whether the reading is one of exact arithmetic.
    pub open spec fn lawful(self) -> bool {
        self.computes() && self.exponential() && self.rooted() && self.literals()
    }
}

/// The powers of two that small constants are scaled by.
pub(crate) proof fn lemma_powers()
    ensures
        power_of_two(23) == 8388608 as real,
        power_of_two(24) == 16777216 as real,
        power_of_two(25) == 33554432 as real,
        power_of_two(21) == 2097152 as real,
        power_of_two(22) == 4194304 as real,
        power_of_two(28) == 268435456 as real,
{
    reveal_with_fuel(power_of_two, 29);
}

pub broadcast proof fn unary_operand(x: Expr, op: Unary)
    ensures
        (#[trigger] x.unary(op)) matches Expr::Is(z) ==> x is Is && x->Is_0.dtype == DType::F32
            && z.dtype == DType::F32,
{
    reveal(applied);
}

pub broadcast proof fn binary_operands(x: Expr, y: Expr, op: Binary)
    ensures
        (#[trigger] x.binary(y, op)) matches Expr::Is(z) ==> x is Is && y is Is && y->Is_0.graph
            == x->Is_0.graph && y->Is_0.dims == x->Is_0.dims && y->Is_0.dtype == x->Is_0.dtype
            && z.dtype == x->Is_0.dtype,
{
    reveal(applied);
}

pub broadcast proof fn compared_operands(x: Expr, y: Expr, comparison: Comparison)
    ensures
        (#[trigger] x.compared(y, comparison)) matches Expr::Is(z) ==> x is Is && y is Is
            && y->Is_0.dims == x->Is_0.dims && z.dtype == DType::F32 && z.dims == x->Is_0.dims,
{
    reveal(applied);
}

pub broadcast proof fn le_operands(x: Expr, y: Expr)
    ensures
        (#[trigger] x.le_mask(y)) matches Expr::Is(z) ==> x is Is && y is Is && y->Is_0.dims
            == x->Is_0.dims && z.dtype == DType::F32 && z.dims == x->Is_0.dims && z.graph
            == x->Is_0.graph,
{
    reveal(applied);
}

pub broadcast proof fn select_operands(m: Expr, x: Expr, y: Expr)
    ensures
        (#[trigger] m.select(x, y)) matches Expr::Is(z) ==> m is Is && x is Is && y is Is
            && m->Is_0.dtype == DType::F32 && x->Is_0.dims == m->Is_0.dims && y->Is_0.dims
            == m->Is_0.dims && z.dtype == x->Is_0.dtype && y->Is_0.dtype == x->Is_0.dtype,
{
    reveal(applied);
}

/// Operations of one F32 operand that keep its extents.
pub open spec fn shaped_float(op: OpModel) -> bool {
    op is Relu || op is Softplus || op is Sigmoid || op is IsFiniteMask
}

pub broadcast proof fn same_shaped_operand(x: Expr, op: OpModel)
    ensures
        (#[trigger] x.same_shaped(op)) matches Expr::Is(z) ==> x is Is && (shaped_float(op) ==> z.dtype
            == DType::F32 && x->Is_0.dtype == DType::F32) && (op is StopGradient
            || op is OptimizationBarrier ==> z.dtype == x->Is_0.dtype),
{
    reveal(applied);
}

pub broadcast proof fn spread_type(x: Expr, dims: Seq<i64>)
    ensures
        (#[trigger] x.broadcast_to(dims)) matches Expr::Is(z) ==> x is Is && z.dtype
            == x->Is_0.dtype,
{
    reveal(applied);
}

pub broadcast proof fn placed_type(x: Expr, dims: Seq<i64>, axes: Seq<usize>)
    ensures
        (#[trigger] x.broadcast_in_dim(dims, axes)) matches Expr::Is(z) ==> x is Is && z.dtype
            == x->Is_0.dtype,
{
    reveal(applied);
}

pub broadcast proof fn reshape_type(x: Expr, dims: Seq<i64>)
    ensures
        (#[trigger] x.reshape(dims)) matches Expr::Is(z) ==> x is Is && z.dtype == x->Is_0.dtype,
{
    reveal(applied);
}

pub broadcast proof fn filled_type(x: Expr, value: Scalar)
    ensures
        (#[trigger] x.filled(value)) matches Expr::Is(z) ==> x is Is && z.dtype == DType::F32,
{
    reveal(Expr::filled);
    reveal(applied);
}

#[verifier::rlimit(40)]
pub broadcast proof fn add_scalar_type(x: Expr, value: Scalar)
    ensures
        (#[trigger] x.add_scalar(value)) matches Expr::Is(z) ==> x is Is && x->Is_0.dtype
            == DType::F32 && z.dtype == DType::F32,
{
    reveal(Expr::add_scalar);
    broadcast use {filled_type, binary_operands};

}

#[verifier::rlimit(40)]
pub broadcast proof fn mul_scalar_type(x: Expr, value: Scalar)
    ensures
        (#[trigger] x.mul_scalar(value)) matches Expr::Is(z) ==> x is Is && x->Is_0.dtype
            == DType::F32 && z.dtype == DType::F32,
{
    reveal(Expr::mul_scalar);
    broadcast use {filled_type, binary_operands};

}

pub broadcast proof fn reduce_type(x: Expr, kind: Reduction, axes: Seq<usize>, keepdims: bool)
    ensures
        (#[trigger] x.reduce(kind, axes, keepdims)) matches Expr::Is(z) ==> x is Is && z.dtype
            == x->Is_0.dtype && (axes.len() > 0 ==> x->Is_0.dtype == DType::F32),
{
    reveal(Expr::reduce);
    reveal(applied);
}

#[verifier::rlimit(40)]
pub broadcast proof fn mean_type(x: Expr, axes: Seq<usize>, keepdims: bool)
    ensures
        (#[trigger] x.mean(axes, keepdims)) matches Expr::Is(z) ==> x is Is && x->Is_0.dtype
            == DType::F32 && z.dtype == DType::F32,
{
    reveal(Expr::mean);
    broadcast use {reduce_type, mul_scalar_type};

}

/// What a construction that succeeded was made of.
pub broadcast group group_operands {
    unary_operand,
    binary_operands,
    compared_operands,
    le_operands,
    select_operands,
    same_shaped_operand,
    spread_type,
    placed_type,
    reshape_type,
    filled_type,
    add_scalar_type,
    mul_scalar_type,
    reduce_type,
    mean_type,
}

pub broadcast proof fn unary_number(n: Numbers, x: Expr, op: Unary, index: Seq<int>)
    requires
        n.computes(),
        x.unary(op) is Is,
        within(x->Is_0.dims, index),
    ensures
        #[trigger] n.at(x.unary(op), index) == n.function(op, n.at(x, index)),
{
    reveal(applied);
    reveal(Numbers::obeys);
    assert(n.obeys(x.unary(op)->Is_0, index));
}

pub broadcast proof fn binary_number(n: Numbers, x: Expr, y: Expr, op: Binary, index: Seq<int>)
    requires
        n.computes(),
        x.binary(y, op) is Is,
        is_floating(x->Is_0.dtype),
        within(x->Is_0.dims, index),
    ensures
        #[trigger] n.at(x.binary(y, op), index) == exact(op, n.at(x, index), n.at(y, index)),
{
    reveal(applied);
    reveal(Numbers::obeys);
    assert(n.obeys(x.binary(y, op)->Is_0, index));
}

pub broadcast proof fn compared_number(
    n: Numbers,
    x: Expr,
    y: Expr,
    comparison: Comparison,
    index: Seq<int>,
)
    requires
        n.computes(),
        x.compared(y, comparison) is Is,
        within(x->Is_0.dims, index),
    ensures
        #[trigger] n.at(x.compared(y, comparison), index) == indicator(
            holds(comparison, n.at(x, index), n.at(y, index)),
        ),
{
    reveal(applied);
    reveal(Numbers::obeys);
    assert(n.obeys(x.compared(y, comparison)->Is_0, index));
}

pub broadcast proof fn le_number(n: Numbers, x: Expr, y: Expr, index: Seq<int>)
    requires
        n.computes(),
        x.le_mask(y) is Is,
        within(x->Is_0.dims, index),
    ensures
        #[trigger] n.at(x.le_mask(y), index) == indicator(
            if x->Is_0.dtype == DType::I32 {
                signed(n.word_at(x, index)) <= signed(n.word_at(y, index))
            } else {
                n.at(x, index) <= n.at(y, index)
            },
        ),
{
    reveal(applied);
    reveal(Numbers::obeys);
    assert(n.obeys(x.le_mask(y)->Is_0, index));
}

pub broadcast proof fn select_number(n: Numbers, m: Expr, x: Expr, y: Expr, index: Seq<int>)
    requires
        n.computes(),
        m.select(x, y) is Is,
        within(m->Is_0.dims, index),
    ensures
        #[trigger] n.at(m.select(x, y), index) == if n.at(m, index) != 0 as real {
            n.at(x, index)
        } else {
            n.at(y, index)
        },
{
    reveal(applied);
    reveal(Numbers::obeys);
    assert(n.obeys(m.select(x, y)->Is_0, index));
}

/// Operations of one operand that keep its extents and act on each number.
pub open spec fn shaped_number(n: Numbers, op: OpModel, a: Element) -> Option<real> {
    let x = (n.read)(a);
    match op {
        OpModel::Relu => Some(greater(x, 0 as real)),
        OpModel::Softplus => Some((n.log)(1 as real + (n.exp)(x))),
        OpModel::Sigmoid => Some(n.logistic(x)),
        OpModel::StopGradient | OpModel::OptimizationBarrier => Some(x),
        OpModel::IsFiniteMask => Some(indicator((n.finite)(a))),
        _ => None,
    }
}

pub broadcast proof fn same_shaped_number(n: Numbers, x: Expr, op: OpModel, index: Seq<int>)
    requires
        n.computes(),
        x.same_shaped(op) is Is,
        within(x->Is_0.dims, index),
    ensures
        shaped_number(n, op, copied(x, index)) matches Some(y) ==> #[trigger] n.at(
            x.same_shaped(op),
            index,
        ) == y,
{
    reveal(applied);
    reveal(Numbers::obeys);
    if shaped_number(n, op, copied(x, index)) is Some {
        assert(n.obeys(x.same_shaped(op)->Is_0, index));
    }
}

pub broadcast proof fn to_f32_number(n: Numbers, x: Expr, index: Seq<int>)
    requires
        n.computes(),
        x.to_f32() is Is,
        within(x->Is_0.dims, index),
    ensures
        #[trigger] n.at(x.to_f32(), index) == if x->Is_0.dtype == DType::I32 {
            signed(n.word_at(x, index)) as real
        } else {
            n.at(x, index)
        },
{
    reveal(applied);
    reveal(Numbers::obeys);
    if x->Is_0.dtype != DType::F32 {
        assert(n.obeys(x.to_f32()->Is_0, index));
    }
}

/// A scalar constant is the number that it stands for.
pub proof fn scalar_number(n: Numbers, graph: u64, value: Scalar)
    requires
        n.computes(),
        scalar(graph, value) is Is,
    ensures
        n.at(scalar(graph, value), Seq::empty()) == n.constant(value),
{
    reveal(applied);
    reveal(Numbers::obeys);
    let v = scalar(graph, value)->Is_0;
    assert(n.obeys(v, Seq::empty()));
}

pub broadcast proof fn spread_number(n: Numbers, x: Expr, dims: Seq<i64>, index: Seq<int>)
    requires
        x.broadcast_to(dims) is Is,
        within(dims, index),
        dims.len() <= usize::MAX,
    ensures
        #[trigger] n.at(x.broadcast_to(dims), index) == n.at(x, pulled(x->Is_0.dims, index)),
{
    lemma_pulled(x, dims, index);
}

pub broadcast proof fn filled_number(n: Numbers, x: Expr, value: Scalar, index: Seq<int>)
    requires
        n.computes(),
        x.filled(value) is Is,
        within(x->Is_0.dims, index),
        x->Is_0.dims.len() <= usize::MAX,
    ensures
        #[trigger] n.at(x.filled(value), index) == n.constant(value),
{
    reveal(Expr::filled);
    let one = scalar(x->Is_0.graph, value);
    assert(one is Is && one->Is_0.dims.len() == 0) by {
        reveal(applied);
    }
    lemma_pulled(one, x->Is_0.dims, index);
    assert(pulled(one->Is_0.dims, index) =~= Seq::empty());
    scalar_number(n, x->Is_0.graph, value);
}

pub broadcast proof fn add_scalar_number(n: Numbers, x: Expr, value: Scalar, index: Seq<int>)
    requires
        n.computes(),
        x.add_scalar(value) is Is,
        within(x->Is_0.dims, index),
        x->Is_0.dims.len() <= usize::MAX,
    ensures
        #[trigger] n.at(x.add_scalar(value), index) == n.at(x, index) + n.constant(value),
{
    reveal(Expr::add_scalar);
    filled_number(n, x, value, index);
    add_scalar_type(x, value);
    binary_number(n, x, x.filled(value), Binary::Add, index);
}

pub broadcast proof fn mul_scalar_number(n: Numbers, x: Expr, value: Scalar, index: Seq<int>)
    requires
        n.computes(),
        x.mul_scalar(value) is Is,
        within(x->Is_0.dims, index),
        x->Is_0.dims.len() <= usize::MAX,
    ensures
        #[trigger] n.at(x.mul_scalar(value), index) == n.at(x, index) * n.constant(value),
{
    reveal(Expr::mul_scalar);
    filled_number(n, x, value, index);
    mul_scalar_type(x, value);
    binary_number(n, x, x.filled(value), Binary::Mul, index);
}

/// The numbers of elementwise operations.
pub broadcast group group_numbers {
    unary_number,
    binary_number,
    compared_number,
    le_number,
    select_number,
    same_shaped_number,
    to_f32_number,
    filled_number,
    add_scalar_number,
    mul_scalar_number,
}

} // verus!
