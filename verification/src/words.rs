//! What integer operations compute, element by element, and with it what the
//! random blocks hold.
use crate::dtype::DType;
use crate::elements::{narrowed_index, ravel, unravel};
use crate::graph::{applied, iota, scalar, scalar_i32, typed, Expr, Value};
use crate::op::{Binary, IntegerBinary, OpModel, Scalar, Unary, F32_ONE, F32_ZERO};
use crate::random::{
    advanced, blocks_of, drawn, lanes_of, lemma_round_failed, rotation, schedule, threefry2x32_of,
    unsigned_less, Duo, THREEFRY_PARITY,
};
use crate::random_state::{acceptance, word, SequenceModel};
use crate::shape::volume;
use vstd::prelude::*;

verus! {

/// `-0` in F32.
pub const F32_NEG_ZERO: u32 = 0x8000_0000;

/// `-1` in F32.
pub const F32_NEG_ONE: u32 = 0xbf80_0000;

/// The elements of a program's tensors, as their bits: those that integer
/// operations do not determine, and how F32 sums, products and logarithms
/// round.
pub ghost struct Contents {
    pub free: spec_fn(Value, int) -> u32,
    pub sum: spec_fn(u32, u32) -> u32,
    pub product: spec_fn(u32, u32) -> u32,
    pub log: spec_fn(u32) -> u32,
}

/// The bits of an I32 value.
pub open spec fn bits_of(value: i32) -> u32 {
    if value >= 0 {
        value as u32
    } else {
        (value + 0x1_0000_0000) as u32
    }
}

/// A number modulo 2^32.
pub open spec fn wrapped(number: int) -> u32 {
    (number % 0x1_0000_0000) as u32
}

/// A bitwise operation on two words.
pub open spec fn bitwise(op: IntegerBinary, a: u32, b: u32) -> Option<u32> {
    match op {
        IntegerBinary::And => Some(a & b),
        IntegerBinary::Or => Some(a | b),
        IntegerBinary::Xor => Some(a ^ b),
        IntegerBinary::ShiftLeft => if b < 32 {
            Some(a << b)
        } else {
            None
        },
        IntegerBinary::ShiftRightLogical => if b < 32 {
            Some(a >> b)
        } else {
            None
        },
        IntegerBinary::ShiftRightArithmetic => None,
    }
}

/// A mask of one or zero.
pub open spec fn mask(set: bool) -> u32 {
    if set {
        F32_ONE
    } else {
        F32_ZERO
    }
}

/// Starts moved to the nearest ones at which a region of the given sizes lies
/// within the extents.
pub open spec fn clamped(starts: Seq<int>, dims: Seq<i64>, sizes: Seq<i64>) -> Seq<int> {
    Seq::new(
        dims.len(),
        |axis: int|
            if starts[axis] < 0 {
                0
            } else if starts[axis] > dims[axis] - sizes[axis] {
                dims[axis] - sizes[axis]
            } else {
                starts[axis]
            },
    )
}

/// Whether an index lies in the region of given sizes at a corner.
pub open spec fn covered(corner: Seq<int>, sizes: Seq<i64>, index: Seq<int>) -> bool {
    forall|axis: int|
        0 <= axis < index.len() ==> corner[axis] <= #[trigger] index[axis] < corner[axis]
            + sizes[axis]
}

/// An index of a region, counted from the origin.
pub open spec fn shifted(index: Seq<int>, corner: Seq<int>) -> Seq<int> {
    Seq::new(index.len(), |axis: int| index[axis] + corner[axis])
}

/// An index counted from a corner.
pub open spec fn moved(index: Seq<int>, corner: Seq<int>) -> Seq<int> {
    Seq::new(index.len(), |axis: int| index[axis] - corner[axis])
}

impl Contents {
    /// An elementwise operation on two elements of one type.
    pub open spec fn combined(self, op: Binary, dtype: DType, a: u32, b: u32) -> Option<u32> {
        match (op, dtype) {
            (Binary::Add, DType::I32) => Some(wrapped(a + b)),
            (Binary::Sub, DType::I32) => Some(wrapped(a - b)),
            (Binary::Mul, DType::I32) => Some(wrapped(a * b)),
            (Binary::Add, DType::F32) => Some((self.sum)(a, b)),
            (Binary::Mul, DType::F32) => Some((self.product)(a, b)),
            _ => None,
        }
    }

    /// The bits of the element of a value at a row-major position.
    #[verifier::opaque]
    pub open spec fn at(self, v: Value, position: int) -> u32
        decreases v, v.args.len() + 1,
    {
        let free = (self.free)(v, position);
        match v.op {
            OpModel::ConstantI32(values) => bits_of(values[position]),
            OpModel::ConstantF32(values) => match values[position] {
                Scalar::Bits(bits) => bits,
                _ => free,
            },
            OpModel::Iota { axis } => if v.dims.len() == 1 {
                wrapped(position)
            } else {
                free
            },
            OpModel::Reshape => if v.args.len() == 1 {
                self.at(v.args[0], position)
            } else {
                free
            },
            OpModel::StopGradient => if v.args.len() == 1 {
                self.at(v.args[0], position)
            } else {
                free
            },
            OpModel::DynamicSlice => if v.args.len() == v.dims.len() + 1 {
                let x = v.args[0];
                let corner = clamped(self.starts_of(v, 1, v.dims.len()), x.dims, v.dims);
                self.at(x, ravel(x.dims, shifted(unravel(v.dims, position), corner)))
            } else {
                free
            },
            OpModel::DynamicUpdateSlice => if v.args.len() == v.dims.len() + 2 {
                let sizes = v.args[1].dims;
                let corner = clamped(self.starts_of(v, 2, v.dims.len()), v.dims, sizes);
                let index = unravel(v.dims, position);
                if covered(corner, sizes, index) {
                    self.at(v.args[1], ravel(sizes, moved(index, corner)))
                } else {
                    self.at(v.args[0], position)
                }
            } else {
                free
            },
            OpModel::Broadcast { axes } => if v.args.len() == 1 {
                let x = v.args[0];
                self.at(
                    x,
                    ravel(x.dims, narrowed_index(x.dims, axes, unravel(v.dims, position))),
                )
            } else {
                free
            },
            OpModel::Unary(Unary::Log) => if v.args.len() == 1 && v.dtype == DType::F32 {
                (self.log)(self.at(v.args[0], position))
            } else {
                free
            },
            OpModel::Unary(Unary::Neg) => if v.args.len() == 1 && v.dtype == DType::F32 {
                self.at(v.args[0], position) ^ 0x8000_0000
            } else {
                free
            },
            OpModel::Binary(op) => if v.args.len() == 2 {
                match self.combined(
                    op,
                    v.dtype,
                    self.at(v.args[0], position),
                    self.at(v.args[1], position),
                ) {
                    Some(bits) => bits,
                    None => free,
                }
            } else {
                free
            },
            OpModel::IntegerBinary(op) => if v.args.len() == 2 {
                match bitwise(op, self.at(v.args[0], position), self.at(v.args[1], position)) {
                    Some(bits) => bits,
                    None => free,
                }
            } else {
                free
            },
            OpModel::IndexLessEqualMask => if v.args.len() == 2 {
                mask(
                    word(self.at(v.args[0], position)) <= word(self.at(v.args[1], position)),
                )
            } else {
                free
            },
            OpModel::Select => if v.args.len() == 3 {
                let chosen = self.at(v.args[0], position);
                if chosen == F32_ZERO || chosen == F32_NEG_ZERO {
                    self.at(v.args[2], position)
                } else {
                    self.at(v.args[1], position)
                }
            } else {
                free
            },
            _ => free,
        }
    }

    /// The runtime starts of the first `count` axes of a region, which follow
    /// `skip` other operands.
    pub open spec fn starts_of(self, v: Value, skip: nat, count: nat) -> Seq<int>
        decreases v, count,
    {
        if count == 0 || count + skip > v.args.len() {
            Seq::empty()
        } else {
            self.starts_of(v, skip, (count - 1) as nat).push(
                word(self.at(v.args[count + skip - 1], 0)) as int,
            )
        }
    }

    /// The bits of the element of an expression at a row-major position.
    pub open spec fn of(self, e: Expr, position: int) -> u32 {
        self.at(e->Is_0, position)
    }

    /// Sums and products of the numbers zero and one are exact.
    pub open spec fn exact(self) -> bool {
        &&& (self.sum)(F32_NEG_ONE, F32_ONE) == F32_ZERO
        &&& (self.sum)(F32_NEG_ZERO, F32_ONE) == F32_ONE
        &&& (self.product)(F32_ONE, F32_ONE) == F32_ONE
        &&& (self.product)(F32_ONE, F32_ZERO) == F32_ZERO
        &&& (self.product)(F32_ZERO, F32_ONE) == F32_ZERO
        &&& (self.product)(F32_ZERO, F32_ZERO) == F32_ZERO
    }
}

/// Whether extents have an element at a row-major position.
pub open spec fn inside(dims: Seq<i64>, position: int) -> bool {
    volume(dims) matches Some(count) && 0 <= position < count
}

pub(crate) proof fn lemma_add(c: Contents, x: Expr, y: Expr, position: int)
    requires
        x.wrapping_add(y) is Is,
    ensures
        x is Is,
        y is Is,
        x->Is_0.dtype == DType::I32,
        y->Is_0.dtype == DType::I32,
        x.wrapping_add(y)->Is_0.dtype == DType::I32,
        x.wrapping_add(y)->Is_0.dims == x->Is_0.dims,
        x.wrapping_add(y)->Is_0.graph == x->Is_0.graph,
        c.of(x.wrapping_add(y), position) == wrapped(c.of(x, position) + c.of(y, position)),
{
    reveal(Contents::at);
    reveal(typed);
}

proof fn lemma_bitwise(c: Contents, x: Expr, y: Expr, op: IntegerBinary, position: int)
    requires
        x.integer_binary(y, op) is Is,
    ensures
        x is Is,
        y is Is,
        x->Is_0.dtype == DType::I32,
        x.integer_binary(y, op)->Is_0.dtype == DType::I32,
        x.integer_binary(y, op)->Is_0.dims == x->Is_0.dims,
        x.integer_binary(y, op)->Is_0.graph == x->Is_0.graph,
        bitwise(op, c.of(x, position), c.of(y, position)) matches Some(bits) ==> c.of(
            x.integer_binary(y, op),
            position,
        ) == bits,
{
    reveal(Contents::at);
    reveal(typed);
}

/// A scalar broadcast to a shape holds its one element everywhere.
pub(crate) proof fn lemma_broadcast(c: Contents, x: Expr, dims: Seq<i64>, position: int)
    requires
        x.broadcast_to(dims) is Is,
        x->Is_0.dims.len() == 0,
        inside(dims, position),
    ensures
        x is Is,
        x.broadcast_to(dims)->Is_0.dims == dims,
        x.broadcast_to(dims)->Is_0.graph == x->Is_0.graph,
        x.broadcast_to(dims)->Is_0.dtype == x->Is_0.dtype,
        c.of(x.broadcast_to(dims), position) == c.of(x, 0),
{
    reveal(Contents::at);
    reveal(applied);
}

pub(crate) proof fn lemma_constant(c: Contents, graph: u64, value: i32)
    requires
        scalar_i32(graph, value) is Is,
    ensures
        scalar_i32(graph, value)->Is_0.dims.len() == 0,
        scalar_i32(graph, value)->Is_0.graph == graph,
        scalar_i32(graph, value)->Is_0.dtype == DType::I32,
        c.of(scalar_i32(graph, value), 0) == bits_of(value),
{
    reveal(Contents::at);
    reveal(typed);
}

pub(crate) proof fn lemma_filled(c: Contents, x: Expr, value: i32, position: int)
    requires
        x.filled_i32(value) is Is,
        inside(x->Is_0.dims, position),
    ensures
        x is Is,
        x.filled_i32(value)->Is_0.dims == x->Is_0.dims,
        c.of(x.filled_i32(value), position) == bits_of(value),
{
    let graph = x->Is_0.graph;
    assert(scalar_i32(graph, value) is Is);
    lemma_constant(c, graph, value);
    lemma_broadcast(c, scalar_i32(graph, value), x->Is_0.dims, position);
}

/// Integer operations act on each word: arithmetic is modulo 2^32, constants are
/// the same everywhere, shifts discard what leaves the word, and the complement
/// flips every bit.
pub proof fn integer_operations_act_on_words(
    c: Contents,
    x: Expr,
    y: Expr,
    value: i32,
    bits: u32,
    position: int,
)
    requires
        x is Is,
        inside(x->Is_0.dims, position),
    ensures
        x.wrapping_add(y) is Is ==> c.of(x.wrapping_add(y), position) == wrapped(
            c.of(x, position) + c.of(y, position),
        ),
        x.wrapping_sub(y) is Is ==> c.of(x.wrapping_sub(y), position) == wrapped(
            c.of(x, position) - c.of(y, position),
        ),
        x.wrapping_mul(y) is Is ==> c.of(x.wrapping_mul(y), position) == wrapped(
            c.of(x, position) * c.of(y, position),
        ),
        x.wrapping_add_scalar(value) is Is ==> c.of(x.wrapping_add_scalar(value), position)
            == wrapped(c.of(x, position) + bits_of(value)),
        x.bitwise_and(y) is Is ==> c.of(x.bitwise_and(y), position) == c.of(x, position) & c.of(
            y,
            position,
        ),
        x.bitwise_or(y) is Is ==> c.of(x.bitwise_or(y), position) == c.of(x, position) | c.of(
            y,
            position,
        ),
        x.bitwise_xor(y) is Is ==> c.of(x.bitwise_xor(y), position) == c.of(x, position) ^ c.of(
            y,
            position,
        ),
        x.bitwise_not() is Is ==> c.of(x.bitwise_not(), position) == !c.of(x, position),
        x.shift_left(bits) is Is ==> bits < 32 && c.of(x.shift_left(bits), position) == c.of(
            x,
            position,
        ) << bits,
        x.shift_right_logical(bits) is Is ==> bits < 32 && c.of(
            x.shift_right_logical(bits),
            position,
        ) == c.of(x, position) >> bits,
{
    if x.wrapping_add(y) is Is {
        lemma_add(c, x, y, position);
    }
    assert(x.wrapping_sub(y) is Is ==> c.of(x.wrapping_sub(y), position) == wrapped(
        c.of(x, position) - c.of(y, position),
    )) by {
        reveal(Contents::at);
        reveal(typed);
    }
    assert(x.wrapping_mul(y) is Is ==> c.of(x.wrapping_mul(y), position) == wrapped(
        c.of(x, position) * c.of(y, position),
    )) by {
        reveal(Contents::at);
        reveal(typed);
    }
    if x.wrapping_add_scalar(value) is Is {
        reveal(Expr::wrapping_add_scalar);
        lemma_add(c, x, x.filled_i32(value), position);
        lemma_filled(c, x, value, position);
    }
    if x.bitwise_and(y) is Is {
        lemma_bitwise(c, x, y, IntegerBinary::And, position);
    }
    if x.bitwise_or(y) is Is {
        lemma_bitwise(c, x, y, IntegerBinary::Or, position);
    }
    if x.bitwise_xor(y) is Is {
        lemma_bitwise(c, x, y, IntegerBinary::Xor, position);
    }
    if x.bitwise_not() is Is {
        let ones = x.filled_i32(-1i32);
        lemma_bitwise(c, x, ones, IntegerBinary::Xor, position);
        lemma_filled(c, x, -1i32, position);
        let word = c.of(x, position);
        assert(word ^ 0xffff_ffffu32 == !word) by (bit_vector);
    }
    if x.shift_left(bits) is Is {
        lemma_bitwise(c, x, x.filled_i32(bits as i32), IntegerBinary::ShiftLeft, position);
        lemma_filled(c, x, bits as i32, position);
    }
    if x.shift_right_logical(bits) is Is {
        lemma_bitwise(c, x, x.filled_i32(bits as i32), IntegerBinary::ShiftRightLogical, position);
        lemma_filled(c, x, bits as i32, position);
    }
}

/// A word rotated to the left.
pub open spec fn rotated(x: u32, bits: u32) -> u32 {
    (x << bits) | (x >> ((32 - bits) as u32))
}

/// One mixing step of Threefry: an addition, a rotation and an exclusive or.
pub open spec fn mixed_words(x: (u32, u32), bits: u32) -> (u32, u32) {
    let sum = wrapped(x.0 + x.1);
    (sum, rotated(x.1, bits) ^ sum)
}

/// A word of the Threefry key schedule: the key words and their parity, in
/// turn.
pub open spec fn key_word(key: (u32, u32), index: nat) -> u32 {
    if index % 3 == 0 {
        key.0
    } else if index % 3 == 1 {
        key.1
    } else {
        key.0 ^ key.1 ^ 0x1bd1_1bda
    }
}

/// One round of Threefry: a mixing step, with a key injection after every
/// fourth.
pub open spec fn round_words(x: (u32, u32), key: (u32, u32), round: nat) -> (u32, u32) {
    let mixed = mixed_words(x, rotation(round));
    if (round + 1) % 4 == 0 {
        let injection = (round + 1) / 4;
        (
            wrapped(mixed.0 + key_word(key, injection)),
            wrapped(mixed.1 + key_word(key, injection + 1) + injection),
        )
    } else {
        mixed
    }
}

/// The first `count` rounds of Threefry.
pub open spec fn rounds_words(x: (u32, u32), key: (u32, u32), count: nat) -> (u32, u32)
    decreases count,
{
    if count == 0 {
        x
    } else {
        round_words(rounds_words(x, key, (count - 1) as nat), key, (count - 1) as nat)
    }
}

/// The block of a key and a counter: twenty rounds on the counter words, each
/// with a key word added.
pub open spec fn block(key: (u32, u32), counter: (u32, u32)) -> (u32, u32) {
    rounds_words((wrapped(counter.0 + key.0), wrapped(counter.1 + key.1)), key, 20)
}

/// Whether a pair of expressions holds a pair of words at a position.
pub open spec fn holds(c: Contents, duo: Duo, position: int, words: (u32, u32)) -> bool {
    &&& c.of(duo.first, position) == words.0
    &&& c.of(duo.second, position) == words.1
}

proof fn lemma_shift_left(c: Contents, x: Expr, bits: u32, position: int)
    requires
        x.shift_left(bits) is Is,
        inside(x->Is_0.dims, position),
    ensures
        x is Is,
        x.shift_left(bits)->Is_0.dims == x->Is_0.dims,
        c.of(x.shift_left(bits), position) == c.of(x, position) << bits,
{
    let count = x.filled_i32(bits as i32);
    assert(x.integer_binary(count, IntegerBinary::ShiftLeft) is Is);
    lemma_bitwise(c, x, count, IntegerBinary::ShiftLeft, position);
    lemma_filled(c, x, bits as i32, position);
}

proof fn lemma_shift_right(c: Contents, x: Expr, bits: u32, position: int)
    requires
        x.shift_right_logical(bits) is Is,
        inside(x->Is_0.dims, position),
    ensures
        x is Is,
        x.shift_right_logical(bits)->Is_0.dims == x->Is_0.dims,
        c.of(x.shift_right_logical(bits), position) == c.of(x, position) >> bits,
{
    let count = x.filled_i32(bits as i32);
    assert(x.integer_binary(count, IntegerBinary::ShiftRightLogical) is Is);
    lemma_bitwise(c, x, count, IntegerBinary::ShiftRightLogical, position);
    lemma_filled(c, x, bits as i32, position);
}

/// A pair whose second expression and first are both values.
pub open spec fn complete(duo: Duo, dims: Seq<i64>) -> bool {
    &&& duo.first is Is
    &&& duo.second is Is
    &&& duo.first->Is_0.dims == dims
    &&& duo.second->Is_0.dims == dims
}

proof fn lemma_mixed(c: Contents, duo: Duo, bits: u32, dims: Seq<i64>, position: int)
    requires
        complete(duo, dims),
        duo.mixed(bits).outcome() is Is,
        inside(dims, position),
        0 < bits < 32,
    ensures
        complete(duo.mixed(bits), dims),
        holds(
            c,
            duo.mixed(bits),
            position,
            mixed_words((c.of(duo.first, position), c.of(duo.second, position)), bits),
        ),
{
    reveal(Duo::mixed);
    let sum = duo.first.wrapping_add(duo.second);
    let left = duo.second.shift_left(bits);
    let right = duo.second.shift_right_logical((32 - bits) as u32);
    let turned = left.bitwise_or(right);
    lemma_add(c, duo.first, duo.second, position);
    lemma_bitwise(c, turned, sum, IntegerBinary::Xor, position);
    lemma_bitwise(c, left, right, IntegerBinary::Or, position);
    lemma_shift_left(c, duo.second, bits, position);
    lemma_shift_right(c, duo.second, (32 - bits) as u32, position);
}

/// The words that a key schedule holds at a position.
pub open spec fn scheduled(
    c: Contents,
    keys: (Expr, Expr, Expr),
    key: (u32, u32),
    position: int,
) -> bool {
    &&& c.of(keys.0, position) == key.0
    &&& c.of(keys.1, position) == key.1
    &&& c.of(keys.2, position) == key.0 ^ key.1 ^ 0x1bd1_1bda
}

proof fn lemma_injected(
    c: Contents,
    duo: Duo,
    keys: (Expr, Expr, Expr),
    key: (u32, u32),
    injection: nat,
    dims: Seq<i64>,
    position: int,
)
    requires
        complete(duo, dims),
        duo.injected(keys, injection).outcome() is Is,
        inside(dims, position),
        scheduled(c, keys, key, position),
        injection <= 5,
    ensures
        complete(duo.injected(keys, injection), dims),
        c.of(duo.injected(keys, injection).first, position) == wrapped(
            c.of(duo.first, position) + key_word(key, injection),
        ),
        c.of(duo.injected(keys, injection).second, position) == wrapped(
            c.of(duo.second, position) + key_word(key, injection + 1) + injection,
        ),
{
    reveal(Duo::injected);
    reveal(Expr::wrapping_add_scalar);
    let one = schedule(keys, injection);
    let two = schedule(keys, injection + 1);
    lemma_add(c, duo.first, one, position);
    let other = duo.second.wrapping_add(two);
    let counted = other.filled_i32(injection as i32);
    lemma_add(c, other, counted, position);
    lemma_add(c, duo.second, two, position);
    lemma_filled(c, other, injection as i32, position);
}

proof fn lemma_rounds(
    c: Contents,
    start: Duo,
    keys: (Expr, Expr, Expr),
    key: (u32, u32),
    count: nat,
    dims: Seq<i64>,
    position: int,
)
    requires
        start.outcome() is Is ==> complete(start, dims),
        start.rounds(keys, count).outcome() is Is,
        inside(dims, position),
        scheduled(c, keys, key, position),
        count <= 20,
    ensures
        start.outcome() is Is,
        complete(start.rounds(keys, count), dims),
        holds(
            c,
            start.rounds(keys, count),
            position,
            rounds_words(
                (c.of(start.first, position), c.of(start.second, position)),
                key,
                count,
            ),
        ),
    decreases count,
{
    if count > 0 {
        let round = (count - 1) as nat;
        let before = start.rounds(keys, round);
        if before.outcome() is Fails {
            lemma_round_failed(before, keys, round, before.outcome()->Fails_0);
        }
        lemma_rounds(c, start, keys, key, round, dims, position);
        let mixed = before.mixed(rotation(round));
        if mixed.outcome() is Fails {
            reveal(Duo::injected);
        }
        lemma_mixed(c, before, rotation(round), dims, position);
        if (round + 1) % 4 == 0 {
            lemma_injected(c, mixed, keys, key, (round + 1) / 4, dims, position);
        }
    }
}

/// Where Threefry succeeds, each element of its two results is the block of
/// the key and counter words at that element. Equal words give equal blocks,
/// whatever else the tensors hold.
pub proof fn blocks_follow_the_words(
    c: Contents,
    key: (Value, Value),
    counter: (Value, Value),
    position: int,
)
    requires
        threefry2x32_of(key, counter).outcome() is Is,
        inside(key.0.dims, position),
    ensures
        complete(threefry2x32_of(key, counter), key.0.dims),
        holds(
            c,
            threefry2x32_of(key, counter),
            position,
            block(
                (c.at(key.0, position), c.at(key.1, position)),
                (c.at(counter.0, position), c.at(counter.1, position)),
            ),
        ),
{
    reveal(threefry2x32_of);
    let k = key.0;
    let first = Expr::Is(k);
    let second = Expr::Is(key.1);
    let parity = scalar_i32(k.graph, THREEFRY_PARITY).broadcast_to(k.dims);
    let third = first.bitwise_xor(second).given(parity).bitwise_xor(parity);
    let a = Expr::Is(counter.0).wrapping_add(first).given(third);
    let b = Expr::Is(counter.1).wrapping_add(second).given(a);
    let start = Duo { first: a, second: b };
    let keys = (first, second, third);
    if start.outcome() is Fails {
        crate::random::lemma_rounds_failed(start, keys, 0, 20, start.outcome()->Fails_0);
        assert(start.rounds(keys, 0) == start);
    }
    lemma_add(c, Expr::Is(counter.0), first, position);
    lemma_add(c, Expr::Is(counter.1), second, position);
    lemma_bitwise(c, first.bitwise_xor(second), parity, IntegerBinary::Xor, position);
    lemma_bitwise(c, first, second, IntegerBinary::Xor, position);
    lemma_constant(c, k.graph, THREEFRY_PARITY);
    lemma_broadcast(c, scalar_i32(k.graph, THREEFRY_PARITY), k.dims, position);
    lemma_rounds(
        c,
        start,
        keys,
        (c.at(key.0, position), c.at(key.1, position)),
        20,
        k.dims,
        position,
    );
}

/// The number of a counter, from its low and its high word.
pub open spec fn number(low: u32, high: u32) -> int {
    high * 0x1_0000_0000 + low
}

/// The low and the high word of a number modulo 2^64.
pub open spec fn counter_words(n: int) -> (u32, u32) {
    (wrapped(n), wrapped(n / 0x1_0000_0000))
}

/// Flipping the sign bit orders words as unsigned numbers.
proof fn lemma_sign_flipped(x: u32)
    ensures
        word(x ^ 0x8000_0000) == x - 0x8000_0000,
{
    assert(x < 0x8000_0000u32 ==> (x ^ 0x8000_0000u32) == x + 0x8000_0000u32) by (bit_vector);
    assert(x >= 0x8000_0000u32 ==> (x ^ 0x8000_0000u32) == x - 0x8000_0000u32) by (bit_vector);
}

proof fn lemma_less(c: Contents, a: Expr, b: Expr, position: int)
    requires
        c.exact(),
        unsigned_less(a, b) is Is,
        inside(a->Is_0.dims, position),
    ensures
        a is Is,
        b is Is,
        unsigned_less(a, b)->Is_0.dims == a->Is_0.dims,
        c.of(unsigned_less(a, b), position) == mask(c.of(a, position) < c.of(b, position)),
{
    reveal(unsigned_less);
    let sign = a.filled_i32(i32::MIN);
    let right = b.bitwise_xor(sign).given(sign);
    let left = a.bitwise_xor(sign);
    let compared = right.le_mask(left);
    let negated = compared.neg();
    assert(negated.add_scalar(Scalar::Bits(F32_ONE)) is Is);
    assert(negated is Is && compared is Is && right is Is && left is Is && sign is Is) by {
        reveal(Expr::add_scalar);
    }
    lemma_filled(c, a, i32::MIN, position);
    lemma_bitwise(c, b, sign, IntegerBinary::Xor, position);
    lemma_bitwise(c, a, sign, IntegerBinary::Xor, position);
    lemma_sign_flipped(c.of(a, position));
    lemma_sign_flipped(c.of(b, position));
    lemma_less_equal(c, right, left, position);
    lemma_negated(c, compared, position);
    lemma_plus_one(c, negated, position);
    assert(F32_ONE ^ 0x8000_0000u32 == F32_NEG_ONE) by (bit_vector);
    assert(F32_ZERO ^ 0x8000_0000u32 == F32_NEG_ZERO) by (bit_vector);
}

proof fn lemma_less_equal(c: Contents, x: Expr, y: Expr, position: int)
    requires
        x.le_mask(y) is Is,
        x->Is_0.dtype == DType::I32,
        y->Is_0.dtype == DType::I32,
    ensures
        x is Is,
        y is Is,
        x->Is_0.dims == y->Is_0.dims,
        x.le_mask(y)->Is_0.dims == x->Is_0.dims,
        x.le_mask(y)->Is_0.dtype == DType::F32,
        c.of(x.le_mask(y), position) == mask(word(c.of(x, position)) <= word(c.of(y, position))),
{
    reveal(applied);
    reveal(Contents::at);
}

proof fn lemma_negated(c: Contents, x: Expr, position: int)
    requires
        x.neg() is Is,
    ensures
        x is Is,
        x.neg()->Is_0.dims == x->Is_0.dims,
        x.neg()->Is_0.dtype == DType::F32,
        c.of(x.neg(), position) == c.of(x, position) ^ 0x8000_0000,
{
    reveal(applied);
    reveal(Contents::at);
}

/// The sum with the constant one.
proof fn lemma_plus_one(c: Contents, x: Expr, position: int)
    requires
        x.add_scalar(Scalar::Bits(F32_ONE)) is Is,
        inside(x->Is_0.dims, position),
        x->Is_0.dtype == DType::F32,
    ensures
        x is Is,
        x.add_scalar(Scalar::Bits(F32_ONE))->Is_0.dims == x->Is_0.dims,
        x.add_scalar(Scalar::Bits(F32_ONE))->Is_0.dtype == DType::F32,
        c.of(x.add_scalar(Scalar::Bits(F32_ONE)), position) == (c.sum)(c.of(x, position), F32_ONE),
{
    reveal(Expr::add_scalar);
    reveal(Expr::filled);
    let one = scalar(x->Is_0.graph, Scalar::Bits(F32_ONE));
    let ones = x.filled(Scalar::Bits(F32_ONE));
    assert(ones is Is && one is Is);
    assert(one->Is_0.dims.len() == 0 && c.of(one, 0) == F32_ONE) by {
        reveal(applied);
        reveal(Contents::at);
    }
    lemma_broadcast(c, one, x->Is_0.dims, position);
    reveal(applied);
    reveal(Contents::at);
}

pub(crate) proof fn lemma_select(c: Contents, m: Expr, x: Expr, y: Expr, position: int)
    requires
        m.select(x, y) is Is,
    ensures
        m is Is,
        x is Is,
        y is Is,
        m.select(x, y)->Is_0.dims == m->Is_0.dims,
        m.select(x, y)->Is_0.dims == x->Is_0.dims,
        m.select(x, y)->Is_0.dims == y->Is_0.dims,
        c.of(m.select(x, y), position) == if c.of(m, position) == F32_ZERO || c.of(m, position)
            == F32_NEG_ZERO {
            c.of(y, position)
        } else {
            c.of(x, position)
        },
{
    reveal(applied);
    reveal(Contents::at);
}

/// A counter is advanced modulo 2^64, and the mask tells whether it wrapped.
proof fn lemma_advanced(c: Contents, low: Expr, high: Expr, increment: Expr, position: int)
    requires
        c.exact(),
        advanced(low, high, increment).1 is Is,
        inside(low->Is_0.dims, position),
    ensures
        ({
            let n = number(c.of(low, position), c.of(high, position)) + c.of(increment, position);
            let after = advanced(low, high, increment);
            &&& complete(after.0, low->Is_0.dims)
            &&& holds(c, after.0, position, counter_words(n))
            &&& after.1->Is_0.dims == low->Is_0.dims
            &&& c.of(after.1, position) == mask(n >= 0x1_0000_0000_0000_0000)
        }),
{
    reveal(advanced);
    let next_low = low.wrapping_add(increment);
    let carry = unsigned_less(next_low, low).given(next_low);
    let one = high.filled_i32(1);
    let bumped = high.wrapping_add_scalar(1).given(carry);
    let next_high = carry.select(bumped, high);
    let wraps = unsigned_less(next_high, high).given(next_high);
    assert(next_high is Is);
    lemma_select(c, carry, bumped, high, position);
    lemma_add(c, low, increment, position);
    lemma_less(c, next_low, low, position);
    assert(high.wrapping_add_scalar(1) == high.wrapping_add(one)) by {
        reveal(Expr::wrapping_add_scalar);
    }
    lemma_add(c, high, one, position);
    lemma_filled(c, high, 1, position);
    lemma_less(c, next_high, high, position);
    let l = c.of(low, position) as int;
    let h = c.of(high, position) as int;
    let i = c.of(increment, position) as int;
    let n = number(c.of(low, position), c.of(high, position)) + i;
    assert(n == h * 0x1_0000_0000 + l + i);
    assert(wrapped(n) == wrapped(l + i));
    if l + i < 0x1_0000_0000 {
        assert(n / 0x1_0000_0000 == h);
    } else {
        assert(n / 0x1_0000_0000 == h + 1);
    }
}

/// The counters of the elements are values where the wrap mask is one.
pub(crate) proof fn lemma_lanes_built(graph: u64, counter: (Value, Value), shape: Seq<i64>, count: nat)
    requires
        lanes_of(graph, counter, shape, count).1 is Is,
    ensures
        lanes_of(graph, counter, shape, count).0.first is Is,
        lanes_of(graph, counter, shape, count).0.second is Is,
{
    reveal(lanes_of);
    reveal(advanced);
}

/// The elements of a draw have consecutive numbers, counted from the counter.
proof fn lemma_lanes(
    c: Contents,
    graph: u64,
    counter: (Value, Value),
    shape: Seq<i64>,
    count: nat,
    position: int,
)
    requires
        c.exact(),
        lanes_of(graph, counter, shape, count).1 is Is,
        volume(shape) == Some(count),
        count <= i32::MAX,
        0 <= position < count,
        counter.0.dims.len() == 0,
        counter.1.dims.len() == 0,
    ensures
        complete(lanes_of(graph, counter, shape, count).0, shape),
        holds(
            c,
            lanes_of(graph, counter, shape, count).0,
            position,
            counter_words(number(c.at(counter.0, 0), c.at(counter.1, 0)) + position),
        ),
{
    reveal(lanes_of);
    let order = iota(graph, seq![count as i64], 0);
    let offset = order.reshape(shape);
    let low = Expr::Is(counter.0).broadcast_to(shape).given(offset);
    let high = Expr::Is(counter.1).broadcast_to(shape).given(low);
    assert(low.given(high) is Is && high is Is && offset is Is && order is Is) by {
        reveal(advanced);
    }
    lemma_broadcast(c, Expr::Is(counter.0), shape, position);
    lemma_broadcast(c, Expr::Is(counter.1), shape, position);
    assert(c.of(order, position) == wrapped(position)) by {
        reveal(typed);
        reveal(Contents::at);
    }
    assert(c.of(offset, position) == c.of(order, position)) by {
        reveal(applied);
        reveal(Contents::at);
    }
    lemma_advanced(c, low.given(high), high, offset, position);
}

/// Where a draw of blocks succeeds, the element at row-major position `i`
/// holds the block of the key and the counter plus `i`, modulo 2^64.
pub proof fn elements_take_consecutive_blocks(
    c: Contents,
    key: (Value, Value),
    counter: (Value, Value),
    shape: Seq<i64>,
    position: int,
)
    requires
        c.exact(),
        blocks_of(key, counter, shape).outcome() is Is,
        inside(shape, position),
    ensures
        complete(blocks_of(key, counter, shape).bits, shape),
        holds(
            c,
            blocks_of(key, counter, shape).bits,
            position,
            block(
                (c.at(key.0, 0), c.at(key.1, 0)),
                counter_words(number(c.at(counter.0, 0), c.at(counter.1, 0)) + position),
            ),
        ),
{
    reveal(drawn);
    let count = volume(shape)->Some_0;
    let lanes = lanes_of(key.0.graph, counter, shape, count);
    let first = Expr::Is(key.0).broadcast_to(shape).given(lanes.1);
    let second = Expr::Is(key.1).broadcast_to(shape).given(first);
    assert(second.given(first) is Is);
    lemma_lanes(c, key.0.graph, counter, shape, count, position);
    lemma_broadcast(c, Expr::Is(key.0), shape, position);
    lemma_broadcast(c, Expr::Is(key.1), shape, position);
    blocks_follow_the_words(
        c,
        (first->Is_0, second->Is_0),
        (lanes.0.first->Is_0, lanes.0.second->Is_0),
        position,
    );
}

/// Where a draw of blocks succeeds, it advances the counter by its number of
/// elements modulo 2^64, and its mask tells whether that crossed the period.
/// An empty draw leaves the counter where it is.
pub proof fn draws_advance_by_their_elements(
    c: Contents,
    key: (Value, Value),
    counter: (Value, Value),
    shape: Seq<i64>,
)
    requires
        c.exact(),
        blocks_of(key, counter, shape).outcome() is Is,
    ensures
        volume(shape) is Some,
        ({
            let n = number(c.at(counter.0, 0), c.at(counter.1, 0)) + volume(shape)->Some_0;
            let draw = blocks_of(key, counter, shape);
            &&& complete(draw.next, Seq::empty())
            &&& draw.wrapped is Is
            &&& draw.wrapped->Is_0.dims.len() == 0
            &&& holds(c, draw.next, 0, counter_words(n))
            &&& c.of(draw.wrapped, 0) == mask(n >= 0x1_0000_0000_0000_0000)
        }),
{
    reveal(drawn);
    let count = volume(shape)->Some_0;
    let lanes = lanes_of(key.0.graph, counter, shape, count);
    let increment = scalar_i32(key.0.graph, count as i32);
    let first = Expr::Is(key.0).broadcast_to(shape).given(lanes.1);
    let second = Expr::Is(key.1).broadcast_to(shape).given(first);
    assert(second.given(first) is Is);
    lemma_lanes_built(key.0.graph, counter, shape, count);
    assert(increment is Is) by {
        reveal(advanced);
    }
    lemma_constant(c, key.0.graph, count as i32);
    assert(counter.0.dims =~= Seq::empty());
    lemma_advanced(c, Expr::Is(counter.0).given(increment), Expr::Is(counter.1), increment, 0);
}

/// The number that a counter of scalar words holds.
pub open spec fn position_of(c: Contents, counter: (Value, Value)) -> int {
    number(c.at(counter.0, 0), c.at(counter.1, 0))
}

/// The words of a number hold it modulo 2^64.
proof fn lemma_number(n: int)
    requires
        n >= 0,
    ensures
        number(counter_words(n).0, counter_words(n).1) == n % 0x1_0000_0000_0000_0000,
{
    let q = n / 0x1_0000_0000;
    assert(n == q * 0x1_0000_0000 + n % 0x1_0000_0000);
    assert(q == (q / 0x1_0000_0000) * 0x1_0000_0000 + q % 0x1_0000_0000);
}

/// A draw moves the cursor of its sequence by its number of elements, modulo
/// 2^64, and the sequence stays available just where that does not cross the
/// period. Once a draw has crossed it, no later draw makes the sequence
/// available again.
pub proof fn sequences_move_by_their_draws(c: Contents, m: SequenceModel, shape: Seq<i64>, fresh: bool)
    requires
        c.exact(),
        m.draw(shape).outcome() is Is,
        m.availability(shape) is Is,
        c.at(m.available, 0) == mask(fresh),
    ensures
        volume(shape) is Some,
        ({
            let n = position_of(c, m.cursor) + volume(shape)->Some_0;
            &&& position_of(c, m.advanced(shape).cursor) == n % 0x1_0000_0000_0000_0000
            &&& c.at(m.advanced(shape).available, 0) == mask(
                fresh && n < 0x1_0000_0000_0000_0000,
            )
        }),
{
    draws_advance_by_their_elements(c, m.key, m.cursor, shape);
    lemma_number(position_of(c, m.cursor) + volume(shape)->Some_0);
    let draw = m.draw(shape);
    let negated = draw.wrapped.neg();
    let room = negated.add_scalar(Scalar::Bits(F32_ONE)).given(draw.outcome());
    assert(room is Is && m.availability(shape) == Expr::Is(m.available).mul(room)) by {
        reveal(SequenceModel::availability);
    }
    assert(negated is Is) by {
        reveal(Expr::add_scalar);
    }
    lemma_negated(c, draw.wrapped, 0);
    lemma_plus_one(c, negated, 0);
    assert(F32_ONE ^ 0x8000_0000u32 == F32_NEG_ONE) by (bit_vector);
    assert(F32_ZERO ^ 0x8000_0000u32 == F32_NEG_ZERO) by (bit_vector);
    assert(c.of(m.availability(shape), 0) == (c.product)(c.at(m.available, 0), c.of(room, 0))) by {
        reveal(applied);
        reveal(Contents::at);
    }
}

/// Two draws of a sequence, one after the other, never take the same block.
pub proof fn draws_of_a_sequence_are_disjoint(
    c: Contents,
    m: SequenceModel,
    first: Seq<i64>,
    second: Seq<i64>,
    i: int,
    j: int,
)
    requires
        c.exact(),
        m.draw(first).outcome() is Is,
        m.advanced(first).draw(second).outcome() is Is,
        inside(first, i),
        inside(second, j),
    ensures
        (position_of(c, m.cursor) + i) % 0x1_0000_0000_0000_0000 != (position_of(
            c,
            m.advanced(first).cursor,
        ) + j) % 0x1_0000_0000_0000_0000,
{
    draws_advance_by_their_elements(c, m.key, m.cursor, first);
    let count = volume(first)->Some_0;
    let n = position_of(c, m.cursor);
    lemma_number(n + count);
    assert(position_of(c, m.advanced(first).cursor) == (n + count) % 0x1_0000_0000_0000_0000);
    assert(count <= i32::MAX && volume(second)->Some_0 <= i32::MAX);
    let there = (n + count) % 0x1_0000_0000_0000_0000 + j;
    assert(there % 0x1_0000_0000_0000_0000 == (n + count + j) % 0x1_0000_0000_0000_0000);
    let gap = count + j - i;
    assert(0 < gap < 0x1_0000_0000_0000_0000);
}

/// A commit is accepted just where its condition is not zero and the sequence
/// is available.
pub proof fn acceptance_needs_an_available_sequence(
    c: Contents,
    graph: u64,
    condition: Value,
    available: Value,
)
    requires
        acceptance(graph, condition, available) is Is,
    ensures
        c.of(acceptance(graph, condition, available), 0) == if c.at(condition, 0) == F32_ZERO
            || c.at(condition, 0) == F32_NEG_ZERO {
            F32_ZERO
        } else {
            c.at(available, 0)
        },
{
    let zero = scalar(graph, Scalar::Bits(F32_ZERO));
    assert(zero is Is);
    assert(c.of(zero, 0) == F32_ZERO) by {
        reveal(applied);
        reveal(Contents::at);
    }
    lemma_select(c, Expr::Is(condition), Expr::Is(available), zero, 0);
}

} // verus!
