//! When draws of random words succeed.
use crate::dtype::DType;
use crate::graph::{applied, iota, scalar_i32, typed, Expr, Value};
use crate::op::{Binary, IntegerBinary, Scalar, Unary, F32_ONE};
use crate::random::{
    advanced, blocks_of, drawn, lanes_of, rotation, schedule, threefry2x32_of, unsigned_less, Duo,
    THREEFRY_PARITY,
};
use crate::random_state::{begun, read_words, word_at, SequenceModel};
use crate::shape::volume;
use crate::state::{StateGraph, StateSlot};
use crate::success::{
    lemma_made_arithmetic, lemma_made_binary, lemma_made_bitwise, lemma_made_compared,
    lemma_made_everywhere, lemma_made_filled, lemma_made_reshape, lemma_made_scalars,
    lemma_made_select, lemma_made_unary, made,
};
use crate::words::{lemma_lanes_built, mask, position_of, sequences_move_by_their_draws, Contents};
use vstd::prelude::*;

verus! {

/// Whether two expressions are I32 values of a graph with given extents.
pub open spec fn words_made(duo: Duo, graph: u64, dims: Seq<i64>) -> bool {
    made(duo.first, graph, dims, DType::I32) && made(duo.second, graph, dims, DType::I32)
}

/// Whether a value is a scalar I32 word of a graph.
pub open spec fn is_word(v: Value, graph: u64) -> bool {
    v.graph == graph && v.dims == Seq::<i64>::empty() && v.dtype == DType::I32
}

/// Whether a shape has a number of elements that an I32 can count.
pub open spec fn countable(shape: Seq<i64>) -> bool {
    volume(shape) is Some && volume(shape)->Some_0 <= i32::MAX
}

proof fn lemma_shifted(x: Expr, bits: u32, op: IntegerBinary, graph: u64, dims: Seq<i64>)
    requires
        made(x, graph, dims, DType::I32),
        volume(dims) is Some,
        bits < 32,
    ensures
        made(x.shift(bits, op), graph, dims, DType::I32),
{
    lemma_made_filled(x, bits as i32, Scalar::Bits(0), graph, dims);
    lemma_made_bitwise(x, x.filled_i32(bits as i32), op, graph, dims);
}

proof fn lemma_plus_constant(x: Expr, value: i32, graph: u64, dims: Seq<i64>)
    requires
        made(x, graph, dims, DType::I32),
        volume(dims) is Some,
    ensures
        made(x.wrapping_add_scalar(value), graph, dims, DType::I32),
{
    reveal(Expr::wrapping_add_scalar);
    lemma_made_filled(x, value, Scalar::Bits(0), graph, dims);
    lemma_made_arithmetic(x, x.filled_i32(value), Binary::Add, graph, dims);
}

proof fn lemma_mixed(duo: Duo, bits: u32, graph: u64, dims: Seq<i64>)
    requires
        words_made(duo, graph, dims),
        volume(dims) is Some,
        0 < bits < 32,
    ensures
        words_made(duo.mixed(bits), graph, dims),
{
    reveal(Duo::mixed);
    let a = duo.first.wrapping_add(duo.second);
    lemma_made_arithmetic(duo.first, duo.second, Binary::Add, graph, dims);
    let left = duo.second.shift_left(bits);
    lemma_shifted(duo.second, bits, IntegerBinary::ShiftLeft, graph, dims);
    let right = duo.second.shift_right_logical((32 - bits) as u32);
    lemma_shifted(
        duo.second,
        (32 - bits) as u32,
        IntegerBinary::ShiftRightLogical,
        graph,
        dims,
    );
    lemma_made_bitwise(left, right, IntegerBinary::Or, graph, dims);
    lemma_made_bitwise(left.bitwise_or(right), a, IntegerBinary::Xor, graph, dims);
}

proof fn lemma_rounds(duo: Duo, keys: (Expr, Expr, Expr), count: nat, graph: u64, dims: Seq<i64>)
    requires
        words_made(duo, graph, dims),
        made(keys.0, graph, dims, DType::I32),
        made(keys.1, graph, dims, DType::I32),
        made(keys.2, graph, dims, DType::I32),
        volume(dims) is Some,
    ensures
        words_made(duo.rounds(keys, count), graph, dims),
    decreases count,
{
    if count > 0 {
        let round = (count - 1) as nat;
        let before = duo.rounds(keys, round);
        lemma_rounds(duo, keys, round, graph, dims);
        let mixed = before.mixed(rotation(round));
        lemma_mixed(before, rotation(round), graph, dims);
        if (round + 1) % 4 == 0 {
            reveal(Duo::injected);
            let injection: nat = (round + 1) / 4;
            let (k, l) = (schedule(keys, injection), schedule(keys, injection + 1));
            lemma_made_arithmetic(mixed.first, k, Binary::Add, graph, dims);
            lemma_made_arithmetic(mixed.second, l, Binary::Add, graph, dims);
            lemma_plus_constant(mixed.second.wrapping_add(l), injection as i32, graph, dims);
        }
    }
}

/// Threefry succeeds on I32 words of one graph and one shape.
proof fn lemma_threefry(key: (Value, Value), counter: (Value, Value), graph: u64, dims: Seq<i64>)
    requires
        made(Expr::Is(key.0), graph, dims, DType::I32),
        made(Expr::Is(key.1), graph, dims, DType::I32),
        made(Expr::Is(counter.0), graph, dims, DType::I32),
        made(Expr::Is(counter.1), graph, dims, DType::I32),
        volume(dims) is Some,
    ensures
        words_made(threefry2x32_of(key, counter), graph, dims),
{
    reveal(threefry2x32_of);
    let (k, l) = (Expr::Is(key.0), Expr::Is(key.1));
    let parity = scalar_i32(graph, THREEFRY_PARITY).broadcast_to(dims);
    lemma_made_scalars(graph, THREEFRY_PARITY, Scalar::Bits(0));
    lemma_made_everywhere(scalar_i32(graph, THREEFRY_PARITY), graph, dims, DType::I32);
    lemma_made_bitwise(k, l, IntegerBinary::Xor, graph, dims);
    let third = k.bitwise_xor(l).bitwise_xor(parity);
    lemma_made_bitwise(k.bitwise_xor(l), parity, IntegerBinary::Xor, graph, dims);
    lemma_made_arithmetic(Expr::Is(counter.0), k, Binary::Add, graph, dims);
    lemma_made_arithmetic(Expr::Is(counter.1), l, Binary::Add, graph, dims);
    let start = Duo {
        first: Expr::Is(counter.0).wrapping_add(k),
        second: Expr::Is(counter.1).wrapping_add(l),
    };
    lemma_rounds(start, (k, l, third), 20, graph, dims);
}

proof fn lemma_unsigned_less(a: Expr, b: Expr, graph: u64, dims: Seq<i64>)
    requires
        made(a, graph, dims, DType::I32),
        made(b, graph, dims, DType::I32),
        volume(dims) is Some,
    ensures
        made(unsigned_less(a, b), graph, dims, DType::F32),
{
    reveal(unsigned_less);
    reveal(Expr::add_scalar);
    let sign = a.filled_i32(i32::MIN);
    lemma_made_filled(a, i32::MIN, Scalar::Bits(0), graph, dims);
    lemma_made_bitwise(b, sign, IntegerBinary::Xor, graph, dims);
    lemma_made_bitwise(a, sign, IntegerBinary::Xor, graph, dims);
    let compared = b.bitwise_xor(sign).le_mask(a.bitwise_xor(sign));
    lemma_made_compared(b.bitwise_xor(sign), a.bitwise_xor(sign), graph, dims);
    lemma_made_unary(compared, Unary::Neg, graph, dims);
    lemma_made_filled(compared.neg(), 0, Scalar::Bits(F32_ONE), graph, dims);
    lemma_made_binary(
        compared.neg(),
        compared.neg().filled(Scalar::Bits(F32_ONE)),
        Binary::Add,
        graph,
        dims,
    );
}

proof fn lemma_advanced_made(low: Expr, high: Expr, increment: Expr, graph: u64, dims: Seq<i64>)
    requires
        made(low, graph, dims, DType::I32),
        made(high, graph, dims, DType::I32),
        made(increment, graph, dims, DType::I32),
        volume(dims) is Some,
    ensures
        words_made(advanced(low, high, increment).0, graph, dims),
        made(advanced(low, high, increment).1, graph, dims, DType::F32),
{
    reveal(advanced);
    let next_low = low.wrapping_add(increment);
    lemma_made_arithmetic(low, increment, Binary::Add, graph, dims);
    let carry = unsigned_less(next_low, low);
    lemma_unsigned_less(next_low, low, graph, dims);
    lemma_plus_constant(high, 1, graph, dims);
    let next_high = carry.select(high.wrapping_add_scalar(1), high);
    lemma_made_select(carry, high.wrapping_add_scalar(1), high, graph, dims, DType::I32);
    lemma_unsigned_less(next_high, high, graph, dims);
}

/// Advancing takes I32 words alone.
proof fn lemma_advanced_words(low: Expr, high: Expr, increment: Expr)
    requires
        advanced(low, high, increment).1 is Is,
    ensures
        low is Is && low->Is_0.dtype == DType::I32,
        high is Is && high->Is_0.dtype == DType::I32,
{
    reveal(advanced);
    reveal(Expr::wrapping_add_scalar);
    reveal(applied);
    reveal(unsigned_less);
    let next_low = low.wrapping_add(increment);
    let carry = unsigned_less(next_low, low).given(next_low);
    let next_high = carry.select(high.wrapping_add_scalar(1).given(carry), high);
    assert(next_high is Is);
}

proof fn lemma_lanes_made(graph: u64, counter: (Value, Value), shape: Seq<i64>)
    requires
        countable(shape),
        is_word(counter.0, graph),
        is_word(counter.1, graph),
    ensures
        words_made(lanes_of(graph, counter, shape, volume(shape)->Some_0).0, graph, shape),
        made(lanes_of(graph, counter, shape, volume(shape)->Some_0).1, graph, shape, DType::F32),
{
    reveal(lanes_of);
    let count = volume(shape)->Some_0;
    let flat = seq![count as i64];
    assert(flat.drop_last() =~= Seq::empty());
    reveal_with_fuel(volume, 2);
    assert(volume(flat) == Some(count));
    assert(made(iota(graph, flat, 0), graph, flat, DType::I32)) by {
        reveal(typed);
    }
    lemma_made_reshape(iota(graph, flat, 0), graph, flat, shape, DType::I32);
    lemma_made_everywhere(Expr::Is(counter.0), graph, shape, DType::I32);
    lemma_made_everywhere(Expr::Is(counter.1), graph, shape, DType::I32);
    lemma_advanced_made(
        Expr::Is(counter.0).broadcast_to(shape),
        Expr::Is(counter.1).broadcast_to(shape),
        iota(graph, flat, 0).reshape(shape),
        graph,
        shape,
    );
}

/// A draw of blocks succeeds just where the shape has at most `i32::MAX`
/// elements and the words of the key and the counter are I32 scalars of one
/// graph. It then has two I32 words of the shape, a counter of two scalar
/// words, and a scalar mask.
pub proof fn blocks_succeed_exactly_on_scalar_words(
    key: (Value, Value),
    counter: (Value, Value),
    shape: Seq<i64>,
)
    ensures
        blocks_of(key, counter, shape).outcome() is Is <==> {
            &&& countable(shape)
            &&& is_word(key.0, key.0.graph)
            &&& is_word(key.1, key.0.graph)
            &&& is_word(counter.0, key.0.graph)
            &&& is_word(counter.1, key.0.graph)
        },
        blocks_of(key, counter, shape).outcome() is Is ==> {
            let draw = blocks_of(key, counter, shape);
            &&& words_made(draw.bits, key.0.graph, shape)
            &&& words_made(draw.next, key.0.graph, Seq::empty())
            &&& made(draw.wrapped, key.0.graph, Seq::empty(), DType::F32)
        },
{
    let graph = key.0.graph;
    let empty = Seq::<i64>::empty();
    let draw = blocks_of(key, counter, shape);
    let words = is_word(key.0, graph) && is_word(key.1, graph) && is_word(counter.0, graph)
        && is_word(counter.1, graph);
    if countable(shape) && words {
        reveal(drawn);
        let count = volume(shape)->Some_0;
        let lanes = lanes_of(graph, counter, shape, count);
        lemma_lanes_made(graph, counter, shape);
        lemma_made_everywhere(Expr::Is(key.0), graph, shape, DType::I32);
        lemma_made_everywhere(Expr::Is(key.1), graph, shape, DType::I32);
        let first = Expr::Is(key.0).broadcast_to(shape);
        let second = Expr::Is(key.1).broadcast_to(shape);
        lemma_threefry(
            (first->Is_0, second->Is_0),
            (lanes.0.first->Is_0, lanes.0.second->Is_0),
            graph,
            shape,
        );
        lemma_made_scalars(graph, count as i32, Scalar::Bits(0));
        assert(volume(empty) == Some(1nat));
        lemma_advanced_made(
            Expr::Is(counter.0),
            Expr::Is(counter.1),
            scalar_i32(graph, count as i32),
            graph,
            empty,
        );
    }
    if draw.outcome() is Is {
        reveal(drawn);
        let count = volume(shape)->Some_0;
        let lanes = lanes_of(graph, counter, shape, count);
        let first = Expr::Is(key.0).broadcast_to(shape).given(lanes.1);
        let second = Expr::Is(key.1).broadcast_to(shape).given(first);
        assert(second.given(first) is Is);
        lemma_lanes_built(graph, counter, shape, count);
        let increment = scalar_i32(graph, count as i32);
        lemma_advanced_words(
            Expr::Is(counter.0).given(increment),
            Expr::Is(counter.1),
            increment,
        );
        lemma_keys_are_words(
            (first->Is_0, second->Is_0),
            (lanes.0.first->Is_0, lanes.0.second->Is_0),
        );
        assert(key.0.dtype == DType::I32 && key.1.dtype == DType::I32) by {
            reveal(applied);
        }
        assert(key.0.dims =~= empty && key.1.dims =~= empty && counter.0.dims =~= empty
            && counter.1.dims =~= empty);
    }
}

/// Rounds that succeed started from words.
proof fn lemma_rounds_start(duo: Duo, keys: (Expr, Expr, Expr), count: nat)
    requires
        duo.rounds(keys, count).outcome() is Is,
    ensures
        duo.outcome() is Is,
    decreases count,
{
    if count > 0 {
        let round = (count - 1) as nat;
        let before = duo.rounds(keys, round);
        reveal(Duo::injected);
        reveal(Duo::mixed);
        assert(before.mixed(rotation(round)).outcome() is Is);
        assert(before.first is Is && before.second is Is);
        lemma_rounds_start(duo, keys, round);
    }
}

/// Threefry takes I32 keys alone.
proof fn lemma_keys_are_words(key: (Value, Value), counter: (Value, Value))
    requires
        threefry2x32_of(key, counter).outcome() is Is,
    ensures
        key.0.dtype == DType::I32,
        key.1.dtype == DType::I32,
{
    reveal(threefry2x32_of);
    let k = key.0;
    let parity = scalar_i32(k.graph, THREEFRY_PARITY).broadcast_to(k.dims);
    let third = Expr::Is(k).bitwise_xor(Expr::Is(key.1)).given(parity).bitwise_xor(parity);
    let keys = (Expr::Is(k), Expr::Is(key.1), third);
    let a = Expr::Is(counter.0).wrapping_add(Expr::Is(k)).given(third);
    let b = Expr::Is(counter.1).wrapping_add(Expr::Is(key.1)).given(a);
    lemma_rounds_start(Duo { first: a, second: b }, keys, 20);
}

impl SequenceModel {
    /// The key and the cursor are scalar I32 words of one graph, and the mask
    /// is a scalar F32 of it.
    pub open spec fn ready(self) -> bool {
        let graph = self.key.0.graph;
        &&& is_word(self.key.0, graph)
        &&& is_word(self.key.1, graph)
        &&& is_word(self.cursor.0, graph)
        &&& is_word(self.cursor.1, graph)
        &&& made(Expr::Is(self.available), graph, Seq::empty(), DType::F32)
    }
}

/// A sequence that begins from slots of scalar I32 words is ready.
pub proof fn begun_sequences_are_ready(state: StateGraph, slots: Seq<StateSlot>)
    requires
        state.wf(),
        slots.len() == 4,
        read_words(state, slots) is None,
        forall|k: int|
            0 <= k < 4 ==> {
                let version = word_at(state, #[trigger] slots[k])@;
                version.dims == Seq::<i64>::empty() && version.dtype == DType::I32
            },
    ensures
        begun(state, slots).ready(),
{
    lemma_made_scalars(state.schema(), 0, Scalar::Bits(F32_ONE));
    assert forall|k: int| 0 <= k < 4 implies is_word(
        word_at(state, #[trigger] slots[k])@,
        state.schema(),
    ) by {
        assert(state.tensors().owns(state.versions()[slots[k].index as int]));
    }
    assert(is_word(word_at(state, slots[0])@, state.schema()));
    assert(is_word(word_at(state, slots[1])@, state.schema()));
    assert(is_word(word_at(state, slots[2])@, state.schema()));
    assert(is_word(word_at(state, slots[3])@, state.schema()));
}

/// A draw from a ready sequence succeeds just where its shape has at most
/// `i32::MAX` elements, and leaves the sequence ready for the next one.
pub proof fn ready_sequences_draw_every_countable_shape(m: SequenceModel, shape: Seq<i64>)
    requires
        m.ready(),
    ensures
        m.draw(shape).outcome() is Is <==> countable(shape),
        m.availability(shape) is Is <==> countable(shape),
        countable(shape) ==> m.advanced(shape).ready(),
{
    blocks_succeed_exactly_on_scalar_words(m.key, m.cursor, shape);
    reveal(SequenceModel::availability);
    if countable(shape) {
        let graph = m.key.0.graph;
        let empty = Seq::<i64>::empty();
        assert(volume(empty) == Some(1nat));
        let wrapped = m.draw(shape).wrapped;
        reveal(Expr::add_scalar);
        lemma_made_unary(wrapped, Unary::Neg, graph, empty);
        lemma_made_filled(wrapped.neg(), 0, Scalar::Bits(F32_ONE), graph, empty);
        let room = wrapped.neg().add_scalar(Scalar::Bits(F32_ONE));
        lemma_made_binary(
            wrapped.neg(),
            wrapped.neg().filled(Scalar::Bits(F32_ONE)),
            Binary::Add,
            graph,
            empty,
        );
        lemma_made_binary(Expr::Is(m.available), room, Binary::Mul, graph, empty);
    }
}

/// Splitting `count` keys from a ready sequence succeeds for every count up to
/// `i32::MAX`. It yields two vectors of `count` words, moves the cursor by
/// `count` blocks modulo 2^64, and keeps the sequence available just where
/// that does not cross the period.
pub proof fn splits_move_by_their_count(c: Contents, m: SequenceModel, count: usize, fresh: bool)
    requires
        c.exact(),
        m.ready(),
        count <= i32::MAX,
        c.at(m.available, 0) == mask(fresh),
    ensures
        m.availability(seq![count as i64]) is Is,
        words_made(m.draw(seq![count as i64]).bits, m.key.0.graph, seq![count as i64]),
        m.advanced(seq![count as i64]).ready(),
        position_of(c, m.advanced(seq![count as i64]).cursor) == (position_of(c, m.cursor) + count)
            % 0x1_0000_0000_0000_0000,
        c.at(m.advanced(seq![count as i64]).available, 0) == mask(
            fresh && position_of(c, m.cursor) + count < 0x1_0000_0000_0000_0000,
        ),
{
    let shape = seq![count as i64];
    assert(shape.drop_last() =~= Seq::empty());
    reveal_with_fuel(volume, 2);
    assert(volume(shape) == Some(count as nat));
    ready_sequences_draw_every_countable_shape(m, shape);
    blocks_succeed_exactly_on_scalar_words(m.key, m.cursor, shape);
    sequences_move_by_their_draws(c, m, shape, fresh);
}

} // verus!
