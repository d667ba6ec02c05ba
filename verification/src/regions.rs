//! What updates of a region write, element by element.
use crate::dtype::DType;
use crate::elements::{lemma_unravel, ravel, within};
use crate::error::Error;
use crate::graph::{applied, scalar_i32, typed, types_of, Expr, Value};
use crate::indexing::dynamic_error;
use crate::kv_cache::{checked_pair, chosen_pair, in_bounds, proposed_pair};
use crate::random_state::word;
use crate::shape::volume;
use crate::words::{
    clamped, covered, inside, lemma_broadcast, lemma_constant, lemma_select, mask, moved, shifted,
    Contents,
};
use vstd::prelude::*;

verus! {

/// The runtime starts of a region.
pub open spec fn runtime(c: Contents, starts: Seq<Value>) -> Seq<int> {
    Seq::new(starts.len(), |axis: int| word(c.at(starts[axis], 0)) as int)
}

/// Whether the runtime starts of the first `count` axes fit without clamping.
pub open spec fn fits(
    c: Contents,
    dims: Seq<i64>,
    sizes: Seq<i64>,
    starts: Seq<Value>,
    count: nat,
) -> bool {
    forall|axis: int|
        0 <= axis < count ==> 0 <= word(c.at(#[trigger] starts[axis], 0)) <= dims[axis]
            - sizes[axis]
}

proof fn lemma_starts(c: Contents, v: Value, skip: nat, starts: Seq<Value>, count: nat)
    requires
        v.args.len() == starts.len() + skip,
        forall|axis: int|
            0 <= axis < starts.len() ==> v.args[axis + skip] == #[trigger] starts[axis],
        count <= starts.len(),
    ensures
        c.starts_of(v, skip, count) == runtime(c, starts.take(count as int)),
    decreases count,
{
    reveal(Contents::at);
    if count > 0 {
        lemma_starts(c, v, skip, starts, (count - 1) as nat);
        assert(v.args[count - 1 + skip] == starts[count - 1]);
        assert(runtime(c, starts.take(count as int)) =~= runtime(
            c,
            starts.take(count - 1),
        ).push(word(c.at(starts[count - 1], 0)) as int));
    } else {
        assert(runtime(c, starts.take(0)) =~= Seq::empty());
    }
}

/// An update writes the region at its starts, clamped into the bounds, and keeps
/// the rest.
pub proof fn updates_write_the_clamped_region(
    c: Contents,
    x: Expr,
    update: Expr,
    starts: Seq<Value>,
    index: Seq<int>,
)
    requires
        x.dynamic_update_slice(update, starts) is Is,
        within(x->Is_0.dims, index),
    ensures
        ({
            let dims = x->Is_0.dims;
            let sizes = update->Is_0.dims;
            let at = clamped(runtime(c, starts), dims, sizes);
            let result = x.dynamic_update_slice(update, starts);
            &&& result->Is_0.dims == dims
            &&& c.of(result, ravel(dims, index)) == if covered(at, sizes, index) {
                c.of(update, ravel(sizes, moved(index, at)))
            } else {
                c.of(x, ravel(dims, index))
            }
        }),
{
    reveal(applied);
    reveal(Contents::at);
    let dims = x->Is_0.dims;
    let sizes = update->Is_0.dims;
    let result = x.dynamic_update_slice(update, starts)->Is_0;
    lemma_unravel(dims, index);
    assert(result.args == seq![x->Is_0, update->Is_0] + starts);
    lemma_starts(c, result, 2, starts, dims.len());
    assert(starts.take(dims.len() as int) =~= starts);
}

/// A dynamic slice reads the region at its starts, clamped into the bounds.
pub proof fn slices_read_the_clamped_region(
    c: Contents,
    x: Expr,
    starts: Seq<Value>,
    sizes: Seq<i64>,
    index: Seq<int>,
)
    requires
        x.dynamic_slice(starts, sizes) is Is,
        within(sizes, index),
    ensures
        ({
            let dims = x->Is_0.dims;
            let at = clamped(runtime(c, starts), dims, sizes);
            let result = x.dynamic_slice(starts, sizes);
            &&& result->Is_0.dims == sizes
            &&& within(dims, shifted(index, at))
            &&& c.of(result, ravel(sizes, index)) == c.of(x, ravel(dims, shifted(index, at)))
        }),
{
    reveal(applied);
    reveal(Contents::at);
    let dims = x->Is_0.dims;
    let result = x.dynamic_slice(starts, sizes)->Is_0;
    lemma_unravel(sizes, index);
    assert(result.args == seq![x->Is_0] + starts);
    lemma_starts(c, result, 1, starts, dims.len());
    assert(starts.take(dims.len() as int) =~= starts);
    let at = clamped(runtime(c, starts), dims, sizes);
    let there = shifted(index, at);
    assert forall|i: int| 0 <= i < dims.len() implies 0 <= #[trigger] there[i] < dims[i] by {
        assert(0 <= index[i] < sizes[i]);
        assert(0 <= sizes[i] <= dims[i]);
    }
}

/// A slice at the starts and with the sizes of an update always succeeds, and
/// reads back what the update wrote, wherever the starts were clamped to.
pub proof fn slices_read_back_what_updates_wrote(
    c: Contents,
    x: Expr,
    update: Expr,
    starts: Seq<Value>,
    index: Seq<int>,
)
    requires
        x.dynamic_update_slice(update, starts) is Is,
        volume(update->Is_0.dims) is Some,
    ensures
        ({
            let sizes = update->Is_0.dims;
            let y = x.dynamic_update_slice(update, starts);
            let z = y.dynamic_slice(starts, sizes);
            &&& z is Is
            &&& z->Is_0.dims == sizes
            &&& z->Is_0.dtype == update->Is_0.dtype
            &&& within(sizes, index) ==> c.of(z, ravel(sizes, index)) == c.of(
                update,
                ravel(sizes, index),
            )
        }),
{
    let dims = x->Is_0.dims;
    let sizes = update->Is_0.dims;
    let y = x.dynamic_update_slice(update, starts);
    let z = y.dynamic_slice(starts, sizes);
    assert(z is Is && z->Is_0.dims == sizes && z->Is_0.dtype == update->Is_0.dtype
        && y->Is_0.dims == dims) by {
        reveal(applied);
        let types = types_of(seq![x->Is_0, update->Is_0] + starts);
        let next = types_of(seq![y->Is_0] + starts);
        assert(types[0] == x->Is_0.dtype && types[1] == update->Is_0.dtype);
        assert(next[0] == y->Is_0.dtype);
        assert forall|i: int| 0 <= i < next.skip(1).len() implies next.skip(1)[i] == DType::I32 by {
            assert(next.skip(1)[i] == starts[i].dtype);
        }
    }
    if within(sizes, index) {
        slices_read_the_clamped_region(c, y, starts, sizes, index);
        let at = clamped(runtime(c, starts), dims, sizes);
        let there = shifted(index, at);
        updates_write_the_clamped_region(c, x, update, starts, there);
        assert(covered(at, sizes, there)) by {
            assert forall|i: int| 0 <= i < there.len() implies at[i] <= #[trigger] there[i] < at[i]
                + sizes[i] by {
                assert(0 <= index[i] < sizes[i]);
            }
        }
        assert(moved(there, at) =~= index);
    }
}

/// The position of an index lies within the element count.
pub(crate) proof fn lemma_inside(dims: Seq<i64>, index: Seq<int>)
    requires
        volume(dims) is Some,
        within(dims, index),
    ensures
        inside(dims, ravel(dims, index)),
    decreases dims.len(),
{
    if dims.len() > 0 {
        let front = dims.drop_last();
        let before = index.drop_last();
        assert forall|i: int| 0 <= i < front.len() implies 0 <= #[trigger] before[i] < front[i] by {
            assert(0 <= index[i] < dims[i]);
        }
        lemma_inside(front, before);
        let count = volume(front)->Some_0 as int;
        let at = ravel(front, before);
        let size = dims.last() as int;
        let rest = index.last();
        assert(0 <= index[dims.len() - 1] < dims[dims.len() - 1]);
        assert(0 <= at * size + rest < count * size) by (nonlinear_arith)
            requires
                0 <= at <= count - 1,
                0 <= rest < size,
        ;
    }
}

/// Two scalar I32 values compared.
pub(crate) proof fn lemma_compared(c: Contents, x: Expr, y: Expr)
    requires
        x.le_mask(y) is Is,
        x->Is_0.dtype == DType::I32,
        y->Is_0.dtype == DType::I32,
    ensures
        x is Is,
        y is Is,
        x.le_mask(y)->Is_0.dims == x->Is_0.dims,
        x.le_mask(y)->Is_0.dtype == DType::F32,
        c.of(x.le_mask(y), 0) == mask(word(c.of(x, 0)) <= word(c.of(y, 0))),
{
    reveal(applied);
    reveal(Contents::at);
}

/// A product of two scalar masks.
proof fn lemma_both(c: Contents, x: Expr, y: Expr, p: bool, q: bool)
    requires
        c.exact(),
        x.mul(y) is Is,
        x->Is_0.dtype == DType::F32,
        y->Is_0.dtype == DType::F32,
        c.of(x, 0) == mask(p),
        c.of(y, 0) == mask(q),
    ensures
        x is Is,
        y is Is,
        x.mul(y)->Is_0.dims == x->Is_0.dims,
        x.mul(y)->Is_0.dtype == DType::F32,
        c.of(x.mul(y), 0) == mask(p && q),
{
    reveal(applied);
    reveal(Contents::at);
}

/// The mask of fitting starts is one just where they fit.
proof fn lemma_in_bounds(
    c: Contents,
    graph: u64,
    dims: Seq<i64>,
    sizes: Seq<i64>,
    starts: Seq<Value>,
    count: nat,
)
    requires
        c.exact(),
        in_bounds(graph, dims, sizes, starts, count) is Is,
        count <= starts.len(),
        starts.len() == dims.len(),
        forall|i: int| 0 <= i < starts.len() ==> (#[trigger] starts[i]).dtype == DType::I32,
        forall|i: int| 0 <= i < starts.len() ==> 0 <= #[trigger] sizes[i] <= dims[i],
    ensures
        in_bounds(graph, dims, sizes, starts, count)->Is_0.dims.len() == 0,
        in_bounds(graph, dims, sizes, starts, count)->Is_0.dtype == DType::F32,
        c.of(in_bounds(graph, dims, sizes, starts, count), 0) == mask(
            fits(c, dims, sizes, starts, count),
        ),
    decreases count,
{
    if count == 0 {
        reveal(applied);
        reveal(typed);
        reveal(Contents::at);
    } else {
        let axis = count - 1;
        let start = Expr::Is(starts[axis]);
        let zero = scalar_i32(graph, 0);
        let before = in_bounds(graph, dims, sizes, starts, axis as nat);
        let above = zero.le_mask(start);
        let lower = before.mul(above);
        let limit = dims[axis] - sizes[axis];
        assert(0 <= sizes[axis] <= dims[axis]);
        lemma_in_bounds(c, graph, dims, sizes, starts, axis as nat);
        assert(lower is Is);
        lemma_constant(c, graph, 0);
        lemma_compared(c, zero, start);
        let s = word(c.at(starts[axis], 0));
        let earlier = fits(c, dims, sizes, starts, axis as nat);
        lemma_both(c, before, above, earlier, 0 <= s);
        if limit < 0x7fff_ffff {
            let top = scalar_i32(graph, limit as i32);
            let below = start.le_mask(top);
            assert(below is Is && top is Is);
            lemma_constant(c, graph, limit as i32);
            lemma_compared(c, start, top);
            lemma_both(c, lower, below, earlier && 0 <= s, s <= limit);
        }
        assert(fits(c, dims, sizes, starts, count) == (earlier && 0 <= s <= limit)) by {
            if fits(c, dims, sizes, starts, count) {
                assert(0 <= word(c.at(starts[axis], 0)) <= dims[axis] - sizes[axis]);
            }
        }
    }
}

/// A checked update of a pair of caches is accepted, with one, just where every
/// start fits without clamping. It then writes the region at the starts in both
/// caches and keeps the rest; otherwise it answers zero and keeps both caches.
pub proof fn checked_updates_write_both_or_neither(
    c: Contents,
    old_keys: Value,
    old_values: Value,
    keys: Value,
    values: Value,
    starts: Seq<Value>,
    index: Seq<int>,
)
    requires
        c.exact(),
        old_keys.dims == old_values.dims,
        checked_pair(Ok((old_keys, old_values)), keys, values, starts) is Ok,
        volume(old_keys.dims) is Some,
        within(old_keys.dims, index),
    ensures
        ({
            let dims = old_keys.dims;
            let sizes = keys.dims;
            let position = ravel(dims, index);
            let origin = runtime(c, starts);
            let accepted = fits(c, dims, sizes, starts, starts.len());
            let written = accepted && covered(origin, sizes, index);
            let from = ravel(sizes, moved(index, origin));
            let after = checked_pair(Ok((old_keys, old_values)), keys, values, starts)->Ok_0;
            &&& c.at(after.2, 0) == mask(accepted)
            &&& c.at(after.0, position) == if written {
                c.at(keys, from)
            } else {
                c.at(old_keys, position)
            }
            &&& c.at(after.1, position) == if written {
                c.at(values, from)
            } else {
                c.at(old_values, position)
            }
        }),
{
    let dims = old_keys.dims;
    let sizes = keys.dims;
    let position = ravel(dims, index);
    let old = (old_keys, old_values);
    let current: Result<(Value, Value), Error> = Ok(old);
    let proposed = proposed_pair(current, keys, values, starts)->Ok_0;
    let checked = in_bounds(old_keys.graph, dims, sizes, starts, starts.len());
    let accepted = checked.detach();
    let choice = accepted.broadcast_to(dims);
    let k = choice.select(Expr::Is(proposed.0), Expr::Is(old_keys));
    let v = choice.select(Expr::Is(proposed.1), Expr::Is(old_values));
    assert(accepted is Is && choice is Is && k is Is && v is Is && chosen_pair(
        old,
        proposed,
        sizes,
        starts,
    ) == Ok::<(Value, Value, Value), Error>((k->Is_0, v->Is_0, accepted->Is_0))) by {
        reveal(chosen_pair);
    }
    assert(dynamic_error(old_keys.graph, dims, starts, sizes) is None);
    lemma_in_bounds(c, old_keys.graph, dims, sizes, starts, starts.len());
    assert(accepted->Is_0.dims.len() == 0 && c.of(accepted, 0) == c.of(checked, 0)) by {
        reveal(applied);
        reveal(Contents::at);
    }
    lemma_inside(dims, index);
    lemma_broadcast(c, accepted, dims, position);
    lemma_select(c, choice, Expr::Is(proposed.0), Expr::Is(old_keys), position);
    lemma_select(c, choice, Expr::Is(proposed.1), Expr::Is(old_values), position);
    updates_write_the_clamped_region(c, Expr::Is(old_keys), Expr::Is(keys), starts, index);
    updates_write_the_clamped_region(c, Expr::Is(old_values), Expr::Is(values), starts, index);
    let origin = runtime(c, starts);
    if fits(c, dims, sizes, starts, starts.len()) {
        assert forall|axis: int| 0 <= axis < dims.len() implies clamped(origin, dims, sizes)[axis]
            == origin[axis] by {
            assert(0 <= word(c.at(starts[axis], 0)) <= dims[axis] - sizes[axis]);
        }
        assert(clamped(origin, dims, sizes) =~= origin);
    }
}

} // verus!
