//! What masks and grouped heads hold, element by element.
use crate::attention::{causal_mask, heads_fit, last_two, score_scale};
use crate::dtype::DType;
use crate::elements::{
    broadcasting_repeats, copied, lemma_unravel, narrowed_index, origin, ravel,
    reshape_keeps_the_order, unravel, within,
};
use crate::extents::attention_has_a_row_per_query;
use crate::facts::{broadcast_to_lands, group_extents, reshape_lands};
use crate::graph::{applied, iota, typed, Expr, Value};
use crate::matmul::{batch_of, broadcast_shape};
use crate::op::{OpModel, F32_NEG_INFINITY, F32_ONE, F32_ZERO};
use crate::products::pulled;
use crate::random_state::word;
use crate::shape::{lemma_volume_nonnegative, span, volume};
use crate::words::{bits_of, inside, lemma_add, lemma_filled, mask, wrapped, Contents};
use vstd::arithmetic::div_mod::lemma_fundamental_div_mod;
use vstd::prelude::*;

verus! {

/// The logarithms of a mask are exact: zero for one, minus infinity for zero.
pub open spec fn logs_of_masks_are_exact(c: Contents) -> bool {
    (c.log)(F32_ONE) == F32_ZERO && (c.log)(F32_ZERO) == F32_NEG_INFINITY
}

/// The position of an element of a matrix.
proof fn lemma_matrix_position(rows: i64, columns: i64, i: int, j: int)
    requires
        0 <= i < rows,
        0 <= j < columns,
    ensures
        ravel(seq![rows, columns], seq![i, j]) == i * columns + j,
        unravel(seq![rows, columns], i * columns + j) == seq![i, j],
{
    let dims = seq![rows, columns];
    let index = seq![i, j];
    assert(dims.drop_last() =~= seq![rows]);
    assert(index.drop_last() =~= seq![i]);
    assert(seq![rows].drop_last() =~= Seq::empty());
    assert(ravel(seq![rows], seq![i]) == i) by {
        assert(ravel(Seq::<i64>::empty(), Seq::<int>::empty()) == 0);
        assert(seq![i].drop_last() =~= Seq::empty());
    }
    assert(within(dims, index));
    lemma_unravel(dims, index);
}

/// A column repeated along rows.
proof fn lemma_column_repeated(c: Contents, x: Expr, rows: i64, columns: i64, i: int, j: int)
    requires
        x is Is,
        x->Is_0.dims == seq![rows],
        x.reshape(seq![rows, 1]).broadcast_to(seq![rows, columns]) is Is,
        0 <= i < rows,
        0 <= j < columns,
    ensures
        c.of(x.reshape(seq![rows, 1]).broadcast_to(seq![rows, columns]), i * columns + j) == c.of(
            x,
            i,
        ),
        x.reshape(seq![rows, 1]).broadcast_to(seq![rows, columns])->Is_0.dims == seq![
            rows,
            columns,
        ],
        x.reshape(seq![rows, 1]).broadcast_to(seq![rows, columns])->Is_0.dtype == x->Is_0.dtype,
        x.reshape(seq![rows, 1]).broadcast_to(seq![rows, columns])->Is_0.graph == x->Is_0.graph,
{
    broadcast use group_extents;

    reveal(Contents::at);
    reveal(applied);
    let y = x.reshape(seq![rows, 1]);
    let from = seq![rows, 1i64];
    let to = seq![rows, columns];
    let axes = span(0, 2);
    assert(y is Is);
    assert(c.of(y, i) == c.of(x, i));
    lemma_matrix_position(rows, columns, i, j);
    if from == to {
        assert(columns == to[1] && from[1] == 1);
        assert(i * 1 == i);
    } else {
        let index = narrowed_index(from, axes, seq![i, j]);
        assert(index =~= seq![i, 0int]);
        lemma_matrix_position(rows, 1, i, 0);
        assert(i * 1 == i);
    }
}

/// A row repeated along columns.
proof fn lemma_row_repeated(c: Contents, x: Expr, rows: i64, columns: i64, i: int, j: int)
    requires
        x is Is,
        x->Is_0.dims == seq![columns],
        x.reshape(seq![1, columns]).broadcast_to(seq![rows, columns]) is Is,
        0 <= i < rows,
        0 <= j < columns,
    ensures
        c.of(x.reshape(seq![1, columns]).broadcast_to(seq![rows, columns]), i * columns + j)
            == c.of(x, j),
        x.reshape(seq![1, columns]).broadcast_to(seq![rows, columns])->Is_0.dims == seq![
            rows,
            columns,
        ],
        x.reshape(seq![1, columns]).broadcast_to(seq![rows, columns])->Is_0.dtype == x->Is_0.dtype,
        x.reshape(seq![1, columns]).broadcast_to(seq![rows, columns])->Is_0.graph == x->Is_0.graph,
{
    broadcast use group_extents;

    reveal(Contents::at);
    reveal(applied);
    let y = x.reshape(seq![1, columns]);
    let from = seq![1i64, columns];
    let to = seq![rows, columns];
    let axes = span(0, 2);
    assert(y is Is);
    assert(c.of(y, j) == c.of(x, j));
    lemma_matrix_position(rows, columns, i, j);
    if from == to {
        assert(rows == to[0] && from[0] == 1);
        assert(0 * columns == 0);
    } else {
        let index = narrowed_index(from, axes, seq![i, j]);
        assert(index =~= seq![0int, j]);
        lemma_matrix_position(1, columns, 0, j);
        assert(0 * columns == 0);
    }
}

/// An entry of a causal mask is zero just where the key position does not exceed
/// the query position, compared as signed integers, and minus infinity
/// elsewhere.
#[verifier::spinoff_prover]
#[verifier::rlimit(80)]
pub proof fn causal_masks_admit_keys_up_to_the_query(
    c: Contents,
    query: Expr,
    key: Expr,
    i: int,
    j: int,
)
    requires
        logs_of_masks_are_exact(c),
        query.causal_attention_mask(key) is Is,
        0 <= i < query->Is_0.dims[0],
        0 <= j < key->Is_0.dims[0],
    ensures
        query.causal_attention_mask(key)->Is_0.dims == seq![
            query->Is_0.dims[0],
            key->Is_0.dims[0],
        ],
        c.of(query.causal_attention_mask(key), i * key->Is_0.dims[0] + j) == if word(c.of(key, j))
            <= word(c.of(query, i)) {
            F32_ZERO
        } else {
            F32_NEG_INFINITY
        },
{
    broadcast use group_extents;

    reveal(Expr::causal_attention_mask);
    let rows = query->Is_0.dims[0];
    let columns = key->Is_0.dims[0];
    let shape = seq![rows, columns];
    assert(query->Is_0.dims =~= seq![rows]);
    assert(key->Is_0.dims =~= seq![columns]);
    let q = query.reshape(seq![rows, 1i64]).broadcast_to(shape);
    let k = key.reshape(seq![1i64, columns]).broadcast_to(shape);
    let compared = k.le_mask(q);
    assert(q is Is && k is Is && compared is Is && compared.log() is Is);
    let position = i * columns + j;
    lemma_column_repeated(c, query, rows, columns, i, j);
    lemma_row_repeated(c, key, rows, columns, i, j);
    assert(compared->Is_0.dtype == DType::F32 && compared->Is_0.dims == shape && c.of(
        compared,
        position,
    ) == mask(word(c.of(k, position)) <= word(c.of(q, position)))) by {
        reveal(applied);
        reveal(Contents::at);
    }
    let logged = compared.log();
    assert(c.of(logged, position) == (c.log)(c.of(compared, position))) by {
        reveal(applied);
        reveal(Contents::at);
    }
    assert(c.of(logged.detach(), position) == c.of(logged, position)) by {
        reveal(applied);
        reveal(Contents::at);
    }
}

/// A static causal mask shows row `i` the keys up to `i` beyond the offset.
pub proof fn static_causal_masks_admit_keys_up_to_the_row(
    c: Contents,
    graph: u64,
    queries: i64,
    keys: i64,
    offset: i64,
    i: int,
    j: int,
)
    requires
        logs_of_masks_are_exact(c),
        causal_mask(graph, queries, keys, offset) is Is,
        0 <= i < queries,
        0 <= j < keys,
    ensures
        causal_mask(graph, queries, keys, offset)->Is_0.dims == seq![queries, keys],
        c.of(causal_mask(graph, queries, keys, offset), i * keys + j) == if j <= offset + i {
            F32_ZERO
        } else {
            F32_NEG_INFINITY
        },
{
    reveal(Expr::wrapping_add_scalar);
    let rows = iota(graph, seq![queries], 0);
    let query = rows.wrapping_add_scalar(offset as i32);
    let key = iota(graph, seq![keys], 0);
    assert(query.causal_attention_mask(key.given(query)) is Is);
    assert(query is Is && key is Is && rows is Is) by {
        reveal(Expr::causal_attention_mask);
    }
    assert(rows->Is_0.dims == seq![queries] && key->Is_0.dims == seq![keys] && c.of(rows, i)
        == wrapped(i) && c.of(key, j) == wrapped(j)) by {
        reveal(typed);
        reveal(Contents::at);
    }
    assert(inside(seq![queries], i)) by {
        assert(seq![queries].drop_last() =~= Seq::empty());
        assert(volume(seq![queries]) is Some) by {
            reveal(typed);
        }
        assert(volume(Seq::<i64>::empty()) == Some(1nat));
        assert(1 * queries == queries);
    }
    let filled = rows.filled_i32(offset as i32);
    lemma_filled(c, rows, offset as i32, i);
    lemma_add(c, rows, filled, i);
    assert(bits_of(offset as i32) == offset);
    assert(word(c.of(query, i)) == i + offset);
    assert(word(c.of(key, j)) == j);
    causal_masks_admit_keys_up_to_the_query(c, query, key, i, j);
}

/// The position of an index with three trailing coordinates.
proof fn lemma_trailing_position(
    prefix: Seq<i64>,
    sizes: (i64, i64, i64),
    at: Seq<int>,
    i: int,
    j: int,
    k: int,
)
    requires
        at.len() == prefix.len(),
    ensures
        ravel(prefix + seq![sizes.0, sizes.1, sizes.2], at + seq![i, j, k]) == ((ravel(prefix, at)
            * sizes.0 + i) * sizes.1 + j) * sizes.2 + k,
{
    let dims = prefix + seq![sizes.0, sizes.1, sizes.2];
    let index = at + seq![i, j, k];
    assert(dims.drop_last() =~= prefix + seq![sizes.0, sizes.1]);
    assert(index.drop_last() =~= at + seq![i, j]);
    assert((prefix + seq![sizes.0, sizes.1]).drop_last() =~= prefix + seq![sizes.0]);
    assert((at + seq![i, j]).drop_last() =~= at + seq![i]);
    assert((prefix + seq![sizes.0]).drop_last() =~= prefix);
    assert((at + seq![i]).drop_last() =~= at);
    reveal_with_fuel(ravel, 4);
}

/// Whether an index with three trailing coordinates lies within the extents.
proof fn lemma_trailing_within(
    prefix: Seq<i64>,
    sizes: (i64, i64, i64),
    at: Seq<int>,
    i: int,
    j: int,
    k: int,
)
    requires
        within(prefix, at),
        0 <= i < sizes.0,
        0 <= j < sizes.1,
        0 <= k < sizes.2,
    ensures
        within(prefix + seq![sizes.0, sizes.1, sizes.2], at + seq![i, j, k]),
{
    let dims = prefix + seq![sizes.0, sizes.1, sizes.2];
    let index = at + seq![i, j, k];
    assert forall|n: int| 0 <= n < dims.len() implies 0 <= #[trigger] index[n] < dims[n] by {
        if n < prefix.len() {
            assert(0 <= at[n] < prefix[n]);
        }
    }
}

/// Grouping heads into rows keeps the row-major position: head `t` of group `g`
/// becomes the rows from `t` times the queries on.
proof fn lemma_grouped_position(
    p: int,
    groups: int,
    members: int,
    queries: int,
    depth: int,
    g: int,
    t: int,
    i: int,
    e: int,
)
    ensures
        ((p * groups + g) * (queries * members) + (t * queries + i)) * depth + e == ((p * (groups
            * members) + (g * members + t)) * queries + i) * depth + e,
{
    assert((p * groups + g) * (queries * members) + (t * queries + i) == (p * (groups * members)
        + (g * members + t)) * queries + i) by (nonlinear_arith);
}

/// Consecutive heads grouped into rows.
proof fn lemma_grouped(
    x: Expr,
    prefix: Seq<i64>,
    groups: i64,
    members: int,
    queries: i64,
    depth: i64,
    at: Seq<int>,
    g: int,
    t: int,
    i: int,
    e: int,
)
    requires
        0 <= groups * members <= i64::MAX,
        0 <= queries * members <= i64::MAX,
        within(prefix, at),
        0 <= g < groups,
        0 <= t < members,
        0 <= i < queries,
        0 <= e < depth,
    ensures
        ({
            let heads = prefix + seq![(groups * members) as i64, queries, depth];
            let rows = prefix + seq![groups, (queries * members) as i64, depth];
            let split = at + seq![g * members + t, i, e];
            let merged = at + seq![g, t * queries + i, e];
            &&& x is Is && x->Is_0.dims == heads && x.reshape(rows) is Is ==> copied(
                x.reshape(rows),
                merged,
            ) == copied(x, split)
            &&& x is Is && x->Is_0.dims == rows && x.reshape(heads) is Is ==> copied(
                x.reshape(heads),
                split,
            ) == copied(x, merged)
        }),
{
    let all = groups * members;
    let height = queries * members;
    let heads = prefix + seq![all as i64, queries, depth];
    let rows = prefix + seq![groups, height as i64, depth];
    let split = at + seq![g * members + t, i, e];
    let merged = at + seq![g, t * queries + i, e];
    assert(0 <= g * members + t < all) by (nonlinear_arith)
        requires
            0 <= g < groups,
            0 <= t < members,
            all == groups * members,
    ;
    assert(0 <= t * queries + i < height) by (nonlinear_arith)
        requires
            0 <= t < members,
            0 <= i < queries,
            height == queries * members,
    ;
    lemma_trailing_position(prefix, (all as i64, queries, depth), at, g * members + t, i, e);
    lemma_trailing_position(prefix, (groups, height as i64, depth), at, g, t * queries + i, e);
    lemma_grouped_position(
        ravel(prefix, at),
        groups as int,
        members,
        queries as int,
        depth as int,
        g,
        t,
        i,
        e,
    );
    lemma_trailing_within(prefix, (all as i64, queries, depth), at, g * members + t, i, e);
    lemma_trailing_within(prefix, (groups, height as i64, depth), at, g, t * queries + i, e);
    lemma_unravel(heads, split);
    lemma_unravel(rows, merged);
    if x is Is && x->Is_0.dims == heads && x.reshape(rows) is Is {
        reshape_keeps_the_order(x, rows, merged);
    }
    if x is Is && x->Is_0.dims == rows && x.reshape(heads) is Is {
        reshape_keeps_the_order(x, heads, split);
    }
}

/// What grouped attention is built of: queries and bias with the heads of each
/// group as rows, attended to the keys and values as they are.
pub open spec fn grouped_parts(
    query: Value,
    key: Value,
    value: Value,
    bias: Option<Expr>,
    scale: Option<u32>,
) -> (Expr, Option<Expr>, Expr) {
    let head = query.dims.len() - 3;
    let rows = query.dims[head + 1] * (query.dims[head] / key.dims[head]);
    let grouped = query.dims.update(head, key.dims[head]).update(head + 1, rows as i64);
    let grouped_bias = match bias {
        None => None,
        Some(b) => Some(
            b.broadcast_to(query.dims.update(head + 2, key.dims[head + 1])).reshape(
                grouped.update(head + 2, key.dims[head + 1]),
            ),
        ),
    };
    let queries = Expr::Is(query).reshape(grouped);
    (
        queries,
        grouped_bias,
        queries.scaled_dot_product_attention(
            Expr::Is(key),
            Expr::Is(value),
            grouped_bias,
            scale,
        ),
    )
}

/// Attention needs all of its operands.
proof fn lemma_attention_strict(
    query: Expr,
    key: Expr,
    value: Expr,
    bias: Option<Expr>,
    scale: Option<u32>,
)
    requires
        query.scaled_dot_product_attention(key, value, bias, scale) is Is,
    ensures
        query is Is,
        bias is Some ==> bias->0 is Is,
{
    reveal(Expr::scaled_dot_product_attention);
}

/// Grouped attention restores the layout of the queries.
pub(crate) proof fn lemma_grouped_built(
    query: Value,
    key: Value,
    value: Value,
    bias: Option<Expr>,
    scale: Option<u32>,
)
    requires
        bias matches Some(b) ==> b is Is,
        Expr::Is(query).grouped_query_attention(Expr::Is(key), Expr::Is(value), bias, scale) is Is,
    ensures
        query.dims.len() >= 3,
        key.dims.len() == query.dims.len(),
        value.dims.len() == query.dims.len(),
        heads_fit(query.dims, key.dims, value.dims),
        ({
            let head = query.dims.len() - 3;
            let (queries, grouped_bias, attended) = grouped_parts(query, key, value, bias, scale);
            &&& query.dims[head + 1] * (query.dims[head] / key.dims[head]) <= i64::MAX
            &&& queries is Is && attended is Is && (bias is Some ==> grouped_bias->0 is Is)
            &&& Expr::Is(query).grouped_query_attention(
                Expr::Is(key),
                Expr::Is(value),
                bias,
                scale,
            ) == attended.reshape(query.dims.update(head + 2, value.dims[head + 2]))
        }),
{
    broadcast use group_extents;

    let (queries, grouped_bias, attended) = grouped_parts(query, key, value, bias, scale);
    let held = match grouped_bias {
        None => queries,
        Some(b) => queries.given(b),
    };
    lemma_attention_strict(held, Expr::Is(key), Expr::Is(value), grouped_bias, scale);
}

/// Consecutive query heads share one key/value head: head `t` of group `g` reads
/// head `g` of keys and values, its queries, bias and results standing at the
/// rows from `t` times the number of queries on.
pub proof fn consecutive_query_heads_share_a_head(
    query: Value,
    key: Value,
    value: Value,
    bias: Option<Expr>,
    scale: Option<u32>,
    at: Seq<int>,
    g: int,
    t: int,
    i: int,
    column: int,
)
    requires
        volume(query.dims) is Some,
        volume(key.dims) is Some,
        bias matches Some(b) ==> b is Is,
        Expr::Is(query).grouped_query_attention(Expr::Is(key), Expr::Is(value), bias, scale) is Is,
        within(query.dims.take(query.dims.len() - 3), at),
        0 <= g < key.dims[query.dims.len() - 3],
        0 <= t < query.dims[query.dims.len() - 3] / key.dims[query.dims.len() - 3],
        0 <= i < query.dims[query.dims.len() - 2],
        0 <= column,
    ensures
        ({
            let head = query.dims.len() - 3;
            let members = query.dims[head] as int / key.dims[head] as int;
            let split = at + seq![g * members + t, i, column];
            let merged = at + seq![g, t * query.dims[head + 1] + i, column];
            let (queries, grouped_bias, attended) = grouped_parts(query, key, value, bias, scale);
            &&& column < query.dims[head + 2] ==> copied(queries, merged) == copied(
                Expr::Is(query),
                split,
            )
            &&& bias is Some && column < key.dims[head + 1] ==> copied(grouped_bias->0, merged)
                == copied(
                bias->0.broadcast_to(query.dims.update(head + 2, key.dims[head + 1])),
                split,
            )
            &&& column < value.dims[head + 2] ==> copied(
                Expr::Is(query).grouped_query_attention(
                    Expr::Is(key),
                    Expr::Is(value),
                    bias,
                    scale,
                ),
                split,
            ) == copied(attended, merged)
        }),
{
    let head = query.dims.len() - 3;
    lemma_grouped_built(query, key, value, bias, scale);
    if column < query.dims[head + 2] {
        lemma_grouped_queries(query, key, value, bias, scale, at, g, t, i, column);
    }
    if bias is Some && column < key.dims[head + 1] {
        lemma_grouped_bias(query, key, value, bias, scale, at, g, t, i, column);
    }
    if column < value.dims[head + 2] {
        lemma_grouped_result(query, key, value, bias, scale, at, g, t, i, column);
    }
}

/// The numbers of grouped heads.
pub(crate) proof fn lemma_head_numbers(query: Seq<i64>, key: Seq<i64>, value: Seq<i64>)
    requires
        query.len() >= 3,
        heads_fit(query, key, value),
        volume(query) is Some,
    ensures
        ({
            let head = query.len() - 3;
            let members = query[head] as int / key[head] as int;
            &&& query == query.take(head) + seq![query[head], query[head + 1], query[head + 2]]
            &&& query[head] == key[head] * members
            &&& 0 <= query[head + 1] * members
            &&& 0 <= key[head] * members <= i64::MAX
        }),
{
    let head = query.len() - 3;
    let members = query[head] as int / key[head] as int;
    lemma_volume_nonnegative(query);
    lemma_fundamental_div_mod(query[head] as int, key[head] as int);
    assert(query =~= query.take(head) + seq![query[head], query[head + 1], query[head + 2]]);
    let n = query[head + 1] as int;
    assert(0 <= n * members) by (nonlinear_arith)
        requires
            n >= 0,
            members >= 0,
    ;
}

proof fn lemma_grouped_queries(
    query: Value,
    key: Value,
    value: Value,
    bias: Option<Expr>,
    scale: Option<u32>,
    at: Seq<int>,
    g: int,
    t: int,
    i: int,
    column: int,
)
    requires
        volume(query.dims) is Some,
        bias matches Some(b) ==> b is Is,
        Expr::Is(query).grouped_query_attention(Expr::Is(key), Expr::Is(value), bias, scale) is Is,
        within(query.dims.take(query.dims.len() - 3), at),
        0 <= g < key.dims[query.dims.len() - 3],
        0 <= t < query.dims[query.dims.len() - 3] / key.dims[query.dims.len() - 3],
        0 <= i < query.dims[query.dims.len() - 2],
        0 <= column < query.dims[query.dims.len() - 1],
    ensures
        ({
            let head = query.dims.len() - 3;
            let members = query.dims[head] as int / key.dims[head] as int;
            copied(
                grouped_parts(query, key, value, bias, scale).0,
                at + seq![g, t * query.dims[head + 1] + i, column],
            ) == copied(Expr::Is(query), at + seq![g * members + t, i, column])
        }),
{
    lemma_grouped_built(query, key, value, bias, scale);
    lemma_head_numbers(query.dims, key.dims, value.dims);
    let head = query.dims.len() - 3;
    let prefix = query.dims.take(head);
    let groups = key.dims[head];
    let members = query.dims[head] as int / groups as int;
    let (n, depth) = (query.dims[head + 1], query.dims[head + 2]);
    assert(query.dims.update(head, groups).update(head + 1, (n * members) as i64) =~= prefix + seq![
        groups,
        (n * members) as i64,
        depth,
    ]);
    lemma_grouped(Expr::Is(query), prefix, groups, members, n, depth, at, g, t, i, column);
}

proof fn lemma_grouped_bias(
    query: Value,
    key: Value,
    value: Value,
    bias: Option<Expr>,
    scale: Option<u32>,
    at: Seq<int>,
    g: int,
    t: int,
    i: int,
    column: int,
)
    requires
        volume(query.dims) is Some,
        bias is Some,
        bias matches Some(b) ==> b is Is,
        Expr::Is(query).grouped_query_attention(Expr::Is(key), Expr::Is(value), bias, scale) is Is,
        within(query.dims.take(query.dims.len() - 3), at),
        0 <= g < key.dims[query.dims.len() - 3],
        0 <= t < query.dims[query.dims.len() - 3] / key.dims[query.dims.len() - 3],
        0 <= i < query.dims[query.dims.len() - 2],
        0 <= column < key.dims[query.dims.len() - 2],
    ensures
        ({
            let head = query.dims.len() - 3;
            let members = query.dims[head] as int / key.dims[head] as int;
            copied(
                grouped_parts(query, key, value, bias, scale).1->0,
                at + seq![g, t * query.dims[head + 1] + i, column],
            ) == copied(
                bias->0.broadcast_to(query.dims.update(head + 2, key.dims[head + 1])),
                at + seq![g * members + t, i, column],
            )
        }),
{
    lemma_grouped_built(query, key, value, bias, scale);
    lemma_head_numbers(query.dims, key.dims, value.dims);
    let head = query.dims.len() - 3;
    let prefix = query.dims.take(head);
    let groups = key.dims[head];
    let members = query.dims[head] as int / groups as int;
    let (n, keys) = (query.dims[head + 1], key.dims[head + 1]);
    let rows = (n * members) as i64;
    let wide = bias->0.broadcast_to(query.dims.update(head + 2, keys));
    let grouped = query.dims.update(head, groups).update(head + 1, rows);
    assert(grouped.update(head + 2, keys) =~= prefix + seq![groups, rows, keys]);
    assert(query.dims.update(head + 2, keys) =~= prefix + seq![query.dims[head], n, keys]);
    broadcast_to_lands(bias->0, query.dims.update(head + 2, keys));
    reshape_lands(wide, grouped.update(head + 2, keys));
    lemma_grouped(wide, prefix, groups, members, n, keys, at, g, t, i, column);
}

proof fn lemma_grouped_result(
    query: Value,
    key: Value,
    value: Value,
    bias: Option<Expr>,
    scale: Option<u32>,
    at: Seq<int>,
    g: int,
    t: int,
    i: int,
    column: int,
)
    requires
        volume(query.dims) is Some,
        bias matches Some(b) ==> b is Is,
        Expr::Is(query).grouped_query_attention(Expr::Is(key), Expr::Is(value), bias, scale) is Is,
        within(query.dims.take(query.dims.len() - 3), at),
        0 <= g < key.dims[query.dims.len() - 3],
        0 <= t < query.dims[query.dims.len() - 3] / key.dims[query.dims.len() - 3],
        0 <= i < query.dims[query.dims.len() - 2],
        0 <= column < value.dims[query.dims.len() - 1],
    ensures
        ({
            let head = query.dims.len() - 3;
            let members = query.dims[head] as int / key.dims[head] as int;
            copied(
                Expr::Is(query).grouped_query_attention(
                    Expr::Is(key),
                    Expr::Is(value),
                    bias,
                    scale,
                ),
                at + seq![g * members + t, i, column],
            ) == copied(
                grouped_parts(query, key, value, bias, scale).2,
                at + seq![g, t * query.dims[head + 1] + i, column],
            )
        }),
{
    lemma_grouped_built(query, key, value, bias, scale);
    lemma_head_numbers(query.dims, key.dims, value.dims);
    let head = query.dims.len() - 3;
    let prefix = query.dims.take(head);
    let groups = key.dims[head];
    let members = query.dims[head] as int / groups as int;
    let (n, depth, width) = (query.dims[head + 1], query.dims[head + 2], value.dims[head + 2]);
    let rows = (n * members) as i64;
    let (queries, grouped_bias, attended) = grouped_parts(query, key, value, bias, scale);
    let grouped = query.dims.update(head, groups).update(head + 1, rows);
    reshape_lands(Expr::Is(query), grouped);
    attention_has_a_row_per_query(queries->Is_0, key, value, grouped_bias, scale);
    let batch = prefix + seq![groups];
    assert(batch_of(grouped) =~= batch);
    assert(batch_of(key.dims) =~= batch) by {
        assert(key.dims.take(head) == prefix);
        assert forall|a: int| 0 <= a < head implies key.dims[a] == prefix[a] by {
            assert(key.dims.take(head)[a] == prefix[a]);
        }
    }
    assert(batch_of(value.dims) =~= batch) by {
        assert(value.dims.take(head) == prefix);
        assert forall|a: int| 0 <= a < head implies value.dims[a] == prefix[a] by {
            assert(value.dims.take(head)[a] == prefix[a]);
        }
    }
    assert(broadcast_shape(batch, batch) =~= batch);
    assert(attended->Is_0.dims =~= prefix + seq![groups, rows, width]);
    assert(query.dims.update(head + 2, width) =~= prefix + seq![query.dims[head], n, width]);
    lemma_grouped(attended, prefix, groups, members, n, width, at, g, t, i, column);
}

/// The recorded attention and its operands.
proof fn lemma_attention_recorded(
    query: Value,
    key: Value,
    value: Value,
    bias: Option<Expr>,
    scale: Option<u32>,
)
    requires
        Expr::Is(query).scaled_dot_product_attention(
            Expr::Is(key),
            Expr::Is(value),
            bias,
            scale,
        ) is Is,
    ensures
        ({
            let z = Expr::Is(query).scaled_dot_product_attention(
                Expr::Is(key),
                Expr::Is(value),
                bias,
                scale,
            )->Is_0;
            let batch = attention_batch(query.dims, key.dims, value.dims);
            let scores = batch + seq![
                query.dims[query.dims.len() - 2],
                key.dims[key.dims.len() - 2],
            ];
            &&& z.op == (OpModel::Attention {
                scale: score_scale(scale, query.dims[query.dims.len() - 1]),
            })
            &&& z.args.len() == if bias is Some {
                4
            } else {
                3nat
            }
            &&& Expr::Is(query).broadcast_to(batch + last_two(query.dims)) == Expr::Is(z.args[0])
            &&& Expr::Is(key).broadcast_to(batch + last_two(key.dims)) == Expr::Is(z.args[1])
            &&& Expr::Is(value).broadcast_to(batch + last_two(value.dims)) == Expr::Is(z.args[2])
            &&& bias matches Some(b) ==> b is Is && b.broadcast_to(scores) == Expr::Is(z.args[3])
        }),
{
    reveal(Expr::scaled_dot_product_attention);
    reveal(typed);
}

/// The leading extents of an attention.
pub open spec fn attention_batch(q: Seq<i64>, k: Seq<i64>, v: Seq<i64>) -> Seq<i64> {
    broadcast_shape(broadcast_shape(batch_of(q), batch_of(k)), batch_of(v))
}

/// A broadcast reads its operand at the pulled index.
pub(crate) proof fn lemma_pulled(x: Expr, dims: Seq<i64>, index: Seq<int>)
    requires
        x.broadcast_to(dims) is Is,
        within(dims, index),
        dims.len() <= usize::MAX + 1,
    ensures
        copied(x.broadcast_to(dims), index) == copied(x, pulled(x->Is_0.dims, index)),
{
    broadcasting_repeats(x, dims, index);
    let from = x->Is_0.dims;
    let source = Seq::new(
        from.len(),
        |i: int|
            if from[i] == 1 {
                0
            } else {
                index[i + dims.len() - from.len()]
            },
    );
    assert(source =~= pulled(from, index));
}

/// An index with two trailing coordinates lies within the extents.
proof fn lemma_pair_within(batch: Seq<i64>, sizes: (i64, i64), at: Seq<int>, i: int, j: int)
    requires
        within(batch, at),
        0 <= i < sizes.0,
        0 <= j < sizes.1,
    ensures
        within(batch + seq![sizes.0, sizes.1], at + seq![i, j]),
{
    let dims = batch + seq![sizes.0, sizes.1];
    let index = at + seq![i, j];
    assert forall|n: int| 0 <= n < dims.len() implies 0 <= #[trigger] index[n] < dims[n] by {
        if n < batch.len() {
            assert(0 <= at[n] < batch[n]);
        }
    }
}

/// Attention is recorded as one operation, with the given scale or one over the
/// root of the depth, on queries, keys, values and bias that repeat along the
/// leading axes that they lack.
pub proof fn attention_reads_broadcast_operands(
    query: Value,
    key: Value,
    value: Value,
    bias: Option<Expr>,
    scale: Option<u32>,
    at: Seq<int>,
    i: int,
    j: int,
    column: int,
)
    requires
        Expr::Is(query).scaled_dot_product_attention(
            Expr::Is(key),
            Expr::Is(value),
            bias,
            scale,
        ) is Is,
        attention_batch(query.dims, key.dims, value.dims).len() + 2 <= usize::MAX,
        within(attention_batch(query.dims, key.dims, value.dims), at),
        0 <= i < query.dims[query.dims.len() - 2],
        0 <= j < key.dims[key.dims.len() - 2],
        0 <= column,
    ensures
        ({
            let z = Expr::Is(query).scaled_dot_product_attention(
                Expr::Is(key),
                Expr::Is(value),
                bias,
                scale,
            )->Is_0;
            &&& z.op == (OpModel::Attention {
                scale: score_scale(scale, query.dims[query.dims.len() - 1]),
            })
            &&& z.args.len() == if bias is Some {
                4
            } else {
                3nat
            }
            &&& column < query.dims[query.dims.len() - 1] ==> origin(
                z.args[0],
                at + seq![i, column],
            ) == origin(query, pulled(query.dims, at + seq![i, column]))
            &&& column < key.dims[key.dims.len() - 1] ==> origin(z.args[1], at + seq![j, column])
                == origin(key, pulled(key.dims, at + seq![j, column]))
            &&& column < value.dims[value.dims.len() - 1] ==> origin(
                z.args[2],
                at + seq![j, column],
            ) == origin(value, pulled(value.dims, at + seq![j, column]))
            &&& bias matches Some(b) ==> origin(z.args[3], at + seq![i, j]) == copied(
                b,
                pulled(b->Is_0.dims, at + seq![i, j]),
            )
        }),
{
    lemma_attention_recorded(query, key, value, bias, scale);
    let batch = attention_batch(query.dims, key.dims, value.dims);
    let q = last_two(query.dims);
    let k = last_two(key.dims);
    let v = last_two(value.dims);
    assert(v[0] == k[0]) by {
        reveal(Expr::scaled_dot_product_attention);
    }
    if column < q[1] {
        lemma_pair_within(batch, (q[0], q[1]), at, i, column);
        lemma_pulled(Expr::Is(query), batch + q, at + seq![i, column]);
    }
    if column < k[1] {
        lemma_pair_within(batch, (k[0], k[1]), at, j, column);
        lemma_pulled(Expr::Is(key), batch + k, at + seq![j, column]);
    }
    if column < v[1] {
        lemma_pair_within(batch, (v[0], v[1]), at, j, column);
        lemma_pulled(Expr::Is(value), batch + v, at + seq![j, column]);
    }
    if let Some(b) = bias {
        lemma_pair_within(batch, (q[0], k[0]), at, i, j);
        lemma_pulled(b, batch + seq![q[0], k[0]], at + seq![i, j]);
    }
}

} // verus!


