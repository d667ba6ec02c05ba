//! What attention is, as numbers.
use crate::attention::last_two;
use crate::elements::within;
use crate::extents::attention_has_a_row_per_query;
use crate::graph::{Expr, Value};
use crate::likelihoods::lemma_positive_total;
use crate::masks::{
    attention_batch, attention_reads_broadcast_operands, consecutive_query_heads_share_a_head,
    grouped_parts, lemma_grouped_built, lemma_head_numbers, lemma_pulled,
};
use crate::matmul::{batch_of, broadcast_shape};
use crate::normalizations::lemma_root;
use crate::numbers::{total, Numbers};
use crate::products::pulled;
use crate::shape::volume;
use vstd::prelude::*;

verus! {

/// Whether scores are multiplied by a factor: the one asked for, or the positive
/// one whose square times the depth is one.
pub open spec fn scores_are_scaled_by(
    n: Numbers,
    scale: Option<u32>,
    depth: i64,
    factor: real,
) -> bool {
    match scale {
        Some(bits) => factor == (n.literal)(bits),
        None => factor > 0 as real && factor * factor * (depth as real) == 1 as real,
    }
}

/// The inner product of a query and a key.
pub open spec fn likeness(n: Numbers, query: Value, key: Value, q: Seq<int>, k: Seq<int>) -> real {
    total(
        Seq::new(
            query.dims.last() as nat,
            |d: int|
                n.of(query, pulled(query.dims, q + seq![d])) * n.of(
                    key,
                    pulled(key.dims, k + seq![d]),
                ),
        ),
    )
}

/// The number that a bias adds to the score of a key for a query.
pub open spec fn bias_of(n: Numbers, bias: Option<Expr>, at: Seq<int>) -> real {
    match bias {
        None => 0 as real,
        Some(b) => n.at(b, pulled(b->Is_0.dims, at)),
    }
}

/// Whether a number is the mean of numbers, each weighed by the exponential of
/// its score.
pub open spec fn weighed(n: Numbers, scores: Seq<real>, numbers: Seq<real>, mean: real) -> bool {
    let weights = Seq::new(scores.len(), |j: int| (n.exp)(scores[j]));
    &&& scores.len() == numbers.len() > 0
    &&& total(weights) > 0 as real
    &&& mean * total(weights) == total(Seq::new(scores.len(), |j: int| weights[j] * numbers[j]))
}

/// The scores of all keys for a query.
pub open spec fn scores_of(
    n: Numbers,
    query: Value,
    key: Value,
    bias: Option<Expr>,
    factor: real,
    at: Seq<int>,
    i: int,
) -> Seq<real> {
    Seq::new(
        key.dims[key.dims.len() - 2] as nat,
        |j: int|
            likeness(n, query, key, at + seq![i], at + seq![j]) * factor + bias_of(
                n,
                bias,
                at + seq![i, j],
            ),
    )
}

/// One over a positive root, squared, is one over the number; and no other
/// positive number is.
proof fn lemma_inverse_root(s: real, depth: real, factor: real)
    by (nonlinear_arith)
    requires
        s > 0 as real,
        s * s == depth,
        factor > 0 as real,
        factor * factor * depth == 1 as real,
    ensures
        1 as real / s == factor,
{
    let r = 1 as real / s;
    assert(r * s == 1 as real);
    assert((factor * s) * (factor * s) == 1 as real);
    assert(factor * s > 0 as real);
    assert((factor * s - 1 as real) * (factor * s + 1 as real) == 0 as real);
    assert(factor * s == 1 as real);
    assert(factor == r);
}

proof fn lemma_inverse_exists(s: real, depth: real)
    by (nonlinear_arith)
    requires
        s > 0 as real,
        s * s == depth,
    ensures
        1 as real / s > 0 as real,
        (1 as real / s) * (1 as real / s) * depth == 1 as real,
{
    let r = 1 as real / s;
    assert(r * s == 1 as real);
    assert(r * r * (s * s) == (r * s) * (r * s));
}

/// There is exactly one factor of the scores.
pub proof fn scores_have_one_factor(
    n: Numbers,
    scale: Option<u32>,
    depth: i64,
    one: real,
    other: real,
)
    requires
        n.rooted(),
        depth > 0,
    ensures
        exists|factor: real| #[trigger] scores_are_scaled_by(n, scale, depth, factor),
        scores_are_scaled_by(n, scale, depth, one) && scores_are_scaled_by(n, scale, depth, other)
            ==> one == other,
{
    match scale {
        Some(bits) => {
            assert(scores_are_scaled_by(n, scale, depth, (n.literal)(bits)));
        },
        None => {
            let s = (n.sqrt)(depth as real);
            lemma_root(n, depth as real);
            lemma_inverse_exists(s, depth as real);
            assert(scores_are_scaled_by(n, scale, depth, 1 as real / s));
            if scores_are_scaled_by(n, scale, depth, one) && scores_are_scaled_by(
                n,
                scale,
                depth,
                other,
            ) {
                lemma_inverse_root(s, depth as real, one);
                lemma_inverse_root(s, depth as real, other);
            }
        },
    }
}

/// Attention gives each query the mean of the values, each weighed by the
/// exponential of the score of its key: the inner product of the query and the
/// key, times the factor of the scores, plus the bias of the pair.
#[verifier::rlimit(40)]
pub proof fn attention_weighs_values_by_scores(
    n: Numbers,
    query: Value,
    key: Value,
    value: Value,
    bias: Option<Expr>,
    scale: Option<u32>,
    factor: real,
    at: Seq<int>,
    i: int,
    column: int,
)
    requires
        n.lawful(),
        Expr::Is(query).scaled_dot_product_attention(
            Expr::Is(key),
            Expr::Is(value),
            bias,
            scale,
        ) is Is,
        attention_batch(query.dims, key.dims, value.dims).len() + 2 <= usize::MAX,
        within(attention_batch(query.dims, key.dims, value.dims), at),
        0 <= i < query.dims[query.dims.len() - 2],
        0 <= column < value.dims.last(),
        key.dims[key.dims.len() - 2] > 0,
        scores_are_scaled_by(n, scale, query.dims.last(), factor),
    ensures
        weighed(
            n,
            scores_of(n, query, key, bias, factor, at, i),
            Seq::new(
                key.dims[key.dims.len() - 2] as nat,
                |j: int| n.of(value, pulled(value.dims, at + seq![j, column])),
            ),
            n.at(
                Expr::Is(query).scaled_dot_product_attention(
                    Expr::Is(key),
                    Expr::Is(value),
                    bias,
                    scale,
                ),
                at + seq![i, column],
            ),
        ),
{
    let made = Expr::Is(query).scaled_dot_product_attention(
        Expr::Is(key),
        Expr::Is(value),
        bias,
        scale,
    );
    let z = made->Is_0;
    let batch = attention_batch(query.dims, key.dims, value.dims);
    let index = at + seq![i, column];
    let depth = query.dims.last();
    let keys = key.dims[key.dims.len() - 2];
    attention_has_a_row_per_query(query, key, value, bias, scale);
    attention_reads_broadcast_operands(query, key, value, bias, scale, at, i, 0, 0);
    assert(depth > 0 && key.dims.last() == depth && value.dims.len() >= 2) by {
        reveal(Expr::scaled_dot_product_attention);
    }
    assert(z.dims == batch + seq![query.dims[query.dims.len() - 2], value.dims.last()]);
    assert(within(z.dims, index)) by {
        assert forall|a: int| 0 <= a < z.dims.len() implies 0 <= #[trigger] index[a] < z.dims[a] by {
            if a < batch.len() {
                assert(0 <= at[a] < batch[a]);
            }
        }
    }
    let recorded = z.op->Attention_scale;
    assert(n.constant(recorded) == factor) by {
        if scale is None {
            lemma_root(n, depth as real);
            lemma_inverse_root((n.sqrt)(depth as real), depth as real, factor);
        }
    }
    assert(z.args[0].dims.last() == depth && z.args[1].dims[z.args[1].dims.len() - 2] == keys) by {
        lemma_operand_dims(query, key, value, bias, scale);
    }
    let scores = scores_of(n, query, key, bias, factor, at, i);
    let weights = n.weights(z.args, recorded, at, i);
    let wanted = Seq::new(scores.len(), |j: int| (n.exp)(scores[j]));
    assert forall|j: int| 0 <= j < keys implies #[trigger] weights[j] == wanted[j] by {
        let mine = Seq::new(
            z.args[0].dims.last() as nat,
            |d: int| n.of(z.args[0], at + seq![i, d]) * n.of(z.args[1], at + seq![j, d]),
        );
        let theirs = Seq::new(
            depth as nat,
            |d: int|
                n.of(query, pulled(query.dims, at + seq![i] + seq![d])) * n.of(
                    key,
                    pulled(key.dims, at + seq![j] + seq![d]),
                ),
        );
        assert forall|d: int| 0 <= d < depth implies #[trigger] mine[d] == theirs[d] by {
            attention_reads_broadcast_operands(query, key, value, bias, scale, at, i, j, d);
            assert(at + seq![i] + seq![d] =~= at + seq![i, d]);
            assert(at + seq![j] + seq![d] =~= at + seq![j, d]);
        }
        assert(mine =~= theirs);
        attention_reads_broadcast_operands(query, key, value, bias, scale, at, i, j, 0);
        assert(n.score(z.args, recorded, at, i, j) == scores[j]);
    }
    assert(weights =~= wanted);
    let numbers = Seq::new(
        keys as nat,
        |j: int| n.of(value, pulled(value.dims, at + seq![j, column])),
    );
    let mine = Seq::new(
        weights.len(),
        |j: int| weights[j] * n.of(z.args[2], at + seq![j, column]),
    );
    let theirs = Seq::new(scores.len(), |j: int| wanted[j] * numbers[j]);
    assert forall|j: int| 0 <= j < keys implies #[trigger] mine[j] == theirs[j] by {
        attention_reads_broadcast_operands(query, key, value, bias, scale, at, i, j, column);
    }
    assert(mine =~= theirs);
    assert(index.take(index.len() - 2) =~= at);
    assert(n.obeys(z, index));
    reveal(Numbers::obeys);
    assert(n.at(made, index) * total(weights) == total(mine));
    lemma_positive_total(wanted);
}

/// The operands of an attention keep their last two extents.
#[verifier::rlimit(40)]
proof fn lemma_operand_dims(
    query: Value,
    key: Value,
    value: Value,
    bias: Option<Expr>,
    scale: Option<u32>,
)
    requires
        Expr::Is(query).scaled_dot_product_attention(
            Expr::Is(key),
            Expr::Is(value),
            bias,
            scale,
        ) is Is,
    ensures
        ({
            let z = Expr::Is(query).scaled_dot_product_attention(
                Expr::Is(key),
                Expr::Is(value),
                bias,
                scale,
            )->Is_0;
            let batch = attention_batch(query.dims, key.dims, value.dims);
            &&& z.op is Attention
            &&& z.args[0].dims == batch + last_two(query.dims)
            &&& z.args[1].dims == batch + last_two(key.dims)
            &&& z.args[2].dims == batch + last_two(value.dims)
        }),
{
    broadcast use crate::facts::group_extents;

    reveal(Expr::scaled_dot_product_attention);
    reveal(crate::graph::typed);
}

/// An index within the extents is its own source.
pub(crate) proof fn lemma_pulled_within(dims: Seq<i64>, index: Seq<int>)
    requires
        within(dims, index),
    ensures
        pulled(dims, index) == index,
{
    assert forall|a: int| 0 <= a < dims.len() implies #[trigger] pulled(dims, index)[a]
        == index[a] by {
        assert(0 <= index[a] < dims[a]);
    }
    assert(pulled(dims, index) =~= index);
}

/// The extents of grouped attention, and of the attention it is built of.
#[verifier::rlimit(40)]
proof fn lemma_grouped_extents(
    query: Value,
    key: Value,
    value: Value,
    bias: Option<Expr>,
    scale: Option<u32>,
)
    requires
        volume(query.dims) is Some,
        bias matches Some(b) ==> b is Is,
        Expr::Is(query).grouped_query_attention(Expr::Is(key), Expr::Is(value), bias, scale) is Is,
    ensures
        ({
            let head = query.dims.len() - 3;
            let prefix = query.dims.take(head);
            let groups = key.dims[head];
            let members = query.dims[head] as int / groups as int;
            let rows = (query.dims[head + 1] * members) as i64;
            let (queries, grouped_bias, attended) = grouped_parts(query, key, value, bias, scale);
            &&& rows == query.dims[head + 1] * members
            &&& query.dims == prefix + seq![
                query.dims[head],
                query.dims[head + 1],
                query.dims[head + 2],
            ]
            &&& key.dims == prefix + seq![groups, key.dims[head + 1], key.dims[head + 2]]
            &&& value.dims == prefix + seq![groups, value.dims[head + 1], value.dims[head + 2]]
            &&& queries is Is && queries->Is_0.dims == prefix + seq![
                groups,
                rows,
                query.dims[head + 2],
            ]
            &&& attention_batch(queries->Is_0.dims, key.dims, value.dims) == prefix + seq![groups]
            &&& bias is Some ==> grouped_bias->0 is Is && grouped_bias->0->Is_0.dims == prefix
                + seq![groups, rows, key.dims[head + 1]]
        }),
{
    broadcast use crate::facts::group_extents;

    lemma_grouped_built(query, key, value, bias, scale);
    lemma_head_numbers(query.dims, key.dims, value.dims);
    let head = query.dims.len() - 3;
    let prefix = query.dims.take(head);
    let groups = key.dims[head];
    let members = query.dims[head] as int / groups as int;
    let rows = (query.dims[head + 1] * members) as i64;
    let (queries, grouped_bias, attended) = grouped_parts(query, key, value, bias, scale);
    let grouped = query.dims.update(head, groups).update(head + 1, rows);
    assert(grouped =~= prefix + seq![groups, rows, query.dims[head + 2]]);
    assert forall|a: int| 0 <= a < head implies key.dims[a] == prefix[a] && value.dims[a]
        == prefix[a] by {
        assert(key.dims.take(head)[a] == prefix[a]);
        assert(value.dims.take(head)[a] == prefix[a]);
    }
    assert(key.dims =~= prefix + seq![groups, key.dims[head + 1], key.dims[head + 2]]);
    assert(value.dims =~= prefix + seq![groups, value.dims[head + 1], value.dims[head + 2]]);
    let batch = prefix + seq![groups];
    assert(batch_of(grouped) =~= batch);
    assert(batch_of(key.dims) =~= batch);
    assert(batch_of(value.dims) =~= batch);
    assert(broadcast_shape(batch, batch) =~= batch);
    assert(grouped.update(head + 2, key.dims[head + 1]) =~= prefix + seq![
        groups,
        rows,
        key.dims[head + 1],
    ]);
}

/// An index with three trailing coordinates lies within the extents.
pub(crate) proof fn lemma_triple_within(prefix: Seq<i64>, sizes: Seq<i64>, at: Seq<int>, tail: Seq<int>)
    requires
        within(prefix, at),
        within(sizes, tail),
    ensures
        within(prefix + sizes, at + tail),
{
    let (dims, index) = (prefix + sizes, at + tail);
    assert forall|a: int| 0 <= a < dims.len() implies 0 <= #[trigger] index[a] < dims[a] by {
        if a < prefix.len() {
            assert(0 <= at[a] < prefix[a]);
        } else {
            assert(0 <= tail[a - prefix.len()] < sizes[a - prefix.len()]);
        }
    }
}

proof fn lemma_head_of(h: int, groups: int, members: int)
    by (nonlinear_arith)
    requires
        groups > 0,
        0 <= h < groups * members,
    ensures
        members > 0,
        h == (h / members) * members + h % members,
        0 <= h / members < groups,
        0 <= h % members < members,
{
}

proof fn lemma_row_of(t: int, queries: int, members: int, i: int)
    by (nonlinear_arith)
    requires
        0 <= t < members,
        0 <= i < queries,
    ensures
        0 <= t * queries + i < queries * members,
{
}

/// Grouped attention gives each query of a head the mean of the values of the
/// head that its group shares, each weighed by the exponential of the score of
/// its key in that head. Head `h` reads head `h / (heads / shared heads)`.
#[verifier::rlimit(60)]
pub proof fn grouped_attention_weighs_values_by_scores(
    n: Numbers,
    query: Value,
    key: Value,
    value: Value,
    bias: Option<Expr>,
    scale: Option<u32>,
    factor: real,
    at: Seq<int>,
    h: int,
    i: int,
    column: int,
)
    requires
        n.lawful(),
        volume(query.dims) is Some,
        volume(key.dims) is Some,
        query.dims.len() <= usize::MAX,
        bias matches Some(b) ==> b is Is,
        Expr::Is(query).grouped_query_attention(Expr::Is(key), Expr::Is(value), bias, scale) is Is,
        within(query.dims.take(query.dims.len() - 3), at),
        0 <= h < query.dims[query.dims.len() - 3],
        0 <= i < query.dims[query.dims.len() - 2],
        0 <= column < value.dims.last(),
        key.dims[key.dims.len() - 2] > 0,
        scores_are_scaled_by(n, scale, query.dims.last(), factor),
    ensures
        ({
            let heads = query.dims[query.dims.len() - 3] as int;
            let shared = key.dims[query.dims.len() - 3] as int;
            let g = h / (heads / shared);
            let keys = key.dims[key.dims.len() - 2] as nat;
            weighed(
                n,
                Seq::new(
                    keys,
                    |j: int|
                        likeness(n, query, key, at + seq![h, i], at + seq![g, j]) * factor
                            + bias_of(n, bias, at + seq![h, i, j]),
                ),
                Seq::new(keys, |j: int| n.of(value, at + seq![g, j, column])),
                n.at(
                    Expr::Is(query).grouped_query_attention(
                        Expr::Is(key),
                        Expr::Is(value),
                        bias,
                        scale,
                    ),
                    at + seq![h, i, column],
                ),
            )
        }),
{
    lemma_grouped_built(query, key, value, bias, scale);
    lemma_head_numbers(query.dims, key.dims, value.dims);
    lemma_grouped_extents(query, key, value, bias, scale);
    let head = query.dims.len() - 3;
    let prefix = query.dims.take(head);
    let groups = key.dims[head];
    let members = query.dims[head] as int / groups as int;
    lemma_head_of(h, groups as int, members);
    let (g, t) = (h / members, h % members);
    let (queries, grouped_bias, attended) = grouped_parts(query, key, value, bias, scale);
    let (rows, depth) = (query.dims[head + 1], query.dims[head + 2]);
    let keys = key.dims[head + 1];
    let width = value.dims[head + 2];
    let row = t * rows + i;
    lemma_row_of(t, rows as int, members, i);
    let inside = at + seq![g];
    assert(seq![g].len() == 1);
    lemma_triple_within(prefix, seq![groups], at, seq![g]);
    attention_weighs_values_by_scores(
        n,
        queries->Is_0,
        key,
        value,
        grouped_bias,
        scale,
        factor,
        inside,
        row,
        column,
    );
    consecutive_query_heads_share_a_head(
        query,
        key,
        value,
        bias,
        scale,
        at,
        g,
        t,
        i,
        column,
    );
    assert(inside + seq![row, column] =~= at + seq![g, row, column]);
    let mine = scores_of(n, queries->Is_0, key, grouped_bias, factor, inside, row);
    let theirs = Seq::new(
        keys as nat,
        |j: int|
            likeness(n, query, key, at + seq![h, i], at + seq![g, j]) * factor + bias_of(
                n,
                bias,
                at + seq![h, i, j],
            ),
    );
    assert forall|j: int| 0 <= j < keys implies #[trigger] mine[j] == theirs[j] by {
        let left = Seq::new(
            queries->Is_0.dims.last() as nat,
            |d: int|
                n.of(
                    queries->Is_0,
                    pulled(queries->Is_0.dims, inside + seq![row] + seq![d]),
                ) * n.of(key, pulled(key.dims, inside + seq![j] + seq![d])),
        );
        let right = Seq::new(
            query.dims.last() as nat,
            |d: int|
                n.of(query, pulled(query.dims, at + seq![h, i] + seq![d])) * n.of(
                    key,
                    pulled(key.dims, at + seq![g, j] + seq![d]),
                ),
        );
        assert forall|d: int| 0 <= d < depth implies #[trigger] left[d] == right[d] by {
            consecutive_query_heads_share_a_head(query, key, value, bias, scale, at, g, t, i, d);
            assert(inside + seq![row] + seq![d] =~= at + seq![g, row, d]);
            assert(inside + seq![j] + seq![d] =~= at + seq![g, j] + seq![d]);
            assert(at + seq![h, i] + seq![d] =~= at + seq![h, i, d]);
            lemma_triple_within(
                prefix,
                seq![groups, (rows * members) as i64, depth],
                at,
                seq![g, row, d],
            );
            lemma_triple_within(prefix, seq![query.dims[head], rows, depth], at, seq![h, i, d]);
            lemma_pulled_within(queries->Is_0.dims, at + seq![g, row, d]);
            lemma_pulled_within(query.dims, at + seq![h, i, d]);
        }
        assert(left =~= right);
        if let Some(b) = bias {
            consecutive_query_heads_share_a_head(query, key, value, bias, scale, at, g, t, i, j);
            assert(inside + seq![row, j] =~= at + seq![g, row, j]);
            lemma_triple_within(
                prefix,
                seq![groups, (rows * members) as i64, keys],
                at,
                seq![g, row, j],
            );
            lemma_pulled_within(grouped_bias->0->Is_0.dims, at + seq![g, row, j]);
            let wide = query.dims.update(head + 2, keys);
            assert(wide =~= prefix + seq![query.dims[head], rows, keys]);
            lemma_triple_within(prefix, seq![query.dims[head], rows, keys], at, seq![h, i, j]);
            assert(b.broadcast_to(wide) is Is) by {
                broadcast use crate::facts::group_extents;

            }
            lemma_pulled(b, wide, at + seq![h, i, j]);
        }
    }
    assert(mine =~= theirs);
    let found = Seq::new(
        keys as nat,
        |j: int| n.of(value, pulled(value.dims, inside + seq![j, column])),
    );
    let wanted = Seq::new(keys as nat, |j: int| n.of(value, at + seq![g, j, column]));
    assert(value.dims[head + 1] == keys) by {
        reveal(Expr::scaled_dot_product_attention);
    }
    assert forall|j: int| 0 <= j < keys implies #[trigger] found[j] == wanted[j] by {
        assert(inside + seq![j, column] =~= at + seq![g, j, column]);
        lemma_triple_within(prefix, seq![groups, keys, width], at, seq![g, j, column]);
        lemma_pulled_within(value.dims, at + seq![g, j, column]);
    }
    assert(found =~= wanted);
}

} // verus!
