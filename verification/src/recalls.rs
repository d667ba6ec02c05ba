//! What flows back through attention, as numbers.
use crate::attending::{lemma_pulled_within, lemma_triple_within};
use crate::dtype::is_floating;
use crate::elements::{swapping_axes_swaps_coordinates, within};
use crate::extents::{product_dims, products_have_the_outer_extents};
use crate::facts::group_extents;
use crate::gradients::{attention_gradients, attention_weights, rule, score_gradient};
use crate::graph::{applied, Expr, Value};
use crate::likelihoods::{exponentials, softmax_shares_one_among_the_exponentials};
use crate::matmul::{batch_of, broadcast_shape};
use crate::normalizations::lemma_quotient;
use crate::numbers::{group_numbers, group_operands, spread_number, total, Numbers};
use crate::op::{OpModel, Reduction, Scalar};
use crate::products::{place, product_factors};
use crate::readings::matrix_products_are_inner_products;
use crate::reductions::axes_reduce_their_lines;
use vstd::prelude::*;

verus! {

/// The share of a key in what a query attends to: its exponential over the sum
/// of those of all keys.
pub open spec fn share(n: Numbers, args: Seq<Value>, scale: Scalar, at: Seq<int>, i: int, j: int)
    -> real {
    let weights = n.weights(args, scale, at, i);
    weights[j] / total(weights)
}

/// How much a cotangent pulls on the weight of a key: its inner product with the
/// value.
pub open spec fn pull(n: Numbers, args: Seq<Value>, dy: Value, at: Seq<int>, i: int, j: int)
    -> real {
    total(
        Seq::new(
            dy.dims.last() as nat,
            |c: int| n.of(dy, at + seq![i, c]) * n.of(args[2], at + seq![j, c]),
        ),
    )
}

/// The mean pull of all keys, each counted by its share.
pub open spec fn mean_pull(
    n: Numbers,
    args: Seq<Value>,
    scale: Scalar,
    dy: Value,
    at: Seq<int>,
    i: int,
) -> real {
    total(
        Seq::new(
            args[1].dims[args[1].dims.len() - 2] as nat,
            |k: int| pull(n, args, dy, at, i, k) * share(n, args, scale, at, i, k),
        ),
    )
}

/// The cotangent of a score: its share times its pull beyond the mean one.
pub open spec fn lean(
    n: Numbers,
    args: Seq<Value>,
    scale: Scalar,
    dy: Value,
    at: Seq<int>,
    i: int,
    j: int,
) -> real {
    share(n, args, scale, at, i, j) * (pull(n, args, dy, at, i, j) - mean_pull(
        n,
        args,
        scale,
        dy,
        at,
        i,
    ))
}

/// A product of matrices of one batch.
proof fn lemma_product(
    n: Numbers,
    a: Expr,
    b: Expr,
    batch: Seq<i64>,
    sizes: (i64, i64, i64),
    at: Seq<int>,
    i: int,
    j: int,
)
    requires
        n.computes(),
        a.matmul(b) is Is,
        a is Is,
        b is Is,
        a->Is_0.dims == batch + seq![sizes.0, sizes.1],
        b->Is_0.dims == batch + seq![sizes.1, sizes.2],
        batch.len() + 2 <= usize::MAX,
        sizes.1 >= 0,
        within(batch, at),
        0 <= i < sizes.0,
        0 <= j < sizes.2,
    ensures
        a.matmul(b)->Is_0.dims == batch + seq![sizes.0, sizes.2],
        n.at(a.matmul(b), at + seq![i, j]) == total(
            Seq::new(
                sizes.1 as nat,
                |k: int| n.at(a, at + seq![i, k]) * n.at(b, at + seq![k, j]),
            ),
        ),
{
    let (x, y) = (a->Is_0, b->Is_0);
    products_have_the_outer_extents(x, y);
    assert(batch_of(x.dims) =~= batch && batch_of(y.dims) =~= batch);
    assert(broadcast_shape(batch, batch) =~= batch);
    let dims = batch + seq![sizes.0, sizes.2];
    assert(product_dims(x.dims, y.dims) =~= dims);
    let index = at + seq![i, j];
    lemma_triple_within(batch, seq![sizes.0, sizes.2], at, seq![i, j]);
    matrix_products_are_inner_products(n, x, y, index);
    let (place_at, row, column) = place(x.dims, y.dims, index);
    assert(place_at =~= at && row == i && column == j);
    let pairs = product_factors(n.read, x, y, index);
    let mine = Seq::new(pairs.len(), |k: int| pairs[k].0 * pairs[k].1);
    let theirs = Seq::new(
        sizes.1 as nat,
        |k: int| n.at(a, at + seq![i, k]) * n.at(b, at + seq![k, j]),
    );
    assert forall|k: int| 0 <= k < sizes.1 implies #[trigger] mine[k] == theirs[k] by {
        lemma_triple_within(batch, seq![sizes.0, sizes.1], at, seq![i, k]);
        lemma_triple_within(batch, seq![sizes.1, sizes.2], at, seq![k, j]);
        lemma_pulled_within(x.dims, at + seq![i, k]);
        lemma_pulled_within(y.dims, at + seq![k, j]);
    }
    assert(mine =~= theirs);
}

/// The last two axes exchanged.
#[verifier::rlimit(40)]
proof fn lemma_exchanged(
    n: Numbers,
    x: Expr,
    batch: Seq<i64>,
    sizes: (i64, i64),
    at: Seq<int>,
    i: int,
    j: int,
)
    requires
        x is Is,
        x->Is_0.dims == batch + seq![sizes.0, sizes.1],
        batch.len() + 2 <= usize::MAX,
        at.len() == batch.len(),
        x.swap_axes(batch.len() as usize, (batch.len() + 1) as usize) is Is,
    ensures
        x.swap_axes(batch.len() as usize, (batch.len() + 1) as usize)->Is_0.dims == batch + seq![
            sizes.1,
            sizes.0,
        ],
        n.at(
            x.swap_axes(batch.len() as usize, (batch.len() + 1) as usize),
            at + seq![j, i],
        ) == n.at(x, at + seq![i, j]),
{
    broadcast use group_extents;

    let (p, q) = (batch.len() as usize, (batch.len() + 1) as usize);
    let index = at + seq![i, j];
    swapping_axes_swaps_coordinates(x, p, q, index);
    assert(index.update(p as int, index[q as int]).update(q as int, index[p as int]) =~= at + seq![
        j,
        i,
    ]);
    let dims = x->Is_0.dims;
    let turned = x.swap_axes(p, q)->Is_0.dims;
    assert(turned =~= batch + seq![sizes.1, sizes.0]) by {
        reveal(applied);
    }
}

/// What the extents of an attention are called.
pub open spec fn arranged(
    v: Value,
    batch: Seq<i64>,
    queries: i64,
    keys: i64,
    depth: i64,
    width: i64,
) -> bool {
    &&& v.args.len() == 3 || v.args.len() == 4
    &&& v.dims == batch + seq![queries, width]
    &&& v.args[0].dims == batch + seq![queries, depth]
    &&& v.args[1].dims == batch + seq![keys, depth]
    &&& v.args[2].dims == batch + seq![keys, width]
    &&& v.args.len() == 4 ==> v.args[3].dims == batch + seq![queries, keys]
    &&& batch.len() + 2 <= usize::MAX
    &&& depth >= 0 && keys > 0 && queries >= 0 && width >= 0
}

/// The recorded probabilities are the shares of the keys.
#[verifier::rlimit(40)]
proof fn lemma_shares(
    n: Numbers,
    v: Value,
    scale: Scalar,
    batch: Seq<i64>,
    sizes: (i64, i64, i64, i64),
    at: Seq<int>,
    i: int,
    j: int,
)
    requires
        n.lawful(),
        arranged(v, batch, sizes.0, sizes.1, sizes.2, sizes.3),
        attention_weights(v.args, scale) is Is,
        within(batch, at),
        0 <= i < sizes.0,
        0 <= j < sizes.1,
    ensures
        attention_weights(v.args, scale)->Is_0.dims == batch + seq![sizes.0, sizes.1],
        is_floating(attention_weights(v.args, scale)->Is_0.dtype),
        n.at(attention_weights(v.args, scale), at + seq![i, j]) == share(
            n,
            v.args,
            scale,
            at,
            i,
            j,
        ),
{
    broadcast use {group_extents, group_operands, group_numbers};

    reveal(attention_weights);
    let rank = v.args[0].dims.len();
    let (queries, keys, depth, width) = sizes;
    let (p, q) = (batch.len() as usize, (batch.len() + 1) as usize);
    assert((rank - 2) as usize == p && (rank - 1) as usize == q);
    let (query, key) = (Expr::Is(v.args[0]), Expr::Is(v.args[1]));
    let turned = key.swap_axes(p, q);
    let products = query.matmul(turned);
    let scores = products.mul_scalar(scale);
    let masked = if v.args.len() == 4 {
        scores.add(Expr::Is(v.args[3]))
    } else {
        scores
    };
    let weights = masked.softmax(q);
    assert(weights is Is && masked is Is) by {
        reveal(Expr::softmax);
    }
    assert(scores is Is && products is Is);
    assert(turned is Is) by {
        reveal(Expr::matmul);
    }
    lemma_exchanged(n, key, batch, (keys, depth), at, j, 0);
    lemma_product(n, query, turned, batch, (queries, depth, keys), at, i, j);
    let dims = batch + seq![queries, keys];
    assert(masked->Is_0.dims == dims);
    let recorded = n.weights(v.args, scale, at, i);
    assert forall|k: int| 0 <= k < keys implies n.at(masked, at + seq![i, k])
        == #[trigger] n.score(v.args, scale, at, i, k) by {
        lemma_product(n, query, turned, batch, (queries, depth, keys), at, i, k);
        lemma_triple_within(batch, seq![queries, keys], at, seq![i, k]);
        let mine = Seq::new(
            depth as nat,
            |d: int| n.at(query, at + seq![i, d]) * n.at(turned, at + seq![d, k]),
        );
        let theirs = Seq::new(
            v.args[0].dims.last() as nat,
            |d: int| n.of(v.args[0], at + seq![i, d]) * n.of(v.args[1], at + seq![k, d]),
        );
        assert forall|d: int| 0 <= d < depth implies #[trigger] mine[d] == theirs[d] by {
            lemma_exchanged(n, key, batch, (keys, depth), at, k, d);
        }
        assert(mine =~= theirs);
        assert(n.at(scores, at + seq![i, k]) == total(theirs) * n.constant(scale));
        if v.args.len() == 4 {
            assert(n.at(masked, at + seq![i, k]) == n.at(scores, at + seq![i, k]) + n.of(
                v.args[3],
                at + seq![i, k],
            ));
        }
    }
    let index = at + seq![i, j];
    lemma_triple_within(batch, seq![queries, keys], at, seq![i, j]);
    softmax_shares_one_among_the_exponentials(n, masked, q, index);
    let line = n.line(masked, q, index);
    let found = exponentials(n, line);
    assert forall|k: int| 0 <= k < keys implies #[trigger] found[k] == recorded[k] by {
        assert(index.update(q as int, k) =~= at + seq![i, k]);
        assert(n.at(masked, at + seq![i, k]) == n.score(v.args, scale, at, i, k));
    }
    assert(found =~= recorded);
    assert(n.at(masked, at + seq![i, j]) == n.score(v.args, scale, at, i, j));
    lemma_quotient(n.at(weights, index), recorded[j], total(recorded));
    assert(weights->Is_0.dims == dims && is_floating(weights->Is_0.dtype)) by {
        reveal(Expr::softmax);
    }
}

/// The recorded cotangent of the scores.
#[verifier::rlimit(40)]
proof fn lemma_leans(
    n: Numbers,
    v: Value,
    dy: Value,
    scale: Scalar,
    batch: Seq<i64>,
    sizes: (i64, i64, i64, i64),
    at: Seq<int>,
    i: int,
    j: int,
)
    requires
        n.lawful(),
        arranged(v, batch, sizes.0, sizes.1, sizes.2, sizes.3),
        dy.dims == v.dims,
        attention_weights(v.args, scale) is Is,
        score_gradient(attention_weights(v.args, scale), v.args[2], Expr::Is(dy)) is Is,
        within(batch, at),
        0 <= i < sizes.0,
        0 <= j < sizes.1,
    ensures
        score_gradient(attention_weights(v.args, scale), v.args[2], Expr::Is(dy))->Is_0.dims == batch
            + seq![sizes.0, sizes.1],
        n.at(
            score_gradient(attention_weights(v.args, scale), v.args[2], Expr::Is(dy)),
            at + seq![i, j],
        ) == lean(n, v.args, scale, dy, at, i, j),
{
    broadcast use {group_extents, group_operands, group_numbers};

    reveal(score_gradient);
    let rank = v.args[2].dims.len();
    let (queries, keys, depth, width) = sizes;
    let (p, q) = (batch.len() as usize, (batch.len() + 1) as usize);
    assert((rank - 2) as usize == p && (rank - 1) as usize == q);
    let weights = attention_weights(v.args, scale);
    let (d, value) = (Expr::Is(dy), Expr::Is(v.args[2]));
    let turned = value.swap_axes(p, q);
    let outer = d.matmul(turned);
    let product = outer.mul(weights);
    let sums = product.sum(seq![q], true);
    let level = sums.broadcast_to(weights->Is_0.dims);
    let excess = outer.sub(level);
    assert(score_gradient(weights, v.args[2], d) == weights.mul(excess));
    assert(outer is Is && product is Is && sums is Is && level is Is && excess is Is);
    assert(turned is Is) by {
        reveal(Expr::matmul);
    }
    lemma_exchanged(n, value, batch, (keys, width), at, j, 0);
    lemma_product(n, d, turned, batch, (queries, width, keys), at, i, j);
    lemma_shares(n, v, scale, batch, sizes, at, i, j);
    let dims = batch + seq![queries, keys];
    assert(is_floating(outer->Is_0.dtype));
    assert forall|k: int| 0 <= k < keys implies n.at(outer, at + seq![i, k]) == #[trigger] pull(
        n,
        v.args,
        dy,
        at,
        i,
        k,
    ) by {
        lemma_product(n, d, turned, batch, (queries, width, keys), at, i, k);
        let mine = Seq::new(
            width as nat,
            |c: int| n.at(d, at + seq![i, c]) * n.at(turned, at + seq![c, k]),
        );
        let theirs = Seq::new(
            dy.dims.last() as nat,
            |c: int| n.of(dy, at + seq![i, c]) * n.of(v.args[2], at + seq![k, c]),
        );
        assert forall|c: int| 0 <= c < width implies #[trigger] mine[c] == theirs[c] by {
            lemma_exchanged(n, value, batch, (keys, width), at, k, c);
        }
        assert(mine =~= theirs);
    }
    let index = at + seq![i, j];
    lemma_triple_within(batch, seq![queries, keys], at, seq![i, j]);
    axes_reduce_their_lines(n, product, Reduction::Sum, q, index);
    spread_number(n, sums, dims, index);
    let line = n.line(product, q, index);
    let wanted = Seq::new(
        v.args[1].dims[v.args[1].dims.len() - 2] as nat,
        |k: int| pull(n, v.args, dy, at, i, k) * share(n, v.args, scale, at, i, k),
    );
    assert forall|k: int| 0 <= k < keys implies #[trigger] line[k] == wanted[k] by {
        let there = at + seq![i, k];
        assert(index.update(q as int, k) =~= there);
        lemma_triple_within(batch, seq![queries, keys], at, seq![i, k]);
        lemma_shares(n, v, scale, batch, sizes, at, i, k);
        assert(n.at(outer, there) == pull(n, v.args, dy, at, i, k));
        assert(n.at(product, there) == n.at(outer, there) * n.at(weights, there));
    }
    assert(line =~= wanted);
    assert(n.at(outer, index) == pull(n, v.args, dy, at, i, j));
    assert(n.at(level, index) == mean_pull(n, v.args, scale, dy, at, i));
    assert(n.at(excess, index) == n.at(outer, index) - n.at(level, index));
}

/// The gradients of attention: a value receives the cotangents of all queries by
/// its shares; a score its share times the pull beyond the mean; a query and a
/// key the cotangents of their scores times each other and the factor; the bias
/// that of its score.
#[verifier::rlimit(60)]
pub proof fn gradients_of_attention_follow_the_shares(
    n: Numbers,
    v: Value,
    dy: Value,
    scale: Scalar,
    batch: Seq<i64>,
    sizes: (i64, i64, i64, i64),
    at: Seq<int>,
    i: int,
    j: int,
    e: int,
)
    requires
        n.lawful(),
        v.op == (OpModel::Attention { scale }),
        arranged(v, batch, sizes.0, sizes.1, sizes.2, sizes.3),
        dy.dims == v.dims,
        forall|k: int| 0 <= k < rule(v, dy).len() ==> (#[trigger] rule(v, dy)[k]).1 is Is,
        within(batch, at),
        0 <= i < sizes.0,
        0 <= j < sizes.1,
        0 <= e,
    ensures
        rule(v, dy).len() == v.args.len(),
        forall|k: int| 0 <= k < v.args.len() ==> (#[trigger] rule(v, dy)[k]).0 == k,
        e < sizes.2 ==> n.at(rule(v, dy)[0].1, at + seq![i, e]) == total(
            Seq::new(
                sizes.1 as nat,
                |k: int|
                    lean(n, v.args, scale, dy, at, i, k) * n.of(v.args[1], at + seq![k, e]),
            ),
        ) * n.constant(scale),
        e < sizes.2 ==> n.at(rule(v, dy)[1].1, at + seq![j, e]) == total(
            Seq::new(
                sizes.0 as nat,
                |k: int|
                    lean(n, v.args, scale, dy, at, k, j) * n.of(v.args[0], at + seq![k, e]),
            ),
        ) * n.constant(scale),
        e < sizes.3 ==> n.at(rule(v, dy)[2].1, at + seq![j, e]) == total(
            Seq::new(
                sizes.0 as nat,
                |k: int| share(n, v.args, scale, at, k, j) * n.of(dy, at + seq![k, e]),
            ),
        ),
        v.args.len() == 4 ==> n.at(rule(v, dy)[3].1, at + seq![i, j]) == lean(
            n,
            v.args,
            scale,
            dy,
            at,
            i,
            j,
        ),
{
    broadcast use {group_extents, group_operands, group_numbers};

    reveal(rule);
    let args = v.args;
    let rank = args[0].dims.len();
    let (queries, keys, depth, width) = sizes;
    let (p, q) = (batch.len() as usize, (batch.len() + 1) as usize);
    assert((rank - 2) as usize == p && (rank - 1) as usize == q);
    let d = Expr::Is(dy);
    let weights = attention_weights(args, scale);
    let scores = score_gradient(weights, args[2], d);
    assert(rule(v, dy) == attention_gradients(args, scale, d));
    let (g0, g1, g2) = (rule(v, dy)[0].1, rule(v, dy)[1].1, rule(v, dy)[2].1);
    assert(g0 is Is && g1 is Is && g2 is Is);
    let turned_weights = weights.swap_axes(p, q);
    let turned_scores = scores.swap_axes(p, q);
    assert(g2 == turned_weights.matmul(d));
    assert(turned_weights is Is) by {
        reveal(Expr::matmul);
    }
    assert(weights is Is);
    let (query, key) = (Expr::Is(args[0]), Expr::Is(args[1]));
    let forward = scores.matmul(key);
    let backward = turned_scores.matmul(query);
    assert(g0 == forward.mul_scalar(scale) && g1 == backward.mul_scalar(scale));
    assert(forward is Is && backward is Is);
    assert(scores is Is && turned_scores is Is) by {
        reveal(Expr::matmul);
    }
    lemma_leans(n, v, dy, scale, batch, sizes, at, i, j);
    lemma_shares(n, v, scale, batch, sizes, at, i, j);
    lemma_exchanged(n, weights, batch, (queries, keys), at, i, j);
    lemma_exchanged(n, scores, batch, (queries, keys), at, i, j);
    if e < depth {
        lemma_product(n, scores, key, batch, (queries, keys, depth), at, i, e);
        let mine = Seq::new(
            keys as nat,
            |k: int| n.at(scores, at + seq![i, k]) * n.at(key, at + seq![k, e]),
        );
        let theirs = Seq::new(
            keys as nat,
            |k: int| lean(n, args, scale, dy, at, i, k) * n.of(args[1], at + seq![k, e]),
        );
        assert forall|k: int| 0 <= k < keys implies #[trigger] mine[k] == theirs[k] by {
            lemma_leans(n, v, dy, scale, batch, sizes, at, i, k);
        }
        assert(mine =~= theirs);
        lemma_triple_within(batch, seq![queries, depth], at, seq![i, e]);
        assert(n.at(g0, at + seq![i, e]) == n.at(forward, at + seq![i, e]) * n.constant(scale));
        lemma_product(n, turned_scores, query, batch, (keys, queries, depth), at, j, e);
        let mine = Seq::new(
            queries as nat,
            |k: int| n.at(turned_scores, at + seq![j, k]) * n.at(query, at + seq![k, e]),
        );
        let theirs = Seq::new(
            queries as nat,
            |k: int| lean(n, args, scale, dy, at, k, j) * n.of(args[0], at + seq![k, e]),
        );
        assert forall|k: int| 0 <= k < queries implies #[trigger] mine[k] == theirs[k] by {
            lemma_leans(n, v, dy, scale, batch, sizes, at, k, j);
            lemma_exchanged(n, scores, batch, (queries, keys), at, k, j);
        }
        assert(mine =~= theirs);
        lemma_triple_within(batch, seq![keys, depth], at, seq![j, e]);
        assert(n.at(g1, at + seq![j, e]) == n.at(backward, at + seq![j, e]) * n.constant(scale));
    }
    if e < width {
        lemma_product(n, turned_weights, d, batch, (keys, queries, width), at, j, e);
        let mine = Seq::new(
            queries as nat,
            |k: int| n.at(turned_weights, at + seq![j, k]) * n.at(d, at + seq![k, e]),
        );
        let theirs = Seq::new(
            queries as nat,
            |k: int| share(n, args, scale, at, k, j) * n.of(dy, at + seq![k, e]),
        );
        assert forall|k: int| 0 <= k < queries implies #[trigger] mine[k] == theirs[k] by {
            lemma_shares(n, v, scale, batch, sizes, at, k, j);
            lemma_exchanged(n, weights, batch, (queries, keys), at, k, j);
        }
        assert(mine =~= theirs);
    }
}

} // verus!
