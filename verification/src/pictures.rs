//! What adjustments of images are, as numbers.
use crate::adjoints::zeroed;
use crate::elements::{ravel, within};
use crate::facts::group_extents;
use crate::graph::{applied, constant, Expr};
use crate::image::luma_weights;
use crate::normalizations::{lemma_quotient, mean_of};
use crate::numbers::{
    encoded, exponent_of, group_numbers, group_operands, power_of_two, scalar_number,
    significand_of, spread_number, total, Numbers,
};
use crate::op::{Reduction, Scalar};
use crate::products::pulled;
use crate::reductions::{
    axes_reduce_their_lines, lemma_pulled_back, means_times_their_count_are_sums,
};
use crate::resize::{bits_of, reciprocals_of};
use crate::shape::{chosen, gathered, volume};
use vstd::prelude::*;

verus! {

/// Brightening adds the given number to every pixel.
#[verifier::rlimit(40)]
pub proof fn brightening_adds_to_every_pixel(n: Numbers, x: Expr, delta: u32, index: Seq<int>)
    requires
        n.lawful(),
        x.adjust_brightness(delta) is Is,
        within(x->Is_0.dims, index),
    ensures
        n.at(x.adjust_brightness(delta), index) == n.at(x, index) + (n.literal)(delta),
{
    broadcast use {group_extents, group_operands, group_numbers};

}

/// The numbers of one channel of one image, row by row.
pub open spec fn channel(n: Numbers, x: Expr, index: Seq<int>) -> Seq<real> {
    n.row(x, seq![1usize, 2usize], index)
}

proof fn lemma_two_axes()
    ensures
        chosen(4, seq![1usize, 2usize]) == seq![1usize, 2usize],
{
    let axes = seq![1usize, 2usize];
    assert(axes[0] == 1 && axes[1] == 2);
    assert(axes.contains(1) && axes.contains(2) && !axes.contains(0) && !axes.contains(3));
    reveal_with_fuel(chosen, 5);
    assert(chosen(4, axes) =~= axes);
}

proof fn lemma_stretched(x: real, m: real, f: real, z: real)
    by (nonlinear_arith)
    requires
        z == (x - m) * f + m,
    ensures
        z - m == (x - m) * f,
{
}

/// Contrast scales the deviation of every pixel from the mean of its channel.
#[verifier::rlimit(40)]
pub proof fn contrast_scales_deviations_from_the_mean(
    n: Numbers,
    x: Expr,
    factor: u32,
    index: Seq<int>,
)
    requires
        n.lawful(),
        x.adjust_contrast(factor) is Is,
        within(x->Is_0.dims, index),
    ensures
        ({
            let dims = x->Is_0.dims;
            let mean = mean_of(channel(n, x, index), (dims[1] * dims[2]) as real);
            n.at(x.adjust_contrast(factor), index) - mean == (n.at(x, index) - mean) * (n.literal)(
                factor,
            )
        }),
{
    broadcast use {group_extents, group_operands, group_numbers};

    let dims = x->Is_0.dims;
    let axes = seq![1usize, 2usize];
    let mean = x.mean(axes, true);
    let center = mean.broadcast_to(dims);
    let stretched = x.sub(center).mul_scalar(Scalar::Bits(factor));
    assert(x.adjust_contrast(factor) == stretched.add(center));
    assert(mean is Is && center is Is && stretched is Is);
    means_times_their_count_are_sums(n, x, axes, index);
    lemma_two_axes();
    let inner = gathered(dims, axes);
    assert(inner =~= seq![dims[1], dims[2]]);
    assert(inner.drop_last() =~= seq![dims[1]]);
    assert(seq![dims[1]].drop_last() =~= Seq::<i64>::empty());
    reveal_with_fuel(volume, 3);
    assert(1 * dims[1] == dims[1]) by (nonlinear_arith);
    assert(volume(inner)->Some_0 == dims[1] * dims[2]);
    lemma_pulled_back(dims, axes, index);
    spread_number(n, mean, dims, index);
    let m = mean_of(channel(n, x, index), (dims[1] * dims[2]) as real);
    lemma_quotient(
        n.at(mean, zeroed(index, axes)),
        total(channel(n, x, index)),
        (dims[1] * dims[2]) as real,
    );
    assert(n.at(center, index) == m);
    assert(n.at(stretched, index) == (n.at(x, index) - m) * (n.literal)(factor));
}

/// Solarizing keeps what lies below the threshold and subtracts the rest from
/// one.
#[verifier::rlimit(40)]
pub proof fn solarizing_inverts_from_the_threshold_on(
    n: Numbers,
    x: Expr,
    threshold: u32,
    index: Seq<int>,
)
    requires
        n.lawful(),
        x.solarize(threshold) is Is,
        within(x->Is_0.dims, index),
    ensures
        n.at(x.solarize(threshold), index) == if n.at(x, index) < (n.literal)(threshold) {
            n.at(x, index)
        } else {
            1 as real - n.at(x, index)
        },
{
    broadcast use {group_extents, group_operands, group_numbers};

    let v = x->Is_0;
    let one = crate::graph::scalar(v.graph, Scalar::Bits(threshold));
    let level = one.broadcast_to(v.dims);
    assert(level is Is);
    spread_number(n, one, v.dims, index);
    scalar_number(n, v.graph, Scalar::Bits(threshold));
    assert(one->Is_0.dims.len() == 0) by {
        reveal(applied);
    }
    assert(pulled(one->Is_0.dims, index) =~= Seq::empty());
    assert(n.at(level, index) == (n.literal)(threshold));
}

/// Whether the number of a literal is a whole number of millionths, but for one.
pub open spec fn millionths(n: Numbers, bits: Scalar, count: int) -> bool {
    -(1 as real) <= 1000000 as real * n.constant(bits) - count as real <= 1 as real
}

proof fn lemma_luma_powers()
    ensures
        power_of_two(24) == 16777216 as real,
        power_of_two(25) == 33554432 as real,
        power_of_two(26) == 67108864 as real,
        power_of_two(27) == 134217728 as real,
        power_of_two(28) == 268435456 as real,
{
    reveal_with_fuel(power_of_two, 29);
}

/// The weights of the luma standards, in millionths.
pub proof fn luma_weights_are_those_of_their_standards(n: Numbers)
    requires
        n.lawful(),
    ensures
        ({
            let w = luma_weights("rec601"@)->Some_0;
            &&& luma_weights("rec601"@) is Some && w.len() == 3
            &&& millionths(n, w[0], 298900) && millionths(n, w[1], 587000) && millionths(
                n,
                w[2],
                114000,
            )
        }),
        ({
            let w = luma_weights("rec709"@)->Some_0;
            &&& luma_weights("rec709"@) is Some && w.len() == 3
            &&& millionths(n, w[0], 212600) && millionths(n, w[1], 715200) && millionths(
                n,
                w[2],
                72200,
            )
        }),
        ({
            let w = luma_weights("bt2001"@)->Some_0;
            &&& luma_weights("bt2001"@) is Some && w.len() == 3
            &&& millionths(n, w[0], 262700) && millionths(n, w[1], 678000) && millionths(
                n,
                w[2],
                59300,
            )
        }),
{
    reveal_strlit("rec601");
    reveal_strlit("rec709");
    reveal_strlit("bt2001");
    assert("rec709"@[3] != "rec601"@[3]);
    assert("bt2001"@[0] != "rec601"@[0]);
    assert("bt2001"@[0] != "rec709"@[0]);
    lemma_luma_powers();
    let (a, b, c) = (0x3e99096cu32, 0x3f1645a2u32, 0x3de978d5u32);
    assert(exponent_of(a) == 125 && significand_of(a) == 10029420);
    assert(exponent_of(b) == 126 && significand_of(b) == 9848226);
    assert(exponent_of(c) == 123 && significand_of(c) == 15300821);
    assert(encoded(a, (n.literal)(a)) && encoded(b, (n.literal)(b)) && encoded(c, (n.literal)(c)));
    let (d, e, f) = (0x3e59b3d0u32, 0x3f371759u32, 0x3d93dd98u32);
    assert(exponent_of(d) == 124 && significand_of(d) == 14267344);
    assert(exponent_of(e) == 126 && significand_of(e) == 11999065);
    assert(exponent_of(f) == 123 && significand_of(f) == 9690520);
    assert(encoded(d, (n.literal)(d)) && encoded(e, (n.literal)(e)) && encoded(f, (n.literal)(f)));
    let (g, h, i) = (0x3e86809du32, 0x3f2d9168u32, 0x3d72e48fu32);
    assert(exponent_of(g) == 125 && significand_of(g) == 8814749);
    assert(exponent_of(h) == 126 && significand_of(h) == 11374952);
    assert(exponent_of(i) == 122 && significand_of(i) == 15918223);
    assert(encoded(g, (n.literal)(g)) && encoded(h, (n.literal)(h)) && encoded(i, (n.literal)(i)));
}

/// The last coordinate is the position where all before it are at the start.
proof fn lemma_ravel_step(dims: Seq<i64>, index: Seq<int>)
    requires
        dims.len() == index.len() > 0,
        ravel(dims.drop_last(), index.drop_last()) == 0,
    ensures
        ravel(dims, index) == index.last(),
{
    assert(0 * dims.last() == 0) by (nonlinear_arith);
}

/// A grayscale pixel is the sum of its channels, each times the weight of the
/// standard.
#[verifier::rlimit(40)]
pub proof fn grayscale_weighs_the_channels(
    n: Numbers,
    x: Expr,
    luma_standard: Seq<char>,
    index: Seq<int>,
)
    requires
        n.lawful(),
        x.rgb_to_grayscale(luma_standard) is Is,
        within(x->Is_0.dims, index),
    ensures
        ({
            let weights = luma_weights(luma_standard)->Some_0;
            n.at(x.rgb_to_grayscale(luma_standard), index.update(3, 0)) == n.at(
                x,
                index.update(3, 0),
            ) * n.constant(weights[0]) + n.at(x, index.update(3, 1)) * n.constant(weights[1])
                + n.at(x, index.update(3, 2)) * n.constant(weights[2])
        }),
{
    broadcast use {group_extents, group_operands, group_numbers};

    let v = x->Is_0;
    let dims = v.dims;
    let weights = luma_weights(luma_standard)->Some_0;
    let small = seq![1i64, 1, 1, 3];
    let table = constant(v.graph, small, weights);
    let wide = table.broadcast_to(seq![dims[0], dims[1], dims[2], 3]);
    assert(seq![dims[0], dims[1], dims[2], 3] =~= dims);
    let weighed = x.mul(wide);
    assert(x.rgb_to_grayscale(luma_standard) == weighed.sum(seq![3], true));
    assert(table is Is && wide is Is && weighed is Is);
    axes_reduce_their_lines(n, weighed, Reduction::Sum, 3, index);
    let axes = seq![3usize];
    assert(axes[0] == 3);
    assert(zeroed(index, axes) =~= index.update(3, 0));
    let line = n.line(weighed, 3, index);
    assert forall|k: int| 0 <= k < 3 implies #[trigger] line[k] == n.at(x, index.update(3, k))
        * n.constant(weights[k]) by {
        let at = index.update(3, k);
        assert(within(dims, at)) by {
            assert forall|i: int| 0 <= i < dims.len() implies 0 <= #[trigger] at[i] < dims[i] by {
                assert(0 <= index[i] < dims[i]);
            }
        }
        spread_number(n, table, dims, at);
        assert(table->Is_0.dims == small && table->Is_0.args.len() == 0 && table->Is_0.op
            == crate::op::OpModel::ConstantF32(weights)) by {
            reveal(applied);
        }
        let there = seq![0int, 0, 0, k];
        assert(pulled(small, at) =~= there);
        assert(within(small, there));
        assert(ravel(small, there) == k) by {
            assert(seq![1i64].drop_last() =~= Seq::<i64>::empty());
            assert(seq![0int].drop_last() =~= Seq::<int>::empty());
            assert(ravel(Seq::<i64>::empty(), Seq::<int>::empty()) == 0);
            lemma_ravel_step(seq![1i64], seq![0int]);
            assert(seq![1i64, 1].drop_last() =~= seq![1i64]);
            assert(seq![0int, 0].drop_last() =~= seq![0int]);
            lemma_ravel_step(seq![1i64, 1], seq![0int, 0]);
            assert(seq![1i64, 1, 1].drop_last() =~= seq![1i64, 1]);
            assert(seq![0int, 0, 0].drop_last() =~= seq![0int, 0]);
            lemma_ravel_step(seq![1i64, 1, 1], seq![0int, 0, 0]);
            assert(small.drop_last() =~= seq![1i64, 1, 1]);
            assert(there.drop_last() =~= seq![0int, 0, 0]);
            lemma_ravel_step(small, there);
        }
        reveal(Numbers::obeys);
        assert(n.obeys(table->Is_0, there));
    }
    assert(line.len() == 3);
    reveal_with_fuel(total, 4);
    assert(line.drop_last().drop_last().drop_last() =~= Seq::<real>::empty());
    assert(total(line) == line[0] + line[1] + line[2]);
}

proof fn lemma_undone(d: real, s: real)
    by (nonlinear_arith)
    requires
        s > 0 as real,
    ensures
        d * (1 as real / s) * s == d,
{
    assert((1 as real / s) * s == 1 as real);
    assert(d * (1 as real / s) * s == d * ((1 as real / s) * s));
}

/// A constant list, read at one of its positions.
proof fn lemma_listed(n: Numbers, graph: u64, values: Seq<Scalar>, dims: Seq<i64>, index: Seq<int>)
    requires
        n.computes(),
        dims.len() == 4,
        within(dims, index),
        constant(graph, seq![dims[3]], values) is Is,
        constant(graph, seq![dims[3]], values).broadcast_to(dims) is Is,
    ensures
        n.at(constant(graph, seq![dims[3]], values).broadcast_to(dims), index) == n.constant(
            values[index[3]],
        ),
{
    let small = seq![dims[3]];
    let table = constant(graph, small, values);
    assert(table->Is_0.dims == small && table->Is_0.args.len() == 0 && table->Is_0.op
        == crate::op::OpModel::ConstantF32(values)) by {
        reveal(applied);
    }
    assert(0 <= index[3] < dims[3]);
    spread_number(n, table, dims, index);
    let there = seq![index[3]];
    assert(pulled(small, index) =~= there);
    assert(within(small, there));
    assert(ravel(small, there) == index[3]) by {
        reveal_with_fuel(ravel, 2);
        assert(small.drop_last() =~= Seq::<i64>::empty());
        assert(0 * dims[3] == 0) by (nonlinear_arith);
    }
    reveal(Numbers::obeys);
    assert(n.obeys(table->Is_0, there));
}

/// Normalizing takes the deviation from the mean of the channel over its
/// deviation.
#[verifier::rlimit(40)]
pub proof fn normalizing_divides_by_the_deviation(
    n: Numbers,
    x: Expr,
    mean: Seq<u32>,
    stddev: Seq<u32>,
    index: Seq<int>,
)
    requires
        n.lawful(),
        x.normalize_nhwc(mean, stddev) is Is,
        within(x->Is_0.dims, index),
        (n.literal)(stddev[index[3]]) > 0 as real,
    ensures
        n.at(x.normalize_nhwc(mean, stddev), index) * (n.literal)(stddev[index[3]]) == n.at(
            x,
            index,
        ) - (n.literal)(mean[index[3]]),
{
    broadcast use {group_extents, group_operands, group_numbers};

    let v = x->Is_0;
    let channels = seq![v.dims[3]];
    let center = constant(v.graph, channels, bits_of(mean)).broadcast_to(v.dims);
    let scale = constant(v.graph, channels, reciprocals_of(stddev)).broadcast_to(v.dims);
    let shifted = x.sub(center);
    assert(x.normalize_nhwc(mean, stddev) == shifted.mul(scale));
    assert(center is Is && scale is Is && shifted is Is);
    assert(0 <= index[3] < v.dims[3]);
    lemma_listed(n, v.graph, bits_of(mean), v.dims, index);
    lemma_listed(n, v.graph, reciprocals_of(stddev), v.dims, index);
    lemma_undone(n.at(x, index) - (n.literal)(mean[index[3]]), (n.literal)(stddev[index[3]]));
}

} // verus!
