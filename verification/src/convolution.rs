//! Two-dimensional convolutions of NHWC data.
use crate::elements::{copied, origin, transposing_permutes_the_index, within, Element};
use crate::error::{err, invalid, Error};
use crate::graph::{applied, typed, types_of, Expr, Graph, Tensor, Value};
use crate::op::{Conv2dOptions, ConvTranspose2dOptions, Op, OpModel, Widths};
use crate::shape::{gathered, is_permutation, lemma_volume_nonnegative, volume};
use crate::sound::{
    conv_dims, conv_fits, dilated, hwio, padded_extent, transposed_extent, transposed_valid,
    window_count, window_valid,
};
use crate::success::made;
use vstd::prelude::*;

verus! {

/// Whether the channels of NHWC data fit those of an HWIO kernel.
pub open spec fn channels_fit(x: Seq<i64>, k: Seq<i64>, groups: i64) -> bool {
    &&& groups > 0
    &&& x[3] > 0
    &&& k[0] > 0 && k[1] > 0 && k[2] > 0 && k[3] > 0
    &&& x[3] as int % groups as int == 0
    &&& x[3] as int / groups as int == k[2]
    &&& k[3] as int % groups as int == 0
}

/// The number of kernel positions along one axis, or the refusal.
pub open spec fn conv_extent(
    size: i64,
    kernel: i64,
    stride: i64,
    dilation: i64,
    widths: Widths,
) -> Result<i64, Error> {
    if stride <= 0 || dilation <= 0 || widths.0 < 0 || widths.1 < 0 {
        Err(invalid("conv2d requires positive stride/dilation and nonnegative padding"))
    } else if dilated(kernel, dilation) > i64::MAX {
        Err(invalid("conv2d effective kernel size overflow"))
    } else if padded_extent(size, widths) > i64::MAX {
        Err(invalid("conv2d padded input size overflow"))
    } else {
        Ok(window_count(size, dilated(kernel, dilation), stride, widths) as i64)
    }
}

/// The extents of a convolution, or the refusal.
pub open spec fn conv_shape(x: Seq<i64>, k: Seq<i64>, options: Conv2dOptions) -> Result<
    Seq<i64>,
    Error,
> {
    match conv_extent(x[1], k[0], options.strides.0, options.dilation.0, options.padding.0) {
        Err(e) => Err(e),
        Ok(height) => match conv_extent(
            x[2],
            k[1],
            options.strides.1,
            options.dilation.1,
            options.padding.1,
        ) {
            Err(e) => Err(e),
            Ok(width) => Ok(seq![x[0], height, width, k[3]]),
        },
    }
}

/// The extent of a transposed convolution along one axis, or the refusal.
pub open spec fn transposed_shape(
    size: i64,
    kernel: i64,
    stride: i64,
    widths: Widths,
    dilation: i64,
    extra: i64,
) -> Result<i64, Error> {
    if transposed_valid(size, kernel, stride, widths, dilation, extra) {
        Ok(transposed_extent(size, kernel, stride, widths, dilation, extra) as i64)
    } else {
        Err(invalid("conv_transpose2d requires positive stride/dilation, nonnegative padding, output padding below the stride and representable extents"))
    }
}

impl Expr {
    /// A convolution with an HWIO kernel, or with an OIHW kernel.
    pub open spec fn conv2d_layout(self, kernel: Expr, options: Conv2dOptions, oihw: bool) -> Expr {
        match (self, kernel) {
            (Expr::Fails(e), _) => Expr::Fails(e),
            (_, Expr::Fails(e)) => Expr::Fails(e),
            (Expr::Is(x), Expr::Is(k)) => if x.graph != k.graph {
                Expr::invalid("cross-graph convolution operands")
            } else if x.dims.len() != 4 || k.dims.len() != 4 {
                Expr::invalid("conv2d requires rank-four NHWC input and rank-four kernel")
            } else {
                let layout = if oihw {
                    hwio(k.dims)
                } else {
                    k.dims
                };
                if !channels_fit(x.dims, layout, options.groups) {
                    Expr::invalid("conv2d channels/kernel dimensions/groups are incompatible")
                } else {
                    match conv_shape(x.dims, layout, options) {
                        Err(e) => Expr::Fails(e),
                        Ok(dims) => typed(
                            x.graph,
                            if oihw {
                                OpModel::Conv2dOihw(options)
                            } else {
                                OpModel::Conv2d(options)
                            },
                            seq![x, k],
                            dims,
                            x.dtype,
                        ),
                    }
                }
            },
        }
    }

    /// A convolution with a kernel `[Kh, Kw, Cin/groups, Cout]`.
    pub open spec fn conv2d(self, kernel: Expr, options: Conv2dOptions) -> Expr {
        self.conv2d_layout(kernel, options, false)
    }

    /// A convolution with a kernel `[Cout, Cin/groups, Kh, Kw]`.
    pub open spec fn conv2d_oihw(self, kernel: Expr, options: Conv2dOptions) -> Expr {
        self.conv2d_layout(kernel, options, true)
    }

    /// A transposed convolution with a kernel `[Kh, Kw, Cout, Cin]`.
    pub open spec fn conv_transpose2d(self, kernel: Expr, options: ConvTranspose2dOptions) -> Expr {
        match (self, kernel) {
            (Expr::Fails(e), _) => Expr::Fails(e),
            (_, Expr::Fails(e)) => Expr::Fails(e),
            (Expr::Is(x), Expr::Is(k)) => if x.graph != k.graph {
                Expr::invalid("cross-graph convolution operands")
            } else if x.dims.len() != 4 || k.dims.len() != 4 {
                Expr::invalid("conv_transpose2d requires rank-four NHWC input and rank-four kernel")
            } else if x.dims[1] <= 0 || x.dims[2] <= 0 || k.dims[0] <= 0 || k.dims[1] <= 0
                || k.dims[2] <= 0 || k.dims[3] <= 0 || x.dims[3] != k.dims[3] {
                Expr::invalid("conv_transpose2d channels/kernel dimensions are incompatible")
            } else {
                match (
                    transposed_shape(
                        x.dims[1],
                        k.dims[0],
                        options.strides.0,
                        options.padding.0,
                        options.dilation.0,
                        options.output_padding.0,
                    ),
                    transposed_shape(
                        x.dims[2],
                        k.dims[1],
                        options.strides.1,
                        options.padding.1,
                        options.dilation.1,
                        options.output_padding.1,
                    ),
                ) {
                    (Err(e), _) => Expr::Fails(e),
                    (_, Err(e)) => Expr::Fails(e),
                    (Ok(height), Ok(width)) => typed(
                        x.graph,
                        OpModel::ConvTranspose2d(options),
                        seq![x, k],
                        seq![x.dims[0], height, width, k.dims[2]],
                        x.dtype,
                    ),
                }
            },
        }
    }
}

/// The number of kernel positions along one axis, or the refusal.
fn conv_positions(size: i64, kernel: i64, stride: i64, dilation: i64, widths: Widths) -> (r: Result<
    i64,
    Error,
>)
    requires
        size >= 0,
        kernel > 0,
    ensures
        r == conv_extent(size, kernel, stride, dilation, widths),
        r is Ok ==> window_valid(size, stride, widths) && dilation > 0 && dilated(kernel, dilation)
            <= i64::MAX,
{
    let (low, high): (i64, i64) = widths;
    if stride <= 0 || dilation <= 0 || low < 0 || high < 0 {
        return Err(err("conv2d requires positive stride/dilation and nonnegative padding"));
    }
    proof {
        assert((kernel - 1) * dilation >= 0) by (nonlinear_arith)
            requires
                kernel > 0,
                dilation > 0,
        ;
    }
    let spread: Option<i64> = match (kernel - 1).checked_mul(dilation) {
        Some(product) => product.checked_add(1),
        None => None,
    };
    let effective: i64 = match spread {
        Some(effective) => effective,
        None => {
            return Err(err("conv2d effective kernel size overflow"));
        },
    };
    let sum: Option<i64> = match size.checked_add(low) {
        Some(partial) => partial.checked_add(high),
        None => None,
    };
    let padded: i64 = match sum {
        Some(padded) => padded,
        None => {
            return Err(err("conv2d padded input size overflow"));
        },
    };
    if padded < effective {
        Ok(0)
    } else {
        let room: i64 = padded - effective;
        proof {
            lemma_quotient(room as int, stride as int);
        }
        Ok(room / stride + 1)
    }
}

/// A quotient of nonnegative integers does not exceed the dividend.
pub(crate) proof fn lemma_quotient(a: int, b: int)
    by (nonlinear_arith)
    requires
        0 <= a,
        0 < b,
    ensures
        0 <= a / b <= a,
{
}

/// The extent of a transposed convolution along one axis, or the refusal.
fn transposed_positions(
    size: i64,
    kernel: i64,
    stride: i64,
    widths: Widths,
    dilation: i64,
    extra: i64,
) -> (r: Result<i64, Error>)
    requires
        size > 0,
        kernel > 0,
    ensures
        r == transposed_shape(size, kernel, stride, widths, dilation, extra),
{
    let (low, high): (i64, i64) = widths;
    if stride <= 0 || dilation <= 0 || low < 0 || high < 0 || extra < 0 || extra >= stride {
        return Err(err("conv_transpose2d requires positive stride/dilation, nonnegative padding, output padding below the stride and representable extents"));
    }
    proof {
        assert((kernel - 1) * dilation >= 0 && (size - 1) * stride >= 0) by (nonlinear_arith)
            requires
                kernel > 0,
                dilation > 0,
                size > 0,
                stride > 0,
        ;
    }
    let effective: Option<i64> = match (kernel - 1).checked_mul(dilation) {
        Some(product) => product.checked_add(1),
        None => None,
    };
    let spread: Option<i64> = (size - 1).checked_mul(stride);
    let sum: Option<i64> = match (effective, spread) {
        (Some(a), Some(b)) => match a.checked_add(b) {
            Some(sum) => sum.checked_add(extra),
            None => None,
        },
        _ => None,
    };
    match sum {
        Some(total) => {
            if total as i128 - low as i128 - high as i128 >= 0 {
                return Ok(total - low - high);
            }
        },
        None => {},
    }
    Err(err("conv_transpose2d requires positive stride/dilation, nonnegative padding, output padding below the stride and representable extents"))
}

impl Tensor {
    /// A convolution with a kernel in either layout.
    #[verifier::rlimit(30)]
    fn conv2d_layout(
        &self,
        graph: &mut Graph,
        kernel: &Tensor,
        options: Conv2dOptions,
        oihw: bool,
    ) -> (r: Result<Tensor, Error>)
        requires
            old(graph).wf(),
            old(graph).owns(*self),
            old(graph).admits(*kernel),
        ensures
            final(graph).extends(*old(graph)),
            final(graph).yields(r, self.expr().conv2d_layout(kernel.expr(), options, oihw)),
            final(graph).records(*old(graph), r),
    {
        if !self.same_graph(kernel) {
            return Err(err("cross-graph convolution operands"));
        }
        if self.shape().len() != 4 || kernel.shape().len() != 4 {
            return Err(err("conv2d requires rank-four NHWC input and rank-four kernel"));
        }
        proof {
            lemma_volume_nonnegative(self@.dims);
            lemma_volume_nonnegative(kernel@.dims);
        }
        let x: &[i64] = self.shape();
        let k: &[i64] = kernel.shape();
        let (kh, kw, ki, ko): (i64, i64, i64, i64) = if oihw {
            (k[2], k[3], k[1], k[0])
        } else {
            (k[0], k[1], k[2], k[3])
        };
        if options.groups <= 0 || x[3] <= 0 || kh <= 0 || kw <= 0 || ki <= 0 || ko <= 0 || x[3]
            % options.groups != 0 || x[3] / options.groups != ki || ko % options.groups != 0 {
            return Err(err("conv2d channels/kernel dimensions/groups are incompatible"));
        }
        let height: i64 = conv_positions(
            x[1],
            kh,
            options.strides.0,
            options.dilation.0,
            options.padding.0,
        )?;
        let width: i64 = conv_positions(
            x[2],
            kw,
            options.strides.1,
            options.dilation.1,
            options.padding.1,
        )?;
        let dims: Vec<i64> = vec![x[0], height, width, ko];
        assert(dims@ =~= seq![self@.dims[0], height, width, ko]);
        proof {
            let groups = options.groups as int;
            vstd::arithmetic::div_mod::lemma_fundamental_div_mod(self@.dims[3] as int, groups);
            assert(ki * groups == groups * ki) by (nonlinear_arith);
            let layout = if oihw {
                hwio(kernel@.dims)
            } else {
                kernel@.dims
            };
            assert(layout[0] == kh && layout[1] == kw && layout[2] == ki && layout[3] == ko);
            assert(dims@ =~= conv_dims(self@.dims, (kh, kw), ko, options));
            assert(conv_fits(self@.dims, layout, options, dims@));
        }
        if oihw {
            graph.typed2(Op::Conv2dOihw(options), self, kernel, dims.as_slice(), self.dtype())
        } else {
            graph.typed2(Op::Conv2d(options), self, kernel, dims.as_slice(), self.dtype())
        }
    }

    /// Input `[N,H,W,Cin]`, kernel `[Kh,Kw,Cin/groups,Cout]`, output
    /// `[N,Oh,Ow,Cout]`.
    pub fn conv2d(
        &self,
        graph: &mut Graph,
        kernel: &Tensor,
        options: Conv2dOptions,
    ) -> (r: Result<Tensor, Error>)
        requires
            old(graph).wf(),
            old(graph).owns(*self),
            old(graph).admits(*kernel),
        ensures
            final(graph).extends(*old(graph)),
            final(graph).yields(r, self.expr().conv2d(kernel.expr(), options)),
            final(graph).records(*old(graph), r),
    {
        self.conv2d_layout(graph, kernel, options, false)
    }

    /// Input `[N,H,W,Cin]`, kernel `[Cout,Cin/groups,Kh,Kw]`, output
    /// `[N,Oh,Ow,Cout]`. Weights are not transposed at runtime.
    pub fn conv2d_oihw(
        &self,
        graph: &mut Graph,
        kernel: &Tensor,
        options: Conv2dOptions,
    ) -> (r: Result<Tensor, Error>)
        requires
            old(graph).wf(),
            old(graph).owns(*self),
            old(graph).admits(*kernel),
        ensures
            final(graph).extends(*old(graph)),
            final(graph).yields(r, self.expr().conv2d_oihw(kernel.expr(), options)),
            final(graph).records(*old(graph), r),
    {
        self.conv2d_layout(graph, kernel, options, true)
    }

    /// Input `[N,H,W,Cin]`, kernel `[Kh,Kw,Cout,Cin]`. The extent of an axis is
    /// `(size - 1) * stride + (kernel - 1) * dilation + 1 - low - high + extra`.
    pub fn conv_transpose2d(
        &self,
        graph: &mut Graph,
        kernel: &Tensor,
        options: ConvTranspose2dOptions,
    ) -> (r: Result<Tensor, Error>)
        requires
            old(graph).wf(),
            old(graph).owns(*self),
            old(graph).admits(*kernel),
        ensures
            final(graph).extends(*old(graph)),
            final(graph).yields(r, self.expr().conv_transpose2d(kernel.expr(), options)),
            final(graph).records(*old(graph), r),
    {
        if !self.same_graph(kernel) {
            return Err(err("cross-graph convolution operands"));
        }
        if self.shape().len() != 4 || kernel.shape().len() != 4 {
            return Err(err("conv_transpose2d requires rank-four NHWC input and rank-four kernel"));
        }
        let x: &[i64] = self.shape();
        let k: &[i64] = kernel.shape();
        if x[1] <= 0 || x[2] <= 0 || k[0] <= 0 || k[1] <= 0 || k[2] <= 0 || k[3] <= 0 || x[3] != k[3] {
            return Err(err("conv_transpose2d channels/kernel dimensions are incompatible"));
        }
        let height: i64 = transposed_positions(
            x[1],
            k[0],
            options.strides.0,
            options.padding.0,
            options.dilation.0,
            options.output_padding.0,
        )?;
        let width: i64 = transposed_positions(
            x[2],
            k[1],
            options.strides.1,
            options.padding.1,
            options.dilation.1,
            options.output_padding.1,
        )?;
        let dims: Vec<i64> = vec![x[0], height, width, k[2]];
        assert(dims@ =~= seq![self@.dims[0], height, width, kernel@.dims[2]]);
        graph.typed2(Op::ConvTranspose2d(options), self, kernel, dims.as_slice(), self.dtype())
    }
}

/// The element count of four positive extents is the same in the order of
/// either kernel layout.
proof fn lemma_kernel_volume(k: Seq<i64>)
    requires
        k.len() == 4,
        k[0] > 0,
        k[1] > 0,
        k[2] > 0,
        k[3] > 0,
        volume(k) is Some,
    ensures
        volume(hwio(k)) is Some,
{
    reveal_with_fuel(volume, 5);
    let (a, b, c, d) = (k[0] as int, k[1] as int, k[2] as int, k[3] as int);
    let h = hwio(k);
    assert(k.drop_last().drop_last().drop_last().drop_last().len() == 0);
    assert(k.drop_last().drop_last().drop_last().last() == k[0]);
    assert(k.drop_last().drop_last().last() == k[1]);
    assert(k.drop_last().last() == k[2]);
    assert(h.drop_last().drop_last().drop_last().drop_last().len() == 0);
    assert(h.drop_last().drop_last().drop_last().last() == k[2]);
    assert(h.drop_last().drop_last().last() == k[3]);
    assert(h.drop_last().last() == k[1]);
    assert(h.last() == k[0]);
    let total = a * b * c * d;
    assert(volume(k) == Some(total as nat) && total <= usize::MAX) by {
        assert(1 * a == a);
    }
    assert(1 * c == c);
    assert(c * d * b * a == total && 0 < c <= total && 0 < c * d <= total && 0 < c * d * b
        <= total) by (nonlinear_arith)
        requires
            a > 0,
            b > 0,
            c > 0,
            d > 0,
            total == a * b * c * d,
    ;
    assert(a <= total && b <= total && d <= total) by (nonlinear_arith)
        requires
            a > 0,
            b > 0,
            c > 0,
            d > 0,
            total == a * b * c * d,
    ;
}

/// A convolution with an OIHW kernel succeeds just where the one with the
/// kernel transposed to HWIO does, and then has the same extents and element
/// type.
pub proof fn oihw_kernels_convolve_as_their_transposes(
    x: Expr,
    kernel: Value,
    options: Conv2dOptions,
)
    requires
        volume(kernel.dims) is Some,
    ensures
        ({
            let direct = x.conv2d_oihw(Expr::Is(kernel), options);
            let turned = x.conv2d(Expr::Is(kernel).transpose(seq![2usize, 3, 1, 0]), options);
            &&& direct is Is <==> turned is Is
            &&& direct is Is ==> made(turned, direct->Is_0.graph, direct->Is_0.dims, direct->Is_0.dtype)
        }),
{
    reveal(typed);
    reveal(applied);
    let permutation = seq![2usize, 3, 1, 0];
    let k = kernel.dims;
    let turned = Expr::Is(kernel).transpose(permutation);
    if k.len() == 4 {
        assert(gathered(k, permutation) =~= hwio(k));
        assert(is_permutation(permutation, 4));
        if k[0] > 0 && k[1] > 0 && k[2] > 0 && k[3] > 0 {
            lemma_kernel_volume(k);
        }
        if x is Is && turned is Is {
            let args = seq![x->Is_0, kernel];
            let others = seq![x->Is_0, turned->Is_0];
            assert(types_of(args) =~= types_of(others));
        }
    }
}

/// The index of a kernel element, given its row, its column, its input channel
/// within the group and its output channel, in either layout.
pub open spec fn kernel_index(h: int, w: int, c: int, o: int, oihw: bool) -> Seq<int> {
    if oihw {
        seq![o, c, h, w]
    } else {
        seq![h, w, c, o]
    }
}

/// The index of the input element that a kernel element meets at an index of a
/// convolution. It lies outside of the input where the kernel reaches into the
/// padding.
pub open spec fn met_index(
    layout: Seq<i64>,
    options: Conv2dOptions,
    index: Seq<int>,
    h: int,
    w: int,
    c: int,
) -> Seq<int> {
    let group = index[3] / (layout[3] as int / options.groups as int);
    seq![
        index[0],
        index[1] * options.strides.0 + h * options.dilation.0 - options.padding.0.0,
        index[2] * options.strides.1 + w * options.dilation.1 - options.padding.1.0,
        group * layout[2] + c,
    ]
}

/// What one kernel element contributes at an index of a convolution: the input
/// element that it meets, if it meets any, and itself.
pub open spec fn tap<A>(
    read: spec_fn(Element) -> A,
    x: Value,
    kernel: Value,
    options: Conv2dOptions,
    oihw: bool,
    index: Seq<int>,
    position: int,
) -> (Option<A>, A) {
    let layout = if oihw {
        hwio(kernel.dims)
    } else {
        kernel.dims
    };
    let h = position / (layout[1] * layout[2]);
    let w = (position / layout[2] as int) % (layout[1] as int);
    let c = position % (layout[2] as int);
    let met = met_index(layout, options, index, h, w, c);
    (
        if within(x.dims, met) {
            Some(read(origin(x, met)))
        } else {
            None
        },
        read(origin(kernel, kernel_index(h, w, c, index[3], oihw))),
    )
}

/// The contributions of all kernel elements at an index of a convolution, by
/// row, column and input channel.
pub open spec fn taps<A>(
    read: spec_fn(Element) -> A,
    x: Value,
    kernel: Value,
    options: Conv2dOptions,
    oihw: bool,
    index: Seq<int>,
) -> Seq<(Option<A>, A)> {
    let layout = if oihw {
        hwio(kernel.dims)
    } else {
        kernel.dims
    };
    Seq::new(
        (layout[0] * layout[1] * layout[2]) as nat,
        |position: int| tap(read, x, kernel, options, oihw, index, position),
    )
}

/// Whether a reading takes one element of a convolution to the sum of its
/// contributions.
pub open spec fn convolved_element<A>(
    read: spec_fn(Element) -> A,
    sum: spec_fn(Seq<(Option<A>, A)>) -> A,
    x: Value,
    kernel: Value,
    options: Conv2dOptions,
    oihw: bool,
    index: Seq<int>,
) -> bool {
    let y = Expr::Is(x).conv2d_layout(Expr::Is(kernel), options, oihw);
    y is Is && within(y->Is_0.dims, index) ==> read(copied(y, index)) == sum(
        taps(read, x, kernel, options, oihw, index),
    )
}

/// Whether a reading takes every element of a convolution, in either layout, to
/// the sum of its contributions.
pub open spec fn reads_convolutions<A>(
    read: spec_fn(Element) -> A,
    sum: spec_fn(Seq<(Option<A>, A)>) -> A,
) -> bool {
    forall|x: Value, kernel: Value, options: Conv2dOptions, oihw: bool, index: Seq<int>| #[trigger]
        convolved_element(read, sum, x, kernel, options, oihw, index)
}

/// Each element of a convolution with an OIHW kernel is that of the convolution
/// with the kernel transposed to HWIO, whatever the elements are and however
/// their products are summed.
pub proof fn oihw_kernels_give_the_values_of_their_transposes<A>(
    read: spec_fn(Element) -> A,
    sum: spec_fn(Seq<(Option<A>, A)>) -> A,
    x: Value,
    kernel: Value,
    options: Conv2dOptions,
    index: Seq<int>,
)
    requires
        reads_convolutions(read, sum),
        volume(kernel.dims) is Some,
        Expr::Is(x).conv2d_oihw(Expr::Is(kernel), options) is Is,
        within(Expr::Is(x).conv2d_oihw(Expr::Is(kernel), options)->Is_0.dims, index),
    ensures
        read(copied(Expr::Is(x).conv2d_oihw(Expr::Is(kernel), options), index)) == read(
            copied(
                Expr::Is(x).conv2d(Expr::Is(kernel).transpose(seq![2usize, 3, 1, 0]), options),
                index,
            ),
        ),
{
    let permutation = seq![2usize, 3, 1, 0];
    let turned = Expr::Is(kernel).transpose(permutation);
    oihw_kernels_convolve_as_their_transposes(Expr::Is(x), kernel, options);
    let k = turned->Is_0;
    assert(turned is Is);
    assert(k.dims =~= hwio(kernel.dims)) by {
        reveal(applied);
    }
    let there = taps(read, x, kernel, options, true, index);
    let back = taps(read, x, k, options, false, index);
    assert forall|position: int| 0 <= position < there.len() implies #[trigger] there[position]
        == back[position] by {
        let layout = hwio(kernel.dims);
        let h = position / (layout[1] * layout[2]);
        let w = (position / layout[2] as int) % (layout[1] as int);
        let c = position % (layout[2] as int);
        let at = kernel_index(h, w, c, index[3], true);
        transposing_permutes_the_index(Expr::Is(kernel), permutation, at);
        assert(Seq::new(4, |i: int| at[permutation[i] as int]) =~= kernel_index(
            h,
            w,
            c,
            index[3],
            false,
        ));
    }
    assert(there =~= back);
    assert(convolved_element(read, sum, x, kernel, options, true, index));
    assert(convolved_element(read, sum, x, k, options, false, index));
}

} // verus!
