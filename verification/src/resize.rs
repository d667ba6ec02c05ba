//! Resizing and normalization of NHWC data.
use crate::dtype::DType;
use crate::error::{err, invalid, Error};
use crate::graph::{constant, constant_i32, Expr, Graph, Tensor};
use crate::op::{f32_finite, f32_positive_finite, is_finite, is_positive_finite, Scalar};
use crate::shape::{bad_shape, elements, lemma_volume_nonnegative, volume};
use vstd::prelude::*;

verus! {

/// Sample positions of linear interpolation along one axis: for every output
/// coordinate the two source coordinates that are blended, and the F32 bits of
/// the weight of the second.
pub struct LinearSamples {
    pub lower: Vec<i32>,
    pub upper: Vec<i32>,
    pub weight: Vec<u32>,
}

/// F32 constants given by their bits.
pub open spec fn bits_of(values: Seq<u32>) -> Seq<Scalar> {
    Seq::new(values.len(), |i: int| Scalar::Bits(values[i]))
}

/// The reciprocals of F32 values given by their bits.
pub open spec fn reciprocals_of(values: Seq<u32>) -> Seq<Scalar> {
    Seq::new(values.len(), |i: int| Scalar::ReciprocalOf(values[i]))
}

/// The source coordinate of an output coordinate, rounded down.
pub open spec fn nearest_index(input: i64, output: i64, coordinate: int) -> int {
    (coordinate * input) / output as int
}

/// The source coordinates of every output coordinate, where all fit in I32.
pub open spec fn nearest_indices(input: i64, output: i64) -> Result<Seq<i32>, Error> {
    if exists|c: int| 0 <= c < output && #[trigger] nearest_index(input, output, c) > i32::MAX {
        Err(invalid("resize index exceeds I32 range"))
    } else {
        Ok(Seq::new(output as nat, |c: int| nearest_index(input, output, c) as i32))
    }
}

/// Whether NHWC data with pixels can be resized to a size.
pub open spec fn resizable(dims: Seq<i64>, size: (i64, i64)) -> bool {
    dims.len() == 4 && dims[1] > 0 && dims[2] > 0 && size.0 > 0 && size.1 > 0
}

/// Whether there is one finite mean and one positive finite deviation per
/// channel.
pub open spec fn statistics_valid(channels: int, mean: Seq<u32>, stddev: Seq<u32>) -> bool {
    &&& mean.len() == channels
    &&& stddev.len() == channels
    &&& forall|i: int| 0 <= i < mean.len() ==> f32_finite(#[trigger] mean[i])
    &&& forall|i: int| 0 <= i < stddev.len() ==> f32_positive_finite(#[trigger] stddev[i])
}

impl Expr {
    /// Every pixel repeated by integer factors.
    pub open spec fn upsample_nearest2d(self, scales: (i64, i64)) -> Expr {
        match self {
            Expr::Fails(e) => Expr::Fails(e),
            Expr::Is(x) => if x.dims.len() != 4 || scales.0 <= 0 || scales.1 <= 0 {
                Expr::invalid("upsample_nearest2d requires NHWC input and positive integer scales")
            } else {
                let (n, h, w, c) = (x.dims[0], x.dims[1], x.dims[2], x.dims[3]);
                if h * scales.0 > i64::MAX {
                    Expr::invalid("upsampled height overflow")
                } else if w * scales.1 > i64::MAX {
                    Expr::invalid("upsampled width overflow")
                } else {
                    let shape = seq![n, (h * scales.0) as i64, (w * scales.1) as i64, c];
                    if volume(shape) is None {
                        Expr::Fails(bad_shape())
                    } else if scales == (1i64, 1i64) {
                        self
                    } else {
                        self.reshape(seq![n, h, 1, w, 1, c]).broadcast_to(
                            seq![n, h, scales.0, w, scales.1, c],
                        ).reshape(shape)
                    }
                }
            },
        }
    }

    /// Nearest-neighbor resize: output `(y, x)` reads input
    /// `(floor(y * H / OH), floor(x * W / OW))`.
    pub open spec fn resize_nearest2d(self, size: (i64, i64)) -> Expr {
        match self {
            Expr::Fails(e) => Expr::Fails(e),
            Expr::Is(x) => if !resizable(x.dims, size) {
                Expr::Fails(Error::ResizeDimensions { operation: "resize_nearest2d" })
            } else if size == (x.dims[1], x.dims[2]) {
                self
            } else {
                match nearest_indices(x.dims[1], size.0) {
                    Err(e) => Expr::Fails(e),
                    Ok(indices) => {
                        let rows = constant_i32(x.graph, seq![size.0], indices);
                        match nearest_indices(x.dims[2], size.1) {
                            Err(e) => Expr::Fails(e).given(rows),
                            Ok(indices) => {
                                let columns = constant_i32(x.graph, seq![size.1], indices);
                                self.take(rows, 1).given(columns).given(rows).take(columns, 2)
                            },
                        }
                    },
                }
            },
        }
    }

    /// Two gathers along one axis, blended by weights.
    #[verifier::opaque]
    pub open spec fn blended(
        self,
        lower: Expr,
        upper: Expr,
        weight: Expr,
        axis: usize,
    ) -> Expr {
        let first = self.take(lower, axis).given(weight).given(upper).given(lower);
        let second = self.take(upper, axis).given(first);
        first.add(second.sub(first).mul(weight)).given(second)
    }

    /// Interpolation along the rows of NHWC data, then along its columns.
    pub open spec fn interpolated(
        self,
        size: (i64, i64),
        rows: (Seq<i32>, Seq<i32>, Seq<u32>),
        columns: (Seq<i32>, Seq<i32>, Seq<u32>),
    ) -> Expr {
        let x = self->Is_0;
        let row_weight = constant(x.graph, seq![size.0], bits_of(rows.2)).reshape(
            seq![1, size.0, 1, 1],
        ).broadcast_to(seq![x.dims[0], size.0, x.dims[2], x.dims[3]]);
        let vertical = self.blended(
            constant_i32(x.graph, seq![size.0], rows.0),
            constant_i32(x.graph, seq![size.0], rows.1),
            row_weight,
            1,
        );
        let column_weight = constant(x.graph, seq![size.1], bits_of(columns.2)).reshape(
            seq![1, 1, size.1, 1],
        ).broadcast_to(seq![x.dims[0], size.0, size.1, x.dims[3]]);
        vertical.blended(
            constant_i32(x.graph, seq![size.1], columns.0).given(vertical),
            constant_i32(x.graph, seq![size.1], columns.1),
            column_weight,
            2,
        )
    }

    /// Bilinear resize with given sample positions.
    pub open spec fn resize_bilinear2d(
        self,
        size: (i64, i64),
        rows: (Seq<i32>, Seq<i32>, Seq<u32>),
        columns: (Seq<i32>, Seq<i32>, Seq<u32>),
    ) -> Expr {
        match self {
            Expr::Fails(e) => Expr::Fails(e),
            Expr::Is(x) => if !resizable(x.dims, size) {
                Expr::Fails(Error::ResizeDimensions { operation: "resize_bilinear2d" })
            } else if x.dtype != DType::F32 {
                Expr::invalid("resize_bilinear2d requires F32 input; cast explicitly")
            } else if size == (x.dims[1], x.dims[2]) {
                self
            } else if x.dims[1] > i32::MAX || x.dims[2] > i32::MAX {
                Expr::invalid("resize input dimension exceeds I32 range")
            } else {
                self.interpolated(size, rows, columns)
            },
        }
    }

    /// Every channel less its mean, over its standard deviation.
    pub open spec fn normalize_nhwc(self, mean: Seq<u32>, stddev: Seq<u32>) -> Expr {
        match self {
            Expr::Fails(e) => Expr::Fails(e),
            Expr::Is(x) => if x.dtype != DType::F32 || x.dims.len() != 4 {
                Expr::invalid("normalize_nhwc requires F32 NHWC input")
            } else if x.dims[3] > usize::MAX {
                Expr::invalid("invalid channel count")
            } else if !statistics_valid(x.dims[3] as int, mean, stddev) {
                Expr::invalid(
                    "normalize_nhwc requires one finite mean and positive finite stddev per channel",
                )
            } else {
                let center = constant(x.graph, seq![x.dims[3]], bits_of(mean)).broadcast_to(x.dims);
                let scale = constant(
                    x.graph,
                    seq![x.dims[3]],
                    reciprocals_of(stddev),
                ).broadcast_to(x.dims).given(center);
                self.sub(center).given(scale).mul(scale)
            },
        }
    }
}

impl View for LinearSamples {
    type V = (Seq<i32>, Seq<i32>, Seq<u32>);

    open spec fn view(&self) -> (Seq<i32>, Seq<i32>, Seq<u32>) {
        (self.lower@, self.upper@, self.weight@)
    }
}

/// A source coordinate lies within the source.
proof fn lemma_nearest_bounds(input: i64, output: i64, coordinate: int)
    requires
        input > 0,
        output > 0,
        0 <= coordinate < output,
    ensures
        0 <= nearest_index(input, output, coordinate) < input,
        0 <= coordinate * input <= i64::MAX * i64::MAX,
{
    assert(0 <= coordinate * input < output * input) by (nonlinear_arith)
        requires
            input > 0,
            0 <= coordinate < output,
    ;
    assert(coordinate * input <= i64::MAX * i64::MAX) by (nonlinear_arith)
        requires
            0 < input <= i64::MAX,
            0 <= coordinate <= i64::MAX,
    ;
    assert(0 <= (coordinate * input) / output as int) by (nonlinear_arith)
        requires
            0 <= coordinate * input,
            output > 0,
    ;
    assert(input > (coordinate * input) / output as int) by (nonlinear_arith)
        requires
            coordinate * input < output * input,
            0 <= coordinate * input,
            output > 0,
    ;
}

/// Every source coordinate of a nearest-neighbor resize lies within the source.
pub proof fn nearest_reads_within_the_source(input: i64, output: i64)
    requires
        input > 0,
        output > 0,
    ensures
        nearest_indices(input, output) matches Ok(indices) ==> indices.len() == output && forall|
            c: int,
        |
            0 <= c < output ==> 0 <= #[trigger] indices[c] < input,
{
    if let Ok(indices) = nearest_indices(input, output) {
        assert forall|c: int| 0 <= c < output implies 0 <= #[trigger] indices[c] < input by {
            lemma_nearest_bounds(input, output, c);
            assert(nearest_index(input, output, c) <= i32::MAX);
        }
    }
}

/// The source coordinates of every output coordinate.
fn nearest_positions(input: i64, output: i64) -> (r: Result<Vec<i32>, Error>)
    requires
        input > 0,
        output > 0,
    ensures
        match r {
            Ok(indices) => nearest_indices(input, output) == Ok::<Seq<i32>, Error>(indices@),
            Err(e) => nearest_indices(input, output) == Err::<Seq<i32>, Error>(e),
        },
{
    let mut indices: Vec<i32> = Vec::new();
    let mut c: i64 = 0;
    while c < output
        invariant
            input > 0,
            0 <= c <= output,
            indices@.len() == c,
            forall|k: int|
                0 <= k < c ==> #[trigger] indices@[k] == nearest_index(input, output, k),
        decreases output - c,
    {
        proof {
            lemma_nearest_bounds(input, output, c as int);
        }
        let index: i128 = c as i128 * input as i128 / output as i128;
        assert(index == nearest_index(input, output, c as int));
        if index > i32::MAX as i128 {
            return Err(err("resize index exceeds I32 range"));
        }
        indices.push(index as i32);
        c += 1;
    }
    assert forall|k: int| 0 <= k < output implies nearest_index(input, output, k) <= i32::MAX by {
        assert(indices@[k] == nearest_index(input, output, k));
    }
    assert(indices@ =~= Seq::new(
        output as nat,
        |k: int| nearest_index(input, output, k) as i32,
    ));
    Ok(indices)
}

/// F32 constants given by their bits.
fn constants_of(values: &[u32]) -> (r: Vec<Scalar>)
    ensures
        r@ == bits_of(values@),
{
    let mut constants: Vec<Scalar> = Vec::new();
    let mut i: usize = 0;
    while i < values.len()
        invariant
            i <= values@.len(),
            constants@ =~= bits_of(values@.take(i as int)),
        decreases values@.len() - i,
    {
        constants.push(Scalar::Bits(values[i]));
        i += 1;
    }
    assert(values@.take(i as int) =~= values@);
    constants
}

/// The reciprocals of F32 values given by their bits.
fn inverses_of(values: &[u32]) -> (r: Vec<Scalar>)
    ensures
        r@ == reciprocals_of(values@),
{
    let mut constants: Vec<Scalar> = Vec::new();
    let mut i: usize = 0;
    while i < values.len()
        invariant
            i <= values@.len(),
            constants@ =~= reciprocals_of(values@.take(i as int)),
        decreases values@.len() - i,
    {
        constants.push(Scalar::ReciprocalOf(values[i]));
        i += 1;
    }
    assert(values@.take(i as int) =~= values@);
    constants
}

/// Whether every value is finite, and positive where that is asked.
fn all_finite(values: &[u32], positive: bool) -> (r: bool)
    ensures
        r == forall|i: int|
            0 <= i < values@.len() ==> if positive {
                f32_positive_finite(#[trigger] values@[i])
            } else {
                f32_finite(values@[i])
            },
{
    let mut i: usize = 0;
    while i < values.len()
        invariant
            i <= values@.len(),
            forall|k: int|
                0 <= k < i ==> if positive {
                    f32_positive_finite(#[trigger] values@[k])
                } else {
                    f32_finite(values@[k])
                },
        decreases values@.len() - i,
    {
        let valid: bool = if positive {
            is_positive_finite(values[i])
        } else {
            is_finite(values[i])
        };
        if !valid {
            assert(!(if positive {
                f32_positive_finite(values@[i as int])
            } else {
                f32_finite(values@[i as int])
            }));
            return false;
        }
        i += 1;
    }
    true
}

/// Blending fails with the data, then with each constant in turn.
broadcast proof fn lemma_blended_strict(
    data: Expr,
    lower: Expr,
    upper: Expr,
    weight: Expr,
    axis: usize,
)
    ensures
        lower is Fails ==> (#[trigger] data.blended(lower, upper, weight, axis)) == lower,
        lower is Is && upper is Fails ==> data.blended(lower, upper, weight, axis) == upper,
        lower is Is && upper is Is && weight is Fails ==> data.blended(lower, upper, weight, axis)
            == weight,
{
    reveal(Expr::blended);
}

broadcast group group_blended {
    lemma_blended_strict,
}

impl Tensor {
    /// Repeat each NHWC pixel by positive integer factors for height and width.
    /// Output `(n, h, w, c)` reads input `(n, h / scale_h, w / scale_w, c)`.
    pub fn upsample_nearest2d(
        &self,
        graph: &mut Graph,
        scales: (i64, i64),
    ) -> (r: Result<Tensor, Error>)
        requires
            old(graph).wf(),
            old(graph).owns(*self),
        ensures
            final(graph).extends(*old(graph)),
            final(graph).yields(r, self.expr().upsample_nearest2d(scales)),
    {
        if self.shape().len() != 4 || scales.0 <= 0 || scales.1 <= 0 {
            return Err(
                err("upsample_nearest2d requires NHWC input and positive integer scales"),
            );
        }
        proof {
            lemma_volume_nonnegative(self@.dims);
            assert(self@.dims[1] * scales.0 >= 0) by (nonlinear_arith)
                requires
                    self@.dims[1] >= 0,
                    scales.0 > 0,
            ;
            assert(self@.dims[2] * scales.1 >= 0) by (nonlinear_arith)
                requires
                    self@.dims[2] >= 0,
                    scales.1 > 0,
            ;
        }
        let n: i64 = self.shape()[0];
        let h: i64 = self.shape()[1];
        let w: i64 = self.shape()[2];
        let c: i64 = self.shape()[3];
        let height: i64 = match h.checked_mul(scales.0) {
            Some(height) => height,
            None => {
                return Err(err("upsampled height overflow"));
            },
        };
        let width: i64 = match w.checked_mul(scales.1) {
            Some(width) => width,
            None => {
                return Err(err("upsampled width overflow"));
            },
        };
        let shape: Vec<i64> = vec![n, height, width, c];
        assert(shape@ =~= seq![n, (h * scales.0) as i64, (w * scales.1) as i64, c]);
        let _count: usize = elements(shape.as_slice())?;
        if scales.0 == 1 && scales.1 == 1 {
            return Ok(self.copy());
        }
        let spaced: Vec<i64> = vec![n, h, 1, w, 1, c];
        let repeated: Vec<i64> = vec![n, h, scales.0, w, scales.1, c];
        assert(spaced@ =~= seq![n, h, 1, w, 1, c]);
        assert(repeated@ =~= seq![n, h, scales.0, w, scales.1, c]);
        let expanded: Tensor = self.reshape(graph, spaced.as_slice())?;
        let filled: Tensor = expanded.broadcast_to(graph, repeated.as_slice())?;
        filled.reshape(graph, shape.as_slice())
    }

    /// Resize to a positive size by the asymmetric nearest-neighbor convention:
    /// output `(y, x)` reads input `(floor(y * H / OH), floor(x * W / OW))`.
    pub fn resize_nearest2d(
        &self,
        graph: &mut Graph,
        size: (i64, i64),
    ) -> (r: Result<Tensor, Error>)
        requires
            old(graph).wf(),
            old(graph).owns(*self),
        ensures
            final(graph).extends(*old(graph)),
            final(graph).yields(r, self.expr().resize_nearest2d(size)),
    {
        if !self.can_resize(size) {
            return Err(Error::ResizeDimensions { operation: "resize_nearest2d" });
        }
        let height: i64 = self.shape()[1];
        let width: i64 = self.shape()[2];
        if size.0 == height && size.1 == width {
            return Ok(self.copy());
        }
        let tall: Vec<i64> = vec![size.0];
        let wide: Vec<i64> = vec![size.1];
        assert(tall@ =~= seq![size.0]);
        assert(wide@ =~= seq![size.1]);
        let indices: Vec<i32> = nearest_positions(height, size.0)?;
        let rows: Tensor = graph.constant_i32(tall.as_slice(), indices.as_slice())?;
        let indices: Vec<i32> = nearest_positions(width, size.1)?;
        let columns: Tensor = graph.constant_i32(wide.as_slice(), indices.as_slice())?;
        self.take(graph, &rows, 1)?.take(graph, &columns, 2)
    }

    /// Whether NHWC data with pixels can be resized to a size.
    fn can_resize(&self, size: (i64, i64)) -> (r: bool)
        requires
            self.wf(),
        ensures
            r == resizable(self@.dims, size),
    {
        let dims: &[i64] = self.shape();
        dims.len() == 4 && dims[1] > 0 && dims[2] > 0 && size.0 > 0 && size.1 > 0
    }

    /// Two gathers along one axis, blended by weights.
    fn blended(
        &self,
        graph: &mut Graph,
        lower: &Tensor,
        upper: &Tensor,
        weight: &Tensor,
        axis: usize,
    ) -> (r: Result<Tensor, Error>)
        requires
            old(graph).wf(),
            old(graph).owns(*self),
            old(graph).owns(*lower),
            old(graph).owns(*upper),
            old(graph).owns(*weight),
        ensures
            final(graph).extends(*old(graph)),
            final(graph).yields(r, self.expr().blended(lower.expr(), upper.expr(), weight.expr(), axis)),
    {
        proof {
            reveal(Expr::blended);
        }
        let first: Tensor = self.take(graph, lower, axis)?;
        let second: Tensor = self.take(graph, upper, axis)?;
        let step: Tensor = second.sub(graph, &first)?;
        let step: Tensor = step.mul(graph, weight)?;
        first.add(graph, &step)
    }

    /// Resize F32 NHWC data by separable linear interpolation. The sample
    /// positions of both axes are given; all gathers and arithmetic stay in the
    /// graph.
    #[verifier::rlimit(30)]
    pub fn resize_bilinear2d(
        &self,
        graph: &mut Graph,
        size: (i64, i64),
        rows: &LinearSamples,
        columns: &LinearSamples,
    ) -> (r: Result<Tensor, Error>)
        requires
            old(graph).wf(),
            old(graph).owns(*self),
        ensures
            final(graph).extends(*old(graph)),
            final(graph).yields(r, self.expr().resize_bilinear2d(size, rows@, columns@)),
    {
        if !self.can_resize(size) {
            return Err(Error::ResizeDimensions { operation: "resize_bilinear2d" });
        }
        if self.dtype() != DType::F32 {
            return Err(err("resize_bilinear2d requires F32 input; cast explicitly"));
        }
        let height: i64 = self.shape()[1];
        let width: i64 = self.shape()[2];
        if size.0 == height && size.1 == width {
            return Ok(self.copy());
        }
        if height > i32::MAX as i64 || width > i32::MAX as i64 {
            return Err(err("resize input dimension exceeds I32 range"));
        }
        proof {
            broadcast use group_blended;
        }
        let tall: Vec<i64> = vec![size.0];
        let tall_unit: Vec<i64> = vec![1, size.0, 1, 1];
        let tall_target: Vec<i64> = vec![self.shape()[0], size.0, width, self.shape()[3]];
        assert(tall@ =~= seq![size.0]);
        assert(tall_unit@ =~= seq![1, size.0, 1, 1]);
        assert(tall_target@ =~= seq![self@.dims[0], size.0, self@.dims[2], self@.dims[3]]);
        let lower: Tensor = graph.constant_i32(tall.as_slice(), rows.lower.as_slice())?;
        let upper: Tensor = graph.constant_i32(tall.as_slice(), rows.upper.as_slice())?;
        let weights: Vec<Scalar> = constants_of(rows.weight.as_slice());
        let weight: Tensor = graph.constant(tall.as_slice(), weights.as_slice())?;
        let weight: Tensor = weight.reshape(graph, tall_unit.as_slice())?;
        let weight: Tensor = weight.broadcast_to(graph, tall_target.as_slice())?;
        let vertical: Tensor = self.blended(graph, &lower, &upper, &weight, 1)?;
        let wide: Vec<i64> = vec![size.1];
        let wide_unit: Vec<i64> = vec![1, 1, size.1, 1];
        let wide_target: Vec<i64> = vec![self.shape()[0], size.0, size.1, self.shape()[3]];
        assert(wide@ =~= seq![size.1]);
        assert(wide_unit@ =~= seq![1, 1, size.1, 1]);
        assert(wide_target@ =~= seq![self@.dims[0], size.0, size.1, self@.dims[3]]);
        let lower: Tensor = graph.constant_i32(wide.as_slice(), columns.lower.as_slice())?;
        let upper: Tensor = graph.constant_i32(wide.as_slice(), columns.upper.as_slice())?;
        let weights: Vec<Scalar> = constants_of(columns.weight.as_slice());
        let weight: Tensor = graph.constant(wide.as_slice(), weights.as_slice())?;
        let weight: Tensor = weight.reshape(graph, wide_unit.as_slice())?;
        let weight: Tensor = weight.broadcast_to(graph, wide_target.as_slice())?;
        vertical.blended(graph, &lower, &upper, &weight, 2)
    }

    /// Per-channel `(x - mean) / stddev` of F32 NHWC data. Statistics are F32
    /// values given by their bits; every deviation is finite and positive, every
    /// mean finite.
    pub fn normalize_nhwc(
        &self,
        graph: &mut Graph,
        mean: &[u32],
        stddev: &[u32],
    ) -> (r: Result<Tensor, Error>)
        requires
            old(graph).wf(),
            old(graph).owns(*self),
        ensures
            final(graph).extends(*old(graph)),
            final(graph).yields(r, self.expr().normalize_nhwc(mean@, stddev@)),
    {
        if self.dtype() != DType::F32 || self.shape().len() != 4 {
            return Err(err("normalize_nhwc requires F32 NHWC input"));
        }
        let channels: i64 = self.shape()[3];
        proof {
            lemma_volume_nonnegative(self@.dims);
        }
        if channels as u64 > usize::MAX as u64 {
            return Err(err("invalid channel count"));
        }
        if mean.len() != channels as usize || stddev.len() != channels as usize || !all_finite(
            mean,
            false,
        ) || !all_finite(stddev, true) {
            return Err(
                err("normalize_nhwc requires one finite mean and positive finite stddev per channel"),
            );
        }
        assert(statistics_valid(channels as int, mean@, stddev@));
        let unit: Vec<i64> = vec![channels];
        assert(unit@ =~= seq![channels]);
        let center: Vec<Scalar> = constants_of(mean);
        let center: Tensor = graph.constant(unit.as_slice(), center.as_slice())?;
        let center: Tensor = center.broadcast_to(graph, self.shape())?;
        let scale: Vec<Scalar> = inverses_of(stddev);
        let scale: Tensor = graph.constant(unit.as_slice(), scale.as_slice())?;
        let scale: Tensor = scale.broadcast_to(graph, self.shape())?;
        let centered: Tensor = self.sub(graph, &center)?;
        centered.mul(graph, &scale)
    }
}

} // verus!
