//! Image transformations of F32 NHWC data, composed of ordinary tensor
//! operations.
use crate::diagonals::{zero_element, zero_padding_surrounds_the_interior};
use crate::dtype::DType;
use crate::elements::{copied, origin, slices_read_by_their_strides, unpadded_index, within};
use crate::error::{err, Error};
use crate::graph::{applied, constant, scalar, Expr, Graph, Tensor, Value};
use crate::indexing::slices_of;
use crate::op::{f32_finite, is_finite, Scalar, SliceAxis, Widths, F32_ONE, F32_ZERO};
use crate::shape::{lemma_volume_nonnegative, volume};
use crate::sound::{padded, slice_dims, slice_extent};
use vstd::prelude::*;

verus! {

/// The smaller of two extents.
pub open spec fn lesser(a: i64, b: i64) -> i64 {
    if a <= b {
        a
    } else {
        b
    }
}

/// Where a centered crop starts: the bottom and right lose the extra pixel.
pub open spec fn crop_start(extent: i64, size: i64) -> int {
    (extent - lesser(size, extent)) / 2
}

/// Padding shared by both ends of an axis: the far end gets the odd element.
pub open spec fn halves(total: int) -> Widths {
    ((total / 2) as i64, (total - total / 2) as i64)
}

/// The grayscale weights of a luma standard: red, green and blue.
pub open spec fn luma_weights(standard: Seq<char>) -> Option<Seq<Scalar>> {
    if standard == "rec601"@ {
        Some(seq![Scalar::Bits(0x3e99096c), Scalar::Bits(0x3f1645a2), Scalar::Bits(0x3de978d5)])
    } else if standard == "rec709"@ {
        Some(seq![Scalar::Bits(0x3e59b3d0), Scalar::Bits(0x3f371759), Scalar::Bits(0x3d93dd98)])
    } else if standard == "bt2001"@ {
        Some(seq![Scalar::Bits(0x3e86809d), Scalar::Bits(0x3f2d9168), Scalar::Bits(0x3d72e48f)])
    } else {
        None
    }
}

/// Whether a value holds F32 NHWC data.
pub open spec fn is_image(x: Value) -> bool {
    x.dtype == DType::F32 && x.dims.len() == 4
}

impl Expr {
    /// The expression `result`, unless this one fails or is not F32 NHWC data.
    pub open spec fn as_image(self, operation: &'static str, result: Expr) -> Expr {
        match self {
            Expr::Fails(e) => Expr::Fails(e),
            Expr::Is(x) => if !is_image(x) {
                Expr::Fails(Error::ImageLayout { operation })
            } else {
                result
            },
        }
    }

    /// A value added to every pixel.
    pub open spec fn adjust_brightness(self, delta: u32) -> Expr {
        self.as_image(
            "adjust_brightness",
            if !f32_finite(delta) {
                Expr::invalid("brightness delta must be finite")
            } else {
                self.add_scalar(Scalar::Bits(delta))
            },
        )
    }

    /// Every channel scaled around its spatial mean.
    pub open spec fn adjust_contrast(self, factor: u32) -> Expr {
        self.as_image(
            "adjust_contrast",
            if !f32_finite(factor) {
                Expr::invalid("contrast factor must be finite")
            } else {
                let mean = self.mean(seq![1, 2], true).broadcast_to(self->Is_0.dims);
                self.sub(mean).mul_scalar(Scalar::Bits(factor)).given(self.sub(mean)).add(mean)
            },
        )
    }

    /// Images mirrored horizontally.
    pub open spec fn flip_left_right(self) -> Expr {
        self.as_image("flip_left_right", self.flip(seq![2]))
    }

    /// Images mirrored vertically.
    pub open spec fn flip_up_down(self) -> Expr {
        self.as_image("flip_up_down", self.flip(seq![1]))
    }

    /// The central part of images, whole along axes that are small already.
    pub open spec fn center_crop(self, size: (i64, i64)) -> Expr {
        self.as_image(
            "center_crop",
            if size.0 <= 0 || size.1 <= 0 {
                Expr::invalid("center crop size must be positive")
            } else {
                let dims = self->Is_0.dims;
                let top = crop_start(dims[1], size.0);
                let left = crop_start(dims[2], size.1);
                self.slice(
                    seq![0, top as i64, left as i64, 0],
                    seq![
                        dims[0],
                        (top + lesser(size.0, dims[1])) as i64,
                        (left + lesser(size.1, dims[2])) as i64,
                        dims[3],
                    ],
                    seq![1, 1, 1, 1],
                )
            },
        )
    }

    /// Images cropped or zero-padded to a size around their center.
    pub open spec fn resize_with_crop_or_pad(self, size: (i64, i64)) -> Expr {
        self.as_image(
            "resize_with_crop_or_pad",
            match self.center_crop(size) {
                Expr::Fails(e) => Expr::Fails(e),
                Expr::Is(x) => {
                    let vertical = size.0 - x.dims[1];
                    let horizontal = size.1 - x.dims[2];
                    Expr::Is(x).pad(
                        seq![
                            (0, 0),
                            halves(vertical),
                            halves(horizontal),
                            (0, 0),
                        ],
                        Scalar::Bits(F32_ZERO),
                    )
                },
            },
        )
    }

    /// One channel out of three, weighted by a luma standard.
    pub open spec fn rgb_to_grayscale(self, luma_standard: Seq<char>) -> Expr {
        self.as_image("rgb_to_grayscale", self.luma(luma_standard))
    }

    /// Images weighted by a luma standard.
    pub open spec fn luma(self, luma_standard: Seq<char>) -> Expr {
        let x = self->Is_0;
        if x.dims[3] != 3 {
            Expr::invalid("rgb_to_grayscale requires exactly three channels")
        } else {
            match luma_weights(luma_standard) {
                None => Expr::invalid("unsupported grayscale luma standard"),
                Some(weights) => {
                    let weights = constant(x.graph, seq![1, 1, 1, 3], weights).broadcast_to(
                        seq![x.dims[0], x.dims[1], x.dims[2], 3],
                    );
                    self.mul(weights).sum(seq![3], true)
                },
            }
        }
    }

    /// Values at or above a threshold inverted.
    pub open spec fn solarize(self, threshold: u32) -> Expr {
        self.as_image(
            "solarize",
            if !f32_finite(threshold) {
                Expr::invalid("solarize threshold must be finite")
            } else {
                let x = self->Is_0;
                let level = scalar(x.graph, Scalar::Bits(threshold)).broadcast_to(x.dims);
                let inverted = self.neg().add_scalar(Scalar::Bits(F32_ONE)).given(self.neg());
                let mask = self.lt_mask(level);
                mask.select(self, inverted.given(mask))
            },
        )
    }
}

/// A slice without gaps has as many elements as it spans.
proof fn lemma_unit_stride(axis: SliceAxis)
    requires
        axis.stride == 1,
    ensures
        slice_extent(axis) == axis.limit - axis.start,
{
    assert((axis.limit - axis.start + 1 - 1) / 1 == axis.limit - axis.start);
}

/// The extents of a centered crop: the smaller of the size and the source along
/// height and width, the source's elsewhere.
pub proof fn crop_has_the_smaller_extents(x: Value, size: (i64, i64))
    requires
        Expr::Is(x).center_crop(size) is Is,
        volume(x.dims) is Some,
    ensures
        Expr::Is(x).center_crop(size)->Is_0.dims == seq![
            x.dims[0],
            lesser(size.0, x.dims[1]),
            lesser(size.1, x.dims[2]),
            x.dims[3],
        ],
        Expr::Is(x).center_crop(size)->Is_0.graph == x.graph,
{
    reveal(applied);
    lemma_volume_nonnegative(x.dims);
    let top = crop_start(x.dims[1], size.0);
    let left = crop_start(x.dims[2], size.1);
    assert(x.dims[1] >= 0 && x.dims[2] >= 0);
    assert(0 <= top && top + lesser(size.0, x.dims[1]) <= x.dims[1]);
    assert(0 <= left && left + lesser(size.1, x.dims[2]) <= x.dims[2]);
    let starts = seq![0, top as i64, left as i64, 0];
    let limits = seq![
        x.dims[0],
        (top + lesser(size.0, x.dims[1])) as i64,
        (left + lesser(size.1, x.dims[2])) as i64,
        x.dims[3],
    ];
    let axes = slices_of(starts, limits, seq![1, 1, 1, 1]);
    assert(axes[0] == SliceAxis { start: 0, limit: x.dims[0], stride: 1 });
    assert(axes[1] == SliceAxis { start: starts[1], limit: limits[1], stride: 1 });
    assert(axes[2] == SliceAxis { start: starts[2], limit: limits[2], stride: 1 });
    assert(axes[3] == SliceAxis { start: 0, limit: x.dims[3], stride: 1 });
    lemma_unit_stride(axes[0]);
    lemma_unit_stride(axes[1]);
    lemma_unit_stride(axes[2]);
    lemma_unit_stride(axes[3]);
    assert(slice_dims(axes) =~= seq![
        x.dims[0],
        lesser(size.0, x.dims[1]),
        lesser(size.1, x.dims[2]),
        x.dims[3],
    ]);
}

/// Cropping or padding gives exactly the requested height and width.
pub proof fn crop_or_pad_has_the_requested_size(x: Value, size: (i64, i64))
    requires
        Expr::Is(x).resize_with_crop_or_pad(size) is Is,
        volume(x.dims) is Some,
    ensures
        Expr::Is(x).resize_with_crop_or_pad(size)->Is_0.dims == seq![
            x.dims[0],
            size.0,
            size.1,
            x.dims[3],
        ],
{
    reveal(applied);
    lemma_volume_nonnegative(x.dims);
    crop_has_the_smaller_extents(x, size);
    let c = Expr::Is(x).center_crop(size)->Is_0;
    let vertical = size.0 - c.dims[1];
    let horizontal = size.1 - c.dims[2];
    let padding: Seq<Widths> = seq![
        (0, 0),
        halves(vertical),
        halves(horizontal),
        (0, 0),
    ];
    assert(padded(c.dims, padding) =~= seq![x.dims[0], size.0, size.1, x.dims[3]]);
}

/// A centered crop holds the source's elements beyond half of what is discarded,
/// rounded down: the bottom and right lose the odd pixel.
pub proof fn crops_start_at_half_of_what_is_discarded(
    x: Value,
    size: (i64, i64),
    b: int,
    row: int,
    column: int,
    channel: int,
)
    requires
        Expr::Is(x).center_crop(size) is Is,
        volume(x.dims) is Some,
    ensures
        copied(Expr::Is(x).center_crop(size), seq![b, row, column, channel]) == origin(
            x,
            seq![
                b,
                row + (x.dims[1] - lesser(size.0, x.dims[1])) / 2,
                column + (x.dims[2] - lesser(size.1, x.dims[2])) / 2,
                channel,
            ],
        ),
{
    lemma_volume_nonnegative(x.dims);
    let top = crop_start(x.dims[1], size.0);
    let left = crop_start(x.dims[2], size.1);
    let starts = seq![0, top as i64, left as i64, 0];
    let limits = seq![
        x.dims[0],
        (top + lesser(size.0, x.dims[1])) as i64,
        (left + lesser(size.1, x.dims[2])) as i64,
        x.dims[3],
    ];
    let strides: Seq<i64> = seq![1, 1, 1, 1];
    let index = seq![b, row, column, channel];
    slices_read_by_their_strides(Expr::Is(x), starts, limits, strides, index);
    let source = Seq::new(index.len(), |i: int| starts[i] + index[i] * strides[i]);
    let there = seq![b, row + top, column + left, channel];
    assert forall|i: int| 0 <= i < 4 implies #[trigger] source[i] == there[i] by {
        assert(strides[i] == 1);
        assert(index[i] * 1 == index[i]);
    }
    assert(source =~= there);
}

/// Images cropped or padded to a size keep their center: the rows and columns
/// that a centered crop keeps stand after half of what is missing, rounded
/// down, and zeros surround them.
pub proof fn crops_and_pads_keep_the_center(
    x: Value,
    size: (i64, i64),
    b: int,
    row: int,
    column: int,
    channel: int,
)
    requires
        Expr::Is(x).resize_with_crop_or_pad(size) is Is,
        volume(x.dims) is Some,
        0 <= b < x.dims[0],
        0 <= row < size.0,
        0 <= column < size.1,
        0 <= channel < x.dims[3],
    ensures
        ({
            let height = lesser(size.0, x.dims[1]);
            let width = lesser(size.1, x.dims[2]);
            let y = row - (size.0 - height) / 2;
            let z = column - (size.1 - width) / 2;
            copied(
                Expr::Is(x).resize_with_crop_or_pad(size),
                seq![b, row, column, channel],
            ) == if 0 <= y < height && 0 <= z < width {
                origin(
                    x,
                    seq![b, y + (x.dims[1] - height) / 2, z + (x.dims[2] - width) / 2, channel],
                )
            } else {
                zero_element(x.graph)
            }
        }),
{
    lemma_volume_nonnegative(x.dims);
    crop_has_the_smaller_extents(x, size);
    let cropped = Expr::Is(x).center_crop(size);
    let c = cropped->Is_0;
    let height = lesser(size.0, x.dims[1]);
    let width = lesser(size.1, x.dims[2]);
    let padding: Seq<Widths> = seq![
        (0, 0),
        halves(size.0 - height),
        halves(size.1 - width),
        (0, 0),
    ];
    let index = seq![b, row, column, channel];
    let y = row - (size.0 - height) / 2;
    let z = column - (size.1 - width) / 2;
    assert(padded(c.dims, padding) =~= seq![x.dims[0], size.0, size.1, x.dims[3]]);
    zero_padding_surrounds_the_interior(cropped, padding, index);
    let inner = unpadded_index(padding, index);
    assert(inner =~= seq![b, y, z, channel]);
    assert(within(c.dims, inner) <==> 0 <= y < height && 0 <= z < width) by {
        if within(c.dims, inner) {
            assert(0 <= inner[1] < c.dims[1]);
            assert(0 <= inner[2] < c.dims[2]);
        }
    }
    crops_start_at_half_of_what_is_discarded(x, size, b, y, z, channel);
}

/// Mirroring keeps the extents.
pub proof fn flips_keep_the_extents(x: Value)
    ensures
        Expr::Is(x).flip_left_right() matches Expr::Is(y) ==> y.dims == x.dims,
        Expr::Is(x).flip_up_down() matches Expr::Is(y) ==> y.dims == x.dims,
{
    reveal(applied);
}

/// Whether two texts are equal.
pub(crate) fn same_text(a: &str, b: &str) -> (r: bool)
    ensures
        r == (a@ == b@),
{
    let count: usize = a.unicode_len();
    if count != b.unicode_len() {
        return false;
    }
    let mut i: usize = 0;
    while i < count
        invariant
            i <= count == a@.len() == b@.len(),
            forall|k: int| 0 <= k < i ==> a@[k] == b@[k],
        decreases count - i,
    {
        if a.get_char(i) != b.get_char(i) {
            return false;
        }
        i += 1;
    }
    assert(a@ =~= b@);
    true
}

/// The grayscale weights of a luma standard.
fn weights_of(standard: &str) -> (r: Option<Vec<Scalar>>)
    ensures
        match r {
            Some(weights) => luma_weights(standard@) == Some(weights@),
            None => luma_weights(standard@) is None,
        },
{
    let weights: Vec<Scalar> = if same_text(standard, "rec601") {
        vec![Scalar::Bits(0x3e99096c), Scalar::Bits(0x3f1645a2), Scalar::Bits(0x3de978d5)]
    } else if same_text(standard, "rec709") {
        vec![Scalar::Bits(0x3e59b3d0), Scalar::Bits(0x3f371759), Scalar::Bits(0x3d93dd98)]
    } else if same_text(standard, "bt2001") {
        vec![Scalar::Bits(0x3e86809d), Scalar::Bits(0x3f2d9168), Scalar::Bits(0x3d72e48f)]
    } else {
        return None;
    };
    assert(luma_weights(standard@)->Some_0 =~= weights@);
    Some(weights)
}

impl Tensor {
    /// The refusal of anything else than F32 NHWC data.
    fn require_f32_nhwc(&self, operation: &'static str) -> (r: Result<(), Error>)
        requires
            self.wf(),
        ensures
            match r {
                Ok(_) => is_image(self@),
                Err(e) => !is_image(self@) && e == (Error::ImageLayout { operation }),
            },
    {
        if self.dtype() != DType::F32 || self.shape().len() != 4 {
            return Err(Error::ImageLayout { operation });
        }
        Ok(())
    }

    /// Add a finite value, given by its F32 bits, to every pixel without
    /// clipping.
    pub fn adjust_brightness(
        &self,
        graph: &mut Graph,
        delta: u32,
    ) -> (r: Result<Tensor, Error>)
        requires
            old(graph).wf(),
            old(graph).owns(*self),
        ensures
            final(graph).extends(*old(graph)),
            final(graph).yields(r, self.expr().adjust_brightness(delta)),
    {
        self.require_f32_nhwc("adjust_brightness")?;
        if !is_finite(delta) {
            return Err(err("brightness delta must be finite"));
        }
        self.add_scalar(graph, Scalar::Bits(delta))
    }

    /// Scale every channel around its per-image spatial mean, without clipping.
    /// The factor is given by its F32 bits.
    pub fn adjust_contrast(
        &self,
        graph: &mut Graph,
        factor: u32,
    ) -> (r: Result<Tensor, Error>)
        requires
            old(graph).wf(),
            old(graph).owns(*self),
        ensures
            final(graph).extends(*old(graph)),
            final(graph).yields(r, self.expr().adjust_contrast(factor)),
    {
        self.require_f32_nhwc("adjust_contrast")?;
        if !is_finite(factor) {
            return Err(err("contrast factor must be finite"));
        }
        let axes: Vec<usize> = vec![1, 2];
        assert(axes@ =~= seq![1, 2]);
        let mean: Tensor = self.mean(graph, axes.as_slice(), true)?;
        let level: Tensor = mean.broadcast_to(graph, self.shape())?;
        let centered: Tensor = self.sub(graph, &level)?;
        let scaled: Tensor = centered.mul_scalar(graph, Scalar::Bits(factor))?;
        let level: Tensor = mean.broadcast_to(graph, self.shape())?;
        scaled.add(graph, &level)
    }

    /// Mirror images horizontally.
    pub fn flip_left_right(
        &self,
        graph: &mut Graph,
    ) -> (r: Result<Tensor, Error>)
        requires
            old(graph).wf(),
            old(graph).owns(*self),
        ensures
            final(graph).extends(*old(graph)),
            final(graph).keeps_or_records(*old(graph), r),
            final(graph).yields(r, self.expr().flip_left_right()),
    {
        self.require_f32_nhwc("flip_left_right")?;
        let axes: Vec<usize> = vec![2];
        assert(axes@ =~= seq![2]);
        self.flip(graph, axes.as_slice())
    }

    /// Mirror images vertically.
    pub fn flip_up_down(
        &self,
        graph: &mut Graph,
    ) -> (r: Result<Tensor, Error>)
        requires
            old(graph).wf(),
            old(graph).owns(*self),
        ensures
            final(graph).extends(*old(graph)),
            final(graph).keeps_or_records(*old(graph), r),
            final(graph).yields(r, self.expr().flip_up_down()),
    {
        self.require_f32_nhwc("flip_up_down")?;
        let axes: Vec<usize> = vec![1];
        assert(axes@ =~= seq![1]);
        self.flip(graph, axes.as_slice())
    }

    /// Crop height and width around the center. A size larger than the input
    /// leaves that axis whole; where the discarded extent is odd, the bottom and
    /// right lose the extra pixel.
    pub fn center_crop(
        &self,
        graph: &mut Graph,
        size: (i64, i64),
    ) -> (r: Result<Tensor, Error>)
        requires
            old(graph).wf(),
            old(graph).owns(*self),
        ensures
            final(graph).extends(*old(graph)),
            final(graph).records(*old(graph), r),
            final(graph).yields(r, self.expr().center_crop(size)),
    {
        self.require_f32_nhwc("center_crop")?;
        if size.0 <= 0 || size.1 <= 0 {
            return Err(err("center crop size must be positive"));
        }
        let dims: &[i64] = self.shape();
        proof {
            lemma_volume_nonnegative(dims@);
        }
        let height: i64 = dims[1];
        let width: i64 = dims[2];
        let rows: i64 = if size.0 <= height {
            size.0
        } else {
            height
        };
        let columns: i64 = if size.1 <= width {
            size.1
        } else {
            width
        };
        let top: i64 = (height - rows) / 2;
        let left: i64 = (width - columns) / 2;
        let starts: Vec<i64> = vec![0, top, left, 0];
        let limits: Vec<i64> = vec![dims[0], top + rows, left + columns, dims[3]];
        let strides: Vec<i64> = vec![1, 1, 1, 1];
        proof {
            assert(starts@ =~= seq![0, top, left, 0]);
            assert(limits@ =~= seq![dims@[0], (top + rows) as i64, (left + columns) as i64, dims@[3]]);
            assert(strides@ =~= seq![1, 1, 1, 1]);
        }
        self.slice(graph, starts.as_slice(), limits.as_slice(), strides.as_slice())
    }

    /// Crop or zero-pad around the center to an exact positive size. Odd padding
    /// puts the extra pixel on the bottom and right.
    pub fn resize_with_crop_or_pad(
        &self,
        graph: &mut Graph,
        size: (i64, i64),
    ) -> (r: Result<Tensor, Error>)
        requires
            old(graph).wf(),
            old(graph).owns(*self),
        ensures
            final(graph).extends(*old(graph)),
            final(graph).yields(r, self.expr().resize_with_crop_or_pad(size)),
    {
        self.require_f32_nhwc("resize_with_crop_or_pad")?;
        let dims: &[i64] = self.shape();
        let cropped: Tensor = self.center_crop(graph, size)?;
        proof {
            lemma_volume_nonnegative(dims@);
            crop_has_the_smaller_extents(self@, size);
        }
        let vertical: i64 = size.0 - cropped.shape()[1];
        let horizontal: i64 = size.1 - cropped.shape()[2];
        let top: i64 = vertical / 2;
        let left: i64 = horizontal / 2;
        let bottom: i64 = vertical - top;
        let right: i64 = horizontal - left;
        let padding: Vec<Widths> = vec![(0, 0), (top, bottom), (left, right), (0, 0)];
        assert(padding@ =~= seq![
            (0i64, 0i64),
            halves(vertical as int),
            halves(horizontal as int),
            (0i64, 0i64),
        ]);
        cropped.pad(graph, padding.as_slice(), Scalar::Bits(F32_ZERO))
    }

    /// Convert three channels of RGB to one of luma, by the standard "rec601",
    /// "rec709" or "bt2001".
    pub fn rgb_to_grayscale(
        &self,
        graph: &mut Graph,
        luma_standard: &str,
    ) -> (r: Result<Tensor, Error>)
        requires
            old(graph).wf(),
            old(graph).owns(*self),
        ensures
            final(graph).extends(*old(graph)),
            final(graph).yields(r, self.expr().rgb_to_grayscale(luma_standard@)),
    {
        self.require_f32_nhwc("rgb_to_grayscale")?;
        if self.shape()[3] != 3 {
            return Err(err("rgb_to_grayscale requires exactly three channels"));
        }
        let weights: Vec<Scalar> = match weights_of(luma_standard) {
            Some(weights) => weights,
            None => {
                return Err(err("unsupported grayscale luma standard"));
            },
        };
        let unit: Vec<i64> = vec![1, 1, 1, 3];
        let target: Vec<i64> = vec![self.shape()[0], self.shape()[1], self.shape()[2], 3];
        proof {
            assert(unit@ =~= seq![1, 1, 1, 3]);
            assert(target@ =~= seq![self@.dims[0], self@.dims[1], self@.dims[2], 3]);
        }
        proof {
            reveal(Expr::reduce);
        }
        let weights: Tensor = graph.constant(unit.as_slice(), weights.as_slice())?;
        let weights: Tensor = weights.broadcast_to(graph, target.as_slice())?;
        let axes: Vec<usize> = vec![3];
        assert(axes@ =~= seq![3]);
        self.mul(graph, &weights)?.sum(graph, axes.as_slice(), true)
    }

    /// Invert values greater than or equal to a threshold, given by its F32
    /// bits, and leave lower values unchanged.
    pub fn solarize(
        &self,
        graph: &mut Graph,
        threshold: u32,
    ) -> (r: Result<Tensor, Error>)
        requires
            old(graph).wf(),
            old(graph).owns(*self),
        ensures
            final(graph).extends(*old(graph)),
            final(graph).yields(r, self.expr().solarize(threshold)),
    {
        self.require_f32_nhwc("solarize")?;
        if !is_finite(threshold) {
            return Err(err("solarize threshold must be finite"));
        }
        let level: Tensor = graph.scalar(Scalar::Bits(threshold))?;
        let level: Tensor = level.broadcast_to(graph, self.shape())?;
        let mask: Tensor = self.lt_mask(graph, &level)?;
        let inverted: Tensor = self.neg(graph)?.add_scalar(graph, Scalar::Bits(F32_ONE))?;
        mask.select(graph, self, &inverted)
    }
}

} // verus!
