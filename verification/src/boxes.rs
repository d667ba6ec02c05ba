//! Continuous box geometry on `[..., 4]` coordinates.
use crate::dtype::DType;
use crate::error::{err, invalid, Error};
use crate::graph::{applied, types_of, values_of, Expr, Graph, Tensor, Value};
use crate::indexing::{collect, four, lemma_collect_len, lemma_collect_ok, stacked_all, unbound};
use crate::listing::{listed, listing};
use crate::matmul::{
    aligned, broadcast_extents, broadcast_shape, broadcastable, joint_rank, lemma_broadcast_dims,
};
use crate::op::{Scalar, F32_HALF, F32_ONE, F32_ZERO};
use crate::shape::{elements, span, volume};
use vstd::prelude::*;

verus! {

/// The coordinate tensors of boxes whose last extent is four.
pub open spec fn coordinates(x: Value) -> Result<Seq<Value>, Error> {
    if x.dims.len() == 0 || x.dims.last() != 4 {
        Err(invalid("boxes require a final dimension of four coordinates"))
    } else {
        unbound(x, (x.dims.len() - 1) as usize)
    }
}

/// One coordinate of boxes.
pub open spec fn coordinate(x: Expr, index: int) -> Expr {
    match x {
        Expr::Fails(e) => Expr::Fails(e),
        Expr::Is(v) => match coordinates(v) {
            Err(e) => Expr::Fails(e),
            Ok(c) => Expr::Is(c[index]),
        },
    }
}

/// Whether the last extent is four.
pub open spec fn is_boxes(dims: Seq<i64>) -> bool {
    dims.len() > 0 && dims.last() == 4
}

/// The first reason why two shapes are not those of boxes to compare.
pub open spec fn boxes_error(x: Seq<i64>, y: Seq<i64>) -> Option<Error> {
    if !is_boxes(x) || !is_boxes(y) {
        Some(invalid("boxes require a final dimension of four xyxy coordinates"))
    } else if !broadcastable(x, y) {
        Some(invalid("incompatible box batch dimensions"))
    } else {
        None
    }
}

/// The first reason why two shapes are not those of lists of boxes.
pub open spec fn pairs_error(x: Seq<i64>, y: Seq<i64>) -> Option<Error> {
    if x.len() < 2 || y.len() < 2 {
        Some(invalid("pairwise_box_iou requires rank >= 2"))
    } else if !is_boxes(x) || !is_boxes(y) {
        Some(invalid("boxes require a final dimension of four xyxy coordinates"))
    } else {
        None
    }
}

impl Expr {
    /// Centers and sizes to corners.
    pub open spec fn box_cxcywh_to_xyxy(self) -> Expr {
        match self {
            Expr::Fails(e) => Expr::Fails(e),
            Expr::Is(x) => {
                let c0 = coordinate(self, 0);
                let c1 = coordinate(self, 1);
                let half_width = coordinate(self, 2).mul_scalar(Scalar::Bits(F32_HALF));
                let half_height = coordinate(self, 3).mul_scalar(Scalar::Bits(F32_HALF)).given(
                    half_width,
                );
                stacked_all(
                    four(
                        c0.sub(half_width).given(half_height),
                        c1.sub(half_height),
                        c0.add(half_width),
                        c1.add(half_height),
                    ),
                    (x.dims.len() - 1) as usize,
                )
            },
        }
    }

    /// Corners to centers and sizes.
    pub open spec fn box_xyxy_to_cxcywh(self) -> Expr {
        match self {
            Expr::Fails(e) => Expr::Fails(e),
            Expr::Is(x) => {
                let c0 = coordinate(self, 0);
                let c1 = coordinate(self, 1);
                let c2 = coordinate(self, 2);
                let c3 = coordinate(self, 3);
                let half = Scalar::Bits(F32_HALF);
                stacked_all(
                    four(
                        c0.mul_scalar(half).add(c2.mul_scalar(half)),
                        c1.mul_scalar(half).add(c3.mul_scalar(half)),
                        c2.sub(c0),
                        c3.sub(c1),
                    ),
                    (x.dims.len() - 1) as usize,
                )
            },
        }
    }

    /// The area of corner boxes, sizes clamped at zero.
    #[verifier::opaque]
    pub open spec fn box_area(self) -> Expr {
        coordinate(self, 2).sub(coordinate(self, 0)).relu().mul(
            coordinate(self, 3).sub(coordinate(self, 1)).relu(),
        )
    }

    /// Boxes of both operands under one broadcast shape.
    pub open spec fn box_overlap(self, other: Expr, generalized: bool) -> Expr {
        match (self, other) {
            (Expr::Fails(e), _) => Expr::Fails(e),
            (_, Expr::Fails(e)) => Expr::Fails(e),
            (Expr::Is(x), Expr::Is(y)) => match boxes_error(x.dims, y.dims) {
                Some(e) => Expr::Fails(e),
                None => {
                    let shape = broadcast_shape(x.dims, y.dims);
                    let a = self.broadcast_to(shape);
                    let b = other.broadcast_to(shape);
                    a.overlap_of(b.given(a), generalized)
                },
            },
        }
    }

    /// The part of both boxes, or the hull of both, along both axes.
    #[verifier::opaque]
    pub open spec fn box_span(self, other: Expr, hull: bool) -> Expr {
        let (a0, a1) = (coordinate(self, 0), coordinate(self, 1));
        let (a2, a3) = (coordinate(self, 2), coordinate(self, 3));
        let (b0, b1) = (coordinate(other, 0), coordinate(other, 1));
        let (b2, b3) = (coordinate(other, 2), coordinate(other, 3));
        let width = if hull {
            a2.maximum(b2).sub(a0.minimum(b0)).relu()
        } else {
            a2.minimum(b2).sub(a0.maximum(b0)).relu()
        };
        let height = if hull {
            a3.maximum(b3).sub(a1.minimum(b1)).relu()
        } else {
            a3.minimum(b3).sub(a1.maximum(b1)).relu()
        };
        width.mul(height)
    }

    /// Where a value is positive.
    #[verifier::opaque]
    pub open spec fn positive_mask(self) -> Expr {
        self.gt_mask(self.filled(Scalar::Bits(F32_ZERO)))
    }

    /// Intersection over union of equally shaped boxes, less the enclosure
    /// penalty where generalized.
    #[verifier::opaque]
    pub open spec fn overlap_of(self, other: Expr, generalized: bool) -> Expr {
        let area_a = self.box_area().given(other);
        let area_b = other.box_area().given(area_a);
        let intersection = self.box_span(other, false).given(area_b);
        let union = area_a.add(area_b).sub(intersection).given(intersection);
        let one = union.filled(Scalar::Bits(F32_ONE)).given(union);
        let iou = intersection.share_of(union, one);
        if generalized {
            let enclosure = self.box_span(other, true).given(iou);
            iou.less_enclosure(union, one, enclosure)
        } else {
            iou
        }
    }

    /// A part over a whole, or over one where the whole is not positive.
    #[verifier::opaque]
    pub open spec fn share_of(self, whole: Expr, one: Expr) -> Expr {
        let positive = whole.positive_mask().given(one);
        self.div(positive.select(whole, one))
    }

    /// Intersection over union less the part of the enclosure outside the
    /// union.
    #[verifier::opaque]
    pub open spec fn less_enclosure(self, union: Expr, one: Expr, enclosure: Expr) -> Expr {
        let nonempty = enclosure.positive_mask().given(enclosure);
        self.sub(enclosure.sub(union).given(nonempty).div(nonempty.select(enclosure, one)))
    }

    /// Elementwise intersection over union.
    pub open spec fn box_iou(self, other: Expr) -> Expr {
        self.box_overlap(other, false)
    }

    /// Elementwise generalized intersection over union.
    pub open spec fn box_giou(self, other: Expr) -> Expr {
        self.box_overlap(other, true)
    }

    /// Intersection over union of every pair of boxes.
    pub open spec fn pairwise_box_iou(self, other: Expr) -> Expr {
        match (self, other) {
            (Expr::Fails(e), _) => Expr::Fails(e),
            (_, Expr::Fails(e)) => Expr::Fails(e),
            (Expr::Is(x), Expr::Is(y)) => match pairs_error(x.dims, y.dims) {
                Some(e) => Expr::Fails(e),
                None => {
                    let a = self.unsqueeze((x.dims.len() - 1) as usize);
                    let b = other.unsqueeze((y.dims.len() - 2) as usize).given(a);
                    a.box_iou(b)
                },
            },
        }
    }
}

/// The parts of a list that was collected.
proof fn lemma_collect_all(parts: Seq<Expr>)
    requires
        collect(parts) is Ok,
    ensures
        forall|i: int| 0 <= i < parts.len() ==> #[trigger] parts[i] == Expr::Is(collect(parts)->Ok_0[i]),
    decreases parts.len(),
{
    lemma_collect_len(parts);
    if parts.len() > 0 {
        lemma_collect_all(parts.drop_last());
        lemma_collect_len(parts.drop_last());
        assert forall|i: int| 0 <= i < parts.len() implies #[trigger] parts[i] == Expr::Is(
            collect(parts)->Ok_0[i],
        ) by {
            if i < parts.len() - 1 {
                assert(parts.drop_last()[i] == parts[i]);
            }
        }
    }
}

/// Boxes of equal extents have coordinates together.
proof fn lemma_coordinates_alike(x: Value, y: Value)
    requires
        x.dims == y.dims,
        x.dims.len() <= usize::MAX,
        coordinates(x) is Ok,
    ensures
        coordinates(y) is Ok,
        forall|i: int|
            0 <= i < 4 ==> (#[trigger] coordinates(y)->Ok_0[i]).graph == y.graph && coordinates(
                y,
            )->Ok_0[i].dims == coordinates(x)->Ok_0[i].dims && coordinates(y)->Ok_0[i].dtype
                == y.dtype && coordinates(x)->Ok_0[i].dtype == x.dtype && coordinates(
                x,
            )->Ok_0[i].graph == x.graph,
{
    let axis = (x.dims.len() - 1) as usize;
    let f = |i: int| Expr::Is(x).narrow(axis, i as i64, 1).reshape(x.dims.remove(axis as int));
    let g = |i: int| Expr::Is(y).narrow(axis, i as i64, 1).reshape(y.dims.remove(axis as int));
    let a = Seq::new(x.dims[axis as int] as nat, f);
    let b = Seq::new(y.dims[axis as int] as nat, g);
    lemma_collect_all(a);
    assert forall|i: int| 0 <= i < 4 implies {
        &&& #[trigger] b[i] is Is
        &&& a[i] is Is
        &&& b[i]->Is_0.graph == y.graph
        &&& b[i]->Is_0.dtype == y.dtype
        &&& a[i]->Is_0.graph == x.graph
        &&& a[i]->Is_0.dtype == x.dtype
        &&& a[i]->Is_0.dims == b[i]->Is_0.dims
    } by {
        reveal(Expr::narrow);
        reveal(applied);
        assert(a[i] == f(i));
        assert(b[i] == g(i));
    }
    lemma_collect_ok(b, Seq::new(b.len(), |i: int| b[i]->Is_0));
}

/// The area of boxes whose extents are those of boxes with an area.
proof fn lemma_area_alike(x: Value, y: Value)
    requires
        x.dims == y.dims,
        x.dims.len() <= usize::MAX,
        Expr::Is(x).box_area() is Is,
    ensures
        coordinates(y) is Ok,
        Expr::Is(y).box_area() == (if y.dtype == DType::F32 {
            Expr::Is(y).box_area()
        } else {
            Expr::Fails(
                if y.dtype == DType::BF16 {
                    Error::UnsupportedOperandTypes {
                        operation: "Binary",
                        types: listing(seq![y.dtype, y.dtype]),
                    }
                } else {
                    Error::UnsupportedOperandTypes {
                        operation: "Relu",
                        types: listing(seq![y.dtype]),
                    }
                },
            )
        }),
        y.dtype == DType::F32 ==> Expr::Is(y).box_area() is Is,
        forall|i: int|
            0 <= i < 4 ==> (#[trigger] coordinate(Expr::Is(y), i)) is Is && coordinate(
                Expr::Is(y),
                i,
            )->Is_0.graph == y.graph,
        coordinate(Expr::Is(x), 2) is Is,
        coordinate(Expr::Is(x), 2)->Is_0.graph == x.graph,
{
    reveal(Expr::box_area);
    lemma_coordinates_alike(x, y);
    reveal(applied);
    let c = coordinates(y)->Ok_0;
    let d = coordinates(x)->Ok_0;
    assert(c[0].graph == y.graph && c[1].graph == y.graph && c[2].graph == y.graph && c[3].graph
        == y.graph);
    assert(types_of(seq![c[2], c[0]]) =~= seq![y.dtype, y.dtype]);
    assert(types_of(seq![c[3], c[1]]) =~= seq![y.dtype, y.dtype]);
    assert(types_of(seq![d[2], d[0]]) =~= seq![x.dtype, x.dtype]);
    assert(types_of(seq![d[3], d[1]]) =~= seq![x.dtype, x.dtype]);
    let w = Expr::Is(c[2]).sub(Expr::Is(c[0]));
    let h = Expr::Is(c[3]).sub(Expr::Is(c[1]));
    if y.dtype != DType::BF16 {
        assert(w is Is && w->Is_0.dtype == y.dtype);
        assert(h is Is && h->Is_0.dtype == y.dtype);
        assert(types_of(seq![w->Is_0]) =~= seq![y.dtype]);
        assert(types_of(seq![h->Is_0]) =~= seq![y.dtype]);
    }
    let u = Expr::Is(d[2]).sub(Expr::Is(d[0]));
    assert(types_of(seq![u->Is_0]) =~= seq![x.dtype]);
    if y.dtype == DType::F32 {
        assert(w.relu() is Is && h.relu() is Is);
        let v = Expr::Is(d[3]).sub(Expr::Is(d[1]));
        assert(types_of(seq![w.relu()->Is_0, h.relu()->Is_0]) =~= seq![DType::F32, DType::F32]);
    } else {
        assert(seq![y.dtype][0] != DType::F32);
    }
}

/// Boxes of two graphs whose areas exist have no common span.
proof fn lemma_span_foreign(x: Expr, y: Expr)
    requires
        coordinate(x, 2) is Is,
        coordinate(y, 2) is Is,
        coordinate(x, 2)->Is_0.graph != coordinate(y, 2)->Is_0.graph,
    ensures
        x.box_span(y, false) == Expr::invalid("cross-graph operands"),
{
    reveal(Expr::box_span);
}

/// A shape broadcasts to the joint shape where that has a size.
proof fn lemma_joint_broadcast(a: Seq<i64>, y: Value)
    requires
        broadcastable(a, y.dims),
        volume(broadcast_shape(a, y.dims)) is Some,
        broadcast_shape(a, y.dims).len() <= usize::MAX,
    ensures
        Expr::Is(y).broadcast_to(broadcast_shape(a, y.dims)) is Is,
{
    let shape = broadcast_shape(a, y.dims);
    let offset = (shape.len() - y.dims.len()) as nat;
    let axes = span(offset, shape.len());
    assert forall|i: int| 0 <= i < axes.len() - 1 implies #[trigger] axes[i] < axes[i + 1] by {}
    assert forall|i: int| 0 <= i < axes.len() implies (#[trigger] axes[i]) < shape.len() && (
    y.dims[i] == 1 || y.dims[i] == shape[axes[i] as int]) by {
        assert(aligned(a, joint_rank(a, y.dims), offset + i) == 1 || aligned(
            y.dims,
            joint_rank(a, y.dims),
            offset + i,
        ) == 1 || aligned(a, joint_rank(a, y.dims), offset + i) == aligned(
            y.dims,
            joint_rank(a, y.dims),
            offset + i,
        ));
    }
    reveal(applied);
}

/// An area exists only where the coordinates do.
proof fn lemma_area_has_coordinates(x: Value, area: Value)
    requires
        Expr::Is(x).box_area() == Expr::Is(area),
    ensures
        coordinates(x) is Ok,
{
    reveal(Expr::box_area);
}

/// The overlap fails with the first operand that fails.
proof fn lemma_overlap_strict(a: Expr, b: Expr, generalized: bool)
    ensures
        a is Fails ==> a.overlap_of(b.given(a), generalized) == a,
        a is Is && b is Fails ==> a.overlap_of(b.given(a), generalized) == b,
{
    reveal(Expr::overlap_of);
    reveal(Expr::share_of);
    reveal(Expr::less_enclosure);
    reveal(Expr::box_area);
    reveal(Expr::filled);
}

/// A share fails with its part, and the enclosure term with its first operand.
broadcast proof fn lemma_share_strict(part: Expr, whole: Expr, one: Expr)
    requires
        part is Fails,
    ensures
        #[trigger] part.share_of(whole, one) == part,
{
    reveal(Expr::share_of);
}

/// A share fails with the whole's replacement where that fails.
broadcast proof fn lemma_share_one(part: Value, whole: Expr, one: Expr)
    requires
        one is Fails,
    ensures
        #[trigger] Expr::Is(part).share_of(whole, one) == one,
{
    reveal(Expr::share_of);
}

/// The enclosure term fails with its minuend.
broadcast proof fn lemma_less_strict(iou: Expr, union: Expr, one: Expr, enclosure: Expr)
    requires
        iou is Fails,
    ensures
        #[trigger] iou.less_enclosure(union, one, enclosure) == iou,
{
    reveal(Expr::less_enclosure);
}

/// The enclosure term fails with the enclosure.
broadcast proof fn lemma_less_enclosure(iou: Value, union: Expr, one: Expr, enclosure: Expr)
    requires
        enclosure is Fails,
    ensures
        #[trigger] Expr::Is(iou).less_enclosure(union, one, enclosure) == enclosure,
{
    reveal(Expr::less_enclosure);
}

broadcast group group_overlap {
    lemma_share_strict,
    lemma_share_one,
    lemma_less_strict,
    lemma_less_enclosure,
}

impl Tensor {
    /// The four coordinate tensors of boxes.
    fn coordinates(&self, graph: &mut Graph) -> (r: Result<(Tensor, Tensor, Tensor, Tensor), Error>)
        requires
            old(graph).wf(),
            old(graph).owns(*self),
        ensures
            final(graph).extends(*old(graph)),
            match r {
                Ok((c0, c1, c2, c3)) => {
                    &&& final(graph).owns(c0)
                    &&& final(graph).owns(c1)
                    &&& final(graph).owns(c2)
                    &&& final(graph).owns(c3)
                    &&& coordinate(self.expr(), 0) == c0.expr()
                    &&& coordinate(self.expr(), 1) == c1.expr()
                    &&& coordinate(self.expr(), 2) == c2.expr()
                    &&& coordinate(self.expr(), 3) == c3.expr()
                },
                Err(e) => coordinates(self@) == Err::<Seq<Value>, Error>(e),
            },
    {
        let rank: usize = self.shape().len();
        if rank == 0 || self.shape()[rank - 1] != 4 {
            return Err(err("boxes require a final dimension of four coordinates"));
        }
        let parts: Vec<Tensor> = self.unbind(graph, rank - 1)?;
        proof {
            crate::indexing::lemma_collect_len(
                Seq::new(
                    self@.dims[rank - 1] as nat,
                    |i: int|
                        Expr::Is(self@).narrow((rank - 1) as usize, i as i64, 1).reshape(
                            self@.dims.remove(rank - 1),
                        ),
                ),
            );
            assert(values_of(parts@).len() == 4);
            assert(graph.owns(parts@[0]) && graph.owns(parts@[1]) && graph.owns(parts@[2])
                && graph.owns(parts@[3]));
        }
        Ok((parts[0].copy(), parts[1].copy(), parts[2].copy(), parts[3].copy()))
    }

    /// Convert `[..., 4]` (center x, center y, width, height) to corners.
    /// Signed sizes are not clamped.
    #[verifier::rlimit(30)]
    pub fn box_cxcywh_to_xyxy(
        &self,
        graph: &mut Graph,
    ) -> (r: Result<Tensor, Error>)
        requires
            old(graph).wf(),
            old(graph).owns(*self),
        ensures
            final(graph).extends(*old(graph)),
            final(graph).yields(r, self.expr().box_cxcywh_to_xyxy()),
    {
        proof {
            reveal(Expr::mul_scalar);
        }
        let (c0, c1, c2, c3): (Tensor, Tensor, Tensor, Tensor) = self.coordinates(graph)?;
        let half_width: Tensor = c2.mul_scalar(graph, Scalar::Bits(F32_HALF))?;
        let half_height: Tensor = c3.mul_scalar(graph, Scalar::Bits(F32_HALF))?;
        let left: Tensor = c0.sub(graph, &half_width)?;
        let top: Tensor = c1.sub(graph, &half_height)?;
        let right: Tensor = c0.add(graph, &half_width)?;
        let bottom: Tensor = c1.add(graph, &half_height)?;
        let axis: usize = self.shape().len() - 1;
        let parts: Vec<Tensor> = vec![left, top, right, bottom];
        assert(values_of(parts@) =~= seq![left@, top@, right@, bottom@]);
        Tensor::stack(graph, parts.as_slice(), axis)
    }

    /// Convert `[..., 4]` corners to (center x, center y, width, height).
    #[verifier::rlimit(30)]
    pub fn box_xyxy_to_cxcywh(
        &self,
        graph: &mut Graph,
    ) -> (r: Result<Tensor, Error>)
        requires
            old(graph).wf(),
            old(graph).owns(*self),
        ensures
            final(graph).extends(*old(graph)),
            final(graph).yields(r, self.expr().box_xyxy_to_cxcywh()),
    {
        proof {
            reveal(Expr::mul_scalar);
        }
        let (c0, c1, c2, c3): (Tensor, Tensor, Tensor, Tensor) = self.coordinates(graph)?;
        let half: Scalar = Scalar::Bits(F32_HALF);
        let left: Tensor = c0.mul_scalar(graph, half)?;
        let right: Tensor = c2.mul_scalar(graph, half)?;
        let x: Tensor = left.add(graph, &right)?;
        let top: Tensor = c1.mul_scalar(graph, half)?;
        let bottom: Tensor = c3.mul_scalar(graph, half)?;
        let y: Tensor = top.add(graph, &bottom)?;
        let width: Tensor = c2.sub(graph, &c0)?;
        let height: Tensor = c3.sub(graph, &c1)?;
        let axis: usize = self.shape().len() - 1;
        let parts: Vec<Tensor> = vec![x, y, width, height];
        assert(values_of(parts@) =~= seq![x@, y@, width@, height@]);
        Tensor::stack(graph, parts.as_slice(), axis)
    }

    /// Continuous area of corner boxes shaped `[..., 4]`. Width and height are
    /// clamped at zero.
    pub fn box_area(
        &self,
        graph: &mut Graph,
    ) -> (r: Result<Tensor, Error>)
        requires
            old(graph).wf(),
            old(graph).owns(*self),
        ensures
            final(graph).extends(*old(graph)),
            final(graph).yields(r, self.expr().box_area()),
    {
        proof {
            reveal(Expr::box_area);
        }
        let (c0, c1, c2, c3): (Tensor, Tensor, Tensor, Tensor) = self.coordinates(graph)?;
        let width: Tensor = c2.sub(graph, &c0)?.relu(graph)?;
        let height: Tensor = c3.sub(graph, &c1)?.relu(graph)?;
        width.mul(graph, &height)
    }

    /// The part of both boxes, or the hull of both, along both axes.
    fn box_span(
        graph: &mut Graph,
        a: &(Tensor, Tensor, Tensor, Tensor),
        b: &(Tensor, Tensor, Tensor, Tensor),
        hull: bool,
        Ghost(x): Ghost<Expr>,
        Ghost(y): Ghost<Expr>,
    ) -> (r: Result<Tensor, Error>)
        requires
            old(graph).wf(),
            old(graph).owns(a.0),
            old(graph).owns(a.1),
            old(graph).owns(a.2),
            old(graph).owns(a.3),
            old(graph).owns(b.0),
            old(graph).owns(b.1),
            old(graph).owns(b.2),
            old(graph).owns(b.3),
            coordinate(x, 0) == a.0.expr(),
            coordinate(x, 1) == a.1.expr(),
            coordinate(x, 2) == a.2.expr(),
            coordinate(x, 3) == a.3.expr(),
            coordinate(y, 0) == b.0.expr(),
            coordinate(y, 1) == b.1.expr(),
            coordinate(y, 2) == b.2.expr(),
            coordinate(y, 3) == b.3.expr(),
        ensures
            final(graph).extends(*old(graph)),
            final(graph).yields(r, x.box_span(y, hull)),
    {
        proof {
            reveal(Expr::box_span);
        }
        let width: Tensor = if hull {
            let far: Tensor = a.2.maximum(graph, &b.2)?;
            let near: Tensor = a.0.minimum(graph, &b.0)?;
            far.sub(graph, &near)?.relu(graph)?
        } else {
            let far: Tensor = a.2.minimum(graph, &b.2)?;
            let near: Tensor = a.0.maximum(graph, &b.0)?;
            far.sub(graph, &near)?.relu(graph)?
        };
        let height: Tensor = if hull {
            let far: Tensor = a.3.maximum(graph, &b.3)?;
            let near: Tensor = a.1.minimum(graph, &b.1)?;
            far.sub(graph, &near)?.relu(graph)?
        } else {
            let far: Tensor = a.3.minimum(graph, &b.3)?;
            let near: Tensor = a.1.maximum(graph, &b.1)?;
            far.sub(graph, &near)?.relu(graph)?
        };
        width.mul(graph, &height)
    }

    /// Where a value is positive.
    fn positive_mask(
        &self,
        graph: &mut Graph,
    ) -> (r: Result<Tensor, Error>)
        requires
            old(graph).wf(),
            old(graph).owns(*self),
        ensures
            final(graph).extends(*old(graph)),
            final(graph).yields(r, self.expr().positive_mask()),
    {
        proof {
            reveal(Expr::positive_mask);
        }
        let zero: Tensor = self.filled(graph, Scalar::Bits(F32_ZERO))?;
        self.gt_mask(graph, &zero)
    }

    /// A part over a whole, or over one where the whole is not positive.
    fn share_of(
        &self,
        graph: &mut Graph,
        whole: &Tensor,
        one: &Tensor,
    ) -> (r: Result<Tensor, Error>)
        requires
            old(graph).wf(),
            old(graph).owns(*self),
            old(graph).owns(*whole),
            old(graph).owns(*one),
        ensures
            final(graph).extends(*old(graph)),
            final(graph).yields(r, self.expr().share_of(whole.expr(), one.expr())),
    {
        proof {
            reveal(Expr::share_of);
        }
        let positive: Tensor = whole.positive_mask(graph)?;
        let divisor: Tensor = positive.select(graph, whole, one)?;
        self.div(graph, &divisor)
    }

    /// Overlap of equally shaped boxes.
    #[verifier::rlimit(60)]
    fn overlap_of(
        &self,
        graph: &mut Graph,
        other: &Tensor,
        generalized: bool,
    ) -> (r: Result<Tensor, Error>)
        requires
            old(graph).wf(),
            old(graph).owns(*self),
            old(graph).owns(*other),
        ensures
            final(graph).extends(*old(graph)),
            final(graph).yields(r, self.expr().overlap_of(other.expr(), generalized)),
    {
        proof {
            reveal(Expr::overlap_of);
            broadcast use group_overlap;
        }
        let area_a: Tensor = self.box_area(graph)?;
        let area_b: Tensor = other.box_area(graph)?;
        proof {
            lemma_area_has_coordinates(self@, area_a@);
            lemma_area_has_coordinates(other@, area_b@);
        }
        let a: (Tensor, Tensor, Tensor, Tensor) = self.coordinates(graph)?;
        let b: (Tensor, Tensor, Tensor, Tensor) = other.coordinates(graph)?;
        let intersection: Tensor = Tensor::box_span(
            graph,
            &a,
            &b,
            false,
            Ghost(self.expr()),
            Ghost(other.expr()),
        )?;
        let union: Tensor = area_a.add(graph, &area_b)?.sub(graph, &intersection)?;
        let one: Tensor = union.filled(graph, Scalar::Bits(F32_ONE))?;
        let iou: Tensor = intersection.share_of(graph, &union, &one)?;
        if !generalized {
            return Ok(iou);
        }
        let enclosure: Tensor = Tensor::box_span(
            graph,
            &a,
            &b,
            true,
            Ghost(self.expr()),
            Ghost(other.expr()),
        )?;
        iou.less_enclosure(graph, &union, &one, &enclosure)
    }

    /// Intersection over union less the part of the enclosure outside the union.
    fn less_enclosure(
        &self,
        graph: &mut Graph,
        union: &Tensor,
        one: &Tensor,
        enclosure: &Tensor,
    ) -> (r: Result<Tensor, Error>)
        requires
            old(graph).wf(),
            old(graph).owns(*self),
            old(graph).owns(*union),
            old(graph).owns(*one),
            old(graph).owns(*enclosure),
        ensures
            final(graph).extends(*old(graph)),
            final(graph).yields(r, self.expr().less_enclosure(union.expr(), one.expr(), enclosure.expr())),
    {
        proof {
            reveal(Expr::less_enclosure);
        }
        let nonempty: Tensor = enclosure.positive_mask(graph)?;
        let gap: Tensor = enclosure.sub(graph, union)?;
        let scale: Tensor = nonempty.select(graph, enclosure, one)?;
        let penalty: Tensor = gap.div(graph, &scale)?;
        self.sub(graph, &penalty)
    }

    /// The refusal of boxes that belong to another graph.
    fn refuse_foreign(
        &self,
        graph: &mut Graph,
        dims: &[i64],
        dtype: DType,
        generalized: bool,
        Ghost(other): Ghost<Value>,
    ) -> (r: Error)
        requires
            old(graph).wf(),
            old(graph).owns(*self),
            other.graph != old(graph).key(),
            other.dims == dims@,
            other.dtype == dtype,
            volume(dims@) is Some,
        ensures
            final(graph).extends(*old(graph)),
            self.expr().box_overlap(Expr::Is(other), generalized) == Expr::Fails(r),
    {
        let rank: usize = self.shape().len();
        if rank == 0 || self.shape()[rank - 1] != 4 || dims.len() == 0 || dims[dims.len() - 1]
            != 4 {
            return err("boxes require a final dimension of four xyxy coordinates");
        }
        let shape: Vec<i64> = match broadcast_extents(self.shape(), dims) {
            Some(shape) => shape,
            None => {
                return err("incompatible box batch dimensions");
            },
        };
        let ghost b = Expr::Is(other).broadcast_to(shape@);
        proof {
            lemma_overlap_strict(self.expr().broadcast_to(shape@), b, generalized);
        }
        let a: Tensor = match self.broadcast_to(graph, shape.as_slice()) {
            Ok(a) => a,
            Err(e) => {
                return e;
            },
        };
        proof {
            lemma_broadcast_dims(self@, a@, shape@);
            lemma_joint_broadcast(self@.dims, other);
            lemma_broadcast_dims(other, b->Is_0, shape@);
            reveal(Expr::overlap_of);
        }
        match a.box_area(graph) {
            Ok(area) => {
                proof {
                    lemma_area_alike(a@, b->Is_0);
                    lemma_span_foreign(a.expr(), b);
                    broadcast use group_overlap;
                }
            },
            Err(e) => {
                proof {
                    broadcast use group_overlap;
                }
                return e;
            },
        }
        if dtype == DType::BF16 {
            let types: [DType; 2] = [dtype, dtype];
            assert(types@ =~= seq![dtype, dtype]);
            return Error::UnsupportedOperandTypes { operation: "Binary", types: listed(&types) };
        }
        if dtype != DType::F32 {
            let types: [DType; 1] = [dtype];
            assert(types@ =~= seq![dtype]);
            return Error::UnsupportedOperandTypes { operation: "Relu", types: listed(&types) };
        }
        err("cross-graph operands")
    }

    /// Overlap of broadcast-compatible boxes.
    fn box_overlap(
        &self,
        graph: &mut Graph,
        other: &Tensor,
        generalized: bool,
    ) -> (r: Result<Tensor, Error>)
        requires
            old(graph).wf(),
            old(graph).owns(*self),
            old(graph).admits(*other),
        ensures
            final(graph).extends(*old(graph)),
            final(graph).yields(r, self.expr().box_overlap(other.expr(), generalized)),
            boxes_error(self@.dims, other@.dims) is Some ==> *final(graph) == *old(graph),
    {
        let rank: usize = self.shape().len();
        let other_rank: usize = other.shape().len();
        if rank == 0 || self.shape()[rank - 1] != 4 || other_rank == 0 || other.shape()[other_rank
            - 1] != 4 {
            return Err(err("boxes require a final dimension of four xyxy coordinates"));
        }
        let shape: Vec<i64> = match broadcast_extents(self.shape(), other.shape()) {
            Some(shape) => shape,
            None => {
                return Err(err("incompatible box batch dimensions"));
            },
        };
        if !self.same_graph(other) {
            return Err(
                self.refuse_foreign(graph, other.shape(), other.dtype(), generalized, Ghost(other@)),
            );
        }
        proof {
            lemma_overlap_strict(self.expr().broadcast_to(shape@), other.expr().broadcast_to(shape@), generalized);
        }
        let a: Tensor = self.broadcast_to(graph, shape.as_slice())?;
        let b: Tensor = other.broadcast_to(graph, shape.as_slice())?;
        a.overlap_of(graph, &b, generalized)
    }

    /// Elementwise intersection over union of broadcast-compatible corner boxes.
    /// A zero union gives zero.
    pub fn box_iou(
        &self,
        graph: &mut Graph,
        other: &Tensor,
    ) -> (r: Result<Tensor, Error>)
        requires
            old(graph).wf(),
            old(graph).owns(*self),
            old(graph).admits(*other),
        ensures
            final(graph).extends(*old(graph)),
            final(graph).yields(r, self.expr().box_iou(other.expr())),
            boxes_error(self@.dims, other@.dims) is Some ==> *final(graph) == *old(graph),
    {
        self.box_overlap(graph, other, false)
    }

    /// Elementwise generalized intersection over union: the ordinary one less
    /// `(enclosure - union) / enclosure`.
    pub fn box_giou(
        &self,
        graph: &mut Graph,
        other: &Tensor,
    ) -> (r: Result<Tensor, Error>)
        requires
            old(graph).wf(),
            old(graph).owns(*self),
            old(graph).admits(*other),
        ensures
            final(graph).extends(*old(graph)),
            final(graph).yields(r, self.expr().box_giou(other.expr())),
            boxes_error(self@.dims, other@.dims) is Some ==> *final(graph) == *old(graph),
    {
        self.box_overlap(graph, other, true)
    }

    /// Intersection over union of every pair: `[..., N, 4]` and `[..., M, 4]`
    /// give the broadcast batch followed by `[N, M]`.
    pub fn pairwise_box_iou(
        &self,
        graph: &mut Graph,
        other: &Tensor,
    ) -> (r: Result<Tensor, Error>)
        requires
            old(graph).wf(),
            old(graph).owns(*self),
            old(graph).admits(*other),
        ensures
            final(graph).extends(*old(graph)),
            final(graph).yields(r, self.expr().pairwise_box_iou(other.expr())),
            pairs_error(self@.dims, other@.dims) is Some ==> *final(graph) == *old(graph),
    {
        let rank: usize = self.shape().len();
        let other_rank: usize = other.shape().len();
        if rank < 2 || other_rank < 2 {
            return Err(err("pairwise_box_iou requires rank >= 2"));
        }
        if self.shape()[rank - 1] != 4 || other.shape()[other_rank - 1] != 4 {
            return Err(err("boxes require a final dimension of four xyxy coordinates"));
        }
        let a: Tensor = self.unsqueeze(graph, rank - 1)?;
        if !self.same_graph(other) {
            let mut dims: Vec<i64> = vstd::slice::slice_to_vec(other.shape());
            dims.insert(other_rank - 2, 1);
            let ghost b = other.expr().unsqueeze((other_rank - 2) as usize);
            let count: usize = elements(dims.as_slice())?;
            if count != elements(other.shape())? {
                return Err(err("reshape changes element count"));
            }
            proof {
                reveal(applied);
                assert(b is Is);
            }
            return Err(a.refuse_foreign(graph, dims.as_slice(), other.dtype(), false, Ghost(b->Is_0)));
        }
        let b: Tensor = other.unsqueeze(graph, other_rank - 2)?;
        a.box_iou(graph, &b)
    }
}

} // verus!
