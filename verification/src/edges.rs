//! Where paddings from the edges of a value succeed.
use crate::elements::{edges_reach, extended_axis, lemma_padding, lemma_total_step, partly_padded};
use crate::graph::{applied, Expr, Value};
use crate::indexing::{extended, lemma_collect_ok, pad_error, reflect_error, replicate_error};
use crate::op::Widths;
use crate::shape::{lemma_volume_nonnegative, volume};
use crate::sound::{axis_total, padded};
use crate::success::{
    lemma_made_broadcast, lemma_made_concatenated, lemma_made_narrow, lemma_volume_smaller, made,
};
use vstd::prelude::*;

verus! {

/// One edge of an axis, repeated.
proof fn lemma_made_edge(x: Value, axis: usize, start: i64, width: i64)
    requires
        volume(x.dims) is Some,
        axis < x.dims.len() <= usize::MAX,
        0 <= start < x.dims[axis as int],
        volume(x.dims.update(axis as int, width)) is Some,
    ensures
        made(
            Expr::Is(x).narrow(axis, start, 1).broadcast_to(x.dims.update(axis as int, width)),
            x.graph,
            x.dims.update(axis as int, width),
            x.dtype,
        ),
{
    let a = axis as int;
    lemma_made_narrow(Expr::Is(x), axis, start, 1, x.graph, x.dims, x.dtype);
    lemma_made_broadcast(
        Expr::Is(x).narrow(axis, start, 1),
        x.graph,
        x.dims.update(a, 1),
        x.dims.update(a, width),
        x.dtype,
    );
}

/// A region beside an edge of an axis, mirrored.
proof fn lemma_made_mirror(x: Value, axis: usize, start: i64, width: i64)
    requires
        volume(x.dims) is Some,
        axis < x.dims.len() <= usize::MAX,
        0 <= start,
        0 <= width,
        start + width <= x.dims[axis as int],
    ensures
        made(
            Expr::Is(x).narrow(axis, start, width).flip(seq![axis]),
            x.graph,
            x.dims.update(axis as int, width),
            x.dtype,
        ),
{
    lemma_made_narrow(Expr::Is(x), axis, start, width, x.graph, x.dims, x.dtype);
    reveal(applied);
    let axes = seq![axis];
    assert(axes.len() == 1 && axes[0] == axis);
}

/// An axis can be extended where it has an edge to copy, and where reflections
/// stay within it.
proof fn lemma_made_extended_axis(x: Value, axis: usize, widths: Widths, reflect: bool)
    requires
        volume(x.dims) is Some,
        axis < x.dims.len() <= usize::MAX,
        widths.0 >= 0,
        widths.1 >= 0,
        x.dims[axis as int] + widths.0 + widths.1 <= i64::MAX,
        volume(
            x.dims.update(axis as int, (x.dims[axis as int] + widths.0 + widths.1) as i64),
        ) is Some,
        widths.0 > 0 || widths.1 > 0 ==> if reflect {
            widths.0 < x.dims[axis as int] && widths.1 < x.dims[axis as int]
        } else {
            x.dims[axis as int] > 0
        },
    ensures
        made(
            extended_axis(x, axis, widths, reflect),
            x.graph,
            x.dims.update(axis as int, (x.dims[axis as int] + widths.0 + widths.1) as i64),
            x.dtype,
        ),
{
    let a = axis as int;
    let n = x.dims[a];
    let (low, high) = widths;
    let outer = x.dims.update(a, (n + low + high) as i64);
    lemma_volume_nonnegative(x.dims);
    if low == 0 && high == 0 {
        assert(outer =~= x.dims);
    } else {
        let e = Expr::Is(x);
        let before = if reflect {
            e.narrow(axis, 1, low).flip(seq![axis])
        } else {
            e.narrow(axis, 0, 1).broadcast_to(x.dims.update(a, low))
        };
        let after = if reflect {
            e.narrow(axis, (n - high - 1) as i64, high).flip(seq![axis])
        } else {
            e.narrow(axis, (n - 1) as i64, 1).broadcast_to(x.dims.update(a, high))
        };
        lemma_volume_smaller(x.dims.update(a, low), outer);
        lemma_volume_smaller(x.dims.update(a, high), outer);
        if reflect {
            lemma_made_mirror(x, axis, 1, low);
            lemma_made_mirror(x, axis, (n - high - 1) as i64, high);
        } else {
            lemma_made_edge(x, axis, 0, low);
            lemma_made_edge(x, axis, (n - 1) as i64, high);
        }
        let head = if low > 0 {
            seq![before]
        } else {
            Seq::empty()
        };
        let tail = if high > 0 {
            seq![after]
        } else {
            Seq::empty()
        };
        let first = if low > 0 {
            seq![before->Is_0]
        } else {
            Seq::empty()
        };
        let last = if high > 0 {
            seq![after->Is_0]
        } else {
            Seq::empty()
        };
        let values = first + seq![x] + last;
        lemma_collect_ok(head + seq![e] + tail, values);
        let place = first.len() as int;
        assert(values[place] == x);
        assert(low > 0 ==> values[0] == before->Is_0);
        assert(high > 0 ==> values[place + 1] == after->Is_0);
        assert(values.take(0).len() == 0);
        lemma_total_step(values, axis, 0);
        if values.len() >= 2 {
            lemma_total_step(values, axis, 1);
        }
        if values.len() >= 3 {
            lemma_total_step(values, axis, 2);
        }
        assert(values.take(values.len() as int) =~= values);
        assert(axis_total(values, axis) == n + low + high);
        assert forall|k: int| 0 <= k < values.len() implies (#[trigger] values[k]).graph == x.graph
            && values[k].dtype == x.dtype && values[k].dims[a] >= 0 && values[k].dims
            == outer.update(a, values[k].dims[a]) by {
            assert(k == place || (low > 0 && k == 0) || (high > 0 && k == place + 1));
            assert(values[k].dims =~= outer.update(a, values[k].dims[a]));
        }
        lemma_made_concatenated(values, axis, x.graph, outer, x.dtype);
    }
}

/// The first axes can be extended one after another.
proof fn lemma_made_extended(x: Value, padding: Seq<Widths>, count: nat, reflect: bool)
    requires
        volume(x.dims) is Some,
        count <= padding.len() == x.dims.len() <= usize::MAX,
        pad_error(x.dims, padding, padding.len()) is None,
        volume(padded(x.dims, padding)) is Some,
        edges_reach(x.dims, padding, reflect),
    ensures
        made(
            extended(x, padding, count, reflect),
            x.graph,
            partly_padded(x.dims, padding, count),
            x.dtype,
        ),
    decreases count,
{
    let dims = x.dims;
    if count == 0 {
        assert(partly_padded(dims, padding, 0) =~= dims);
    } else {
        let rest = (count - 1) as nat;
        let axis = rest as usize;
        let widths = padding[rest as int];
        lemma_made_extended(x, padding, rest, reflect);
        lemma_volume_nonnegative(dims);
        lemma_padding(dims, padding, padding.len());
        let y = extended(x, padding, rest, reflect)->Is_0;
        let inner = partly_padded(dims, padding, rest);
        let outer = partly_padded(dims, padding, count);
        assert forall|i: int| 0 <= i < dims.len() implies 0 <= #[trigger] inner[i] <= padded(
            dims,
            padding,
        )[i] by {
            assert(padding[i].0 >= 0 && padding[i].1 >= 0);
        }
        lemma_volume_smaller(inner, padded(dims, padding));
        assert forall|i: int| 0 <= i < dims.len() implies 0 <= #[trigger] outer[i] <= padded(
            dims,
            padding,
        )[i] by {
            assert(padding[i].0 >= 0 && padding[i].1 >= 0);
        }
        lemma_volume_smaller(outer, padded(dims, padding));
        assert(widths.0 >= 0 && widths.1 >= 0);
        assert(y.dims[rest as int] == dims[rest as int]);
        assert(y.dims.update(
            rest as int,
            (y.dims[rest as int] + widths.0 + widths.1) as i64,
        ) =~= outer);
        lemma_made_extended_axis(y, axis, widths, reflect);
        assert(extended(x, padding, count, reflect) == extended_axis(y, axis, widths, reflect));
    }
}

/// Paddings from the edges succeed unless their widths are refused, and have the
/// padded extents.
pub proof fn edge_paddings_succeed_unless_refused(x: Value, padding: Seq<Widths>)
    requires
        volume(x.dims) is Some,
        x.dims.len() <= usize::MAX,
    ensures
        Expr::Is(x).pad_replicate(padding) is Is <==> replicate_error(x.dims, padding) is None,
        Expr::Is(x).pad_reflect(padding) is Is <==> reflect_error(x.dims, padding) is None,
        replicate_error(x.dims, padding) is None ==> made(
            Expr::Is(x).pad_replicate(padding),
            x.graph,
            padded(x.dims, padding),
            x.dtype,
        ),
        reflect_error(x.dims, padding) is None ==> made(
            Expr::Is(x).pad_reflect(padding),
            x.graph,
            padded(x.dims, padding),
            x.dtype,
        ),
{
    let dims = x.dims;
    lemma_volume_nonnegative(dims);
    if replicate_error(dims, padding) is None || reflect_error(dims, padding) is None {
        lemma_padding(dims, padding, padding.len());
        assert(partly_padded(dims, padding, padding.len()) =~= padded(dims, padding));
    }
    if replicate_error(dims, padding) is None {
        assert(edges_reach(dims, padding, false)) by {
            assert forall|i: int|
                0 <= i < padding.len() && ((#[trigger] padding[i]).0 > 0 || padding[i].1
                    > 0) implies dims[i] > 0 by {
                assert(dims[i] >= 0);
            }
        }
        lemma_made_extended(x, padding, padding.len(), false);
    }
    if reflect_error(dims, padding) is None {
        assert(edges_reach(dims, padding, true)) by {
            assert forall|i: int|
                0 <= i < padding.len() && ((#[trigger] padding[i]).0 > 0 || padding[i].1
                    > 0) implies padding[i].0 < dims[i] && padding[i].1 < dims[i] by {
                assert(dims[i] >= 0);
                assert(padding[i].0 >= 0 && padding[i].1 >= 0);
            }
        }
        lemma_made_extended(x, padding, padding.len(), true);
    }
}

} // verus!
