//! Static shapes: element counts, comparisons and rearrangements of extents.
use crate::error::{err, invalid, Error};
use vstd::prelude::*;

verus! {

/// The number of elements of a shape: the product of its extents, taken from
/// the left. `None` where an extent is negative or a product leaves `usize`.
pub open spec fn volume(dims: Seq<i64>) -> Option<nat>
    decreases dims.len(),
{
    if dims.len() == 0 {
        Some(1)
    } else {
        match volume(dims.drop_last()) {
            None => None,
            Some(count) => {
                let size = dims.last();
                if size < 0 || size > usize::MAX || count * size > usize::MAX {
                    None
                } else {
                    Some((count * size) as nat)
                }
            },
        }
    }
}

/// The failure of a shape without a representable element count.
pub open spec fn bad_shape() -> Error {
    invalid("invalid or overflowing shape")
}

/// What [`elements`] returns for a shape.
pub open spec fn counted(dims: Seq<i64>) -> Result<nat, Error> {
    match volume(dims) {
        Some(count) => Ok(count),
        None => Err(bad_shape()),
    }
}

/// The number of elements of a shape.
pub fn elements(dims: &[i64]) -> (r: Result<usize, Error>)
    ensures
        match r {
            Ok(count) => volume(dims@) == Some(count as nat),
            Err(e) => volume(dims@) is None && e == bad_shape(),
        },
{
    let mut count: usize = 1;
    let mut i: usize = 0;
    while i < dims.len()
        invariant
            i <= dims@.len(),
            volume(dims@.take(i as int)) == Some(count as nat),
        decreases dims@.len() - i,
    {
        let size: i64 = dims[i];
        proof {
            assert(dims@.take(i + 1).drop_last() =~= dims@.take(i as int));
            assert(dims@.take(i + 1).last() == size);
        }
        if size < 0 || size as u64 > usize::MAX as u64 {
            proof {
                lemma_volume_prefix(dims@, i + 1);
            }
            return Err(err("invalid or overflowing shape"));
        }
        match count.checked_mul(size as usize) {
            Some(product) => {
                count = product;
            },
            None => {
                proof {
                    lemma_volume_prefix(dims@, i + 1);
                }
                return Err(err("invalid or overflowing shape"));
            },
        }
        i += 1;
    }
    assert(dims@.take(i as int) =~= dims@);
    Ok(count)
}

/// A shape has no element count where one of its prefixes has none.
pub proof fn lemma_volume_prefix(dims: Seq<i64>, length: int)
    requires
        0 <= length <= dims.len(),
        volume(dims.take(length)) is None,
    ensures
        volume(dims) is None,
    decreases dims.len(),
{
    if length == dims.len() {
        assert(dims.take(length) =~= dims);
    } else {
        assert(dims.drop_last().take(length) =~= dims.take(length));
        lemma_volume_prefix(dims.drop_last(), length);
    }
}

/// Every extent of a shape with an element count is nonnegative.
pub proof fn lemma_volume_nonnegative(dims: Seq<i64>)
    requires
        volume(dims) is Some,
    ensures
        forall|i: int| 0 <= i < dims.len() ==> #[trigger] dims[i] >= 0,
    decreases dims.len(),
{
    if dims.len() > 0 {
        lemma_volume_nonnegative(dims.drop_last());
        assert forall|i: int| 0 <= i < dims.len() implies #[trigger] dims[i] >= 0 by {
            if i < dims.len() - 1 {
                assert(dims.drop_last()[i] == dims[i]);
            }
        }
    }
}

/// Whether two lists of plain integers are equal.
pub fn same_dims(a: &[i64], b: &[i64]) -> (r: bool)
    ensures
        r == (a@ == b@),
{
    if a.len() != b.len() {
        return false;
    }
    let mut i: usize = 0;
    while i < a.len()
        invariant
            a@.len() == b@.len(),
            i <= a@.len(),
            forall|j: int| 0 <= j < i ==> a@[j] == b@[j],
        decreases a@.len() - i,
    {
        if a[i] != b[i] {
            return false;
        }
        i += 1;
    }
    assert(a@ =~= b@);
    true
}

/// Whether the axes are distinct and lie within the rank.
pub open spec fn axes_valid(axes: Seq<usize>, rank: nat) -> bool {
    &&& forall|i: int| 0 <= i < axes.len() ==> #[trigger] axes[i] < rank
    &&& axes.no_duplicates()
}

/// Whether the list arranges the axes `0..rank` in some order.
pub open spec fn is_permutation(axes: Seq<usize>, rank: nat) -> bool {
    axes.len() == rank && axes_valid(axes, rank)
}

/// The integers from `low` up to, not including, `high`.
pub open spec fn span(low: nat, high: nat) -> Seq<usize> {
    Seq::new(
        if low <= high {
            (high - low) as nat
        } else {
            0
        },
        |i: int| (low + i) as usize,
    )
}

/// The listed axes in increasing order.
pub open spec fn chosen(rank: nat, axes: Seq<usize>) -> Seq<usize>
    decreases rank,
{
    if rank == 0 {
        Seq::empty()
    } else {
        let last = (rank - 1) as usize;
        let rest = chosen((rank - 1) as nat, axes);
        if axes.contains(last) {
            rest.push(last)
        } else {
            rest
        }
    }
}

/// The extents of the axes that are not listed, in order.
pub open spec fn kept(dims: Seq<i64>, axes: Seq<usize>) -> Seq<i64>
    decreases dims.len(),
{
    if dims.len() == 0 {
        Seq::empty()
    } else {
        let rest = kept(dims.drop_last(), axes);
        if axes.contains((dims.len() - 1) as usize) {
            rest
        } else {
            rest.push(dims.last())
        }
    }
}

/// The extents with every listed axis reduced to one.
pub open spec fn collapsed(dims: Seq<i64>, axes: Seq<usize>) -> Seq<i64> {
    Seq::new(
        dims.len(),
        |i: int|
            if axes.contains(i as usize) {
                1
            } else {
                dims[i]
            },
    )
}

/// The extents at the listed axes.
pub open spec fn gathered(dims: Seq<i64>, axes: Seq<usize>) -> Seq<i64> {
    Seq::new(axes.len(), |i: int| dims[axes[i] as int])
}

/// Whether an axis is listed.
pub fn contains_axis(axes: &[usize], axis: usize) -> (r: bool)
    ensures
        r == axes@.contains(axis),
{
    let mut i: usize = 0;
    while i < axes.len()
        invariant
            i <= axes@.len(),
            forall|j: int| 0 <= j < i ==> axes@[j] != axis,
        decreases axes@.len() - i,
    {
        if axes[i] == axis {
            assert(axes@[i as int] == axis);
            return true;
        }
        i += 1;
    }
    false
}

/// Whether an extent occurs in the list.
pub fn contains_extent(dims: &[i64], size: i64) -> (r: bool)
    ensures
        r == dims@.contains(size),
{
    let mut i: usize = 0;
    while i < dims.len()
        invariant
            i <= dims@.len(),
            forall|j: int| 0 <= j < i ==> dims@[j] != size,
        decreases dims@.len() - i,
    {
        if dims[i] == size {
            assert(dims@[i as int] == size);
            return true;
        }
        i += 1;
    }
    false
}

/// Whether the axes are distinct and lie within the rank.
pub fn distinct_axes(axes: &[usize], rank: usize) -> (r: bool)
    ensures
        r == axes_valid(axes@, rank as nat),
{
    let mut i: usize = 0;
    while i < axes.len()
        invariant
            i <= axes@.len(),
            forall|j: int| 0 <= j < i ==> #[trigger] axes@[j] < rank,
            forall|j: int, k: int| 0 <= j < k < i ==> axes@[j] != axes@[k],
        decreases axes@.len() - i,
    {
        if axes[i] >= rank {
            return false;
        }
        let mut j: usize = 0;
        while j < i
            invariant
                j <= i < axes@.len(),
                forall|k: int| 0 <= k < j ==> axes@[k] != axes@[i as int],
            decreases i - j,
        {
            if axes[j] == axes[i] {
                assert(!axes@.no_duplicates());
                return false;
            }
            j += 1;
        }
        i += 1;
    }
    true
}

/// The integers from `low` up to, not including, `high`.
pub fn axis_span(low: usize, high: usize) -> (r: Vec<usize>)
    ensures
        r@ == span(low as nat, high as nat),
{
    let mut axes: Vec<usize> = Vec::new();
    if low < high {
        let mut i: usize = low;
        while i < high
            invariant
                low <= i <= high,
                axes@ == span(low as nat, i as nat),
            decreases high - i,
        {
            axes.push(i);
            assert(axes@ =~= span(low as nat, (i + 1) as nat));
            i += 1;
        }
    }
    assert(axes@ =~= span(low as nat, high as nat));
    axes
}

/// The listed axes in increasing order.
pub fn sorted_axes(rank: usize, axes: &[usize]) -> (r: Vec<usize>)
    ensures
        r@ == chosen(rank as nat, axes@),
{
    let mut sorted: Vec<usize> = Vec::new();
    let mut i: usize = 0;
    while i < rank
        invariant
            i <= rank,
            sorted@ == chosen(i as nat, axes@),
        decreases rank - i,
    {
        if contains_axis(axes, i) {
            sorted.push(i);
        }
        i += 1;
    }
    sorted
}

/// The extents of the axes that are not listed, in order.
pub fn keep_extents(dims: &[i64], axes: &[usize]) -> (r: Vec<i64>)
    ensures
        r@ == kept(dims@, axes@),
{
    let mut result: Vec<i64> = Vec::new();
    let mut i: usize = 0;
    assert(dims@.take(0) =~= Seq::<i64>::empty());
    while i < dims.len()
        invariant
            i <= dims@.len(),
            result@ == kept(dims@.take(i as int), axes@),
        decreases dims@.len() - i,
    {
        assert(dims@.take(i + 1).drop_last() =~= dims@.take(i as int));
        if !contains_axis(axes, i) {
            result.push(dims[i]);
        }
        i += 1;
    }
    assert(dims@.take(i as int) =~= dims@);
    result
}

/// The extents with every listed axis reduced to one.
pub fn collapse_extents(dims: &[i64], axes: &[usize]) -> (r: Vec<i64>)
    ensures
        r@ == collapsed(dims@, axes@),
{
    let mut result: Vec<i64> = Vec::new();
    let mut i: usize = 0;
    while i < dims.len()
        invariant
            i <= dims@.len(),
            result@.len() == i,
            forall|j: int| 0 <= j < i ==> #[trigger] result@[j] == collapsed(dims@, axes@)[j],
        decreases dims@.len() - i,
    {
        if contains_axis(axes, i) {
            result.push(1);
        } else {
            result.push(dims[i]);
        }
        i += 1;
    }
    assert(result@ =~= collapsed(dims@, axes@));
    result
}

/// The extents at the listed axes.
pub fn gather_extents(dims: &[i64], axes: &[usize]) -> (r: Vec<i64>)
    requires
        forall|i: int| 0 <= i < axes@.len() ==> #[trigger] axes@[i] < dims@.len(),
    ensures
        r@ == gathered(dims@, axes@),
{
    let mut result: Vec<i64> = Vec::new();
    let mut i: usize = 0;
    while i < axes.len()
        invariant
            forall|j: int| 0 <= j < axes@.len() ==> #[trigger] axes@[j] < dims@.len(),
            i <= axes@.len(),
            result@.len() == i,
            forall|j: int| 0 <= j < i ==> #[trigger] result@[j] == gathered(dims@, axes@)[j],
        decreases axes@.len() - i,
    {
        let axis: usize = axes[i];
        result.push(dims[axis]);
        i += 1;
    }
    assert(result@ =~= gathered(dims@, axes@));
    result
}

/// Listing axes in increasing order keeps their set: what is chosen is what
/// was listed, and the remaining extents are the same.
pub proof fn lemma_chosen(dims: Seq<i64>, axes: Seq<usize>)
    requires
        axes_valid(axes, dims.len()),
        dims.len() <= usize::MAX,
    ensures
        axes_valid(chosen(dims.len(), axes), dims.len()),
        kept(dims, chosen(dims.len(), axes)) == kept(dims, axes),
        forall|a: usize| #[trigger] chosen(dims.len(), axes).contains(a) <==> axes.contains(a),
{
    lemma_chosen_members(dims.len(), axes);
    assert forall|a: usize| #[trigger] chosen(dims.len(), axes).contains(a) <==> axes.contains(
        a,
    ) by {
        if axes.contains(a) {
            let i = choose|i: int| 0 <= i < axes.len() && axes[i] == a;
            assert(axes[i] < dims.len());
        }
    }
    lemma_kept_same(dims, chosen(dims.len(), axes), axes);
}

/// The chosen axes are the listed ones below the rank, once each.
pub proof fn lemma_chosen_members(rank: nat, axes: Seq<usize>)
    requires
        rank <= usize::MAX,
    ensures
        axes_valid(chosen(rank, axes), rank),
        forall|a: usize| #[trigger]
            chosen(rank, axes).contains(a) <==> (a < rank && axes.contains(a)),
    decreases rank,
{
    if rank > 0 {
        let last = (rank - 1) as usize;
        let rest = chosen((rank - 1) as nat, axes);
        lemma_chosen_members((rank - 1) as nat, axes);
        assert forall|a: usize| #[trigger]
            chosen(rank, axes).contains(a) <==> (a < rank && axes.contains(a)) by {
            if axes.contains(last) {
                let all = rest.push(last);
                if a == last {
                    assert(all[rest.len() as int] == last);
                } else if rest.contains(a) {
                    let k = choose|k: int| 0 <= k < rest.len() && rest[k] == a;
                    assert(all[k] == a);
                } else if all.contains(a) {
                    let k = choose|k: int| 0 <= k < all.len() && all[k] == a;
                    assert(rest[k] == a);
                }
            }
        }
        assert forall|i: int| 0 <= i < rest.len() implies #[trigger] rest[i] < last by {
            assert(rest.contains(rest[i]));
        }
    }
}

/// The remaining extents depend only on which axes are listed.
pub proof fn lemma_kept_same(dims: Seq<i64>, a: Seq<usize>, b: Seq<usize>)
    requires
        forall|x: usize| #[trigger] a.contains(x) <==> b.contains(x),
    ensures
        kept(dims, a) == kept(dims, b),
    decreases dims.len(),
{
    if dims.len() > 0 {
        lemma_kept_same(dims.drop_last(), a, b);
        assert(a.contains((dims.len() - 1) as usize) <==> b.contains((dims.len() - 1) as usize));
    }
}

} // verus!
