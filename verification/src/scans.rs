//! Inclusive scans: doubling, work-efficient trees and affine recurrences.
use crate::error::{err, Error};
use crate::facts::group_extents;
use crate::graph::{applied, values_of, Expr, Graph, Tensor, Value};
use crate::indexing::{concatenated, joined, slices_of, stacked, stacked_all, two};
use crate::shape::{contains_extent, lemma_volume_nonnegative, same_dims, volume};
use crate::sound::{agree_except, slice_dims, slice_extent};
use vstd::prelude::*;

verus! {

/// The associative operation of a scan.
#[derive(Clone, Copy, PartialEq, Eq, Structural, Debug)]
pub enum Combine {
    LogAddExp,
    Mul,
    Affine,
}

/// Zeros, but one entry.
pub open spec fn unit(rank: nat, axis: usize, elsewhere: i64, value: i64) -> Seq<i64> {
    Seq::new(
        rank,
        |i: int|
            if i == axis {
                value
            } else {
                elsewhere
            },
    )
}

impl Expr {
    /// Two affine maps, stacked on the last axis, composed.
    pub open spec fn compose_affine_pairs(self, right: Expr) -> Expr {
        match self {
            Expr::Fails(e) => Expr::Fails(e),
            Expr::Is(l) => {
                let axis = (l.dims.len() - 1) as usize;
                let a = right.narrow(axis, 0, 1);
                let offset = self.narrow(axis, 1, 1).given(a);
                let b = a.mul(offset).add(right.narrow(axis, 1, 1));
                let factor = self.narrow(axis, 0, 1).given(b);
                joined(two(a.mul(factor).given(factor), b), axis)
            },
        }
    }

    /// The operation of a scan applied to two blocks.
    #[verifier::opaque]
    pub open spec fn combined(self, rhs: Expr, combine: Combine) -> Expr {
        match combine {
            Combine::LogAddExp => self.logaddexp(rhs),
            Combine::Mul => self.mul(rhs),
            Combine::Affine => self.compose_affine_pairs(rhs).given(rhs).given(self),
        }
    }

    /// Every other element along an axis, from `start` on.
    pub open spec fn every_other(self, axis: usize, start: i64) -> Expr {
        match self {
            Expr::Fails(e) => Expr::Fails(e),
            Expr::Is(x) => self.slice(
                unit(x.dims.len(), axis, 0, start),
                x.dims,
                unit(x.dims.len(), axis, 1, 2),
            ),
        }
    }

    /// The scan of an axis from its even elements and the scan of its pairs:
    /// an even position combines the preceding odd one with its own element.
    #[verifier::opaque]
    pub open spec fn assembled(
        self,
        even: Expr,
        odds: Expr,
        axis: usize,
        combine: Combine,
        length: int,
    ) -> Expr {
        match self {
            Expr::Fails(e) => Expr::Fails(e),
            Expr::Is(x) => {
                let pairs = length / 2;
                let remaining = length - pairs - 1;
                let first = self.narrow(axis, 0, 1);
                let evens = if remaining == 0 {
                    first
                } else {
                    let earlier = odds.narrow(axis, 0, remaining as i64).given(first);
                    let own = even.narrow(axis, 1, remaining as i64).given(earlier);
                    joined(two(first, earlier.combined(own, combine).given(own)), axis)
                };
                let merged = stacked_all(
                    two(evens.narrow(axis, 0, pairs as i64), odds),
                    (axis + 1) as usize,
                ).reshape(x.dims.update(axis as int, (2 * pairs) as i64));
                if length % 2 == 0 {
                    merged
                } else {
                    joined(two(merged, evens.narrow(axis, pairs as i64, 1)), axis)
                }
            },
        }
    }

    /// The pairs of neighbours along an axis, each combined.
    #[verifier::opaque]
    pub open spec fn paired(self, axis: usize, combine: Combine, length: int) -> Expr {
        let even = self.every_other(axis, 0);
        let odd = self.every_other(axis, 1).given(even);
        even.narrow(axis, 0, (length / 2) as i64).given(odd).combined(odd, combine)
    }

    /// An inclusive scan of an axis of the given length: odd positions are the
    /// scan of the combined pairs of neighbours.
    pub open spec fn prefix_tree(self, axis: usize, combine: Combine, length: int) -> Expr
        decreases length,
    {
        match self {
            Expr::Fails(e) => Expr::Fails(e),
            Expr::Is(x) => if length <= 1 || x.dims.contains(0) {
                self
            } else {
                let odds = self.paired(axis, combine, length).prefix_tree(
                    axis,
                    combine,
                    length / 2,
                );
                self.assembled(
                    self.every_other(axis, 0),
                    odds,
                    axis,
                    combine,
                    length,
                ).given(odds)
            },
        }
    }

    /// The scan of an axis, its length taken from the extents.
    pub open spec fn scanned(self, axis: usize, combine: Combine) -> Expr {
        match self {
            Expr::Fails(e) => Expr::Fails(e),
            Expr::Is(x) => if axis >= x.dims.len() {
                Expr::invalid("prefix scan axis out of range")
            } else {
                self.prefix_tree(axis, combine, x.dims[axis as int] as int)
            },
        }
    }

    /// One stage of a doubling scan: each element beyond the offset absorbs
    /// the element one offset before it.
    pub open spec fn doubling_stage(self, axis: usize, length: i64, offset: i64) -> Expr {
        let prefix = self.narrow(axis, 0, offset);
        let late = self.narrow(axis, offset, (length - offset) as i64).given(prefix);
        let tail = late.logaddexp(self.narrow(axis, 0, (length - offset) as i64));
        joined(two(prefix, tail), axis)
    }

    /// The stages of a doubling scan from an offset on.
    pub open spec fn doubling(self, axis: usize, length: i64, offset: i64) -> Expr
        decreases length - offset,
    {
        if offset >= length || offset <= 0 {
            self
        } else {
            let next = self.doubling_stage(axis, length, offset);
            if offset >= length - offset {
                next
            } else {
                next.doubling(axis, length, (offset * 2) as i64)
            }
        }
    }

    /// Inclusive cumulative log-sum-exp along one axis, by doubling.
    pub open spec fn logcumsumexp(self, axis: usize) -> Expr {
        match self {
            Expr::Fails(e) => Expr::Fails(e),
            Expr::Is(x) => if axis >= x.dims.len() {
                Expr::invalid("logcumsumexp axis out of range")
            } else if x.dims[axis as int] <= 1 || x.dims.contains(0) {
                self
            } else {
                self.doubling(axis, x.dims[axis as int], 1)
            },
        }
    }

    /// Prefix compositions of the affine maps `s -> multiplier * s + self`.
    #[verifier::opaque]
    pub open spec fn affine_prefix_pairs(self, multiplier: Expr, axis: usize) -> Expr {
        match (self, multiplier) {
            (Expr::Fails(e), _) => Expr::Fails(e),
            (_, Expr::Fails(e)) => Expr::Fails(e),
            (Expr::Is(x), Expr::Is(m)) => if axis >= x.dims.len() {
                Expr::invalid("affine scan axis out of range")
            } else if x.graph != m.graph || x.dims != m.dims {
                Expr::invalid("affine scan operands must match graph and shape")
            } else {
                stacked(seq![m, x], x.dims.len() as usize).scanned(axis, Combine::Affine)
            },
        }
    }

    /// `s[t] = multiplier[t] * s[t-1] + self[t]` from a zero initial state.
    pub open spec fn affine_scan(self, multiplier: Expr, axis: usize) -> Expr {
        match self {
            Expr::Fails(e) => Expr::Fails(e),
            Expr::Is(x) => self.affine_prefix_pairs(multiplier, axis).narrow(
                x.dims.len() as usize,
                1,
                1,
            ).reshape(x.dims),
        }
    }

    /// The affine recurrence from an explicit initial state.
    pub open spec fn affine_scan_from(self, multiplier: Expr, initial: Expr, axis: usize) -> Expr {
        match (self, multiplier, initial) {
            (Expr::Fails(e), _, _) => Expr::Fails(e),
            (_, Expr::Fails(e), _) => Expr::Fails(e),
            (_, _, Expr::Fails(e)) => Expr::Fails(e),
            (Expr::Is(x), Expr::Is(_), Expr::Is(s)) => if axis >= x.dims.len() {
                Expr::invalid("affine scan axis out of range")
            } else if x.graph != s.graph || s.dims != x.dims.remove(axis as int) {
                Expr::invalid("affine scan initial state must match graph and non-scan dimensions")
            } else {
                let pairs = self.affine_prefix_pairs(multiplier, axis);
                let last = x.dims.len() as usize;
                let state = initial.reshape(
                    x.dims.remove(axis as int).insert(axis as int, 1),
                ).broadcast_to(x.dims).given(pairs);
                let a = pairs.narrow(last, 0, 1).reshape(x.dims).given(state);
                let b = pairs.narrow(last, 1, 1).reshape(x.dims).given(a);
                a.mul(state).given(b).add(b)
            },
        }
    }
}

/// A slice of every other element has half the extent, rounded by its start.
pub(crate) proof fn lemma_every_other(x: Value, y: Value, axis: usize, start: i64)
    requires
        Expr::Is(x).every_other(axis, start) == Expr::Is(y),
        axis < x.dims.len(),
        start == 0 || start == 1,
        volume(x.dims) is Some,
        x.dims[axis as int] >= 1,
    ensures
        y.graph == x.graph,
        y.dims == x.dims.update(axis as int, ((x.dims[axis as int] - start + 1) / 2) as i64),
{
    reveal(applied);
    lemma_volume_nonnegative(x.dims);
    let axes = slices_of(
        unit(x.dims.len(), axis, 0, start),
        x.dims,
        unit(x.dims.len(), axis, 1, 2),
    );
    assert(y.dims == slice_dims(axes));
    assert forall|i: int| 0 <= i < x.dims.len() implies #[trigger] y.dims[i] == x.dims.update(
        axis as int,
        ((x.dims[axis as int] - start + 1) / 2) as i64,
    )[i] by {
        if i == axis {
            assert(axes[i].stride == 2);
            assert(slice_extent(axes[i]) == (x.dims[i] - start + 1) / 2);
        } else {
            assert(axes[i].stride == 1);
            assert(slice_extent(axes[i]) == x.dims[i]);
        }
    }
    assert(y.dims =~= x.dims.update(axis as int, ((x.dims[axis as int] - start + 1) / 2) as i64));
}

/// Joining two values keeps every extent but the joined one.
pub proof fn lemma_concatenated(x: Value, y: Value, z: Value, axis: usize)
    requires
        concatenated(seq![x, y], axis) == Expr::Is(z),
    ensures
        z.graph == x.graph,
        axis < x.dims.len(),
        agree_except(x.dims, y.dims, axis),
        z.dims == x.dims.update(axis as int, (x.dims[axis as int] + y.dims[axis as int]) as i64),
        x.dims[axis as int] + y.dims[axis as int] <= i64::MAX,
{
    reveal(applied);
    reveal(concatenated);
    let args = seq![x, y];
    reveal_with_fuel(crate::indexing::join_error, 3);
    reveal_with_fuel(crate::sound::axis_total, 3);
    assert(args.take(2) =~= args);
    assert(args.drop_last() =~= seq![x]);
    assert(args.drop_last().drop_last() =~= Seq::<Value>::empty());
}

/// Combining two blocks of equal extents keeps every extent but, for affine
/// maps, the last.
pub(crate) proof fn lemma_combined(x: Value, y: Value, z: Value, combine: Combine)
    requires
        Expr::Is(x).combined(Expr::Is(y), combine) == Expr::Is(z),
        combine == Combine::Affine ==> x.dims.len() > 0,
        y.dims == x.dims,
        x.dims.len() <= usize::MAX + 1,
    ensures
        z.graph == (if combine == Combine::Affine {
            y.graph
        } else {
            x.graph
        }),
        z.dims.len() == x.dims.len(),
        combine == Combine::Affine ==> agree_except(x.dims, z.dims, (x.dims.len() - 1) as usize),
        combine != Combine::Affine ==> z.dims == x.dims,
{
    reveal(Expr::combined);
    broadcast use group_extents;

    match combine {
        Combine::LogAddExp => {
            reveal(Expr::logaddexp);
            reveal(applied);
        },
        Combine::Mul => {},
        Combine::Affine => {
            let (l, r) = (Expr::Is(x), Expr::Is(y));
            let axis = (x.dims.len() - 1) as usize;
            let a = r.narrow(axis, 0, 1);
            let offset = l.narrow(axis, 1, 1).given(a);
            let b = a.mul(offset).add(r.narrow(axis, 1, 1));
            let factor = l.narrow(axis, 0, 1).given(b);
            let p = a.mul(factor).given(factor);
            lemma_concatenated(p->Is_0, b->Is_0, z, axis);
        },
    }
}

pub(crate) broadcast proof fn combined_strict(x: Expr, y: Expr, combine: Combine)
    ensures
        x is Fails ==> #[trigger] x.combined(y, combine) == x,
        x is Is && y is Fails ==> x.combined(y, combine) == y,
{
    reveal(Expr::combined);
    reveal(Expr::logaddexp);
    reveal(Expr::narrow);
}

pub(crate) proof fn prefix_tree_strict(x: Expr, axis: usize, combine: Combine, length: int)
    ensures
        x is Fails ==> x.prefix_tree(axis, combine, length) == x,
{
}

/// A doubling scan that has failed stays failed.
pub(crate) proof fn lemma_doubling_failed(e: Error, axis: usize, length: i64, offset: i64)
    ensures
        Expr::Fails(e).doubling(axis, length, offset) == Expr::Fails(e),
    decreases length - offset,
{
    reveal(Expr::narrow);
    if offset < length && offset > 0 && offset < length - offset {
        lemma_doubling_failed(e, axis, length, (offset * 2) as i64);
    }
}

/// Zeros, but one entry.
fn unit_entries(rank: usize, axis: usize, elsewhere: i64, value: i64) -> (r: Vec<i64>)
    ensures
        r@ == unit(rank as nat, axis, elsewhere, value),
{
    let mut entries: Vec<i64> = Vec::new();
    let mut i: usize = 0;
    while i < rank
        invariant
            i <= rank,
            entries@.len() == i,
            forall|j: int|
                0 <= j < i ==> #[trigger] entries@[j] == unit(rank as nat, axis, elsewhere, value)[j],
        decreases rank - i,
    {
        if i == axis {
            entries.push(value);
        } else {
            entries.push(elsewhere);
        }
        i += 1;
    }
    assert(entries@ =~= unit(rank as nat, axis, elsewhere, value));
    entries
}

/// A stack has one more axis than its parts.
proof fn lemma_stacked_rank(x: Value, y: Value, z: Value, axis: usize)
    requires
        stacked(seq![x, y], axis) == Expr::Is(z),
        axis <= x.dims.len(),
    ensures
        z.graph == x.graph,
        z.dims.len() == x.dims.len() + 1,
{
    reveal(stacked);
    broadcast use group_extents;

    let args = seq![x, y];
    let parts = Seq::new(args.len(), |k: int| Expr::Is(args[k]).unsqueeze(axis));
    reveal_with_fuel(crate::indexing::collect, 3);
    assert(parts.drop_last().drop_last().len() == 0);
    assert(parts[0] == Expr::Is(x).unsqueeze(axis));
    assert(parts[1] == Expr::Is(y).unsqueeze(axis));
    let a = parts[0]->Is_0;
    let b = parts[1]->Is_0;
    assert(crate::indexing::collect(parts) == Ok::<Seq<Value>, Error>(
        Seq::<Value>::empty().push(a).push(b),
    ));
    assert(Seq::<Value>::empty().push(a).push(b) =~= seq![a, b]);
    lemma_concatenated(a, b, z, axis);
}

impl Tensor {
    /// Two affine maps, stacked on the last axis, composed.
    fn compose_affine_pairs(
        &self,
        graph: &mut Graph,
        right: &Tensor,
    ) -> (r: Result<Tensor, Error>)
        requires
            old(graph).wf(),
            old(graph).owns(*self),
            old(graph).owns(*right),
            self@.dims.len() > 0,
        ensures
            final(graph).extends(*old(graph)),
            final(graph).yields(r, self.expr().compose_affine_pairs(right.expr())),
    {
        proof {
            reveal(Expr::narrow);
        }
        let axis: usize = self.shape().len() - 1;
        let a: Tensor = right.narrow(graph, axis, 0, 1)?;
        let offset: Tensor = self.narrow(graph, axis, 1, 1)?;
        let carried: Tensor = a.mul(graph, &offset)?;
        let addend: Tensor = right.narrow(graph, axis, 1, 1)?;
        let b: Tensor = carried.add(graph, &addend)?;
        let factor: Tensor = self.narrow(graph, axis, 0, 1)?;
        let a: Tensor = a.mul(graph, &factor)?;
        let pieces: Vec<Tensor> = vec![a, b];
        assert(values_of(pieces@) =~= seq![a@, b@]);
        Tensor::concatenate(graph, pieces.as_slice(), axis)
    }

    /// The operation of a scan applied to two blocks.
    fn combined(
        &self,
        graph: &mut Graph,
        rhs: &Tensor,
        combine: Combine,
    ) -> (r: Result<Tensor, Error>)
        requires
            old(graph).wf(),
            old(graph).owns(*self),
            old(graph).owns(*rhs),
            combine == Combine::Affine ==> self@.dims.len() > 0,
        ensures
            final(graph).extends(*old(graph)),
            final(graph).yields(r, self.expr().combined(rhs.expr(), combine)),
    {
        proof {
            reveal(Expr::combined);
        }
        match combine {
            Combine::LogAddExp => self.logaddexp(graph, rhs),
            Combine::Mul => self.mul(graph, rhs),
            Combine::Affine => self.compose_affine_pairs(graph, rhs),
        }
    }

    /// Every other element along an axis.
    fn every_other(
        &self,
        graph: &mut Graph,
        axis: usize,
        start: i64,
    ) -> (r: Result<Tensor, Error>)
        requires
            old(graph).wf(),
            old(graph).owns(*self),
        ensures
            final(graph).extends(*old(graph)),
            final(graph).yields(r, self.expr().every_other(axis, start)),
            final(graph).records(*old(graph), r),
    {
        let rank: usize = self.shape().len();
        let starts: Vec<i64> = unit_entries(rank, axis, 0, start);
        let strides: Vec<i64> = unit_entries(rank, axis, 1, 2);
        self.slice(graph, starts.as_slice(), self.shape(), strides.as_slice())
    }

    /// The even elements of an axis and the combined pairs of neighbours.
    fn paired(&self, graph: &mut Graph, axis: usize, combine: Combine) -> (r: Result<
        (Tensor, Tensor),
        Error,
    >)
        requires
            old(graph).wf(),
            old(graph).owns(*self),
            axis < self@.dims.len(),
            self@.dims[axis as int] >= 2,
            combine == Combine::Affine ==> axis + 1 < self@.dims.len(),
        ensures
            final(graph).extends(*old(graph)),
            match r {
                Ok((even, blocks)) => {
                    &&& final(graph).owns(even)
                    &&& final(graph).owns(blocks)
                    &&& self.expr().every_other(axis, 0) == even.expr()
                    &&& self.expr().paired(axis, combine, self@.dims[axis as int] as int)
                        == blocks.expr()
                    &&& blocks@.dims.len() == self@.dims.len()
                    &&& blocks@.dims[axis as int] == self@.dims[axis as int] / 2
                },
                Err(e) => self.expr().paired(axis, combine, self@.dims[axis as int] as int)
                    == Expr::Fails(e),
            },
    {
        broadcast use {group_extents, combined_strict};

        proof {
            reveal(Expr::paired);
        }
        let length: i64 = self.shape()[axis];
        let pairs: i64 = length / 2;
        let even: Tensor = self.every_other(graph, axis, 0)?;
        let odd: Tensor = self.every_other(graph, axis, 1)?;
        proof {
            lemma_every_other(self@, even@, axis, 0);
            lemma_every_other(self@, odd@, axis, 1);
        }
        let front: Tensor = even.narrow(graph, axis, 0, pairs)?;
        proof {
            assert(front@.dims =~= self@.dims.update(axis as int, pairs));
            assert(odd@.dims =~= self@.dims.update(axis as int, pairs));
        }
        let blocks: Tensor = front.combined(graph, &odd, combine)?;
        proof {
            lemma_combined(front@, odd@, blocks@, combine);
        }
        Ok((even, blocks))
    }

    /// The scan of an axis from its even elements and the scan of its pairs.
    fn assembled(
        &self,
        graph: &mut Graph,
        even: &Tensor,
        odds: &Tensor,
        axis: usize,
        combine: Combine,
    ) -> (r: Result<Tensor, Error>)
        requires
            old(graph).wf(),
            old(graph).owns(*self),
            old(graph).owns(*even),
            old(graph).owns(*odds),
            axis < self@.dims.len(),
            self@.dims[axis as int] >= 2,
            combine == Combine::Affine ==> odds@.dims.len() > 0,
        ensures
            final(graph).extends(*old(graph)),
            final(graph).yields(r, self.expr().assembled(even.expr(), odds.expr(), axis, combine, self@.dims[axis as int] as int)),
            r matches Ok(t) ==> t@.dims.len() == self@.dims.len(),
    {
        broadcast use {group_extents, combined_strict};

        proof {
            reveal(Expr::assembled);
        }
        let length: i64 = self.shape()[axis];
        let rank: usize = self.shape().len();
        let pairs: i64 = length / 2;
        let remaining: i64 = length - pairs - 1;
        let first: Tensor = self.narrow(graph, axis, 0, 1)?;
        let evens: Tensor = if remaining == 0 {
            first
        } else {
            let earlier: Tensor = odds.narrow(graph, axis, 0, remaining)?;
            let own: Tensor = even.narrow(graph, axis, 1, remaining)?;
            let tail: Tensor = earlier.combined(graph, &own, combine)?;
            let pieces: Vec<Tensor> = vec![first, tail];
            assert(values_of(pieces@) =~= seq![first@, tail@]);
            Tensor::concatenate(graph, pieces.as_slice(), axis)?
        };
        let mut merged_dims: Vec<i64> = vstd::slice::slice_to_vec(self.shape());
        merged_dims.set(axis, 2 * pairs);
        let lower: Tensor = evens.narrow(graph, axis, 0, pairs)?;
        let rows: Vec<Tensor> = vec![lower, odds.copy()];
        assert(values_of(rows@) =~= seq![lower@, odds@]);
        let merged: Tensor = Tensor::stack(graph, rows.as_slice(), axis + 1)?.reshape(
            graph,
            merged_dims.as_slice(),
        )?;
        if length % 2 == 0 {
            Ok(merged)
        } else {
            let last: Tensor = evens.narrow(graph, axis, pairs, 1)?;
            let pieces: Vec<Tensor> = vec![merged, last];
            assert(values_of(pieces@) =~= seq![merged@, last@]);
            let result: Tensor = Tensor::concatenate(graph, pieces.as_slice(), axis)?;
            proof {
                lemma_concatenated(merged@, last@, result@, axis);
            }
            Ok(result)
        }
    }

    /// An inclusive tree scan of one axis.
    fn prefix_tree(
        &self,
        graph: &mut Graph,
        axis: usize,
        combine: Combine,
    ) -> (r: Result<Tensor, Error>)
        requires
            old(graph).wf(),
            old(graph).owns(*self),
            axis < self@.dims.len(),
            combine == Combine::Affine ==> axis + 1 < self@.dims.len(),
        ensures
            final(graph).extends(*old(graph)),
            final(graph).yields(r, self.expr().prefix_tree(axis, combine, self@.dims[axis as int] as int)),
            r matches Ok(t) ==> t@.dims.len() == self@.dims.len(),
        decreases self@.dims[axis as int],
    {
        let length: i64 = self.shape()[axis];
        if length <= 1 || contains_extent(self.shape(), 0) {
            return Ok(self.copy());
        }
        proof {
            prefix_tree_strict(
                self.expr().paired(axis, combine, length as int),
                axis,
                combine,
                length as int / 2,
            );
        }
        let (even, blocks): (Tensor, Tensor) = self.paired(graph, axis, combine)?;
        let odds: Tensor = blocks.prefix_tree(graph, axis, combine)?;
        self.assembled(graph, &even, &odds, axis, combine)
    }

    /// Inclusive cumulative log-sum-exp along one axis by a tree scan. Empty and
    /// unit axes are identity.
    pub fn logcumsumexp_tree(
        &self,
        graph: &mut Graph,
        axis: usize,
    ) -> (r: Result<Tensor, Error>)
        requires
            old(graph).wf(),
            old(graph).owns(*self),
        ensures
            final(graph).extends(*old(graph)),
            final(graph).yields(r, self.expr().scanned(axis, Combine::LogAddExp)),
    {
        if axis >= self.shape().len() {
            return Err(err("prefix scan axis out of range"));
        }
        self.prefix_tree(graph, axis, Combine::LogAddExp)
    }

    /// Inclusive cumulative products along one axis by a tree scan. Empty and
    /// unit axes are identity.
    pub fn cumprod(
        &self,
        graph: &mut Graph,
        axis: usize,
    ) -> (r: Result<Tensor, Error>)
        requires
            old(graph).wf(),
            old(graph).owns(*self),
        ensures
            final(graph).extends(*old(graph)),
            final(graph).yields(r, self.expr().scanned(axis, Combine::Mul)),
    {
        if axis >= self.shape().len() {
            return Err(err("prefix scan axis out of range"));
        }
        self.prefix_tree(graph, axis, Combine::Mul)
    }

    /// One stage of a doubling scan.
    fn doubling_stage(
        &self,
        graph: &mut Graph,
        axis: usize,
        length: i64,
        offset: i64,
    ) -> (r: Result<Tensor, Error>)
        requires
            old(graph).wf(),
            old(graph).owns(*self),
            0 < offset < length,
        ensures
            final(graph).extends(*old(graph)),
            final(graph).yields(r, self.expr().doubling_stage(axis, length, offset)),
    {
        proof {
            reveal(Expr::logaddexp);
        }
        let prefix: Tensor = self.narrow(graph, axis, 0, offset)?;
        let late: Tensor = self.narrow(graph, axis, offset, length - offset)?;
        let early: Tensor = self.narrow(graph, axis, 0, length - offset)?;
        let tail: Tensor = late.logaddexp(graph, &early)?;
        let pieces: Vec<Tensor> = vec![prefix, tail];
        assert(values_of(pieces@) =~= seq![prefix@, tail@]);
        Tensor::concatenate(graph, pieces.as_slice(), axis)
    }

    /// Inclusive stable cumulative log-sum-exp along one axis, by a doubling
    /// scan. Empty and unit axes are identity.
    pub fn logcumsumexp(
        &self,
        graph: &mut Graph,
        axis: usize,
    ) -> (r: Result<Tensor, Error>)
        requires
            old(graph).wf(),
            old(graph).owns(*self),
        ensures
            final(graph).extends(*old(graph)),
            final(graph).yields(r, self.expr().logcumsumexp(axis)),
    {
        if axis >= self.shape().len() {
            return Err(err("logcumsumexp axis out of range"));
        }
        let length: i64 = self.shape()[axis];
        if length <= 1 || contains_extent(self.shape(), 0) {
            return Ok(self.copy());
        }
        let ghost whole = self.expr().doubling(axis, length, 1);
        let mut result: Tensor = self.copy();
        let mut offset: i64 = 1;
        let mut more: bool = true;
        while more
            invariant
                old(graph).owns(*self),
                graph.extends(*old(graph)),
                graph.owns(result),
                self.expr().logcumsumexp(axis) == whole,
                more ==> 0 < offset < length && whole == result.expr().doubling(axis, length, offset),
                !more ==> whole == result.expr(),
            decreases
                    if more {
                        length - offset
                    } else {
                        0
                    },
        {
            match result.doubling_stage(graph, axis, length, offset) {
                Ok(next) => {
                    result = next;
                },
                Err(e) => {
                    proof {
                        if offset < length - offset {
                            lemma_doubling_failed(e, axis, length, (offset * 2) as i64);
                        }
                    }
                    return Err(e);
                },
            }
            if offset >= length - offset {
                more = false;
            } else {
                offset = offset * 2;
            }
        }
        Ok(result)
    }

    /// Prefix compositions of affine maps.
    fn affine_prefix_pairs(
        &self,
        graph: &mut Graph,
        multiplier: &Tensor,
        axis: usize,
    ) -> (r: Result<Tensor, Error>)
        requires
            old(graph).wf(),
            old(graph).owns(*self),
            old(graph).admits(*multiplier),
        ensures
            final(graph).extends(*old(graph)),
            final(graph).yields(r, self.expr().affine_prefix_pairs(multiplier.expr(), axis)),
    {
        proof {
            reveal(Expr::affine_prefix_pairs);
        }
        let rank: usize = self.shape().len();
        if axis >= rank {
            return Err(err("affine scan axis out of range"));
        }
        if !self.same_graph(multiplier) || !same_dims(self.shape(), multiplier.shape()) {
            return Err(err("affine scan operands must match graph and shape"));
        }
        let rows: Vec<Tensor> = vec![multiplier.copy(), self.copy()];
        assert(values_of(rows@) =~= seq![multiplier@, self@]);
        let pairs: Tensor = Tensor::stack(graph, rows.as_slice(), rank)?;
        proof {
            lemma_stacked_rank(multiplier@, self@, pairs@, rank);
        }
        pairs.prefix_tree(graph, axis, Combine::Affine)
    }

    /// Inclusive affine recurrence along `axis` from a zero initial state:
    /// `s[t] = multiplier[t] * s[t-1] + self[t]`. The first multiplier is ignored.
    pub fn affine_scan(
        &self,
        graph: &mut Graph,
        multiplier: &Tensor,
        axis: usize,
    ) -> (r: Result<Tensor, Error>)
        requires
            old(graph).wf(),
            old(graph).owns(*self),
            old(graph).admits(*multiplier),
        ensures
            final(graph).extends(*old(graph)),
            final(graph).yields(r, self.expr().affine_scan(multiplier.expr(), axis)),
    {
        proof {
            reveal(Expr::narrow);
        }
        let rank: usize = self.shape().len();
        let pairs: Tensor = self.affine_prefix_pairs(graph, multiplier, axis)?;
        pairs.narrow(graph, rank, 1, 1)?.reshape(graph, self.shape())
    }

    /// Affine recurrence with an explicit initial state, whose extents are this
    /// tensor's with `axis` removed: `s[0] = multiplier[0] * initial + self[0]`.
    pub fn affine_scan_from(
        &self,
        graph: &mut Graph,
        multiplier: &Tensor,
        initial: &Tensor,
        axis: usize,
    ) -> (r: Result<Tensor, Error>)
        requires
            old(graph).wf(),
            old(graph).owns(*self),
            old(graph).admits(*multiplier),
            old(graph).admits(*initial),
        ensures
            final(graph).extends(*old(graph)),
            final(graph).yields(r, self.expr().affine_scan_from(multiplier.expr(), initial.expr(), axis)),
    {
        proof {
            reveal(Expr::narrow);
        }
        let rank: usize = self.shape().len();
        if axis >= rank {
            return Err(err("affine scan axis out of range"));
        }
        let mut initial_dims: Vec<i64> = vstd::slice::slice_to_vec(self.shape());
        initial_dims.remove(axis);
        if !self.same_graph(initial) || !same_dims(initial.shape(), initial_dims.as_slice()) {
            return Err(err("affine scan initial state must match graph and non-scan dimensions"));
        }
        let pairs: Tensor = self.affine_prefix_pairs(graph, multiplier, axis)?;
        initial_dims.insert(axis, 1);
        let state: Tensor = initial.reshape(graph, initial_dims.as_slice())?.broadcast_to(
            graph,
            self.shape(),
        )?;
        let a: Tensor = pairs.narrow(graph, rank, 0, 1)?.reshape(graph, self.shape())?;
        let b: Tensor = pairs.narrow(graph, rank, 1, 1)?.reshape(graph, self.shape())?;
        a.mul(graph, &state)?.add(graph, &b)
    }
}

} // verus!
