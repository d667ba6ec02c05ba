//! The corners of boxes, and what the boxes share and cover, in exact arithmetic.
use vstd::prelude::*;

verus! {

/// The greater of two numbers.
pub open spec fn greater(a: real, b: real) -> real {
    if a >= b {
        a
    } else {
        b
    }
}

/// The lesser of two numbers.
pub open spec fn lesser(a: real, b: real) -> real {
    if a <= b {
        a
    } else {
        b
    }
}

/// The length of an interval, none where its ends are inverted.
pub open spec fn length(low: real, high: real) -> real {
    greater(high - low, 0 as real)
}

/// The corners of a box.
pub ghost struct Corners {
    pub left: real,
    pub top: real,
    pub right: real,
    pub bottom: real,
}

impl Corners {
    /// The area of a box.
    pub open spec fn area(self) -> real {
        length(self.left, self.right) * length(self.top, self.bottom)
    }

    /// The area that two boxes share.
    pub open spec fn shared(self, other: Corners) -> real {
        length(greater(self.left, other.left), lesser(self.right, other.right)) * length(
            greater(self.top, other.top),
            lesser(self.bottom, other.bottom),
        )
    }

    /// The area that two boxes cover.
    pub open spec fn covered(self, other: Corners) -> real {
        self.area() + other.area() - self.shared(other)
    }

    /// The shared area over the covered one, where there is any.
    pub open spec fn overlap(self, other: Corners) -> real {
        self.shared(other) / if self.covered(other) > 0 as real {
            self.covered(other)
        } else {
            1 as real
        }
    }

    /// The area of the smallest box around two boxes.
    pub open spec fn enclosed(self, other: Corners) -> real {
        length(lesser(self.left, other.left), greater(self.right, other.right)) * length(
            lesser(self.top, other.top),
            greater(self.bottom, other.bottom),
        )
    }

    /// The overlap less the part of the enclosing box that neither box covers.
    pub open spec fn generalized(self, other: Corners) -> real {
        self.overlap(other) - (self.enclosed(other) - self.covered(other)) / if self.enclosed(other)
            > 0 as real {
            self.enclosed(other)
        } else {
            1 as real
        }
    }
}

proof fn lemma_products(a: real, b: real, c: real, d: real)
    by (nonlinear_arith)
    requires
        0 as real <= a <= c,
        0 as real <= b <= d,
    ensures
        0 as real <= a * b <= c * d,
{
}

proof fn lemma_fraction(a: real, b: real)
    by (nonlinear_arith)
    requires
        0 as real <= a <= b,
        b > 0 as real,
    ensures
        0 as real <= a / b <= 1 as real,
        a == b ==> a / b == 1 as real,
        a == 0 as real ==> a / b == 0 as real,
{
}

/// The overlap of two boxes does not depend on their order. It lies between
/// zero and one, and is zero where the boxes cover nothing. A box overlaps
/// itself wholly where it has an area, and not at all where it has none.
pub proof fn overlaps_are_symmetric_fractions(a: Corners, b: Corners)
    ensures
        a.overlap(b) == b.overlap(a),
        0 as real <= a.overlap(b) <= 1 as real,
        a.covered(b) == 0 as real ==> a.overlap(b) == 0 as real,
        a.shared(b) == 0 as real ==> a.overlap(b) == 0 as real,
        a.overlap(a) == if a.area() > 0 as real {
            1 as real
        } else {
            0 as real
        },
        a.area() >= 0 as real,
{
    lemma_shared(a, b);
    lemma_shared(b, a);
    lemma_shared(a, a);
    lemma_overlap(a, b);
    lemma_overlap(a, a);
}

/// The shared area is at most each box's.
proof fn lemma_shared(a: Corners, b: Corners)
    ensures
        0 as real <= a.shared(b) <= a.area(),
        a.shared(b) <= b.area(),
        a.shared(b) == b.shared(a),
        a.shared(a) == a.area(),
{
    let width = length(greater(a.left, b.left), lesser(a.right, b.right));
    let height = length(greater(a.top, b.top), lesser(a.bottom, b.bottom));
    lemma_products(width, height, length(a.left, a.right), length(a.top, a.bottom));
    lemma_products(width, height, length(b.left, b.right), length(b.top, b.bottom));
}

/// An overlap is a fraction.
proof fn lemma_overlap(a: Corners, b: Corners)
    requires
        0 as real <= a.shared(b) <= a.area(),
        a.shared(b) <= b.area(),
    ensures
        0 as real <= a.overlap(b) <= 1 as real,
        a.covered(b) <= 0 as real ==> a.overlap(b) == 0 as real,
        a.shared(b) == 0 as real ==> a.overlap(b) == 0 as real,
        a.covered(b) > 0 as real && a.shared(b) == a.covered(b) ==> a.overlap(b) == 1 as real,
{
    if a.covered(b) > 0 as real {
        lemma_fraction(a.shared(b), a.covered(b));
    } else {
        lemma_fraction(a.shared(b), 1 as real);
    }
}

proof fn lemma_expand(a: real, b: real, c: real, d: real)
    ensures
        (a + b) * (c + d) == a * c + b * c + a * d + b * d,
{
    lemma_split(a + b, c, d);
    lemma_split(c, a, b);
    lemma_split(d, a, b);
}

/// Two rectangles with a common part cover no more than the sums of their
/// sides less the common ones.
proof fn lemma_union_within(c: (real, real), p: real, r: real, t: real, q: real)
    requires
        p >= 0 as real,
        r >= 0 as real,
        t >= 0 as real,
        q >= 0 as real,
    ensures
        (c.0 + p) * (c.1 + t) + (c.0 + r) * (c.1 + q) - c.0 * c.1 <= (c.0 + p + r) * (c.1 + t + q),
{
    let (w, h) = c;
    lemma_expand(w, r, h, q);
    lemma_expand(w + p, r, h + t, q);
    lemma_split(q, w, p);
    lemma_split(r, h, t);
    lemma_products(p, q, p, q);
    lemma_products(r, t, r, t);
}

proof fn lemma_no_width(a: real, b: real)
    by (nonlinear_arith)
    ensures
        a == 0 as real ==> a * b == 0 as real,
        b == 0 as real ==> a * b == 0 as real,
{
}

/// Two boxes cover no more than the box around them.
proof fn lemma_enclosed(a: Corners, b: Corners)
    ensures
        0 as real <= a.covered(b) <= a.enclosed(b),
        a.enclosed(b) == b.enclosed(a),
        a.enclosed(a) == a.area(),
{
    lemma_shared(a, b);
    lemma_shared(b, a);
    let (aw, ah) = (length(a.left, a.right), length(a.top, a.bottom));
    let (bw, bh) = (length(b.left, b.right), length(b.top, b.bottom));
    let w = length(lesser(a.left, b.left), greater(a.right, b.right));
    let h = length(lesser(a.top, b.top), greater(a.bottom, b.bottom));
    lemma_no_width(aw, ah);
    lemma_no_width(bw, bh);
    lemma_products(aw, ah, w, h);
    lemma_products(bw, bh, w, h);
    if aw > 0 as real && ah > 0 as real && bw > 0 as real && bh > 0 as real {
        let cw = length(greater(a.left, b.left), lesser(a.right, b.right));
        let ch = length(greater(a.top, b.top), lesser(a.bottom, b.bottom));
        let (p, r, t, q) = (aw - cw, bw - cw, ah - ch, bh - ch);
        lemma_union_within((cw, ch), p, r, t, q);
        assert(cw + p == aw && cw + r == bw && ch + t == ah && ch + q == bh);
        lemma_products(cw + p + r, ch + t + q, w, h);
    }
}

/// The generalized overlap of two boxes does not depend on their order. It is
/// at most their overlap, and lies between minus one and one. It is zero where
/// the box around them has no area, and negative where they share nothing and
/// do not cover the box around them. A box overlaps itself wholly where it has
/// an area, and not at all where it has none.
pub proof fn generalized_overlaps_are_symmetric_and_bounded(a: Corners, b: Corners)
    ensures
        a.generalized(b) == b.generalized(a),
        -1 as real <= a.generalized(b) <= a.overlap(b) <= 1 as real,
        a.enclosed(b) == 0 as real ==> a.generalized(b) == 0 as real,
        a.shared(b) == 0 as real && a.covered(b) < a.enclosed(b) ==> a.generalized(b) < 0 as real,
        a.generalized(a) == a.overlap(a),
{
    overlaps_are_symmetric_fractions(a, b);
    overlaps_are_symmetric_fractions(b, a);
    lemma_shared(a, b);
    lemma_shared(b, a);
    lemma_shared(a, a);
    lemma_enclosed(a, b);
    lemma_enclosed(b, a);
    lemma_enclosed(a, a);
    lemma_penalty(a, b);
    lemma_penalty(a, a);
}

/// The part of the enclosing box that neither box covers, as a fraction.
proof fn lemma_penalty(a: Corners, b: Corners)
    requires
        0 as real <= a.covered(b) <= a.enclosed(b),
    ensures
        0 as real <= a.overlap(b) - a.generalized(b) <= 1 as real,
        a.covered(b) == a.enclosed(b) ==> a.generalized(b) == a.overlap(b),
        a.covered(b) < a.enclosed(b) ==> a.generalized(b) < a.overlap(b),
{
    let spare = a.enclosed(b) - a.covered(b);
    if a.enclosed(b) > 0 as real {
        lemma_fraction(spare, a.enclosed(b));
        lemma_positive_fraction(spare, a.enclosed(b));
    } else {
        lemma_fraction(spare, 1 as real);
    }
}

proof fn lemma_positive_fraction(a: real, b: real)
    by (nonlinear_arith)
    requires
        b > 0 as real,
    ensures
        a > 0 as real ==> a / b > 0 as real,
{
}

/// Products distribute over sums.
pub(crate) proof fn lemma_split(s: real, a: real, b: real)
    by (nonlinear_arith)
    ensures
        s * (a + b) == s * a + s * b,
        s * (a - b) == s * a - s * b,
        (a + b) * s == a * s + b * s,
{
}

/// Factors can be exchanged.
pub(crate) proof fn lemma_regroup(s: real, a: real, b: real)
    by (nonlinear_arith)
    ensures
        (s * a) * b == s * (a * b),
        b * (s * a) == s * (b * a),
{
}

} // verus!
