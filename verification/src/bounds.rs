//! Axis-aligned boxes in three dimensions, over integer coordinates.

use vstd::prelude::*;

verus! {

/// An axis-aligned box, given by its least and greatest coordinate on each
/// of the three axes.
///
/// Any two values make a box; one with `min > max` on some axis holds no
/// point. Only the order of coordinates matters to the operations here, so a
/// caller with coordinates of another ordered kind may number them in order.
#[derive(PartialEq, Eq, Debug, Clone, Copy)]
pub struct Bounds {
    pub min: [i32; 3],
    pub max: [i32; 3],
}

/// The smaller of two coordinates.
pub open spec fn lesser(a: i32, b: i32) -> i32 {
    if a <= b {
        a
    } else {
        b
    }
}

/// The larger of two coordinates.
pub open spec fn greater(a: i32, b: i32) -> i32 {
    if a >= b {
        a
    } else {
        b
    }
}

/// The number that stands for a coordinate written as a sign and a
/// magnitude: the top bit of `bits` is the sign, the other 31 bits are the
/// magnitude, and a larger magnitude means a value further from zero.
/// Values without the sign get their magnitude; values with it get numbers
/// below zero, the further from zero the smaller.
pub open spec fn ordinal_of(bits: u32) -> int {
    if bits < 0x8000_0000 {
        bits as int
    } else {
        -((bits - 0x8000_0000) as int) - 1
    }
}

/// In sign and magnitude, `a` stands for less than `b`. Zero with the sign
/// counts as less than zero without it.
pub open spec fn precedes(a: u32, b: u32) -> bool {
    if a >= 0x8000_0000 && b >= 0x8000_0000 {
        a > b
    } else if a >= 0x8000_0000 {
        true
    } else if b >= 0x8000_0000 {
        false
    } else {
        a < b
    }
}

/// Numbers a coordinate written as a sign and a magnitude, so that the
/// numbers are ordered as the coordinates are.
pub fn ordinal(bits: u32) -> (r: i32)
    ensures
        r == ordinal_of(bits),
{
    if bits < 0x8000_0000 {
        bits as i32
    } else {
        -((bits - 0x8000_0000) as i32) - 1
    }
}

/// The coordinate, as a sign and a magnitude, that has the number `key`.
pub fn from_ordinal(key: i32) -> (bits: u32)
    ensures
        ordinal_of(bits) == key,
{
    if key >= 0 {
        key as u32
    } else {
        0x8000_0000 + ((-(key + 1)) as u32)
    }
}

/// The numbers are ordered as the coordinates are, and no two coordinates
/// share a number.
pub proof fn lemma_ordinal_order(a: u32, b: u32)
    ensures
        ordinal_of(a) < ordinal_of(b) <==> precedes(a, b),
        ordinal_of(a) == ordinal_of(b) <==> a == b,
        i32::MIN <= ordinal_of(a) <= i32::MAX,
{
}

impl Bounds {
    /// The two boxes have the same extent on every axis.
    pub open spec fn same(self, other: Bounds) -> bool {
        forall|axis: int|
            0 <= axis < 3 ==> self.min[axis] == other.min[axis] && self.max[axis]
                == other.max[axis]
    }

    /// Every point of `other` lies in `self`.
    pub open spec fn encloses(self, other: Bounds) -> bool {
        forall|axis: int|
            0 <= axis < 3 ==> self.min[axis] <= other.min[axis] && other.max[axis]
                <= self.max[axis]
    }

    /// The two boxes share more than a boundary: on every axis each begins
    /// strictly before the other ends.
    pub open spec fn overlaps(self, other: Bounds) -> bool {
        forall|axis: int|
            0 <= axis < 3 ==> self.max[axis] > other.min[axis] && self.min[axis]
                < other.max[axis]
    }

    /// `self` is the smallest box that encloses both `a` and `b`.
    pub open spec fn joins(self, a: Bounds, b: Bounds) -> bool {
        forall|axis: int|
            0 <= axis < 3 ==> self.min[axis] == lesser(a.min[axis], b.min[axis]) && self.max[axis]
                == greater(a.max[axis], b.max[axis])
    }

    /// On the given axis, `self` reaches exactly as far as the first `count`
    /// of `boxes` do (as far as the null box where `count` is zero).
    pub open spec fn is_hull_on(self, boxes: Seq<Bounds>, count: int, axis: int) -> bool {
        &&& forall|k: int| 0 <= k < count ==> self.min[axis] <= (#[trigger] boxes[k]).min[axis]
        &&& forall|k: int| 0 <= k < count ==> self.max[axis] >= (#[trigger] boxes[k]).max[axis]
        &&& count <= 0 ==> self.min[axis] == i32::MAX && self.max[axis] == i32::MIN
        &&& count > 0 ==> exists|k: int|
            0 <= k < count && self.min[axis] == (#[trigger] boxes[k]).min[axis]
        &&& count > 0 ==> exists|k: int|
            0 <= k < count && self.max[axis] == (#[trigger] boxes[k]).max[axis]
    }

    /// `self` is the smallest box that encloses the first `count` of `boxes`
    /// (the null box where `count` is zero).
    pub open spec fn is_hull_of(self, boxes: Seq<Bounds>, count: int) -> bool {
        forall|axis: int| 0 <= axis < 3 ==> #[trigger] self.is_hull_on(boxes, count, axis)
    }

    /// `self` is the null box.
    pub open spec fn is_null(self) -> bool {
        forall|axis: int|
            0 <= axis < 3 ==> self.min[axis] == i32::MAX && self.max[axis] == i32::MIN
    }

    /// The box that holds nothing: joining it to any box gives that box.
    pub fn null() -> (r: Bounds)
        ensures
            r.is_null(),
    {
        Bounds { min: [i32::MAX, i32::MAX, i32::MAX], max: [i32::MIN, i32::MIN, i32::MIN] }
    }

    /// Makes the box with the given corners.
    pub fn new(min: [i32; 3], max: [i32; 3]) -> (r: Bounds)
        ensures
            r.min == min,
            r.max == max,
    {
        Bounds { min, max }
    }

    /// Grows `self` to the smallest box that encloses what it was and `other`.
    pub fn update(&mut self, other: &Bounds)
        ensures
            final(self).joins(*old(self), *other),
    {
        let mut i: usize = 0;
        while i < 3
            invariant
                i <= 3,
                forall|axis: int|
                    0 <= axis < i ==> self.min[axis] == lesser(old(self).min[axis], other.min[axis])
                        && self.max[axis] == greater(old(self).max[axis], other.max[axis]),
                forall|axis: int|
                    i <= axis < 3 ==> self.min[axis] == old(self).min[axis] && self.max[axis] == old(
                        self,
                    ).max[axis],
            decreases 3 - i,
        {
            if other.min[i] < self.min[i] {
                self.min[i] = other.min[i];
            }
            if other.max[i] > self.max[i] {
                self.max[i] = other.max[i];
            }
            i += 1;
        }
    }

    /// Whether the two boxes overlap. Boxes that only touch do not.
    pub fn intersects(&self, other: &Bounds) -> (r: bool)
        ensures
            r == self.overlaps(*other),
    {
        let mut i: usize = 0;
        while i < 3
            invariant
                i <= 3,
                forall|axis: int|
                    0 <= axis < i ==> self.max[axis] > other.min[axis] && self.min[axis]
                        < other.max[axis],
            decreases 3 - i,
        {
            if !(self.max[i] > other.min[i] && self.min[i] < other.max[i]) {
                return false;
            }
            i += 1;
        }
        true
    }

    /// The smallest box that encloses every box of `boxes`: the null box
    /// where there is none.
    pub fn from_iter(boxes: &[Bounds]) -> (r: Bounds)
        ensures
            r.is_hull_of(boxes@, boxes@.len() as int),
    {
        let mut acc: Bounds = Bounds::null();
        let mut i: usize = 0;
        while i < boxes.len()
            invariant
                i <= boxes@.len(),
                acc.is_hull_of(boxes@, i as int),
            decreases boxes@.len() - i,
        {
            let ghost before: Bounds = acc;
            acc.update(&boxes[i]);
            proof {
                assert forall|axis: int| 0 <= axis < 3 implies #[trigger] acc.is_hull_on(
                    boxes@,
                    i + 1,
                    axis,
                ) by {
                    assert(before.is_hull_on(boxes@, i as int, axis));
                    if acc.min[axis] == boxes@[i as int].min[axis] {
                    } else {
                        let k: int = choose|k: int|
                            0 <= k < i && before.min[axis] == (#[trigger] boxes@[k]).min[axis];
                        assert(acc.min[axis] == boxes@[k].min[axis]);
                    }
                    if acc.max[axis] == boxes@[i as int].max[axis] {
                    } else {
                        let k: int = choose|k: int|
                            0 <= k < i && before.max[axis] == (#[trigger] boxes@[k]).max[axis];
                        assert(acc.max[axis] == boxes@[k].max[axis]);
                    }
                }
            }
            i += 1;
        }
        acc
    }
}

/// Boxes with the same extent on every axis are one box.
pub proof fn lemma_same_is_equal(a: Bounds, b: Bounds)
    requires
        a.same(b),
    ensures
        a == b,
{
    assert(a.min =~= b.min);
    assert(a.max =~= b.max);
}

/// Joining a box to itself changes nothing.
pub proof fn lemma_join_idempotent(r: Bounds, a: Bounds)
    requires
        r.joins(a, a),
    ensures
        r == a,
{
    lemma_same_is_equal(r, a);
}

/// The join of two boxes does not depend on their order.
pub proof fn lemma_join_commutative(r: Bounds, a: Bounds, b: Bounds)
    ensures
        r.joins(a, b) == r.joins(b, a),
{
}

/// Joining three boxes gives the same box however they are grouped.
pub proof fn lemma_join_associative(
    ab: Bounds,
    bc: Bounds,
    left: Bounds,
    right: Bounds,
    a: Bounds,
    b: Bounds,
    c: Bounds,
)
    requires
        ab.joins(a, b),
        bc.joins(b, c),
        left.joins(ab, c),
        right.joins(a, bc),
    ensures
        left == right,
{
    lemma_same_is_equal(left, right);
}

/// Joining the null box to a box gives that box.
pub proof fn lemma_join_null(r: Bounds, null: Bounds, a: Bounds)
    requires
        null.is_null(),
        r.joins(null, a) || r.joins(a, null),
    ensures
        r == a,
{
    lemma_same_is_equal(r, a);
}

/// The join of two boxes encloses both.
pub proof fn lemma_join_encloses(r: Bounds, a: Bounds, b: Bounds)
    requires
        r.joins(a, b),
    ensures
        r.encloses(a),
        r.encloses(b),
{
}

/// What overlaps a box overlaps every box around it.
pub proof fn lemma_overlap_widens(outer: Bounds, inner: Bounds, other: Bounds)
    requires
        outer.encloses(inner),
        inner.overlaps(other),
    ensures
        outer.overlaps(other),
{
}

/// The smallest box around some boxes is the same in whatever order they
/// are taken: it is determined by what it has to enclose.
pub proof fn lemma_hull_unique(r: Bounds, s: Bounds, boxes: Seq<Bounds>, count: int)
    requires
        r.is_hull_of(boxes, count),
        s.is_hull_of(boxes, count),
    ensures
        r == s,
{
    assert forall|axis: int| 0 <= axis < 3 implies r.min[axis] == s.min[axis] && r.max[axis]
        == s.max[axis] by {
        assert(r.is_hull_on(boxes, count, axis));
        assert(s.is_hull_on(boxes, count, axis));
    }
    lemma_same_is_equal(r, s);
}

/// The smallest box around some boxes does not depend on the order in
/// which they are given.
pub proof fn lemma_hull_any_order(r: Bounds, boxes: Seq<Bounds>, others: Seq<Bounds>)
    requires
        r.is_hull_of(boxes, boxes.len() as int),
        boxes.to_multiset() == others.to_multiset(),
    ensures
        r.is_hull_of(others, others.len() as int),
{
    boxes.to_multiset_ensures();
    others.to_multiset_ensures();
    assert forall|axis: int| 0 <= axis < 3 implies #[trigger] r.is_hull_on(
        others,
        others.len() as int,
        axis,
    ) by {
        assert(r.is_hull_on(boxes, boxes.len() as int, axis));
        assert forall|k: int| 0 <= k < others.len() implies r.min[axis] <= (
        #[trigger] others[k]).min[axis] && r.max[axis] >= others[k].max[axis] by {
            assert(boxes.to_multiset().count(others[k]) > 0);
            let i: int = choose|i: int| 0 <= i < boxes.len() && boxes[i] == others[k];
        }
        if others.len() > 0 {
            let i: int = choose|i: int|
                0 <= i < boxes.len() && r.min[axis] == (#[trigger] boxes[i]).min[axis];
            assert(others.to_multiset().count(boxes[i]) > 0);
            let k: int = choose|k: int| 0 <= k < others.len() && others[k] == boxes[i];
            let j: int = choose|j: int|
                0 <= j < boxes.len() && r.max[axis] == (#[trigger] boxes[j]).max[axis];
            assert(others.to_multiset().count(boxes[j]) > 0);
            let l: int = choose|l: int| 0 <= l < others.len() && others[l] == boxes[j];
        }
    }
}

} // verus!
