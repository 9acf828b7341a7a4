//! Which pairs of boxes overlap: what a search for them has to report, and
//! the order in which a search over an arrangement of the boxes reports them.

use crate::bounds::Bounds;
use vstd::prelude::*;

verus! {

/// Some item of `items` carries the number `a`.
pub open spec fn names(items: Seq<(usize, Bounds)>, a: int) -> bool {
    exists|k: int| 0 <= k < items.len() && (#[trigger] items[k]).0 == a
}

/// `items` holds every box of `boxes` once, each with its place in `boxes`,
/// in some order.
pub open spec fn is_arrangement(items: Seq<(usize, Bounds)>, boxes: Seq<Bounds>) -> bool {
    &&& items.len() == boxes.len()
    &&& forall|k: int|
        0 <= k < items.len() ==> (#[trigger] items[k]).0 < boxes.len() && items[k].1
            == boxes[items[k].0 as int]
    &&& forall|k: int, l: int|
        0 <= k < l < items.len() ==> (#[trigger] items[k]).0 != (#[trigger] items[l]).0
    &&& forall|a: int| 0 <= a < boxes.len() ==> #[trigger] names(items, a)
}

/// The pairs that the item at place `q` forms with the items at the places
/// from `lo` up to, but without, `hi` that stand behind it and whose boxes
/// overlap its box, in the order of those places. A pair names the two items
/// by their numbers, that of `q` first.
pub open spec fn partners(items: Seq<(usize, Bounds)>, q: int, lo: int, hi: int) -> Seq<
    (usize, usize),
>
    decreases hi - lo,
{
    if hi <= lo {
        Seq::empty()
    } else if hi - 1 > q && items[hi - 1].1.overlaps(items[q].1) {
        partners(items, q, lo, hi - 1).push((items[q].0, items[hi - 1].0))
    } else {
        partners(items, q, lo, hi - 1)
    }
}

/// The pairs that the first `count` items form with items behind them.
pub open spec fn overlapping_pairs_upto(items: Seq<(usize, Bounds)>, count: int) -> Seq<
    (usize, usize),
>
    decreases count,
{
    if count <= 0 {
        Seq::empty()
    } else {
        overlapping_pairs_upto(items, count - 1) + partners(
            items,
            count - 1,
            0,
            items.len() as int,
        )
    }
}

/// Every pair of items whose boxes overlap, once: for each item in turn, the
/// pairs that it forms with the items behind it.
pub open spec fn overlapping_pairs(items: Seq<(usize, Bounds)>) -> Seq<(usize, usize)> {
    overlapping_pairs_upto(items, items.len() as int)
}

/// The partners of an item over a run are those over its first part followed
/// by those over the rest.
pub proof fn lemma_partners_split(items: Seq<(usize, Bounds)>, q: int, lo: int, mid: int, hi: int)
    requires
        lo <= mid <= hi,
    ensures
        partners(items, q, lo, hi) == partners(items, q, lo, mid) + partners(items, q, mid, hi),
    decreases hi - mid,
{
    if hi == mid {
        assert(partners(items, q, lo, mid) + partners(items, q, mid, hi) =~= partners(
            items,
            q,
            lo,
            mid,
        ));
    } else {
        lemma_partners_split(items, q, lo, mid, hi - 1);
        assert(partners(items, q, lo, hi) =~= partners(items, q, lo, mid) + partners(
            items,
            q,
            mid,
            hi,
        ));
    }
}

/// An item has no partners in a run in which no box behind it overlaps its box.
pub proof fn lemma_partners_none(items: Seq<(usize, Bounds)>, q: int, lo: int, hi: int)
    requires
        forall|j: int| lo <= j < hi && j > q ==> !(#[trigger] items[j]).1.overlaps(items[q].1),
    ensures
        partners(items, q, lo, hi) == Seq::<(usize, usize)>::empty(),
    decreases hi - lo,
{
    if hi > lo {
        lemma_partners_none(items, q, lo, hi - 1);
    }
}

/// The numbers of the pairs in one row: first the two of the first pair,
/// then the two of the second, and so on.
pub open spec fn flattened(pairs: Seq<(usize, usize)>) -> Seq<usize> {
    Seq::new(
        2 * pairs.len(),
        |i: int|
            if i % 2 == 0 {
                pairs[i / 2].0
            } else {
                pairs[i / 2].1
            },
    )
}

/// Writes the pairs as one row of numbers, two for each pair.
pub fn flatten(pairs: &[(usize, usize)]) -> (flat: Vec<usize>)
    ensures
        flat@ == flattened(pairs@),
{
    let mut flat: Vec<usize> = Vec::new();
    let mut i: usize = 0;
    while i < pairs.len()
        invariant
            i <= pairs@.len(),
            flat@ == flattened(pairs@.take(i as int)),
        decreases pairs@.len() - i,
    {
        flat.push(pairs[i].0);
        flat.push(pairs[i].1);
        assert(flat@ =~= flattened(pairs@.take(i + 1)));
        i += 1;
    }
    assert(pairs@.take(pairs@.len() as int) =~= pairs@);
    flat
}

/// A pair with its smaller number first.
pub open spec fn normalized(p: (usize, usize)) -> (usize, usize) {
    if p.0 <= p.1 {
        p
    } else {
        (p.1, p.0)
    }
}

/// The boxes in their own order, each with its place.
pub open spec fn numbered(boxes: Seq<Bounds>) -> Seq<(usize, Bounds)> {
    Seq::new(boxes.len(), |i: int| (i as usize, boxes[i]))
}

/// What comparing every box with every later one finds: the pairs of
/// places, the smaller first, whose boxes overlap.
pub open spec fn naive_pairs(boxes: Seq<Bounds>) -> Seq<(usize, usize)> {
    overlapping_pairs(numbered(boxes))
}

/// Some pair of `pairs` names `a` and `b`, in either order.
pub open spec fn reported(pairs: Seq<(usize, usize)>, a: usize, b: usize) -> bool {
    exists|t: int| 0 <= t < pairs.len() && normalized(#[trigger] pairs[t]) == (a, b)
}

/// `pairs` reports the overlaps among `boxes`: every pair names two
/// different boxes that overlap, every two boxes that overlap are named by
/// a pair, and no two pairs name the same two boxes.
pub open spec fn is_overlap_report(pairs: Seq<(usize, usize)>, boxes: Seq<Bounds>) -> bool {
    &&& forall|t: int|
        0 <= t < pairs.len() ==> {
            &&& (#[trigger] pairs[t]).0 < boxes.len()
            &&& pairs[t].1 < boxes.len()
            &&& pairs[t].0 != pairs[t].1
            &&& boxes[pairs[t].0 as int].overlaps(boxes[pairs[t].1 as int])
        }
    &&& forall|a: usize, b: usize|
        a < b < boxes.len() && boxes[a as int].overlaps(boxes[b as int]) ==> #[trigger] reported(
            pairs,
            a,
            b,
        )
    &&& forall|s: int, t: int|
        0 <= s < t < pairs.len() ==> normalized(#[trigger] pairs[s]) != normalized(
            #[trigger] pairs[t],
        )
}

/// The places from `lo` up to, but without, `hi` whose items are partners
/// of the item at place `q`, in their order.
pub open spec fn partner_places(items: Seq<(usize, Bounds)>, q: int, lo: int, hi: int) -> Seq<int>
    decreases hi - lo,
{
    if hi <= lo {
        Seq::empty()
    } else if hi - 1 > q && items[hi - 1].1.overlaps(items[q].1) {
        partner_places(items, q, lo, hi - 1).push(hi - 1)
    } else {
        partner_places(items, q, lo, hi - 1)
    }
}

/// The partners of an item are the items at its partner places, which rise
/// and leave out no place whose box overlaps.
pub proof fn lemma_partner_places(items: Seq<(usize, Bounds)>, q: int, lo: int, hi: int)
    ensures
        partner_places(items, q, lo, hi).len() == partners(items, q, lo, hi).len(),
        forall|t: int|
            0 <= t < partner_places(items, q, lo, hi).len() ==> {
                let j = #[trigger] partner_places(items, q, lo, hi)[t];
                &&& lo <= j < hi
                &&& q < j
                &&& items[j].1.overlaps(items[q].1)
                &&& partners(items, q, lo, hi)[t] == (items[q].0, items[j].0)
            },
        forall|s: int, t: int|
            0 <= s < t < partner_places(items, q, lo, hi).len() ==> partner_places(
                items,
                q,
                lo,
                hi,
            )[s] < partner_places(items, q, lo, hi)[t],
        forall|j: int|
            lo <= j < hi && q < j && (#[trigger] items[j]).1.overlaps(items[q].1)
                ==> partner_places(items, q, lo, hi).contains(j),
    decreases hi - lo,
{
    if hi > lo {
        lemma_partner_places(items, q, lo, hi - 1);
        let before = partner_places(items, q, lo, hi - 1);
        let now = partner_places(items, q, lo, hi);
        assert forall|j: int|
            lo <= j < hi && q < j && (#[trigger] items[j]).1.overlaps(
                items[q].1,
            ) implies now.contains(j) by {
            if j < hi - 1 {
                assert(before.contains(j));
                let t: int = choose|t: int| 0 <= t < before.len() && before[t] == j;
                assert(now[t] == j);
            } else {
                assert(now[now.len() - 1] == j);
            }
        }
    }
}

/// A pair of places, the first before the second.
pub open spec fn rises(p: (int, int), r: (int, int)) -> bool {
    p.0 < r.0 || (p.0 == r.0 && p.1 < r.1)
}

/// The pairs of places that stand for the pairs of the first `count` items.
pub open spec fn pair_places_upto(items: Seq<(usize, Bounds)>, count: int) -> Seq<(int, int)>
    decreases count,
{
    if count <= 0 {
        Seq::empty()
    } else {
        pair_places_upto(items, count - 1) + partner_places(
            items,
            count - 1,
            0,
            items.len() as int,
        ).map_values(|j: int| (count - 1, j))
    }
}

/// The pairs of the first `count` items are the items at the pairs of places
/// above, which rise and leave out no two places whose boxes overlap.
pub proof fn lemma_pair_places(items: Seq<(usize, Bounds)>, count: int)
    requires
        0 <= count <= items.len(),
    ensures
        pair_places_upto(items, count).len() == overlapping_pairs_upto(items, count).len(),
        forall|t: int|
            0 <= t < pair_places_upto(items, count).len() ==> {
                let p = #[trigger] pair_places_upto(items, count)[t];
                &&& 0 <= p.0 < count
                &&& p.0 < p.1 < items.len()
                &&& items[p.1].1.overlaps(items[p.0].1)
                &&& overlapping_pairs_upto(items, count)[t] == (items[p.0].0, items[p.1].0)
            },
        forall|s: int, t: int|
            0 <= s < t < pair_places_upto(items, count).len() ==> rises(
                pair_places_upto(items, count)[s],
                pair_places_upto(items, count)[t],
            ),
        forall|q: int, j: int|
            0 <= q < count && q < j < items.len() && (#[trigger] items[j]).1.overlaps(
                (#[trigger] items[q]).1,
            ) ==> pair_places_upto(items, count).contains((q, j)),
    decreases count,
{
    if count > 0 {
        let q: int = count - 1;
        let n: int = items.len() as int;
        lemma_pair_places(items, q);
        lemma_partner_places(items, q, 0, n);
        let before = pair_places_upto(items, q);
        let row = partner_places(items, q, 0, n).map_values(|j: int| (q, j));
        let now = pair_places_upto(items, count);
        let pairs_before = overlapping_pairs_upto(items, q);
        let pairs_row = partners(items, q, 0, n);
        let pairs_now = overlapping_pairs_upto(items, count);
        assert(now == before + row);
        assert(pairs_now == pairs_before + pairs_row);
        assert forall|t: int| 0 <= t < now.len() implies {
            let p = #[trigger] now[t];
            &&& 0 <= p.0 < count
            &&& p.0 < p.1 < items.len()
            &&& items[p.1].1.overlaps(items[p.0].1)
            &&& pairs_now[t] == (items[p.0].0, items[p.1].0)
        } by {
            if t < before.len() {
                assert(now[t] == before[t]);
                assert(pairs_now[t] == pairs_before[t]);
            } else {
                let u: int = t - before.len();
                assert(now[t] == row[u]);
                assert(pairs_now[t] == pairs_row[u]);
                assert(row[u] == (q, partner_places(items, q, 0, n)[u]));
            }
        }
        assert forall|s: int, t: int| 0 <= s < t < now.len() implies rises(now[s], now[t]) by {
            if t < before.len() {
                assert(now[s] == before[s] && now[t] == before[t]);
            } else if s < before.len() {
                assert(now[s] == before[s]);
                assert(now[t] == row[t - before.len()]);
            } else {
                let u: int = s - before.len();
                let v: int = t - before.len();
                assert(now[s] == row[u] && now[t] == row[v]);
                assert(row[u] == (q, partner_places(items, q, 0, n)[u]));
                assert(row[v] == (q, partner_places(items, q, 0, n)[v]));
            }
        }
        assert forall|r: int, j: int|
            0 <= r < count && r < j < items.len() && (#[trigger] items[j]).1.overlaps(
                (#[trigger] items[r]).1,
            ) implies now.contains((r, j)) by {
            if r < q {
                assert(before.contains((r, j)));
                let t: int = choose|t: int| 0 <= t < before.len() && before[t] == (r, j);
                assert(now[t] == (r, j));
            } else {
                let places = partner_places(items, q, 0, n);
                assert(places.contains(j));
                let u: int = choose|u: int| 0 <= u < places.len() && places[u] == j;
                assert(row[u] == (q, j));
                assert(now[before.len() + u] == (r, j));
            }
        }
    }
}

/// The search over any arrangement of the boxes reports their overlaps:
/// whatever the order of the items, each two boxes that overlap are found
/// once, and nothing else is.
pub proof fn lemma_pairs_report_overlaps(items: Seq<(usize, Bounds)>, boxes: Seq<Bounds>)
    requires
        is_arrangement(items, boxes),
    ensures
        is_overlap_report(overlapping_pairs(items), boxes),
{
    let n: int = items.len() as int;
    let pairs = overlapping_pairs(items);
    let places = pair_places_upto(items, n);
    lemma_pair_places(items, n);
    assert forall|t: int| 0 <= t < pairs.len() implies {
        &&& (#[trigger] pairs[t]).0 < boxes.len()
        &&& pairs[t].1 < boxes.len()
        &&& pairs[t].0 != pairs[t].1
        &&& boxes[pairs[t].0 as int].overlaps(boxes[pairs[t].1 as int])
    } by {
        let p = places[t];
        assert(pairs[t] == (items[p.0].0, items[p.1].0));
        assert(items[p.0].1 == boxes[items[p.0].0 as int]);
        assert(items[p.1].1 == boxes[items[p.1].0 as int]);
        lemma_overlaps_symmetric(items[p.1].1, items[p.0].1);
    }
    assert forall|a: usize, b: usize|
        a < b < boxes.len() && boxes[a as int].overlaps(boxes[b as int]) implies #[trigger] reported(
        pairs,
        a,
        b,
    ) by {
        assert(names(items, a as int));
        assert(names(items, b as int));
        let ka: int = choose|k: int| 0 <= k < items.len() && (#[trigger] items[k]).0 == a;
        let kb: int = choose|k: int| 0 <= k < items.len() && (#[trigger] items[k]).0 == b;
        lemma_overlaps_symmetric(boxes[a as int], boxes[b as int]);
        let q: int = if ka < kb {
            ka
        } else {
            kb
        };
        let j: int = if ka < kb {
            kb
        } else {
            ka
        };
        assert(items[j].1.overlaps(items[q].1));
        assert(places.contains((q, j)));
        let t: int = choose|t: int| 0 <= t < places.len() && places[t] == (q, j);
        assert(pairs[t] == (items[q].0, items[j].0));
        assert(normalized(pairs[t]) == (a, b));
    }
    assert forall|s: int, t: int| 0 <= s < t < pairs.len() implies normalized(#[trigger] pairs[s])
        != normalized(#[trigger] pairs[t]) by {
        let p = places[s];
        let r = places[t];
        assert(rises(p, r));
        assert(pairs[s] == (items[p.0].0, items[p.1].0));
        assert(pairs[t] == (items[r.0].0, items[r.1].0));
        if normalized(pairs[s]) == normalized(pairs[t]) {
            lemma_same_number_same_place(items, boxes, p.0, r.0);
            lemma_same_number_same_place(items, boxes, p.0, r.1);
            lemma_same_number_same_place(items, boxes, p.1, r.0);
            lemma_same_number_same_place(items, boxes, p.1, r.1);
            assert(false);
        }
    }
}

/// Overlapping does not depend on which of the two boxes is asked.
pub proof fn lemma_overlaps_symmetric(a: Bounds, b: Bounds)
    ensures
        a.overlaps(b) == b.overlaps(a),
{
}

/// In an arrangement two places with the same number are one place.
proof fn lemma_same_number_same_place(
    items: Seq<(usize, Bounds)>,
    boxes: Seq<Bounds>,
    k: int,
    l: int,
)
    requires
        is_arrangement(items, boxes),
        0 <= k < items.len(),
        0 <= l < items.len(),
    ensures
        items[k].0 == items[l].0 ==> k == l,
{
    if k < l {
        assert(items[k].0 != items[l].0);
    } else if l < k {
        assert(items[l].0 != items[k].0);
    }
}

/// The pairs of places, smaller first, whose boxes overlap.
pub open spec fn overlap_set(boxes: Seq<Bounds>) -> Set<(usize, usize)> {
    Set::new(
        |p: (usize, usize)| p.0 < p.1 < boxes.len() && boxes[p.0 as int].overlaps(boxes[p.1 as int]),
    )
}

/// The pairs of a report, each with its smaller number first, are the pairs
/// of places whose boxes overlap.
pub proof fn lemma_report_set(pairs: Seq<(usize, usize)>, boxes: Seq<Bounds>)
    requires
        is_overlap_report(pairs, boxes),
    ensures
        pairs.map_values(|p: (usize, usize)| normalized(p)).to_set() == overlap_set(boxes),
        pairs.map_values(|p: (usize, usize)| normalized(p)).no_duplicates(),
{
    let sorted = pairs.map_values(|p: (usize, usize)| normalized(p));
    assert forall|p: (usize, usize)| sorted.to_set().contains(p) == overlap_set(boxes).contains(
        p,
    ) by {
        if sorted.to_set().contains(p) {
            let t: int = choose|t: int| 0 <= t < sorted.len() && sorted[t] == p;
            assert(p == normalized(pairs[t]));
            lemma_overlaps_symmetric(boxes[pairs[t].0 as int], boxes[pairs[t].1 as int]);
        }
        if overlap_set(boxes).contains(p) {
            assert(reported(pairs, p.0, p.1));
            let t: int = choose|t: int|
                0 <= t < pairs.len() && normalized(#[trigger] pairs[t]) == (p.0, p.1);
            assert(sorted[t] == p);
        }
    }
    assert(sorted.to_set() =~= overlap_set(boxes));
    assert forall|s: int, t: int|
        0 <= s < sorted.len() && 0 <= t < sorted.len() && s != t implies sorted[s]
        != sorted[t] by {
        assert(sorted[s] == normalized(pairs[s]));
        assert(sorted[t] == normalized(pairs[t]));
        if s < t {
            assert(normalized(pairs[s]) != normalized(pairs[t]));
        } else {
            assert(normalized(pairs[t]) != normalized(pairs[s]));
        }
    }
}

/// The boxes in their own order are an arrangement of themselves.
pub proof fn lemma_numbered_is_arrangement(boxes: Seq<Bounds>)
    requires
        boxes.len() <= usize::MAX,
    ensures
        is_arrangement(numbered(boxes), boxes),
{
    let items = numbered(boxes);
    assert forall|a: int| 0 <= a < boxes.len() implies #[trigger] names(items, a) by {
        assert(items[a].0 == a);
    }
}

/// The search over any arrangement of the boxes finds what comparing every
/// box with every later one finds: once each pair is written with its
/// smaller number first, the two results hold the same pairs, and the
/// search holds none of them twice.
pub proof fn lemma_search_matches_naive(items: Seq<(usize, Bounds)>, boxes: Seq<Bounds>)
    requires
        is_arrangement(items, boxes),
        boxes.len() <= usize::MAX,
    ensures
        overlapping_pairs(items).map_values(|p: (usize, usize)| normalized(p)).to_set()
            == naive_pairs(boxes).to_set(),
        overlapping_pairs(items).map_values(|p: (usize, usize)| normalized(p)).no_duplicates(),
{
    lemma_pairs_report_overlaps(items, boxes);
    lemma_report_set(overlapping_pairs(items), boxes);
    lemma_numbered_is_arrangement(boxes);
    lemma_pairs_report_overlaps(numbered(boxes), boxes);
    let naive = naive_pairs(boxes);
    lemma_report_set(naive, boxes);
    lemma_naive_is_normalized(boxes);
    assert(naive.map_values(|p: (usize, usize)| normalized(p)) =~= naive);
}

/// Comparing every box with every later one gives pairs with the smaller
/// number first.
pub proof fn lemma_naive_is_normalized(boxes: Seq<Bounds>)
    requires
        boxes.len() <= usize::MAX,
    ensures
        forall|t: int|
            0 <= t < naive_pairs(boxes).len() ==> (#[trigger] naive_pairs(boxes)[t]).0
                < naive_pairs(boxes)[t].1,
{
    let items = numbered(boxes);
    lemma_pair_places(items, items.len() as int);
    let places = pair_places_upto(items, items.len() as int);
    assert forall|t: int| 0 <= t < naive_pairs(boxes).len() implies (#[trigger] naive_pairs(
        boxes,
    )[t]).0 < naive_pairs(boxes)[t].1 by {
        let p = places[t];
        assert(naive_pairs(boxes)[t] == (items[p.0].0, items[p.1].0));
    }
}

} // verus!
