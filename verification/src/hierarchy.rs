//! The hierarchy itself: a binary tree over boxes in the order of their
//! Morton keys, and the search for overlapping pairs that it speeds up.

use crate::bounds::Bounds;
use crate::morton::{find_split, is_split, non_decreasing};
use crate::pairs::{
    is_arrangement, is_overlap_report, lemma_pairs_report_overlaps, lemma_partners_none,
    lemma_partners_split, names, overlapping_pairs, overlapping_pairs_upto, partners,
};
use vstd::prelude::*;

verus! {

struct Node<T> {
    parent: usize,
    right_edge: usize,
    bounds: Bounds,
    data: T,
}

/// A bounding volume hierarchy over a sequence of boxes.
///
/// The leaves hold the boxes in the order of their keys. Every internal node
/// covers a run of at least two consecutive leaves, holds the smallest box
/// around them and has two children that share the run between them. A child
/// is referred to by one number: numbers below the count of internal nodes
/// name internal nodes, the others name leaves.
pub struct BoundingVolumeHierarchy {
    n_internal_nodes: usize,
    nodes: Vec<Node<(usize, usize)>>,
    leaves: Vec<Node<usize>>,
    /// For each internal node, the leaves that it covers: from the first
    /// number up to, but without, the second.
    spans: Ghost<Seq<(int, int)>>,
    /// The key of each leaf.
    keys: Ghost<Seq<u32>>,
}

/// The boxes of `points`, without their keys.
pub open spec fn boxes_of(points: Seq<(Bounds, u32)>) -> Seq<Bounds> {
    Seq::new(points.len(), |i: int| points[i].0)
}

/// The items are the boxes of `points` in the order of their keys.
pub open spec fn is_key_order(items: Seq<(usize, Bounds)>, points: Seq<(Bounds, u32)>) -> bool {
    &&& is_arrangement(items, boxes_of(points))
    &&& forall|k: int, l: int|
        0 <= k <= l < items.len() ==> points[(#[trigger] items[k]).0 as int].1 <= points[(
        #[trigger] items[l]).0 as int].1
}

/// Each key of `points` with the place at which it stands.
spec fn keyed(points: Seq<(Bounds, u32)>) -> Seq<(u32, usize)> {
    Seq::new(points.len(), |i: int| (points[i].1, i as usize))
}

/// Some pair of `data` has `a` as its second part.
spec fn lists(data: Seq<(u32, usize)>, a: int) -> bool {
    exists|k: int| 0 <= k < data.len() && (#[trigger] data[k]).1 == a
}

/// Sorts `data` by the first part of each pair, with
/// `<[T]>::sort_unstable_by_key` of the standard library: afterwards `data`
/// holds the pairs that it held, each as often as before, and the first
/// parts never decrease. In which order pairs with equal first parts come
/// is left open.
#[verifier::external_body]
fn sort_by_code(data: &mut Vec<(u32, usize)>)
    ensures
        final(data)@.to_multiset() == old(data)@.to_multiset(),
        forall|i: int, j: int|
            0 <= i <= j < final(data)@.len() ==> final(data)@[i].0 <= final(data)@[j].0,
{
    data.sort_unstable_by_key(|v| v.0);
}

/// The places of `points` in the order of their keys, each with its key.
fn order_by_code(points: &[(Bounds, u32)]) -> (data: Vec<(u32, usize)>)
    ensures
        data@.len() == points@.len(),
        forall|i: int, j: int| 0 <= i <= j < data@.len() ==> data@[i].0 <= data@[j].0,
        forall|k: int|
            0 <= k < data@.len() ==> (#[trigger] data@[k]).1 < points@.len() && data@[k].0
                == points@[data@[k].1 as int].1,
        forall|k: int, l: int|
            0 <= k < l < data@.len() ==> (#[trigger] data@[k]).1 != (#[trigger] data@[l]).1,
        forall|a: int| 0 <= a < points@.len() ==> #[trigger] lists(data@, a),
{
    let mut data: Vec<(u32, usize)> = Vec::new();
    let mut i: usize = 0;
    while i < points.len()
        invariant
            i <= points@.len(),
            data@ == keyed(points@).take(i as int),
        decreases points@.len() - i,
    {
        data.push((points[i].1, i));
        assert(data@ =~= keyed(points@).take(i + 1));
        i += 1;
    }
    let ghost unsorted: Seq<(u32, usize)> = data@;
    assert(unsorted =~= keyed(points@));
    sort_by_code(&mut data);
    proof {
        let sorted: Seq<(u32, usize)> = data@;
        unsorted.to_multiset_ensures();
        sorted.to_multiset_ensures();
        assert(unsorted.no_duplicates());
        unsorted.lemma_multiset_has_no_duplicates();
        sorted.lemma_multiset_has_no_duplicates_conv();
        assert forall|k: int| 0 <= k < sorted.len() implies (#[trigger] sorted[k]).1
            < points@.len() && sorted[k].0 == points@[sorted[k].1 as int].1 by {
            assert(sorted.contains(sorted[k]));
            assert(unsorted.to_multiset().count(sorted[k]) > 0);
            assert(unsorted.contains(sorted[k]));
            let i: int = choose|i: int| 0 <= i < unsorted.len() && unsorted[i] == sorted[k];
            assert(unsorted[i] == (points@[i].1, i as usize));
        }
        assert forall|k: int, l: int| 0 <= k < l < sorted.len() implies (#[trigger] sorted[k]).1 != (
        #[trigger] sorted[l]).1 by {
            assert(sorted[k] != sorted[l]);
        }
        assert forall|a: int| 0 <= a < points@.len() implies #[trigger] lists(sorted, a) by {
            assert(unsorted.contains(unsorted[a]));
            assert(sorted.to_multiset().count(unsorted[a]) > 0);
            assert(sorted.contains(unsorted[a]));
            let k: int = choose|k: int| 0 <= k < sorted.len() && sorted[k] == unsorted[a];
            assert(sorted[k].1 == a);
        }
    }
    data
}

impl View for BoundingVolumeHierarchy {
    type V = Seq<(usize, Bounds)>;

    /// The leaves in their order: each the number of a box and the box.
    closed spec fn view(&self) -> Seq<(usize, Bounds)> {
        Seq::new(self.leaves@.len(), |k: int| (self.leaves@[k].data, self.leaves@[k].bounds))
    }
}

impl BoundingVolumeHierarchy {
    /// How many internal nodes the hierarchy has.
    pub closed spec fn spec_node_count(&self) -> usize {
        self.nodes@.len() as usize
    }

    /// How many leaves the hierarchy has.
    pub closed spec fn spec_leaf_count(&self) -> usize {
        self.leaves@.len() as usize
    }

    /// How many internal nodes the hierarchy has.
    #[verifier::when_used_as_spec(spec_node_count)]
    pub fn node_count(&self) -> (r: usize)
        ensures
            r == self.spec_node_count(),
    {
        self.nodes.len()
    }

    /// How many leaves the hierarchy has.
    #[verifier::when_used_as_spec(spec_leaf_count)]
    pub fn leaf_count(&self) -> (r: usize)
        ensures
            r == self.spec_leaf_count(),
            r == self@.len(),
    {
        self.leaves.len()
    }

    /// The keys of the leaves, in the order of the leaves.
    pub closed spec fn keys(&self) -> Seq<u32> {
        self.keys@
    }

    /// `c` refers to a node or a leaf that exists.
    pub closed spec fn refers(&self, c: int) -> bool {
        if c >= self.n_internal_nodes {
            c - self.n_internal_nodes < self.leaves@.len()
        } else {
            0 <= c < self.nodes@.len()
        }
    }

    /// Whether `c` refers to a leaf.
    pub closed spec fn refers_to_leaf(&self, c: int) -> bool {
        c >= self.n_internal_nodes
    }

    /// The box of the node or leaf that `c` refers to.
    pub closed spec fn bounds_of(&self, c: int) -> Bounds {
        if c >= self.n_internal_nodes {
            self.leaves@[c - self.n_internal_nodes].bounds
        } else {
            self.nodes@[c].bounds
        }
    }

    /// The last leaf below the node or leaf that `c` refers to.
    pub closed spec fn right_edge_of(&self, c: int) -> int {
        if c >= self.n_internal_nodes {
            self.leaves@[c - self.n_internal_nodes].right_edge as int
        } else {
            self.nodes@[c].right_edge as int
        }
    }

    /// The leaves below the node or leaf that `c` refers to: from the first
    /// number up to, but without, the second.
    pub closed spec fn span_of(&self, c: int) -> (int, int) {
        if c >= self.n_internal_nodes {
            (c - self.n_internal_nodes, c - self.n_internal_nodes + 1)
        } else {
            self.spans@[c]
        }
    }

    /// The node above the node or leaf that `c` refers to.
    pub closed spec fn parent_of(&self, c: int) -> int {
        if c >= self.n_internal_nodes {
            self.leaves@[c - self.n_internal_nodes].parent as int
        } else {
            self.nodes@[c].parent as int
        }
    }

    /// The two children of the internal node `idx`.
    pub closed spec fn children_of(&self, idx: int) -> (int, int) {
        (self.nodes@[idx].data.0 as int, self.nodes@[idx].data.1 as int)
    }

    /// `c` is a child of `parent` that covers the leaves from `lo` up to `hi`:
    /// a leaf where that is one leaf, else an internal node made after its
    /// parent.
    spec fn hangs(&self, c: int, parent: int, lo: int, hi: int) -> bool {
        &&& self.refers(c)
        &&& self.span_of(c) == (lo, hi)
        &&& self.parent_of(c) == parent
        &&& self.right_edge_of(c) == hi - 1
        &&& c >= self.n_internal_nodes <==> hi - lo == 1
    }

    /// The internal node `idx` is as it should be.
    spec fn node_ok(&self, idx: int) -> bool {
        let node = self.nodes@[idx];
        let (lo, hi) = self.spans@[idx];
        let mid = self.right_edge_of(node.data.0 as int) + 1;
        &&& 0 <= lo
        &&& lo + 2 <= hi <= self.leaves@.len()
        &&& hi <= self.keys@.len()
        &&& node.right_edge == hi - 1
        &&& lo < mid < hi
        &&& self.hangs(node.data.0 as int, idx, lo, mid)
        &&& self.hangs(node.data.1 as int, idx, mid, hi)
        &&& node.data.0 < self.n_internal_nodes ==> node.data.0 == idx + 1
        &&& node.data.1 < self.n_internal_nodes ==> node.data.1 == idx + (mid - lo)
        &&& node.bounds.joins(
            self.bounds_of(node.data.0 as int),
            self.bounds_of(node.data.1 as int),
        )
        &&& forall|j: int| lo <= j < hi ==> node.bounds.encloses((#[trigger] self.leaves@[j]).bounds)
        &&& is_split(self.keys@.subrange(lo, hi), mid - lo)
    }

    /// The sizes fit together and every leaf knows its own place.
    spec fn frame_ok(&self) -> bool {
        &&& self.spans@.len() == self.nodes@.len()
        &&& self.keys@.len() == self.leaves@.len()
        &&& self.nodes@.len() <= self.n_internal_nodes
        &&& self.n_internal_nodes + self.leaves@.len() <= usize::MAX
        &&& forall|k: int|
            0 <= k < self.leaves@.len() ==> (#[trigger] self.leaves@[k]).right_edge == k
    }

    /// The hierarchy is a full binary tree over its leaves, with the root
    /// first, in which every internal node covers a run of leaves, parts it
    /// between its children by the split rule for keys, and holds the
    /// smallest box around the boxes of its children.
    pub closed spec fn well_formed(&self) -> bool {
        &&& self.frame_ok()
        &&& non_decreasing(self.keys@)
        &&& self.leaves@.len() == 0 ==> self.n_internal_nodes == 0
        &&& self.leaves@.len() >= 1 ==> self.n_internal_nodes == self.leaves@.len() - 1
        &&& self.nodes@.len() == self.n_internal_nodes
        &&& forall|idx: int| 0 <= idx < self.nodes@.len() ==> #[trigger] self.node_ok(idx)
        &&& self.nodes@.len() >= 1 ==> self.spans@[0] == (0int, self.leaves@.len() as int)
            && self.nodes@[0].parent == 0
        &&& self.leaves@.len() == 1 ==> self.leaves@[0].parent == 0
    }

    /// An empty hierarchy.
    pub fn new() -> (r: Self)
        ensures
            r.well_formed(),
            r@ == Seq::<(usize, Bounds)>::empty(),
            r.node_count() == 0,
            r.leaf_count() == 0,
    {
        let r = Self {
            n_internal_nodes: 0,
            nodes: Vec::new(),
            leaves: Vec::new(),
            spans: Ghost(Seq::empty()),
            keys: Ghost(Seq::empty()),
        };
        assert(r@ =~= Seq::<(usize, Bounds)>::empty());
        r
    }

    /// `later` holds everything that `self` holds from the internal node
    /// `from` on, and all its leaves, and perhaps more.
    spec fn kept_in(&self, later: &Self, from: int) -> bool {
        &&& later.n_internal_nodes == self.n_internal_nodes
        &&& self.nodes@.len() <= later.nodes@.len()
        &&& self.leaves@.len() <= later.leaves@.len()
        &&& self.spans@.len() <= later.spans@.len()
        &&& self.keys@.len() <= later.keys@.len()
        &&& forall|i: int| from <= i < self.nodes@.len() ==> later.nodes@[i] == self.nodes@[i]
        &&& forall|i: int| from <= i < self.spans@.len() ==> later.spans@[i] == self.spans@[i]
        &&& forall|k: int| 0 <= k < self.leaves@.len() ==> later.leaves@[k] == self.leaves@[k]
        &&& forall|k: int| 0 <= k < self.keys@.len() ==> later.keys@[k] == self.keys@[k]
    }

    /// A node that is as it should be stays so while the hierarchy grows.
    proof fn lemma_node_kept(&self, later: &Self, from: int, idx: int)
        requires
            self.frame_ok(),
            self.kept_in(later, from),
            0 <= from <= idx < self.nodes@.len(),
            self.node_ok(idx),
        ensures
            later.node_ok(idx),
    {
        let (lo, hi) = self.spans@[idx];
        assert(later.keys@.subrange(lo, hi) =~= self.keys@.subrange(lo, hi));
        let c0 = self.nodes@[idx].data.0 as int;
        let c1 = self.nodes@[idx].data.1 as int;
        assert(self.hangs(c0, idx, lo, self.right_edge_of(c0) + 1));
        assert(self.hangs(c1, idx, self.right_edge_of(c0) + 1, hi));
        assert(later.right_edge_of(c0) == self.right_edge_of(c0));
        assert(later.hangs(c0, idx, lo, self.right_edge_of(c0) + 1));
        assert(later.hangs(c1, idx, self.right_edge_of(c0) + 1, hi));
    }

    /// Builds the part of the hierarchy that covers `points`, whose keys are
    /// `codes`, below the internal node `parent`, and returns the reference
    /// to its top.
    fn generate_sub_hierarchy(
        &mut self,
        parent: usize,
        codes: &[u32],
        points: &[(usize, Bounds)],
    ) -> (top: usize)
        requires
            points@.len() >= 1,
            codes@.len() == points@.len(),
            non_decreasing(codes@),
            old(self).frame_ok(),
            old(self).n_internal_nodes + old(self).leaves@.len() + points@.len() <= usize::MAX,
            old(self).nodes@.len() + points@.len() - 1 <= old(self).n_internal_nodes,
        ensures
            final(self).frame_ok(),
            old(self).kept_in(final(self), 0),
            final(self).nodes@.len() == old(self).nodes@.len() + points@.len() - 1,
            final(self).leaves@.len() == old(self).leaves@.len() + points@.len(),
            final(self).keys@ == old(self).keys@ + codes@,
            forall|j: int|
                old(self).leaves@.len() <= j < final(self).leaves@.len() ==> (
                #[trigger] final(self).leaves@[j]).data == points@[j - old(self).leaves@.len()].0
                    && final(self).leaves@[j].bounds == points@[j - old(self).leaves@.len()].1,
            final(self).hangs(
                top as int,
                parent as int,
                old(self).leaves@.len() as int,
                (old(self).leaves@.len() + points@.len()) as int,
            ),
            top < final(self).n_internal_nodes ==> top == old(self).nodes@.len(),
            forall|j: int|
                old(self).leaves@.len() <= j < final(self).leaves@.len() ==> final(self).bounds_of(
                    top as int,
                ).encloses((#[trigger] final(self).leaves@[j]).bounds),
            forall|i: int|
                old(self).nodes@.len() <= i < final(self).nodes@.len()
                    ==> #[trigger] final(self).node_ok(i),
        decreases points@.len(),
    {
        let ghost base: int = self.leaves@.len() as int;
        let ghost start = *self;
        if points.len() == 1 {
            let idx: usize = self.leaves.len();
            self.leaves.push(
                Node { parent, right_edge: idx, bounds: points[0].1, data: points[0].0 },
            );
            self.keys = Ghost(self.keys@.push(codes@[0]));
            assert(self.keys@ =~= start.keys@ + codes@);
            idx + self.n_internal_nodes
        } else {
            let split: usize = find_split(codes);
            assert(0 < split < codes@.len());
            let child_codes = codes.split_at(split);
            let child_points = points.split_at(split);

            let idx: usize = self.nodes.len();
            self.nodes.push(Node { parent, right_edge: 0, bounds: Bounds::null(), data: (0, 0) });
            self.spans = Ghost(self.spans@.push((base, base + points@.len())));

            let first: usize = self.generate_sub_hierarchy(idx, child_codes.0, child_points.0);
            let ghost middle = *self;
            let second: usize = self.generate_sub_hierarchy(idx, child_codes.1, child_points.1);
            let ghost grown = *self;

            let first_bounds: Bounds = *self.get_bounds(first);
            let second_bounds: Bounds = *self.get_bounds(second);
            let first_edge: usize = self.get_right_edge(first);
            let second_edge: usize = self.get_right_edge(second);

            let mut bounds: Bounds = Bounds::null();
            bounds.update(&first_bounds);
            bounds.update(&second_bounds);
            let right_edge: usize = if first_edge > second_edge {
                first_edge
            } else {
                second_edge
            };
            self.nodes[idx] = Node { parent, right_edge, bounds, data: (first, second) };

            proof {
                assert(self.keys@ =~= start.keys@ + codes@);
                assert(middle.kept_in(&grown, 0));
                assert(grown.kept_in(self, idx + 1));
                assert(middle.kept_in(self, idx + 1));
                assert forall|i: int| start.nodes@.len() <= i < self.nodes@.len() implies #[trigger] self.node_ok(
                    i,
                ) by {
                    if i == idx {
                        assert(self.keys@.subrange(base, base + points@.len()) =~= codes@);
                        assert(middle.hangs(first as int, idx as int, base, base + split));
                        assert(grown.hangs(first as int, idx as int, base, base + split));
                        assert(self.hangs(first as int, idx as int, base, base + split));
                        assert(self.hangs(
                            second as int,
                            idx as int,
                            base + split,
                            base + points@.len(),
                        ));
                        assert(self.node_ok(i));
                    } else if i < middle.nodes@.len() {
                        middle.lemma_node_kept(self, idx + 1, i);
                    } else {
                        grown.lemma_node_kept(self, idx + 1, i);
                    }
                }
            }
            idx
        }
    }

    /// Builds the hierarchy over `points`, each a box with its key, in place
    /// of whatever `self` held. The leaves come in the order of the keys;
    /// among boxes with equal keys any order may come out.
    pub fn build(&mut self, points: &[(Bounds, u32)])
        requires
            2 * points@.len() <= usize::MAX,
        ensures
            final(self).well_formed(),
            is_key_order(final(self)@, points@),
            final(self).leaf_count() == points@.len(),
            final(self).node_count() == if points@.len() == 0 {
                0
            } else {
                points@.len() - 1
            },
            final(self).keys().len() == points@.len(),
            forall|k: int|
                0 <= k < points@.len() ==> #[trigger] final(self).keys()[k]
                    == points@[final(self)@[k].0 as int].1,
    {
        self.n_internal_nodes = 0;
        self.nodes = Vec::new();
        self.leaves = Vec::new();
        self.spans = Ghost(Seq::empty());
        self.keys = Ghost(Seq::empty());
        if points.len() == 0 {
            assert(self@ =~= Seq::<(usize, Bounds)>::empty());
            return;
        }
        let data: Vec<(u32, usize)> = order_by_code(points);

        self.n_internal_nodes = data.len() - 1;
        self.nodes.reserve(self.n_internal_nodes);
        self.leaves.reserve(data.len());

        let mut codes: Vec<u32> = Vec::new();
        let mut sorted_points: Vec<(usize, Bounds)> = Vec::new();
        let mut k: usize = 0;
        while k < data.len()
            invariant
                k <= data@.len(),
                data@.len() == points@.len(),
                codes@.len() == k,
                sorted_points@.len() == k,
                forall|j: int|
                    0 <= j < data@.len() ==> (#[trigger] data@[j]).1 < points@.len(),
                forall|j: int| 0 <= j < k ==> #[trigger] codes@[j] == data@[j].0,
                forall|j: int|
                    0 <= j < k ==> #[trigger] sorted_points@[j] == (
                        data@[j].1,
                        points@[data@[j].1 as int].0,
                    ),
            decreases data@.len() - k,
        {
            let entry: (u32, usize) = data[k];
            codes.push(entry.0);
            sorted_points.push((entry.1, points[entry.1].0));
            k += 1;
        }
        self.generate_sub_hierarchy(0, codes.as_slice(), sorted_points.as_slice());
        proof {
            assert(self.keys@ =~= codes@);
            assert(self@ =~= sorted_points@);
            let items = self@;
            let boxes = boxes_of(points@);
            assert forall|a: int| 0 <= a < boxes.len() implies #[trigger] names(items, a) by {
                assert(lists(data@, a));
                let j: int = choose|j: int| 0 <= j < data@.len() && (#[trigger] data@[j]).1 == a;
                assert(items[j].0 == a);
            }
            assert(is_arrangement(items, boxes));
            assert forall|k: int, l: int| 0 <= k <= l < items.len() implies points@[(
            #[trigger] items[k]).0 as int].1 <= points@[(#[trigger] items[l]).0 as int].1 by {
                assert(codes@[k] <= codes@[l]);
            }
        }
    }

    /// Adds to `acc` the pairs that the leaf at place `query_idx`, which
    /// `other` describes, forms with the overlapping leaves behind it below
    /// the node or leaf `idx`.
    fn collide_sub_hierarchy(
        &self,
        idx: usize,
        query_idx: usize,
        acc: &mut Vec<(usize, usize)>,
        other: &(usize, Bounds),
    )
        requires
            self.well_formed(),
            self.refers(idx as int),
            query_idx < self.leaves@.len(),
            *other == self@[query_idx as int],
            self.refers_to_leaf(idx as int) ==> self.span_of(idx as int).0 > query_idx,
            !self.refers_to_leaf(idx as int) ==> self.node_ok(idx as int),
        ensures
            final(acc)@ == old(acc)@ + partners(
                self@,
                query_idx as int,
                self.span_of(idx as int).0,
                self.span_of(idx as int).1,
            ),
        decreases self.span_of(idx as int).1 - self.span_of(idx as int).0,
    {
        let ghost items = self@;
        let ghost q: int = query_idx as int;
        let ghost (lo, hi) = self.span_of(idx as int);
        if self.get_bounds(idx).intersects(&other.1) {
            if self.is_leaf(idx) {
                let id: usize = self.leaves[idx - self.n_internal_nodes].data;
                acc.push((other.0, id));
                proof {
                    assert(partners(items, q, lo, lo) =~= Seq::<(usize, usize)>::empty());
                    assert(partners(items, q, lo, hi) =~= seq![(other.0, id)]);
                    assert(acc@ =~= old(acc)@ + partners(items, q, lo, hi));
                }
            } else {
                let children: (usize, usize) = self.nodes[idx].data;
                let ghost mid: int = self.right_edge_of(children.0 as int) + 1;
                proof {
                    assert(self.hangs(children.0 as int, idx as int, lo, mid));
                    assert(self.hangs(children.1 as int, idx as int, mid, hi));
                    lemma_partners_split(items, q, lo, mid, hi);
                }
                if self.get_right_edge(children.0) > query_idx {
                    self.collide_sub_hierarchy(children.0, query_idx, acc, other);
                } else {
                    proof {
                        lemma_partners_none(items, q, lo, mid);
                    }
                }
                let ghost halfway = acc@;
                assert(halfway =~= old(acc)@ + partners(items, q, lo, mid));
                if self.get_right_edge(children.1) > query_idx {
                    self.collide_sub_hierarchy(children.1, query_idx, acc, other);
                } else {
                    proof {
                        lemma_partners_none(items, q, mid, hi);
                    }
                }
                assert(acc@ =~= old(acc)@ + partners(items, q, lo, hi));
            }
        } else {
            proof {
                assert forall|j: int| lo <= j < hi && j > q implies !(#[trigger] items[j]).1.overlaps(
                    items[q].1,
                ) by {
                    assert(self.bounds_of(idx as int).encloses(self.leaves@[j].bounds));
                }
                lemma_partners_none(items, q, lo, hi);
                assert(acc@ =~= old(acc)@ + partners(items, q, lo, hi));
            }
        }
    }

    /// Every pair of leaves whose boxes overlap, once: for each leaf in turn,
    /// the pairs that it forms with the leaves behind it, each leaf named by
    /// the number of its box.
    pub fn collide(&self) -> (collisions: Vec<(usize, usize)>)
        requires
            self.well_formed(),
        ensures
            collisions@ == overlapping_pairs(self@),
    {
        let mut collisions: Vec<(usize, usize)> = Vec::new();
        let ghost items = self@;
        if self.n_internal_nodes == 0 {
            proof {
                lemma_partners_none(items, 0, 0, items.len() as int);
                assert(overlapping_pairs_upto(items, 0) =~= Seq::<(usize, usize)>::empty());
                assert(overlapping_pairs(items) =~= Seq::<(usize, usize)>::empty());
            }
            return collisions;
        }
        assert(overlapping_pairs_upto(items, 0) =~= Seq::<(usize, usize)>::empty());
        let mut idx: usize = 0;
        while idx < self.leaves.len()
            invariant
                self.well_formed(),
                self.n_internal_nodes != 0,
                items == self@,
                idx <= self.leaves@.len(),
                collisions@ == overlapping_pairs_upto(items, idx as int),
            decreases self.leaves@.len() - idx,
        {
            let other: (usize, Bounds) = (self.leaves[idx].data, self.leaves[idx].bounds);
            self.collide_sub_hierarchy(0, idx, &mut collisions, &other);
            idx += 1;
        }
        collisions
    }

    /// The two children of the internal node `idx`.
    pub fn children(&self, idx: usize) -> (r: (usize, usize))
        requires
            self.refers(idx as int),
            !self.refers_to_leaf(idx as int),
        ensures
            r.0 == self.children_of(idx as int).0,
            r.1 == self.children_of(idx as int).1,
    {
        self.nodes[idx].data
    }

    /// Which numbers refer to something, and to what: those below the count
    /// of internal nodes to an internal node, the next ones to the leaves in
    /// their order.
    pub proof fn lemma_refers(&self, c: int)
        requires
            self.well_formed(),
        ensures
            self.refers(c) <==> 0 <= c < self.node_count() + self.leaf_count(),
            self.refers_to_leaf(c) <==> c >= self.node_count(),
            self.node_count() + self.leaf_count() <= usize::MAX,
            self.leaf_count() == self@.len(),
            self.keys().len() == self@.len(),
            non_decreasing(self.keys()),
    {
    }

    /// A hierarchy with leaves has one internal node fewer than leaves; one
    /// without leaves has no internal node.
    pub proof fn lemma_node_count(&self)
        requires
            self.well_formed(),
        ensures
            self.leaf_count() >= 1 ==> self.node_count() == self.leaf_count() - 1,
            self.leaf_count() == 0 ==> self.node_count() == 0,
    {
    }

    /// A leaf covers itself and holds the box of its item.
    pub proof fn lemma_leaf(&self, k: int)
        requires
            self.well_formed(),
            0 <= k < self.leaf_count(),
        ensures
            self.span_of(self.node_count() + k) == (k, k + 1),
            self.right_edge_of(self.node_count() + k) == k,
            self.bounds_of(self.node_count() + k) == self@[k].1,
    {
    }

    /// The root covers every leaf and is its own parent.
    pub proof fn lemma_root(&self)
        requires
            self.well_formed(),
            self.leaf_count() >= 1,
        ensures
            self.span_of(0) == (0int, self.leaf_count() as int),
            self.parent_of(0) == 0,
    {
    }

    /// The box of an internal node is the smallest box around the boxes of
    /// its two children, so it encloses both.
    pub proof fn lemma_node_encloses_children(&self, idx: int)
        requires
            self.well_formed(),
            0 <= idx < self.node_count(),
        ensures
            self.refers(self.children_of(idx).0),
            self.refers(self.children_of(idx).1),
            self.bounds_of(idx).joins(
                self.bounds_of(self.children_of(idx).0),
                self.bounds_of(self.children_of(idx).1),
            ),
            self.bounds_of(idx).encloses(self.bounds_of(self.children_of(idx).0)),
            self.bounds_of(idx).encloses(self.bounds_of(self.children_of(idx).1)),
    {
        assert(self.node_ok(idx));
    }

    /// The box of a node or leaf encloses the box of every leaf that it covers.
    pub proof fn lemma_node_encloses_leaves(&self, c: int, k: int)
        requires
            self.well_formed(),
            self.refers(c),
            self.span_of(c).0 <= k < self.span_of(c).1,
        ensures
            0 <= k < self.leaf_count(),
            self.bounds_of(c).encloses(self@[k].1),
    {
        if c < self.n_internal_nodes {
            assert(self.node_ok(c));
        }
    }

    /// An internal node covers a run of two or more leaves and parts it
    /// between its children, where the split rule for the keys of the run
    /// says: the first child covers its first part and the second the rest.
    /// A child is a leaf exactly where its part is a single leaf. Otherwise
    /// it is an internal node: the first child the one right behind its
    /// parent, the second the one behind everything below the first.
    pub proof fn lemma_node_shape(&self, idx: int)
        requires
            self.well_formed(),
            0 <= idx < self.node_count(),
        ensures
            ({
                let (lo, hi) = self.span_of(idx);
                let (first, second) = self.children_of(idx);
                let mid = self.span_of(first).1;
                &&& 0 <= lo < mid < hi <= self.leaf_count()
                &&& self.refers(first) && self.refers(second)
                &&& self.span_of(first) == (lo, mid)
                &&& self.span_of(second) == (mid, hi)
                &&& self.parent_of(first) == idx
                &&& self.parent_of(second) == idx
                &&& self.right_edge_of(idx) == hi - 1
                &&& self.right_edge_of(first) == mid - 1
                &&& self.right_edge_of(second) == hi - 1
                &&& self.refers_to_leaf(first) <==> mid - lo == 1
                &&& self.refers_to_leaf(second) <==> hi - mid == 1
                &&& !self.refers_to_leaf(first) ==> first == idx + 1
                &&& !self.refers_to_leaf(second) ==> second == idx + (mid - lo)
                &&& is_split(self.keys().subrange(lo, hi), mid - lo)
            }),
    {
        assert(self.node_ok(idx));
    }

    /// Whether `idx` refers to a leaf.
    pub fn is_leaf(&self, idx: usize) -> (r: bool)
        ensures
            r == self.refers_to_leaf(idx as int),
    {
        idx >= self.n_internal_nodes
    }

    /// The box of the node or leaf that `idx` refers to.
    pub fn get_bounds(&self, idx: usize) -> (r: &Bounds)
        requires
            self.refers(idx as int),
        ensures
            *r == self.bounds_of(idx as int),
    {
        if self.is_leaf(idx) {
            &self.leaves[idx - self.n_internal_nodes].bounds
        } else {
            &self.nodes[idx].bounds
        }
    }

    /// The place of the last leaf below the node or leaf that `idx` refers to.
    pub fn get_right_edge(&self, idx: usize) -> (r: usize)
        requires
            self.refers(idx as int),
        ensures
            r == self.right_edge_of(idx as int),
    {
        if self.is_leaf(idx) {
            self.leaves[idx - self.n_internal_nodes].right_edge
        } else {
            self.nodes[idx].right_edge
        }
    }
}

/// Finds the pairs of `points`, each a box with its key, whose boxes
/// overlap, and names each by the places of the two boxes in `points`.
pub fn collide(points: &[(Bounds, u32)]) -> (collisions: Vec<(usize, usize)>)
    requires
        2 * points@.len() <= usize::MAX,
    ensures
        is_overlap_report(collisions@, boxes_of(points@)),
        exists|items: Seq<(usize, Bounds)>|
            is_key_order(items, points@) && collisions@ == #[trigger] overlapping_pairs(items),
{
    let mut bvh: BoundingVolumeHierarchy = BoundingVolumeHierarchy::new();
    bvh.build(points);
    let collisions: Vec<(usize, usize)> = bvh.collide();
    proof {
        lemma_pairs_report_overlaps(bvh@, boxes_of(points@));
    }
    collisions
}

} // verus!
