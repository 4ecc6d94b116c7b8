use vstd::prelude::*;
use crate::pairs::{ordered_pair, is_pair_of, lemma_pairs_within, pairs_within, push_pairs_within};
use crate::subseq::{
    lemma_filter_all, lemma_filter_compose, lemma_filter_filter, lemma_filter_keeps_pair,
    lemma_filter_len_mono, lemma_filter_origin,
};
use crate::{QT_MAX_DEPTH, QT_MAX_OBJECTS};
use crate::leaves::{lemma_counts_and_pairs_by_leaves, pairs_of_lists, total_len};

verus! {

/// A node of a binary space-partitioning tree over objects of payload type `P` in regions
/// of type `B`. A leaf holds the objects that were placed in its region; a split node holds
/// none itself and passes them on to its two children.
pub struct QuadTreeNode<B, P> {
    pub bounds: B,
    pub objects: Vec<(usize, P)>,
    pub children: Option<(Box<QuadTreeNode<B, P>>, Box<QuadTreeNode<B, P>>)>,
    pub depth: usize,
}

/// Most leaves a tree can have with `levels_left` levels below its root: 2 to that power.
pub open spec fn leaf_capacity(levels_left: nat) -> nat
    decreases levels_left,
{
    if levels_left == 0 { 1 } else { 2 * leaf_capacity((levels_left - 1) as nat) }
}

/// Whether the caller's region test `fits` accepts the object payload `p` for region `b`.
pub open spec fn touches<B, P, F: Fn(&B, &P) -> bool>(fits: F, b: B, p: P) -> bool {
    fits.ensures((&b, &p), true)
}

/// The objects of a sequence that the region test accepts for region `b`.
pub open spec fn in_region<B, P, F: Fn(&B, &P) -> bool>(fits: F, b: B) -> spec_fn((usize, P)) -> bool {
    |o: (usize, P)| touches(fits, b, o.1)
}

/// The region test can be called on every region and payload, and answers each of them one
/// way only.
pub open spec fn region_test<B, P, F: Fn(&B, &P) -> bool>(fits: F) -> bool {
    &&& forall|b: B, p: P| #[trigger] fits.requires((&b, &p))
    &&& forall|b: B, p: P|
        #![trigger fits.ensures((&b, &p), true)]
        #![trigger fits.ensures((&b, &p), false)]
        !(fits.ensures((&b, &p), true) && fits.ensures((&b, &p), false))
}

/// The region split can be called on every region.
pub open spec fn region_split<B, S: Fn(&B) -> (B, B)>(split: S) -> bool {
    forall|b: B| #[trigger] split.requires((&b,))
}

/// Splitting never loses an object: whatever the region test accepts for a region, it
/// accepts for at least one of the two regions that `split` gives for it.
pub open spec fn split_covers<B, P, F: Fn(&B, &P) -> bool, S: Fn(&B) -> (B, B)>(
    fits: F,
    split: S,
) -> bool {
    forall|b: B, halves: (B, B), p: P|
        #![trigger split.ensures((&b,), halves), touches(fits, b, p)]
        split.ensures((&b,), halves) && touches(fits, b, p) ==> touches(fits, halves.0, p)
            || touches(fits, halves.1, p)
}

/// Splitting only narrows: whatever the region test accepts for one of the two regions that
/// `split` gives for a region, it accepts for that region too.
pub open spec fn split_nested<B, P, F: Fn(&B, &P) -> bool, S: Fn(&B) -> (B, B)>(
    fits: F,
    split: S,
) -> bool {
    forall|b: B, halves: (B, B), p: P|
        #![trigger split.ensures((&b,), halves), touches(fits, halves.0, p)]
        #![trigger split.ensures((&b,), halves), touches(fits, halves.1, p)]
        split.ensures((&b,), halves) && (touches(fits, halves.0, p) || touches(fits, halves.1, p))
            ==> touches(fits, b, p)
}

/// `meets(b, p, q)` says that payloads `p` and `q` meet within region `b` (for discs: share a
/// point of it). Meeting passes down a split: two payloads that meet within a region meet
/// within one of the two regions `split` gives for it; and the region test accepts both
/// payloads for any region they meet within.
pub open spec fn meeting_passes_down<B, P, F: Fn(&B, &P) -> bool, S: Fn(&B) -> (B, B)>(
    fits: F,
    split: S,
    meets: spec_fn(B, P, P) -> bool,
) -> bool {
    &&& forall|b: B, halves: (B, B), p: P, q: P|
        #![trigger split.ensures((&b,), halves), meets(b, p, q)]
        split.ensures((&b,), halves) && meets(b, p, q) ==> meets(halves.0, p, q) || meets(
            halves.1,
            p,
            q,
        )
    &&& forall|b: B, p: P, q: P| #[trigger]
        meets(b, p, q) ==> touches(fits, b, p) && touches(fits, b, q)
}

impl<B, P> QuadTreeNode<B, P> {
    /// The shape rules of the tree: no node deeper than `QT_MAX_DEPTH`; a split node holds
    /// no objects and its children stand one level deeper; a leaf above the deepest level
    /// holds at most `QT_MAX_OBJECTS` objects.
    pub open spec fn wf(self) -> bool
        decreases self,
    {
        &&& self.depth <= QT_MAX_DEPTH
        &&& match self.children {
            None => self.depth < QT_MAX_DEPTH ==> self.objects@.len() <= QT_MAX_OBJECTS,
            Some(ch) => {
                &&& self.depth < QT_MAX_DEPTH
                &&& self.objects@.len() == 0
                &&& ch.0.depth == self.depth + 1
                &&& ch.1.depth == self.depth + 1
                &&& ch.0.wf()
                &&& ch.1.wf()
            },
        }
    }

    /// Number of objects held over the whole subtree, each copy counted.
    pub open spec fn object_count(self) -> nat
        decreases self,
    {
        self.objects@.len() + match self.children {
            None => 0,
            Some(ch) => ch.0.object_count() + ch.1.object_count(),
        }
    }

    /// Number of leaves of the subtree.
    pub open spec fn leaf_count(self) -> nat
        decreases self,
    {
        match self.children {
            None => 1,
            Some(ch) => ch.0.leaf_count() + ch.1.leaf_count(),
        }
    }

    /// The ordered index pairs that `collect_pairs` reports: those of every two objects
    /// held together by one node, this node first, then the first child's subtree, then
    /// the second's.
    pub open spec fn node_pairs(self) -> Seq<(usize, usize)>
        decreases self,
    {
        pairs_within(self.objects@) + match self.children {
            None => Seq::empty(),
            Some(ch) => ch.0.node_pairs() + ch.1.node_pairs(),
        }
    }

    /// The subtree holds exactly what the objects of `log`, handed to this node in that
    /// order, leave in it: the node keeps those its region test accepts; a leaf holds them,
    /// in order; a node is split only when it keeps more than `QT_MAX_OBJECTS` of them,
    /// and then holds none itself and hands them on to both children.
    pub open spec fn holds<F: Fn(&B, &P) -> bool>(self, fits: F, log: Seq<(usize, P)>) -> bool
        decreases self,
    {
        let kept = log.filter(in_region(fits, self.bounds));
        match self.children {
            None => self.objects@ == kept,
            Some(ch) => {
                &&& kept.len() > QT_MAX_OBJECTS
                &&& self.objects@.len() == 0
                &&& ch.0.holds(fits, kept)
                &&& ch.1.holds(fits, kept)
            },
        }
    }

    /// Every split node of the subtree has the two regions that `split` gives for its own
    /// region as its children's regions, in that order.
    pub open spec fn split_by<S: Fn(&B) -> (B, B)>(self, split: S) -> bool
        decreases self,
    {
        match self.children {
            None => true,
            Some(ch) => {
                &&& split.ensures((&self.bounds,), (ch.0.bounds, ch.1.bounds))
                &&& ch.0.split_by(split)
                &&& ch.1.split_by(split)
            },
        }
    }

    /// Every leaf of the subtree holds exactly the objects of `log` that the region test
    /// accepts for the leaf's own region, in order; every split node holds none.
    pub open spec fn holds_at_leaves<F: Fn(&B, &P) -> bool>(self, fits: F, log: Seq<(usize, P)>) -> bool
        decreases self,
    {
        match self.children {
            None => self.objects@ == log.filter(in_region(fits, self.bounds)),
            Some(ch) => {
                &&& self.objects@.len() == 0
                &&& ch.0.holds_at_leaves(fits, log)
                &&& ch.1.holds_at_leaves(fits, log)
            },
        }
    }

    /// Every object that the region test accepts for the region of some leaf of the subtree
    /// passes `q`.
    pub open spec fn leaves_within<F: Fn(&B, &P) -> bool>(self, fits: F, q: spec_fn((usize, P)) -> bool) -> bool
        decreases self,
    {
        match self.children {
            None => forall|o: (usize, P)| #![trigger q(o)] touches(fits, self.bounds, o.1) ==> q(o),
            Some(ch) => ch.0.leaves_within(fits, q) && ch.1.leaves_within(fits, q),
        }
    }

    /// Every split node of the subtree is needed: the region test accepts more than
    /// `QT_MAX_OBJECTS` objects of `log` for its own region. A node whose region accepts
    /// at most that many is a leaf.
    pub open spec fn splits_needed<F: Fn(&B, &P) -> bool>(self, fits: F, log: Seq<(usize, P)>) -> bool
        decreases self,
    {
        match self.children {
            None => true,
            Some(ch) => {
                &&& log.filter(in_region(fits, self.bounds)).len() > QT_MAX_OBJECTS
                &&& ch.0.splits_needed(fits, log)
                &&& ch.1.splits_needed(fits, log)
            },
        }
    }

    /// Some leaf of the subtree holds object `o`.
    pub open spec fn stores(self, o: (usize, P)) -> bool
        decreases self,
    {
        match self.children {
            None => self.objects@.contains(o),
            Some(ch) => ch.0.stores(o) || ch.1.stores(o),
        }
    }

    /// Payloads `p` and `q` reach a common leaf of the subtree: the region test accepts both
    /// for this node's region and, below a split node, for every region on the way down to
    /// that leaf.
    pub open spec fn shares_leaf<F: Fn(&B, &P) -> bool>(self, fits: F, p: P, q: P) -> bool
        decreases self,
    {
        &&& touches(fits, self.bounds, p)
        &&& touches(fits, self.bounds, q)
        &&& match self.children {
            None => true,
            Some(ch) => ch.0.shares_leaf(fits, p, q) || ch.1.shares_leaf(fits, p, q),
        }
    }

    /// `x` is the ordered index pair of two objects of `log`, the earlier `log[i]` and the
    /// later `log[j]`, that reach a common leaf of the subtree.
    pub open spec fn is_shared_pair<F: Fn(&B, &P) -> bool>(
        self,
        fits: F,
        log: Seq<(usize, P)>,
        x: (usize, usize),
    ) -> bool {
        exists|i: int, j: int|
            0 <= i < j < log.len() && x == ordered_pair(log[i].0, log[j].0) && self.shares_leaf(
                fits,
                log[i].1,
                log[j].1,
            )
    }

    /// A leaf over `bounds` at level `depth` that holds nothing.
    pub open spec fn is_empty_leaf(self, bounds: B, depth: nat) -> bool {
        &&& self.bounds == bounds
        &&& self.depth == depth
        &&& self.children is None
        &&& self.objects@.len() == 0
    }

    /// An empty leaf over `bounds` at level `depth`.
    pub fn new(bounds: B, depth: usize) -> (node: Self)
        ensures
            node.is_empty_leaf(bounds, depth as nat),
    {
        QuadTreeNode { bounds, objects: Vec::with_capacity(QT_MAX_OBJECTS), children: None, depth }
    }

    /// Empties the subtree: every node drops its objects, and a split node whose two
    /// children are then empty leaves merges them away. Every subtree thus collapses into
    /// one empty leaf.
    pub fn clear(&mut self)
        ensures
            final(self).is_empty_leaf(old(self).bounds, old(self).depth as nat),
        decreases *old(self),
    {
        self.objects.clear();
        if let Some((mut first, mut second)) = self.children.take() {
            (&mut *first).clear();
            (&mut *second).clear();
            let can_merge = first.objects.len() == 0 && first.children.is_none()
                && second.objects.len() == 0 && second.children.is_none();
            if !can_merge {
                self.children = Some((first, second));
            }
        }
    }

    /// Appends to `pairs` the ordered index pair of every two objects held together by one
    /// node of the subtree.
    pub fn collect_pairs(&self, pairs: &mut Vec<(usize, usize)>)
        ensures
            final(pairs)@ == old(pairs)@ + self.node_pairs(),
            self.wf() ==> final(pairs)@ == old(pairs)@ + pairs_of_lists(self.leaf_lists()),
        decreases self,
    {
        push_pairs_within(&self.objects, pairs);
        match &self.children {
            Some(ch) => {
                ch.0.collect_pairs(pairs);
                ch.1.collect_pairs(pairs);
            },
            None => {},
        }
        proof {
            assert(pairs@ =~= old(pairs)@ + self.node_pairs());
            if self.wf() {
                lemma_counts_and_pairs_by_leaves(*self);
            }
        }
    }

    /// Splits a leaf: two empty children over the regions that `split` gives for this
    /// node's region, in that order, one level deeper.
    fn subdivide<S: Fn(&B) -> (B, B)>(&mut self, split: &S)
        requires
            region_split(*split),
            old(self).depth < QT_MAX_DEPTH,
        ensures
            final(self).bounds == old(self).bounds,
            final(self).depth == old(self).depth,
            final(self).objects == old(self).objects,
            final(self).children matches Some(ch) && {
                &&& ch.0.is_empty_leaf(ch.0.bounds, (old(self).depth + 1) as nat)
                &&& ch.1.is_empty_leaf(ch.1.bounds, (old(self).depth + 1) as nat)
                &&& split.ensures((&old(self).bounds,), (ch.0.bounds, ch.1.bounds))
            },
    {
        let halves = split(&self.bounds);
        let first = QuadTreeNode::new(halves.0, self.depth + 1);
        let second = QuadTreeNode::new(halves.1, self.depth + 1);
        self.children = Some((Box::new(first), Box::new(second)));
    }

    /// Places object `index` with payload `item` in the subtree: nothing happens if the
    /// region test rejects it here; a split node passes it on to both children; a leaf
    /// takes it, and a leaf above the deepest level that then holds more than
    /// `QT_MAX_OBJECTS` objects splits and hands all of them on to its new children.
    pub(crate) fn insert<F: Fn(&B, &P) -> bool, S: Fn(&B) -> (B, B)>(
        &mut self,
        index: usize,
        item: P,
        fits: &F,
        split: &S,
        Ghost(log): Ghost<Seq<(usize, P)>>,
    ) where P: Copy
        requires
            old(self).wf(),
            old(self).holds(*fits, log),
            old(self).split_by(*split),
            region_test(*fits),
            region_split(*split),
        ensures
            final(self).wf(),
            final(self).holds(*fits, log.push((index, item))),
            final(self).split_by(*split),
            final(self).splits_needed(*fits, log.push((index, item))),
            final(self).bounds == old(self).bounds,
            final(self).depth == old(self).depth,
            !touches(*fits, old(self).bounds, item) ==> *final(self) == *old(self),
        decreases QT_MAX_DEPTH - old(self).depth,
    {
        let ghost pred = in_region(*fits, self.bounds);
        let inside = fits(&self.bounds, &item);
        proof {
            assert(inside == pred((index, item)));
            log.lemma_filter_push((index, item), pred);
        }
        if !inside {
            proof {
                assert(self.holds(*fits, log.push((index, item))));
                lemma_splits_needed(*self, *fits, log.push((index, item)));
            }
            return;
        }
        let ghost kept = log.filter(pred);
        match self.children.take() {
            Some((mut first, mut second)) => {
                (&mut *first).insert(index, item, fits, split, Ghost(kept));
                (&mut *second).insert(index, item, fits, split, Ghost(kept));
                self.children = Some((first, second));
            },
            None => {
                self.objects.push((index, item));
                if self.objects.len() > QT_MAX_OBJECTS && self.depth < QT_MAX_DEPTH {
                    self.subdivide(split);
                    let mut objs: Vec<(usize, P)> = Vec::new();
                    std::mem::swap(&mut objs, &mut self.objects);
                    let (mut first, mut second) = self.children.take().unwrap();
                    let n = objs.len();
                    let mut k: usize = 0;
                    proof {
                        reveal(Seq::filter);
                        assert(objs@.take(0) =~= Seq::<(usize, P)>::empty());
                        assert(first.objects@ =~= objs@.take(0).filter(in_region(*fits, first.bounds)));
                        assert(second.objects@ =~= objs@.take(0).filter(in_region(*fits, second.bounds)));
                    }
                    while k < n
                        invariant
                            n == objs@.len(),
                            k <= n,
                            objs@ == kept.push((index, item)),
                            region_test(*fits),
                            region_split(*split),
                            first.wf(),
                            second.wf(),
                            first.depth == self.depth + 1,
                            second.depth == self.depth + 1,
                            self.depth < QT_MAX_DEPTH,
                            self.depth == old(self).depth,
                            first.holds(*fits, objs@.take(k as int)),
                            second.holds(*fits, objs@.take(k as int)),
                            first.split_by(*split),
                            second.split_by(*split),
                            split.ensures((&self.bounds,), (first.bounds, second.bounds)),
                        decreases n - k,
                    {
                        let (idx, p) = objs[k];
                        proof {
                            assert(objs@.take(k + 1) =~= objs@.take(k as int).push((idx, p)));
                        }
                        (&mut *first).insert(idx, p, fits, split, Ghost(objs@.take(k as int)));
                        (&mut *second).insert(idx, p, fits, split, Ghost(objs@.take(k as int)));
                        k = k + 1;
                    }
                    proof {
                        assert(objs@.take(n as int) =~= objs@);
                    }
                    self.children = Some((first, second));
                }
            },
        }
        proof {
            assert(self.holds(*fits, log.push((index, item))));
            lemma_splits_needed(*self, *fits, log.push((index, item)));
        }
    }

    /// The number of objects held over the subtree, each copy counted, and the number of
    /// its leaves.
    pub fn count_objects_and_nodes(&self) -> (r: (usize, usize))
        requires
            self.wf(),
            self.object_count() <= usize::MAX,
        ensures
            r.0 == self.object_count(),
            r.1 == self.leaf_count(),
            r.0 == total_len(self.leaf_lists()),
            r.1 == self.leaf_lists().len(),
        decreases self,
    {
        proof {
            lemma_counts_and_pairs_by_leaves(*self);
        }
        let mut total_objects = self.objects.len();
        let mut total_nodes: usize = 0;
        match &self.children {
            Some(ch) => {
                proof {
                    lemma_leaf_count_bound(*ch.0);
                    lemma_leaf_count_bound(*ch.1);
                    lemma_leaf_capacity_max((QT_MAX_DEPTH - ch.0.depth) as nat);
                }
                let (child_objects, child_nodes) = ch.0.count_objects_and_nodes();
                total_objects = total_objects + child_objects;
                total_nodes = total_nodes + child_nodes;
                let (child_objects, child_nodes) = ch.1.count_objects_and_nodes();
                total_objects = total_objects + child_objects;
                total_nodes = total_nodes + child_nodes;
            },
            None => {
                total_nodes = total_nodes + 1;
            },
        }
        (total_objects, total_nodes)
    }
}

/// What is in one part of a joined sequence is in the whole.
proof fn lemma_contains_in_join<A>(a: Seq<A>, b: Seq<A>, x: A)
    ensures
        a.contains(x) ==> (a + b).contains(x),
        b.contains(x) ==> (a + b).contains(x),
{
    if a.contains(x) {
        let k = choose|k: int| 0 <= k < a.len() && a[k] == x;
        assert((a + b)[k] == x);
    }
    if b.contains(x) {
        let k = choose|k: int| 0 <= k < b.len() && b[k] == x;
        assert((a + b)[a.len() + k] == x);
    }
}

/// Two objects handed to a subtree that reach a common leaf of it are reported together by
/// `collect_pairs`.
pub proof fn lemma_shared_leaf_reported<B, P, F: Fn(&B, &P) -> bool>(
    n: QuadTreeNode<B, P>,
    fits: F,
    log: Seq<(usize, P)>,
    i: int,
    j: int,
)
    requires
        n.holds(fits, log),
        0 <= i < j < log.len(),
        n.shares_leaf(fits, log[i].1, log[j].1),
    ensures
        n.node_pairs().contains(ordered_pair(log[i].0, log[j].0)),
    decreases n,
{
    let pred = in_region(fits, n.bounds);
    let kept = log.filter(pred);
    let x = ordered_pair(log[i].0, log[j].0);
    assert(pred(log[i]) && pred(log[j]));
    lemma_filter_keeps_pair(log, pred, i, j);
    let (a, b) = choose|a: int, b: int|
        0 <= a < b < kept.len() && kept[a] == log[i] && kept[b] == log[j];
    match n.children {
        None => {
            lemma_pairs_within(kept);
            assert(pairs_within(kept).contains(ordered_pair(kept[a].0, kept[b].0)));
            lemma_contains_in_join(pairs_within(n.objects@), Seq::<(usize, usize)>::empty(), x);
        },
        Some(ch) => {
            if ch.0.shares_leaf(fits, log[i].1, log[j].1) {
                lemma_shared_leaf_reported(*ch.0, fits, kept, a, b);
            } else {
                lemma_shared_leaf_reported(*ch.1, fits, kept, a, b);
            }
            lemma_contains_in_join(ch.0.node_pairs(), ch.1.node_pairs(), x);
            lemma_contains_in_join(pairs_within(n.objects@), ch.0.node_pairs() + ch.1.node_pairs(), x);
        },
    }
}

/// Every pair that `collect_pairs` reports for a subtree is that of two objects handed to
/// it that reach a common leaf.
pub proof fn lemma_reported_pair_shared<B, P, F: Fn(&B, &P) -> bool>(
    n: QuadTreeNode<B, P>,
    fits: F,
    log: Seq<(usize, P)>,
    k: int,
)
    requires
        n.holds(fits, log),
        0 <= k < n.node_pairs().len(),
    ensures
        n.is_shared_pair(fits, log, n.node_pairs()[k]),
    decreases n,
{
    let pred = in_region(fits, n.bounds);
    let kept = log.filter(pred);
    let x = n.node_pairs()[k];
    match n.children {
        None => {
            assert(n.node_pairs() == pairs_within(kept) + Seq::<(usize, usize)>::empty());
            assert(x == pairs_within(kept)[k]);
            lemma_pairs_within(kept);
            assert(is_pair_of(kept, x));
            let (a, b) = choose|a: int, b: int|
                0 <= a < b < kept.len() && x == ordered_pair(kept[a].0, kept[b].0);
            lemma_filter_origin(log, pred, a, b);
            let (i, j) = choose|i: int, j: int|
                0 <= i < j < log.len() && log[i] == kept[a] && log[j] == kept[b];
            log.lemma_filter_pred(pred, a);
            log.lemma_filter_pred(pred, b);
            assert(n.shares_leaf(fits, log[i].1, log[j].1));
        },
        Some(ch) => {
            let first = ch.0.node_pairs();
            let second = ch.1.node_pairs();
            assert(pairs_within(n.objects@) =~= Seq::<(usize, usize)>::empty());
            assert(n.node_pairs() =~= first + second);
            let (a, b) = if k < first.len() {
                lemma_reported_pair_shared(*ch.0, fits, kept, k);
                assert(x == first[k]);
                choose|a: int, b: int|
                    0 <= a < b < kept.len() && x == ordered_pair(kept[a].0, kept[b].0)
                        && ch.0.shares_leaf(fits, kept[a].1, kept[b].1)
            } else {
                lemma_reported_pair_shared(*ch.1, fits, kept, k - first.len());
                assert(x == second[k - first.len()]);
                choose|a: int, b: int|
                    0 <= a < b < kept.len() && x == ordered_pair(kept[a].0, kept[b].0)
                        && ch.1.shares_leaf(fits, kept[a].1, kept[b].1)
            };
            lemma_filter_origin(log, pred, a, b);
            let (i, j) = choose|i: int, j: int|
                0 <= i < j < log.len() && log[i] == kept[a] && log[j] == kept[b];
            log.lemma_filter_pred(pred, a);
            log.lemma_filter_pred(pred, b);
            assert(n.shares_leaf(fits, log[i].1, log[j].1));
        },
    }
}

/// `collect_pairs` reports, for a subtree handed the objects of `log`, exactly the ordered
/// index pairs of two objects of `log` (the earlier one first in `log`) that reach a common
/// leaf.
pub proof fn lemma_pairs_are_shared_leaves<B, P, F: Fn(&B, &P) -> bool>(
    n: QuadTreeNode<B, P>,
    fits: F,
    log: Seq<(usize, P)>,
)
    requires
        n.holds(fits, log),
    ensures
        forall|x: (usize, usize)| #[trigger]
            n.node_pairs().contains(x) <==> n.is_shared_pair(fits, log, x),
{
    assert forall|x: (usize, usize)| #[trigger]
        n.node_pairs().contains(x) <==> n.is_shared_pair(fits, log, x) by {
        if n.node_pairs().contains(x) {
            let k = choose|k: int| 0 <= k < n.node_pairs().len() && n.node_pairs()[k] == x;
            lemma_reported_pair_shared(n, fits, log, k);
        }
        if n.is_shared_pair(fits, log, x) {
            let (i, j) = choose|i: int, j: int|
                0 <= i < j < log.len() && x == ordered_pair(log[i].0, log[j].0)
                    && n.shares_leaf(fits, log[i].1, log[j].1);
            lemma_shared_leaf_reported(n, fits, log, i, j);
        }
    }
}

/// When splitting never loses an object, every object handed to a subtree that the region
/// test accepts for its region is held by some leaf of it.
pub proof fn lemma_accepted_object_stored<B, P, F: Fn(&B, &P) -> bool, S: Fn(&B) -> (B, B)>(
    n: QuadTreeNode<B, P>,
    fits: F,
    split: S,
    log: Seq<(usize, P)>,
    i: int,
)
    requires
        n.holds(fits, log),
        n.split_by(split),
        split_covers(fits, split),
        0 <= i < log.len(),
        touches(fits, n.bounds, log[i].1),
    ensures
        n.stores(log[i]),
    decreases n,
{
    let pred = in_region(fits, n.bounds);
    let kept = log.filter(pred);
    log.lemma_filter_contains(pred, i);
    let a = choose|a: int| 0 <= a < kept.len() && kept[a] == log[i];
    match n.children {
        None => {},
        Some(ch) => {
            let halves = (ch.0.bounds, ch.1.bounds);
            assert(split.ensures((&n.bounds,), halves));
            assert(touches(fits, halves.0, log[i].1) || touches(fits, halves.1, log[i].1));
            if touches(fits, ch.0.bounds, kept[a].1) {
                lemma_accepted_object_stored(*ch.0, fits, split, kept, a);
            } else {
                lemma_accepted_object_stored(*ch.1, fits, split, kept, a);
            }
        },
    }
}

/// Every object a leaf of a subtree holds was handed to it, and the region test accepts
/// it for the subtree's region.
pub proof fn lemma_stored_object_placed<B, P, F: Fn(&B, &P) -> bool>(
    n: QuadTreeNode<B, P>,
    fits: F,
    log: Seq<(usize, P)>,
    o: (usize, P),
)
    requires
        n.holds(fits, log),
        n.stores(o),
    ensures
        log.contains(o),
        touches(fits, n.bounds, o.1),
    decreases n,
{
    let pred = in_region(fits, n.bounds);
    let kept = log.filter(pred);
    match n.children {
        None => {},
        Some(ch) => {
            if ch.0.stores(o) {
                lemma_stored_object_placed(*ch.0, fits, kept, o);
            } else {
                lemma_stored_object_placed(*ch.1, fits, kept, o);
            }
        },
    }
    log.lemma_filter_contains_rev(pred, o);
    let a = choose|a: int| 0 <= a < kept.len() && kept[a] == o;
    log.lemma_filter_pred(pred, a);
}

/// When splitting only narrows, every leaf region of a subtree accepts only what `q` lets
/// through, provided the subtree's own region does.
proof fn lemma_leaves_within<B, P, F: Fn(&B, &P) -> bool, S: Fn(&B) -> (B, B)>(
    n: QuadTreeNode<B, P>,
    fits: F,
    split: S,
    q: spec_fn((usize, P)) -> bool,
)
    requires
        n.split_by(split),
        split_nested(fits, split),
        forall|o: (usize, P)| #![trigger q(o)] touches(fits, n.bounds, o.1) ==> q(o),
    ensures
        n.leaves_within(fits, q),
    decreases n,
{
    match n.children {
        None => {},
        Some(ch) => {
            let halves = (ch.0.bounds, ch.1.bounds);
            assert(split.ensures((&n.bounds,), halves));
            assert forall|o: (usize, P)| #![trigger q(o)] touches(fits, ch.0.bounds, o.1) implies q(o) by {
                assert(touches(fits, halves.0, o.1));
            }
            assert forall|o: (usize, P)| #![trigger q(o)] touches(fits, ch.1.bounds, o.1) implies q(o) by {
                assert(touches(fits, halves.1, o.1));
            }
            lemma_leaves_within(*ch.0, fits, split, q);
            lemma_leaves_within(*ch.1, fits, split, q);
        },
    }
}

/// Filtering the objects handed to a subtree by `q` changes nothing at leaves whose regions
/// accept only what `q` lets through.
proof fn lemma_leaves_unfiltered<B, P, F: Fn(&B, &P) -> bool>(
    n: QuadTreeNode<B, P>,
    fits: F,
    log: Seq<(usize, P)>,
    q: spec_fn((usize, P)) -> bool,
)
    requires
        n.holds_at_leaves(fits, log.filter(q)),
        n.leaves_within(fits, q),
    ensures
        n.holds_at_leaves(fits, log),
    decreases n,
{
    match n.children {
        None => {
            let r = in_region(fits, n.bounds);
            assert forall|o: (usize, P)| #[trigger] r(o) implies q(o) by {}
            lemma_filter_filter(log, q, r);
        },
        Some(ch) => {
            lemma_leaves_unfiltered(*ch.0, fits, log, q);
            lemma_leaves_unfiltered(*ch.1, fits, log, q);
        },
    }
}

/// When splitting only narrows, an object sits in exactly the leaves whose own region the
/// region test accepts for it, in the order objects came, and split nodes hold nothing.
pub proof fn lemma_holds_at_leaves<B, P, F: Fn(&B, &P) -> bool, S: Fn(&B) -> (B, B)>(
    n: QuadTreeNode<B, P>,
    fits: F,
    split: S,
    log: Seq<(usize, P)>,
)
    requires
        n.holds(fits, log),
        n.split_by(split),
        split_nested(fits, split),
    ensures
        n.holds_at_leaves(fits, log),
    decreases n,
{
    let pred = in_region(fits, n.bounds);
    let kept = log.filter(pred);
    match n.children {
        None => {},
        Some(ch) => {
            lemma_holds_at_leaves(*ch.0, fits, split, kept);
            lemma_holds_at_leaves(*ch.1, fits, split, kept);
            lemma_leaves_within(n, fits, split, pred);
            lemma_leaves_unfiltered(*ch.0, fits, log, pred);
            lemma_leaves_unfiltered(*ch.1, fits, log, pred);
        },
    }
}

/// Two payloads that meet within a subtree's region, where meeting passes down its splits,
/// reach a common leaf of it.
proof fn lemma_meeting_shares_leaf<B, P, F: Fn(&B, &P) -> bool, S: Fn(&B) -> (B, B)>(
    n: QuadTreeNode<B, P>,
    fits: F,
    split: S,
    meets: spec_fn(B, P, P) -> bool,
    p: P,
    q: P,
)
    requires
        n.split_by(split),
        meeting_passes_down(fits, split, meets),
        meets(n.bounds, p, q),
    ensures
        n.shares_leaf(fits, p, q),
    decreases n,
{
    match n.children {
        None => {},
        Some(ch) => {
            let halves = (ch.0.bounds, ch.1.bounds);
            assert(split.ensures((&n.bounds,), halves));
            if meets(halves.0, p, q) {
                lemma_meeting_shares_leaf(*ch.0, fits, split, meets, p, q);
            } else {
                lemma_meeting_shares_leaf(*ch.1, fits, split, meets, p, q);
            }
        },
    }
}

/// The broad phase misses no contact inside the region: two objects handed to a subtree
/// that meet within its region, where meeting passes down its splits, are reported
/// together by `collect_pairs`.
pub proof fn lemma_meeting_objects_reported<B, P, F: Fn(&B, &P) -> bool, S: Fn(&B) -> (B, B)>(
    n: QuadTreeNode<B, P>,
    fits: F,
    split: S,
    meets: spec_fn(B, P, P) -> bool,
    log: Seq<(usize, P)>,
    i: int,
    j: int,
)
    requires
        n.holds(fits, log),
        n.split_by(split),
        meeting_passes_down(fits, split, meets),
        0 <= i < j < log.len(),
        meets(n.bounds, log[i].1, log[j].1),
    ensures
        n.node_pairs().contains(ordered_pair(log[i].0, log[j].0)),
{
    lemma_meeting_shares_leaf(n, fits, split, meets, log[i].1, log[j].1);
    lemma_shared_leaf_reported(n, fits, log, i, j);
}

/// A subtree handed only the objects of `outer` that `q` lets through splits only where
/// its region accepts more than `QT_MAX_OBJECTS` objects of `outer`.
proof fn lemma_splits_needed_within<B, P, F: Fn(&B, &P) -> bool>(
    n: QuadTreeNode<B, P>,
    fits: F,
    outer: Seq<(usize, P)>,
    q: spec_fn((usize, P)) -> bool,
)
    requires
        n.holds(fits, outer.filter(q)),
    ensures
        n.splits_needed(fits, outer),
    decreases n,
{
    let r = in_region(fits, n.bounds);
    let both = |x: (usize, P)| q(x) && r(x);
    match n.children {
        None => {},
        Some(ch) => {
            lemma_filter_compose(outer, q, r);
            lemma_filter_len_mono(outer, both, r);
            lemma_splits_needed_within(*ch.0, fits, outer, both);
            lemma_splits_needed_within(*ch.1, fits, outer, both);
        },
    }
}

/// A tree built from the objects of `log` splits no node that it does not need to: every
/// split node's own region accepts more than `QT_MAX_OBJECTS` of them, so a node whose
/// region accepts at most that many stays a leaf.
pub proof fn lemma_splits_needed<B, P, F: Fn(&B, &P) -> bool>(
    n: QuadTreeNode<B, P>,
    fits: F,
    log: Seq<(usize, P)>,
)
    requires
        n.holds(fits, log),
    ensures
        n.splits_needed(fits, log),
{
    let all = |x: (usize, P)| true;
    lemma_filter_all(log, all);
    lemma_splits_needed_within(n, fits, log, all);
}

/// Every pair that `collect_pairs` reports has its smaller index first.
pub proof fn lemma_reported_pairs_ordered<B, P>(n: QuadTreeNode<B, P>)
    ensures
        forall|k: int| 0 <= k < n.node_pairs().len() ==> #[trigger] n.node_pairs()[k].0 <= n.node_pairs()[k].1,
    decreases n,
{
    let own = pairs_within(n.objects@);
    lemma_pairs_within(n.objects@);
    let rest = match n.children {
        None => Seq::<(usize, usize)>::empty(),
        Some(ch) => {
            lemma_reported_pairs_ordered(*ch.0);
            lemma_reported_pairs_ordered(*ch.1);
            ch.0.node_pairs() + ch.1.node_pairs()
        },
    };
    assert(n.node_pairs() == own + rest);
    assert forall|k: int| 0 <= k < n.node_pairs().len() implies #[trigger] n.node_pairs()[k].0
        <= n.node_pairs()[k].1 by {
        if k < own.len() {
            assert(is_pair_of(n.objects@, own[k]));
        } else {
            let r = k - own.len();
            match n.children {
                None => {},
                Some(ch) => {
                    if r < ch.0.node_pairs().len() {
                        assert(rest[r] == ch.0.node_pairs()[r]);
                    } else {
                        assert(rest[r] == ch.1.node_pairs()[r - ch.0.node_pairs().len()]);
                    }
                },
            }
        }
    }
}

/// A subtree that keeps the shape rules has at most 2 to the power of its levels left
/// below it leaves.
pub proof fn lemma_leaf_count_bound<B, P>(n: QuadTreeNode<B, P>)
    requires
        n.wf(),
    ensures
        n.leaf_count() <= leaf_capacity((QT_MAX_DEPTH - n.depth) as nat),
    decreases n,
{
    match n.children {
        None => {
            lemma_leaf_capacity_positive((QT_MAX_DEPTH - n.depth) as nat);
        },
        Some(ch) => {
            lemma_leaf_count_bound(*ch.0);
            lemma_leaf_count_bound(*ch.1);
        },
    }
}

/// A tree has at least one leaf.
proof fn lemma_leaf_capacity_positive(k: nat)
    ensures
        leaf_capacity(k) >= 1,
    decreases k,
{
    if k > 0 {
        lemma_leaf_capacity_positive((k - 1) as nat);
    }
}

/// No subtree has more than 2 to the power of `QT_MAX_DEPTH` leaves.
proof fn lemma_leaf_capacity_max(k: nat)
    requires
        k <= QT_MAX_DEPTH,
    ensures
        leaf_capacity(k) <= 32768,
    decreases QT_MAX_DEPTH - k,
{
    if k < QT_MAX_DEPTH {
        lemma_leaf_capacity_max(k + 1);
    } else {
        reveal_with_fuel(leaf_capacity, 16);
        assert(leaf_capacity(15) == 32768);
    }
}

} // verus!
