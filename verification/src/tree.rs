use vstd::prelude::*;
use crate::quadtree::{
    QuadTreeNode, lemma_accepted_object_stored, lemma_holds_at_leaves,
    lemma_meeting_objects_reported, lemma_pairs_are_shared_leaves, meeting_passes_down,
    lemma_splits_needed, region_split, region_test, split_covers, split_nested, touches,
};
use crate::pairs::ordered_pair;
use crate::leaves::{lemma_counts_and_pairs_by_leaves, pairs_of_lists, total_len};

verus! {

/// The tree over a world region: its root node, and the objects placed in it since it was
/// last emptied, in the order they came.
pub struct QuadTree<B, P> {
    pub root: QuadTreeNode<B, P>,
    pub placed: Ghost<Seq<(usize, P)>>,
}

/// Payloads numbered by their position: object `i` has payload `items[i]`.
pub open spec fn numbered<P>(items: Seq<P>) -> Seq<(usize, P)> {
    Seq::new(items.len(), |i: int| (i as usize, items[i]))
}

/// An empty tree holds what no objects leave in it, whatever the region test and split.
pub proof fn lemma_empty_tree_placed_by<B, P, F: Fn(&B, &P) -> bool, S: Fn(&B) -> (B, B)>(
    tree: QuadTree<B, P>,
    fits: F,
    split: S,
)
    requires
        tree.is_empty_over(tree.root.bounds),
    ensures
        tree.placed_by(fits, split),
{
    reveal(Seq::filter);
    assert(tree.root.objects@ =~= tree.placed@.filter(
        crate::quadtree::in_region(fits, tree.root.bounds),
    ));
}

/// When splitting only narrows, every leaf of the tree holds exactly the placed objects
/// that the region test accepts for the leaf's own region, in the order they were placed,
/// and every split node holds none.
pub proof fn lemma_tree_leaves_hold_what_touches_them<
    B,
    P,
    F: Fn(&B, &P) -> bool,
    S: Fn(&B) -> (B, B),
>(tree: QuadTree<B, P>, fits: F, split: S)
    requires
        tree.placed_by(fits, split),
        split_nested(fits, split),
    ensures
        tree.root.holds_at_leaves(fits, tree.placed@),
{
    lemma_holds_at_leaves(tree.root, fits, split, tree.placed@);
}

/// The broad phase misses no contact inside the world: when the tree was built from
/// `items` (object `i` with payload `items[i]`) and meeting passes down its splits, every
/// two items `i < j` that meet within the world region are reported as the pair `(i, j)`.
pub proof fn lemma_tree_reports_meeting_items<
    B,
    P,
    F: Fn(&B, &P) -> bool,
    S: Fn(&B) -> (B, B),
>(
    tree: QuadTree<B, P>,
    fits: F,
    split: S,
    meets: spec_fn(B, P, P) -> bool,
    items: Seq<P>,
    i: int,
    j: int,
)
    requires
        tree.placed_by(fits, split),
        tree.placed@ == numbered(items),
        meeting_passes_down(fits, split, meets),
        items.len() <= usize::MAX,
        0 <= i < j < items.len(),
        meets(tree.root.bounds, items[i], items[j]),
    ensures
        tree.root.node_pairs().contains((i as usize, j as usize)),
{
    let log = tree.placed@;
    assert(log[i] == (i as usize, items[i]));
    assert(log[j] == (j as usize, items[j]));
    lemma_meeting_objects_reported(tree.root, fits, split, meets, log, i, j);
}

impl<B, P> QuadTree<B, P> {
    /// The root stands at level 0 and the tree keeps the shape rules.
    pub open spec fn wf(self) -> bool {
        &&& self.root.depth == 0
        &&& self.root.wf()
    }

    /// The tree holds exactly what the placed objects leave in it under region test `fits`,
    /// its split nodes split by `split`.
    pub open spec fn placed_by<F: Fn(&B, &P) -> bool, S: Fn(&B) -> (B, B)>(self, fits: F, split: S) -> bool {
        &&& self.root.holds(fits, self.placed@)
        &&& self.root.split_by(split)
    }

    /// An empty tree: one empty leaf over `bounds`, with nothing placed.
    pub open spec fn is_empty_over(self, bounds: B) -> bool {
        &&& self.root.is_empty_leaf(bounds, self.root.depth as nat)
        &&& self.placed@ == Seq::<(usize, P)>::empty()
    }

    /// An empty tree over `bounds`.
    pub fn new(bounds: B) -> (tree: Self)
        ensures
            tree.wf(),
            tree.is_empty_over(bounds),
    {
        QuadTree { root: QuadTreeNode::new(bounds, 0), placed: Ghost(Seq::empty()) }
    }

    /// Empties the tree: it becomes one empty leaf over the same region.
    pub fn clear(&mut self)
        ensures
            final(self).is_empty_over(old(self).root.bounds),
            final(self).root.depth == old(self).root.depth,
            old(self).wf() ==> final(self).wf(),
    {
        self.root.clear();
        self.placed = Ghost(Seq::empty());
    }

    /// Places object `index` with payload `item`: every leaf whose region, and the regions
    /// of all nodes above it, the test `fits` accepts for `item` takes it; a leaf that grows
    /// past `QT_MAX_OBJECTS` above the deepest level splits with `split`.
    pub fn insert<F: Fn(&B, &P) -> bool, S: Fn(&B) -> (B, B)>(
        &mut self,
        index: usize,
        item: P,
        fits: &F,
        split: &S,
    ) where P: Copy
        requires
            old(self).wf(),
            old(self).placed_by(*fits, *split),
            region_test(*fits),
            region_split(*split),
        ensures
            final(self).wf(),
            final(self).placed_by(*fits, *split),
            final(self).placed@ == old(self).placed@.push((index, item)),
            final(self).root.splits_needed(*fits, final(self).placed@),
            final(self).root.bounds == old(self).root.bounds,
            !touches(*fits, old(self).root.bounds, item) ==> final(self).root == old(self).root,
    {
        let ghost log = self.placed@;
        self.root.insert(index, item, fits, split, Ghost(log));
        self.placed = Ghost(log.push((index, item)));
    }

    /// Replaces `pairs` with the ordered index pair of every two objects that one node of
    /// the tree holds together.
    pub fn collect_pairs(&self, pairs: &mut Vec<(usize, usize)>)
        ensures
            final(pairs)@ == self.root.node_pairs(),
            self.root.wf() ==> final(pairs)@ == pairs_of_lists(self.root.leaf_lists()),
    {
        pairs.clear();
        self.root.collect_pairs(pairs);
    }

    /// The number of objects held over the tree, each copy counted, and the number of
    /// leaves.
    pub fn count_objects_and_nodes(&self) -> (r: (usize, usize))
        requires
            self.wf(),
            self.root.object_count() <= usize::MAX,
        ensures
            r.0 == self.root.object_count(),
            r.1 == self.root.leaf_count(),
            r.0 == total_len(self.root.leaf_lists()),
            r.1 == self.root.leaf_lists().len(),
    {
        self.root.count_objects_and_nodes()
    }

    /// Empties the tree, places object `i` with payload `items[i]` for each `i` in order,
    /// and replaces `pairs` with the pairs the tree then reports: exactly the pairs `(a, b)`
    /// with `a < b` of objects that reach a common leaf. When splitting only narrows, each
    /// leaf holds exactly the items its own region accepts; when splitting never loses an
    /// object, every object the region test accepts for the world region is in some leaf.
    pub fn rebuild_and_collect_pairs<F: Fn(&B, &P) -> bool, S: Fn(&B) -> (B, B)>(
        &mut self,
        items: &Vec<P>,
        fits: &F,
        split: &S,
        pairs: &mut Vec<(usize, usize)>,
    ) where P: Copy
        requires
            old(self).wf(),
            region_test(*fits),
            region_split(*split),
        ensures
            final(self).wf(),
            final(self).root.bounds == old(self).root.bounds,
            final(self).placed@ == numbered(items@),
            final(self).placed_by(*fits, *split),
            final(pairs)@ == final(self).root.node_pairs(),
            final(pairs)@ == pairs_of_lists(final(self).root.leaf_lists()),
            final(self).root.splits_needed(*fits, numbered(items@)),
            forall|a: usize, b: usize| #[trigger]
                final(pairs)@.contains((a, b)) <==> {
                    &&& a < b < items.len()
                    &&& final(self).root.shares_leaf(*fits, items@[a as int], items@[b as int])
                },
            split_nested(*fits, *split) ==> final(self).root.holds_at_leaves(*fits, numbered(items@)),
            split_covers(*fits, *split) ==> forall|i: int|
                0 <= i < items.len() && #[trigger] touches(*fits, old(self).root.bounds, items@[i])
                    ==> final(self).root.stores((i as usize, items@[i])),
    {
        self.clear();
        proof {
            lemma_empty_tree_placed_by(*self, *fits, *split);
            assert(self.placed@ =~= numbered(items@.take(0)));
        }
        let n = items.len();
        let mut i: usize = 0;
        while i < n
            invariant
                n == items@.len(),
                i <= n,
                self.wf(),
                self.root.bounds == old(self).root.bounds,
                self.placed_by(*fits, *split),
                self.placed@ == numbered(items@.take(i as int)),
                region_test(*fits),
                region_split(*split),
            decreases n - i,
        {
            self.insert(i, items[i], fits, split);
            proof {
                assert(numbered(items@.take(i as int)).push((i, items@[i as int])) =~= numbered(
                    items@.take(i + 1),
                ));
            }
            i = i + 1;
        }
        proof {
            assert(items@.take(n as int) =~= items@);
        }
        self.collect_pairs(pairs);
        proof {
            let log = self.placed@;
            lemma_counts_and_pairs_by_leaves(self.root);
            lemma_splits_needed(self.root, *fits, log);
            if split_nested(*fits, *split) {
                lemma_holds_at_leaves(self.root, *fits, *split, log);
            }
            if split_covers(*fits, *split) {
                assert forall|i: int|
                    0 <= i < items.len() && #[trigger] touches(*fits, old(self).root.bounds, items@[i])
                        implies self.root.stores((i as usize, items@[i])) by {
                    assert(log[i] == (i as usize, items@[i]));
                    lemma_accepted_object_stored(self.root, *fits, *split, log, i);
                }
            }
            lemma_pairs_are_shared_leaves(self.root, *fits, log);
            assert forall|a: usize, b: usize| #[trigger]
                pairs@.contains((a, b)) <==> {
                    &&& a < b < items.len()
                    &&& self.root.shares_leaf(*fits, items@[a as int], items@[b as int])
                } by {
                if pairs@.contains((a, b)) {
                    assert(self.root.is_shared_pair(*fits, log, (a, b)));
                    let (i, j) = choose|i: int, j: int|
                        0 <= i < j < log.len() && (a, b) == ordered_pair(log[i].0, log[j].0)
                            && self.root.shares_leaf(*fits, log[i].1, log[j].1);
                    assert(log[i].0 == i && log[j].0 == j);
                }
                if a < b < items.len() && self.root.shares_leaf(
                    *fits,
                    items@[a as int],
                    items@[b as int],
                ) {
                    assert(log[a as int] == (a, items@[a as int]));
                    assert(log[b as int] == (b, items@[b as int]));
                    assert((a, b) == ordered_pair(log[a as int].0, log[b as int].0));
                    assert(self.root.shares_leaf(*fits, log[a as int].1, log[b as int].1));
                    assert(self.root.is_shared_pair(*fits, log, (a, b)));
                }
            }
        }
    }
}

} // verus!
