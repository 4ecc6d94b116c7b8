use vstd::prelude::*;
use crate::pairs::pairs_within;
use crate::quadtree::QuadTreeNode;

verus! {

/// The number of objects in all the lists together.
pub open spec fn total_len<P>(lists: Seq<Seq<(usize, P)>>) -> nat
    decreases lists.len(),
{
    if lists.len() == 0 {
        0
    } else {
        total_len(lists.drop_last()) + lists.last().len()
    }
}

/// The pairs of every two objects of each list, list after list.
pub open spec fn pairs_of_lists<P>(lists: Seq<Seq<(usize, P)>>) -> Seq<(usize, usize)>
    decreases lists.len(),
{
    if lists.len() == 0 {
        Seq::empty()
    } else {
        pairs_of_lists(lists.drop_last()) + pairs_within(lists.last())
    }
}

impl<B, P> QuadTreeNode<B, P> {
    /// What each leaf of the subtree holds, leaf after leaf: the first child's leaves before
    /// the second's.
    pub open spec fn leaf_lists(self) -> Seq<Seq<(usize, P)>>
        decreases self,
    {
        match self.children {
            None => seq![self.objects@],
            Some(ch) => ch.0.leaf_lists() + ch.1.leaf_lists(),
        }
    }
}

proof fn lemma_total_len_join<P>(a: Seq<Seq<(usize, P)>>, b: Seq<Seq<(usize, P)>>)
    ensures
        total_len(a + b) == total_len(a) + total_len(b),
    decreases b.len(),
{
    if b.len() == 0 {
        assert(a + b =~= a);
    } else {
        lemma_total_len_join(a, b.drop_last());
        assert((a + b).drop_last() =~= a + b.drop_last());
        assert((a + b).last() == b.last());
    }
}

proof fn lemma_pairs_of_lists_join<P>(a: Seq<Seq<(usize, P)>>, b: Seq<Seq<(usize, P)>>)
    ensures
        pairs_of_lists(a + b) == pairs_of_lists(a) + pairs_of_lists(b),
    decreases b.len(),
{
    if b.len() == 0 {
        assert(a + b =~= a);
        assert(pairs_of_lists(a) + pairs_of_lists(b) =~= pairs_of_lists(a));
    } else {
        lemma_pairs_of_lists_join(a, b.drop_last());
        assert((a + b).drop_last() =~= a + b.drop_last());
        assert((a + b).last() == b.last());
        assert(pairs_of_lists(a + b) =~= pairs_of_lists(a) + pairs_of_lists(b));
    }
}

/// In a tree that keeps the shape rules, the counts and the pairs are those of its leaves:
/// the objects held are those of all leaves together (each copy counted once per leaf),
/// there is one leaf per list, and `collect_pairs` reports, leaf after leaf, the pair of
/// every two objects a leaf holds, and nothing else: each pair as often as there are leaves
/// that hold both its objects (twice over for an object held twice).
pub proof fn lemma_counts_and_pairs_by_leaves<B, P>(n: QuadTreeNode<B, P>)
    requires
        n.wf(),
    ensures
        n.object_count() == total_len(n.leaf_lists()),
        n.leaf_count() == n.leaf_lists().len(),
        n.node_pairs() == pairs_of_lists(n.leaf_lists()),
    decreases n,
{
    match n.children {
        None => {
            let lists = n.leaf_lists();
            assert(lists.drop_last() =~= Seq::<Seq<(usize, P)>>::empty());
            assert(lists.last() == n.objects@);
            let none = Seq::<Seq<(usize, P)>>::empty();
            assert(total_len(none) == 0);
            assert(pairs_of_lists(none) == Seq::<(usize, usize)>::empty());
            assert(total_len(lists) == total_len(none) + n.objects@.len());
            assert(pairs_of_lists(lists) == pairs_of_lists(none) + pairs_within(n.objects@));
            assert(pairs_of_lists(lists) =~= pairs_within(n.objects@));
            assert(n.node_pairs() =~= pairs_within(n.objects@));
        },
        Some(ch) => {
            lemma_counts_and_pairs_by_leaves(*ch.0);
            lemma_counts_and_pairs_by_leaves(*ch.1);
            lemma_total_len_join(ch.0.leaf_lists(), ch.1.leaf_lists());
            lemma_pairs_of_lists_join(ch.0.leaf_lists(), ch.1.leaf_lists());
            assert(n.objects@ =~= Seq::<(usize, P)>::empty());
            assert(pairs_within(n.objects@) =~= Seq::<(usize, usize)>::empty());
            assert(n.node_pairs() =~= ch.0.node_pairs() + ch.1.node_pairs());
        },
    }
}

} // verus!
