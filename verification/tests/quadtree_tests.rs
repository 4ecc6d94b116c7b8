use verlet_solver::pairs::{order_pair, push_pairs_within};
use verlet_solver::quadtree::QuadTreeNode;
use verlet_solver::tree::QuadTree;
use verlet_solver::{QT_MAX_DEPTH, QT_MAX_OBJECTS};

#[derive(Clone, Copy, Debug, PartialEq)]
struct Rect {
    left: f32,
    right: f32,
    bottom: f32,
    top: f32,
}

type Circle = (f32, f32, f32);

fn rect(left: f32, bottom: f32, right: f32, top: f32) -> Rect {
    Rect { left, right, bottom, top }
}

fn fits(b: &Rect, c: &Circle) -> bool {
    let closest_x = c.0.clamp(b.left, b.right);
    let closest_y = c.1.clamp(b.bottom, b.top);
    let dx = c.0 - closest_x;
    let dy = c.1 - closest_y;
    dx * dx + dy * dy <= c.2 * c.2
}

fn split(b: &Rect) -> (Rect, Rect) {
    let mid_x = (b.left + b.right) / 2.0;
    let mid_y = (b.bottom + b.top) / 2.0;
    if b.right - b.left > b.top - b.bottom {
        (rect(b.left, b.bottom, mid_x, b.top), rect(mid_x, b.bottom, b.right, b.top))
    } else {
        (rect(b.left, mid_y, b.right, b.top), rect(b.left, b.bottom, b.right, mid_y))
    }
}

fn world() -> Rect {
    rect(0.0, 0.0, 200.0, 100.0)
}

#[test]
fn order_pair_puts_smaller_first() {
    assert_eq!(order_pair(3, 7), (3, 7));
    assert_eq!(order_pair(7, 3), (3, 7));
    assert_eq!(order_pair(5, 5), (5, 5));
}

#[test]
fn pairs_within_lists_every_two_entries_in_order() {
    let objects: Vec<(usize, u8)> = vec![(4, 0), (1, 0), (9, 0)];
    let mut pairs = vec![(100, 200)];
    push_pairs_within(&objects, &mut pairs);
    assert_eq!(pairs, vec![(100, 200), (1, 4), (4, 9), (1, 9)]);
}

#[test]
fn pairs_within_of_one_entry_is_empty() {
    let objects: Vec<(usize, u8)> = vec![(4, 0)];
    let mut pairs = Vec::new();
    push_pairs_within(&objects, &mut pairs);
    assert!(pairs.is_empty());
}

#[test]
fn constants_match() {
    assert_eq!(QT_MAX_DEPTH, 15);
    assert_eq!(QT_MAX_OBJECTS, 1);
}

#[test]
fn new_tree_is_one_empty_leaf() {
    let tree: QuadTree<Rect, Circle> = QuadTree::new(world());
    assert_eq!(tree.count_objects_and_nodes(), (0, 1));
    assert_eq!(tree.root.bounds, world());
    assert!(tree.root.children.is_none());
    assert_eq!(tree.root.depth, 0);
}

#[test]
fn one_object_stays_in_the_root_leaf() {
    let mut tree: QuadTree<Rect, Circle> = QuadTree::new(world());
    tree.insert(0, (10.0, 10.0, 1.0), &fits, &split);
    assert_eq!(tree.count_objects_and_nodes(), (1, 1));
    assert_eq!(tree.root.objects, vec![(0, (10.0, 10.0, 1.0))]);
    let mut pairs = vec![(9, 9)];
    tree.collect_pairs(&mut pairs);
    assert!(pairs.is_empty());
}

#[test]
fn object_outside_the_world_is_dropped() {
    let mut tree: QuadTree<Rect, Circle> = QuadTree::new(world());
    tree.insert(0, (500.0, 500.0, 1.0), &fits, &split);
    assert_eq!(tree.count_objects_and_nodes(), (0, 1));
}

#[test]
fn second_object_splits_the_root() {
    let mut tree: QuadTree<Rect, Circle> = QuadTree::new(world());
    tree.insert(0, (10.0, 50.0, 1.0), &fits, &split);
    tree.insert(1, (190.0, 50.0, 1.0), &fits, &split);
    // The root splits into left and right halves; each object lands in one of them.
    assert_eq!(tree.count_objects_and_nodes(), (2, 2));
    assert!(tree.root.objects.is_empty());
    let (left, right) = tree.root.children.as_ref().unwrap();
    assert_eq!(left.bounds, rect(0.0, 0.0, 100.0, 100.0));
    assert_eq!(right.bounds, rect(100.0, 0.0, 200.0, 100.0));
    assert_eq!(left.depth, 1);
    assert_eq!(left.objects, vec![(0, (10.0, 50.0, 1.0))]);
    assert_eq!(right.objects, vec![(1, (190.0, 50.0, 1.0))]);
    let mut pairs = Vec::new();
    tree.collect_pairs(&mut pairs);
    assert!(pairs.is_empty());
}

#[test]
fn two_objects_at_one_spot_split_down_to_the_deepest_level() {
    let mut tree: QuadTree<Rect, Circle> = QuadTree::new(world());
    tree.insert(0, (30.1, 30.1, 0.0), &fits, &split);
    tree.insert(1, (30.1, 30.1, 0.0), &fits, &split);
    // Each of the 15 splits leaves one empty sibling: 16 leaves, and the deepest holds both.
    assert_eq!(tree.count_objects_and_nodes(), (2, 16));
    let mut pairs = Vec::new();
    tree.collect_pairs(&mut pairs);
    assert_eq!(pairs, vec![(0, 1)]);
    let mut node = &tree.root;
    while let Some((a, b)) = &node.children {
        node = if a.children.is_some() || !a.objects.is_empty() { a } else { b };
    }
    assert_eq!(node.depth, QT_MAX_DEPTH);
    assert_eq!(node.objects.len(), 2);
}

#[test]
fn object_on_a_split_line_goes_to_both_children() {
    let mut tree: QuadTree<Rect, Circle> = QuadTree::new(world());
    tree.insert(0, (100.0, 20.0, 2.0), &fits, &split);
    tree.insert(1, (10.0, 80.0, 1.0), &fits, &split);
    let (left, right) = tree.root.children.as_ref().unwrap();
    assert_eq!(right.objects, vec![(0, (100.0, 20.0, 2.0))]);
    // The left half held both and split again into a top and a bottom quarter.
    assert!(left.objects.is_empty());
    let (top, bottom) = left.children.as_ref().unwrap();
    assert_eq!(top.objects, vec![(1, (10.0, 80.0, 1.0))]);
    assert_eq!(bottom.objects, vec![(0, (100.0, 20.0, 2.0))]);
    assert_eq!(tree.count_objects_and_nodes(), (3, 3));
}

#[test]
fn clear_collapses_the_tree() {
    let mut tree: QuadTree<Rect, Circle> = QuadTree::new(world());
    for i in 0..10 {
        let x = 5.0 + 9.0 * i as f32;
        tree.insert(i, (x, x, 1.0), &fits, &split);
    }
    assert!(tree.root.children.is_some());
    tree.clear();
    assert!(tree.root.children.is_none());
    assert!(tree.root.objects.is_empty());
    assert_eq!(tree.root.bounds, world());
    assert_eq!(tree.count_objects_and_nodes(), (0, 1));
}

#[test]
fn node_clear_keeps_region_and_depth() {
    let mut node: QuadTreeNode<Rect, Circle> = QuadTreeNode::new(rect(0.0, 0.0, 10.0, 10.0), 3);
    node.objects.push((2, (1.0, 1.0, 1.0)));
    node.clear();
    assert!(node.objects.is_empty());
    assert_eq!(node.depth, 3);
    assert_eq!(node.bounds, rect(0.0, 0.0, 10.0, 10.0));
}

#[test]
fn rebuild_reports_exactly_the_pairs_that_share_a_leaf() {
    let mut tree: QuadTree<Rect, Circle> = QuadTree::new(world());
    let items: Vec<Circle> =
        vec![(20.0, 20.0, 3.0), (180.0, 80.0, 3.0), (22.0, 21.0, 3.0), (181.0, 79.0, 3.0)];
    let mut pairs = vec![(7, 7)];
    tree.rebuild_and_collect_pairs(&items, &fits, &split, &mut pairs);
    assert_eq!(tree.count_objects_and_nodes().0 >= 4, true);
    assert!(pairs.contains(&(0, 2)));
    assert!(pairs.contains(&(1, 3)));
    assert!(!pairs.contains(&(0, 1)));
    assert!(!pairs.contains(&(2, 3)));
    assert!(!pairs.contains(&(7, 7)));
    for (a, b) in &pairs {
        assert!(a < b);
    }
}

#[test]
fn rebuild_forgets_the_previous_contents() {
    let mut tree: QuadTree<Rect, Circle> = QuadTree::new(world());
    let mut pairs = Vec::new();
    tree.rebuild_and_collect_pairs(&vec![(1.0, 1.0, 1.0), (2.0, 2.0, 1.0)], &fits, &split, &mut pairs);
    assert!(pairs.contains(&(0, 1)));
    tree.rebuild_and_collect_pairs(&vec![(90.0, 90.0, 1.0)], &fits, &split, &mut pairs);
    assert!(pairs.is_empty());
    assert_eq!(tree.count_objects_and_nodes(), (1, 1));
}

#[test]
fn four_entries_make_six_pairs() {
    let objects: Vec<(usize, u8)> = vec![(0, 0), (1, 0), (2, 0), (3, 0)];
    let mut pairs = Vec::new();
    push_pairs_within(&objects, &mut pairs);
    assert_eq!(pairs.len(), 6);
    assert_eq!(pairs, vec![(0, 1), (0, 2), (0, 3), (1, 2), (1, 3), (2, 3)]);
}

#[test]
fn objects_sharing_several_leaves_are_reported_once_per_leaf() {
    let mut tree: QuadTree<Rect, Circle> = QuadTree::new(world());
    let mut pairs = Vec::new();
    tree.rebuild_and_collect_pairs(&vec![(100.0, 50.0, 5.0), (100.0, 52.0, 5.0)], &fits, &split, &mut pairs);
    assert!(pairs.len() >= 2);
    for p in &pairs {
        assert_eq!(*p, (0, 1));
    }
    let (objects, leaves) = tree.count_objects_and_nodes();
    assert!(leaves >= 2);
    assert!(objects >= 4);
}

#[test]
fn node_count_of_a_split_node_adds_its_children() {
    let mut node: QuadTreeNode<Rect, Circle> = QuadTreeNode::new(rect(0.0, 0.0, 10.0, 10.0), 0);
    let first = QuadTreeNode::new(rect(0.0, 5.0, 10.0, 10.0), 1);
    let mut second = QuadTreeNode::new(rect(0.0, 0.0, 10.0, 5.0), 1);
    second.objects.push((4, (1.0, 1.0, 1.0)));
    node.children = Some((Box::new(first), Box::new(second)));
    assert_eq!(node.count_objects_and_nodes(), (1, 2));
    let mut pairs = Vec::new();
    node.collect_pairs(&mut pairs);
    assert!(pairs.is_empty());
    node.clear();
    assert!(node.children.is_none());
    assert_eq!(node.count_objects_and_nodes(), (0, 1));
}

#[test]
fn rejected_object_leaves_the_tree_unchanged() {
    let mut tree: QuadTree<Rect, Circle> = QuadTree::new(world());
    tree.insert(0, (10.0, 50.0, 1.0), &fits, &split);
    tree.insert(1, (190.0, 50.0, 1.0), &fits, &split);
    let before_root = tree.root.objects.clone();
    let (left, right) = tree.root.children.as_ref().unwrap();
    let (left_before, right_before) = (left.objects.clone(), right.objects.clone());
    tree.insert(2, (-50.0, -50.0, 1.0), &fits, &split);
    assert_eq!(tree.root.objects, before_root);
    let (left, right) = tree.root.children.as_ref().unwrap();
    assert_eq!(left.objects, left_before);
    assert_eq!(right.objects, right_before);
    assert!(left.children.is_none() && right.children.is_none());
    assert_eq!(tree.count_objects_and_nodes(), (2, 2));
}

fn check_leaves(node: &QuadTreeNode<Rect, Circle>, placed: &[(usize, Circle)]) -> usize {
    match &node.children {
        None => {
            let expected: Vec<(usize, Circle)> =
                placed.iter().copied().filter(|o| fits(&node.bounds, &o.1)).collect();
            assert_eq!(node.objects, expected);
            1
        }
        Some((a, b)) => {
            assert!(node.objects.is_empty());
            check_leaves(a, placed) + check_leaves(b, placed)
        }
    }
}

#[test]
fn every_leaf_holds_exactly_the_objects_touching_it() {
    let mut tree: QuadTree<Rect, Circle> = QuadTree::new(world());
    let mut placed = Vec::new();
    for i in 0..12usize {
        let x = 7.0 + 15.0 * i as f32;
        let y = 5.0 + (37.0 * i as f32) % 90.0;
        let c = (x, y, 6.0);
        tree.insert(i, c, &fits, &split);
        placed.push((i, c));
    }
    assert!(tree.root.children.is_some());
    let leaves = check_leaves(&tree.root, &placed);
    assert_eq!(tree.count_objects_and_nodes().1, leaves);
}

#[test]
fn overlapping_discs_inside_the_world_are_reported() {
    let mut tree: QuadTree<Rect, Circle> = QuadTree::new(world());
    let items: Vec<Circle> = vec![(99.0, 50.0, 2.0), (60.0, 10.0, 1.0), (102.0, 51.0, 2.0), (150.0, 90.0, 1.0)];
    let mut pairs = Vec::new();
    tree.rebuild_and_collect_pairs(&items, &fits, &split, &mut pairs);
    assert!(pairs.contains(&(0, 2)));
    assert!(!pairs.contains(&(0, 1)));
    assert!(!pairs.contains(&(1, 3)));
}
