//! The bounding-volume hierarchy behind the R-tree and the BVH: the split
//! heuristic, bulk construction, and insertion and removal.

use understory::box_tree::keys::{float_key, point_to_keys, rect_to_aabb};
use understory::index::backends::bulk::{arrange, build, pack_leaves, pack_level, sort_items};
use understory::index::backends::grid::cells_in_ranges;
use understory::index::backends::hierarchy::{encloses_box, HNode, Hierarchy, Item, Probe};
use understory::index::backends::sah::{centre, cheapest_cut, choose_split, order_by_centre};
use understory::index::{max_t, min_t, Aabb2D, Index};

fn unit(x: i64, y: i64) -> Aabb2D<i64> {
    Aabb2D::new(x, y, x + 1, y + 1)
}

/// The slots of each leaf beneath `node`, each leaf's slots sorted, and the
/// leaves sorted.
fn leaves(node: &HNode<i64>) -> Vec<Vec<usize>> {
    fn walk(node: &HNode<i64>, out: &mut Vec<Vec<usize>>) {
        if !node.items.is_empty() {
            let mut slots: Vec<usize> = node.items.iter().map(|it| it.slot).collect();
            slots.sort();
            out.push(slots);
        }
        for kid in &node.kids {
            walk(kid, out);
        }
    }
    let mut out = Vec::new();
    walk(node, &mut out);
    out.sort();
    out
}

/// Check that every box beneath `node` lies within the boxes above it, and
/// return the number of items.
fn check_boxes(node: &HNode<i64>) -> usize {
    let mut n = node.items.len();
    for it in &node.items {
        assert!(encloses_box(&node.bbox, &it.aabb));
    }
    for kid in &node.kids {
        if !kid.items.is_empty() || !kid.kids.is_empty() {
            assert!(encloses_box(&node.bbox, &kid.bbox));
        }
        n += check_boxes(kid);
    }
    n
}

#[test]
fn centres_are_midpoints() {
    let b = Aabb2D::new(0i64, 0, 3, 6);
    assert_eq!(centre(&b, true), 1);
    assert_eq!(centre(&b, false), 3);
    assert_eq!(centre(&Aabb2D::new(i64::MAX - 2, -5, i64::MAX, -2), true), i64::MAX - 1);
    assert_eq!(centre(&Aabb2D::new(i64::MAX - 2, -5, i64::MAX, -2), false), -4);
    assert_eq!(min_t(3i64, -3), -3);
    assert_eq!(max_t(3i64, -3), 3);
}

#[test]
fn order_by_centre_is_stable() {
    let boxes = vec![unit(10, 0), unit(0, 5), unit(12, 0), unit(2, 5), unit(10, 9)];
    assert_eq!(order_by_centre(&boxes, true), vec![1, 3, 0, 4, 2]);
    assert_eq!(order_by_centre(&boxes, false), vec![0, 2, 1, 3, 4]);
    assert_eq!(order_by_centre(&Vec::<Aabb2D<i64>>::new(), true), Vec::<usize>::new());
}

#[test]
fn cut_costs_follow_the_formula() {
    // Two pairs of unit squares, far apart along x.
    let boxes = vec![unit(10, 0), unit(0, 0), unit(12, 0), unit(2, 0)];
    let order = order_by_centre(&boxes, true);
    assert_eq!(order, vec![1, 3, 0, 2]);
    // After one box: 1 * 1 + 11 * 3; after two: 3 * 2 + 3 * 2; after three: 11 * 3 + 1 * 1.
    assert_eq!(cheapest_cut(&boxes, &order), (2, 12));
    // In the order given: 1 * 1 + 13 * 3, then 11 * 2 + 11 * 2, then 13 * 3 + 1 * 1.
    assert_eq!(cheapest_cut(&boxes, &vec![0, 1, 2, 3]), (1, 40));
    assert_eq!(cheapest_cut(&vec![unit(0, 0), Aabb2D::new(0, 0, 4, 5)], &vec![0, 1]), (1, 21));
}

#[test]
fn split_takes_the_cheaper_axis() {
    let along_x = vec![unit(10, 0), unit(0, 0), unit(12, 0), unit(2, 0)];
    assert_eq!(choose_split(&along_x), (vec![1, 3, 0, 2], 2));
    let along_y = vec![unit(0, 10), unit(0, 0), unit(0, 12), unit(0, 2)];
    assert_eq!(choose_split(&along_y), (vec![1, 3, 0, 2], 2));
    // Where the axes cost the same, x is taken.
    let square = vec![unit(0, 0), unit(5, 5)];
    assert_eq!(choose_split(&square), (vec![0, 1], 1));
}

#[test]
fn nodes_split_when_overfull() {
    let mut root: HNode<i64> = HNode::vacant(unit(0, 0));
    let boxes = [unit(10, 0), unit(0, 0), unit(12, 0), unit(2, 0)];
    for (slot, aabb) in boxes.iter().enumerate() {
        let split = root.insert(Item { slot, aabb: *aabb }, 4, 2);
        assert!(split.is_none());
    }
    assert_eq!(root.bbox, Aabb2D::new(0, 0, 13, 1));
    assert_eq!(root.items.len(), 4);
    // The fifth item makes the leaf overfull: it is cut where the cost is least.
    let split = root.insert(Item { slot: 4, aabb: unit(14, 0) }, 4, 2).unwrap();
    assert_eq!(leaves(&root), vec![vec![1, 3]]);
    assert_eq!(leaves(&split), vec![vec![0, 2, 4]]);
    assert_eq!(root.bbox, Aabb2D::new(0, 0, 3, 1));
    assert_eq!(split.bbox, Aabb2D::new(10, 0, 15, 1));

    let mut out = vec![99];
    root.collect(Probe::Point(2, 1), &mut out);
    assert_eq!(out, vec![99, 3]);
    split.collect(Probe::Rect(Aabb2D::new(11, 1, 12, 5)), &mut out);
    out.sort();
    assert_eq!(out, vec![0, 2, 3, 99]);

    let mut path = Vec::new();
    assert!(root.locate(3, &unit(2, 0), &mut path));
    assert!(!root.locate(0, &unit(10, 0), &mut path));
    assert!(root.remove(1, &unit(0, 0)));
    assert!(!root.remove(1, &unit(0, 0)));
    assert_eq!(leaves(&root), vec![vec![3]]);
    assert_eq!(root.bbox, unit(2, 0));
}

#[test]
fn hierarchy_keeps_what_it_is_given() {
    let mut h: Hierarchy<i64> = Hierarchy::new(2, 2);
    for slot in 0..60usize {
        h.put(slot, unit((slot as i64 * 37) % 100, (slot as i64 * 11) % 40));
    }
    for slot in 0..60usize {
        let (x, y) = ((slot as i64 * 37) % 100, (slot as i64 * 11) % 40);
        let mut expected: Vec<usize> = (0..60usize)
            .filter(|s| unit((*s as i64 * 37) % 100, (*s as i64 * 11) % 40).contains_point(x, y))
            .collect();
        let mut got = h.find(Probe::Point(x, y));
        got.sort();
        expected.sort();
        assert_eq!(got, expected);
        assert!(got.contains(&slot));
    }
    // Putting a slot again moves it.
    h.put(7, unit(500, 500));
    assert_eq!(h.find(Probe::Point(500, 500)), vec![7]);
    assert!(!h.find(Probe::Rect(Aabb2D::new(0, 0, 100, 100))).contains(&7));
    for slot in (0..60usize).filter(|s| s % 2 == 0) {
        h.drop_slot(slot);
    }
    h.drop_slot(1000);
    let mut rest = h.find(Probe::Rect(Aabb2D::new(-1, -1, 1000, 1000)));
    rest.sort();
    assert_eq!(rest, (0..60usize).filter(|s| s % 2 == 1).collect::<Vec<_>>());
    h.reset();
    assert!(h.find(Probe::Rect(Aabb2D::new(-1, -1, 1000, 1000))).is_empty());
}

#[test]
fn bulk_build_tiles_by_slices() {
    // Ten items on a falling diagonal, two to a leaf: five leaves, so three
    // slices of at most six items each.
    let items: Vec<Item<i64>> =
        (0..10usize).map(|i| Item { slot: i, aabb: unit(i as i64 * 10, (9 - i as i64) * 10) }).collect();
    let root = build(&items, 2, 2);
    assert_eq!(
        leaves(&root),
        vec![vec![0, 1], vec![2, 3], vec![4, 5], vec![6, 7], vec![8, 9]]
    );
    assert_eq!(check_boxes(&root), 10);
    assert_eq!(root.bbox, Aabb2D::new(0, 0, 91, 91));

    // Nine items in a square, three to a leaf: three leaves, so two slices
    // of at most six items each; within a slice the leaves follow y.
    let grid: Vec<Item<i64>> = (0..9usize)
        .map(|i| Item { slot: i, aabb: unit((i % 3) as i64 * 10, (i / 3) as i64 * 10) })
        .collect();
    let root = build(&grid, 3, 4);
    assert_eq!(leaves(&root), vec![vec![0, 1, 3], vec![2, 5, 8], vec![4, 6, 7]]);

    let none = build(&Vec::<Item<i64>>::new(), 3, 4);
    assert!(none.items.is_empty() && none.kids.is_empty());

    let h = Hierarchy::bulk(&vec![(4usize, unit(0, 0)), (9, unit(5, 5))], 8, 8);
    assert_eq!(h.find(Probe::Point(5, 6)), vec![9]);
    assert_eq!(h.find(Probe::Point(1, 1)), vec![4]);
}

#[test]
fn bulk_steps() {
    let items: Vec<Item<i64>> =
        (0..5usize).map(|i| Item { slot: i, aabb: unit(40 - i as i64 * 10, i as i64) }).collect();
    let by_x: Vec<usize> = sort_items(&items, true).iter().map(|it| it.slot).collect();
    assert_eq!(by_x, vec![4, 3, 2, 1, 0]);
    let by_y: Vec<usize> = sort_items(&items, false).iter().map(|it| it.slot).collect();
    assert_eq!(by_y, vec![0, 1, 2, 3, 4]);
    let picked: Vec<usize> = arrange(&items, &vec![2, 0, 4, 1, 3]).iter().map(|it| it.slot).collect();
    assert_eq!(picked, vec![2, 0, 4, 1, 3]);

    let mut level = Vec::new();
    pack_leaves(&items, 1, 5, 3, &mut level);
    assert_eq!(level.len(), 2);
    assert_eq!(leaves(&level[0]), vec![vec![1, 2, 3]]);
    assert_eq!(leaves(&level[1]), vec![vec![4]]);
    assert_eq!(level[0].bbox, Aabb2D::new(10, 1, 31, 4));
    let up = pack_level(level, 2);
    assert_eq!(up.len(), 1);
    assert_eq!(up[0].kids.len(), 2);
    assert_eq!(up[0].bbox, Aabb2D::new(0, 1, 31, 5));
}

#[test]
fn grid_cells_of_a_range() {
    assert_eq!(
        cells_in_ranges((1, 2), (-1, 1)),
        vec![(1, -1), (1, 0), (1, 1), (2, -1), (2, 0), (2, 1)]
    );
    assert_eq!(cells_in_ranges((3, 3), (7, 7)), vec![(3, 7)]);
    assert_eq!(
        cells_in_ranges((i32::MAX - 1, i32::MAX), (i32::MIN, i32::MIN)),
        vec![(i32::MAX - 1, i32::MIN), (i32::MAX, i32::MIN)]
    );
}

#[test]
fn coordinate_keys_order_as_the_numbers_do() {
    let values = [
        f64::NEG_INFINITY,
        -1.0e300,
        -2.5,
        -1.0,
        -f64::MIN_POSITIVE,
        -0.0,
        0.0,
        f64::MIN_POSITIVE,
        1.0,
        2.5,
        1.0e300,
        f64::INFINITY,
    ];
    for a in values {
        for b in values {
            let (ka, kb) = (float_key(a.to_bits()), float_key(b.to_bits()));
            assert_eq!(a < b, ka < kb, "{a} {b}");
            assert_eq!(a == b, ka == kb, "{a} {b}");
        }
    }
    assert_eq!(float_key(0), 0);
    assert_eq!(float_key(1.0f64.to_bits()), 0x3ff0_0000_0000_0000);
    assert_eq!(float_key((-1.0f64).to_bits()), -0x3ff0_0000_0000_0000);
    assert_eq!(float_key(f64::INFINITY.to_bits()), 0x7ff0_0000_0000_0000);
    assert_eq!(float_key(f64::NEG_INFINITY.to_bits()), -0x7ff0_0000_0000_0000);
    // What is not a number has one key, above every number's.
    assert_eq!(float_key(f64::NAN.to_bits()), i64::MAX);
    assert_eq!(float_key(u64::MAX), i64::MAX);
    assert_eq!(float_key(0x7ff0_0000_0000_0001), i64::MAX);
    let r = kurbo::Rect::new(-1.0, 0.0, 1.0, 2.0);
    assert_eq!(
        rect_to_aabb(r),
        Aabb2D::new(-0x3ff0_0000_0000_0000, 0, 0x3ff0_0000_0000_0000, 0x4000_0000_0000_0000)
    );
    assert_eq!(point_to_keys(kurbo::Point::new(2.0, -0.0)), (0x4000_0000_0000_0000, 0));
}

#[test]
fn index_reserve_changes_nothing() {
    let mut idx: Index<i64, u8> = Index::new();
    idx.reserve(100);
    assert_eq!(idx.slot_count(), 0);
    let k = idx.insert(unit(0, 0), 1);
    idx.reserve(10);
    assert!(idx.contains_key(k));
    assert_eq!(idx.commit().added, vec![unit(0, 0)]);
}

#[test]
fn keys_take_both_zeros_for_one() {
    assert_eq!(float_key((-0.0f64).to_bits()), 0);
    assert_eq!(float_key(0.0f64.to_bits()), 0);
    assert_eq!(
        rect_to_aabb(kurbo::Rect::new(-0.0, 0.0, -0.0, 0.0)),
        rect_to_aabb(kurbo::Rect::ZERO)
    );
    let a = kurbo::Rect::new(-0.0, -0.0, 1.0, 1.0);
    let b = kurbo::Rect::new(0.0, 0.0, 1.0, 1.0);
    assert_eq!(rect_to_aabb(a.union(b)), rect_to_aabb(b.union(a)));
    assert_eq!(rect_to_aabb(a.intersect(b)), rect_to_aabb(b.intersect(a)));
}
