//! The generic index and its backends.

use understory::index::backends::{Bvh, BvhI64, FlatVec, Grid, GridI64, GridScalar, RTree, RTreeI64};
use understory::index::{Aabb2D, Backend, Index, IndexGeneric, Key, Scalar};

/// An `f64` coordinate.
#[derive(Clone, Copy, Debug, PartialEq, PartialOrd)]
struct F64(f64);

impl Scalar for F64 {
    type Acc = f64;

    fn add_spec(a: Self, b: Self) -> Self {
        Self::add(a, b)
    }

    fn sub_spec(a: Self, b: Self) -> Self {
        Self::sub(a, b)
    }

    fn zero_spec() -> Self {
        Self::zero()
    }

    fn max_spec(a: Self, b: Self) -> Self {
        Self::max(a, b)
    }

    fn min_spec(a: Self, b: Self) -> Self {
        Self::min(a, b)
    }

    fn mid_spec(a: Self, b: Self) -> Self {
        Self::mid(a, b)
    }

    fn widen_spec(v: Self) -> f64 {
        Self::widen(v)
    }

    fn acc_from_usize_spec(n: usize) -> f64 {
        Self::acc_from_usize(n)
    }

    fn acc_add_spec(a: f64, b: f64) -> f64 {
        Self::acc_add(a, b)
    }

    fn acc_mul_spec(a: f64, b: f64) -> f64 {
        Self::acc_mul(a, b)
    }

    fn acc_lt_spec(a: f64, b: f64) -> bool {
        Self::acc_lt(a, b)
    }

    fn lemma_order(_a: Self, _b: Self, _c: Self) {}

    fn lemma_acc_order(_a: f64, _b: f64, _c: f64) {}

    fn add(a: Self, b: Self) -> Self {
        F64(a.0 + b.0)
    }

    fn sub(a: Self, b: Self) -> Self {
        F64(a.0 - b.0)
    }

    fn zero() -> Self {
        F64(0.0)
    }

    fn max(a: Self, b: Self) -> Self {
        F64(a.0.max(b.0))
    }

    fn min(a: Self, b: Self) -> Self {
        F64(a.0.min(b.0))
    }

    fn mid(a: Self, b: Self) -> Self {
        F64(0.5 * (a.0 + b.0))
    }

    fn widen(v: Self) -> f64 {
        v.0
    }

    fn acc_from_usize(n: usize) -> f64 {
        n as f64
    }

    fn acc_add(a: f64, b: f64) -> f64 {
        a + b
    }

    fn acc_mul(a: f64, b: f64) -> f64 {
        a * b
    }

    fn acc_lt(a: f64, b: f64) -> bool {
        a < b
    }
}

impl GridScalar for F64 {
    fn usable(cell_size: Self) -> bool {
        cell_size.0 > 0.0
    }

    fn cell_of(value: Self, origin: Self, cell_size: Self) -> i32 {
        Self::cell_coord(value, origin, cell_size)
    }

    fn lemma_cell_of_monotonic(_a: Self, _b: Self, _origin: Self, _cell_size: Self) {}

    fn cell_coord(value: Self, origin: Self, cell_size: Self) -> i32 {
        let t = (value.0 - origin.0) / cell_size.0;
        let coord = t as i32;
        // Round towards negative infinity (the cast above has already truncated).
        if t < 0.0 && (coord as f64) > t {
            coord.saturating_sub(1)
        } else {
            coord
        }
    }
}

/// An `f32` coordinate.
#[derive(Clone, Copy, Debug, PartialEq, PartialOrd)]
struct F32(f32);

impl Scalar for F32 {
    type Acc = f64;

    fn add_spec(a: Self, b: Self) -> Self {
        Self::add(a, b)
    }

    fn sub_spec(a: Self, b: Self) -> Self {
        Self::sub(a, b)
    }

    fn zero_spec() -> Self {
        Self::zero()
    }

    fn max_spec(a: Self, b: Self) -> Self {
        Self::max(a, b)
    }

    fn min_spec(a: Self, b: Self) -> Self {
        Self::min(a, b)
    }

    fn mid_spec(a: Self, b: Self) -> Self {
        Self::mid(a, b)
    }

    fn widen_spec(v: Self) -> f64 {
        Self::widen(v)
    }

    fn acc_from_usize_spec(n: usize) -> f64 {
        Self::acc_from_usize(n)
    }

    fn acc_add_spec(a: f64, b: f64) -> f64 {
        Self::acc_add(a, b)
    }

    fn acc_mul_spec(a: f64, b: f64) -> f64 {
        Self::acc_mul(a, b)
    }

    fn acc_lt_spec(a: f64, b: f64) -> bool {
        Self::acc_lt(a, b)
    }

    fn lemma_order(_a: Self, _b: Self, _c: Self) {}

    fn lemma_acc_order(_a: f64, _b: f64, _c: f64) {}

    fn add(a: Self, b: Self) -> Self {
        F32(a.0 + b.0)
    }

    fn sub(a: Self, b: Self) -> Self {
        F32(a.0 - b.0)
    }

    fn zero() -> Self {
        F32(0.0)
    }

    fn max(a: Self, b: Self) -> Self {
        F32(a.0.max(b.0))
    }

    fn min(a: Self, b: Self) -> Self {
        F32(a.0.min(b.0))
    }

    fn mid(a: Self, b: Self) -> Self {
        F32(0.5 * (a.0 + b.0))
    }

    fn widen(v: Self) -> f64 {
        f64::from(v.0)
    }

    fn acc_from_usize(n: usize) -> f64 {
        n as f64
    }

    fn acc_add(a: f64, b: f64) -> f64 {
        a + b
    }

    fn acc_mul(a: f64, b: f64) -> f64 {
        a * b
    }

    fn acc_lt(a: f64, b: f64) -> bool {
        a < b
    }
}

impl GridScalar for F32 {
    fn usable(cell_size: Self) -> bool {
        cell_size.0 > 0.0
    }

    fn cell_of(value: Self, origin: Self, cell_size: Self) -> i32 {
        Self::cell_coord(value, origin, cell_size)
    }

    fn lemma_cell_of_monotonic(_a: Self, _b: Self, _origin: Self, _cell_size: Self) {}

    fn cell_coord(value: Self, origin: Self, cell_size: Self) -> i32 {
        let t = (value.0 - origin.0) / cell_size.0;
        let coord = t as i32;
        // Round towards negative infinity (the cast above has already truncated).
        if t < 0.0 && (coord as f32) > t {
            coord.saturating_sub(1)
        } else {
            coord
        }
    }
}

fn b(min_x: f64, min_y: f64, max_x: f64, max_y: f64) -> Aabb2D<F64> {
    Aabb2D::new(F64(min_x), F64(min_y), F64(max_x), F64(max_y))
}

#[test]
fn aabb_area_and_empty() {
    const EPSILON: f64 = 1e-10;

    let mut aabb = b(5., 7., 10., 9.);
    assert!((aabb.area() - 5. * 2.).abs() < EPSILON);
    assert!(!aabb.is_empty());

    // "negative" AABBs are considered empty (and get zero area)
    aabb.max_x = F64(-aabb.max_x.0);
    assert!(aabb.area() < EPSILON);
    assert!(aabb.is_empty());

    // zero-area AABBs are considered empty
    aabb.max_x = aabb.min_x;
    assert!(aabb.area() < EPSILON);
    assert!(aabb.is_empty());
}

#[test]
fn aabb_operations_on_integers() {
    let a = Aabb2D::new(0i64, 0, 10, 10);
    let c = Aabb2D::new(5i64, -5, 15, 5);
    assert!(a.contains_point(0, 10));
    assert!(!a.contains_point(11, 5));
    assert!(a.overlaps(&Aabb2D::new(10, 0, 20, 10)));
    assert!(!a.overlaps(&Aabb2D::new(11, 0, 20, 10)));
    assert_eq!(a.intersect(&c), Aabb2D::new(5, 0, 10, 5));
    assert_eq!(a.union(c), Aabb2D::new(0, -5, 15, 10));
    assert_eq!(Aabb2D::from_xywh(1i64, 2, 3, 4), Aabb2D::new(1, 2, 4, 6));
    assert_eq!(Aabb2D::from_xywh(i64::MAX - 1, 0, 5, 1).max_x, i64::MAX);
    assert_eq!(a.area(), 100);
    assert_eq!(Aabb2D::new(10i64, 0, 0, 10).area(), 0);
    assert_eq!(Aabb2D::new(i64::MIN, i64::MIN, i64::MAX, i64::MAX).area(), (i64::MAX as i128) * (i64::MAX as i128));
    assert!(Aabb2D::new(0i64, 0, 0, 5).is_empty());
    assert!(a.equals(&a) && !a.equals(&c));
}

#[test]
fn integer_scalar_operations() {
    assert_eq!(<i64 as Scalar>::add(i64::MAX, 1), i64::MAX);
    assert_eq!(<i64 as Scalar>::sub(i64::MIN, 1), i64::MIN);
    assert_eq!(<i64 as Scalar>::sub(7, 9), -2);
    assert_eq!(<i64 as Scalar>::mid(i64::MAX, i64::MAX - 2), i64::MAX - 1);
    assert_eq!(<i64 as Scalar>::mid(-3, 0), -2);
    assert_eq!(<i64 as Scalar>::mid(i64::MIN, i64::MAX), -1);
    assert_eq!(<i64 as Scalar>::max(3, -4), 3);
    assert_eq!(<i64 as Scalar>::min(3, -4), -4);
    assert_eq!(<i64 as Scalar>::widen(-5), -5i128);
    assert_eq!(<i64 as Scalar>::acc_from_usize(9), 9i128);
    assert_eq!(<i64 as Scalar>::acc_add(i128::MAX, 1), i128::MAX);
    assert_eq!(<i64 as Scalar>::acc_mul(i128::MAX, -2), i128::MIN);
    assert_eq!(<i64 as Scalar>::acc_mul(-6, 7), -42);
    assert!(<i64 as Scalar>::acc_lt(1, 2));
}

#[test]
fn index_insert_update_commit_and_query() {
    let mut idx: Index<i64, u32> = Index::new();
    let k1 = idx.insert(Aabb2D::new(0, 0, 10, 10), 1);
    let _ = idx.commit();
    idx.update(k1, Aabb2D::new(5, 5, 15, 15));
    let dmg = idx.commit();
    assert!(!dmg.is_empty());

    let hits: Vec<_> = idx.query_point(6, 6);
    assert_eq!(hits.len(), 1);
    assert_eq!(hits[0].1, 1);
}

#[test]
fn index_added_then_removed_before_commit_is_ignored() {
    let mut idx: Index<i64, u32> = Index::new();
    let k = idx.insert(Aabb2D::new(0, 0, 10, 10), 1);
    idx.remove(k);
    let dmg = idx.commit();
    assert!(dmg.is_empty());
    assert_eq!(idx.query_point(1, 1).len(), 0);
}

#[test]
fn index_removed_after_commit_reports_removed() {
    let mut idx: Index<i64, u32> = Index::new();
    let k = idx.insert(Aabb2D::new(0, 0, 10, 10), 1);
    let _ = idx.commit();
    idx.remove(k);
    let dmg = idx.commit();
    assert_eq!(dmg.removed.len(), 1);
    assert_eq!(dmg.added.len(), 0);
}

#[test]
fn index_moved_reports_pair() {
    let mut idx: Index<i64, u32> = Index::new();
    let k = idx.insert(Aabb2D::new(0, 0, 10, 10), 1);
    let _ = idx.commit();
    idx.update(k, Aabb2D::new(5, 5, 15, 15));
    let dmg = idx.commit();
    assert_eq!(dmg.moved.len(), 1);
    let (a, b) = dmg.moved[0];
    assert_eq!(a, Aabb2D::new(0, 0, 10, 10));
    assert_eq!(b, Aabb2D::new(5, 5, 15, 15));
}

#[test]
fn lib_insert_update_commit_and_query() {
    let mut idx: Index<i64, u32> = Index::new();
    let k1 = idx.insert(Aabb2D::new(0, 0, 10, 10), 1);
    let _ = idx.commit();
    idx.update(k1, Aabb2D::new(5, 5, 15, 15));
    let dmg = idx.commit();
    assert!(!dmg.is_empty());

    let hits: Vec<_> = idx.query_point(6, 6);
    assert_eq!(hits.len(), 1);
    assert_eq!(hits[0].1, 1);
}

#[test]
fn lib_added_then_removed_before_commit_is_ignored() {
    let mut idx: Index<i64, u32> = Index::new();
    let k = idx.insert(Aabb2D::new(0, 0, 10, 10), 1);
    idx.remove(k);
    let dmg = idx.commit();
    assert!(dmg.is_empty());
    assert_eq!(idx.query_point(1, 1).len(), 0);
}

#[test]
fn lib_removed_after_commit_reports_removed() {
    let mut idx: Index<i64, u32> = Index::new();
    let k = idx.insert(Aabb2D::new(0, 0, 10, 10), 1);
    let _ = idx.commit();
    idx.remove(k);
    let dmg = idx.commit();
    assert_eq!(dmg.removed.len(), 1);
    assert_eq!(dmg.added.len(), 0);
}

#[test]
fn lib_moved_reports_pair() {
    let mut idx: Index<i64, u32> = Index::new();
    let k = idx.insert(Aabb2D::new(0, 0, 10, 10), 1);
    let _ = idx.commit();
    idx.update(k, Aabb2D::new(5, 5, 15, 15));
    let dmg = idx.commit();
    assert_eq!(dmg.moved.len(), 1);
    let (a, b) = dmg.moved[0];
    assert_eq!(a, Aabb2D::new(0, 0, 10, 10));
    assert_eq!(b, Aabb2D::new(5, 5, 15, 15));
}

#[test]
fn visit_point_and_rect_match_query_counts() {
    let mut idx: Index<i64, u32> = Index::new();
    let _k1 = idx.insert(Aabb2D::new(0, 0, 10, 10), 1);
    let _k2 = idx.insert(Aabb2D::new(5, 5, 15, 15), 2);
    let _ = idx.commit();

    let it_count = idx.query_point(6, 6).len();
    let mut visit_count = 0;
    idx.visit_point(6, 6, |_k, _p| visit_count += 1);
    assert_eq!(visit_count, it_count);
    assert_eq!(it_count, 2);

    let r = Aabb2D::new(8, 8, 12, 12);
    let it_count_r = idx.query_rect(r).len();
    let mut visit_count_r = 0;
    idx.visit_rect(r, |_k, _p| visit_count_r += 1);
    assert_eq!(visit_count_r, it_count_r);
    assert_eq!(it_count_r, 2);
}

#[test]
fn keys_are_generational() {
    let mut idx: Index<i64, u32> = Index::new();
    let first = idx.insert(Aabb2D::new(0, 0, 1, 1), 7);
    assert_eq!((first.idx(), first.generation()), (0, 1));
    assert!(idx.contains_key(first));
    idx.remove(first);
    assert!(!idx.contains_key(first));
    // The slot is reused with the next generation; the old key stays stale.
    let second = idx.insert(Aabb2D::new(2, 2, 3, 3), 8);
    assert_eq!(second, Key::new(0, 2));
    assert!(!idx.contains_key(first));
    idx.update(first, Aabb2D::new(50, 50, 60, 60));
    let dmg = idx.commit();
    assert_eq!(dmg.added, vec![Aabb2D::new(2, 2, 3, 3)]);
    assert_eq!(idx.query_point(2, 2), vec![(second, 8)]);
    assert!(idx.query_point(55, 55).is_empty());
    assert_eq!(dmg.union(), Some(Aabb2D::new(2, 2, 3, 3)));
    idx.clear();
    assert!(idx.query_point(2, 2).is_empty());
    assert!(idx.has_room());
    // The slot keeps its generation: keys issued before stay stale.
    assert!(!idx.contains_key(second));
    let third = idx.insert(Aabb2D::new(2, 2, 3, 3), 9);
    assert_eq!(third, Key::new(0, 3));
    assert!(!idx.contains_key(first));
    assert!(!idx.contains_key(second));
    assert_eq!(idx.slot_count(), 1);
    assert_eq!(idx.commit().added, vec![Aabb2D::new(2, 2, 3, 3)]);
    assert_eq!(idx.query_point(2, 2), vec![(third, 9)]);
}

#[test]
fn clear_frees_the_lowest_slot_first() {
    let mut idx: Index<i64, u32> = Index::new();
    let keys: Vec<Key> = (0..4).map(|i| idx.insert(Aabb2D::new(i, 0, i + 1, 1), i as u32)).collect();
    let _ = idx.commit();
    idx.remove(keys[2]);
    idx.clear();
    assert!(idx.commit().is_empty());
    let again: Vec<Key> = (0..5).map(|i| idx.insert(Aabb2D::new(i, 0, i + 1, 1), 0)).collect();
    assert_eq!(
        again,
        vec![Key::new(0, 2), Key::new(1, 2), Key::new(2, 2), Key::new(3, 2), Key::new(4, 1)]
    );
    for key in keys {
        assert!(!idx.contains_key(key));
    }
}

#[test]
fn damage_union_covers_every_list() {
    let mut idx: Index<i64, u32> = Index::new();
    let a = idx.insert(Aabb2D::new(0, 0, 1, 1), 1);
    let b = idx.insert(Aabb2D::new(10, 10, 11, 11), 2);
    let _ = idx.commit();
    idx.remove(a);
    idx.update(b, Aabb2D::new(20, 20, 21, 21));
    let _c = idx.insert(Aabb2D::new(-5, 3, -4, 4), 3);
    let dmg = idx.commit();
    assert_eq!(dmg.added.len(), 1);
    assert_eq!(dmg.removed, vec![Aabb2D::new(0, 0, 1, 1)]);
    assert_eq!(dmg.moved.len(), 1);
    assert_eq!(dmg.union(), Some(Aabb2D::new(-5, 0, 21, 21)));
    assert!(idx.commit().is_empty());
    assert_eq!(idx.commit().union(), None);
}

fn exercise_backend<B: Backend<i64>>(mut backend: B) {
    let boxes: Vec<Aabb2D<i64>> = (0..40i64)
        .map(|i| Aabb2D::new(i * 7 % 50, i * 13 % 60, i * 7 % 50 + 10, i * 13 % 60 + 5 + i % 3))
        .collect();
    let mut reference: FlatVec<i64> = FlatVec::new();
    for (slot, aabb) in boxes.iter().enumerate() {
        backend.insert(slot, *aabb);
        reference.insert(slot, *aabb);
    }
    for slot in (0..40).step_by(3) {
        backend.remove(slot);
        reference.remove(slot);
    }
    for slot in (1..40).step_by(4) {
        let moved = Aabb2D::new(slot as i64 - 30, -20, slot as i64 - 20, -10);
        backend.update(slot, moved);
        reference.update(slot, moved);
    }
    backend.remove(1000);
    for x in (-35..70).step_by(5) {
        for y in (-25..75).step_by(5) {
            let mut got = backend.query_point(x, y);
            got.sort();
            assert_eq!(got, reference.query_point(x, y), "point ({x}, {y})");
            let rect = Aabb2D::new(x, y, x + 7, y + 3);
            let mut got = backend.query_rect(rect);
            got.sort();
            assert_eq!(got, reference.query_rect(rect), "rect at ({x}, {y})");
            let mut visited = Vec::new();
            backend.visit_rect(rect, |s| visited.push(s));
            visited.sort();
            assert_eq!(visited, got);
        }
    }
    backend.clear();
    assert!(backend.query_rect(Aabb2D::new(-100, -100, 100, 100)).is_empty());
}

#[test]
fn backends_agree_with_the_flat_vector() {
    exercise_backend(FlatVec::<i64>::new());
    exercise_backend(GridI64::new(8));
    exercise_backend(GridI64::with_origin(16, -3, 5));
    exercise_backend(RTreeI64::new());
    exercise_backend(BvhI64::new());
    let pairs: Vec<(usize, Aabb2D<i64>)> =
        (100..180usize).map(|s| (s, Aabb2D::new(s as i64, 0, s as i64 + 1, 1))).collect();
    exercise_backend(RTree::bulk_build_default(&pairs));
}

#[test]
fn rtree_bulk_build_holds_what_it_was_given() {
    let pairs: Vec<(usize, Aabb2D<i64>)> = (0..200usize)
        .map(|s| (s, Aabb2D::new((s % 20) as i64 * 10, (s / 20) as i64 * 10, (s % 20) as i64 * 10 + 9, (s / 20) as i64 * 10 + 9)))
        .collect();
    let tree: RTreeI64 = RTree::bulk_build_default(&pairs);
    for (slot, aabb) in &pairs {
        assert_eq!(tree.query_point(aabb.min_x + 4, aabb.min_y + 4), vec![*slot]);
    }
    let mut row = tree.query_rect(Aabb2D::new(0, 15, 1000, 15));
    row.sort();
    assert_eq!(row, (20..40).collect::<Vec<usize>>());
    assert!(tree.query_point(5, 200).is_empty());
}

#[test]
fn indexes_over_other_backends() {
    let mut bvh: IndexGeneric<i64, u32, Bvh<i64>> = Index::<i64, u32>::with_bvh();
    let mut rtree: IndexGeneric<i64, u32, RTree<i64>> = Index::<i64, u32>::with_rtree();
    for i in 0..50u32 {
        let aabb = Aabb2D::new(i as i64, 0, i as i64 + 2, 2);
        bvh.insert(aabb, i);
        rtree.insert(aabb, i);
    }
    assert!(bvh.query_point(10, 1).is_empty());
    let _ = bvh.commit();
    let _ = rtree.commit();
    let payloads = |hits: Vec<(Key, u32)>| {
        let mut p: Vec<u32> = hits.into_iter().map(|h| h.1).collect();
        p.sort();
        p
    };
    assert_eq!(payloads(bvh.query_point(10, 1)), vec![8, 9, 10]);
    assert_eq!(payloads(rtree.query_point(10, 1)), vec![8, 9, 10]);
    assert_eq!(payloads(rtree.query_rect(Aabb2D::new(48, 2, 60, 3))), vec![46, 47, 48, 49]);

    let entries: Vec<(Aabb2D<i64>, u32)> =
        (0..30u32).map(|i| (Aabb2D::new(0, i as i64 * 4, 3, i as i64 * 4 + 3), i)).collect();
    let mut bulk = Index::<i64, u32>::with_rtree_bulk(&entries);
    assert_eq!(payloads(bulk.query_point(1, 41)), vec![10]);
    assert!(bulk.commit().is_empty());
    let (key, _) = bulk.query_point(1, 41)[0];
    assert_eq!(key, Key::new(10, 1));
    bulk.remove(key);
    assert_eq!(bulk.commit().removed, vec![Aabb2D::new(0, 40, 3, 43)]);
    assert!(bulk.query_point(1, 41).is_empty());
}

#[test]
fn insert_update_remove_roundtrip_f32() {
    let mut grid: Grid<F32> = Grid::new(F32(10.0));

    let a = Aabb2D::new(F32(0.0), F32(0.0), F32(10.0), F32(10.0));
    grid.insert(0, a);

    // Point in the AABB should hit slot 0.
    let mut hits = Vec::new();
    grid.visit_point(F32(5.0), F32(5.0), |s| hits.push(s));
    assert_eq!(hits, vec![0]);

    // Move the AABB; point should follow.
    let moved = Aabb2D::new(F32(20.0), F32(20.0), F32(30.0), F32(30.0));
    grid.update(0, moved);

    hits.clear();
    grid.visit_point(F32(5.0), F32(5.0), |s| hits.push(s));
    assert!(hits.is_empty());

    hits.clear();
    grid.visit_point(F32(25.0), F32(25.0), |s| hits.push(s));
    assert_eq!(hits, vec![0]);

    // Remove and ensure no hits.
    grid.remove(0);
    hits.clear();
    grid.visit_point(F32(25.0), F32(25.0), |s| hits.push(s));
    assert!(hits.is_empty());
}

#[test]
fn rect_query_deduplicates_slots() {
    let mut grid: Grid<F32> = Grid::new(F32(5.0));

    // This AABB spans multiple cells.
    let a = Aabb2D::new(F32(0.0), F32(0.0), F32(20.0), F32(20.0));
    grid.insert(1, a);

    let rect = Aabb2D::new(F32(2.0), F32(2.0), F32(18.0), F32(18.0));
    let mut hits = Vec::new();
    grid.visit_rect(rect, |s| hits.push(s));

    // Slot 1 should be reported exactly once.
    assert_eq!(hits, vec![1]);
}

#[test]
fn update_missing_slot_inserts() {
    let mut grid: Grid<F32> = Grid::new(F32(10.0));

    // Updating an unused slot should behave like insert.
    let a = Aabb2D::new(F32(0.0), F32(0.0), F32(10.0), F32(10.0));
    grid.update(5, a);

    let mut hits = Vec::new();
    grid.visit_point(F32(5.0), F32(5.0), |s| hits.push(s));
    assert_eq!(hits, vec![5]);
}

#[test]
fn basic_f64_and_i64_grids() {
    // f64 grid with negative coordinates.
    let mut g64: Grid<F64> = Grid::new(F64(10.0));
    let a = b(-25.0, -25.0, -5.0, -5.0);
    g64.insert(0, a);
    let mut hits = Vec::new();
    g64.visit_point(F64(-10.0), F64(-10.0), |s| hits.push(s));
    assert_eq!(hits, vec![0]);

    // i64 grid with negative coordinates.
    let mut g_i64: GridI64 = GridI64::new(10);
    let c = Aabb2D::new(-30, -30, -10, -10);
    g_i64.insert(3, c);
    hits.clear();
    g_i64.visit_point(-20, -20, |s| hits.push(s));
    assert_eq!(hits, vec![3]);
}

#[test]
fn integer_cell_coordinates_floor_and_saturate() {
    assert_eq!(<i64 as GridScalar>::cell_coord(0, 0, 10), 0);
    assert_eq!(<i64 as GridScalar>::cell_coord(9, 0, 10), 0);
    assert_eq!(<i64 as GridScalar>::cell_coord(10, 0, 10), 1);
    assert_eq!(<i64 as GridScalar>::cell_coord(-1, 0, 10), -1);
    assert_eq!(<i64 as GridScalar>::cell_coord(-10, 0, 10), -1);
    assert_eq!(<i64 as GridScalar>::cell_coord(-11, 0, 10), -2);
    assert_eq!(<i64 as GridScalar>::cell_coord(25, 5, 10), 2);
    assert_eq!(<i64 as GridScalar>::cell_coord(i64::MAX, i64::MIN, 1), i32::MAX);
    assert_eq!(<i64 as GridScalar>::cell_coord(i64::MIN, i64::MAX, 1), i32::MIN);
    let mut last = i32::MIN;
    for v in -50..50 {
        let c = <i64 as GridScalar>::cell_coord(v, 3, 7);
        assert!(last <= c);
        last = c;
    }
}

#[test]
fn defaults_are_empty() {
    let mut idx: Index<i64, u32> = Default::default();
    assert_eq!(idx.slot_count(), 0);
    assert!(idx.commit().is_empty());
    let dmg: understory::index::Damage<i64> = Default::default();
    assert!(dmg.is_empty());
    assert_eq!(dmg.union(), None);
    assert!(dmg.clone().added.is_empty());
    let flat: FlatVec<i64> = FlatVec::new();
    assert!(flat.clone().query_rect(Aabb2D::new(-1, -1, 1, 1)).is_empty());
    assert!(format!("{:?}", Key::new(3, 4)).contains('3'));
}

#[test]
fn accumulator_alias_names_the_wide_type() {
    let area: understory::index::ScalarAcc<i64> = Aabb2D::new(0i64, 0, 3, 4).area();
    assert_eq!(area, 12i128);
}
