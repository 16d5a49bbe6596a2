use quadtree::qtree::{QTree, QTreeError, MAX_LEVELS, MAX_OBJECTS};
use quadtree::rect::{Rect, EAST_NORTH, EAST_SOUTH, NO_QUADRANT, WEST_NORTH, WEST_SOUTH};

fn root() -> QTree {
    QTree::new(0, Rect::new(0, 0, 600, 600))
}

fn kids(t: &QTree) -> &Vec<QTree> {
    t.nodes.as_ref().expect("node has children")
}

fn count_objects(t: &QTree) -> usize {
    let below: usize = match &t.nodes {
        Some(v) => v.iter().map(count_objects).sum(),
        None => 0,
    };
    t.objects.len() + below
}

fn all_empty(t: &QTree) -> bool {
    t.objects.is_empty() && t.nodes.as_ref().map_or(true, |v| v.iter().all(all_empty))
}

fn shape(t: &QTree) -> Vec<(usize, Rect, bool)> {
    let mut out = vec![(t.level, t.bounds, t.nodes.is_some())];
    if let Some(v) = &t.nodes {
        for c in v {
            out.extend(shape(c));
        }
    }
    out
}

#[test]
fn rect_new_and_accessors() {
    let r = Rect::new(3, -4, 7, 9);
    assert_eq!(r, Rect { x: 3, y: -4, w: 7, h: 9 });
    assert_eq!(r.get_x_and_y(), (3, -4));
    assert_eq!(r.get_sub_dimensions(), (3, 4));
    assert_eq!(Rect::default(), Rect::new(0, 0, 0, 0));
}

#[test]
fn sub_dimensions_truncate_toward_zero() {
    assert_eq!(Rect::new(0, 0, 600, 601).get_sub_dimensions(), (300, 300));
    assert_eq!(Rect::new(0, 0, -5, -1).get_sub_dimensions(), (-2, 0));
    assert_eq!(Rect::new(0, 0, 1, 0).get_sub_dimensions(), (0, 0));
}

#[test]
fn classify_each_quadrant() {
    let b = Rect::new(0, 0, 600, 600);
    assert_eq!(b.contains_rect(&Rect::new(10, 10, 5, 5)), WEST_NORTH);
    assert_eq!(b.contains_rect(&Rect::new(310, 10, 5, 5)), EAST_NORTH);
    assert_eq!(b.contains_rect(&Rect::new(10, 310, 5, 5)), WEST_SOUTH);
    assert_eq!(b.contains_rect(&Rect::new(310, 310, 5, 5)), EAST_SOUTH);
    assert_eq!(WEST_NORTH, 1);
    assert_eq!(EAST_NORTH, 0);
    assert_eq!(WEST_SOUTH, 2);
    assert_eq!(EAST_SOUTH, 3);
}

#[test]
fn classify_midline_cases() {
    let b = Rect::new(0, 0, 600, 600);
    // straddles both midlines
    assert_eq!(b.contains_rect(&Rect::new(295, 295, 10, 10)), NO_QUADRANT);
    // right edge touches the vertical midline
    assert_eq!(b.contains_rect(&Rect::new(290, 10, 10, 5)), NO_QUADRANT);
    // starts on the vertical midline
    assert_eq!(b.contains_rect(&Rect::new(300, 10, 5, 5)), NO_QUADRANT);
    // bottom edge touches the horizontal midline
    assert_eq!(b.contains_rect(&Rect::new(10, 290, 5, 10)), NO_QUADRANT);
    // starts on the horizontal midline
    assert_eq!(b.contains_rect(&Rect::new(310, 300, 5, 5)), NO_QUADRANT);
    // one short of the midline still fits
    assert_eq!(b.contains_rect(&Rect::new(290, 290, 9, 9)), WEST_NORTH);
    assert_eq!(b.contains_rect(&Rect::new(301, 301, 9, 9)), EAST_SOUTH);
}

#[test]
fn classify_with_offset_and_odd_bounds() {
    let b = Rect::new(-100, 50, 201, 101);
    // midlines at x = 0, y = 100
    assert_eq!(b.contains_rect(&Rect::new(-50, 60, 49, 39)), WEST_NORTH);
    assert_eq!(b.contains_rect(&Rect::new(-50, 60, 50, 39)), NO_QUADRANT);
    assert_eq!(b.contains_rect(&Rect::new(1, 101, 3, 3)), EAST_SOUTH);
}

#[test]
fn classify_extreme_values_do_not_overflow() {
    let b = Rect::new(i64::MAX - 10, i64::MAX - 10, 10, 10);
    assert_eq!(b.contains_rect(&Rect::new(i64::MAX, 0, i64::MAX, 1)), EAST_NORTH);
    let c = Rect::new(i64::MIN, i64::MIN, 0, 0);
    assert_eq!(c.contains_rect(&Rect::new(i64::MIN, i64::MIN, 0, 0)), NO_QUADRANT);
}

#[test]
fn new_tree_is_empty_leaf() {
    let t = QTree::new(2, Rect::new(1, 2, 3, 4));
    assert_eq!(t.level, 2);
    assert_eq!(t.bounds, Rect::new(1, 2, 3, 4));
    assert!(t.objects.is_empty());
    assert!(t.nodes.is_none());
    let d = QTree::default();
    assert_eq!(d.level, 0);
    assert_eq!(d.bounds, Rect::default());
    assert!(d.objects.is_empty() && d.nodes.is_none());
}

#[test]
fn subdivide_quadrant_bounds() {
    let mut t = QTree::new(1, Rect::new(10, 20, 600, 400));
    t.subdivide();
    let v = kids(&t);
    assert_eq!(v.len(), 4);
    assert_eq!(v[0].bounds, Rect::new(310, 20, 300, 200));
    assert_eq!(v[1].bounds, Rect::new(10, 20, 300, 200));
    assert_eq!(v[2].bounds, Rect::new(10, 220, 300, 200));
    assert_eq!(v[3].bounds, Rect::new(310, 220, 300, 200));
    for c in v {
        assert_eq!(c.level, 2);
        assert!(c.objects.is_empty() && c.nodes.is_none());
    }
}

#[test]
fn subdivide_odd_size_tiles_with_remainder() {
    let mut t = QTree::new(0, Rect::new(0, 0, 5, 3));
    t.subdivide();
    let v = kids(&t);
    assert_eq!(v[0].bounds, Rect::new(2, 0, 2, 1));
    assert_eq!(v[1].bounds, Rect::new(0, 0, 2, 1));
    assert_eq!(v[2].bounds, Rect::new(0, 1, 2, 1));
    assert_eq!(v[3].bounds, Rect::new(2, 1, 2, 1));
    // every point but the last column and row lies in exactly one child
    for px in 0..5i64 {
        for py in 0..3i64 {
            let n = v
                .iter()
                .filter(|c| {
                    let b = c.bounds;
                    b.x <= px && px < b.x + b.w && b.y <= py && py < b.y + b.h
                })
                .count();
            let expected = if px < 4 && py < 2 { 1 } else { 0 };
            assert_eq!(n, expected, "point ({px}, {py})");
        }
    }
}

#[test]
fn subdivide_keeps_objects() {
    let mut t = root();
    t.insert(Rect::new(295, 295, 10, 10)).unwrap();
    t.subdivide();
    assert_eq!(t.objects, vec![Rect::new(295, 295, 10, 10)]);
}

#[test]
fn leaf_does_not_split_at_capacity() {
    let mut t = root();
    for i in 0..MAX_OBJECTS as i64 {
        t.insert(Rect::new(290 + i, 290, 20, 20)).unwrap();
    }
    assert!(t.nodes.is_none());
    assert_eq!(t.objects.len(), MAX_OBJECTS);
}

#[test]
fn split_past_capacity_drops_unfit_objects() {
    let mut t = root();
    for i in 0..(MAX_OBJECTS as i64 + 1) {
        t.insert(Rect::new(290 + i, 290, 20, 20)).unwrap();
    }
    assert!(t.nodes.is_some());
    assert!(t.objects.is_empty());
    assert_eq!(count_objects(&t), 0);
    for c in kids(&t) {
        assert!(c.objects.is_empty() && c.nodes.is_none());
    }
}

#[test]
fn depth_cap_never_splits() {
    let mut t = QTree::new(MAX_LEVELS, Rect::new(0, 0, 600, 600));
    for _ in 0..50 {
        t.insert(Rect::new(10, 10, 5, 5)).unwrap();
    }
    assert!(t.nodes.is_none());
    assert_eq!(t.objects.len(), 50);
}

#[test]
fn depth_cap_holds_across_tree() {
    let mut t = root();
    for _ in 0..40 {
        t.insert(Rect::new(1, 1, 1, 1)).unwrap();
    }
    let mut node = &t;
    let mut depth = 0;
    while let Some(v) = &node.nodes {
        assert!(node.level < MAX_LEVELS);
        node = &v[1];
        depth += 1;
    }
    assert_eq!(depth, MAX_LEVELS);
    assert_eq!(node.level, MAX_LEVELS);
    assert_eq!(node.objects.len(), 40);
}

#[test]
fn five_west_north_inserts_split_root_once() {
    let mut t = root();
    for _ in 0..5 {
        assert!(t.insert(Rect::new(10, 10, 5, 5)).is_ok());
    }
    assert!(t.objects.is_empty());
    let v = kids(&t);
    assert_eq!(count_objects(&v[1]), 5);
    assert_eq!(count_objects(&v[0]) + count_objects(&v[2]) + count_objects(&v[3]), 0);
    for c in v {
        assert_eq!(c.level, 1);
    }
    // the west-north child kept splitting down to the depth cap
    let mut node = &v[1];
    while let Some(w) = &node.nodes {
        node = &w[1];
    }
    assert_eq!(node.level, MAX_LEVELS);
    assert_eq!(node.bounds, Rect::new(0, 0, 37, 37));
    assert_eq!(node.objects, vec![Rect::new(10, 10, 5, 5); 5]);
}

#[test]
fn straddler_stays_at_root_after_split() {
    let mut t = root();
    let classifiable = [
        Rect::new(10, 10, 5, 5),
        Rect::new(310, 10, 5, 5),
        Rect::new(10, 310, 5, 5),
        Rect::new(310, 310, 5, 5),
        Rect::new(400, 400, 5, 5),
    ];
    for r in classifiable {
        t.insert(r).unwrap();
    }
    assert!(t.nodes.is_some());
    t.insert(Rect::new(295, 295, 10, 10)).unwrap();
    assert_eq!(t.objects, vec![Rect::new(295, 295, 10, 10)]);
    let v = kids(&t);
    assert_eq!(v[0].objects, vec![Rect::new(310, 10, 5, 5)]);
    assert_eq!(v[1].objects, vec![Rect::new(10, 10, 5, 5)]);
    assert_eq!(v[2].objects, vec![Rect::new(10, 310, 5, 5)]);
    assert_eq!(v[3].objects, vec![Rect::new(310, 310, 5, 5), Rect::new(400, 400, 5, 5)]);
}

#[test]
fn straddler_that_triggers_split_is_dropped() {
    let mut t = root();
    t.insert(Rect::new(295, 295, 10, 10)).unwrap();
    for r in [
        Rect::new(10, 10, 5, 5),
        Rect::new(310, 10, 5, 5),
        Rect::new(10, 310, 5, 5),
        Rect::new(310, 310, 5, 5),
    ] {
        t.insert(r).unwrap();
    }
    assert!(t.nodes.is_some());
    assert!(t.objects.is_empty());
    assert_eq!(count_objects(&t), 4);
}

#[test]
fn insert_routes_into_existing_child() {
    let mut t = root();
    t.subdivide();
    t.insert(Rect::new(310, 310, 5, 5)).unwrap();
    assert!(t.objects.is_empty());
    assert_eq!(kids(&t)[3].objects, vec![Rect::new(310, 310, 5, 5)]);
}

#[test]
fn insert_never_fails_routing() {
    let mut t = root();
    let mut s: i64 = 7;
    for _ in 0..500 {
        s = (s * 1103515245 + 12345) % 2147483648;
        let x = s % 568;
        s = (s * 1103515245 + 12345) % 2147483648;
        let y = s % 568;
        let r: Result<(), QTreeError> = t.insert(Rect::new(x, y, 4 + x % 28, 4 + y % 28));
        assert!(r.is_ok());
    }
    assert!(t.nodes.is_some());
}

#[test]
fn routing_error_names_index() {
    let e = QTreeError::Routing { index: 7 };
    assert_eq!(e, QTreeError::Routing { index: 7 });
    assert_ne!(e, QTreeError::Routing { index: 3 });
}

#[test]
fn retrieve_collects_path_deepest_first() {
    let mut t = root();
    for r in [
        Rect::new(10, 10, 5, 5),
        Rect::new(20, 20, 5, 5),
        Rect::new(310, 10, 5, 5),
        Rect::new(10, 310, 5, 5),
        Rect::new(310, 310, 5, 5),
    ] {
        t.insert(r).unwrap();
    }
    t.insert(Rect::new(295, 295, 10, 10)).unwrap();
    let mut acc = vec![Rect::new(1, 1, 1, 1)];
    let out = t.retrieve(&mut acc, Rect::new(30, 30, 5, 5));
    assert_eq!(
        acc,
        vec![
            Rect::new(1, 1, 1, 1),
            Rect::new(10, 10, 5, 5),
            Rect::new(20, 20, 5, 5),
            Rect::new(295, 295, 10, 10)
        ]
    );
    assert_eq!(out, acc);
    // the other quadrants are untouched
    assert_eq!(kids(&t)[0].objects.len(), 1);
    assert_eq!(kids(&t)[3].objects.len(), 1);
}

#[test]
fn retrieve_drains_objects() {
    let mut t = root();
    for r in [
        Rect::new(10, 10, 5, 5),
        Rect::new(310, 10, 5, 5),
        Rect::new(10, 310, 5, 5),
        Rect::new(310, 310, 5, 5),
        Rect::new(400, 400, 5, 5),
    ] {
        t.insert(r).unwrap();
    }
    t.insert(Rect::new(295, 295, 10, 10)).unwrap();
    let whole = Rect::new(0, 0, 600, 600);
    let mut first = Vec::new();
    let got = t.retrieve(&mut first, whole);
    assert_eq!(got, vec![Rect::new(295, 295, 10, 10)]);
    let mut second = Vec::new();
    let again = t.retrieve(&mut second, whole);
    assert!(again.is_empty());
    assert!(second.is_empty());
}

#[test]
fn retrieve_on_leaf_takes_all() {
    let mut t = root();
    t.insert(Rect::new(10, 10, 5, 5)).unwrap();
    t.insert(Rect::new(300, 300, 5, 5)).unwrap();
    let mut acc = Vec::new();
    let out = t.retrieve(&mut acc, Rect::new(500, 500, 1, 1));
    assert_eq!(out, vec![Rect::new(10, 10, 5, 5), Rect::new(300, 300, 5, 5)]);
    assert!(t.objects.is_empty());
}

#[test]
fn clear_keeps_structure() {
    let mut t = root();
    for i in 0..30i64 {
        t.insert(Rect::new(5 + i * 19, 7 + i * 17, 3, 3)).unwrap();
    }
    t.insert(Rect::new(295, 295, 10, 10)).unwrap();
    assert!(count_objects(&t) > 0);
    let before = shape(&t);
    t.clear();
    assert!(all_empty(&t));
    assert_eq!(shape(&t), before);
}

#[test]
fn clear_on_leaf() {
    let mut t = root();
    t.insert(Rect::new(1, 1, 1, 1)).unwrap();
    t.clear();
    assert!(t.objects.is_empty());
    assert!(t.nodes.is_none());
}
