use vstd::prelude::*;

use crate::qtree::{
    bounds_ok, can_route, cleared, descends, drained, height, inserted, lemma_kid,
    lemma_pushed_down_len, pushed_down, quadrants, retrieved, room, subdivided, well_formed, QNode,
    MAX_LEVELS, MAX_OBJECTS,
};
use crate::rect::{
    half, mid_x, mid_y, quadrant_bounds, quadrant_of, Rect, EAST_NORTH, EAST_SOUTH, NO_QUADRANT,
    WEST_NORTH, WEST_SOUTH,
};

verus! {

/// Classification is exact: a rectangle of non-negative size lands in a
/// quadrant exactly when it lies strictly on that quadrant's side of both
/// midlines, and in none exactly when it crosses or touches a midline.
pub proof fn lemma_classification_exact(b: Rect, r: Rect)
    requires
        r.w >= 0,
        r.h >= 0,
    ensures
        (r.x + r.w < mid_x(b) && r.y + r.h < mid_y(b)) <==> quadrant_of(b, r) == WEST_NORTH,
        (r.x > mid_x(b) && r.y + r.h < mid_y(b)) <==> quadrant_of(b, r) == EAST_NORTH,
        (r.x + r.w < mid_x(b) && r.y > mid_y(b)) <==> quadrant_of(b, r) == WEST_SOUTH,
        (r.x > mid_x(b) && r.y > mid_y(b)) <==> quadrant_of(b, r) == EAST_SOUTH,
        (r.x <= mid_x(b) <= r.x + r.w || r.y <= mid_y(b) <= r.y + r.h) <==> quadrant_of(b, r)
            == NO_QUADRANT,
{
}

/// The point `(px, py)` lies in `r`.
pub open spec fn covers(r: Rect, px: int, py: int) -> bool {
    r.x <= px < r.x + r.w && r.y <= py < r.y + r.h
}

/// After a split the four children tile the parent: no point lies in two of
/// them, every point of a child lies in the parent, every point of the parent
/// short of the last column and row left over by an odd size lies in a
/// child, and that leftover is at most one unit on each axis.
pub proof fn lemma_subdivide_tiles(n: QNode, i: int, j: int, px: int, py: int)
    requires
        bounds_ok(n.bounds),
        0 <= i < 4,
        0 <= j < 4,
    ensures
        ({
            let k = subdivided(n).kids.unwrap();
            &&& k.len() == 4
            &&& i != j ==> !(covers(k[i].bounds, px, py) && covers(k[j].bounds, px, py))
            &&& covers(k[i].bounds, px, py) ==> covers(n.bounds, px, py)
            &&& (covers(n.bounds, px, py) && px < n.bounds.x + 2 * half(n.bounds.w as int) && py
                < n.bounds.y + 2 * half(n.bounds.h as int)) ==> exists|m: int|
                0 <= m < 4 && covers(#[trigger] k[m].bounds, px, py)
        }),
        0 <= n.bounds.w - 2 * half(n.bounds.w as int) <= 1,
        0 <= n.bounds.h - 2 * half(n.bounds.h as int) <= 1,
{
    let b = n.bounds;
    let k = subdivided(n).kids.unwrap();
    let hw = half(b.w as int);
    let hh = half(b.h as int);
    assert(hw == b.w / 2 && hh == b.h / 2);
    assert(k[0].bounds == quadrant_bounds(b, 0));
    assert(k[1].bounds == quadrant_bounds(b, 1));
    assert(k[2].bounds == quadrant_bounds(b, 2));
    assert(k[3].bounds == quadrant_bounds(b, 3));
    if covers(b, px, py) && px < b.x + 2 * hw && py < b.y + 2 * hh {
        let m = if px < b.x + hw {
            if py < b.y + hh {
                1int
            } else {
                2int
            }
        } else {
            if py < b.y + hh {
                0int
            } else {
                3int
            }
        };
        assert(covers(k[m].bounds, px, py));
    }
}


/// None of `objs` fits a quadrant of `b`.
pub open spec fn none_fit(b: Rect, objs: Seq<Rect>) -> bool {
    forall|o: int| 0 <= o < objs.len() ==> quadrant_of(b, #[trigger] objs[o]) == NO_QUADRANT
}

/// Pushing down objects that fit no quadrant leaves the children as they were.
pub proof fn lemma_push_down_unfit(kids: Seq<QNode>, level: int, b: Rect, objs: Seq<Rect>)
    requires
        none_fit(b, objs),
    ensures
        pushed_down(kids, level, b, objs) == kids,
    decreases objs.len(),
{
    if objs.len() > 0 {
        assert(quadrant_of(b, objs[objs.len() - 1]) == NO_QUADRANT);
        lemma_push_down_unfit(kids, level, b, objs.drop_last());
    }
}

/// A leaf splits on the insertion that takes it past `MAX_OBJECTS` objects,
/// and not before; its list is then emptied. When none of its objects fits a
/// quadrant, the split still happens, its children stay empty and those
/// objects are dropped.
pub proof fn lemma_capacity_trigger(n: QNode, r: Rect)
    requires
        well_formed(n),
        n.kids is None,
    ensures
        n.objects.len() < MAX_OBJECTS ==> inserted(n, r) == (QNode {
            level: n.level,
            bounds: n.bounds,
            objects: n.objects.push(r),
            kids: None,
        }),
        n.objects.len() >= MAX_OBJECTS && n.level < MAX_LEVELS ==> {
            &&& inserted(n, r).kids is Some
            &&& inserted(n, r).objects.len() == 0
        },
        n.objects.len() >= MAX_OBJECTS && n.level < MAX_LEVELS && none_fit(
            n.bounds,
            n.objects.push(r),
        ) ==> inserted(n, r).kids == Some(quadrants(n.level, n.bounds)),
{
    if n.objects.len() >= MAX_OBJECTS && n.level < MAX_LEVELS && none_fit(
        n.bounds,
        n.objects.push(r),
    ) {
        lemma_push_down_unfit(quadrants(n.level, n.bounds), n.level, n.bounds, n.objects.push(r));
    }
}

/// No node at `MAX_LEVELS` or deeper has children.
pub open spec fn capped(n: QNode) -> bool
    decreases n,
{
    match n.kids {
        None => true,
        Some(k) => {
            &&& n.level < MAX_LEVELS
            &&& k.len() == 4 ==> capped(k[0]) && capped(k[1]) && capped(k[2]) && capped(k[3])
        },
    }
}

/// Every node of `kids` is capped.
pub open spec fn all_capped(kids: Seq<QNode>) -> bool {
    forall|i: int| 0 <= i < kids.len() ==> capped(#[trigger] kids[i])
}

proof fn lemma_capped_kids(n: QNode)
    requires
        capped(n),
        n.kids is Some,
        n.kids.unwrap().len() == 4,
    ensures
        all_capped(n.kids.unwrap()),
{
    let k = n.kids.unwrap();
    assert forall|i: int| 0 <= i < k.len() implies capped(#[trigger] k[i]) by {
        if i == 0 {
        } else if i == 1 {
        } else if i == 2 {
        } else {
        }
    }
}

/// Insertion never splits a node at `MAX_LEVELS` or deeper: a tree in which
/// no such node has children keeps that after any insertion.
pub proof fn lemma_depth_cap(n: QNode, r: Rect)
    requires
        capped(n),
    ensures
        capped(inserted(n, r)),
        n.level >= MAX_LEVELS ==> inserted(n, r) == (QNode {
            level: n.level,
            bounds: n.bounds,
            objects: n.objects.push(r),
            kids: None,
        }),
    decreases room(n.level), 1int, height(n),
{
    let i = quadrant_of(n.bounds, r);
    let m = inserted(n, r);
    if can_route(n, i) {
        let k = n.kids.unwrap();
        lemma_capped_kids(n);
        lemma_depth_cap(k[i], r);
        let k2 = k.update(i, inserted(k[i], r));
        assert(m.kids.unwrap() == k2);
        assert(capped(k2[0]) && capped(k2[1]) && capped(k2[2]) && capped(k2[3]));
    } else {
        let objs = n.objects.push(r);
        if objs.len() > MAX_OBJECTS && n.level < MAX_LEVELS {
            let start = match n.kids {
                Some(k) => k,
                None => quadrants(n.level, n.bounds),
            };
            if n.kids is Some {
                if start.len() == 4 {
                    lemma_capped_kids(n);
                }
            } else {
                assert(capped(start[0]) && capped(start[1]) && capped(start[2]) && capped(start[3]));
            }
            if start.len() == 4 {
                lemma_push_down_capped(start, n.level, n.bounds, objs);
                let k2 = pushed_down(start, n.level, n.bounds, objs);
                lemma_pushed_down_len(start, n.level, n.bounds, objs);
                assert(capped(k2[0]) && capped(k2[1]) && capped(k2[2]) && capped(k2[3]));
            } else {
                lemma_pushed_down_len(start, n.level, n.bounds, objs);
            }
        }
    }
}

/// Pushing objects down into capped children leaves them capped.
pub proof fn lemma_push_down_capped(kids: Seq<QNode>, level: int, b: Rect, objs: Seq<Rect>)
    requires
        all_capped(kids),
    ensures
        all_capped(pushed_down(kids, level, b, objs)),
    decreases room(level), 0int, objs.len(),
{
    if objs.len() > 0 {
        lemma_push_down_capped(kids, level, b, objs.drop_last());
        let before = pushed_down(kids, level, b, objs.drop_last());
        let o = objs.last();
        let i = quadrant_of(b, o);
        if 0 <= i < before.len() && before[i].level == level + 1 && level < MAX_LEVELS {
            lemma_depth_cap(before[i], o);
            let after = before.update(i, inserted(before[i], o));
            assert forall|j: int| 0 <= j < after.len() implies capped(#[trigger] after[j]) by {
                if j != i {
                    assert(after[j] == before[j]);
                }
            }
        }
    }
}

/// A query drains what it reaches: asking the same query again collects
/// nothing.
pub proof fn lemma_retrieve_drains(n: QNode, q: Rect)
    ensures
        retrieved(drained(n, q), q) == Seq::<Rect>::empty(),
    decreases n,
{
    let d = drained(n, q);
    if descends(n, q) {
        let i = quadrant_of(n.bounds, q);
        let k = n.kids.unwrap();
        assert(decreases_to!(n => k[i]));
        lemma_retrieve_drains(k[i], q);
        assert(d.kids.unwrap()[i] == drained(k[i], q));
        assert(retrieved(d, q) =~= Seq::<Rect>::empty());
    } else {
        assert(!descends(d, q));
        assert(retrieved(d, q) =~= Seq::<Rect>::empty());
    }
}

/// `a` and `b` have the same levels, bounds and children at every depth.
pub open spec fn same_shape(a: QNode, b: QNode) -> bool
    decreases a,
{
    &&& a.level == b.level
    &&& a.bounds == b.bounds
    &&& match (a.kids, b.kids) {
        (None, None) => true,
        (Some(ka), Some(kb)) => {
            &&& ka.len() == 4
            &&& kb.len() == 4
            &&& same_shape(ka[0], kb[0])
            &&& same_shape(ka[1], kb[1])
            &&& same_shape(ka[2], kb[2])
            &&& same_shape(ka[3], kb[3])
        },
        _ => false,
    }
}

/// No node of `n` holds an object.
pub open spec fn no_objects(n: QNode) -> bool
    decreases n,
{
    &&& n.objects.len() == 0
    &&& match n.kids {
        None => true,
        Some(k) => k.len() == 4 ==> no_objects(k[0]) && no_objects(k[1]) && no_objects(k[2])
            && no_objects(k[3]),
    }
}

/// Clearing empties every node and keeps the shape of the tree.
pub proof fn lemma_clear_keeps_shape(n: QNode)
    requires
        well_formed(n),
    ensures
        same_shape(cleared(n), n),
        no_objects(cleared(n)),
    decreases n,
{
    if n.kids is Some {
        let k = n.kids.unwrap();
        lemma_kid(n, 0);
        lemma_kid(n, 1);
        lemma_kid(n, 2);
        lemma_kid(n, 3);
        lemma_clear_keeps_shape(k[0]);
        lemma_clear_keeps_shape(k[1]);
        lemma_clear_keeps_shape(k[2]);
        lemma_clear_keeps_shape(k[3]);
    }
}

} // verus!
