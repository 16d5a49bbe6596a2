use vstd::prelude::*;

use crate::rect::{quadrant_bounds, quadrant_of, Rect, NO_QUADRANT};

verus! {

/// A node holding more objects than this splits, depth allowing.
pub const MAX_OBJECTS: usize = 4;

/// Nodes at this level or deeper never split.
pub const MAX_LEVELS: usize = 4;

/// The abstract value of a node: its level, its bounds, the objects it holds
/// directly, and its four children once it has split.
pub struct QNode {
    pub level: int,
    pub bounds: Rect,
    pub objects: Seq<Rect>,
    pub kids: Option<Seq<QNode>>,
}

/// The right and bottom edges of `b` fit in `i64` and its size is not negative.
pub open spec fn bounds_ok(b: Rect) -> bool {
    &&& b.w >= 0
    &&& b.h >= 0
    &&& b.x + b.w <= i64::MAX
    &&& b.y + b.h <= i64::MAX
}

/// The larger of `a` and `b`.
pub open spec fn max_nat(a: nat, b: nat) -> nat {
    if a >= b {
        a
    } else {
        b
    }
}

/// Number of split levels below `n`.
pub open spec fn height(n: QNode) -> nat
    decreases n,
{
    match n.kids {
        Some(k) => if k.len() == 4 {
            1 + max_nat(max_nat(height(k[0]), height(k[1])), max_nat(height(k[2]), height(k[3])))
        } else {
            0
        },
        None => 0,
    }
}

/// How many more levels may still split below a node at `level`.
pub open spec fn room(level: int) -> int {
    if level < MAX_LEVELS {
        MAX_LEVELS - level
    } else {
        0
    }
}

/// An empty leaf.
pub open spec fn leaf(level: int, bounds: Rect) -> QNode {
    QNode { level, bounds, objects: Seq::empty(), kids: None }
}

/// The four empty children of a node at `level` with bounds `b`, in quadrant order.
pub open spec fn quadrants(level: int, b: Rect) -> Seq<QNode> {
    seq![
        leaf(level + 1, quadrant_bounds(b, 0)),
        leaf(level + 1, quadrant_bounds(b, 1)),
        leaf(level + 1, quadrant_bounds(b, 2)),
        leaf(level + 1, quadrant_bounds(b, 3)),
    ]
}

/// `n` with four fresh children in place of whatever it had.
pub open spec fn subdivided(n: QNode) -> QNode {
    QNode { level: n.level, bounds: n.bounds, objects: n.objects, kids: Some(quadrants(n.level, n.bounds)) }
}

/// `n` has a child in slot `i`, one level deeper.
pub open spec fn can_route(n: QNode, i: int) -> bool {
    &&& n.kids is Some
    &&& n.kids.unwrap().len() == 4
    &&& 0 <= i < 4
    &&& n.kids.unwrap()[i].level == n.level + 1
}

/// The node after `r` is inserted into `n`: routed into the child whose
/// quadrant holds it, else stored here; a node that then holds too many
/// objects and may still split gets children (if it has none yet), every
/// stored object that fits a quadrant goes down into that child, and the
/// node's own list is emptied.
pub open spec fn inserted(n: QNode, r: Rect) -> QNode
    decreases room(n.level), 1int, height(n),
{
    let i = quadrant_of(n.bounds, r);
    if can_route(n, i) {
        let k = n.kids.unwrap();
        QNode { level: n.level, bounds: n.bounds, objects: n.objects, kids: Some(k.update(i, inserted(k[i], r))) }
    } else {
        let objs = n.objects.push(r);
        if objs.len() > MAX_OBJECTS && n.level < MAX_LEVELS {
            let start = match n.kids {
                Some(k) => k,
                None => quadrants(n.level, n.bounds),
            };
            QNode {
                level: n.level,
                bounds: n.bounds,
                objects: Seq::empty(),
                kids: Some(pushed_down(start, n.level, n.bounds, objs)),
            }
        } else {
            QNode { level: n.level, bounds: n.bounds, objects: objs, kids: n.kids }
        }
    }
}

/// The children `kids` of a node at `level` with bounds `b` after each of
/// `objs`, in order, is inserted into the child whose quadrant holds it;
/// objects that fit no quadrant go nowhere.
pub open spec fn pushed_down(kids: Seq<QNode>, level: int, b: Rect, objs: Seq<Rect>) -> Seq<QNode>
    decreases room(level), 0int, objs.len(),
{
    if objs.len() == 0 {
        kids
    } else {
        let before = pushed_down(kids, level, b, objs.drop_last());
        let o = objs.last();
        let i = quadrant_of(b, o);
        if 0 <= i < before.len() && before[i].level == level + 1 && level < MAX_LEVELS {
            before.update(i, inserted(before[i], o))
        } else {
            before
        }
    }
}

/// Pushing objects down keeps the number of children.
pub proof fn lemma_pushed_down_len(kids: Seq<QNode>, level: int, b: Rect, objs: Seq<Rect>)
    ensures
        pushed_down(kids, level, b, objs).len() == kids.len(),
    decreases objs.len(),
{
    if objs.len() > 0 {
        lemma_pushed_down_len(kids, level, b, objs.drop_last());
    }
}

/// `n` with every object removed at every depth; levels, bounds and
/// children stay.
pub open spec fn cleared(n: QNode) -> QNode
    decreases n,
{
    QNode {
        level: n.level,
        bounds: n.bounds,
        objects: Seq::empty(),
        kids: match n.kids {
            None => None,
            Some(k) => if k.len() == 4 {
                Some(seq![cleared(k[0]), cleared(k[1]), cleared(k[2]), cleared(k[3])])
            } else {
                Some(k)
            },
        },
    }
}

/// A query `q` goes on from `n` into the child whose quadrant holds it.
pub open spec fn descends(n: QNode, q: Rect) -> bool {
    let i = quadrant_of(n.bounds, q);
    &&& n.kids is Some
    &&& n.kids.unwrap().len() == 4
    &&& 0 <= i < 4
}

/// The objects a query `q` collects from `n`: those on the path of the
/// descent, deepest node first, each node's in stored order.
pub open spec fn retrieved(n: QNode, q: Rect) -> Seq<Rect>
    decreases n,
{
    if descends(n, q) {
        retrieved(n.kids.unwrap()[quadrant_of(n.bounds, q)], q) + n.objects
    } else {
        n.objects
    }
}

/// `n` after a query `q`: the nodes on its descent are emptied.
pub open spec fn drained(n: QNode, q: Rect) -> QNode
    decreases n,
{
    let i = quadrant_of(n.bounds, q);
    QNode {
        level: n.level,
        bounds: n.bounds,
        objects: Seq::empty(),
        kids: if descends(n, q) {
            Some(n.kids.unwrap().update(i, drained(n.kids.unwrap()[i], q)))
        } else {
            n.kids
        },
    }
}

/// Every node has sound bounds and a level that fits `usize`; a node with
/// children has exactly four, one level deeper, each tiling its quadrant.
pub open spec fn well_formed(n: QNode) -> bool
    decreases n,
{
    &&& bounds_ok(n.bounds)
    &&& 0 <= n.level <= usize::MAX
    &&& match n.kids {
        None => true,
        Some(k) => {
            &&& k.len() == 4
            &&& forall|i: int|
                0 <= i < 4 ==> (#[trigger] k[i]).level == n.level + 1 && k[i].bounds
                    == quadrant_bounds(n.bounds, i)
            &&& well_formed(k[0])
            &&& well_formed(k[1])
            &&& well_formed(k[2])
            &&& well_formed(k[3])
        },
    }
}

/// What a well-formed node tells of each of its children.
pub proof fn lemma_kid(n: QNode, i: int)
    requires
        well_formed(n),
        n.kids is Some,
        0 <= i < 4,
    ensures
        n.kids.unwrap().len() == 4,
        well_formed(n.kids.unwrap()[i]),
        height(n.kids.unwrap()[i]) < height(n),
        n.kids.unwrap()[i].level == n.level + 1,
        n.kids.unwrap()[i].bounds == quadrant_bounds(n.bounds, i),
{
    let k = n.kids.unwrap();
    assert(k[i].level == n.level + 1);
    // one case per child, so that its own conjunct of `well_formed` applies
    if i == 0 {
    } else if i == 1 {
    } else if i == 2 {
    } else {
    }
}

/// Why an insertion could not complete.
#[derive(Debug, Clone, Copy, PartialEq, Eq, Structural)]
pub enum QTreeError {
    /// A quadrant number had no child to go with it.
    Routing { index: i64 },
}

/// A quadtree node: a region, the objects kept at this level, and, once it
/// has split, its four children in the order east-north, west-north,
/// west-south, east-south.
#[derive(Debug)]
pub struct QTree {
    pub level: usize,
    pub objects: Vec<Rect>,
    pub bounds: Rect,
    pub nodes: Option<Vec<QTree>>,
}

impl QTree {
    /// The abstract value of this node.
    pub open spec fn model(&self) -> QNode
        decreases self,
    {
        QNode {
            level: self.level as int,
            bounds: self.bounds,
            objects: self.objects@,
            kids: match self.nodes {
                None => None,
                Some(v) => if v.len() == 4 {
                    Some(seq![v[0].model(), v[1].model(), v[2].model(), v[3].model()])
                } else {
                    Some(Seq::empty())
                },
            },
        }
    }

    /// The node satisfies `well_formed`, which every method keeps.
    pub open spec fn wf(&self) -> bool {
        well_formed(self@)
    }

    /// An empty leaf at `node_level` responsible for `bounds`.
    pub fn new(node_level: usize, bounds: Rect) -> (r: QTree)
        ensures
            r@ == leaf(node_level as int, bounds),
            bounds_ok(bounds) ==> r.wf(),
    {
        QTree { level: node_level, bounds, objects: Vec::new(), nodes: None }
    }

    /// Gives this node four fresh children, one per quadrant of its bounds,
    /// replacing any it had.
    pub fn subdivide(&mut self)
        requires
            old(self).level < usize::MAX,
            bounds_ok(old(self).bounds),
        ensures
            final(self)@ == subdivided(old(self)@),
            old(self).wf() ==> final(self).wf(),
    {
        let (sw, hw) = self.bounds.get_sub_dimensions();
        let (x, y) = self.bounds.get_x_and_y();
        let level = self.level + 1;

        let mut nodes: Vec<QTree> = Vec::new();
        nodes.push(QTree::new(level, Rect::new(x + sw, y, sw, hw)));
        nodes.push(QTree::new(level, Rect::new(x, y, sw, hw)));
        nodes.push(QTree::new(level, Rect::new(x, y + hw, sw, hw)));
        nodes.push(QTree::new(level, Rect::new(x + sw, y + hw, sw, hw)));
        self.nodes = Some(nodes);
        proof {
            let k = self@.kids.unwrap();
            assert(k =~= quadrants(old(self)@.level, old(self)@.bounds));
            assert(self@.objects =~= old(self)@.objects);
        }
    }

    /// Inserts `rect`: into the child whose quadrant holds it when this node
    /// has split, else into this node's own list, which then splits and
    /// pushes its objects down once it holds more than `MAX_OBJECTS` and
    /// lies above `MAX_LEVELS`. Objects that fit no quadrant at that point
    /// are dropped with the rest of the list.
    pub fn insert(&mut self, rect: Rect) -> (res: Result<(), QTreeError>)
        requires
            old(self).wf(),
        ensures
            final(self)@ == inserted(old(self)@, rect),
            final(self).wf(),
            res is Ok,
        decreases room(old(self)@.level), height(old(self)@),
    {
        let ghost n0 = self@;
        if self.nodes.is_some() {
            let index = self.bounds.contains_rect(&rect);
            if index != NO_QUADRANT {
                let mut nodes = self.nodes.take().unwrap();
                proof {
                    assert(nodes@.len() == 4);
                    assert(can_route(n0, index as int));
                }
                let res = if 0 <= index && (index as usize) < nodes.len() {
                    let ghost before = nodes@[index as int]@;
                    proof {
                        assert(before == n0.kids.unwrap()[index as int]);
                        assert(well_formed(before));
                    }
                    nodes[index as usize].insert(rect)
                } else {
                    Err(QTreeError::Routing { index })
                };
                self.nodes = Some(nodes);
                proof {
                    assert(self@.kids.unwrap() =~= n0.kids.unwrap().update(
                        index as int,
                        inserted(n0.kids.unwrap()[index as int], rect),
                    ));
                    assert(self@.objects =~= n0.objects);
                }
                return res;
            }
        }
        self.objects.push(rect);

        if self.objects.len() > MAX_OBJECTS && self.level < MAX_LEVELS {
            if self.nodes.is_none() {
                self.subdivide();
            }
            let ghost start = self@.kids.unwrap();
            let ghost objs = self.objects@;
            let mut nodes = self.nodes.take().unwrap();
            let mut result: Result<(), QTreeError> = Ok(());
            let mut k: usize = 0;
            while k < self.objects.len()
                invariant
                    self.objects@ == objs,
                    n0 == old(self)@,
                    start.len() == 4,
                    self.level == n0.level,
                    self.bounds == n0.bounds,
                    n0.level < MAX_LEVELS,
                    well_formed(n0),
                    result is Ok,
                    k <= objs.len(),
                    nodes@.len() == 4,
                    pushed_down(start, n0.level, n0.bounds, objs.take(k as int)).len() == 4,
                    forall|j: int|
                        0 <= j < 4 ==> (#[trigger] nodes@[j])@ == pushed_down(
                            start,
                            n0.level,
                            n0.bounds,
                            objs.take(k as int),
                        )[j],
                    forall|j: int|
                        0 <= j < 4 ==> (#[trigger] nodes@[j]).wf() && nodes@[j].level == n0.level + 1
                            && nodes@[j].bounds == quadrant_bounds(n0.bounds, j),
                ensures
                    k == objs.len(),
                    result is Ok,
                decreases objs.len() - k,
            {
                let object = self.objects[k];
                let index = self.bounds.contains_rect(&object);
                let ghost before = pushed_down(start, n0.level, n0.bounds, objs.take(k as int));
                let ghost after = pushed_down(start, n0.level, n0.bounds, objs.take(k + 1));
                proof {
                    assert(objs.take(k + 1).drop_last() =~= objs.take(k as int));
                    assert(objs.take(k + 1).last() == object);
                    lemma_pushed_down_len(start, n0.level, n0.bounds, objs.take(k + 1));
                    if index == NO_QUADRANT {
                        assert(after == before);
                    } else {
                        assert(before[index as int].level == n0.level + 1);
                        assert(after == before.update(
                            index as int,
                            inserted(before[index as int], object),
                        ));
                    }
                }
                if index != NO_QUADRANT {
                    if 0 <= index && (index as usize) < nodes.len() {
                        proof {
                            assert(room(nodes@[index as int]@.level) < room(n0.level));
                        }
                        match nodes[index as usize].insert(object) {
                            Ok(()) => {},
                            Err(e) => {
                                result = Err(e);
                                break;
                            },
                        }
                    } else {
                        result = Err(QTreeError::Routing { index });
                        break;
                    }
                }
                k += 1;
            }
            self.nodes = Some(nodes);
            // The list is emptied even after a failed pass: objects that fit
            // no quadrant, and any not reached, leave the tree here.
            self.objects.clear();
            proof {
                assert(objs.take(objs.len() as int) =~= objs);
                lemma_pushed_down_len(start, n0.level, n0.bounds, objs);
                assert(self@.kids.unwrap() =~= pushed_down(start, n0.level, n0.bounds, objs));
                assert(self@.objects =~= Seq::<Rect>::empty());
            }
            return result;
        }
        Ok(())
    }
    /// Removes every object from this node and all nodes below it, keeping
    /// the children.
    pub fn clear(&mut self)
        requires
            old(self).wf(),
        ensures
            final(self)@ == cleared(old(self)@),
            final(self).wf(),
        decreases height(old(self)@),
    {
        let ghost n0 = self@;
        self.objects.clear();
        if self.nodes.is_some() {
            let mut nodes = self.nodes.take().unwrap();
            proof {
                assert(n0.kids.unwrap() =~= seq![nodes@[0]@, nodes@[1]@, nodes@[2]@, nodes@[3]@]);
            }
            let mut i: usize = 0;
            while i < nodes.len()
                invariant
                    n0 == old(self)@,
                    well_formed(n0),
                    n0.kids is Some,
                    nodes@.len() == 4,
                    i <= 4,
                    forall|j: int|
                        0 <= j < i ==> (#[trigger] nodes@[j])@ == cleared(n0.kids.unwrap()[j])
                            && nodes@[j].wf(),
                    forall|j: int| i <= j < 4 ==> (#[trigger] nodes@[j])@ == n0.kids.unwrap()[j],
                decreases 4 - i,
            {
                proof {
                    lemma_kid(n0, i as int);
                }
                nodes[i].clear();
                i += 1;
            }
            self.nodes = Some(nodes);
        }
        proof {
            assert(self@.objects =~= Seq::<Rect>::empty());
            if n0.kids is Some {
                let k = n0.kids.unwrap();
                assert(self@.kids.unwrap() =~= seq![cleared(k[0]), cleared(k[1]), cleared(k[2]), cleared(k[3])]);
            }
        }
    }

    /// Collects into `obj` the objects stored along the descent of `rect`:
    /// first those below, from the child whose quadrant holds `rect`, then
    /// this node's own, which are moved out of the tree. Returns a copy of
    /// everything `obj` then holds.
    pub fn retrieve(&mut self, obj: &mut Vec<Rect>, rect: Rect) -> (r: Vec<Rect>)
        requires
            old(self).wf(),
        ensures
            final(obj)@ == old(obj)@ + retrieved(old(self)@, rect),
            r@ == final(obj)@,
            final(self)@ == drained(old(self)@, rect),
            final(self).wf(),
        decreases height(old(self)@),
    {
        let ghost n0 = self@;
        let idx = self.bounds.contains_rect(&rect);
        if self.nodes.is_some() && idx != NO_QUADRANT {
            let mut nodes = self.nodes.take().unwrap();
            proof {
                assert(descends(n0, rect));
            }
            nodes[idx as usize].retrieve(obj, rect);
            self.nodes = Some(nodes);
            proof {
                let k = n0.kids.unwrap();
                assert(self@.kids.unwrap() =~= k.update(idx as int, drained(k[idx as int], rect)));
            }
        }
        obj.append(&mut self.objects);
        proof {
            assert(self@.objects =~= Seq::<Rect>::empty());
            assert(obj@ =~= old(obj)@ + retrieved(n0, rect));
        }
        obj.clone()
    }
}

impl Default for QTree {
    fn default() -> (r: QTree)
        ensures
            r@ == leaf(0, Rect { x: 0, y: 0, w: 0, h: 0 }),
            r.wf(),
    {
        QTree::new(0, Rect::default())
    }
}

impl View for QTree {
    type V = QNode;

    open spec fn view(&self) -> QNode {
        self.model()
    }
}

} // verus!
