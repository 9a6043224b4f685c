//! A region quadtree over integer-coordinate rectangles.
//!
//! A node owns a boundary rectangle, a bucket of stored boxes keyed by
//! identifier, and either no children or exactly four child nodes covering
//! its quadrants. `capacity` is a soft threshold: it decides when the first
//! subdivision is attempted, not how many boxes a node may ultimately hold —
//! a box that straddles every quadrant stays in the node's own bucket even
//! past capacity.

use vstd::prelude::*;

use crate::rect::{Corner, Point, Rect};
use crate::rect::{
    lemma_contained_rect_point, lemma_contains_rect_trans, lemma_quadrant_wf,
    lemma_quadrant_within,
};

verus! {

/// The single error the tree produces: a candidate rectangle is not fully
/// enclosed by the boundary of the node being tested.
#[derive(Clone, Copy, Debug, PartialEq, Eq, Structural)]
pub enum QTreeError {
    RectDoesNotFit,
}

/// The four children of a subdivided node, one per quadrant, in the fixed
/// probe order NE, NW, SW, SE.
#[derive(Debug)]
pub struct Quadrants {
    pub ne: Box<QTreeNode>,
    pub nw: Box<QTreeNode>,
    pub sw: Box<QTreeNode>,
    pub se: Box<QTreeNode>,
}

/// A quadtree node: a boundary, the boxes stored at this node, optional
/// children, and the soft capacity threshold.
#[derive(Debug)]
pub struct QTreeNode {
    pub boundary: Rect,
    pub objects: Vec<(u64, Rect)>,
    pub children: Option<Quadrants>,
    pub capacity: usize,
}

impl QTreeNode {
    /// Well-formedness: the boundary is a valid rectangle, capacity is
    /// positive, every box stored at this node is valid and fully enclosed
    /// by the boundary, and the children, when present, cover the four
    /// quadrants with the same capacity and are themselves well formed.
    pub open spec fn wf(self) -> bool
        decreases self,
    {
        &&& self.boundary.wf()
        &&& self.capacity >= 1
        &&& forall|i: int|
            0 <= i < self.objects@.len() ==> (#[trigger] self.objects@[i].1).wf()
                && self.boundary.contains_rect_spec(self.objects@[i].1)
        &&& match self.children {
            None => true,
            Some(q) => {
                &&& q.ne.boundary == self.boundary.quadrant_spec(Corner::NE)
                &&& q.nw.boundary == self.boundary.quadrant_spec(Corner::NW)
                &&& q.sw.boundary == self.boundary.quadrant_spec(Corner::SW)
                &&& q.se.boundary == self.boundary.quadrant_spec(Corner::SE)
                &&& q.ne.capacity == self.capacity
                &&& q.nw.capacity == self.capacity
                &&& q.sw.capacity == self.capacity
                &&& q.se.capacity == self.capacity
                &&& q.ne.wf()
                &&& q.nw.wf()
                &&& q.sw.wf()
                &&& q.se.wf()
            },
        }
    }

    /// Every (identifier, box) pair stored in the tree, in traversal order:
    /// this node's bucket first, then the NE, NW, SW, SE subtrees.
    pub open spec fn stored(self) -> Seq<(u64, Rect)>
        decreases self,
    {
        self.objects@ + (match self.children {
            None => Seq::<(u64, Rect)>::empty(),
            Some(q) => q.ne.stored() + q.nw.stored() + q.sw.stored() + q.se.stored(),
        })
    }

    /// The boundary of every node of the tree, in traversal order.
    pub open spec fn regions(self) -> Seq<Rect>
        decreases self,
    {
        seq![self.boundary] + (match self.children {
            None => Seq::<Rect>::empty(),
            Some(q) => q.ne.regions() + q.nw.regions() + q.sw.regions() + q.se.regions(),
        })
    }

    /// Creates a new leaf node over `boundary`. `capacity` must be positive.
    pub fn new(boundary: Rect, capacity: usize) -> (n: QTreeNode)
        requires
            boundary.wf(),
            capacity >= 1,
        ensures
            n.wf(),
            n.boundary == boundary,
            n.capacity == capacity,
            n.objects@ == Seq::<(u64, Rect)>::empty(),
            n.children is None,
            n.stored() == Seq::<(u64, Rect)>::empty(),
    {
        let n = QTreeNode { boundary, objects: Vec::new(), children: None, capacity };
        proof {
            assert(n.stored() =~= Seq::<(u64, Rect)>::empty());
        }
        n
    }

    /// Subdivide this node by adding four child nodes, one per quadrant of
    /// the boundary, in the order NE, NW, SW, SE. A node that already has
    /// children is left untouched.
    pub fn subdiv(&mut self)
        requires
            old(self).wf(),
        ensures
            final(self).wf(),
            final(self).boundary == old(self).boundary,
            final(self).capacity == old(self).capacity,
            final(self).objects@ == old(self).objects@,
            old(self).children is Some ==> *final(self) == *old(self),
            final(self).children is Some,
            old(self).children is None ==> (match final(self).children {
                None => false,
                Some(q) => {
                    &&& Self::is_fresh_leaf(*q.ne, old(self).boundary.quadrant_spec(Corner::NE), old(self).capacity as int)
                    &&& Self::is_fresh_leaf(*q.nw, old(self).boundary.quadrant_spec(Corner::NW), old(self).capacity as int)
                    &&& Self::is_fresh_leaf(*q.sw, old(self).boundary.quadrant_spec(Corner::SW), old(self).capacity as int)
                    &&& Self::is_fresh_leaf(*q.se, old(self).boundary.quadrant_spec(Corner::SE), old(self).capacity as int)
                },
            }),
    {
        if self.children.is_some() {
            return;
        }
        proof {
            lemma_quadrant_wf(self.boundary, Corner::NE);
            lemma_quadrant_wf(self.boundary, Corner::NW);
            lemma_quadrant_wf(self.boundary, Corner::SW);
            lemma_quadrant_wf(self.boundary, Corner::SE);
        }
        let ne = QTreeNode::new(self.boundary.quadrant(Corner::NE), self.capacity);
        let nw = QTreeNode::new(self.boundary.quadrant(Corner::NW), self.capacity);
        let sw = QTreeNode::new(self.boundary.quadrant(Corner::SW), self.capacity);
        let se = QTreeNode::new(self.boundary.quadrant(Corner::SE), self.capacity);
        self.children = Some(Quadrants {
            ne: Box::new(ne),
            nw: Box::new(nw),
            sw: Box::new(sw),
            se: Box::new(se),
        });
    }

    /// A leaf node over `boundary` with the given capacity and no contents.
    pub open spec fn is_fresh_leaf(n: QTreeNode, boundary: Rect, capacity: int) -> bool {
        &&& n.boundary == boundary
        &&& n.capacity == capacity
        &&& n.objects@ == Seq::<(u64, Rect)>::empty()
        &&& n.children is None
    }

    /// A leaf node over `boundary` holding exactly one pair.
    pub open spec fn is_leaf_with(n: QTreeNode, boundary: Rect, capacity: int, pair: (u64, Rect)) -> bool {
        &&& n.boundary == boundary
        &&& n.capacity == capacity
        &&& n.objects@ == seq![pair]
        &&& n.children is None
    }

    /// How a successful insertion of `rect` under `id` transforms a node
    /// whose boundary encloses `rect`:
    /// below capacity the pair is appended to the node's own bucket; at
    /// capacity a node without children subdivides and the first quadrant
    /// (in NE, NW, SW, SE order) that fully encloses the rectangle receives
    /// the pair, the node's own bucket taking it when no quadrant does; a
    /// node with children delegates to the first accepting child in the same
    /// order, again keeping the pair itself when no child accepts it.
    pub open spec fn insert_rel(pre: QTreeNode, post: QTreeNode, rect: Rect, id: u64) -> bool
        decreases pre,
    {
        if pre.objects@.len() < pre.capacity {
            &&& post.boundary == pre.boundary
            &&& post.capacity == pre.capacity
            &&& post.objects@ == pre.objects@.push((id, rect))
            &&& post.children == pre.children
        } else {
            match pre.children {
                None => {
                    let bne = pre.boundary.quadrant_spec(Corner::NE);
                    let bnw = pre.boundary.quadrant_spec(Corner::NW);
                    let bsw = pre.boundary.quadrant_spec(Corner::SW);
                    let bse = pre.boundary.quadrant_spec(Corner::SE);
                    let cap = pre.capacity as int;
                    &&& post.boundary == pre.boundary
                    &&& post.capacity == pre.capacity
                    &&& match post.children {
                        None => false,
                        Some(q) => {
                            if bne.contains_rect_spec(rect) {
                                &&& Self::is_leaf_with(*q.ne, bne, cap, (id, rect))
                                &&& Self::is_fresh_leaf(*q.nw, bnw, cap)
                                &&& Self::is_fresh_leaf(*q.sw, bsw, cap)
                                &&& Self::is_fresh_leaf(*q.se, bse, cap)
                                &&& post.objects@ == pre.objects@
                            } else if bnw.contains_rect_spec(rect) {
                                &&& Self::is_fresh_leaf(*q.ne, bne, cap)
                                &&& Self::is_leaf_with(*q.nw, bnw, cap, (id, rect))
                                &&& Self::is_fresh_leaf(*q.sw, bsw, cap)
                                &&& Self::is_fresh_leaf(*q.se, bse, cap)
                                &&& post.objects@ == pre.objects@
                            } else if bsw.contains_rect_spec(rect) {
                                &&& Self::is_fresh_leaf(*q.ne, bne, cap)
                                &&& Self::is_fresh_leaf(*q.nw, bnw, cap)
                                &&& Self::is_leaf_with(*q.sw, bsw, cap, (id, rect))
                                &&& Self::is_fresh_leaf(*q.se, bse, cap)
                                &&& post.objects@ == pre.objects@
                            } else if bse.contains_rect_spec(rect) {
                                &&& Self::is_fresh_leaf(*q.ne, bne, cap)
                                &&& Self::is_fresh_leaf(*q.nw, bnw, cap)
                                &&& Self::is_fresh_leaf(*q.sw, bsw, cap)
                                &&& Self::is_leaf_with(*q.se, bse, cap, (id, rect))
                                &&& post.objects@ == pre.objects@
                            } else {
                                &&& Self::is_fresh_leaf(*q.ne, bne, cap)
                                &&& Self::is_fresh_leaf(*q.nw, bnw, cap)
                                &&& Self::is_fresh_leaf(*q.sw, bsw, cap)
                                &&& Self::is_fresh_leaf(*q.se, bse, cap)
                                &&& post.objects@ == pre.objects@.push((id, rect))
                            }
                        },
                    }
                },
                Some(qpre) => {
                    &&& post.boundary == pre.boundary
                    &&& post.capacity == pre.capacity
                    &&& match post.children {
                        None => false,
                        Some(qpost) => {
                            if qpre.ne.boundary.contains_rect_spec(rect) {
                                &&& Self::insert_rel(*qpre.ne, *qpost.ne, rect, id)
                                &&& qpost.nw == qpre.nw
                                &&& qpost.sw == qpre.sw
                                &&& qpost.se == qpre.se
                                &&& post.objects@ == pre.objects@
                            } else if qpre.nw.boundary.contains_rect_spec(rect) {
                                &&& qpost.ne == qpre.ne
                                &&& Self::insert_rel(*qpre.nw, *qpost.nw, rect, id)
                                &&& qpost.sw == qpre.sw
                                &&& qpost.se == qpre.se
                                &&& post.objects@ == pre.objects@
                            } else if qpre.sw.boundary.contains_rect_spec(rect) {
                                &&& qpost.ne == qpre.ne
                                &&& qpost.nw == qpre.nw
                                &&& Self::insert_rel(*qpre.sw, *qpost.sw, rect, id)
                                &&& qpost.se == qpre.se
                                &&& post.objects@ == pre.objects@
                            } else if qpre.se.boundary.contains_rect_spec(rect) {
                                &&& qpost.ne == qpre.ne
                                &&& qpost.nw == qpre.nw
                                &&& qpost.sw == qpre.sw
                                &&& Self::insert_rel(*qpre.se, *qpost.se, rect, id)
                                &&& post.objects@ == pre.objects@
                            } else {
                                &&& qpost == qpre
                                &&& post.objects@ == pre.objects@.push((id, rect))
                            }
                        },
                    }
                },
            }
        }
    }

    /// Insert the bounding box `rect` under the identifier `id`.
    ///
    /// Fails with `RectDoesNotFit`, leaving the tree untouched, exactly when
    /// the boundary of this node does not fully enclose `rect`; otherwise
    /// the pair is placed as `insert_rel` describes.
    pub fn insert(&mut self, rect: &Rect, id: u64) -> (res: Result<(), QTreeError>)
        requires
            old(self).wf(),
            rect.wf(),
        ensures
            final(self).wf(),
            res is Ok <==> old(self).boundary.contains_rect_spec(*rect),
            res is Ok ==> Self::insert_rel(*old(self), *final(self), *rect, id),
            res is Err ==> *final(self) == *old(self) && res == Err::<(), QTreeError>(QTreeError::RectDoesNotFit),
        decreases *old(self),
    {
        if !self.boundary.contains_rect(rect) {
            return Err(QTreeError::RectDoesNotFit);
        }

        if self.objects.len() < self.capacity {
            self.objects.push((id, *rect));
            proof {
                assert forall|i: int|
                    0 <= i < self.objects@.len() implies (#[trigger] self.objects@[i].1).wf()
                        && self.boundary.contains_rect_spec(self.objects@[i].1) by {
                    if i < self.objects@.len() - 1 {
                        assert(self.objects@[i] == old(self).objects@[i]);
                    } else {
                        assert(self.objects@[i] == (id, *rect));
                    }
                }
                assert(self.children == old(self).children);
                if let Some(q) = old(self).children {
                    assert(q.ne.wf() && q.nw.wf() && q.sw.wf() && q.se.wf());
                }
                assert(self.wf());
            }
            return Ok(());
        }

        if self.children.is_none() {
            self.subdiv();
            let mut quads = self.children.take().unwrap();
            if quads.ne.boundary.contains_rect(rect) {
                (&mut *quads.ne).objects.push((id, *rect));
                proof {
                    assert(quads.ne.objects@ =~= seq![(id, *rect)]);
                }
            } else if quads.nw.boundary.contains_rect(rect) {
                (&mut *quads.nw).objects.push((id, *rect));
                proof {
                    assert(quads.nw.objects@ =~= seq![(id, *rect)]);
                }
            } else if quads.sw.boundary.contains_rect(rect) {
                (&mut *quads.sw).objects.push((id, *rect));
                proof {
                    assert(quads.sw.objects@ =~= seq![(id, *rect)]);
                }
            } else if quads.se.boundary.contains_rect(rect) {
                (&mut *quads.se).objects.push((id, *rect));
                proof {
                    assert(quads.se.objects@ =~= seq![(id, *rect)]);
                }
            } else {
                self.objects.push((id, *rect));
                proof {
                    assert forall|i: int|
                        0 <= i < self.objects@.len() implies (#[trigger] self.objects@[i].1).wf()
                            && self.boundary.contains_rect_spec(self.objects@[i].1) by {
                        if i < self.objects@.len() - 1 {
                            assert(self.objects@[i] == old(self).objects@[i]);
                        } else {
                            assert(self.objects@[i] == (id, *rect));
                        }
                    }
                }
            }
            self.children = Some(quads);
            proof {
                lemma_quadrant_wf(old(self).boundary, Corner::NE);
                lemma_quadrant_wf(old(self).boundary, Corner::NW);
                lemma_quadrant_wf(old(self).boundary, Corner::SW);
                lemma_quadrant_wf(old(self).boundary, Corner::SE);
                assert(quads.ne.wf());
                assert(quads.nw.wf());
                assert(quads.sw.wf());
                assert(quads.se.wf());
                assert(self.wf());
                assert(Self::insert_rel(*old(self), *self, *rect, id));
            }
            return Ok(());
        }

        let mut quads = self.children.take().unwrap();
        let mut accepted = match (&mut *quads.ne).insert(rect, id) {
            Ok(()) => true,
            Err(QTreeError::RectDoesNotFit) => false,
        };
        if !accepted {
            accepted = match (&mut *quads.nw).insert(rect, id) {
                Ok(()) => true,
                Err(QTreeError::RectDoesNotFit) => false,
            };
        }
        if !accepted {
            accepted = match (&mut *quads.sw).insert(rect, id) {
                Ok(()) => true,
                Err(QTreeError::RectDoesNotFit) => false,
            };
        }
        if !accepted {
            accepted = match (&mut *quads.se).insert(rect, id) {
                Ok(()) => true,
                Err(QTreeError::RectDoesNotFit) => false,
            };
        }
        if !accepted {
            self.objects.push((id, *rect));
        }
        self.children = Some(quads);
        Ok(())
    }

    /// One unit of scan budget spent: `None` stays unlimited, and a budget
    /// of zero stays zero.
    pub open spec fn dec_budget(budget: Option<usize>) -> Option<usize> {
        match budget {
            None => None,
            Some(b) => if b == 0 { Some(0usize) } else { Some((b - 1) as usize) },
        }
    }

    /// The identifiers a scan of `s` from index `i` on finds for `p` under
    /// `budget`: each box containing `p` contributes its identifier and
    /// spends one unit of budget; once the budget is zero nothing more is
    /// found; no budget means no limit.
    pub open spec fn scan_found(s: Seq<(u64, Rect)>, p: Point, budget: Option<usize>, i: int) -> Set<u64>
        decreases s.len() - i,
    {
        if i < 0 || i >= s.len() || budget == Some(0usize) {
            Set::<u64>::empty()
        } else if s[i].1.contains_point_spec(p) {
            Self::scan_found(s, p, Self::dec_budget(budget), i + 1).insert(s[i].0)
        } else {
            Self::scan_found(s, p, budget, i + 1)
        }
    }

    /// The budget left over after the scan that `scan_found` describes.
    pub open spec fn scan_left(s: Seq<(u64, Rect)>, p: Point, budget: Option<usize>, i: int) -> Option<usize>
        decreases s.len() - i,
    {
        if i < 0 || i >= s.len() || budget == Some(0usize) {
            budget
        } else if s[i].1.contains_point_spec(p) {
            Self::scan_left(s, p, Self::dec_budget(budget), i + 1)
        } else {
            Self::scan_left(s, p, budget, i + 1)
        }
    }

    /// The set of identifiers a point query returns: nothing when the point
    /// lies outside the boundary; otherwise the node's own bucket is scanned
    /// under `budget`, and each child, when children exist, is queried with
    /// the budget the scan left over.
    pub open spec fn query_spec(self, p: Point, budget: Option<usize>) -> Set<u64>
        decreases self,
    {
        if !self.boundary.contains_point_spec(p) {
            Set::<u64>::empty()
        } else {
            let own = Self::scan_found(self.objects@, p, budget, 0);
            let left = Self::scan_left(self.objects@, p, budget, 0);
            own + (match self.children {
                None => Set::<u64>::empty(),
                Some(q) => q.ne.query_spec(p, left) + q.nw.query_spec(p, left)
                    + q.sw.query_spec(p, left) + q.se.query_spec(p, left),
            })
        }
    }

    /// The identifiers of pairs at index `i` or later in `s` whose box
    /// contains `p`.
    pub open spec fn point_hits_from(s: Seq<(u64, Rect)>, p: Point, i: int) -> Set<u64> {
        Set::new(|id: u64| exists|j: int| i <= j < s.len() && (#[trigger] s[j]).0 == id
            && s[j].1.contains_point_spec(p))
    }

    /// The identifiers of pairs in `s` whose box contains `p`.
    pub open spec fn point_hits(s: Seq<(u64, Rect)>, p: Point) -> Set<u64> {
        Self::point_hits_from(s, p, 0)
    }

    /// Collects into `acc`, without introducing duplicates, every identifier
    /// that `query_spec` names for this node.
    fn query_into(&self, point: &Point, limit: Option<usize>, acc: &mut Vec<u64>)
        requires
            self.wf(),
            old(acc)@.no_duplicates(),
        ensures
            final(acc)@.no_duplicates(),
            final(acc)@.to_set() == old(acc)@.to_set() + self.query_spec(*point, limit),
        decreases *self,
    {
        if !self.boundary.contains_point(point) {
            proof {
                assert(acc@.to_set() =~= old(acc)@.to_set() + self.query_spec(*point, limit));
            }
            return;
        }
        let ghost s = self.objects@;
        let ghost base = acc@;
        let mut budget = limit;
        let mut i: usize = 0;
        while i < self.objects.len()
            invariant
                self.wf(),
                s == self.objects@,
                i <= self.objects.len(),
                acc@.no_duplicates(),
                acc@.to_set() + Self::scan_found(s, *point, budget, i as int)
                    == base.to_set() + Self::scan_found(s, *point, limit, 0),
                Self::scan_left(s, *point, budget, i as int) == Self::scan_left(s, *point, limit, 0),
            decreases self.objects.len() - i,
        {
            let ghost acc_pre = acc@;
            let ghost budget_pre = budget;
            let pair = self.objects[i];
            match budget {
                None => {
                    if pair.1.contains_point(point) {
                        if !vec_contains_u64(acc, pair.0) {
                            acc.push(pair.0);
                            proof {
                                lemma_push_no_dup(acc_pre, pair.0);
                                lemma_push_to_set(acc_pre, pair.0);
                            }
                        } else {
                            proof {
                                assert(acc_pre.to_set().contains(pair.0));
                            }
                        }
                        proof {
                            assert(acc@.to_set() =~= acc_pre.to_set().insert(pair.0));
                            assert(acc@.to_set() + Self::scan_found(s, *point, budget, i + 1)
                                =~= acc_pre.to_set() + Self::scan_found(s, *point, budget_pre, i as int));
                        }
                    }
                },
                Some(b) => {
                    if b > 0 {
                        if pair.1.contains_point(point) {
                            if !vec_contains_u64(acc, pair.0) {
                                acc.push(pair.0);
                                proof {
                                    lemma_push_no_dup(acc_pre, pair.0);
                                    lemma_push_to_set(acc_pre, pair.0);
                                }
                            } else {
                                proof {
                                    assert(acc_pre.to_set().contains(pair.0));
                                }
                            }
                            budget = Some(b - 1);
                            proof {
                                assert(budget == Self::dec_budget(budget_pre));
                                assert(acc@.to_set() =~= acc_pre.to_set().insert(pair.0));
                                assert(acc@.to_set() + Self::scan_found(s, *point, budget, i + 1)
                                    =~= acc_pre.to_set() + Self::scan_found(s, *point, budget_pre, i as int));
                            }
                        }
                    } else {
                        proof {
                            assert(Self::scan_found(s, *point, budget_pre, i as int) =~= Set::<u64>::empty());
                            assert(Self::scan_found(s, *point, budget, i + 1) =~= Set::<u64>::empty());
                        }
                    }
                },
            }
            i += 1;
        }
        proof {
            assert(Self::scan_found(s, *point, budget, i as int) =~= Set::<u64>::empty());
            assert(acc@.to_set() =~= base.to_set() + Self::scan_found(s, *point, limit, 0));
        }
        if let Some(q) = &self.children {
            q.ne.query_into(point, budget, acc);
            q.nw.query_into(point, budget, acc);
            q.sw.query_into(point, budget, acc);
            q.se.query_into(point, budget, acc);
        }
        proof {
            assert(acc@.to_set() =~= old(acc)@.to_set() + self.query_spec(*point, limit));
        }
    }

    /// Find the identifiers of stored boxes that contain `point`.
    ///
    /// `limit` bounds how many matches each node's own scan may add before
    /// matching stops; `None` means no limit. Out-of-boundary points yield
    /// the empty result, never an error, and the call never mutates the
    /// tree, so equal calls return equal results.
    pub fn query_point(&self, point: &Point, limit: Option<usize>) -> (r: Vec<u64>)
        requires
            self.wf(),
        ensures
            r@.to_set() == self.query_spec(*point, limit),
            r@.no_duplicates(),
    {
        let mut acc: Vec<u64> = Vec::new();
        self.query_into(point, limit, &mut acc);
        proof {
            assert(acc@.to_set() =~= self.query_spec(*point, limit));
        }
        acc
    }

    /// Every stored rectangle in the tree, in traversal order.
    pub fn enumerate_objects(&self) -> (r: Vec<Rect>)
        ensures
            r@.len() == self.stored().len(),
            forall|j: int| 0 <= j < r@.len() ==> r@[j] == self.stored()[j].1,
    {
        let mut out: Vec<Rect> = Vec::new();
        self.collect_objects(&mut out);
        out
    }

    fn collect_objects(&self, out: &mut Vec<Rect>)
        ensures
            final(out)@.len() == old(out)@.len() + self.stored().len(),
            forall|k: int| 0 <= k < old(out)@.len() ==> final(out)@[k] == old(out)@[k],
            forall|j: int| 0 <= j < self.stored().len()
                ==> final(out)@[old(out)@.len() + j] == self.stored()[j].1,
        decreases *self,
    {
        let ghost base = out@;
        let mut i: usize = 0;
        while i < self.objects.len()
            invariant
                i <= self.objects.len(),
                out@.len() == base.len() + i,
                forall|k: int| 0 <= k < base.len() ==> out@[k] == base[k],
                forall|j: int| 0 <= j < i ==> out@[base.len() + j] == self.objects@[j].1,
            decreases self.objects.len() - i,
        {
            let pair = self.objects[i];
            out.push(pair.1);
            i += 1;
        }
        match &self.children {
            None => {
                proof {
                    assert(self.stored() =~= self.objects@);
                }
            },
            Some(q) => {
                q.ne.collect_objects(out);
                q.nw.collect_objects(out);
                q.sw.collect_objects(out);
                q.se.collect_objects(out);
                proof {
                    let oz = self.objects@.len() as int;
                    let a = q.ne.stored();
                    let b = q.nw.stored();
                    let c = q.sw.stored();
                    let d = q.se.stored();
                    let rest = a + b + c + d;
                    assert(self.stored() == self.objects@ + rest);
                    assert forall|j: int| 0 <= j < self.stored().len()
                        implies out@[base.len() + j] == (#[trigger] self.stored()[j]).1 by {
                        if j < oz {
                            assert(self.stored()[j] == self.objects@[j]);
                        } else {
                            assert(self.stored()[j] == rest[j - oz]);
                            let m = j - oz;
                            if m < a.len() {
                                assert(rest[m] == a[m]);
                            } else if m < a.len() + b.len() {
                                assert(rest[m] == b[m - a.len()]);
                            } else if m < a.len() + b.len() + c.len() {
                                assert(rest[m] == c[m - a.len() - b.len()]);
                            } else {
                                assert(rest[m] == d[m - a.len() - b.len() - c.len()]);
                            }
                        }
                    }
                }
            },
        }
    }

    /// The boundary of every node of the tree, in traversal order.
    pub fn enumerate_regions(&self) -> (r: Vec<Rect>)
        ensures
            r@.len() == self.regions().len(),
            forall|j: int| 0 <= j < r@.len() ==> r@[j] == self.regions()[j],
    {
        let mut out: Vec<Rect> = Vec::new();
        self.collect_regions(&mut out);
        out
    }

    fn collect_regions(&self, out: &mut Vec<Rect>)
        ensures
            final(out)@.len() == old(out)@.len() + self.regions().len(),
            forall|k: int| 0 <= k < old(out)@.len() ==> final(out)@[k] == old(out)@[k],
            forall|j: int| 0 <= j < self.regions().len()
                ==> final(out)@[old(out)@.len() + j] == self.regions()[j],
        decreases *self,
    {
        let ghost base = out@;
        out.push(self.boundary);
        match &self.children {
            None => {
                proof {
                    assert(self.regions() =~= seq![self.boundary]);
                }
            },
            Some(q) => {
                q.ne.collect_regions(out);
                q.nw.collect_regions(out);
                q.sw.collect_regions(out);
                q.se.collect_regions(out);
                proof {
                    let a = q.ne.regions();
                    let b = q.nw.regions();
                    let c = q.sw.regions();
                    let d = q.se.regions();
                    let rest = a + b + c + d;
                    assert(self.regions() == seq![self.boundary] + rest);
                    assert forall|j: int| 0 <= j < self.regions().len()
                        implies out@[base.len() + j] == #[trigger] self.regions()[j] by {
                        if j == 0 {
                            assert(self.regions()[0] == self.boundary);
                        } else {
                            assert(self.regions()[j] == rest[j - 1]);
                            let m = j - 1;
                            if m < a.len() {
                                assert(rest[m] == a[m]);
                            } else if m < a.len() + b.len() {
                                assert(rest[m] == b[m - a.len()]);
                            } else if m < a.len() + b.len() + c.len() {
                                assert(rest[m] == c[m - a.len() - b.len()]);
                            } else {
                                assert(rest[m] == d[m - a.len() - b.len() - c.len()]);
                            }
                        }
                    }
                }
            },
        }
    }
}

/// Every box stored anywhere in a well-formed tree is a valid rectangle
/// fully enclosed by the boundary of the tree's root.
pub proof fn lemma_stored_wf(n: QTreeNode)
    requires
        n.wf(),
    ensures
        forall|k: int| 0 <= k < n.stored().len()
            ==> (#[trigger] n.stored()[k]).1.wf()
                && n.boundary.contains_rect_spec(n.stored()[k].1),
    decreases n,
{
    match n.children {
        None => {
            assert(n.stored() =~= n.objects@);
        },
        Some(q) => {
            lemma_stored_wf(*q.ne);
            lemma_stored_wf(*q.nw);
            lemma_stored_wf(*q.sw);
            lemma_stored_wf(*q.se);
            lemma_quadrant_within(n.boundary, Corner::NE);
            lemma_quadrant_within(n.boundary, Corner::NW);
            lemma_quadrant_within(n.boundary, Corner::SW);
            lemma_quadrant_within(n.boundary, Corner::SE);
            let a = q.ne.stored();
            let b = q.nw.stored();
            let c = q.sw.stored();
            let d = q.se.stored();
            let rest = a + b + c + d;
            assert forall|k: int| 0 <= k < n.stored().len()
                implies (#[trigger] n.stored()[k]).1.wf()
                    && n.boundary.contains_rect_spec(n.stored()[k].1) by {
                let oz = n.objects@.len() as int;
                if k < oz {
                    assert(n.stored()[k] == n.objects@[k]);
                } else {
                    let m = k - oz;
                    assert(n.stored()[k] == rest[m]);
                    if m < a.len() {
                        assert(rest[m] == a[m]);
                        lemma_contains_rect_trans(n.boundary, q.ne.boundary, a[m].1);
                    } else if m < a.len() + b.len() {
                        assert(rest[m] == b[m - a.len()]);
                        lemma_contains_rect_trans(n.boundary, q.nw.boundary, b[m - a.len()].1);
                    } else if m < a.len() + b.len() + c.len() {
                        assert(rest[m] == c[m - a.len() - b.len()]);
                        lemma_contains_rect_trans(n.boundary, q.sw.boundary, c[m - a.len() - b.len()].1);
                    } else {
                        assert(rest[m] == d[m - a.len() - b.len() - c.len()]);
                        lemma_contains_rect_trans(n.boundary, q.se.boundary, d[m - a.len() - b.len() - c.len()].1);
                    }
                }
            }
        },
    }
}

/// A scan without a limit finds exactly the identifiers of the boxes from
/// index `i` on that contain the point, and leaves the budget unlimited.
pub proof fn lemma_scan_unlimited(s: Seq<(u64, Rect)>, p: Point, i: int)
    requires
        0 <= i <= s.len(),
    ensures
        QTreeNode::scan_left(s, p, None, i) == None::<usize>,
        QTreeNode::scan_found(s, p, None, i) == QTreeNode::point_hits_from(s, p, i),
    decreases s.len() - i,
{
    if i == s.len() {
        assert(QTreeNode::scan_found(s, p, None, i) =~= QTreeNode::point_hits_from(s, p, i));
    } else {
        lemma_scan_unlimited(s, p, i + 1);
        assert(QTreeNode::scan_found(s, p, None, i) =~= QTreeNode::point_hits_from(s, p, i)) by {
            assert forall|id: u64| QTreeNode::point_hits_from(s, p, i).contains(id)
                implies QTreeNode::scan_found(s, p, None, i).contains(id) by {
                let j = choose|j: int| i <= j < s.len() && (#[trigger] s[j]).0 == id
                    && s[j].1.contains_point_spec(p);
                if j > i {
                    assert(QTreeNode::point_hits_from(s, p, i + 1).contains(id));
                }
            }
            assert forall|id: u64| QTreeNode::scan_found(s, p, None, i).contains(id)
                implies QTreeNode::point_hits_from(s, p, i).contains(id) by {
                if s[i].1.contains_point_spec(p) && id == s[i].0 {
                    assert(i <= i < s.len() && s[i].0 == id && s[i].1.contains_point_spec(p));
                } else {
                    assert(QTreeNode::point_hits_from(s, p, i + 1).contains(id));
                    let j = choose|j: int| i + 1 <= j < s.len() && (#[trigger] s[j]).0 == id
                        && s[j].1.contains_point_spec(p);
                    assert(i <= j < s.len() && s[j].0 == id && s[j].1.contains_point_spec(p));
                }
            }
        }
    }
}

/// The hits of a point in a concatenation are the union of its hits in the
/// two halves.
pub proof fn lemma_point_hits_concat(a: Seq<(u64, Rect)>, b: Seq<(u64, Rect)>, p: Point)
    ensures
        QTreeNode::point_hits(a + b, p) == QTreeNode::point_hits(a, p) + QTreeNode::point_hits(b, p),
{
    assert(QTreeNode::point_hits(a + b, p) =~= QTreeNode::point_hits(a, p)
        + QTreeNode::point_hits(b, p)) by {
        assert forall|id: u64| QTreeNode::point_hits(a + b, p).contains(id)
            implies (QTreeNode::point_hits(a, p) + QTreeNode::point_hits(b, p)).contains(id) by {
            let j = choose|j: int| 0 <= j < (a + b).len() && (#[trigger] (a + b)[j]).0 == id
                && (a + b)[j].1.contains_point_spec(p);
            if j < a.len() {
                assert(a[j] == (a + b)[j]);
                assert(0 <= j < a.len() && a[j].0 == id && a[j].1.contains_point_spec(p));
            } else {
                assert(b[j - a.len()] == (a + b)[j]);
                assert(0 <= j - a.len() < b.len() && b[j - a.len()].0 == id
                    && b[j - a.len()].1.contains_point_spec(p));
            }
        }
        assert forall|id: u64| (QTreeNode::point_hits(a, p) + QTreeNode::point_hits(b, p)).contains(id)
            implies QTreeNode::point_hits(a + b, p).contains(id) by {
            if QTreeNode::point_hits(a, p).contains(id) {
                let j = choose|j: int| 0 <= j < a.len() && (#[trigger] a[j]).0 == id
                    && a[j].1.contains_point_spec(p);
                assert((a + b)[j] == a[j]);
                assert(0 <= j < (a + b).len() && (a + b)[j].0 == id
                    && (a + b)[j].1.contains_point_spec(p));
            } else {
                let j = choose|j: int| 0 <= j < b.len() && (#[trigger] b[j]).0 == id
                    && b[j].1.contains_point_spec(p);
                assert((a + b)[a.len() + j] == b[j]);
                assert(0 <= a.len() + j < (a + b).len() && (a + b)[a.len() + j].0 == id
                    && (a + b)[a.len() + j].1.contains_point_spec(p));
            }
        }
    }
}

/// Query completeness: a query with no limit returns exactly the
/// identifiers of the stored boxes that contain the point — every match
/// anywhere in the tree is found, and nothing else.
pub proof fn lemma_query_unlimited_complete(n: QTreeNode, p: Point)
    requires
        n.wf(),
    ensures
        n.query_spec(p, None) == QTreeNode::point_hits(n.stored(), p),
    decreases n,
{
    if !n.boundary.contains_point_spec(p) {
        lemma_stored_wf(n);
        assert(n.query_spec(p, None) =~= QTreeNode::point_hits(n.stored(), p)) by {
            assert forall|id: u64| !QTreeNode::point_hits(n.stored(), p).contains(id) by {
                if QTreeNode::point_hits(n.stored(), p).contains(id) {
                    let j = choose|j: int| 0 <= j < n.stored().len()
                        && (#[trigger] n.stored()[j]).0 == id
                        && n.stored()[j].1.contains_point_spec(p);
                    lemma_contained_rect_point(n.boundary, n.stored()[j].1, p);
                }
            }
        }
    } else {
        lemma_scan_unlimited(n.objects@, p, 0);
        match n.children {
            None => {
                assert(n.stored() =~= n.objects@);
                assert(n.query_spec(p, None) =~= QTreeNode::point_hits(n.stored(), p));
            },
            Some(q) => {
                lemma_query_unlimited_complete(*q.ne, p);
                lemma_query_unlimited_complete(*q.nw, p);
                lemma_query_unlimited_complete(*q.sw, p);
                lemma_query_unlimited_complete(*q.se, p);
                let a = q.ne.stored();
                let b = q.nw.stored();
                let c = q.sw.stored();
                let d = q.se.stored();
                lemma_point_hits_concat(n.objects@, a + b + c + d, p);
                lemma_point_hits_concat(a + b + c, d, p);
                lemma_point_hits_concat(a + b, c, p);
                lemma_point_hits_concat(a, b, p);
                assert(n.stored() == n.objects@ + (a + b + c + d));
                assert(n.query_spec(p, None) =~= QTreeNode::point_hits(n.stored(), p));
            },
        }
    }
}

/// Repeated point queries with the same point and the same limit, with no
/// mutation in between, return the same set of identifiers.
pub proof fn lemma_query_idempotent(
    n: QTreeNode,
    p: Point,
    limit: Option<usize>,
    r1: Set<u64>,
    r2: Set<u64>,
)
    requires
        r1 == n.query_spec(p, limit),
        r2 == n.query_spec(p, limit),
    ensures
        r1 == r2,
{
}

/// A successful insertion adds exactly the new pair to the stored contents
/// of the tree and disturbs nothing else.
pub proof fn lemma_insert_rel_adds(pre: QTreeNode, post: QTreeNode, rect: Rect, id: u64)
    requires
        QTreeNode::insert_rel(pre, post, rect, id),
    ensures
        post.stored().to_multiset() == pre.stored().to_multiset().insert((id, rect)),
    decreases pre,
{
    broadcast use vstd::multiset::group_multiset_axioms;

    let pair = (id, rect);
    if pre.objects@.len() < pre.capacity {
        let rest = match pre.children {
            None => Seq::<(u64, Rect)>::empty(),
            Some(q) => q.ne.stored() + q.nw.stored() + q.sw.stored() + q.se.stored(),
        };
        assert(post.stored() == post.objects@ + rest);
        assert(pre.stored() == pre.objects@ + rest);
        vstd::seq_lib::lemma_multiset_commutative(post.objects@, rest);
        vstd::seq_lib::lemma_multiset_commutative(pre.objects@, rest);
        vstd::seq_lib::to_multiset_build(pre.objects@, pair);
        assert(post.stored().to_multiset() =~= pre.stored().to_multiset().insert(pair));
    } else {
        match pre.children {
            None => {
                match post.children {
                    None => {},
                    Some(qp) => {
                        assert(qp.ne.stored() =~= qp.ne.objects@);
                        assert(qp.nw.stored() =~= qp.nw.objects@);
                        assert(qp.sw.stored() =~= qp.sw.objects@);
                        assert(qp.se.stored() =~= qp.se.objects@);
                        assert(pre.stored() =~= pre.objects@);
                        assert(post.stored() =~= pre.stored().push(pair));
                        vstd::seq_lib::to_multiset_build(pre.stored(), pair);
                    },
                }
            },
            Some(qpre) => {
                match post.children {
                    None => {},
                    Some(qpost) => {
                        let a = qpre.ne.stored();
                        let b = qpre.nw.stored();
                        let c = qpre.sw.stored();
                        let d = qpre.se.stored();
                        assert(pre.stored() == pre.objects@ + (a + b + c + d));
                        vstd::seq_lib::lemma_multiset_commutative(pre.objects@, a + b + c + d);
                        vstd::seq_lib::lemma_multiset_commutative(a + b + c, d);
                        vstd::seq_lib::lemma_multiset_commutative(a + b, c);
                        vstd::seq_lib::lemma_multiset_commutative(a, b);
                        if qpre.ne.boundary.contains_rect_spec(rect) {
                            lemma_insert_rel_adds(*qpre.ne, *qpost.ne, rect, id);
                            let a2 = qpost.ne.stored();
                            assert(post.stored() == post.objects@ + (a2 + b + c + d));
                            vstd::seq_lib::lemma_multiset_commutative(post.objects@, a2 + b + c + d);
                            vstd::seq_lib::lemma_multiset_commutative(a2 + b + c, d);
                            vstd::seq_lib::lemma_multiset_commutative(a2 + b, c);
                            vstd::seq_lib::lemma_multiset_commutative(a2, b);
                            assert(post.stored().to_multiset() =~= pre.stored().to_multiset().insert(pair));
                        } else if qpre.nw.boundary.contains_rect_spec(rect) {
                            lemma_insert_rel_adds(*qpre.nw, *qpost.nw, rect, id);
                            let b2 = qpost.nw.stored();
                            assert(post.stored() == post.objects@ + (a + b2 + c + d));
                            vstd::seq_lib::lemma_multiset_commutative(post.objects@, a + b2 + c + d);
                            vstd::seq_lib::lemma_multiset_commutative(a + b2 + c, d);
                            vstd::seq_lib::lemma_multiset_commutative(a + b2, c);
                            vstd::seq_lib::lemma_multiset_commutative(a, b2);
                            assert(post.stored().to_multiset() =~= pre.stored().to_multiset().insert(pair));
                        } else if qpre.sw.boundary.contains_rect_spec(rect) {
                            lemma_insert_rel_adds(*qpre.sw, *qpost.sw, rect, id);
                            let c2 = qpost.sw.stored();
                            assert(post.stored() == post.objects@ + (a + b + c2 + d));
                            vstd::seq_lib::lemma_multiset_commutative(post.objects@, a + b + c2 + d);
                            vstd::seq_lib::lemma_multiset_commutative(a + b + c2, d);
                            vstd::seq_lib::lemma_multiset_commutative(a + b, c2);
                            vstd::seq_lib::lemma_multiset_commutative(a, b);
                            assert(post.stored().to_multiset() =~= pre.stored().to_multiset().insert(pair));
                        } else if qpre.se.boundary.contains_rect_spec(rect) {
                            lemma_insert_rel_adds(*qpre.se, *qpost.se, rect, id);
                            let d2 = qpost.se.stored();
                            assert(post.stored() == post.objects@ + (a + b + c + d2));
                            vstd::seq_lib::lemma_multiset_commutative(post.objects@, a + b + c + d2);
                            vstd::seq_lib::lemma_multiset_commutative(a + b + c, d2);
                            vstd::seq_lib::lemma_multiset_commutative(a + b, c);
                            vstd::seq_lib::lemma_multiset_commutative(a, b);
                            assert(post.stored().to_multiset() =~= pre.stored().to_multiset().insert(pair));
                        } else {
                            assert(post.stored() == post.objects@ + (a + b + c + d));
                            vstd::seq_lib::lemma_multiset_commutative(post.objects@, a + b + c + d);
                            vstd::seq_lib::to_multiset_build(pre.objects@, pair);
                            assert(post.stored().to_multiset() =~= pre.stored().to_multiset().insert(pair));
                        }
                    },
                }
            },
        }
    }
}

/// Pushing an element onto a sequence inserts it into the sequence's set.
proof fn lemma_push_to_set(s: Seq<u64>, x: u64)
    ensures
        s.push(x).to_set() =~= s.to_set().insert(x),
{
    assert forall|a: u64| s.push(x).contains(a) implies s.to_set().insert(x).contains(a) by {
        let j = choose|j: int| 0 <= j < s.push(x).len() && s.push(x)[j] == a;
        if j < s.len() {
            assert(s[j] == a);
        } else {
            assert(a == x);
        }
    }
    assert forall|a: u64| s.to_set().insert(x).contains(a) implies s.push(x).contains(a) by {
        if a == x {
            assert(s.push(x)[s.len() as int] == a);
        } else {
            let j = choose|j: int| 0 <= j < s.len() && s[j] == a;
            assert(s.push(x)[j] == a);
        }
    }
}

/// Pushing a fresh element keeps a sequence free of duplicates.
proof fn lemma_push_no_dup(s: Seq<u64>, x: u64)
    requires
        s.no_duplicates(),
        !s.contains(x),
    ensures
        s.push(x).no_duplicates(),
{
    assert forall|i: int, j: int|
        0 <= i < s.push(x).len() && 0 <= j < s.push(x).len() && i != j
            implies s.push(x)[i] != s.push(x)[j] by {
        if i < s.len() && j < s.len() {
            assert(s.push(x)[i] == s[i] && s.push(x)[j] == s[j]);
        } else if i < s.len() {
            assert(s.push(x)[i] == s[i] && s.push(x)[j] == x);
        } else {
            assert(s.push(x)[i] == x && s.push(x)[j] == s[j]);
        }
    }
}

/// Whether `x` occurs in `v`.
fn vec_contains_u64(v: &Vec<u64>, x: u64) -> (b: bool)
    ensures
        b == v@.contains(x),
{
    let mut i: usize = 0;
    while i < v.len()
        invariant
            i <= v.len(),
            forall|j: int| 0 <= j < i ==> v@[j] != x,
        decreases v.len() - i,
    {
        if v[i] == x {
            return true;
        }
        i += 1;
    }
    false
}

} // verus!
