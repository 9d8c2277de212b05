use vstd::prelude::*;
use vstd::multiset::Multiset;
use crate::geometry::{
    Point, Rect, lemma_common_point_intersects, lemma_quadrant_smaller, lemma_quadrants_tile,
};

verus! {

broadcast use vstd::seq_lib::group_to_multiset_ensures;

/// A stored point: the caller's id and the position it was inserted at.
pub type Entry = (u32, Point);

/// The four children of an internal node.
pub struct Quadrants {
    pub tl: QuadNode,
    pub tr: QuadNode,
    pub bl: QuadNode,
    pub br: QuadNode,
}

/// A node of a region quadtree. A leaf holds points directly; once it holds
/// `limit` of them, the next insertion splits its region into four quadrant
/// children and pushes its points down. A leaf too small to split keeps
/// accepting points past its limit.
pub struct QuadNode {
    limit: usize,
    region: Rect,
    points: Vec<Entry>,
    regions: Option<Box<Quadrants>>,
}

impl QuadNode {
    pub closed spec fn spec_region(&self) -> Rect {
        self.region
    }

    pub closed spec fn spec_limit(&self) -> usize {
        self.limit
    }

    pub closed spec fn spec_points(&self) -> Seq<Entry> {
        self.points@
    }

    pub closed spec fn is_leaf(&self) -> bool {
        self.regions is None
    }

    /// Child `k` of an internal node (top-left, top-right, bottom-left,
    /// bottom-right).
    pub closed spec fn child(&self, k: int) -> QuadNode
        recommends
            !self.is_leaf(),
    {
        let q = self.regions->0;
        if k == 0 {
            q.tl
        } else if k == 1 {
            q.tr
        } else if k == 2 {
            q.bl
        } else {
            q.br
        }
    }

    /// Well-formedness: every point lies in the region of the leaf that
    /// holds it; a leaf is within its limit unless its region is too small to
    /// split; an internal node holds no points, is splittable, and its
    /// children cover its quadrants with the same limit.
    pub closed spec fn wf(&self) -> bool
        decreases self,
    {
        &&& self.region.edges_fit()
        &&& forall|i: int| 0 <= i < self.points.len() ==> self.region.spec_contains(
            #[trigger] self.points@[i].1,
        )
        &&& match self.regions {
            None => self.points.len() <= self.limit || !self.region.spec_can_split(),
            Some(q) => {
                &&& self.points.len() == 0
                &&& self.region.spec_can_split()
                &&& q.tl.region == self.region.quadrant(0) && q.tl.limit == self.limit
                &&& q.tr.region == self.region.quadrant(1) && q.tr.limit == self.limit
                &&& q.bl.region == self.region.quadrant(2) && q.bl.limit == self.limit
                &&& q.br.region == self.region.quadrant(3) && q.br.limit == self.limit
                &&& q.tl.wf() && q.tr.wf() && q.bl.wf() && q.br.wf()
            },
        }
    }

    /// The entries stored anywhere in the subtree.
    pub closed spec fn contents(&self) -> Multiset<Entry>
        decreases self,
    {
        match self.regions {
            None => self.points@.to_multiset(),
            Some(q) => q.tl.contents().add(q.tr.contents()).add(q.bl.contents()).add(
                q.br.contents(),
            ),
        }
    }

    /// What a query visits: the children whose region intersects `area`, a
    /// leaf child giving all of its points and an internal child the result
    /// of its own query. A node's own points are never visited.
    pub closed spec fn query_spec(&self, area: Rect) -> Seq<Entry>
        decreases self, 0int,
    {
        match self.regions {
            None => seq![],
            Some(q) => q.tl.found(area) + q.tr.found(area) + q.bl.found(area) + q.br.found(area),
        }
    }

    /// What this node gives to its parent's query over `area`.
    pub closed spec fn found(&self, area: Rect) -> Seq<Entry>
        decreases self, 1int,
    {
        if !self.region.spec_intersects(area) {
            seq![]
        } else if self.regions is None {
            self.points@
        } else {
            self.query_spec(area)
        }
    }

    /// The regions of the subtree in pre-order: the node's own region, then
    /// those below each child in turn.
    pub closed spec fn outline_spec(&self) -> Seq<Rect>
        decreases self,
    {
        match self.regions {
            None => seq![self.region],
            Some(q) => seq![self.region] + q.tl.outline_spec() + q.tr.outline_spec()
                + q.bl.outline_spec() + q.br.outline_spec(),
        }
    }

    /// A new empty leaf over `region`.
    pub fn new(region: Rect, limit: usize) -> (r: QuadNode)
        requires
            region.edges_fit(),
        ensures
            r.wf(),
            r.is_leaf(),
            r.spec_region() == region,
            r.spec_limit() == limit,
            r.contents() =~= Multiset::empty(),
    {
        QuadNode { limit, region, points: Vec::new(), regions: None }
    }

    /// Four empty leaves over the quadrants of this node's region.
    fn make_regions(&self) -> (r: Quadrants)
        requires
            self.region.edges_fit(),
            self.region.spec_can_split(),
        ensures
            r.tl.wf() && r.tl.is_leaf() && r.tl.region == self.region.quadrant(0),
            r.tr.wf() && r.tr.is_leaf() && r.tr.region == self.region.quadrant(1),
            r.bl.wf() && r.bl.is_leaf() && r.bl.region == self.region.quadrant(2),
            r.br.wf() && r.br.is_leaf() && r.br.region == self.region.quadrant(3),
            r.tl.limit == self.limit && r.tr.limit == self.limit,
            r.bl.limit == self.limit && r.br.limit == self.limit,
            r.tl.contents() =~= Multiset::empty(),
            r.tr.contents() =~= Multiset::empty(),
            r.bl.contents() =~= Multiset::empty(),
            r.br.contents() =~= Multiset::empty(),
    {
        let qs = self.region.quadrants();
        proof {
            lemma_quadrant_smaller(self.region, 0);
            lemma_quadrant_smaller(self.region, 1);
            lemma_quadrant_smaller(self.region, 2);
            lemma_quadrant_smaller(self.region, 3);
        }
        Quadrants {
            tl: QuadNode::new(qs[0], self.limit),
            tr: QuadNode::new(qs[1], self.limit),
            bl: QuadNode::new(qs[2], self.limit),
            br: QuadNode::new(qs[3], self.limit),
        }
    }

    /// Turns a splittable leaf into an internal node: four empty quadrant
    /// children are made and each of the leaf's points is inserted into them.
    pub fn split(&mut self)
        requires
            old(self).wf(),
            old(self).is_leaf(),
            old(self).spec_region().spec_can_split(),
        ensures
            final(self).wf(),
            !final(self).is_leaf(),
            final(self).spec_region() == old(self).spec_region(),
            final(self).spec_limit() == old(self).spec_limit(),
            final(self).contents() == old(self).contents(),
        decreases old(self).spec_region().w + old(self).spec_region().h, 0int,
    {
        let mut q = self.make_regions();
        let n = self.points.len();
        let mut i: usize = 0;
        proof {
            lemma_quadrant_smaller(self.region, 0);
            lemma_quadrant_smaller(self.region, 1);
            lemma_quadrant_smaller(self.region, 2);
            lemma_quadrant_smaller(self.region, 3);
            assert(self.points@.subrange(0, 0) =~= Seq::<Entry>::empty());
        }
        while i < n
            invariant
                *self == *old(self),
                self.wf(),
                self.is_leaf(),
                self.region.spec_can_split(),
                0 <= i <= n,
                n == self.points.len(),
                q.tl.wf() && q.tl.region == self.region.quadrant(0) && q.tl.limit == self.limit,
                q.tr.wf() && q.tr.region == self.region.quadrant(1) && q.tr.limit == self.limit,
                q.bl.wf() && q.bl.region == self.region.quadrant(2) && q.bl.limit == self.limit,
                q.br.wf() && q.br.region == self.region.quadrant(3) && q.br.limit == self.limit,
                q.tl.contents().add(q.tr.contents()).add(q.bl.contents()).add(q.br.contents())
                    == self.points@.subrange(0, i as int).to_multiset(),
            decreases n - i,
        {
            let (id, position) = self.points[i];
            proof {
                lemma_quadrants_tile(self.region, position);
                lemma_quadrant_smaller(self.region, 0);
                lemma_quadrant_smaller(self.region, 1);
                lemma_quadrant_smaller(self.region, 2);
                lemma_quadrant_smaller(self.region, 3);
            }
            let ghost before = q.tl.contents().add(q.tr.contents()).add(q.bl.contents()).add(
                q.br.contents(),
            );
            q.tl.add(id, &position);
            q.tr.add(id, &position);
            q.bl.add(id, &position);
            q.br.add(id, &position);
            proof {
                let e = (id, position);
                assert(self.points@.subrange(0, i + 1) =~= self.points@.subrange(0, i as int).push(
                    e,
                ));
                assert(q.tl.contents().add(q.tr.contents()).add(q.bl.contents()).add(
                    q.br.contents(),
                ) =~= before.insert(e));
            }
            i = i + 1;
        }
        proof {
            assert(self.points@.subrange(0, n as int) =~= self.points@);
        }
        self.points.clear();
        self.regions = Some(Box::new(q));
    }

    /// Inserts `(id, position)`. A position outside this node's region
    /// changes nothing; otherwise the entry is stored in the leaf whose region
    /// holds it, splitting a full leaf first where its region allows.
    pub fn add(&mut self, id: u32, position: &Point)
        requires
            old(self).wf(),
        ensures
            final(self).wf(),
            final(self).spec_region() == old(self).spec_region(),
            final(self).spec_limit() == old(self).spec_limit(),
            old(self).spec_region().spec_contains(*position) ==> final(self).contents()
                == old(self).contents().insert((id, *position)),
            !old(self).spec_region().spec_contains(*position) ==> *final(self) == *old(self),
            !old(self).is_leaf() ==> !final(self).is_leaf(),
            // a leaf with room, or too small to split, keeps the entry itself
            old(self).is_leaf() && old(self).spec_region().spec_contains(*position) && (
            old(self).spec_points().len() < old(self).spec_limit()
                || !old(self).spec_region().spec_can_split()) ==> final(self).is_leaf()
                && final(self).spec_points() == old(self).spec_points().push((id, *position)),
            // a full leaf that can split does so
            old(self).is_leaf() && old(self).spec_region().spec_contains(*position)
                && old(self).spec_points().len() >= old(self).spec_limit()
                && old(self).spec_region().spec_can_split() ==> !final(self).is_leaf(),
            // below an internal node, the child whose region holds the position
            // takes the entry and the others are untouched
            !old(self).is_leaf() ==> forall|k: int|
                0 <= k < 4 ==> if old(self).child(k).spec_region().spec_contains(*position) {
                    (#[trigger] final(self).child(k)).contents() == old(self).child(k).contents().insert(
                        (id, *position))
                } else {
                    final(self).child(k) == old(self).child(k)
                },
        decreases old(self).spec_region().w + old(self).spec_region().h, 1int,
    {
        if !self.region.contains(*position) {
            return;
        }
        if self.regions.is_none() {
            if self.points.len() < self.limit || !self.region.can_split() {
                self.points.push((id, *position));
                return;
            }
            self.split();
        }
        proof {
            lemma_quadrants_tile(self.region, *position);
            lemma_quadrant_smaller(self.region, 0);
            lemma_quadrant_smaller(self.region, 1);
            lemma_quadrant_smaller(self.region, 2);
            lemma_quadrant_smaller(self.region, 3);
        }
        let ghost mid = *self;
        match &mut self.regions {
            Some(q) => {
                q.tl.add(id, position);
                q.tr.add(id, position);
                q.bl.add(id, position);
                q.br.add(id, position);
            },
            None => {},
        }
        proof {
            assert(self.contents() =~= mid.contents().insert((id, *position)));
        }
    }

    /// The candidates for `query_area`: for each child whose region
    /// intersects it, all points of a leaf child and the query result of an
    /// internal one. Candidates may lie outside `query_area`; the node's own
    /// points are never looked at.
    pub fn query(&self, query_area: &Rect) -> (r: Vec<Entry>)
        requires
            self.wf(),
        ensures
            r@ == self.query_spec(*query_area),
        decreases self.spec_region().w + self.spec_region().h, 1int,
    {
        let mut ids: Vec<Entry> = Vec::new();
        match &self.regions {
            Some(q) => {
                proof {
                    lemma_quadrant_smaller(self.region, 0);
                    lemma_quadrant_smaller(self.region, 1);
                    lemma_quadrant_smaller(self.region, 2);
                    lemma_quadrant_smaller(self.region, 3);
                }
                Self::gather(&q.tl, query_area, &mut ids);
                Self::gather(&q.tr, query_area, &mut ids);
                Self::gather(&q.bl, query_area, &mut ids);
                Self::gather(&q.br, query_area, &mut ids);
                assert(ids@ =~= q.tl.found(*query_area) + q.tr.found(*query_area) + q.bl.found(
                    *query_area,
                ) + q.br.found(*query_area));
            },
            None => {},
        }
        ids
    }

    /// Appends to `ids` what `node` gives to its parent's query.
    fn gather(node: &QuadNode, query_area: &Rect, ids: &mut Vec<Entry>)
        requires
            node.wf(),
        ensures
            final(ids)@ == old(ids)@ + node.found(*query_area),
        decreases node.region.w + node.region.h, 2int,
    {
        if node.in_region(query_area) {
            if node.regions.is_some() {
                let mut sub = node.query(query_area);
                ids.append(&mut sub);
            } else {
                let ghost start = ids@;
                let mut i: usize = 0;
                while i < node.points.len()
                    invariant
                        0 <= i <= node.points.len(),
                        ids@ == start + node.points@.subrange(0, i as int),
                    decreases node.points.len() - i,
                {
                    ids.push(node.points[i]);
                    assert(node.points@.subrange(0, i + 1) =~= node.points@.subrange(
                        0,
                        i as int,
                    ).push(node.points@[i as int]));
                    i = i + 1;
                }
                assert(node.points@.subrange(0, i as int) =~= node.points@);
            }
        }
    }

    /// Whether this node's region intersects `query_area`.
    pub fn in_region(&self, query_area: &Rect) -> (r: bool)
        ensures
            r == self.spec_region().spec_intersects(*query_area),
    {
        self.region.intersects(query_area)
    }

    /// The regions of all nodes of the subtree, parents before children, for
    /// drawing the decomposition.
    pub fn outlines(&self) -> (r: Vec<Rect>)
        requires
            self.wf(),
        ensures
            r@ == self.outline_spec(),
    {
        let mut out: Vec<Rect> = Vec::new();
        self.collect_outlines(&mut out);
        assert(out@ =~= self.outline_spec());
        out
    }

    fn collect_outlines(&self, out: &mut Vec<Rect>)
        requires
            self.wf(),
        ensures
            final(out)@ == old(out)@ + self.outline_spec(),
        decreases self.region.w + self.region.h,
    {
        out.push(self.region);
        match &self.regions {
            Some(q) => {
                proof {
                    lemma_quadrant_smaller(self.region, 0);
                    lemma_quadrant_smaller(self.region, 1);
                    lemma_quadrant_smaller(self.region, 2);
                    lemma_quadrant_smaller(self.region, 3);
                }
                q.tl.collect_outlines(out);
                q.tr.collect_outlines(out);
                q.bl.collect_outlines(out);
                q.br.collect_outlines(out);
                assert(out@ =~= old(out)@ + self.outline_spec());
            },
            None => {},
        }
    }

    pub fn region(&self) -> (r: Rect)
        ensures
            r == self.spec_region(),
    {
        self.region
    }

    pub fn limit(&self) -> (r: usize)
        ensures
            r == self.spec_limit(),
    {
        self.limit
    }

    /// Whether this node has no children.
    pub fn leaf(&self) -> (r: bool)
        ensures
            r == self.is_leaf(),
    {
        self.regions.is_none()
    }

    /// The points held directly by this node (none once it has children).
    pub fn points(&self) -> (r: &Vec<Entry>)
        ensures
            r@ == self.spec_points(),
    {
        &self.points
    }

    /// Child `k` (top-left, top-right, bottom-left, bottom-right), if this
    /// node has children and `k < 4`.
    pub fn quadrant(&self, k: usize) -> (r: Option<&QuadNode>)
        ensures
            r is Some <==> (!self.is_leaf() && k < 4),
            r is Some ==> *r->0 == self.child(k as int),
    {
        match &self.regions {
            Some(q) => {
                if k == 0 {
                    Some(&q.tl)
                } else if k == 1 {
                    Some(&q.tr)
                } else if k == 2 {
                    Some(&q.bl)
                } else if k == 3 {
                    Some(&q.br)
                } else {
                    None
                }
            },
            None => None,
        }
    }
}


/// Every stored entry lies in the region of the subtree that stores it.
pub proof fn lemma_contents_in_region(n: &QuadNode, e: Entry)
    requires
        n.wf(),
        n.contents().count(e) > 0,
    ensures
        n.spec_region().spec_contains(e.1),
    decreases n,
{
    match n.regions {
        None => {
            let i = n.points@.index_of(e);
            assert(n.region.spec_contains(n.points@[i].1));
        },
        Some(q) => {
            lemma_quadrants_tile(n.region, e.1);
            if q.tl.contents().count(e) > 0 {
                lemma_contents_in_region(&q.tl, e);
            } else if q.tr.contents().count(e) > 0 {
                lemma_contents_in_region(&q.tr, e);
            } else if q.bl.contents().count(e) > 0 {
                lemma_contents_in_region(&q.bl, e);
            } else {
                lemma_contents_in_region(&q.br, e);
            }
        },
    }
}

/// No false negatives: an entry stored below an internal node whose
/// position lies in the query area is among the query's candidates.
pub proof fn lemma_query_finds(n: &QuadNode, area: Rect, e: Entry)
    requires
        n.wf(),
        !n.is_leaf(),
        n.contents().count(e) > 0,
        area.spec_contains(e.1),
    ensures
        n.query_spec(area).contains(e),
    decreases n,
{
    let q = n.regions->0;
    let k = if q.tl.contents().count(e) > 0 {
        0int
    } else if q.tr.contents().count(e) > 0 {
        1int
    } else if q.bl.contents().count(e) > 0 {
        2int
    } else {
        3int
    };
    let c = n.child(k);
    lemma_contents_in_region(&c, e);
    lemma_common_point_intersects(c.region, area, e.1);
    if !c.is_leaf() {
        lemma_query_finds(&c, area, e);
    }
    assert(c.found(area).contains(e));
    let parts = seq![q.tl.found(area), q.tr.found(area), q.bl.found(area), q.br.found(area)];
    let j = c.found(area).index_of(e);
    let before = if k == 0 {
        0
    } else if k == 1 {
        q.tl.found(area).len()
    } else if k == 2 {
        q.tl.found(area).len() + q.tr.found(area).len()
    } else {
        q.tl.found(area).len() + q.tr.found(area).len() + q.bl.found(area).len()
    };
    assert(n.query_spec(area)[before + j] == e);
}

/// An entry inserted below a node with children is among the candidates of
/// a query over the node's whole region.
pub proof fn lemma_inserted_found(n: &QuadNode, e: Entry)
    requires
        n.wf(),
        !n.is_leaf(),
        n.contents().count(e) > 0,
    ensures
        n.query_spec(n.spec_region()).contains(e),
{
    lemma_contents_in_region(n, e);
    lemma_query_finds(n, n.spec_region(), e);
}

/// The children of an internal node tile its region: a point of the plane
/// lies in the node's region exactly when it lies in one of the children's
/// regions, it lies in no two of them, and their areas add up to the
/// node's area.
pub proof fn lemma_children_tile(n: &QuadNode, p: Point)
    requires
        n.wf(),
        !n.is_leaf(),
    ensures
        n.spec_region().spec_contains(p) <==> (n.child(0).spec_region().spec_contains(p)
            || n.child(1).spec_region().spec_contains(p) || n.child(2).spec_region().spec_contains(p)
            || n.child(3).spec_region().spec_contains(p)),
        forall|i: int, j: int|
            0 <= i < 4 && 0 <= j < 4 && i != j ==> !(#[trigger] n.child(i).spec_region().spec_contains(p)
                && #[trigger] n.child(j).spec_region().spec_contains(p)),
        n.child(0).spec_region().area() + n.child(1).spec_region().area() + n.child(2).spec_region().area()
            + n.child(3).spec_region().area() == n.spec_region().area(),
{
    lemma_quadrants_tile(n.region, p);
    assert forall|k: int| 0 <= k < 4 implies #[trigger] n.child(k).spec_region() == n.region.quadrant(k) by {}
}

/// A tree that stores nothing has no candidates for any query area.
pub proof fn lemma_empty_query(n: &QuadNode, area: Rect)
    requires
        n.wf(),
        n.contents() =~= Multiset::empty(),
    ensures
        n.query_spec(area) == Seq::<Entry>::empty(),
    decreases n, 0int,
{
    match n.regions {
        None => {},
        Some(q) => {
            assert(q.tl.contents() =~= Multiset::empty());
            assert(q.tr.contents() =~= Multiset::empty());
            assert(q.bl.contents() =~= Multiset::empty());
            assert(q.br.contents() =~= Multiset::empty());
            lemma_empty_found(&q.tl, area);
            lemma_empty_found(&q.tr, area);
            lemma_empty_found(&q.bl, area);
            lemma_empty_found(&q.br, area);
            assert(n.query_spec(area) =~= Seq::<Entry>::empty());
        },
    }
}

/// No invented candidates: every candidate of a query is an entry stored in
/// the tree.
pub proof fn lemma_query_stored(n: &QuadNode, area: Rect, e: Entry)
    requires
        n.wf(),
        n.query_spec(area).contains(e),
    ensures
        n.contents().count(e) > 0,
    decreases n, 0int,
{
    let q = n.regions->0;
    let (a, b, c, d) = (q.tl.found(area), q.tr.found(area), q.bl.found(area), q.br.found(area));
    assert(n.query_spec(area) == a + b + c + d);
    let i = n.query_spec(area).index_of(e);
    if i < a.len() {
        assert(a[i] == e);
        lemma_found_stored(&q.tl, area, e);
    } else if i < a.len() + b.len() {
        assert(b[i - a.len()] == e);
        lemma_found_stored(&q.tr, area, e);
    } else if i < a.len() + b.len() + c.len() {
        assert(c[i - a.len() - b.len()] == e);
        lemma_found_stored(&q.bl, area, e);
    } else {
        assert(d[i - a.len() - b.len() - c.len()] == e);
        lemma_found_stored(&q.br, area, e);
    }
}

proof fn lemma_found_stored(c: &QuadNode, area: Rect, e: Entry)
    requires
        c.wf(),
        c.found(area).contains(e),
    ensures
        c.contents().count(e) > 0,
    decreases c, 1int,
{
    if c.regions is Some {
        lemma_query_stored(c, area, e);
    }
}

proof fn lemma_empty_found(c: &QuadNode, area: Rect)
    requires
        c.wf(),
        c.contents() =~= Multiset::empty(),
    ensures
        c.found(area) == Seq::<Entry>::empty(),
    decreases c, 1int,
{
    if c.regions is None {
        assert(c.points@.to_multiset().len() == 0);
        assert(c.points@ =~= Seq::<Entry>::empty());
    } else {
        lemma_empty_query(c, area);
    }
}

} // verus!
