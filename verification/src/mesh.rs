//! Incremental Delaunay triangulation: vertices and triangles in arenas, a
//! spatial index of the triangles filed under their circumcentres, and point
//! insertion by retriangulating the cavity of the triangles whose
//! circumcircle holds the new point.

use crate::arena::{Arena, ArenaId};
use crate::bvh::{
    keeps, lemma_insert_pairs, lemma_insert_wf, lemma_selects_filter, lemma_visited_within_pairs,
    Bvh, NodeView,
};
use crate::geo::{circumcircle_of, orient, spec_orient, Bbox, Circle, Vec2, COORD_LIMIT};
use vstd::prelude::*;

verus! {

broadcast use {Bbox::lemma_with_corners, ArenaId::lemma_at, ArenaId::lemma_index_of_at};

/// Margin by which the mesh pads the box it is given on every side.
pub const PADDING: i64 = 20;

/// A point of the triangulation.
#[derive(Debug, Clone, Copy)]
pub struct Vertex {
    position: Vec2,
}

/// Three vertices in counter-clockwise order, with the circle through them.
#[derive(Debug, Clone, Copy)]
pub struct Triangle {
    vertices: [ArenaId<Vertex>; 3],
    circumcircle: Circle,
    live: bool,
}

/// Region of interest of one insertion: the triangles it created and the
/// triangles it removed.
#[derive(Debug)]
pub struct Roi {
    triangles: Vec<ArenaId<Triangle>>,
    removed: Vec<ArenaId<Triangle>>,
}

/// Why a point was not inserted.
#[derive(Debug, Clone, Copy, PartialEq, Eq, Structural)]
pub enum InsertError {
    /// The point lies outside the padded box of the mesh.
    OutOfBounds,
    /// The triangles found around the point do not leave a closed ring of
    /// edges: the cavity is empty, or some vertex of its border does not have
    /// exactly one border edge that arrives and one that leaves.
    MalformedCavity,
    /// Some edge of the cavity's border does not turn counter-clockwise
    /// around the point, so the triangle over it would have no area or face
    /// the wrong way.
    Degenerate,
}

/// Incremental Delaunay triangulation of the points of a box.
#[derive(Debug)]
pub struct DelaunayMesh {
    triangles: Arena<Triangle>,
    vertices: Arena<Vertex>,
    triangles_index: Bvh<ArenaId<Triangle>>,
    bounds: Bbox,
}

impl Vertex {
    /// Where the vertex lies.
    pub closed spec fn at(self) -> Vec2 {
        self.position
    }

    /// The vertex at `position`.
    pub fn new(position: Vec2) -> (v: Self)
        ensures
            v.at() == position,
    {
        Vertex { position }
    }

    /// Where the vertex lies.
    pub fn position(&self) -> (p: Vec2)
        ensures
            p == self.at(),
    {
        self.position
    }
}

impl Triangle {
    /// Position in the vertex store of corner `i`.
    pub closed spec fn corner(self, i: int) -> usize {
        self.vertices@[i].index()
    }

    /// The circle through the three corners.
    pub closed spec fn circle(self) -> Circle {
        self.circumcircle
    }

    /// Whether the triangle is part of the triangulation; a removed
    /// triangle keeps its slot and is not.
    pub closed spec fn is_live(self) -> bool {
        self.live
    }

    /// The triangle, removed.
    pub closed spec fn retired(self) -> Triangle {
        Triangle { vertices: self.vertices, circumcircle: self.circumcircle, live: false }
    }

    /// Side `i` as it is walked: from corner `i` to the next corner.
    pub open spec fn edge(self, i: int) -> (usize, usize) {
        (self.corner(i), self.corner((i + 1) % 3))
    }

    /// Whether `e` is one of the three sides as they are walked.
    pub open spec fn has_edge(self, e: (usize, usize)) -> bool {
        self.edge(0) == e || self.edge(1) == e || self.edge(2) == e
    }

    /// The live triangle with the corners `a`, `b`, `c` and the circle
    /// `circle`.
    pub closed spec fn make(a: usize, b: usize, c: usize, circle: Circle) -> Triangle {
        Triangle {
            vertices: [ArenaId::at(a), ArenaId::at(b), ArenaId::at(c)],
            circumcircle: circle,
            live: true,
        }
    }

    /// What `make` makes.
    pub proof fn lemma_make(a: usize, b: usize, c: usize, circle: Circle)
        ensures
            Self::make(a, b, c, circle).corner(0) == a,
            Self::make(a, b, c, circle).corner(1) == b,
            Self::make(a, b, c, circle).corner(2) == c,
            Self::make(a, b, c, circle).circle() == circle,
            Self::make(a, b, c, circle).is_live(),
    {
    }

    /// A triangle is determined by its corners, its circle and whether it
    /// is live.
    pub proof fn lemma_determined(self, other: Triangle)
        requires
            self.corner(0) == other.corner(0),
            self.corner(1) == other.corner(1),
            self.corner(2) == other.corner(2),
            self.circle() == other.circle(),
            self.is_live() == other.is_live(),
        ensures
            self == other,
    {
        assert(self.vertices@ =~= other.vertices@) by {
            assert forall|i: int| 0 <= i < 3 implies self.vertices@[i] == other.vertices@[i] by {
                assert(self.corner(i) == other.corner(i));
                self.vertices@[i].lemma_at();
                other.vertices@[i].lemma_at();
            }
        }
        assert(self.vertices == other.vertices);
    }

    /// A removed triangle has the corners and the circle it had.
    pub proof fn lemma_retired(self)
        ensures
            !self.retired().is_live(),
            self.retired().circle() == self.circle(),
            forall|i: int| self.retired().corner(i) == self.corner(i),
    {
    }

    /// The identities of the three corners.
    pub fn vertices(&self) -> (ids: [ArenaId<Vertex>; 3])
        ensures
            forall|i: int| 0 <= i < 3 ==> (#[trigger] ids@[i]).index() == self.corner(i),
    {
        self.vertices
    }

    /// The circle through the three corners.
    pub fn circumcircle(&self) -> (c: Circle)
        ensures
            c == self.circle(),
    {
        self.circumcircle
    }

    /// Whether the triangle is part of the triangulation.
    pub fn live(&self) -> (b: bool)
        ensures
            b == self.is_live(),
    {
        self.live
    }
}

impl Roi {
    /// The triangles that the insertion created.
    pub closed spec fn created(&self) -> Seq<ArenaId<Triangle>> {
        self.triangles@
    }

    /// The triangles that the insertion removed.
    pub closed spec fn dropped(&self) -> Seq<ArenaId<Triangle>> {
        self.removed@
    }

    /// The triangles that the insertion created.
    pub fn triangles(&self) -> (ids: &Vec<ArenaId<Triangle>>)
        ensures
            ids@ == self.created(),
    {
        &self.triangles
    }

    /// The triangles that the insertion removed.
    pub fn removed(&self) -> (ids: &Vec<ArenaId<Triangle>>)
        ensures
            ids@ == self.dropped(),
    {
        &self.removed
    }
}

/// The point of `bounds` under which a triangle with the circumcircle
/// `circle` is filed: the lattice point of its centre, moved into `bounds`.
pub open spec fn index_key(bounds: Bbox, circle: Circle) -> Vec2 {
    bounds.spec_clamp(circle.spec_center())
}

/// What a mesh holds, as a mathematical value.
pub struct MeshView {
    /// Positions of the vertices, in the order of their creation.
    pub positions: Seq<Vec2>,
    /// The triangle slots, in the order of their creation, removed
    /// triangles included.
    pub slots: Seq<Triangle>,
    /// What the spatial index holds.
    pub index: NodeView<ArenaId<Triangle>>,
    /// The padded box: every vertex lies in it.
    pub bounds: Bbox,
}

impl MeshView {
    /// Whether `t` is the position of a triangle of the triangulation.
    pub open spec fn live_at(self, t: int) -> bool {
        0 <= t < self.slots.len() && self.slots[t].is_live()
    }

    /// The position of corner `i` of the triangle in slot `t`.
    pub open spec fn corner_at(self, t: int, i: int) -> Vec2 {
        self.positions[self.slots[t].corner(i) as int]
    }

    /// The triangle in slot `t` names three vertices of the mesh that turn
    /// counter-clockwise, and holds the circle through them.
    pub open spec fn slot_ok(self, t: int) -> bool {
        let tri = self.slots[t];
        &&& tri.corner(0) < self.positions.len()
        &&& tri.corner(1) < self.positions.len()
        &&& tri.corner(2) < self.positions.len()
        &&& spec_orient(self.corner_at(t, 0), self.corner_at(t, 1), self.corner_at(t, 2)) > 0
        &&& tri.circle() == circumcircle_of(
            self.corner_at(t, 0),
            self.corner_at(t, 1),
            self.corner_at(t, 2),
        )
        &&& tri.circle().wf()
    }

    /// No live triangle walks the edge `e`.
    pub open spec fn edge_free(self, e: (usize, usize)) -> bool {
        forall|t: int| self.live_at(t) ==> !(#[trigger] self.slots[t]).has_edge(e)
    }

    /// The three corners of every triangle are different vertices.
    pub open spec fn corners_distinct(self) -> bool {
        forall|t: int|
            0 <= t < self.slots.len() ==> {
                let tri = #[trigger] self.slots[t];
                tri.corner(0) != tri.corner(1) && tri.corner(1) != tri.corner(2) && tri.corner(2)
                    != tri.corner(0)
            }
    }

    /// No two live triangles walk the same edge in the same direction: two
    /// triangles that share an edge walk it in opposite directions.
    pub open spec fn edges_consistent(self) -> bool {
        forall|t: int, u: int, i: int, j: int|
            self.live_at(t) && self.live_at(u) && t != u && 0 <= i < 3 && 0 <= j < 3 ==> (
            #[trigger] self.slots[t].edge(i)) != (#[trigger] self.slots[u].edge(j))
    }

    /// The invariant of the mesh.
    pub open spec fn wf(self) -> bool {
        &&& self.bounds.wf()
        &&& self.bounds.in_range()
        &&& forall|v: int|
            0 <= v < self.positions.len() ==> (#[trigger] self.positions[v]).in_range()
                && self.bounds.spec_contains(self.positions[v])
        &&& forall|t: int| 0 <= t < self.slots.len() ==> #[trigger] self.slot_ok(t)
        &&& self.corners_distinct()
        &&& self.edges_consistent()
        &&& self.index.wf()
        &&& self.index.bbox() == self.bounds
        &&& forall|pair: (ArenaId<Triangle>, Vec2)| #[trigger]
            self.index.pairs().contains(pair) ==> pair.0.index() < self.slots.len()
        &&& forall|t: int| self.live_at(t) ==> #[trigger] self.filed_at(t)
    }

    /// Whether the index holds the triangle in slot `t`.
    pub open spec fn filed_at(self, t: int) -> bool {
        exists|pair: (ArenaId<Triangle>, Vec2)| #[trigger]
            self.index.pairs().contains(pair) && pair.0.index() == t
    }

    /// Whether `id` names a live triangle whose circumcircle holds `p`.
    pub open spec fn holds(self, id: ArenaId<Triangle>, p: Vec2) -> bool {
        self.live_at(id.index() as int) && self.slots[id.index() as int].circle().spec_contains(
            p,
        )
    }

    /// The triangles whose circumcircle holds `p`.
    pub open spec fn holding(self, p: Vec2) -> spec_fn(ArenaId<Triangle>) -> bool {
        |id: ArenaId<Triangle>| self.holds(id, p)
    }

    /// The cavity of `p`: the live triangles that a query of the index for
    /// `p` meets and whose circumcircle holds `p`, in the order of the query.
    pub open spec fn cavity(self, p: Vec2) -> Seq<ArenaId<Triangle>> {
        let found = self.index.visited(p).filter(keeps(self.holding(p)));
        Seq::new(found.len(), |i: int| found[i].0)
    }

    /// The border of the cavity of `p`: the sides of its triangles that no
    /// triangle of the cavity walks the other way.
    pub open spec fn cavity_border(self, p: Vec2) -> Seq<(usize, usize)> {
        border_of(sides_of(self.slots, self.cavity(p)))
    }

    /// Whether every edge of `border` turns counter-clockwise around `p`.
    pub open spec fn faces(self, border: Seq<(usize, usize)>, p: Vec2) -> bool {
        forall|k: int|
            0 <= k < border.len() ==> spec_orient(
                self.positions[(#[trigger] border[k]).0 as int],
                self.positions[border[k].1 as int],
                p,
            ) > 0
    }
}

impl MeshView {
    /// Whether a live triangle walks the edge `e`.
    pub open spec fn walked(self, e: (usize, usize)) -> bool {
        exists|t: int| self.live_at(t) && (#[trigger] self.slots[t]).has_edge(e)
    }

    /// Whether the triangulation has no gap: every side of a live triangle
    /// is a side of the padded box or is walked the other way by a live
    /// triangle.
    pub open spec fn closed(self) -> bool {
        forall|t: int, i: int|
            self.live_at(t) && 0 <= i < 3 ==> is_hull(#[trigger] self.slots[t].edge(i))
                || self.walked(reversed(self.slots[t].edge(i)))
    }

    /// The mesh over `bbox`: the four corners of the padded box, lower
    /// left, lower right, upper right and upper left, and the two triangles
    /// that its diagonal from the lower left to the upper right cuts it
    /// into, each filed in the index.
    pub open spec fn fresh(bbox: Bbox) -> MeshView {
        let bounds = DelaunayMesh::padded(bbox);
        let p0 = bounds.lo();
        let p1 = Vec2 { x: bounds.hi().x, y: bounds.lo().y };
        let p2 = bounds.hi();
        let p3 = Vec2 { x: bounds.lo().x, y: bounds.hi().y };
        let slots = seq![
            Triangle::make(0, 1, 2, circumcircle_of(p0, p1, p2)),
            Triangle::make(2, 3, 0, circumcircle_of(p2, p3, p0)),
        ];
        MeshView {
            positions: seq![p0, p1, p2, p3],
            slots,
            index: filed(
                NodeView::Leaf { elems: Seq::<(ArenaId<Triangle>, Vec2)>::empty(), bbox: bounds },
                bounds,
                slots,
                0,
                2,
            ),
            bounds,
        }
    }

    /// Why the point `p` cannot be inserted, or `None` where it can.
    pub open spec fn refusal(self, p: Vec2) -> Option<InsertError> {
        if !self.bounds.spec_contains(p) {
            Some(InsertError::OutOfBounds)
        } else if !is_ring(self.cavity_border(p)) {
            Some(InsertError::MalformedCavity)
        } else if !self.faces(self.cavity_border(p), p) {
            Some(InsertError::Degenerate)
        } else {
            None
        }
    }

    /// The identities of live triangles.
    pub open spec fn is_live_id(self) -> spec_fn(ArenaId<Triangle>) -> bool {
        |id: ArenaId<Triangle>| self.live_at(id.index() as int)
    }

    /// The identities of the triangles of the triangulation, in the order
    /// of their creation.
    pub open spec fn live_ids(self) -> Seq<ArenaId<Triangle>> {
        Seq::new(self.slots.len(), |t: int| ArenaId::<Triangle>::at(t as usize)).filter(
            self.is_live_id(),
        )
    }

    /// The positions of the three corners of the triangle in slot `t`.
    pub open spec fn corners(self, t: int) -> Seq<Vec2> {
        seq![self.corner_at(t, 0), self.corner_at(t, 1), self.corner_at(t, 2)]
    }

    /// Whether the point `p` can be inserted: it lies in the padded box,
    /// the border of its cavity closes into rings, and every edge of the
    /// border turns counter-clockwise around it.
    pub open spec fn admits(self, p: Vec2) -> bool {
        &&& self.bounds.spec_contains(p)
        &&& is_ring(self.cavity_border(p))
        &&& self.faces(self.cavity_border(p), p)
    }

    /// The triangles that the insertion of `p` creates: over every edge of
    /// the border of the cavity, in its order, the triangle with the new
    /// vertex.
    pub open spec fn fan_of(self, p: Vec2) -> Seq<Triangle> {
        let border = self.cavity_border(p);
        Seq::new(
            border.len(),
            |k: int|
                Triangle::make(
                    border[k].0,
                    border[k].1,
                    self.positions.len() as usize,
                    circumcircle_of(
                        self.positions[border[k].0 as int],
                        self.positions[border[k].1 as int],
                        p,
                    ),
                ),
        )
    }

    /// The identities of the triangles that the insertion of `p` creates.
    pub open spec fn created_by(self, p: Vec2) -> Seq<ArenaId<Triangle>> {
        Seq::new(
            self.cavity_border(p).len(),
            |k: int| ArenaId::<Triangle>::at((self.slots.len() + k) as usize),
        )
    }

    /// The mesh after the point `p`, which it admits, was inserted: the
    /// triangles of the cavity are removed, `p` is the last vertex, the
    /// triangles of the fan follow the slots there were, and each of them is
    /// filed in the index.
    pub open spec fn after_insert(self, p: Vec2) -> MeshView {
        let slots = retire_all(self.slots, self.cavity(p)) + self.fan_of(p);
        MeshView {
            positions: self.positions.push(p),
            slots,
            index: filed(
                self.index,
                self.bounds,
                slots,
                self.slots.len() as int,
                self.cavity_border(p).len(),
            ),
            bounds: self.bounds,
        }
    }
}

impl DelaunayMesh {
    /// What the mesh holds.
    pub closed spec fn view(&self) -> MeshView {
        MeshView {
            positions: Seq::new(self.vertices@.len(), |i: int| self.vertices@[i].at()),
            slots: self.triangles@,
            index: self.triangles_index@,
            bounds: self.bounds,
        }
    }

    /// Positions of the vertices, in the order of their creation.
    pub open spec fn positions(&self) -> Seq<Vec2> {
        self@.positions
    }

    /// The triangle slots, in the order of their creation, removed
    /// triangles included.
    pub open spec fn slots(&self) -> Seq<Triangle> {
        self@.slots
    }

    /// What the spatial index holds.
    pub open spec fn index(&self) -> NodeView<ArenaId<Triangle>> {
        self@.index
    }

    /// The padded box: every vertex lies in it.
    pub open spec fn bounds(&self) -> Bbox {
        self@.bounds
    }

    /// Whether `t` is the position of a triangle of the triangulation.
    pub open spec fn live_at(&self, t: int) -> bool {
        self@.live_at(t)
    }

    /// The position of corner `i` of the triangle in slot `t`.
    pub open spec fn corner_at(&self, t: int, i: int) -> Vec2 {
        self@.corner_at(t, i)
    }

    /// The triangle in slot `t` names three vertices of the mesh that turn
    /// counter-clockwise, and holds the circle through them.
    pub open spec fn slot_ok(&self, t: int) -> bool {
        self@.slot_ok(t)
    }

    /// No live triangle walks the edge `e`.
    pub open spec fn edge_free(&self, e: (usize, usize)) -> bool {
        self@.edge_free(e)
    }

    /// The three corners of every triangle are different vertices.
    pub open spec fn corners_distinct(&self) -> bool {
        self@.corners_distinct()
    }

    /// No two live triangles walk the same edge in the same direction: two
    /// triangles that share an edge walk it in opposite directions.
    pub open spec fn edges_consistent(&self) -> bool {
        self@.edges_consistent()
    }

    /// The invariant of the mesh.
    pub open spec fn wf(&self) -> bool {
        self@.wf()
    }

    /// Three points that turn counter-clockwise are three different points.
    pub proof fn lemma_turn_distinct(a: Vec2, b: Vec2, c: Vec2)
        requires
            spec_orient(a, b, c) > 0,
        ensures
            a != b,
            b != c,
            c != a,
    {
        let bx = b.x - a.x;
        let by = b.y - a.y;
        let cx = c.x - a.x;
        let cy = c.y - a.y;
        assert(bx == 0 && by == 0 ==> bx * cy - by * cx == 0) by (nonlinear_arith);
        assert(cx == 0 && cy == 0 ==> bx * cy - by * cx == 0) by (nonlinear_arith);
        assert(bx == cx && by == cy ==> bx * cy - by * cx == 0) by (nonlinear_arith);
    }

    /// Adds the triangle of the vertices `va`, `vb`, `vc`, which turn
    /// counter-clockwise and none of whose sides a live triangle walks, and
    /// files it in the index under the key of its circumcircle.
    pub fn insert_triangle(
        &mut self,
        va: ArenaId<Vertex>,
        vb: ArenaId<Vertex>,
        vc: ArenaId<Vertex>,
    ) -> (id: ArenaId<Triangle>)
        requires
            old(self).wf(),
            va.index() < old(self).positions().len(),
            vb.index() < old(self).positions().len(),
            vc.index() < old(self).positions().len(),
            spec_orient(
                old(self).positions()[va.index() as int],
                old(self).positions()[vb.index() as int],
                old(self).positions()[vc.index() as int],
            ) > 0,
            old(self).edge_free((va.index(), vb.index())),
            old(self).edge_free((vb.index(), vc.index())),
            old(self).edge_free((vc.index(), va.index())),
        ensures
            final(self).wf(),
            final(self).positions() == old(self).positions(),
            final(self).bounds() == old(self).bounds(),
            id.index() == old(self).slots().len(),
            final(self).slots().len() == old(self).slots().len() + 1,
            forall|t: int|
                0 <= t < old(self).slots().len() ==> final(self).slots()[t] == old(self).slots()[t],
            final(self).slots()[id.index() as int].corner(0) == va.index(),
            final(self).slots()[id.index() as int].corner(1) == vb.index(),
            final(self).slots()[id.index() as int].corner(2) == vc.index(),
            final(self).slots()[id.index() as int].is_live(),
            final(self).index() == old(self).index().spec_insert(
                id,
                index_key(old(self).bounds(), final(self).slots()[id.index() as int].circle()),
            ),
    {
        let a = self.vertices[va].position;
        let b = self.vertices[vb].position;
        let c = self.vertices[vc].position;
        assert(a == self.positions()[va.index() as int]);
        assert(b == self.positions()[vb.index() as int]);
        assert(c == self.positions()[vc.index() as int]);
        proof {
            Self::lemma_turn_distinct(a, b, c);
        }
        let circumcircle = Circle::circumcircle(a, b, c).unwrap();
        let tri = self.triangles.push(Triangle { vertices: [va, vb, vc], circumcircle, live: true });
        let key = self.bounds.clamp(circumcircle.center());
        proof {
            lemma_insert_wf(self.triangles_index@, tri, key);
            crate::bvh::lemma_insert_keeps_bbox(self.triangles_index@, tri, key);
            assert forall|pair: (ArenaId<Triangle>, Vec2)| #[trigger]
                self.triangles_index@.spec_insert(tri, key).pairs().contains(
                    pair,
                ) implies pair.0.index() < self.slots().len() by {
                lemma_insert_pairs(self.triangles_index@, tri, key, pair);
                if old(self).index().pairs().contains(pair) {
                }
            }
        }
        let ghost index_before = self.triangles_index@;
        self.triangles_index.insert(tri, key);
        proof {
            let n = old(self).slots().len() as int;
            assert forall|t: int| self@.live_at(t) implies #[trigger] self@.filed_at(t) by {
                if t < n {
                    assert(old(self)@.live_at(t));
                    assert(old(self)@.filed_at(t));
                    let pair = choose|pair: (ArenaId<Triangle>, Vec2)| #[trigger]
                        index_before.pairs().contains(pair) && pair.0.index() == t;
                    lemma_insert_pairs(index_before, tri, key, pair);
                } else {
                    if index_before is Branch {
                        crate::bvh::lemma_branch_accepts(index_before, key);
                    }
                    lemma_insert_pairs(index_before, tri, key, (tri, key));
                    assert(self@.index.pairs().contains((tri, key)));
                }
            }
            assert(self.slots() == old(self).slots().push(self.slots()[n]));
            assert forall|t: int| 0 <= t < self.slots().len() implies #[trigger] self@.slot_ok(
                t,
            ) by {
                if t < n {
                    assert(old(self)@.slot_ok(t));
                }
            }
            assert(self.corners_distinct()) by {
                assert forall|t: int| 0 <= t < self.slots().len() implies {
                    let tri = #[trigger] self.slots()[t];
                    tri.corner(0) != tri.corner(1) && tri.corner(1) != tri.corner(2) && tri.corner(
                        2,
                    ) != tri.corner(0)
                } by {
                    if t < n {
                        assert(self.slots()[t] == old(self).slots()[t]);
                    }
                }
            }
            assert(self.edges_consistent()) by {
                assert forall|t: int, u: int, i: int, j: int|
                    self.live_at(t) && self.live_at(u) && t != u && 0 <= i < 3 && 0 <= j
                        < 3 implies (#[trigger] self.slots()[t].edge(i)) != (
                #[trigger] self.slots()[u].edge(j)) by {
                    if t < n && u < n {
                        assert(old(self).live_at(t) && old(self).live_at(u));
                        assert(old(self).slots()[t].edge(i) != old(self).slots()[u].edge(j));
                    } else if t < n {
                        assert(old(self).live_at(t));
                        assert(!old(self).slots()[t].has_edge(self.slots()[u].edge(j)));
                    } else {
                        assert(old(self).live_at(u));
                        assert(!old(self).slots()[u].has_edge(self.slots()[t].edge(i)));
                    }
                }
            }
        }
        tri
    }
}

/// Whether `edges` holds `e`.
fn contains_edge(edges: &Vec<(usize, usize)>, e: (usize, usize)) -> (b: bool)
    ensures
        b == edges@.contains(e),
{
    let mut i: usize = 0;
    while i < edges.len()
        invariant
            i <= edges.len(),
            forall|j: int| 0 <= j < i ==> edges@[j] != e,
        decreases edges.len() - i,
    {
        if edges[i].0 == e.0 && edges[i].1 == e.1 {
            return true;
        }
        i += 1;
    }
    false
}

/// Whether `keys` holds `k`.
fn contains_key(keys: &Vec<usize>, k: usize) -> (b: bool)
    ensures
        b == keys@.contains(k),
{
    let mut i: usize = 0;
    while i < keys.len()
        invariant
            i <= keys.len(),
            forall|j: int| 0 <= j < i ==> keys@[j] != k,
        decreases keys.len() - i,
    {
        if keys[i] == k {
            return true;
        }
        i += 1;
    }
    false
}

/// Whether no two of `keys` are equal.
fn all_distinct(keys: &Vec<usize>) -> (b: bool)
    ensures
        b == keys@.no_duplicates(),
{
    let mut i: usize = 0;
    while i < keys.len()
        invariant
            i <= keys.len(),
            forall|a: int, c: int| 0 <= a < i && a < c < keys.len() ==> keys@[a] != keys@[c],
        decreases keys.len() - i,
    {
        let mut j: usize = i + 1;
        while j < keys.len()
            invariant
                i < j <= keys.len(),
                forall|c: int| i < c < j ==> keys@[i as int] != keys@[c],
            decreases keys.len() - j,
        {
            if keys[i] == keys[j] {
                return false;
            }
            j += 1;
        }
        i += 1;
    }
    true
}

/// The edges whose reverse is not among `edges`.
pub open spec fn reverse_absent(edges: Seq<(usize, usize)>) -> spec_fn((usize, usize)) -> bool {
    |e: (usize, usize)| !edges.contains((e.1, e.0))
}

/// The border of a set of triangles with the sides `edges`: the sides that
/// no triangle of the set walks the other way.
pub open spec fn border_of(edges: Seq<(usize, usize)>) -> Seq<(usize, usize)> {
    edges.filter(reverse_absent(edges))
}

/// Where the edges of `border` start.
pub open spec fn starts(border: Seq<(usize, usize)>) -> Seq<usize> {
    Seq::new(border.len(), |i: int| border[i].0)
}

/// Where the edges of `border` end.
pub open spec fn ends(border: Seq<(usize, usize)>) -> Seq<usize> {
    Seq::new(border.len(), |i: int| border[i].1)
}

/// Whether the edges of `border` close into rings: there is an edge, no two
/// edges start at one vertex or end at one vertex, at the end of every edge
/// another starts, and at the start of every edge another ends.
pub open spec fn is_ring(border: Seq<(usize, usize)>) -> bool {
    &&& border.len() > 0
    &&& starts(border).no_duplicates()
    &&& ends(border).no_duplicates()
    &&& forall|i: int| 0 <= i < border.len() ==> starts(border).contains(#[trigger] ends(border)[i])
    &&& forall|i: int| 0 <= i < border.len() ==> ends(border).contains(#[trigger] starts(border)[i])
}

/// The edge `e` walked the other way.
pub open spec fn reversed(e: (usize, usize)) -> (usize, usize) {
    (e.1, e.0)
}

/// Whether `e` is a side of the padded box, walked counter-clockwise from
/// one of the first four vertices to the next.
pub open spec fn is_hull(e: (usize, usize)) -> bool {
    e == (0usize, 1usize) || e == (1usize, 2usize) || e == (2usize, 3usize) || e == (
        3usize,
        0usize,
    )
}

/// The sides of the triangles `ids` of `slots`, three for each triangle in
/// the order of `ids`.
pub open spec fn sides_of(slots: Seq<Triangle>, ids: Seq<ArenaId<Triangle>>) -> Seq<
    (usize, usize),
>
    decreases ids.len(),
{
    if ids.len() == 0 {
        Seq::empty()
    } else {
        let tri = slots[ids.last().index() as int];
        sides_of(slots, ids.drop_last()) + seq![tri.edge(0), tri.edge(1), tri.edge(2)]
    }
}

/// An edge is among the sides of the triangles `ids` exactly if one of them
/// walks it.
pub proof fn lemma_sides(slots: Seq<Triangle>, ids: Seq<ArenaId<Triangle>>, e: (usize, usize))
    ensures
        sides_of(slots, ids).contains(e) <==> exists|i: int|
            0 <= i < ids.len() && (#[trigger] slots[ids[i].index() as int]).has_edge(e),
    decreases ids.len(),
{
    if ids.len() > 0 {
        let rest = ids.drop_last();
        let tri = slots[ids.last().index() as int];
        let three = seq![tri.edge(0), tri.edge(1), tri.edge(2)];
        lemma_sides(slots, rest, e);
        crate::bvh::lemma_add_contains(sides_of(slots, rest), three, e);
        assert(three.contains(e) <==> tri.has_edge(e)) by {
            if tri.has_edge(e) {
                if tri.edge(0) == e {
                    assert(three[0] == e);
                } else if tri.edge(1) == e {
                    assert(three[1] == e);
                } else {
                    assert(three[2] == e);
                }
            }
        }
        if sides_of(slots, ids).contains(e) {
            if three.contains(e) {
                assert(slots[ids[ids.len() - 1].index() as int].has_edge(e));
            } else {
                let i = choose|i: int|
                    0 <= i < rest.len() && (#[trigger] slots[rest[i].index() as int]).has_edge(e);
                assert(slots[ids[i].index() as int].has_edge(e));
            }
        }
        if exists|i: int|
            0 <= i < ids.len() && (#[trigger] slots[ids[i].index() as int]).has_edge(e) {
            let i = choose|i: int|
                0 <= i < ids.len() && (#[trigger] slots[ids[i].index() as int]).has_edge(e);
            if i < rest.len() {
                assert(slots[rest[i].index() as int].has_edge(e));
            }
        }
    }
}

/// Whether one of `ids` is the identity of slot `t`.
pub open spec fn hits(ids: Seq<ArenaId<Triangle>>, t: int) -> bool {
    exists|i: int| 0 <= i < ids.len() && (#[trigger] ids[i]).index() == t
}

/// The slots after the triangles `ids` were removed.
pub open spec fn retire_all(slots: Seq<Triangle>, ids: Seq<ArenaId<Triangle>>) -> Seq<Triangle> {
    Seq::new(
        slots.len(),
        |t: int|
            if hits(ids, t) {
                slots[t].retired()
            } else {
                slots[t]
            },
    )
}

/// The index after the triangles of the slots `first` to `first + count`,
/// not included, were filed in it, each under the key of its circumcircle.
pub open spec fn filed(
    index: NodeView<ArenaId<Triangle>>,
    bounds: Bbox,
    slots: Seq<Triangle>,
    first: int,
    count: nat,
) -> NodeView<ArenaId<Triangle>>
    decreases count,
{
    if count == 0 {
        index
    } else {
        let t = first + count - 1;
        filed(index, bounds, slots, first, (count - 1) as nat).spec_insert(
            ArenaId::at(t as usize),
            index_key(bounds, slots[t].circle()),
        )
    }
}

/// What is filed depends only on the slots that are filed.
pub proof fn lemma_filed_slots(
    index: NodeView<ArenaId<Triangle>>,
    bounds: Bbox,
    slots: Seq<Triangle>,
    other: Seq<Triangle>,
    first: int,
    count: nat,
)
    requires
        forall|t: int| first <= t < first + count ==> slots[t] == other[t],
    ensures
        filed(index, bounds, slots, first, count) == filed(index, bounds, other, first, count),
    decreases count,
{
    if count > 0 {
        lemma_filed_slots(index, bounds, slots, other, first, (count - 1) as nat);
    }
}

/// The border of `edges`.
fn border(edges: &Vec<(usize, usize)>) -> (kept: Vec<(usize, usize)>)
    ensures
        kept@ == border_of(edges@),
{
    let mut kept: Vec<(usize, usize)> = Vec::new();
    let mut i: usize = 0;
    proof {
        reveal(Seq::filter);
        assert(edges@.take(0) =~= Seq::<(usize, usize)>::empty());
    }
    while i < edges.len()
        invariant
            i <= edges.len(),
            kept@ == edges@.take(i as int).filter(reverse_absent(edges@)),
        decreases edges.len() - i,
    {
        let e = edges[i];
        let twin = contains_edge(edges, (e.1, e.0));
        proof {
            reveal(Seq::filter);
            let next = edges@.take(i + 1);
            assert(next.drop_last() =~= edges@.take(i as int));
            assert(next.last() == e);
        }
        if !twin {
            kept.push(e);
        }
        i += 1;
    }
    assert(edges@.take(edges.len() as int) =~= edges@);
    kept
}

/// Whether the edges of `border` close into rings.
fn closes(border: &Vec<(usize, usize)>) -> (b: bool)
    ensures
        b == is_ring(border@),
{
    if border.len() == 0 {
        return false;
    }
    let mut from: Vec<usize> = Vec::new();
    let mut to: Vec<usize> = Vec::new();
    let mut i: usize = 0;
    while i < border.len()
        invariant
            i <= border.len(),
            from@ == starts(border@.take(i as int)),
            to@ == ends(border@.take(i as int)),
        decreases border.len() - i,
    {
        from.push(border[i].0);
        to.push(border[i].1);
        assert(from@ =~= starts(border@.take(i + 1)));
        assert(to@ =~= ends(border@.take(i + 1)));
        i += 1;
    }
    assert(border@.take(border.len() as int) =~= border@);
    if !all_distinct(&from) || !all_distinct(&to) {
        return false;
    }
    let mut k: usize = 0;
    while k < to.len()
        invariant
            k <= to.len(),
            to@ == ends(border@),
            from@ == starts(border@),
            forall|i: int| 0 <= i < k ==> from@.contains(#[trigger] to@[i]),
            forall|i: int| 0 <= i < k ==> to@.contains(#[trigger] from@[i]),
        decreases to.len() - k,
    {
        if !contains_key(&from, to[k]) || !contains_key(&to, from[k]) {
            return false;
        }
        k += 1;
    }
    true
}

impl DelaunayMesh {
    /// The box that `bbox` is padded to.
    pub open spec fn padded(bbox: Bbox) -> Bbox {
        Bbox::with_corners(
            Vec2 { x: (bbox.lo().x - PADDING) as i64, y: (bbox.lo().y - PADDING) as i64 },
            Vec2 { x: (bbox.hi().x + PADDING) as i64, y: (bbox.hi().y + PADDING) as i64 },
        )
    }

    /// Whether a mesh can be made over `bbox`: the padded box lies within
    /// the coordinate range.
    pub open spec fn fits(bbox: Bbox) -> bool {
        &&& bbox.wf()
        &&& -(COORD_LIMIT - PADDING) <= bbox.lo().x
        &&& -(COORD_LIMIT - PADDING) <= bbox.lo().y
        &&& bbox.hi().x <= COORD_LIMIT - PADDING
        &&& bbox.hi().y <= COORD_LIMIT - PADDING
    }

    /// Whether a mesh can be made over `bbox`.
    pub fn can_hold(bbox: &Bbox) -> (b: bool)
        ensures
            b == Self::fits(*bbox),
    {
        let lo = bbox.min();
        let hi = bbox.max();
        lo.x <= hi.x && lo.y <= hi.y && -(COORD_LIMIT - PADDING) <= lo.x && -(COORD_LIMIT - PADDING)
            <= lo.y && hi.x <= COORD_LIMIT - PADDING && hi.y <= COORD_LIMIT - PADDING
    }

    /// The mesh over `bbox`, padded by `PADDING` on every side: the four
    /// corners of the padded box, lower left, lower right, upper right and
    /// upper left, and the two triangles that its diagonal from the lower
    /// left to the upper right cuts it into.
    pub fn new(bbox: Bbox) -> (mesh: Self)
        requires
            Self::fits(bbox),
        ensures
            mesh.wf(),
            mesh@ == MeshView::fresh(bbox),
            mesh@.closed(),
    {
        let ghost given = bbox;
        let mut bbox = bbox;
        let low = bbox.min() - PADDING;
        bbox.expand(low);
        let high = bbox.max() + PADDING;
        bbox.expand(high);
        assert(bbox == Self::padded(given)) by {
            bbox.lemma_corners();
            Self::padded(given).lemma_corners();
        }
        let mut dm = DelaunayMesh {
            triangles: Arena::new(),
            vertices: Arena::new(),
            triangles_index: Bvh::new(bbox),
            bounds: bbox,
        };
        let min = bbox.min();
        let max = bbox.max();
        let v0 = dm.vertices.push(Vertex::new(min));
        let v1 = dm.vertices.push(Vertex::new(Vec2::new(max.x, min.y)));
        let v2 = dm.vertices.push(Vertex::new(max));
        let v3 = dm.vertices.push(Vertex::new(Vec2::new(min.x, max.y)));
        proof {
            assert(dm.positions() =~= seq![
                min,
                Vec2 { x: max.x, y: min.y },
                max,
                Vec2 { x: min.x, y: max.y },
            ]);
            let w = max.x - min.x;
            let h = max.y - min.y;
            assert(w * h > 0) by (nonlinear_arith)
                requires
                    w > 0,
                    h > 0,
            ;
            assert((0 - w) * (0 - h) > 0) by (nonlinear_arith)
                requires
                    w > 0,
                    h > 0,
            ;
            assert(w * h - 0 * w == w * h) by (nonlinear_arith);
            assert((0 - w) * (0 - h) - 0 * (0 - w) == (0 - w) * (0 - h)) by (nonlinear_arith);
        }
        let ghost empty = dm.index();
        let t0 = dm.insert_triangle(v0, v1, v2);
        let ghost first = dm.slots();
        let t1 = dm.insert_triangle(v2, v3, v0);
        proof {
            let want = MeshView::fresh(given);
            let p0 = min;
            let p1 = Vec2 { x: max.x, y: min.y };
            let p2 = max;
            let p3 = Vec2 { x: min.x, y: max.y };
            Triangle::lemma_make(0, 1, 2, circumcircle_of(p0, p1, p2));
            Triangle::lemma_make(2, 3, 0, circumcircle_of(p2, p3, p0));
            assert(dm@.slot_ok(0));
            assert(dm@.slot_ok(1));
            dm@.slots[0].lemma_determined(want.slots[0]);
            dm@.slots[1].lemma_determined(want.slots[1]);
            assert(dm@.slots =~= want.slots);
            assert(t0 == ArenaId::<Triangle>::at(0));
            assert(t1 == ArenaId::<Triangle>::at(1));
            lemma_filed_slots(empty, bbox, first, dm@.slots, 0, 1);
            assert(filed(empty, bbox, dm@.slots, 0, 1) == filed(empty, bbox, dm@.slots, 0, 0).spec_insert(
                ArenaId::at(0),
                index_key(bbox, dm@.slots[0].circle()),
            ));
            assert(dm@.index == filed(empty, bbox, dm@.slots, 0, 2));
            lemma_fresh_closed(given);
        }
        dm
    }
}

impl DelaunayMesh {
    /// Whether `id` names a live triangle whose circumcircle holds `p`.
    pub open spec fn holds(&self, id: ArenaId<Triangle>, p: Vec2) -> bool {
        self@.holds(id, p)
    }

    /// The triangles whose circumcircle holds `p`.
    pub open spec fn holding(&self, p: Vec2) -> spec_fn(ArenaId<Triangle>) -> bool {
        self@.holding(p)
    }

    /// The cavity of `p`: the live triangles that a query of the index for
    /// `p` meets and whose circumcircle holds `p`, in the order of the query.
    pub open spec fn cavity(&self, p: Vec2) -> Seq<ArenaId<Triangle>> {
        self@.cavity(p)
    }

    /// The border of the cavity of `p`: the sides of its triangles that no
    /// triangle of the cavity walks the other way.
    pub open spec fn cavity_border(&self, p: Vec2) -> Seq<(usize, usize)> {
        self@.cavity_border(p)
    }

    /// Whether every edge of `border` turns counter-clockwise around `p`.
    pub open spec fn faces(&self, border: Seq<(usize, usize)>, p: Vec2) -> bool {
        self@.faces(border, p)
    }

    /// The identities of the cavity of `p`.
    fn find_cavity(&self, p: Vec2) -> (bad: Vec<ArenaId<Triangle>>)
        requires
            self.wf(),
            p.in_range(),
        ensures
            bad@ == self.cavity(p),
    {
        let triangles = &self.triangles;
        let ghost visited = self.index().visited(p);
        let inside = |tid: &ArenaId<Triangle>, q: Vec2| -> (b: bool)
            requires
                triangles.has(*tid),
                triangles@[tid.index() as int].circle().wf(),
                q.in_range(),
            ensures
                b == (triangles@[tid.index() as int].is_live() && triangles@[tid.index() as int].circle().spec_contains(
                    q,
                )),
            {
                let tri = triangles.get(*tid).unwrap();
                tri.live && tri.circumcircle.contains(q)
            };
        assert forall|pair: (ArenaId<Triangle>, Vec2)| visited.contains(pair) implies call_requires(
            inside,
            (&pair.0, p),
        ) by {
            lemma_visited_within_pairs(self.index(), p, pair);
            assert(self.index().pairs().contains(pair));
            assert(self@.slot_ok(pair.0.index() as int));
        }
        let found = self.triangles_index.enclosing(p, inside);
        proof {
            assert forall|i: int| 0 <= i < visited.len() implies {
                &&& call_ensures(inside, (&(#[trigger] visited[i]).0, p), true) ==> self.holding(p)(
                    visited[i].0,
                )
                &&& call_ensures(inside, (&visited[i].0, p), false) ==> !self.holding(p)(
                    visited[i].0,
                )
            } by {
                assert(visited.contains(visited[i]));
                lemma_visited_within_pairs(self.index(), p, visited[i]);
            }
            lemma_selects_filter(inside, p, visited, found@, self.holding(p));
        }
        let mut bad: Vec<ArenaId<Triangle>> = Vec::with_capacity(found.len());
        let mut i: usize = 0;
        while i < found.len()
            invariant
                i <= found.len(),
                bad@.len() == i,
                forall|j: int| 0 <= j < i ==> bad@[j] == *found@[j],
            decreases found.len() - i,
        {
            bad.push(*found[i]);
            i += 1;
        }
        assert(bad@ =~= self.cavity(p));
        bad
    }

    /// The sides of the triangles `bad`, three for each in the order of
    /// `bad`.
    fn sides(&self, bad: &Vec<ArenaId<Triangle>>) -> (edges: Vec<(usize, usize)>)
        requires
            forall|i: int| 0 <= i < bad@.len() ==> (#[trigger] bad@[i]).index() < self.slots().len(),
        ensures
            edges@ == sides_of(self.slots(), bad@),
    {
        let mut edges: Vec<(usize, usize)> = Vec::new();
        let mut i: usize = 0;
        assert(bad@.take(0) =~= Seq::<ArenaId<Triangle>>::empty());
        while i < bad.len()
            invariant
                i <= bad.len(),
                edges@ == sides_of(self.slots(), bad@.take(i as int)),
                forall|i: int|
                    0 <= i < bad@.len() ==> (#[trigger] bad@[i]).index() < self.slots().len(),
            decreases bad.len() - i,
        {
            let tri = self.triangles.get(bad[i]).unwrap();
            let a = tri.vertices[0].position();
            let b = tri.vertices[1].position();
            let c = tri.vertices[2].position();
            let ghost before = edges@;
            edges.push((a, b));
            edges.push((b, c));
            edges.push((c, a));
            proof {
                let next = bad@.take(i + 1);
                assert(next.drop_last() =~= bad@.take(i as int));
                assert(next.last() == bad@[i as int]);
                let t = self.slots()[bad@[i as int].index() as int];
                assert(edges@ =~= before + seq![t.edge(0), t.edge(1), t.edge(2)]);
            }
            i += 1;
        }
        assert(bad@.take(bad.len() as int) =~= bad@);
        edges
    }

    /// Whether every edge of `border` turns counter-clockwise around `p`.
    fn faces_point(&self, border: &Vec<(usize, usize)>, p: Vec2) -> (b: bool)
        requires
            self.wf(),
            p.in_range(),
            forall|k: int|
                0 <= k < border@.len() ==> (#[trigger] border@[k]).0 < self.positions().len()
                    && border@[k].1 < self.positions().len(),
        ensures
            b == self.faces(border@, p),
    {
        let mut k: usize = 0;
        while k < border.len()
            invariant
                k <= border.len(),
                self.wf(),
                p.in_range(),
                forall|k: int|
                    0 <= k < border@.len() ==> (#[trigger] border@[k]).0 < self.positions().len()
                        && border@[k].1 < self.positions().len(),
                forall|j: int|
                    0 <= j < k ==> spec_orient(
                        self.positions()[(#[trigger] border@[j]).0 as int],
                        self.positions()[border@[j].1 as int],
                        p,
                    ) > 0,
            decreases border.len() - k,
        {
            let e = border[k];
            let a = self.vertices[ArenaId::new(e.0)].position;
            let b = self.vertices[ArenaId::new(e.1)].position;
            assert(a == self.positions()[e.0 as int]);
            assert(b == self.positions()[e.1 as int]);
            if orient(a, b, p) <= 0 {
                return false;
            }
            k += 1;
        }
        true
    }

    /// Removes the triangles `bad` from the triangulation; their slots stay.
    fn retire(&mut self, bad: &Vec<ArenaId<Triangle>>)
        requires
            old(self).wf(),
            forall|i: int|
                0 <= i < bad@.len() ==> (#[trigger] bad@[i]).index() < old(self).slots().len(),
        ensures
            final(self).wf(),
            final(self).positions() == old(self).positions(),
            final(self).bounds() == old(self).bounds(),
            final(self).index() == old(self).index(),
            final(self).slots() == retire_all(old(self).slots(), bad@),
    {
        let mut i: usize = 0;
        assert(self.slots() =~= retire_all(old(self).slots(), bad@.take(0)));
        while i < bad.len()
            invariant
                i <= bad.len(),
                self.positions() == old(self).positions(),
                self.bounds() == old(self).bounds(),
                self.index() == old(self).index(),
                self.slots() == retire_all(old(self).slots(), bad@.take(i as int)),
                forall|i: int|
                    0 <= i < bad@.len() ==> (#[trigger] bad@[i]).index() < old(self).slots().len(),
            decreases bad.len() - i,
        {
            let id = bad[i];
            let tri = self.triangles[id];
            let gone = Triangle { vertices: tri.vertices, circumcircle: tri.circumcircle, live: false };
            self.triangles.replace(id, gone);
            proof {
                let before = bad@.take(i as int);
                let after = bad@.take(i + 1);
                assert forall|t: int| 0 <= t < self.slots().len() implies self.slots()[t]
                    == retire_all(old(self).slots(), after)[t] by {
                    if hits(before, t) {
                        let j = choose|j: int| 0 <= j < before.len() && (#[trigger] before[j]).index() == t;
                        assert(after[j].index() == t);
                    }
                    if t == id.index() {
                        assert(after[i as int].index() == t);
                    }
                    if hits(after, t) {
                        let j = choose|j: int| 0 <= j < after.len() && (#[trigger] after[j]).index() == t;
                        if j < i {
                            assert(before[j].index() == t);
                        }
                    }
                }
                assert(self.slots() =~= retire_all(old(self).slots(), after));
            }
            i += 1;
        }
        assert(bad@.take(bad.len() as int) =~= bad@);
        proof {
            assert forall|t: int| 0 <= t < self.slots().len() implies #[trigger] self@.slot_ok(
                t,
            ) by {
                assert(old(self)@.slot_ok(t));
            }
            assert forall|t: int| self@.live_at(t) implies #[trigger] self@.filed_at(t) by {
                assert(old(self)@.live_at(t));
                assert(old(self)@.filed_at(t));
            }
            assert(self.corners_distinct()) by {
                assert forall|t: int| 0 <= t < self.slots().len() implies {
                    let tri = #[trigger] self.slots()[t];
                    tri.corner(0) != tri.corner(1) && tri.corner(1) != tri.corner(2) && tri.corner(
                        2,
                    ) != tri.corner(0)
                } by {
                    let was = old(self).slots()[t];
                    assert(was.corner(0) != was.corner(1));
                }
            }
            assert(self.edges_consistent()) by {
                assert forall|t: int, u: int, i: int, j: int|
                    self.live_at(t) && self.live_at(u) && t != u && 0 <= i < 3 && 0 <= j
                        < 3 implies (#[trigger] self.slots()[t].edge(i)) != (
                #[trigger] self.slots()[u].edge(j)) by {
                    assert(old(self).live_at(t) && old(self).live_at(u));
                    assert(old(self).slots()[t].edge(i) != old(self).slots()[u].edge(j));
                }
            }
        }
    }
}

impl DelaunayMesh {
    /// The cavity of `p` holds every live triangle whose circumcircle holds
    /// `p` and whose key in the index `p` sees: every such triangle while
    /// the index is a single leaf.
    pub proof fn lemma_cavity_complete(&self, p: Vec2, pair: (ArenaId<Triangle>, Vec2))
        requires
            self.wf(),
            self.index().pairs().contains(pair),
            self.holds(pair.0, p),
            self.index().sees(pair.1, p),
        ensures
            hits(self.cavity(p), pair.0.index() as int),
    {
        let visited = self.index().visited(p);
        let keep = keeps(self.holding(p));
        crate::bvh::lemma_visited_complete(self.index(), p, pair);
        let i = choose|i: int| 0 <= i < visited.len() && visited[i] == pair;
        visited.lemma_filter_contains(keep, i);
        let found = visited.filter(keep);
        let j = choose|j: int| 0 <= j < found.len() && found[j] == pair;
        assert(self.cavity(p)[j] == pair.0);
    }

    /// Every edge of the border of the cavity of `p` is a side of one of
    /// the cavity's triangles: the result is the place of that triangle in
    /// the cavity.
    pub proof fn lemma_border_side(&self, p: Vec2, k: int) -> (i: int)
        requires
            0 <= k < self.cavity_border(p).len(),
        ensures
            0 <= i < self.cavity(p).len(),
            self.slots()[self.cavity(p)[i].index() as int].has_edge(self.cavity_border(p)[k]),
    {
        let edges = sides_of(self.slots(), self.cavity(p));
        let e = self.cavity_border(p)[k];
        assert(self.cavity_border(p).contains(e));
        edges.lemma_filter_contains_rev(reverse_absent(edges), e);
        lemma_sides(self.slots(), self.cavity(p), e);
        choose|i: int|
            0 <= i < self.cavity(p).len() && (#[trigger] self.slots()[self.cavity(p)[i].index() as int]).has_edge(
                e,
            )
    }

    /// Adds a vertex at `p`.
    fn add_vertex(&mut self, p: Vec2) -> (id: ArenaId<Vertex>)
        requires
            old(self).wf(),
            old(self).bounds().spec_contains(p),
        ensures
            final(self).wf(),
            final(self).positions() == old(self).positions().push(p),
            final(self).slots() == old(self).slots(),
            final(self).index() == old(self).index(),
            final(self).bounds() == old(self).bounds(),
            id.index() == old(self).positions().len(),
    {
        let id = self.vertices.push(Vertex::new(p));
        proof {
            assert(self.positions() =~= old(self).positions().push(p));
            assert forall|t: int| 0 <= t < self.slots().len() implies #[trigger] self@.slot_ok(
                t,
            ) by {
                assert(old(self)@.slot_ok(t));
            }
            assert forall|t: int| self@.live_at(t) implies #[trigger] self@.filed_at(t) by {
                assert(old(self)@.live_at(t));
                assert(old(self)@.filed_at(t));
            }
            assert forall|v: int| 0 <= v < self.positions().len() implies (
            #[trigger] self.positions()[v]).in_range() && self.bounds().spec_contains(
                self.positions()[v],
            ) by {
                if v < old(self).positions().len() {
                    assert(old(self).positions()[v].in_range());
                }
            }
            assert(self@.corners_distinct()) by {
                assert forall|t: int| 0 <= t < self@.slots.len() implies {
                    let tri = #[trigger] self@.slots[t];
                    tri.corner(0) != tri.corner(1) && tri.corner(1) != tri.corner(2) && tri.corner(
                        2,
                    ) != tri.corner(0)
                } by {
                    let was = old(self).slots()[t];
                    assert(was.corner(0) != was.corner(1));
                }
            }
            assert(self@.edges_consistent()) by {
                assert forall|t: int, u: int, i: int, j: int|
                    self@.live_at(t) && self@.live_at(u) && t != u && 0 <= i < 3 && 0 <= j
                        < 3 implies (#[trigger] self@.slots[t].edge(i)) != (
                #[trigger] self@.slots[u].edge(j)) by {
                    assert(old(self).live_at(t) && old(self).live_at(u));
                    assert(old(self).slots()[t].edge(i) != old(self).slots()[u].edge(j));
                }
            }
        }
        id
    }

    /// Adds, for every edge of `border`, the triangle over that edge and
    /// the vertex `vp`, in the order of `border`.
    fn fan(&mut self, border: &Vec<(usize, usize)>, vp: ArenaId<Vertex>) -> (created: Vec<
        ArenaId<Triangle>,
    >)
        requires
            old(self).wf(),
            vp.index() + 1 == old(self).positions().len(),
            starts(border@).no_duplicates(),
            ends(border@).no_duplicates(),
            forall|k: int|
                0 <= k < border@.len() ==> (#[trigger] border@[k]).0 < vp.index() && border@[k].1
                    < vp.index(),
            forall|k: int|
                0 <= k < border@.len() ==> spec_orient(
                    old(self).positions()[(#[trigger] border@[k]).0 as int],
                    old(self).positions()[border@[k].1 as int],
                    old(self).positions()[vp.index() as int],
                ) > 0,
            forall|k: int| 0 <= k < border@.len() ==> old(self).edge_free(#[trigger] border@[k]),
            forall|t: int, i: int|
                0 <= t < old(self).slots().len() && 0 <= i < 3 ==> (
                #[trigger] old(self).slots()[t].corner(i)) < vp.index(),
        ensures
            final(self).wf(),
            final(self).positions() == old(self).positions(),
            final(self).bounds() == old(self).bounds(),
            final(self).slots().len() == old(self).slots().len() + border@.len(),
            forall|t: int|
                0 <= t < old(self).slots().len() ==> final(self).slots()[t] == old(self).slots()[t],
            forall|k: int|
                0 <= k < border@.len() ==> {
                    let tri = #[trigger] final(self).slots()[old(self).slots().len() + k];
                    &&& tri.corner(0) == border@[k].0
                    &&& tri.corner(1) == border@[k].1
                    &&& tri.corner(2) == vp.index()
                    &&& tri.is_live()
                },
            created@.len() == border@.len(),
            forall|k: int|
                0 <= k < border@.len() ==> (#[trigger] created@[k]).index() == old(
                    self,
                ).slots().len() + k,
            final(self).index() == filed(
                old(self).index(),
                old(self).bounds(),
                final(self).slots(),
                old(self).slots().len() as int,
                border@.len(),
            ),
    {
        let ghost n0 = self.slots().len() as int;
        let ghost index0 = self.index();
        let ghost bounds = self.bounds();
        let mut created: Vec<ArenaId<Triangle>> = Vec::with_capacity(border.len());
        let mut k: usize = 0;
        while k < border.len()
            invariant
                k <= border.len(),
                self.wf(),
                self.positions() == old(self).positions(),
                self.bounds() == bounds,
                bounds == old(self).bounds(),
                n0 == old(self).slots().len(),
                index0 == old(self).index(),
                vp.index() + 1 == self.positions().len(),
                starts(border@).no_duplicates(),
                ends(border@).no_duplicates(),
                forall|k: int|
                    0 <= k < border@.len() ==> (#[trigger] border@[k]).0 < vp.index()
                        && border@[k].1 < vp.index(),
                forall|k: int|
                    0 <= k < border@.len() ==> spec_orient(
                        old(self).positions()[(#[trigger] border@[k]).0 as int],
                        old(self).positions()[border@[k].1 as int],
                        old(self).positions()[vp.index() as int],
                    ) > 0,
                forall|k: int|
                    0 <= k < border@.len() ==> old(self).edge_free(#[trigger] border@[k]),
                forall|t: int, i: int|
                    0 <= t < n0 && 0 <= i < 3 ==> (#[trigger] old(self).slots()[t].corner(i))
                        < vp.index(),
                self.slots().len() == n0 + k,
                forall|t: int| 0 <= t < n0 ==> self.slots()[t] == old(self).slots()[t],
                forall|j: int|
                    0 <= j < k ==> {
                        let tri = #[trigger] self.slots()[n0 + j];
                        &&& tri.corner(0) == border@[j].0
                        &&& tri.corner(1) == border@[j].1
                        &&& tri.corner(2) == vp.index()
                        &&& tri.is_live()
                    },
                created@.len() == k,
                forall|j: int| 0 <= j < k ==> (#[trigger] created@[j]).index() == n0 + j,
                self.index() == filed(index0, bounds, self.slots(), n0, k as nat),
            decreases border.len() - k,
        {
            let e = border[k];
            let va: ArenaId<Vertex> = ArenaId::new(e.0);
            let vb: ArenaId<Vertex> = ArenaId::new(e.1);
            let ghost before = self.slots();
            proof {
                let a = e.0;
                let b = e.1;
                let c = vp.index();
                assert forall|t: int| self.live_at(t) implies !(#[trigger] self.slots()[t]).has_edge(
                    (a, b),
                ) && !self.slots()[t].has_edge((b, c)) && !self.slots()[t].has_edge((c, a)) by {
                    let tri = self.slots()[t];
                    if t < n0 {
                        assert(old(self).live_at(t));
                        assert(old(self).edge_free(border@[k as int]));
                        assert(!old(self).slots()[t].has_edge((a, b)));
                        assert(old(self).slots()[t].corner(0) < c);
                        assert(old(self).slots()[t].corner(1) < c);
                        assert(old(self).slots()[t].corner(2) < c);
                    } else {
                        let j = t - n0;
                        assert(self.slots()[n0 + j].corner(0) == border@[j].0);
                        assert(starts(border@)[j] != starts(border@)[k as int]);
                        assert(ends(border@)[j] != ends(border@)[k as int]);
                    }
                }
            }
            let id = self.insert_triangle(va, vb, vp);
            created.push(id);
            proof {
                lemma_filed_slots(index0, bounds, before, self.slots(), n0, k as nat);
                assert(id == ArenaId::<Triangle>::at((n0 + k) as usize));
                assert forall|j: int| 0 <= j < k + 1 implies {
                    let tri = #[trigger] self.slots()[n0 + j];
                    &&& tri.corner(0) == border@[j].0
                    &&& tri.corner(1) == border@[j].1
                    &&& tri.corner(2) == vp.index()
                    &&& tri.is_live()
                } by {
                    if j < k {
                        assert(self.slots()[n0 + j] == before[n0 + j]);
                    }
                }
            }
            k += 1;
        }
        created
    }

    /// Finds the cavity of `p` and its border, and tests whether `p` can be
    /// inserted.
    fn survey(&self, p: Vec2) -> (found: Result<
        (Vec<ArenaId<Triangle>>, Vec<(usize, usize)>),
        InsertError,
    >)
        requires
            self.wf(),
        ensures
            match found {
                Ok((bad, border)) => {
                    &&& self@.refusal(p) is None
                    &&& bad@ == self@.cavity(p)
                    &&& border@ == self@.cavity_border(p)
                    &&& forall|i: int|
                        0 <= i < bad@.len() ==> (#[trigger] bad@[i]).index() < self@.slots.len()
                    &&& forall|k: int|
                        0 <= k < border@.len() ==> (#[trigger] border@[k]).0
                            < self@.positions.len() && border@[k].1 < self@.positions.len()
                },
                Err(e) => self@.refusal(p) == Some(e),
            },
    {
        if !self.bounds.contains(p) {
            return Err(InsertError::OutOfBounds);
        }
        let bad = self.find_cavity(p);
        proof {
            assert forall|i: int| 0 <= i < bad@.len() implies (#[trigger] bad@[i]).index()
                < self.slots().len() by {
                lemma_cavity_is_live(self@, p, i);
            }
        }
        let edges = self.sides(&bad);
        let border = border(&edges);
        if !closes(&border) {
            return Err(InsertError::MalformedCavity);
        }
        proof {
            assert forall|k: int| 0 <= k < border@.len() implies (#[trigger] border@[k]).0
                < self.positions().len() && border@[k].1 < self.positions().len() by {
                let i = self.lemma_border_side(p, k);
                lemma_cavity_is_live(self@, p, i);
                assert(self@.slot_ok(self.cavity(p)[i].index() as int));
            }
        }
        if !self.faces_point(&border, p) {
            return Err(InsertError::Degenerate);
        }
        Ok((bad, border))
    }

    /// Why the point `p` cannot be inserted, or `None` where it can: it lies
    /// outside the padded box, or the border of its cavity does not close
    /// into rings, or an edge of the border does not turn counter-clockwise
    /// around it. The first of these that holds is named.
    pub fn refusal(&self, p: Vec2) -> (why: Option<InsertError>)
        requires
            self.wf(),
        ensures
            why == self@.refusal(p),
    {
        match self.survey(p) {
            Ok(_) => None,
            Err(e) => Some(e),
        }
    }

    /// Whether the point `p` can be inserted.
    pub fn admits(&self, p: Vec2) -> (b: bool)
        requires
            self.wf(),
        ensures
            b == self@.admits(p),
    {
        self.refusal(p).is_none()
    }

    /// Inserts the point `p`, which the mesh must admit. The live triangles
    /// that a query of the index for `p` meets and whose circumcircle holds
    /// `p` make up the cavity. The sides of its triangles that no triangle of
    /// the cavity walks the other way are its border. The triangles of the
    /// cavity are removed, a vertex is made at `p`, and over every edge of
    /// the border, in its order, a triangle with the new vertex is added and
    /// filed in the index.
    pub fn insert(&mut self, p: Vec2) -> (roi: Roi)
        requires
            old(self).wf(),
            old(self)@.admits(p),
        ensures
            final(self).wf(),
            final(self)@ == old(self)@.after_insert(p),
            old(self)@.closed() ==> final(self)@.closed(),
            roi.dropped() == old(self)@.cavity(p),
            roi.created() == old(self)@.created_by(p),
            forall|k: int|
                0 <= k < roi.created().len() ==> (#[trigger] roi.created()[k]).index() == old(
                    self,
                )@.slots.len() + k,
            forall|i: int|
                0 <= i < roi.dropped().len() ==> (#[trigger] roi.dropped()[i]).index() < old(
                    self,
                )@.slots.len(),
            forall|k: int|
                0 <= k < roi.created().len() ==> final(self).live_at(
                    (#[trigger] roi.created()[k]).index() as int,
                ),
            forall|i: int|
                0 <= i < roi.dropped().len() ==> !final(self).live_at(
                    (#[trigger] roi.dropped()[i]).index() as int,
                ),
    {
        self.try_insert(p).unwrap()
    }

    /// Inserts the point `p` where the mesh admits it, as [`Self::insert`]
    /// does. Else the mesh stays as it is, and the error says why the point
    /// was refused.
    pub fn try_insert(&mut self, p: Vec2) -> (result: Result<Roi, InsertError>)
        requires
            old(self).wf(),
        ensures
            final(self).wf(),
            final(self).bounds() == old(self).bounds(),
            result is Ok <==> old(self)@.admits(p),
            result matches Err(e) ==> old(self)@.refusal(p) == Some(e) && final(self)@ == old(
                self,
            )@,
            old(self)@.closed() ==> final(self)@.closed(),
            result matches Ok(roi) ==> {
                &&& final(self)@ == old(self)@.after_insert(p)
                &&& roi.dropped() == old(self)@.cavity(p)
                &&& roi.created() == old(self)@.created_by(p)
                &&& forall|k: int|
                    0 <= k < roi.created().len() ==> (#[trigger] roi.created()[k]).index() == old(
                        self,
                    )@.slots.len() + k
                &&& forall|i: int|
                    0 <= i < roi.dropped().len() ==> (#[trigger] roi.dropped()[i]).index() < old(
                        self,
                    )@.slots.len()
                &&& forall|k: int|
                    0 <= k < roi.created().len() ==> final(self).live_at(
                        (#[trigger] roi.created()[k]).index() as int,
                    )
                &&& forall|i: int|
                    0 <= i < roi.dropped().len() ==> !final(self).live_at(
                        (#[trigger] roi.dropped()[i]).index() as int,
                    )
            },
    {
        let (bad, border) = match self.survey(p) {
            Ok(found) => found,
            Err(e) => {
                return Err(e);
            },
        };
        let ghost n0 = self.slots().len() as int;
        self.retire(&bad);
        proof {
            assert forall|k: int| 0 <= k < border@.len() implies self.edge_free(
                #[trigger] border@[k],
            ) by {
                let e = border@[k];
                let i = old(self).lemma_border_side(p, k);
                lemma_cavity_is_live(old(self)@, p, i);
                let u = old(self).cavity(p)[i].index() as int;
                assert forall|t: int| self.live_at(t) implies !(#[trigger] self.slots()[t]).has_edge(
                    e,
                ) by {
                    assert(!hits(bad@, t));
                    assert(bad@[i].index() == u);
                    assert(t != u);
                    assert(old(self).live_at(t));
                    let tri = old(self).slots()[t];
                    let other = old(self).slots()[u];
                    assert(self.slots()[t] == tri);
                    assert(tri.edge(0) != other.edge(0) && tri.edge(0) != other.edge(1)
                        && tri.edge(0) != other.edge(2));
                    assert(tri.edge(1) != other.edge(0) && tri.edge(1) != other.edge(1)
                        && tri.edge(1) != other.edge(2));
                    assert(tri.edge(2) != other.edge(0) && tri.edge(2) != other.edge(1)
                        && tri.edge(2) != other.edge(2));
                }
            }
            assert forall|t: int, i: int| 0 <= t < self.slots().len() && 0 <= i < 3 implies (
            #[trigger] self.slots()[t].corner(i)) < old(self).positions().len() by {
                assert(old(self)@.slot_ok(t));
                old(self).slots()[t].lemma_retired();
            }
        }
        let ghost retired = self.slots();
        let vp = self.add_vertex(p);
        let created = self.fan(&border, vp);
        proof {
            assert forall|i: int| 0 <= i < bad@.len() implies !self.live_at(
                (#[trigger] bad@[i]).index() as int,
            ) by {
                let t = bad@[i].index() as int;
                assert(hits(bad@, t));
                assert(self.slots()[t] == retired[t]);
                old(self).slots()[t].lemma_retired();
            }
            assert forall|k: int| 0 <= k < created@.len() implies self.live_at(
                (#[trigger] created@[k]).index() as int,
            ) by {
                assert(self.slots()[n0 + k].is_live());
            }
            assert forall|t: int| 0 <= t < n0 implies #[trigger] self.slots()[t] == (if hits(
                old(self).cavity(p),
                t,
            ) {
                old(self).slots()[t].retired()
            } else {
                old(self).slots()[t]
            }) by {
                assert(self.slots()[t] == retired[t]);
            }
        }
        proof {
            let edges = old(self).cavity_border(p);
            let want = old(self)@.after_insert(p);
            assert(self@.slots =~= want.slots) by {
                assert forall|t: int| 0 <= t < self@.slots.len() implies self@.slots[t]
                    == want.slots[t] by {
                    if t >= n0 {
                        let k = t - n0;
                        let e = edges[k];
                        let made = old(self)@.fan_of(p)[k];
                        Triangle::lemma_make(
                            e.0,
                            e.1,
                            old(self).positions().len() as usize,
                            circumcircle_of(
                                old(self).positions()[e.0 as int],
                                old(self).positions()[e.1 as int],
                                p,
                            ),
                        );
                        assert(self.slots()[n0 + k].corner(0) == e.0);
                        assert(self@.slot_ok(t));
                        self@.slots[t].lemma_determined(made);
                    }
                }
            }
            if old(self)@.closed() {
                old(self).lemma_sizes();
                lemma_insert_closed(old(self)@, p);
            }
            assert(created@ =~= old(self)@.created_by(p)) by {
                assert forall|k: int| 0 <= k < created@.len() implies created@[k] == old(
                    self,
                )@.created_by(p)[k] by {
                    assert(created@[k].index() == n0 + k);
                }
            }
        }
        Ok(Roi { triangles: created, removed: bad })
    }
}

impl DelaunayMesh {
    /// The numbers of vertices and of triangle slots are machine numbers.
    pub proof fn lemma_sizes(&self)
        ensures
            self@.positions.len() <= usize::MAX,
            self@.slots.len() <= usize::MAX,
    {
        self.triangles.lemma_len_bounded();
        self.vertices.lemma_len_bounded();
    }

    /// Two live triangles that share an edge walk it in opposite
    /// directions: where a side of one has the end points of a side of the
    /// other, it is that side reversed.
    pub proof fn lemma_shared_edge_opposite(&self, t: int, u: int, i: int, j: int)
        requires
            self.wf(),
            self.live_at(t),
            self.live_at(u),
            t != u,
            0 <= i < 3,
            0 <= j < 3,
            self.slots()[t].edge(i) == self.slots()[u].edge(j) || self.slots()[t].edge(i) == (
                self.slots()[u].edge(j).1,
                self.slots()[u].edge(j).0,
            ),
        ensures
            self.slots()[t].edge(i).0 == self.slots()[u].edge(j).1,
            self.slots()[t].edge(i).1 == self.slots()[u].edge(j).0,
    {
    }

    /// The padded box of the mesh.
    pub fn bbox(&self) -> (b: Bbox)
        ensures
            b == self.bounds(),
    {
        self.bounds
    }

    /// Number of vertices, the four corners of the padded box included.
    pub fn vertex_count(&self) -> (n: usize)
        ensures
            n == self.positions().len(),
    {
        self.vertices.len()
    }

    /// Number of triangle slots, those of removed triangles included.
    pub fn slot_count(&self) -> (n: usize)
        ensures
            n == self.slots().len(),
    {
        self.triangles.len()
    }

    /// Whether a vertex of the mesh lies at `p`.
    pub fn has_vertex_at(&self, p: Vec2) -> (b: bool)
        ensures
            b == self@.positions.contains(p),
    {
        let n = self.vertices.len();
        let mut i: usize = 0;
        while i < n
            invariant
                i <= n,
                n == self@.positions.len(),
                forall|j: int| 0 <= j < i ==> self@.positions[j] != p,
            decreases n - i,
        {
            let at = self.vertices[ArenaId::new(i)].position;
            assert(at == self@.positions[i as int]);
            if at.x == p.x && at.y == p.y {
                return true;
            }
            i += 1;
        }
        false
    }

    /// The position of the vertex `id`, or `None` where the mesh has no
    /// such vertex.
    pub fn vertex(&self, id: ArenaId<Vertex>) -> (p: Option<Vec2>)
        ensures
            id.index() < self.positions().len() ==> p == Some(self.positions()[id.index() as int]),
            id.index() >= self.positions().len() ==> p is None,
    {
        match self.vertices.get(id) {
            Some(v) => Some(v.position),
            None => None,
        }
    }

    /// The triangle `id`, or `None` where the mesh has no such triangle or
    /// has removed it.
    pub fn triangle(&self, id: ArenaId<Triangle>) -> (tri: Option<&Triangle>)
        ensures
            self.live_at(id.index() as int) ==> tri == Some(&self.slots()[id.index() as int]),
            !self.live_at(id.index() as int) ==> tri is None,
    {
        match self.triangles.get(id) {
            Some(t) => if t.live {
                Some(t)
            } else {
                None
            },
            None => None,
        }
    }

    /// Whether `id` names a triangle of the triangulation.
    pub fn contains_triangle(&self, id: ArenaId<Triangle>) -> (b: bool)
        ensures
            b == self.live_at(id.index() as int),
    {
        self.triangle(id).is_some()
    }

    /// Whether a corner of the live triangle `tri` is one of the four
    /// corners of the padded box, which no point that was inserted is: such a
    /// triangle reaches into the padding.
    pub fn touches_padding(&self, tri: ArenaId<Triangle>) -> (b: bool)
        requires
            self.live_at(tri.index() as int),
        ensures
            b == (self.slots()[tri.index() as int].corner(0) < 4 || self.slots()[tri.index() as int].corner(
                1,
            ) < 4 || self.slots()[tri.index() as int].corner(2) < 4),
    {
        let t = &self.triangles[tri];
        t.vertices[0].position() < 4 || t.vertices[1].position() < 4 || t.vertices[2].position()
            < 4
    }

    /// The positions of the three corners of the live triangle `tri`.
    pub fn triangle_vertices(&self, tri: ArenaId<Triangle>) -> (corners: [Vec2; 3])
        requires
            self.wf(),
            self.live_at(tri.index() as int),
        ensures
            corners@ == self@.corners(tri.index() as int),
    {
        let t = &self.triangles[tri];
        assert(self@.slot_ok(tri.index() as int));
        let a = self.vertices[t.vertices[0]].position;
        let b = self.vertices[t.vertices[1]].position;
        let c = self.vertices[t.vertices[2]].position;
        let corners = [a, b, c];
        assert(corners@ =~= self@.corners(tri.index() as int));
        corners
    }

    /// The triangles of the triangulation, in the order of their creation.
    pub fn triangles(&self) -> (ids: Vec<ArenaId<Triangle>>)
        ensures
            ids@ == self@.live_ids(),
            forall|k: int| 0 <= k < ids@.len() ==> self.live_at((#[trigger] ids@[k]).index() as int),
    {
        let mut ids: Vec<ArenaId<Triangle>> = Vec::new();
        let n = self.triangles.len();
        let ghost all = Seq::new(self@.slots.len(), |t: int| ArenaId::<Triangle>::at(t as usize));
        let mut t: usize = 0;
        proof {
            reveal(Seq::filter);
            assert(all.take(0) =~= Seq::<ArenaId<Triangle>>::empty());
        }
        while t < n
            invariant
                t <= n,
                n == self@.slots.len(),
                all == Seq::new(self@.slots.len(), |t: int| ArenaId::<Triangle>::at(t as usize)),
                ids@ == all.take(t as int).filter(self@.is_live_id()),
            decreases n - t,
        {
            let id: ArenaId<Triangle> = ArenaId::new(t);
            proof {
                reveal(Seq::filter);
                let next = all.take(t + 1);
                assert(next.drop_last() =~= all.take(t as int));
                assert(next.last() == id);
            }
            if self.contains_triangle(id) {
                ids.push(id);
            }
            t += 1;
        }
        proof {
            assert(all.take(n as int) =~= all);
            assert forall|k: int| 0 <= k < ids@.len() implies self.live_at(
                (#[trigger] ids@[k]).index() as int,
            ) by {
                all.lemma_filter_pred(self@.is_live_id(), k);
            }
        }
        ids
    }
}

/// A fresh mesh has no gap.
pub proof fn lemma_fresh_closed(bbox: Bbox)
    ensures
        MeshView::fresh(bbox).closed(),
{
    let mesh = MeshView::fresh(bbox);
    let bounds = DelaunayMesh::padded(bbox);
    let p0 = bounds.lo();
    let p1 = Vec2 { x: bounds.hi().x, y: bounds.lo().y };
    let p2 = bounds.hi();
    let p3 = Vec2 { x: bounds.lo().x, y: bounds.hi().y };
    Triangle::lemma_make(0, 1, 2, circumcircle_of(p0, p1, p2));
    Triangle::lemma_make(2, 3, 0, circumcircle_of(p2, p3, p0));
    assert forall|t: int, i: int| mesh.live_at(t) && 0 <= i < 3 implies is_hull(
        #[trigger] mesh.slots[t].edge(i),
    ) || mesh.walked(reversed(mesh.slots[t].edge(i))) by {
        if t == 0 && i == 2 {
            assert(mesh.live_at(1) && mesh.slots[1].has_edge((0usize, 2usize)));
        }
        if t == 1 && i == 2 {
            assert(mesh.live_at(0) && mesh.slots[0].has_edge((2usize, 0usize)));
        }
    }
}

/// The triangle that an insertion makes over edge `k` of the border of the
/// cavity: it is live, and walks the edge and then to the new vertex and
/// back.
pub proof fn lemma_fan_triangle(mesh: MeshView, p: Vec2, k: int)
    requires
        0 <= k < mesh.cavity_border(p).len(),
        mesh.positions.len() <= usize::MAX,
    ensures
        mesh.after_insert(p).live_at(mesh.slots.len() + k),
        mesh.after_insert(p).slots[mesh.slots.len() + k].edge(0) == mesh.cavity_border(p)[k],
        mesh.after_insert(p).slots[mesh.slots.len() + k].edge(1) == (
            mesh.cavity_border(p)[k].1,
            mesh.positions.len() as usize,
        ),
        mesh.after_insert(p).slots[mesh.slots.len() + k].edge(2) == (
            mesh.positions.len() as usize,
            mesh.cavity_border(p)[k].0,
        ),
{
    let border = mesh.cavity_border(p);
    let after = mesh.after_insert(p);
    assert(after.slots[mesh.slots.len() + k] == mesh.fan_of(p)[k]);
    Triangle::lemma_make(
        border[k].0,
        border[k].1,
        mesh.positions.len() as usize,
        circumcircle_of(
            mesh.positions[border[k].0 as int],
            mesh.positions[border[k].1 as int],
            p,
        ),
    );
}

/// A triangle that an insertion leaves in place is live after it, with the
/// sides it had.
proof fn lemma_survivor(mesh: MeshView, p: Vec2, t: int)
    requires
        mesh.live_at(t),
        !hits(mesh.cavity(p), t),
    ensures
        mesh.after_insert(p).live_at(t),
        mesh.after_insert(p).slots[t] == mesh.slots[t],
{
}

/// A side of the cavity whose reverse is no side of the cavity is an edge
/// of the border: the result is its place there.
proof fn lemma_border_member(mesh: MeshView, p: Vec2, e: (usize, usize)) -> (k: int)
    requires
        sides_of(mesh.slots, mesh.cavity(p)).contains(e),
        !sides_of(mesh.slots, mesh.cavity(p)).contains(reversed(e)),
    ensures
        0 <= k < mesh.cavity_border(p).len(),
        mesh.cavity_border(p)[k] == e,
{
    let sides = sides_of(mesh.slots, mesh.cavity(p));
    let i = choose|i: int| 0 <= i < sides.len() && sides[i] == e;
    sides.lemma_filter_contains(reverse_absent(sides), i);
    choose|k: int| 0 <= k < mesh.cavity_border(p).len() && mesh.cavity_border(p)[k] == e
}

/// The insertion of a point into a mesh without a gap leaves no gap.
pub proof fn lemma_insert_closed(mesh: MeshView, p: Vec2)
    requires
        mesh.wf(),
        mesh.closed(),
        mesh.admits(p),
        mesh.positions.len() <= usize::MAX,
    ensures
        mesh.after_insert(p).closed(),
{
    let after = mesh.after_insert(p);
    let n0 = mesh.slots.len() as int;
    let border = mesh.cavity_border(p);
    let cavity = mesh.cavity(p);
    let sides = sides_of(mesh.slots, cavity);
    let vp = mesh.positions.len() as usize;
    assert forall|t: int, i: int| after.live_at(t) && 0 <= i < 3 implies is_hull(
        #[trigger] after.slots[t].edge(i),
    ) || after.walked(reversed(after.slots[t].edge(i))) by {
        let e = after.slots[t].edge(i);
        if t < n0 {
            assert(after.slots[t] == retire_all(mesh.slots, cavity)[t]);
            if hits(cavity, t) {
                mesh.slots[t].lemma_retired();
            }
            assert(mesh.live_at(t) && after.slots[t] == mesh.slots[t]);
            assert(is_hull(mesh.slots[t].edge(i)) || mesh.walked(reversed(mesh.slots[t].edge(i))));
            if !is_hull(e) {
                let u = choose|u: int|
                    mesh.live_at(u) && (#[trigger] mesh.slots[u]).has_edge(reversed(e));
                if hits(cavity, u) {
                    let c = choose|c: int| 0 <= c < cavity.len() && (#[trigger] cavity[c]).index() == u;
                    lemma_sides(mesh.slots, cavity, reversed(e));
                    assert(mesh.slots[cavity[c].index() as int].has_edge(reversed(e)));
                    assert(sides.contains(reversed(e)));
                    if sides.contains(e) {
                        lemma_sides(mesh.slots, cavity, e);
                        let d = choose|d: int|
                            0 <= d < cavity.len() && (#[trigger] mesh.slots[cavity[d].index() as int]).has_edge(
                                e,
                            );
                        let x = cavity[d].index() as int;
                        lemma_cavity_is_live(mesh, p, d);
                        assert(hits(cavity, x));
                        lemma_no_shared_side(mesh, t, x, e);
                    }
                    let k = lemma_border_member(mesh, p, reversed(e));
                    lemma_fan_triangle(mesh, p, k);
                    assert(after.slots[n0 + k].has_edge(reversed(e)));
                } else {
                    lemma_survivor(mesh, p, u);
                    assert(after.slots[u].has_edge(reversed(e)));
                }
            }
        } else {
            let k = t - n0;
            lemma_fan_triangle(mesh, p, k);
            let a = border[k].0;
            let b = border[k].1;
            if i == 0 {
                assert(e == (a, b));
                assert(border.contains(border[k]));
                sides.lemma_filter_contains_rev(reverse_absent(sides), border[k]);
                sides.lemma_filter_pred(reverse_absent(sides), k);
                assert(!sides.contains(reversed(e)));
                lemma_sides(mesh.slots, cavity, e);
                let d = choose|d: int|
                    0 <= d < cavity.len() && (#[trigger] mesh.slots[cavity[d].index() as int]).has_edge(
                        e,
                    );
                let x = cavity[d].index() as int;
                lemma_cavity_is_live(mesh, p, d);
                let j: int = if mesh.slots[x].edge(0) == e {
                    0
                } else if mesh.slots[x].edge(1) == e {
                    1
                } else {
                    2
                };
                assert(is_hull(mesh.slots[x].edge(j)) || mesh.walked(reversed(mesh.slots[x].edge(j))));
                if !is_hull(e) {
                    let u = choose|u: int|
                        mesh.live_at(u) && (#[trigger] mesh.slots[u]).has_edge(reversed(e));
                    if hits(cavity, u) {
                        let c = choose|c: int|
                            0 <= c < cavity.len() && (#[trigger] cavity[c]).index() == u;
                        lemma_sides(mesh.slots, cavity, reversed(e));
                        assert(mesh.slots[cavity[c].index() as int].has_edge(reversed(e)));
                    }
                    lemma_survivor(mesh, p, u);
                    assert(after.slots[u].has_edge(reversed(e)));
                }
            } else if i == 1 {
                assert(e == (b, vp));
                assert(starts(border).contains(ends(border)[k]));
                let m = choose|m: int| 0 <= m < border.len() && starts(border)[m] == b;
                lemma_fan_triangle(mesh, p, m);
                assert(after.slots[n0 + m].has_edge(reversed(e)));
            } else {
                assert(e == (vp, a));
                assert(ends(border).contains(starts(border)[k]));
                let m = choose|m: int| 0 <= m < border.len() && ends(border)[m] == a;
                lemma_fan_triangle(mesh, p, m);
                assert(after.slots[n0 + m].has_edge(reversed(e)));
            }
        }
    }
}

/// Every triangle of the cavity is a live triangle whose circumcircle holds
/// the point.
pub proof fn lemma_cavity_is_live(mesh: MeshView, p: Vec2, i: int)
    requires
        0 <= i < mesh.cavity(p).len(),
    ensures
        mesh.live_at(mesh.cavity(p)[i].index() as int),
        mesh.holds(mesh.cavity(p)[i], p),
{
    let visited = mesh.index.visited(p);
    visited.lemma_filter_pred(keeps(mesh.holding(p)), i);
}

/// Live triangles of a well-formed mesh that walk the same edge are one
/// triangle.
proof fn lemma_no_shared_side(mesh: MeshView, t: int, u: int, e: (usize, usize))
    requires
        mesh.wf(),
        mesh.live_at(t),
        mesh.live_at(u),
        mesh.slots[t].has_edge(e),
        mesh.slots[u].has_edge(e),
    ensures
        t == u,
{
    if t != u {
        let a = mesh.slots[t];
        let b = mesh.slots[u];
        assert(a.edge(0) != b.edge(0) && a.edge(0) != b.edge(1) && a.edge(0) != b.edge(2));
        assert(a.edge(1) != b.edge(0) && a.edge(1) != b.edge(1) && a.edge(1) != b.edge(2));
        assert(a.edge(2) != b.edge(0) && a.edge(2) != b.edge(1) && a.edge(2) != b.edge(2));
    }
}

} // verus!
