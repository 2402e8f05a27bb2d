//! Greedy approximation of a height field by a triangle mesh: points are
//! inserted into a Delaunay mesh where the mesh lies farthest below the
//! field, until a vertex budget is spent or the field lies above no triangle.

use crate::arena::ArenaId;
use crate::arith::{abs, lemma_mul_bound, Ratio};
use crate::geo::{
    lemma_inside_box, lemma_orient_range, orient, spec_inside, spec_orient, BarycentricCoords,
    Bbox, Vec2, COORD_LIMIT,
};
use crate::mesh::{
    hits, lemma_fan_triangle, retire_all, DelaunayMesh, InsertError, MeshView, Triangle,
};
use vstd::prelude::*;

verus! {

broadcast use Bbox::lemma_with_corners;

/// A grid of heights: `width()` times `height()` cells, each with a height
/// in fixed-point units of the implementor's choice.
pub trait Heightfield {
    /// Number of columns.
    spec fn spec_width(&self) -> u32;

    /// Number of rows.
    spec fn spec_height(&self) -> u32;

    /// Height of the cell in column `x` and row `y`.
    spec fn spec_height_at(&self, x: u32, y: u32) -> i32;

    /// Number of columns.
    fn width(&self) -> (w: u32)
        ensures
            w == self.spec_width(),
    ;

    /// Number of rows.
    fn height(&self) -> (h: u32)
        ensures
            h == self.spec_height(),
    ;

    /// Height of the cell in column `x` and row `y`, which the grid must
    /// have.
    fn height_at(&self, x: u32, y: u32) -> (z: i32)
        requires
            x < self.spec_width(),
            y < self.spec_height(),
        ensures
            z == self.spec_height_at(x, y),
    ;
}

/// Whether `p` is a cell of the grid.
pub open spec fn on_grid<F: Heightfield>(field: &F, p: Vec2) -> bool {
    0 <= p.x < field.spec_width() && 0 <= p.y < field.spec_height()
}

/// Height of the field at the cell `p`.
pub open spec fn level<F: Heightfield>(field: &F, p: Vec2) -> int {
    field.spec_height_at(p.x as u32, p.y as u32) as int
}

/// How far the field at `p` lies above the triangle `v`, whose heights at
/// the corners are those of the field: the numerator of that difference over
/// twice the area of the triangle.
pub open spec fn error_num<F: Heightfield>(field: &F, v: Seq<Vec2>, p: Vec2) -> int {
    level(field, p) * abs(spec_orient(v[0], v[1], v[2])) - (abs(spec_orient(p, v[1], v[2])) * level(
        field,
        v[0],
    ) + abs(spec_orient(v[0], p, v[2])) * level(field, v[1]) + abs(spec_orient(v[0], v[1], p))
        * level(field, v[2]))
}

/// Whether a scan by rows from the lowest row, each row from its lowest
/// column, meets `c` before `p`.
pub open spec fn before(c: Vec2, p: Vec2) -> bool {
    c.y < p.y || (c.y == p.y && c.x < p.x)
}

/// Whether the three corners `v` are cells of the grid.
pub open spec fn scannable<F: Heightfield>(field: &F, v: Seq<Vec2>) -> bool {
    on_grid(field, v[0]) && on_grid(field, v[1]) && on_grid(field, v[2])
}

/// Whether the triangle `v` can be scored: its corners are cells of the
/// grid and do not lie on one line. Its corners are then cells of it.
pub open spec fn scorable<F: Heightfield>(field: &F, v: Seq<Vec2>) -> bool {
    scannable(field, v) && spec_orient(v[0], v[1], v[2]) != 0
}

/// Whether `p` is the best candidate of the triangle `v`: a cell of the
/// triangle above which the field lies higher than above every cell that a
/// scan meets earlier, and at least as high as above every other cell. The
/// error there is not negative, as it is zero at the corners.
pub open spec fn is_best<F: Heightfield>(field: &F, v: Seq<Vec2>, p: Vec2) -> bool {
    &&& spec_inside(v, p)
    &&& forall|c: Vec2| #[trigger]
        spec_inside(v, c) ==> error_num(field, v, c) <= error_num(field, v, p) && (before(c, p)
            ==> error_num(field, v, c) < error_num(field, v, p))
}

/// Whether the field lies above the triangle `v` nowhere.
pub open spec fn fits<F: Heightfield>(field: &F, v: Seq<Vec2>) -> bool {
    forall|c: Vec2| #[trigger] spec_inside(v, c) ==> error_num(field, v, c) <= 0
}

/// The cells of the rows below `y`, and of row `y` those of the columns
/// below `x`, as far as `bbox` holds them.
pub open spec fn scanned(bbox: Bbox, c: Vec2, y: int, x: int) -> bool {
    bbox.spec_contains(c) && (c.y < y || (c.y == y && c.x < x))
}

/// What a scan knows when it has met the cells of `bbox` up to row `y` and
/// column `x`: `best` is the best of them.
pub open spec fn best_so_far<F: Heightfield>(
    field: &F,
    v: Seq<Vec2>,
    bbox: Bbox,
    best: Option<(Vec2, i128)>,
    y: int,
    x: int,
) -> bool {
    match best {
        None => forall|c: Vec2| !(#[trigger] spec_inside(v, c) && scanned(bbox, c, y, x)),
        Some((p, e)) => {
            &&& spec_inside(v, p)
            &&& scanned(bbox, p, y, x)
            &&& e == error_num(field, v, p)
            &&& forall|c: Vec2| #[trigger]
                spec_inside(v, c) && scanned(bbox, c, y, x) ==> error_num(field, v, c) <= e && (
                before(c, p) ==> error_num(field, v, c) < e)
        },
    }
}

/// What a scan knows of the cells: `best` is the best candidate among the
/// cells of `bbox` up to row `y` and column `x`, or `None` where none of
/// them is a cell of the triangle.
pub open spec fn scan_best<F: Heightfield>(
    field: &F,
    v: Seq<Vec2>,
    bbox: Bbox,
    best: Option<Vec2>,
    y: int,
    x: int,
) -> bool {
    match best {
        None => forall|c: Vec2| !(#[trigger] spec_inside(v, c) && scanned(bbox, c, y, x)),
        Some(p) => {
            &&& spec_inside(v, p)
            &&& scanned(bbox, p, y, x)
            &&& forall|c: Vec2| #[trigger]
                spec_inside(v, c) && scanned(bbox, c, y, x) ==> error_num(field, v, c)
                    <= error_num(field, v, p) && (before(c, p) ==> error_num(field, v, c)
                    < error_num(field, v, p))
        },
    }
}

/// The best candidate among the cells of `bbox` up to row `y` and column
/// `x`.
proof fn lemma_scan<F: Heightfield>(field: &F, v: Seq<Vec2>, bbox: Bbox, y: int, x: int) -> (best:
    Option<Vec2>)
    requires
        bbox.wf(),
        bbox.lo().y <= y <= bbox.hi().y + 1,
        bbox.lo().x <= x <= bbox.hi().x + 1,
        x == bbox.lo().x || y <= bbox.hi().y,
    ensures
        scan_best(field, v, bbox, best, y, x),
    decreases y - bbox.lo().y, x - bbox.lo().x,
{
    if x > bbox.lo().x {
        let prev = lemma_scan(field, v, bbox, y, x - 1);
        let p = Vec2 { x: (x - 1) as i64, y: y as i64 };
        assert forall|c: Vec2| #[trigger] spec_inside(v, c) && scanned(bbox, c, y, x) implies scanned(
            bbox,
            c,
            y,
            x - 1,
        ) || c == p by {}
        if spec_inside(v, p) {
            assert(scanned(bbox, p, y, x));
            match prev {
                None => Some(p),
                Some(q) => if error_num(field, v, p) > error_num(field, v, q) {
                    Some(p)
                } else {
                    Some(q)
                },
            }
        } else {
            prev
        }
    } else if y > bbox.lo().y {
        let prev = lemma_scan(field, v, bbox, y - 1, bbox.hi().x + 1);
        assert forall|c: Vec2| #[trigger] spec_inside(v, c) && scanned(bbox, c, y, x) implies scanned(
            bbox,
            c,
            y - 1,
            bbox.hi().x + 1,
        ) by {}
        prev
    } else {
        None
    }
}

/// A triangle that can be scored has a best candidate.
pub proof fn lemma_best_exists<F: Heightfield>(field: &F, v: Seq<Vec2>)
    requires
        scorable(field, v),
    ensures
        exists|p: Vec2| is_best(field, v, p),
        best_of(field, v) is Some,
        is_best(field, v, best_of(field, v)->0),
{
    let cells = Bbox::with_corners(
        Vec2 { x: 0, y: 0 },
        Vec2 { x: (field.spec_width() - 1) as i64, y: (field.spec_height() - 1) as i64 },
    );
    let best = lemma_scan(field, v, cells, cells.hi().y + 1, cells.lo().x as int);
    lemma_corner_inside(v);
    assert(scanned(cells, v[0], cells.hi().y + 1, cells.lo().x as int));
    let p = best->0;
    assert forall|c: Vec2| #[trigger] spec_inside(v, c) implies error_num(field, v, c) <= error_num(
        field,
        v,
        p,
    ) && (before(c, p) ==> error_num(field, v, c) < error_num(field, v, p)) by {
        lemma_inside_box(v, c, cells);
        assert(scanned(cells, c, cells.hi().y + 1, cells.lo().x as int));
    }
    assert(is_best(field, v, p));
}

/// The error at a cell of a triangle of the coordinate range fits the
/// numerator of a fraction.
pub proof fn lemma_error_range<F: Heightfield>(field: &F, v: Seq<Vec2>, p: Vec2)
    requires
        v[0].in_range(),
        v[1].in_range(),
        v[2].in_range(),
        spec_inside(v, p),
    ensures
        -0x4000_0000_0000_0000_0000 <= error_num(field, v, p) <= 0x4000_0000_0000_0000_0000,
        0 < abs(spec_orient(v[0], v[1], v[2])) <= 0x800_0000_0000,
{
    let range = Bbox::with_corners(
        Vec2 { x: (-COORD_LIMIT) as i64, y: (-COORD_LIMIT) as i64 },
        Vec2 { x: COORD_LIMIT, y: COORD_LIMIT },
    );
    lemma_inside_box(v, p, range);
    lemma_orient_range(v[0], v[1], v[2]);
    lemma_orient_range(p, v[1], v[2]);
    lemma_orient_range(v[0], p, v[2]);
    lemma_orient_range(v[0], v[1], p);
    let k = abs(spec_orient(v[0], v[1], v[2]));
    let s0 = abs(spec_orient(p, v[1], v[2]));
    let s1 = abs(spec_orient(v[0], p, v[2]));
    let s2 = abs(spec_orient(v[0], v[1], p));
    lemma_mul_bound(level(field, p), k, 0x8000_0000, 0x800_0000_0000);
    lemma_mul_bound(s0, level(field, v[0]), 0x800_0000_0000, 0x8000_0000);
    lemma_mul_bound(s1, level(field, v[1]), 0x800_0000_0000, 0x8000_0000);
    lemma_mul_bound(s2, level(field, v[2]), 0x800_0000_0000, 0x8000_0000);
}

/// The best candidate of the triangle `vertices`: the cell of the triangle
/// where the field lies highest above the triangle whose heights at the
/// corners are those of the field, the first such cell of a scan by rows
/// where there are several, with that difference, which may be zero. `None`
/// where a corner is no cell of the grid, so that its height is not known,
/// or the corners lie on one line, so that the triangle holds no cell.
pub fn find_best_candidate(heightfield: &impl Heightfield, vertices: [Vec2; 3]) -> (best: Option<
    (Vec2, Ratio),
>)
    requires
        vertices@[0].in_range(),
        vertices@[1].in_range(),
        vertices@[2].in_range(),
    ensures
        best matches Some((p, err)) ==> {
            &&& scannable(heightfield, vertices@)
            &&& is_best(heightfield, vertices@, p)
            &&& err.numer() == error_num(heightfield, vertices@, p)
            &&& err.denom() == abs(spec_orient(vertices@[0], vertices@[1], vertices@[2]))
            &&& err.wf()
        },
        best is None <==> !scorable(heightfield, vertices@),
{
    let a = vertices[0];
    let b = vertices[1];
    let c = vertices[2];
    let w = heightfield.width();
    let h = heightfield.height();
    if !(cell_of(a, w, h) && cell_of(b, w, h) && cell_of(c, w, h)) {
        return None;
    }
    let k: i128 = orient(a, b, c);
    if k == 0 {
        return None;
    }
    proof {
        lemma_orient_range(a, b, c);
    }
    let den: i128 = if k > 0 { k } else { -k };
    let mut bbox = Bbox::new(a);
    bbox.expand(b);
    bbox.expand(c);
    let lo = bbox.min();
    let hi = bbox.max();
    let ha = heightfield.height_at(a.x as u32, a.y as u32);
    let hb = heightfield.height_at(b.x as u32, b.y as u32);
    let hc = heightfield.height_at(c.x as u32, c.y as u32);
    let mut best: Option<(Vec2, i128)> = None;
    let mut y: i64 = lo.y;
    while y <= hi.y
        invariant
            lo.y <= y <= hi.y + 1,
            lo == bbox.lo(),
            hi == bbox.hi(),
            bbox.wf(),
            bbox.spec_contains(a),
            bbox.spec_contains(b),
            bbox.spec_contains(c),
            0 <= lo.x && hi.x < w && 0 <= lo.y && hi.y < h,
            hi.x <= COORD_LIMIT && hi.y <= COORD_LIMIT,
            w == heightfield.spec_width(),
            h == heightfield.spec_height(),
            vertices@[0] == a && vertices@[1] == b && vertices@[2] == c,
            a.in_range() && b.in_range() && c.in_range(),
            ha == level(heightfield, a),
            hb == level(heightfield, b),
            hc == level(heightfield, c),
            den == abs(spec_orient(a, b, c)),
            0 < den <= 0x800_0000_0000,
            best_so_far(heightfield, vertices@, bbox, best, y as int, lo.x as int),
            best matches Some((_, top)) ==> -0x4000_0000_0000_0000_0000 <= top
                <= 0x4000_0000_0000_0000_0000,
        decreases hi.y + 1 - y,
    {
        let mut x: i64 = lo.x;
        while x <= hi.x
            invariant
                lo.x <= x <= hi.x + 1,
                lo.y <= y <= hi.y,
                lo == bbox.lo(),
                hi == bbox.hi(),
                bbox.wf(),
                0 <= lo.x && hi.x < w && 0 <= lo.y && hi.y < h,
                hi.x <= COORD_LIMIT && hi.y <= COORD_LIMIT,
                w == heightfield.spec_width(),
                h == heightfield.spec_height(),
                vertices@[0] == a && vertices@[1] == b && vertices@[2] == c,
                a.in_range() && b.in_range() && c.in_range(),
                ha == level(heightfield, a),
                hb == level(heightfield, b),
                hc == level(heightfield, c),
                den == abs(spec_orient(a, b, c)),
                0 < den <= 0x800_0000_0000,
                best_so_far(heightfield, vertices@, bbox, best, y as int, x as int),
                best matches Some((_, top)) ==> -0x4000_0000_0000_0000_0000 <= top
                    <= 0x4000_0000_0000_0000_0000,
            decreases hi.x + 1 - x,
        {
            let p = Vec2::new(x, y);
            let ghost known = best;
            match BarycentricCoords::triangle(vertices, p) {
                Some(coords) => {
                    let mix = coords.interpolate([ha, hb, hc]);
                    let hp = heightfield.height_at(x as u32, y as u32);
                    proof {
                        lemma_mul_bound(hp as int, den as int, 0x8000_0000, 0x800_0000_0000);
                    }
                    let e: i128 = (hp as i128) * den - mix.numerator();
                    assert(e == error_num(heightfield, vertices@, p));
                    let better = match best {
                        None => true,
                        Some((_, top)) => e > top,
                    };
                    if better {
                        best = Some((p, e));
                    }
                },
                None => {},
            }
            proof {
                assert forall|q: Vec2| #[trigger]
                    spec_inside(vertices@, q) && scanned(
                        bbox,
                        q,
                        y as int,
                        x + 1,
                    ) implies scanned(bbox, q, y as int, x as int) || q == p by {}
                assert(best_so_far(heightfield, vertices@, bbox, best, y as int, x + 1));
            }
            x += 1;
        }
        proof {
            assert forall|q: Vec2| #[trigger]
                spec_inside(vertices@, q) && scanned(
                    bbox,
                    q,
                    y + 1,
                    lo.x as int,
                ) implies scanned(bbox, q, y as int, hi.x + 1) by {}
            assert(best_so_far(heightfield, vertices@, bbox, best, y + 1, lo.x as int));
        }
        y += 1;
    }
    proof {
        assert forall|q: Vec2| #[trigger] spec_inside(vertices@, q) implies scanned(
            bbox,
            q,
            hi.y + 1,
            lo.x as int,
        ) by {
            lemma_inside_box(vertices@, q, bbox);
        }
        lemma_corner_inside(vertices@);
        assert(spec_inside(vertices@, a) && scanned(bbox, a, hi.y + 1, lo.x as int));
    }
    match best {
        None => None,
        Some((p, e)) => {
            proof {
                lemma_inside_box(vertices@, p, bbox);
            }
            Some((p, Ratio::new(e, den)))
        },
    }
}

/// The first corner of a triangle with an area is a cell of the triangle.
pub proof fn lemma_corner_inside(v: Seq<Vec2>)
    requires
        spec_orient(v[0], v[1], v[2]) != 0,
    ensures
        spec_inside(v, v[0]),
{
    let cx = v[2].x - v[0].x;
    let cy = v[2].y - v[0].y;
    let bx = v[1].x - v[0].x;
    let by = v[1].y - v[0].y;
    assert(0 * cy - 0 * cx == 0);
    assert(bx * 0 - by * 0 == 0);
    assert(spec_orient(v[0], v[0], v[2]) == 0) by (nonlinear_arith)
        requires
            spec_orient(v[0], v[0], v[2]) == (v[0].x - v[0].x) * cy - (v[0].y - v[0].y) * cx,
    ;
    assert(spec_orient(v[0], v[1], v[0]) == 0) by (nonlinear_arith)
        requires
            spec_orient(v[0], v[1], v[0]) == bx * (v[0].y - v[0].y) - by * (v[0].x - v[0].x),
    ;
}

/// Whether `p` is a cell of a grid of `w` columns and `h` rows.
fn cell_of(p: Vec2, w: u32, h: u32) -> (b: bool)
    ensures
        b == (0 <= p.x < w && 0 <= p.y < h),
{
    0 <= p.x && p.x < w as i64 && 0 <= p.y && p.y < h as i64
}

/// A point that may be inserted next: the best candidate of a triangle.
#[derive(Debug, Clone, Copy)]
pub struct Candidate {
    /// The triangle whose best candidate this is.
    pub tri: ArenaId<Triangle>,
    /// The cell.
    pub point: Vec2,
    /// How far the field lies above the triangle at the cell.
    pub error: Ratio,
}

/// Why a height field was not approximated.
#[derive(Debug, Clone, Copy, PartialEq, Eq, Structural)]
pub enum ScapeError {
    /// The grid has no cell.
    EmptyField,
    /// The grid, padded, does not fit the coordinate range.
    TooLarge,
    /// The mesh refused a point.
    Insert(InsertError),
    /// The mesh is no triangulation of the plane any more: a candidate lies
    /// at a vertex of the mesh, which then lies in a triangle that it is no
    /// corner of, or the insertion of a candidate left the candidate's
    /// triangle in place.
    Drift,
}

/// The state of a refinement: the mesh and the candidates of its triangles.
pub struct ScapeView {
    pub mesh: MeshView,
    pub candidates: Seq<Candidate>,
}

/// The best candidate of the triangle `v`.
pub open spec fn best_of<F: Heightfield>(field: &F, v: Seq<Vec2>) -> Option<Vec2> {
    if scannable(field, v) && exists|p: Vec2| is_best(field, v, p) {
        Some(choose|p: Vec2| is_best(field, v, p))
    } else {
        None
    }
}

/// The candidate of the triangle `id` of `mesh`.
pub open spec fn candidate_of<F: Heightfield>(
    field: &F,
    mesh: MeshView,
    id: ArenaId<Triangle>,
) -> Option<Candidate> {
    let v = mesh.corners(id.index() as int);
    match best_of(field, v) {
        Some(p) => Some(
            Candidate {
                tri: id,
                point: p,
                error: Ratio::of(error_num(field, v, p), abs(spec_orient(v[0], v[1], v[2]))),
            },
        ),
        None => None,
    }
}

/// The candidates of the triangles `ids` of `mesh`, in the order of `ids`.
pub open spec fn candidates_among<F: Heightfield>(
    field: &F,
    mesh: MeshView,
    ids: Seq<ArenaId<Triangle>>,
) -> Seq<Candidate>
    decreases ids.len(),
{
    if ids.len() == 0 {
        Seq::empty()
    } else {
        let rest = candidates_among(field, mesh, ids.drop_last());
        match candidate_of(field, mesh, ids.last()) {
            Some(c) => rest.push(c),
            None => rest,
        }
    }
}

/// The place of the candidate with the greatest error, the first of them
/// where there are several.
pub open spec fn first_max(c: Seq<Candidate>) -> int
    decreases c.len(),
{
    if c.len() <= 1 {
        0
    } else {
        let k = first_max(c.drop_last());
        if c.last().error.spec_exceeds(c[k].error) {
            c.len() - 1
        } else {
            k
        }
    }
}

/// The candidates whose triangle is none of `dropped`.
pub open spec fn survives(dropped: Seq<ArenaId<Triangle>>) -> spec_fn(Candidate) -> bool {
    |c: Candidate| !hits(dropped, c.tri.index() as int)
}

/// One round of refinement on a state with a candidate whose error is
/// above zero: the candidate with the greatest error leaves the collection, its point is inserted, the
/// candidates of the triangles that the insertion removed are dropped, and
/// the candidates of the triangles that it created follow the rest. The
/// round fails where the point is a vertex of the mesh already, the mesh
/// refuses the point, or the insertion leaves the candidate's triangle in
/// place.
pub open spec fn step<F: Heightfield>(field: &F, s: ScapeView) -> Result<ScapeView, ScapeError> {
    let k = first_max(s.candidates);
    let c = s.candidates[k];
    if s.mesh.positions.contains(c.point) {
        Err(ScapeError::Drift)
    } else {
        match s.mesh.refusal(c.point) {
            Some(e) => Err(ScapeError::Insert(e)),
            None => if !hits(s.mesh.cavity(c.point), c.tri.index() as int) {
                Err(ScapeError::Drift)
            } else {
                let mesh = s.mesh.after_insert(c.point);
                Ok(
                    ScapeView {
                        mesh,
                        candidates: s.candidates.remove(k).filter(
                            survives(s.mesh.cavity(c.point)),
                        ) + candidates_among(field, mesh, s.mesh.created_by(c.point)),
                    },
                )
            },
        }
    }
}

/// Whether no candidate has an error above zero: no insertion would bring
/// the mesh nearer to the field.
pub open spec fn settled(candidates: Seq<Candidate>) -> bool {
    forall|i: int| 0 <= i < candidates.len() ==> !(#[trigger] candidates[i]).error.spec_is_positive()
}

/// Rounds of refinement until `budget` points were inserted or no
/// candidate has an error above zero.
pub open spec fn run<F: Heightfield>(field: &F, s: ScapeView, budget: nat) -> Result<
    ScapeView,
    ScapeError,
>
    decreases budget,
{
    if budget == 0 || settled(s.candidates) {
        Ok(s)
    } else {
        match step(field, s) {
            Ok(next) => run(field, next, (budget - 1) as nat),
            Err(e) => Err(e),
        }
    }
}

/// The mesh after `points` were inserted in their order, or why the first
/// point that could not be inserted was refused.
pub open spec fn insert_all(mesh: MeshView, points: Seq<Vec2>) -> Result<MeshView, InsertError>
    decreases points.len(),
{
    if points.len() == 0 {
        Ok(mesh)
    } else {
        match insert_all(mesh, points.drop_last()) {
            Ok(m) => match m.refusal(points.last()) {
                Some(e) => Err(e),
                None => Ok(m.after_insert(points.last())),
            },
            Err(e) => Err(e),
        }
    }
}

/// The box of the cells of the grid.
pub open spec fn grid_box<F: Heightfield>(field: &F) -> Bbox {
    Bbox::with_corners(
        Vec2 { x: 0, y: 0 },
        Vec2 { x: (field.spec_width() - 1) as i64, y: (field.spec_height() - 1) as i64 },
    )
}

/// The four corners of the grid: lower left, lower right, upper right,
/// upper left.
pub open spec fn grid_corners<F: Heightfield>(field: &F) -> Seq<Vec2> {
    let w = (field.spec_width() - 1) as i64;
    let h = (field.spec_height() - 1) as i64;
    seq![Vec2 { x: 0, y: 0 }, Vec2 { x: w, y: 0 }, Vec2 { x: w, y: h }, Vec2 { x: 0, y: h }]
}

/// The approximation of `field` with at most `budget` points besides the
/// corners of the grid: the mesh over the box of the grid, the four
/// corners inserted, then refined.
pub open spec fn scape_of<F: Heightfield>(field: &F, budget: nat) -> Result<MeshView, ScapeError> {
    if field.spec_width() == 0 || field.spec_height() == 0 {
        Err(ScapeError::EmptyField)
    } else if !DelaunayMesh::fits(grid_box(field)) {
        Err(ScapeError::TooLarge)
    } else {
        match insert_all(MeshView::fresh(grid_box(field)), grid_corners(field)) {
            Err(e) => Err(ScapeError::Insert(e)),
            Ok(mesh) => match run(
                field,
                ScapeView { mesh, candidates: candidates_among(field, mesh, mesh.live_ids()) },
                budget,
            ) {
                Ok(s) => Ok(s.mesh),
                Err(e) => Err(e),
            },
        }
    }
}

/// A triangle has at most one best candidate.
pub proof fn lemma_best_unique<F: Heightfield>(field: &F, v: Seq<Vec2>, p: Vec2, q: Vec2)
    requires
        is_best(field, v, p),
        is_best(field, v, q),
    ensures
        p == q,
{
    if p != q {
        assert(spec_inside(v, p) && spec_inside(v, q));
        assert(before(p, q) || before(q, p));
    }
}

/// The candidate of a live triangle of a mesh, as the scan of the triangle
/// finds it.
fn candidate_for(heightfield: &impl Heightfield, mesh: &DelaunayMesh, tri: ArenaId<Triangle>) -> (found:
    Option<Candidate>)
    requires
        mesh.wf(),
        mesh.live_at(tri.index() as int),
    ensures
        found == candidate_of(heightfield, mesh@, tri),
        found matches Some(c) ==> c.error.wf(),
{
    let vertices = mesh.triangle_vertices(tri);
    proof {
        assert(mesh@.slot_ok(tri.index() as int));
        assert(vertices@[0] == mesh@.corner_at(tri.index() as int, 0));
        assert(vertices@[1] == mesh@.corner_at(tri.index() as int, 1));
        assert(vertices@[2] == mesh@.corner_at(tri.index() as int, 2));
    }
    match find_best_candidate(heightfield, vertices) {
        Some((p, err)) => {
            proof {
                let best = choose|q: Vec2| is_best(heightfield, vertices@, q);
                lemma_best_unique(heightfield, vertices@, p, best);
                err.lemma_of();
            }
            Some(Candidate { tri, point: p, error: err })
        },
        None => {
            proof {
                if scannable(heightfield, vertices@) {
                    assert forall|q: Vec2| !is_best(heightfield, vertices@, q) by {
                        if is_best(heightfield, vertices@, q) {
                            assert(spec_inside(vertices@, q));
                        }
                    }
                }
            }
            None
        },
    }
}

/// Whether `candidates` are the candidates of the triangles of `mesh`: each
/// is the candidate of the live triangle it names, and every live triangle
/// that has a candidate is named by one of them.
pub open spec fn keeps_up<F: Heightfield>(field: &F, mesh: MeshView, candidates: Seq<Candidate>) -> bool {
    &&& forall|i: int|
        0 <= i < candidates.len() ==> {
            &&& mesh.live_at((#[trigger] candidates[i]).tri.index() as int)
            &&& candidate_of(field, mesh, candidates[i].tri) == Some(candidates[i])
        }
    &&& forall|id: ArenaId<Triangle>|
        mesh.live_at(id.index() as int) && (#[trigger] candidate_of(field, mesh, id)) is Some
            ==> exists|i: int| 0 <= i < candidates.len() && (#[trigger] candidates[i]).tri == id
}

/// Whether the field lies above no triangle of `mesh` whose corners are
/// cells of the grid.
pub open spec fn refined<F: Heightfield>(field: &F, mesh: MeshView) -> bool {
    forall|id: ArenaId<Triangle>|
        mesh.live_at(id.index() as int) && scannable(field, mesh.corners(id.index() as int))
            ==> #[trigger] fits(field, mesh.corners(id.index() as int))
}

/// The candidate of a live triangle of a well-formed mesh is the best
/// candidate of the triangle with the error there.
pub proof fn lemma_candidate_error<F: Heightfield>(field: &F, mesh: MeshView, id: ArenaId<Triangle>)
    requires
        mesh.wf(),
        mesh.live_at(id.index() as int),
        candidate_of(field, mesh, id) is Some,
    ensures
        ({
            let v = mesh.corners(id.index() as int);
            let c = candidate_of(field, mesh, id)->0;
            &&& scannable(field, v)
            &&& is_best(field, v, c.point)
            &&& c.error.numer() == error_num(field, v, c.point)
            &&& c.error.denom() == abs(spec_orient(v[0], v[1], v[2]))
            &&& c.error.denom() > 0
        }),
{
    let t = id.index() as int;
    let v = mesh.corners(t);
    let c = candidate_of(field, mesh, id)->0;
    assert(mesh.slot_ok(t));
    assert(is_best(field, v, c.point));
    lemma_error_range(field, v, c.point);
    Ratio::lemma_of_parts(
        error_num(field, v, c.point),
        abs(spec_orient(v[0], v[1], v[2])),
    );
}

/// A live triangle of a well-formed mesh whose corners are cells of the
/// grid has a candidate.
pub proof fn lemma_candidate_exists<F: Heightfield>(field: &F, mesh: MeshView, id: ArenaId<Triangle>)
    requires
        mesh.wf(),
        mesh.live_at(id.index() as int),
        scannable(field, mesh.corners(id.index() as int)),
    ensures
        candidate_of(field, mesh, id) is Some,
{
    assert(mesh.slot_ok(id.index() as int));
    lemma_best_exists(field, mesh.corners(id.index() as int));
}

/// Where the candidates keep up with a well-formed mesh and none of them
/// has an error above zero, the field lies above no triangle whose corners
/// are cells of the grid.
pub proof fn lemma_settled_refined<F: Heightfield>(
    field: &F,
    mesh: MeshView,
    candidates: Seq<Candidate>,
)
    requires
        mesh.wf(),
        keeps_up(field, mesh, candidates),
        settled(candidates),
    ensures
        refined(field, mesh),
{
    assert forall|id: ArenaId<Triangle>|
        mesh.live_at(id.index() as int) && scannable(
            field,
            mesh.corners(id.index() as int),
        ) implies #[trigger] fits(field, mesh.corners(id.index() as int)) by {
        let v = mesh.corners(id.index() as int);
        lemma_candidate_exists(field, mesh, id);
        lemma_candidate_error(field, mesh, id);
        let i = choose|i: int| 0 <= i < candidates.len() && (#[trigger] candidates[i]).tri == id;
        let c = candidates[i];
        assert(candidate_of(field, mesh, c.tri) == Some(c));
        assert(!c.error.spec_is_positive());
        assert forall|q: Vec2| #[trigger] spec_inside(v, q) implies error_num(field, v, q) <= 0 by {
            assert(error_num(field, v, q) <= error_num(field, v, c.point));
        }
    }
}

/// Whether every vertex of `mesh` but the four corners of the padded box is
/// a cell of the grid.
pub open spec fn on_cells<F: Heightfield>(field: &F, mesh: MeshView) -> bool {
    forall|v: int| 4 <= v < mesh.positions.len() ==> on_grid(field, #[trigger] mesh.positions[v])
}

/// Whether every vertex of `mesh` from the ninth on, the points that a
/// refinement inserted, lies where no earlier vertex lies.
pub open spec fn inserted_apart(mesh: MeshView) -> bool {
    forall|i: int, j: int|
        0 <= i < j < mesh.positions.len() && 8 <= j ==> #[trigger] mesh.positions[i]
            != #[trigger] mesh.positions[j]
}

/// Position of a cell among the cells of a grid of `w` columns.
pub open spec fn cell_rank(w: int, p: Vec2) -> int {
    p.y * w + p.x
}

/// Cells of a grid that lie apart from each other are at most as many as
/// the grid has cells.
pub proof fn lemma_cells_apart_bounded(w: int, h: int, cells: Seq<Vec2>)
    requires
        0 <= w,
        0 <= h,
        forall|k: int| 0 <= k < cells.len() ==> 0 <= (#[trigger] cells[k]).x < w && 0 <= cells[k].y < h,
        forall|a: int, b: int| 0 <= a < b < cells.len() ==> #[trigger] cells[a] != #[trigger] cells[b],
    ensures
        cells.len() <= w * h,
{
    let ranks = Seq::new(cells.len(), |k: int| cell_rank(w, cells[k]));
    assert forall|k: int| 0 <= k < ranks.len() implies 0 <= #[trigger] ranks[k] < w * h by {
        let p = cells[k];
        assert(0 <= p.y * w + p.x < w * h) by (nonlinear_arith)
            requires
                0 <= p.x < w,
                0 <= p.y < h,
        ;
    }
    assert forall|a: int, b: int| 0 <= a < ranks.len() && 0 <= b < ranks.len() && a != b implies ranks[a]
        != ranks[b] by {
        let p = cells[a];
        let q = cells[b];
        if ranks[a] == ranks[b] {
            vstd::arithmetic::div_mod::lemma_fundamental_div_mod_converse(
                ranks[a],
                w,
                p.y as int,
                p.x as int,
            );
            vstd::arithmetic::div_mod::lemma_fundamental_div_mod_converse(
                ranks[b],
                w,
                q.y as int,
                q.x as int,
            );
            assert(p == q);
            if a < b {
                assert(cells[a] != cells[b]);
            } else {
                assert(cells[b] != cells[a]);
            }
        }
    }
    assert(ranks.no_duplicates());
    ranks.unique_seq_to_set();
    assert(0 <= w * h) by (nonlinear_arith)
        requires
            0 <= w,
            0 <= h,
    ;
    vstd::set_lib::lemma_int_range(0, w * h);
    assert(ranks.to_set().subset_of(vstd::set_lib::set_int_range(0, w * h))) by {
        assert forall|r: int| ranks.to_set().contains(r) implies vstd::set_lib::set_int_range(
            0,
            w * h,
        ).contains(r) by {
            let k = choose|k: int| 0 <= k < ranks.len() && ranks[k] == r;
            assert(0 <= ranks[k] < w * h);
        }
    }
    vstd::set_lib::lemma_len_subset(ranks.to_set(), vstd::set_lib::set_int_range(0, w * h));
}

/// A mesh whose inserted points are cells of the grid that lie apart from
/// each other has at most as many of them as the grid has cells.
pub proof fn lemma_inserted_bounded<F: Heightfield>(field: &F, mesh: MeshView)
    requires
        on_cells(field, mesh),
        inserted_apart(mesh),
        mesh.positions.len() >= 8,
    ensures
        mesh.positions.len() - 8 <= field.spec_width() * field.spec_height(),
{
    let cells = mesh.positions.skip(8);
    assert forall|k: int| 0 <= k < cells.len() implies 0 <= (#[trigger] cells[k]).x
        < field.spec_width() && 0 <= cells[k].y < field.spec_height() by {
        assert(on_grid(field, mesh.positions[8 + k]));
    }
    assert forall|a: int, b: int| 0 <= a < b < cells.len() implies #[trigger] cells[a]
        != #[trigger] cells[b] by {
        assert(mesh.positions[8 + a] != mesh.positions[8 + b]);
    }
    lemma_cells_apart_bounded(field.spec_width() as int, field.spec_height() as int, cells);
}

/// Whether the field is a plane: the height of every cell is `a` times its
/// column plus `b` times its row plus `c`.
pub open spec fn is_plane<F: Heightfield>(field: &F, a: int, b: int, c: int) -> bool {
    forall|p: Vec2| on_grid(field, p) ==> #[trigger] level(field, p) == a * p.x + b * p.y + c
}

/// Weights that mix three points into a fourth mix the heights of a plane
/// at the three points into its height at the fourth.
proof fn lemma_mix_plane(
    s0: int,
    s1: int,
    s2: int,
    k: int,
    x0: int,
    y0: int,
    x1: int,
    y1: int,
    x2: int,
    y2: int,
    px: int,
    py: int,
    a: int,
    b: int,
    c: int,
)
    requires
        s0 + s1 + s2 == k,
        s0 * x0 + s1 * x1 + s2 * x2 == k * px,
        s0 * y0 + s1 * y1 + s2 * y2 == k * py,
    ensures
        s0 * (a * x0 + b * y0 + c) + s1 * (a * x1 + b * y1 + c) + s2 * (a * x2 + b * y2 + c) == k * (
        a * px + b * py + c),
{
    assert(s0 * (a * x0 + b * y0 + c) == a * (s0 * x0) + b * (s0 * y0) + c * s0) by (nonlinear_arith);
    assert(s1 * (a * x1 + b * y1 + c) == a * (s1 * x1) + b * (s1 * y1) + c * s1) by (nonlinear_arith);
    assert(s2 * (a * x2 + b * y2 + c) == a * (s2 * x2) + b * (s2 * y2) + c * s2) by (nonlinear_arith);
    let sx = s0 * x0 + s1 * x1 + s2 * x2;
    let sy = s0 * y0 + s1 * y1 + s2 * y2;
    assert(a * (s0 * x0) + a * (s1 * x1) + a * (s2 * x2) == a * sx) by (nonlinear_arith)
        requires
            sx == s0 * x0 + s1 * x1 + s2 * x2,
    ;
    assert(b * (s0 * y0) + b * (s1 * y1) + b * (s2 * y2) == b * sy) by (nonlinear_arith)
        requires
            sy == s0 * y0 + s1 * y1 + s2 * y2,
    ;
    assert(c * s0 + c * s1 + c * s2 == c * k) by (nonlinear_arith)
        requires
            s0 + s1 + s2 == k,
    ;
    assert(a * (k * px) + b * (k * py) + c * k == k * (a * px + b * py + c)) by (nonlinear_arith);
}

/// Over a plane every triangle whose corners are cells of the grid lies in
/// the field: at every cell of the triangle the error is zero.
pub proof fn lemma_plane_error_zero<F: Heightfield>(
    field: &F,
    a: int,
    b: int,
    c: int,
    v: Seq<Vec2>,
    p: Vec2,
)
    requires
        is_plane(field, a, b, c),
        scannable(field, v),
        spec_inside(v, p),
    ensures
        on_grid(field, p),
        error_num(field, v, p) == 0,
{
    let cells = Bbox::with_corners(
        Vec2 { x: 0, y: 0 },
        Vec2 { x: (field.spec_width() - 1) as i64, y: (field.spec_height() - 1) as i64 },
    );
    lemma_inside_box(v, p, cells);
    crate::geo::lemma_orient_parts(v[0], v[1], v[2], p);
    let k = spec_orient(v[0], v[1], v[2]);
    let s0 = spec_orient(p, v[1], v[2]);
    let s1 = spec_orient(v[0], p, v[2]);
    let s2 = spec_orient(v[0], v[1], p);
    let l0 = level(field, v[0]);
    let l1 = level(field, v[1]);
    let l2 = level(field, v[2]);
    let lp = level(field, p);
    lemma_mix_plane(
        s0,
        s1,
        s2,
        k,
        v[0].x as int,
        v[0].y as int,
        v[1].x as int,
        v[1].y as int,
        v[2].x as int,
        v[2].y as int,
        p.x as int,
        p.y as int,
        a,
        b,
        c,
    );
    assert(s0 * l0 + s1 * l1 + s2 * l2 == k * lp);
    assert(lp * k == k * lp) by (nonlinear_arith);
    if k < 0 {
        assert(lp * (-k) - ((-s0) * l0 + (-s1) * l1 + (-s2) * l2) == 0) by (nonlinear_arith)
            requires
                s0 * l0 + s1 * l1 + s2 * l2 == k * lp,
        ;
    }
}

/// Over a plane no candidate has an error above zero, and the field lies
/// above no triangle.
pub proof fn lemma_plane_settled<F: Heightfield>(
    field: &F,
    a: int,
    b: int,
    c: int,
    mesh: MeshView,
    ids: Seq<ArenaId<Triangle>>,
)
    requires
        is_plane(field, a, b, c),
    ensures
        settled(candidates_among(field, mesh, ids)),
        refined(field, mesh),
{
    let found = candidates_among(field, mesh, ids);
    assert forall|i: int| 0 <= i < found.len() implies !(#[trigger] found[i]).error.spec_is_positive() by {
        let x = found[i];
        assert(found.contains(x));
        lemma_candidates_among(field, mesh, ids, x);
        let j = choose|j: int|
            0 <= j < ids.len() && candidate_of(field, mesh, #[trigger] ids[j]) == Some(x);
        let v = mesh.corners(ids[j].index() as int);
        assert(is_best(field, v, x.point));
        lemma_plane_error_zero(field, a, b, c, v, x.point);
        Ratio::lemma_of_parts(0, abs(spec_orient(v[0], v[1], v[2])));
    }
    assert forall|id: ArenaId<Triangle>|
        mesh.live_at(id.index() as int) && scannable(
            field,
            mesh.corners(id.index() as int),
        ) implies #[trigger] fits(field, mesh.corners(id.index() as int)) by {
        let v = mesh.corners(id.index() as int);
        assert forall|q: Vec2| #[trigger] spec_inside(v, q) implies error_num(field, v, q) <= 0 by {
            lemma_plane_error_zero(field, a, b, c, v, q);
        }
    }
}

/// Over a plane the approximation needs no point besides the corners of
/// the grid: where it succeeds, the mesh has its eight first vertices only,
/// whatever the budget, and the error is zero at every cell of every
/// triangle whose corners are cells of the grid.
pub proof fn lemma_plane_needs_no_point<F: Heightfield>(
    field: &F,
    a: int,
    b: int,
    c: int,
    budget: nat,
)
    requires
        is_plane(field, a, b, c),
    ensures
        scape_of(field, budget) matches Ok(mesh) ==> mesh.positions.len() == 8 && refined(
            field,
            mesh,
        ) && scape_of(field, budget) == scape_of(field, 0),
{
    if scape_of(field, budget) is Ok {
        let seeded = insert_all(MeshView::fresh(grid_box(field)), grid_corners(field))->Ok_0;
        lemma_insert_all_positions(MeshView::fresh(grid_box(field)), grid_corners(field));
        lemma_plane_settled(field, a, b, c, seeded, seeded.live_ids());
        let start = ScapeView {
            mesh: seeded,
            candidates: candidates_among(field, seeded, seeded.live_ids()),
        };
        assert(run(field, start, budget) == Ok::<ScapeView, ScapeError>(start));
        assert(run(field, start, 0) == Ok::<ScapeView, ScapeError>(start));
    }
}

/// The candidates of triangles are those of each of the triangles.
pub proof fn lemma_candidates_among<F: Heightfield>(
    field: &F,
    mesh: MeshView,
    ids: Seq<ArenaId<Triangle>>,
    c: Candidate,
)
    ensures
        candidates_among(field, mesh, ids).contains(c) <==> exists|j: int|
            0 <= j < ids.len() && candidate_of(field, mesh, #[trigger] ids[j]) == Some(c),
    decreases ids.len(),
{
    if ids.len() > 0 {
        let rest_ids = ids.drop_last();
        let rest = candidates_among(field, mesh, rest_ids);
        lemma_candidates_among(field, mesh, rest_ids, c);
        let all = candidates_among(field, mesh, ids);
        if all.contains(c) {
            let i = choose|i: int| 0 <= i < all.len() && all[i] == c;
            if i < rest.len() {
                assert(rest[i] == c);
                let j = choose|j: int|
                    0 <= j < rest_ids.len() && candidate_of(field, mesh, #[trigger] rest_ids[j])
                        == Some(c);
                assert(ids[j] == rest_ids[j]);
            } else {
                assert(candidate_of(field, mesh, ids[ids.len() - 1]) == Some(c));
            }
        }
        if exists|j: int|
            0 <= j < ids.len() && candidate_of(field, mesh, #[trigger] ids[j]) == Some(c) {
            let j = choose|j: int|
                0 <= j < ids.len() && candidate_of(field, mesh, #[trigger] ids[j]) == Some(c);
            if j < rest_ids.len() {
                assert(rest_ids[j] == ids[j]);
                assert(rest.contains(c));
                let i = choose|i: int| 0 <= i < rest.len() && rest[i] == c;
                assert(all[i] == c);
            } else {
                assert(all[all.len() - 1] == c);
            }
        }
    }
}

/// The point of a candidate is a cell of the grid.
pub proof fn lemma_candidate_on_grid<F: Heightfield>(
    field: &F,
    mesh: MeshView,
    id: ArenaId<Triangle>,
)
    requires
        candidate_of(field, mesh, id) is Some,
    ensures
        on_grid(field, candidate_of(field, mesh, id)->0.point),
{
    let v = mesh.corners(id.index() as int);
    let p = candidate_of(field, mesh, id)->0.point;
    assert(is_best(field, v, p));
    let cells = Bbox::with_corners(
        Vec2 { x: 0, y: 0 },
        Vec2 { x: (field.spec_width() - 1) as i64, y: (field.spec_height() - 1) as i64 },
    );
    lemma_inside_box(v, p, cells);
}

/// A triangle that an insertion leaves in place has the candidate that it
/// had.
pub proof fn lemma_candidate_stays<F: Heightfield>(
    field: &F,
    mesh: MeshView,
    p: Vec2,
    id: ArenaId<Triangle>,
)
    requires
        mesh.wf(),
        mesh.live_at(id.index() as int),
        !hits(mesh.cavity(p), id.index() as int),
    ensures
        mesh.after_insert(p).live_at(id.index() as int),
        candidate_of(field, mesh.after_insert(p), id) == candidate_of(field, mesh, id),
{
    let t = id.index() as int;
    let after = mesh.after_insert(p);
    assert(mesh.slot_ok(t));
    assert(after.slots[t] == mesh.slots[t]);
    assert(after.corners(t) =~= mesh.corners(t));
}

/// The candidates of the triangles of a mesh keep up with it.
pub proof fn lemma_start_keeps_up<F: Heightfield>(field: &F, mesh: MeshView)
    ensures
        keeps_up(field, mesh, candidates_among(field, mesh, mesh.live_ids())),
{
    let ids = mesh.live_ids();
    let all = Seq::new(mesh.slots.len(), |t: int| ArenaId::<Triangle>::at(t as usize));
    let cands = candidates_among(field, mesh, ids);
    assert forall|i: int| 0 <= i < cands.len() implies {
        &&& mesh.live_at((#[trigger] cands[i]).tri.index() as int)
        &&& candidate_of(field, mesh, cands[i].tri) == Some(cands[i])
    } by {
        let c = cands[i];
        assert(cands.contains(c));
        lemma_candidates_among(field, mesh, ids, c);
        let j = choose|j: int|
            0 <= j < ids.len() && candidate_of(field, mesh, #[trigger] ids[j]) == Some(c);
        all.lemma_filter_pred(mesh.is_live_id(), j);
    }
    assert forall|id: ArenaId<Triangle>|
        mesh.live_at(id.index() as int) && (#[trigger] candidate_of(field, mesh, id))
            is Some implies exists|i: int|
        0 <= i < cands.len() && (#[trigger] cands[i]).tri == id by {
        let t = id.index() as int;
        id.lemma_at();
        assert(all[t] == id);
        all.lemma_filter_contains(mesh.is_live_id(), t);
        let j = choose|j: int| 0 <= j < ids.len() && ids[j] == id;
        let c = candidate_of(field, mesh, id)->0;
        lemma_candidates_among(field, mesh, ids, c);
        let i = choose|i: int| 0 <= i < cands.len() && cands[i] == c;
        assert(cands[i].tri == id);
    }
}

/// Every candidate after a round of refinement is the candidate of the
/// live triangle that it names.
proof fn lemma_step_sound<F: Heightfield>(field: &F, s: ScapeView, i: int)
    requires
        s.mesh.wf(),
        s.candidates.len() > 0,
        keeps_up(field, s.mesh, s.candidates),
        step(field, s) is Ok,
        s.mesh.positions.len() <= usize::MAX,
        s.mesh.slots.len() + s.mesh.cavity_border(s.candidates[first_max(s.candidates)].point).len()
            <= usize::MAX,
        0 <= i < step(field, s)->Ok_0.candidates.len(),
    ensures
        step(field, s)->Ok_0.mesh.live_at(step(field, s)->Ok_0.candidates[i].tri.index() as int),
        candidate_of(field, step(field, s)->Ok_0.mesh, step(field, s)->Ok_0.candidates[i].tri)
            == Some(step(field, s)->Ok_0.candidates[i]),
{
    let k = first_max(s.candidates);
    lemma_first_max_in_range(s.candidates);
    let p = s.candidates[k].point;
    let dropped = s.mesh.cavity(p);
    let created = s.mesh.created_by(p);
    let next = step(field, s)->Ok_0;
    let mesh = next.mesh;
    let rest = s.candidates.remove(k);
    let kept = rest.filter(survives(dropped));
    let fresh = candidates_among(field, mesh, created);
    assert(next.candidates == kept + fresh);
    let x = next.candidates[i];
    if i < kept.len() {
        assert(kept[i] == x);
        rest.lemma_filter_pred(survives(dropped), i);
        assert(kept.contains(x));
        rest.lemma_filter_contains_rev(survives(dropped), x);
        let j = choose|j: int| 0 <= j < rest.len() && rest[j] == x;
        let was = if j < k { j } else { j + 1 };
        assert(s.candidates[was] == x);
        lemma_candidate_stays(field, s.mesh, p, x.tri);
    } else {
        assert(fresh[i - kept.len()] == x);
        assert(fresh.contains(x));
        lemma_candidates_among(field, mesh, created, x);
        let j = choose|j: int|
            0 <= j < created.len() && candidate_of(field, mesh, #[trigger] created[j]) == Some(x);
        lemma_created_live(s.mesh, p, j);
    }
}

/// Every live triangle that has a candidate after a round of refinement is
/// named by one of the candidates.
proof fn lemma_step_complete<F: Heightfield>(field: &F, s: ScapeView, id: ArenaId<Triangle>) -> (i:
    int)
    requires
        s.mesh.wf(),
        s.candidates.len() > 0,
        keeps_up(field, s.mesh, s.candidates),
        step(field, s) is Ok,
        s.mesh.positions.len() <= usize::MAX,
        s.mesh.slots.len() + s.mesh.cavity_border(s.candidates[first_max(s.candidates)].point).len()
            <= usize::MAX,
        step(field, s)->Ok_0.mesh.live_at(id.index() as int),
        candidate_of(field, step(field, s)->Ok_0.mesh, id) is Some,
    ensures
        0 <= i < step(field, s)->Ok_0.candidates.len(),
        step(field, s)->Ok_0.candidates[i].tri == id,
{
    let k = first_max(s.candidates);
    lemma_first_max_in_range(s.candidates);
    let p = s.candidates[k].point;
    let dropped = s.mesh.cavity(p);
    let created = s.mesh.created_by(p);
    let next = step(field, s)->Ok_0;
    let mesh = next.mesh;
    let rest = s.candidates.remove(k);
    let kept = rest.filter(survives(dropped));
    let fresh = candidates_among(field, mesh, created);
    assert(next.candidates == kept + fresh);
    let t = id.index() as int;
    let n0 = s.mesh.slots.len() as int;
    let x = candidate_of(field, mesh, id)->0;
    id.lemma_at();
    if t < n0 {
        assert(mesh.slots[t] == retire_all(s.mesh.slots, dropped)[t]);
        if hits(dropped, t) {
            s.mesh.slots[t].lemma_retired();
        }
        assert(!hits(dropped, t));
        assert(s.mesh.live_at(t));
        lemma_candidate_stays(field, s.mesh, p, id);
        let was = choose|was: int|
            0 <= was < s.candidates.len() && (#[trigger] s.candidates[was]).tri == id;
        assert(was != k);
        let j = if was < k { was } else { was - 1 };
        assert(rest[j] == s.candidates[was]);
        rest.lemma_filter_contains(survives(dropped), j);
        let m = choose|m: int| 0 <= m < kept.len() && kept[m] == rest[j];
        assert(next.candidates[m] == rest[j]);
        m
    } else {
        let j = t - n0;
        assert(created[j] == id);
        lemma_candidates_among(field, mesh, created, x);
        let m = choose|m: int| 0 <= m < fresh.len() && fresh[m] == x;
        assert(next.candidates[kept.len() + m] == x);
        kept.len() + m
    }
}

/// A round of refinement keeps the candidates up with the mesh and the
/// vertices on cells of the grid, and adds one vertex.
pub proof fn lemma_step_keeps_up<F: Heightfield>(field: &F, s: ScapeView)
    requires
        s.mesh.wf(),
        s.candidates.len() > 0,
        keeps_up(field, s.mesh, s.candidates),
        step(field, s) is Ok,
        s.mesh.positions.len() <= usize::MAX,
        s.mesh.slots.len() + s.mesh.cavity_border(s.candidates[first_max(s.candidates)].point).len()
            <= usize::MAX,
    ensures
        keeps_up(field, step(field, s)->Ok_0.mesh, step(field, s)->Ok_0.candidates),
        step(field, s)->Ok_0.mesh.positions.len() == s.mesh.positions.len() + 1,
        on_cells(field, s.mesh) ==> on_cells(field, step(field, s)->Ok_0.mesh),
        inserted_apart(s.mesh) ==> inserted_apart(step(field, s)->Ok_0.mesh),
{
    let k = first_max(s.candidates);
    lemma_first_max_in_range(s.candidates);
    let c = s.candidates[k];
    let next = step(field, s)->Ok_0;
    let mesh = next.mesh;
    if inserted_apart(s.mesh) {
        assert forall|i: int, j: int| 0 <= i < j < mesh.positions.len() && 8 <= j implies (
        #[trigger] mesh.positions[i]) != #[trigger] mesh.positions[j] by {
            if j < s.mesh.positions.len() {
                assert(s.mesh.positions[i] != s.mesh.positions[j]);
            } else {
                assert(mesh.positions[i] == s.mesh.positions[i]);
                assert(s.mesh.positions.contains(s.mesh.positions[i]));
            }
        }
    }
    assert forall|i: int| 0 <= i < next.candidates.len() implies {
        &&& mesh.live_at((#[trigger] next.candidates[i]).tri.index() as int)
        &&& candidate_of(field, mesh, next.candidates[i].tri) == Some(next.candidates[i])
    } by {
        lemma_step_sound(field, s, i);
    }
    assert forall|id: ArenaId<Triangle>|
        mesh.live_at(id.index() as int) && (#[trigger] candidate_of(field, mesh, id))
            is Some implies exists|i: int|
        0 <= i < next.candidates.len() && (#[trigger] next.candidates[i]).tri == id by {
        let i = lemma_step_complete(field, s, id);
    }
    if on_cells(field, s.mesh) {
        lemma_candidate_on_grid(field, s.mesh, c.tri);
        assert forall|v: int| 4 <= v < mesh.positions.len() implies on_grid(
            field,
            #[trigger] mesh.positions[v],
        ) by {
            if v < s.mesh.positions.len() {
                assert(mesh.positions[v] == s.mesh.positions[v]);
            }
        }
    }
}

/// The triangles that an insertion creates are live after it.
pub proof fn lemma_created_live(mesh: MeshView, p: Vec2, j: int)
    requires
        0 <= j < mesh.created_by(p).len(),
        mesh.positions.len() <= usize::MAX,
        mesh.slots.len() + mesh.cavity_border(p).len() <= usize::MAX,
    ensures
        mesh.after_insert(p).live_at(mesh.created_by(p)[j].index() as int),
{
    ArenaId::<Triangle>::lemma_index_of_at((mesh.slots.len() + j) as usize);
    lemma_fan_triangle(mesh, p, j);
}

/// The place of the greatest error is a place of the collection.
pub proof fn lemma_first_max_in_range(c: Seq<Candidate>)
    requires
        c.len() > 0,
    ensures
        0 <= first_max(c) < c.len(),
    decreases c.len(),
{
    if c.len() > 1 {
        lemma_first_max_in_range(c.drop_last());
    }
}

/// Appends to `out` the candidates of the live triangles `ids` of `mesh`,
/// in the order of `ids`.
fn gather(
    heightfield: &impl Heightfield,
    mesh: &DelaunayMesh,
    ids: &Vec<ArenaId<Triangle>>,
    out: &mut Vec<Candidate>,
)
    requires
        mesh.wf(),
        forall|k: int| 0 <= k < ids@.len() ==> mesh.live_at((#[trigger] ids@[k]).index() as int),
        forall|i: int| 0 <= i < old(out)@.len() ==> (#[trigger] old(out)@[i]).error.wf(),
    ensures
        final(out)@ == old(out)@ + candidates_among(heightfield, mesh@, ids@),
        forall|i: int| 0 <= i < final(out)@.len() ==> (#[trigger] final(out)@[i]).error.wf(),
{
    let mut k: usize = 0;
    proof {
        assert(ids@.take(0) =~= Seq::<ArenaId<Triangle>>::empty());
        assert(out@ =~= old(out)@ + candidates_among(heightfield, mesh@, ids@.take(0)));
    }
    while k < ids.len()
        invariant
            k <= ids.len(),
            mesh.wf(),
            forall|k: int| 0 <= k < ids@.len() ==> mesh.live_at((#[trigger] ids@[k]).index() as int),
            out@ == old(out)@ + candidates_among(heightfield, mesh@, ids@.take(k as int)),
            forall|i: int| 0 <= i < out@.len() ==> (#[trigger] out@[i]).error.wf(),
        decreases ids.len() - k,
    {
        let found = candidate_for(heightfield, mesh, ids[k]);
        let ghost before = out@;
        proof {
            let next = ids@.take(k + 1);
            assert(next.drop_last() =~= ids@.take(k as int));
            assert(next.last() == ids@[k as int]);
        }
        match found {
            Some(c) => {
                out.push(c);
                assert(out@ =~= old(out)@ + candidates_among(
                    heightfield,
                    mesh@,
                    ids@.take(k + 1),
                ));
            },
            None => {},
        }
        k += 1;
    }
    assert(ids@.take(ids.len() as int) =~= ids@);
}

/// The place of the candidate with the greatest error, the first of them
/// where there are several.
fn pick(candidates: &Vec<Candidate>) -> (k: usize)
    requires
        candidates@.len() > 0,
        forall|i: int| 0 <= i < candidates@.len() ==> (#[trigger] candidates@[i]).error.wf(),
    ensures
        k == first_max(candidates@),
        k < candidates@.len(),
{
    let mut k: usize = 0;
    let mut i: usize = 1;
    assert(first_max(candidates@.take(1)) == 0);
    while i < candidates.len()
        invariant
            1 <= i <= candidates.len(),
            k < i,
            k == first_max(candidates@.take(i as int)),
            forall|i: int| 0 <= i < candidates@.len() ==> (#[trigger] candidates@[i]).error.wf(),
        decreases candidates.len() - i,
    {
        proof {
            let next = candidates@.take(i + 1);
            assert(next.drop_last() =~= candidates@.take(i as int));
            assert(next.last() == candidates@[i as int]);
            assert(next[k as int] == candidates@[k as int]);
        }
        if candidates[i].error.exceeds(&candidates[k].error) {
            k = i;
        }
        i += 1;
    }
    assert(candidates@.take(candidates.len() as int) =~= candidates@);
    k
}

/// Whether `id` is one of `removed`.
fn was_removed(removed: &Vec<ArenaId<Triangle>>, id: ArenaId<Triangle>) -> (b: bool)
    ensures
        b == hits(removed@, id.index() as int),
{
    let mut i: usize = 0;
    while i < removed.len()
        invariant
            i <= removed.len(),
            forall|j: int| 0 <= j < i ==> (#[trigger] removed@[j]).index() != id.index(),
        decreases removed.len() - i,
    {
        if removed[i].same(&id) {
            return true;
        }
        i += 1;
    }
    false
}

/// The candidates whose triangle is none of `removed`, in their order.
fn drop_dead(candidates: &Vec<Candidate>, removed: &Vec<ArenaId<Triangle>>) -> (kept: Vec<
    Candidate,
>)
    requires
        forall|i: int| 0 <= i < candidates@.len() ==> (#[trigger] candidates@[i]).error.wf(),
    ensures
        kept@ == candidates@.filter(survives(removed@)),
        forall|i: int| 0 <= i < kept@.len() ==> (#[trigger] kept@[i]).error.wf(),
{
    let mut kept: Vec<Candidate> = Vec::new();
    let mut i: usize = 0;
    proof {
        reveal(Seq::filter);
        assert(candidates@.take(0) =~= Seq::<Candidate>::empty());
    }
    while i < candidates.len()
        invariant
            i <= candidates.len(),
            kept@ == candidates@.take(i as int).filter(survives(removed@)),
            forall|i: int| 0 <= i < candidates@.len() ==> (#[trigger] candidates@[i]).error.wf(),
            forall|i: int| 0 <= i < kept@.len() ==> (#[trigger] kept@[i]).error.wf(),
        decreases candidates.len() - i,
    {
        let c = candidates[i];
        let gone = was_removed(removed, c.tri);
        proof {
            reveal(Seq::filter);
            let next = candidates@.take(i + 1);
            assert(next.drop_last() =~= candidates@.take(i as int));
            assert(next.last() == c);
        }
        if !gone {
            kept.push(c);
        }
        i += 1;
    }
    assert(candidates@.take(candidates.len() as int) =~= candidates@);
    kept
}

/// Whether no candidate has an error above zero.
fn is_settled(candidates: &Vec<Candidate>) -> (b: bool)
    ensures
        b == settled(candidates@),
{
    let mut i: usize = 0;
    while i < candidates.len()
        invariant
            i <= candidates.len(),
            forall|j: int| 0 <= j < i ==> !(#[trigger] candidates@[j]).error.spec_is_positive(),
        decreases candidates.len() - i,
    {
        if candidates[i].error.is_positive() {
            return false;
        }
        i += 1;
    }
    true
}

/// One round of refinement, where a candidate has an error above zero:
/// takes the candidate with the greatest error, the first of them where
/// there are several, out of `candidates`, inserts its point into `mesh`,
/// drops the candidates of the triangles that the insertion removed, and
/// appends the candidates of the triangles that it created. Where no
/// candidate has an error above zero, nothing is done and the result is
/// `Ok(false)`. Fails where the point is a vertex of the mesh already, the
/// mesh refuses the point, or the insertion left the candidate's own
/// triangle in place.
pub fn refine(
    heightfield: &impl Heightfield,
    mesh: &mut DelaunayMesh,
    candidates: &mut Vec<Candidate>,
) -> (result: Result<bool, ScapeError>)
    requires
        old(mesh).wf(),
        forall|i: int|
            0 <= i < old(candidates)@.len() ==> (#[trigger] old(candidates)@[i]).error.wf(),
    ensures
        final(mesh).wf(),
        forall|i: int|
            0 <= i < final(candidates)@.len() ==> (#[trigger] final(candidates)@[i]).error.wf(),
        settled(old(candidates)@) ==> result == Ok::<bool, ScapeError>(false) && final(mesh)@
            == old(mesh)@ && final(candidates)@ == old(candidates)@,
        !settled(old(candidates)@) ==> (match step(
            heightfield,
            ScapeView { mesh: old(mesh)@, candidates: old(candidates)@ },
        ) {
            Ok(next) => result == Ok::<bool, ScapeError>(true) && final(mesh)@ == next.mesh
                && final(candidates)@ == next.candidates,
            Err(e) => result == Err::<bool, ScapeError>(e),
        }),
        result is Ok && keeps_up(heightfield, old(mesh)@, old(candidates)@) ==> keeps_up(
            heightfield,
            final(mesh)@,
            final(candidates)@,
        ),
        result == Ok::<bool, ScapeError>(true) ==> final(mesh)@.positions.len() == old(
            mesh,
        )@.positions.len() + 1,
        result is Ok && old(mesh)@.closed() ==> final(mesh)@.closed(),
        result is Ok && inserted_apart(old(mesh)@) ==> inserted_apart(final(mesh)@),
        result is Ok && keeps_up(heightfield, old(mesh)@, old(candidates)@) && on_cells(
            heightfield,
            old(mesh)@,
        ) ==> on_cells(heightfield, final(mesh)@),
{
    if is_settled(candidates) {
        return Ok(false);
    }
    match round(heightfield, mesh, candidates) {
        Ok(()) => Ok(true),
        Err(e) => Err(e),
    }
}

/// One round of refinement on candidates of which there is one: see
/// [`refine`].
fn round(
    heightfield: &impl Heightfield,
    mesh: &mut DelaunayMesh,
    candidates: &mut Vec<Candidate>,
) -> (result: Result<(), ScapeError>)
    requires
        old(mesh).wf(),
        old(candidates)@.len() > 0,
        forall|i: int|
            0 <= i < old(candidates)@.len() ==> (#[trigger] old(candidates)@[i]).error.wf(),
    ensures
        final(mesh).wf(),
        forall|i: int|
            0 <= i < final(candidates)@.len() ==> (#[trigger] final(candidates)@[i]).error.wf(),
        match step(heightfield, ScapeView { mesh: old(mesh)@, candidates: old(candidates)@ }) {
            Ok(next) => result is Ok && final(mesh)@ == next.mesh && final(candidates)@
                == next.candidates,
            Err(e) => result == Err::<(), ScapeError>(e),
        },
        result is Ok && keeps_up(heightfield, old(mesh)@, old(candidates)@) ==> keeps_up(
            heightfield,
            final(mesh)@,
            final(candidates)@,
        ),
        result is Ok ==> final(mesh)@.positions.len() == old(mesh)@.positions.len() + 1,
        result is Ok && old(mesh)@.closed() ==> final(mesh)@.closed(),
        result is Ok && inserted_apart(old(mesh)@) ==> inserted_apart(final(mesh)@),
        result is Ok && keeps_up(heightfield, old(mesh)@, old(candidates)@) && on_cells(
            heightfield,
            old(mesh)@,
        ) ==> on_cells(heightfield, final(mesh)@),
{
    let k = pick(candidates);
    let c = candidates.remove(k);
    if mesh.has_vertex_at(c.point) {
        return Err(ScapeError::Drift);
    }
    match mesh.try_insert(c.point) {
        Err(e) => Err(ScapeError::Insert(e)),
        Ok(roi) => {
            if !was_removed(roi.removed(), c.tri) {
                return Err(ScapeError::Drift);
            }
            let mut kept = drop_dead(candidates, roi.removed());
            proof {
                assert forall|k: int| 0 <= k < roi.created().len() implies mesh.live_at(
                    (#[trigger] roi.created()[k]).index() as int,
                ) by {}
            }
            gather(heightfield, mesh, roi.triangles(), &mut kept);
            *candidates = kept;
            proof {
                let before = ScapeView { mesh: old(mesh)@, candidates: old(candidates)@ };
                mesh.lemma_sizes();
                old(mesh).lemma_sizes();
                assert(mesh@.slots.len() == old(mesh)@.slots.len() + old(mesh)@.cavity_border(
                    c.point,
                ).len());
                if keeps_up(heightfield, old(mesh)@, old(candidates)@) {
                    lemma_step_keeps_up(heightfield, before);
                }
                if inserted_apart(old(mesh)@) {
                    assert forall|i: int, j: int|
                        0 <= i < j < mesh@.positions.len() && 8 <= j implies (
                    #[trigger] mesh@.positions[i]) != #[trigger] mesh@.positions[j] by {
                        if j < old(mesh)@.positions.len() {
                            assert(old(mesh)@.positions[i] != old(mesh)@.positions[j]);
                        } else {
                            assert(mesh@.positions[i] == old(mesh)@.positions[i]);
                            assert(old(mesh)@.positions.contains(old(mesh)@.positions[i]));
                        }
                    }
                }
            }
            Ok(())
        },
    }
}

/// Inserts the four `points` into `mesh` in their order, up to the first
/// that the mesh refuses.
fn seed(mesh: &mut DelaunayMesh, points: &[Vec2; 4]) -> (result: Result<(), InsertError>)
    requires
        old(mesh).wf(),
    ensures
        final(mesh).wf(),
        old(mesh)@.closed() ==> final(mesh)@.closed(),
        match insert_all(old(mesh)@, points@) {
            Ok(seeded) => result is Ok && final(mesh)@ == seeded,
            Err(e) => result == Err::<(), InsertError>(e),
        },
{
    let mut i: usize = 0;
    assert(points@.take(0) =~= Seq::<Vec2>::empty());
    while i < 4
        invariant
            i <= 4,
            mesh.wf(),
            old(mesh)@.closed() ==> mesh@.closed(),
            insert_all(old(mesh)@, points@.take(i as int)) == Ok::<MeshView, InsertError>(mesh@),
        decreases 4 - i,
    {
        proof {
            let next = points@.take(i + 1);
            assert(next.drop_last() =~= points@.take(i as int));
            assert(next.last() == points@[i as int]);
            if i < 3 {
                let rest = points@.take(i + 2);
                assert(rest.drop_last() =~= next);
            }
        }
        match mesh.try_insert(points[i]) {
            Err(e) => {
                proof {
                    lemma_insert_all_fails(old(mesh)@, points@, i + 1, e);
                }
                return Err(e);
            },
            Ok(_) => {},
        }
        i += 1;
    }
    assert(points@.take(4) =~= points@);
    Ok(())
}

/// Where the insertion of the first `n` points fails, the insertion of all
/// of them fails in the same way.
proof fn lemma_insert_all_fails(mesh: MeshView, points: Seq<Vec2>, n: int, e: InsertError)
    requires
        0 <= n <= points.len(),
        insert_all(mesh, points.take(n)) == Err::<MeshView, InsertError>(e),
    ensures
        insert_all(mesh, points) == Err::<MeshView, InsertError>(e),
    decreases points.len() - n,
{
    if n < points.len() {
        let next = points.take(n + 1);
        assert(next.drop_last() =~= points.take(n));
        lemma_insert_all_fails(mesh, points, n + 1, e);
    } else {
        assert(points.take(n) =~= points);
    }
}

/// Points that were inserted are the last vertices of the mesh, in their
/// order.
pub proof fn lemma_insert_all_positions(mesh: MeshView, points: Seq<Vec2>)
    requires
        insert_all(mesh, points) is Ok,
    ensures
        insert_all(mesh, points)->Ok_0.positions == mesh.positions + points,
    decreases points.len(),
{
    if points.len() > 0 {
        lemma_insert_all_positions(mesh, points.drop_last());
        let before = insert_all(mesh, points.drop_last())->Ok_0;
        assert(before.positions.push(points.last()) =~= mesh.positions + points);
    } else {
        assert(mesh.positions =~= mesh.positions + points);
    }
}

/// The mesh over the box of the grid with the four corners of the grid
/// inserted, and the candidates of its triangles.
fn prepare(heightfield: &impl Heightfield) -> (result: Result<
    (DelaunayMesh, Vec<Candidate>),
    ScapeError,
>)
    ensures
        match result {
            Ok((mesh, candidates)) => {
                &&& mesh.wf()
                &&& mesh@.closed()
                &&& mesh@.positions.len() == 8
                &&& on_cells(heightfield, mesh@)
                &&& keeps_up(heightfield, mesh@, candidates@)
                &&& forall|i: int|
                    0 <= i < candidates@.len() ==> (#[trigger] candidates@[i]).error.wf()
                &&& forall|budget: nat| #[trigger]
                    scape_of(heightfield, budget) == (match run(
                        heightfield,
                        ScapeView { mesh: mesh@, candidates: candidates@ },
                        budget,
                    ) {
                        Ok(s) => Ok::<MeshView, ScapeError>(s.mesh),
                        Err(e) => Err::<MeshView, ScapeError>(e),
                    })
            },
            Err(e) => forall|budget: nat| #[trigger]
                scape_of(heightfield, budget) == Err::<MeshView, ScapeError>(e),
        },
{
    let w = heightfield.width();
    let h = heightfield.height();
    if w == 0 || h == 0 {
        return Err(ScapeError::EmptyField);
    }
    let far = Vec2::new(w as i64 - 1, h as i64 - 1);
    let mut bbox = Bbox::new(Vec2::zero());
    bbox.expand(far);
    proof {
        bbox.lemma_corners();
        grid_box(heightfield).lemma_corners();
    }
    assert(bbox == grid_box(heightfield));
    if !DelaunayMesh::can_hold(&bbox) {
        return Err(ScapeError::TooLarge);
    }
    let mut mesh = DelaunayMesh::new(bbox);
    let corners = [Vec2::zero(), Vec2::new(far.x, 0), far, Vec2::new(0, far.y)];
    assert(corners@ =~= grid_corners(heightfield));
    match seed(&mut mesh, &corners) {
        Err(e) => {
            return Err(ScapeError::Insert(e));
        },
        Ok(()) => {},
    }
    proof {
        lemma_insert_all_positions(MeshView::fresh(bbox), corners@);
        assert(mesh@.positions =~= MeshView::fresh(bbox).positions + corners@);
        assert forall|v: int| 4 <= v < mesh@.positions.len() implies on_grid(
            heightfield,
            #[trigger] mesh@.positions[v],
        ) by {
            assert(mesh@.positions[v] == corners@[v - 4]);
        }
    }
    let ids = mesh.triangles();
    let mut candidates: Vec<Candidate> = Vec::new();
    gather(heightfield, &mesh, &ids, &mut candidates);
    assert(candidates@ =~= candidates_among(heightfield, mesh@, mesh@.live_ids()));
    proof {
        lemma_start_keeps_up(heightfield, mesh@);
    }
    Ok((mesh, candidates))
}

/// Approximates the height field by a mesh: the mesh over the box of the
/// grid, with the four corners of the grid inserted, is refined round by
/// round, each round inserting the best candidate with the greatest error,
/// until `max_vertices` points were inserted or no candidate has an error
/// above zero. Every triangle whose corners are cells of the grid has a
/// candidate throughout, the cell of its greatest error, whatever that
/// error is. Fails where the grid is empty or too large, or a round fails.
/// Every vertex of the mesh but the corners of the padded box is a cell of
/// the grid, the points that the refinement inserted lie apart from each
/// other, so that they are at most as many as the grid has cells, the mesh
/// has no gap, and where it was not the budget that ended the refinement,
/// as it was not where the budget is greater than the number of cells, the
/// field lies above no triangle whose corners are cells of the grid.
pub fn scape(heightfield: &impl Heightfield, max_vertices: usize) -> (result: Result<
    DelaunayMesh,
    ScapeError,
>)
    ensures
        match result {
            Ok(mesh) => scape_of(heightfield, max_vertices as nat) == Ok::<MeshView, ScapeError>(
                mesh@,
            ) && mesh.wf(),
            Err(e) => scape_of(heightfield, max_vertices as nat) == Err::<MeshView, ScapeError>(e),
        },
        result matches Ok(mesh) ==> {
            &&& 8 <= mesh@.positions.len() <= 8 + max_vertices
            &&& on_cells(heightfield, mesh@)
            &&& mesh@.closed()
            &&& inserted_apart(mesh@)
            &&& mesh@.positions.len() - 8 <= heightfield.spec_width() * heightfield.spec_height()
            &&& mesh@.positions.len() < 8 + max_vertices ==> refined(heightfield, mesh@)
            &&& max_vertices > heightfield.spec_width() * heightfield.spec_height() ==> refined(
                heightfield,
                mesh@,
            )
        },
{
    let (mut mesh, mut candidates) = match prepare(heightfield) {
        Err(e) => {
            assert(scape_of(heightfield, max_vertices as nat) == Err::<MeshView, ScapeError>(e));
            return Err(e);
        },
        Ok(pair) => pair,
    };
    let ghost start = ScapeView { mesh: mesh@, candidates: candidates@ };
    assert(scape_of(heightfield, max_vertices as nat) == (match run(
        heightfield,
        start,
        max_vertices as nat,
    ) {
        Ok(s) => Ok::<MeshView, ScapeError>(s.mesh),
        Err(e) => Err::<MeshView, ScapeError>(e),
    }));
    let mut n: usize = 0;
    let mut done = is_settled(&candidates);
    while n < max_vertices && !done
        invariant
            done == settled(candidates@),
            n <= max_vertices,
            mesh.wf(),
            forall|i: int| 0 <= i < candidates@.len() ==> (#[trigger] candidates@[i]).error.wf(),
            run(
                heightfield,
                ScapeView { mesh: mesh@, candidates: candidates@ },
                (max_vertices - n) as nat,
            ) == run(heightfield, start, max_vertices as nat),
            scape_of(heightfield, max_vertices as nat) == (match run(
                heightfield,
                start,
                max_vertices as nat,
            ) {
                Ok(s) => Ok::<MeshView, ScapeError>(s.mesh),
                Err(e) => Err::<MeshView, ScapeError>(e),
            }),
            keeps_up(heightfield, mesh@, candidates@),
            on_cells(heightfield, mesh@),
            mesh@.closed(),
            inserted_apart(mesh@),
            mesh@.positions.len() == 8 + n,
        decreases max_vertices - n,
    {
        let ghost before = ScapeView { mesh: mesh@, candidates: candidates@ };
        match refine(heightfield, &mut mesh, &mut candidates) {
            Err(e) => {
                assert(run(heightfield, before, (max_vertices - n) as nat) == Err::<
                    ScapeView,
                    ScapeError,
                >(e));
                return Err(e);
            },
            Ok(_) => {
                assert(run(heightfield, before, (max_vertices - n) as nat) == run(
                    heightfield,
                    ScapeView { mesh: mesh@, candidates: candidates@ },
                    (max_vertices - n - 1) as nat,
                ));
            },
        }
        n += 1;
        done = is_settled(&candidates);
    }
    proof {
        lemma_inserted_bounded(heightfield, mesh@);
        if n < max_vertices {
            lemma_settled_refined(heightfield, mesh@, candidates@);
        }
    }
    Ok(mesh)
}

} // verus!
