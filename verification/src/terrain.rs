//! A grid of fixed-point heights with its provenance, the layout of its
//! cells, and the faces of the solid that stands on it.

use crate::scape::Heightfield;
use rand::{Rng, SeedableRng};
use rand_pcg::Pcg32;
use vstd::prelude::*;

verus! {

/// Where the heights of a terrain come from.
#[derive(Debug, Clone, Copy, PartialEq, Eq, Structural)]
pub enum TerrainGenerator {
    /// Noise with the given seed.
    Noise { seed: u64 },
    /// The dual of a terrain made of noise with the given seed.
    Dual { parent_seed: u64 },
    /// An image.
    Heightmap,
}

impl TerrainGenerator {
    /// The provenance of the dual of a terrain of this provenance.
    pub open spec fn spec_dual(self) -> TerrainGenerator {
        match self {
            TerrainGenerator::Noise { seed } => TerrainGenerator::Dual { parent_seed: seed },
            TerrainGenerator::Dual { parent_seed } => TerrainGenerator::Noise { seed: parent_seed },
            TerrainGenerator::Heightmap => TerrainGenerator::Heightmap,
        }
    }

    /// The seed that the provenance names.
    pub open spec fn spec_seed(self) -> Option<u64> {
        match self {
            TerrainGenerator::Noise { seed } => Some(seed),
            TerrainGenerator::Dual { parent_seed } => Some(parent_seed),
            TerrainGenerator::Heightmap => None,
        }
    }

    /// The provenance of the dual of a terrain of this provenance.
    pub fn dual(&self) -> (g: TerrainGenerator)
        ensures
            g == self.spec_dual(),
    {
        match self {
            TerrainGenerator::Noise { seed } => TerrainGenerator::Dual { parent_seed: *seed },
            TerrainGenerator::Dual { parent_seed } => TerrainGenerator::Noise { seed: *parent_seed },
            TerrainGenerator::Heightmap => TerrainGenerator::Heightmap,
        }
    }

    /// The seed that the provenance names, if it names one.
    pub fn seed(&self) -> (s: Option<u64>)
        ensures
            s == self.spec_seed(),
    {
        match self {
            TerrainGenerator::Noise { seed } => Some(*seed),
            TerrainGenerator::Dual { parent_seed } => Some(*parent_seed),
            TerrainGenerator::Heightmap => None,
        }
    }
}

/// The first 32-bit number that the pcg32 generator of `rand_pcg` draws
/// after it was seeded with `seed`.
pub uninterp spec fn pcg32_first_draw(seed: u64) -> i32;

/// Calls `rand_pcg::Pcg32::seed_from_u64(seed)` and draws one `i32` from the
/// generator with `rand::Rng::gen`. The generator is seeded by the number
/// alone and is value-stable, so the draw is a function of `seed`; nothing
/// else is claimed of it.
#[verifier::external_body]
fn first_draw(seed: u64) -> (n: i32)
    ensures
        n == pcg32_first_draw(seed),
{
    Pcg32::seed_from_u64(seed).gen::<i32>()
}

/// The seed of the noise of a terrain with the seed `seed`.
pub fn noise_seed(seed: u64) -> (n: i32)
    ensures
        n == pcg32_first_draw(seed),
{
    first_draw(seed)
}

/// `v`, or the end of the range of `i32` that is nearest to it.
pub open spec fn clamp_i32(v: int) -> int {
    if v < i32::MIN {
        i32::MIN as int
    } else if v > i32::MAX {
        i32::MAX as int
    } else {
        v
    }
}

/// Position of the cell in column `x` and row `y` of a grid of `width`
/// columns that is laid out row by row.
pub open spec fn cell_index(width: int, x: int, y: int) -> int {
    y * width + x
}

/// A face of four vertices, each named by its position, from 1, among the
/// vertices of the solid: first those of the surface, row by row, then
/// those of the base, row by row.
pub type Quad = (usize, usize, usize, usize);

/// The face of the surface between the cells `(x, y)`, `(x + 1, y)`,
/// `(x + 1, y + 1)` and `(x, y + 1)`.
pub open spec fn surface_face(width: int, x: int, y: int) -> Quad {
    let i = 1 + cell_index(width, x, y);
    let j = 1 + cell_index(width, x, y + 1);
    (i as usize, (i + 1) as usize, (j + 1) as usize, j as usize)
}

/// The faces of the surface between row `y` and the next, column by column.
pub open spec fn surface_row(width: int, y: int) -> Seq<Quad> {
    Seq::new((width - 1) as nat, |x: int| surface_face(width, x, y))
}

/// The faces of the surface between the first `rows + 1` rows.
pub open spec fn surface_faces(width: int, rows: nat) -> Seq<Quad>
    decreases rows,
{
    if rows == 0 {
        Seq::empty()
    } else {
        surface_faces(width, (rows - 1) as nat) + surface_row(width, rows - 1)
    }
}

/// The face of the base.
pub open spec fn base_face(width: int, depth: int) -> Quad {
    let oi = width * depth + 1;
    (
        oi as usize,
        (oi + cell_index(width, 0, depth - 1)) as usize,
        (oi + cell_index(width, width - 1, depth - 1)) as usize,
        (oi + cell_index(width, width - 1, 0)) as usize,
    )
}

/// The two faces of the walls between row `y` and the next: that of the
/// first column and that of the last.
pub open spec fn wall_pair_of_row(width: int, depth: int, y: int) -> Seq<Quad> {
    let oi = width * depth + 1;
    seq![
        (
            (oi + cell_index(width, 0, y + 1)) as usize,
            (oi + cell_index(width, 0, y)) as usize,
            (1 + cell_index(width, 0, y)) as usize,
            (1 + cell_index(width, 0, y + 1)) as usize,
        ),
        (
            (oi + cell_index(width, width - 1, y)) as usize,
            (oi + cell_index(width, width - 1, y + 1)) as usize,
            (1 + cell_index(width, width - 1, y + 1)) as usize,
            (1 + cell_index(width, width - 1, y)) as usize,
        ),
    ]
}

/// The two faces of the walls between column `x` and the next: that of the
/// first row and that of the last.
pub open spec fn wall_pair_of_column(width: int, depth: int, x: int) -> Seq<Quad> {
    let oi = width * depth + 1;
    seq![
        (
            (oi + cell_index(width, x, 0)) as usize,
            (oi + cell_index(width, x + 1, 0)) as usize,
            (1 + cell_index(width, x + 1, 0)) as usize,
            (1 + cell_index(width, x, 0)) as usize,
        ),
        (
            (oi + cell_index(width, x + 1, depth - 1)) as usize,
            (oi + cell_index(width, x, depth - 1)) as usize,
            (1 + cell_index(width, x, depth - 1)) as usize,
            (1 + cell_index(width, x + 1, depth - 1)) as usize,
        ),
    ]
}

/// The faces of the walls along the first `rows + 1` rows.
pub open spec fn row_walls(width: int, depth: int, rows: nat) -> Seq<Quad>
    decreases rows,
{
    if rows == 0 {
        Seq::empty()
    } else {
        row_walls(width, depth, (rows - 1) as nat) + wall_pair_of_row(width, depth, rows - 1)
    }
}

/// The faces of the walls along the first `columns + 1` columns.
pub open spec fn column_walls(width: int, depth: int, columns: nat) -> Seq<Quad>
    decreases columns,
{
    if columns == 0 {
        Seq::empty()
    } else {
        column_walls(width, depth, (columns - 1) as nat) + wall_pair_of_column(
            width,
            depth,
            columns - 1,
        )
    }
}

/// The faces of the solid over a grid of `width` columns and `depth` rows:
/// those of the surface, row by row, and with `support` the base, the walls
/// along the rows and the walls along the columns.
pub open spec fn solid_faces(width: int, depth: int, support: bool) -> Seq<Quad> {
    let surface = if depth >= 1 && width >= 1 {
        surface_faces(width, (depth - 1) as nat)
    } else {
        Seq::empty()
    };
    if support {
        surface + seq![base_face(width, depth)] + row_walls(width, depth, (depth - 1) as nat)
            + column_walls(width, depth, (width - 1) as nat)
    } else {
        surface
    }
}

/// A grid of heights, row by row, with the greatest height that its source
/// can give and its provenance.
#[derive(Debug)]
pub struct Terrain {
    heights: Vec<i32>,
    width: usize,
    depth: usize,
    amplitude: i32,
    generator: TerrainGenerator,
}

impl Terrain {
    /// There is a height for every cell, the grid has at most `u32::MAX`
    /// columns and rows, and twice its cells can be numbered from 1.
    #[verifier::type_invariant]
    pub closed spec fn inv(self) -> bool {
        &&& self.heights@.len() == self.width * self.depth
        &&& self.width <= u32::MAX
        &&& self.depth <= u32::MAX
        &&& 2 * (self.width * self.depth) + 1 <= usize::MAX
    }

    /// Whether a terrain of `width` columns and `depth` rows can be made.
    pub open spec fn fits(width: usize, depth: usize) -> bool {
        width <= u32::MAX && depth <= u32::MAX && 2 * (width * depth) + 1 <= usize::MAX
    }

    /// The heights, row by row.
    pub closed spec fn spec_heights(self) -> Seq<i32> {
        self.heights@
    }

    /// Number of columns.
    pub closed spec fn cols(self) -> usize {
        self.width
    }

    /// Number of rows.
    pub closed spec fn rows(self) -> usize {
        self.depth
    }

    /// The greatest height that the source of the terrain can give.
    pub closed spec fn top(self) -> i32 {
        self.amplitude
    }

    /// Where the heights come from.
    pub closed spec fn origin(self) -> TerrainGenerator {
        self.generator
    }

    /// The heights of the dual: every row mirrored, every height taken from
    /// the amplitude.
    pub open spec fn dual_heights(self) -> Seq<i32> {
        Seq::new(
            self.spec_heights().len(),
            |i: int|
                clamp_i32(
                    self.top() - self.spec_heights()[cell_index(
                        self.cols() as int,
                        self.cols() - 1 - i % (self.cols() as int),
                        i / (self.cols() as int),
                    )],
                ) as i32,
        )
    }

    /// The terrain of `width` columns and `depth` rows with the heights
    /// `heights`, row by row, or `None` where the number of heights is not
    /// that of the cells or the grid is too large.
    pub fn new(
        width: usize,
        depth: usize,
        heights: Vec<i32>,
        amplitude: i32,
        generator: TerrainGenerator,
    ) -> (terrain: Option<Self>)
        ensures
            terrain is Some <==> Self::fits(width, depth) && heights@.len() == width * depth,
            terrain matches Some(t) ==> {
                &&& t.cols() == width
                &&& t.rows() == depth
                &&& t.spec_heights() == heights@
                &&& t.top() == amplitude
                &&& t.origin() == generator
            },
    {
        match Self::cells(width, depth) {
            Some(n) => if heights.len() == n {
                Some(Terrain { heights, width, depth, amplitude, generator })
            } else {
                None
            },
            None => None,
        }
    }

    /// The number of cells of a grid of `width` columns and `depth` rows,
    /// or `None` where no terrain of that size can be made.
    fn cells(width: usize, depth: usize) -> (n: Option<usize>)
        ensures
            n is Some <==> Self::fits(width, depth),
            n matches Some(k) ==> k == width * depth,
    {
        if width > u32::MAX as usize || depth > u32::MAX as usize {
            return None;
        }
        assert(0 <= width * depth <= 0xffff_ffff * 0xffff_ffff) by (nonlinear_arith)
            requires
                width <= 0xffff_ffff,
                depth <= 0xffff_ffff,
        ;
        let cells: u128 = (width as u128) * (depth as u128);
        if 2 * cells + 1 > usize::MAX as u128 {
            return None;
        }
        Some(cells as usize)
    }

    /// The terrain of noise with the seed `seed`, from the heights that the
    /// noise gave, row by row.
    pub fn generate(width: usize, depth: usize, heights: Vec<i32>, amplitude: i32, seed: u64) -> (terrain:
        Option<Self>)
        ensures
            terrain is Some <==> Self::fits(width, depth) && heights@.len() == width * depth,
            terrain matches Some(t) ==> {
                &&& t.cols() == width
                &&& t.rows() == depth
                &&& t.spec_heights() == heights@
                &&& t.top() == amplitude
                &&& t.origin() == (TerrainGenerator::Noise { seed })
            },
    {
        Self::new(width, depth, heights, amplitude, TerrainGenerator::Noise { seed })
    }

    /// The terrain of an image of `width` columns and `depth` rows, from the
    /// heights of its pixels, row by row from the top row: the top row of
    /// the image becomes the last row of the terrain.
    pub fn from_heightmap(width: usize, depth: usize, pixels: Vec<i32>, amplitude: i32) -> (terrain:
        Option<Self>)
        ensures
            terrain is Some <==> Self::fits(width, depth) && pixels@.len() == width * depth,
            terrain matches Some(t) ==> {
                &&& t.cols() == width
                &&& t.rows() == depth
                &&& t.top() == amplitude
                &&& t.origin() == TerrainGenerator::Heightmap
                &&& t.spec_heights() == flipped(pixels@, width as int, depth as int)
            },
    {
        let n = match Self::cells(width, depth) {
            Some(n) => n,
            None => {
                return None;
            },
        };
        if pixels.len() != n {
            return None;
        }
        let mut heights: Vec<i32> = Vec::new();
        let mut i: usize = 0;
        while i < n
            invariant
                i <= n,
                n == pixels@.len(),
                n == width * depth,
                heights@.len() == i,
                forall|j: int|
                    0 <= j < i ==> #[trigger] heights@[j] == flipped(
                        pixels@,
                        width as int,
                        depth as int,
                    )[j],
            decreases n - i,
        {
            assert(width > 0) by (nonlinear_arith)
                requires
                    i < width * depth,
            ;
            let y = i / width;
            let x = i % width;
            proof {
                lemma_place_in_grid(width as int, depth as int, i as int);
                lemma_cell_in_grid(width as int, depth as int, x as int, depth - 1 - y);
            }
            heights.push(pixels[(depth - 1 - y) * width + x]);
            i += 1;
        }
        assert(heights@ =~= flipped(pixels@, width as int, depth as int));
        Self::new(width, depth, heights, amplitude, TerrainGenerator::Heightmap)
    }

    /// The faces of the solid that stands on the terrain: those of the
    /// surface, and with `support` the base and the four walls. With
    /// `support` the grid must have a cell.
    pub fn faces(&self, support: bool) -> (quads: Vec<Quad>)
        requires
            support ==> self.cols() >= 1 && self.rows() >= 1,
        ensures
            quads@ == solid_faces(self.cols() as int, self.rows() as int, support),
    {
        proof {
            use_type_invariant(self);
        }
        let width = self.width;
        let depth = self.depth;
        let mut quads: Vec<Quad> = Vec::new();
        if depth >= 1 && width >= 1 {
            let mut y: usize = 0;
            while y < depth - 1
                invariant
                    y <= depth - 1,
                    width >= 1,
                    depth >= 1,
                    2 * (width * depth) + 1 <= usize::MAX,
                    quads@ == surface_faces(width as int, y as nat),
                decreases depth - 1 - y,
            {
                let ghost done = quads@;
                let mut x: usize = 0;
                assert(surface_row(width as int, y as int).take(0) =~= Seq::<Quad>::empty());
                while x < width - 1
                    invariant
                        x <= width - 1,
                        y < depth - 1,
                        width >= 1,
                        2 * (width * depth) + 1 <= usize::MAX,
                        quads@ == done + surface_row(width as int, y as int).take(x as int),
                    decreases width - 1 - x,
                {
                    proof {
                        lemma_cell_in_grid(width as int, depth as int, x + 1, y + 1);
                        lemma_cell_in_grid(width as int, depth as int, x as int, y as int);
                    }
                    let i = 1 + (y * width + x);
                    let j = 1 + ((y + 1) * width + x);
                    quads.push((i, i + 1, j + 1, j));
                    proof {
                        let row = surface_row(width as int, y as int);
                        assert(row.take(x + 1) =~= row.take(x as int).push(row[x as int]));
                        assert(quads@ =~= done + row.take(x + 1));
                    }
                    x += 1;
                }
                proof {
                    let row = surface_row(width as int, y as int);
                    assert(row.take(width - 1) =~= row);
                }
                y += 1;
            }
        }
        if support {
            let oi = width * depth + 1;
            proof {
                lemma_cell_in_grid(width as int, depth as int, 0, depth - 1);
                lemma_cell_in_grid(width as int, depth as int, width - 1, depth - 1);
                lemma_cell_in_grid(width as int, depth as int, width - 1, 0);
            }
            quads.push(
                (
                    oi,
                    oi + ((depth - 1) * width + 0),
                    oi + ((depth - 1) * width + (width - 1)),
                    oi + (0 * width + (width - 1)),
                ),
            );
            let ghost head = quads@;
            let mut y: usize = 0;
            while y < depth - 1
                invariant
                    y <= depth - 1,
                    width >= 1,
                    depth >= 1,
                    oi == width * depth + 1,
                    2 * (width * depth) + 1 <= usize::MAX,
                    quads@ == head + row_walls(width as int, depth as int, y as nat),
                decreases depth - 1 - y,
            {
                proof {
                    lemma_cell_in_grid(width as int, depth as int, 0, y + 1);
                    lemma_cell_in_grid(width as int, depth as int, 0, y as int);
                    lemma_cell_in_grid(width as int, depth as int, width - 1, y + 1);
                    lemma_cell_in_grid(width as int, depth as int, width - 1, y as int);
                }
                let ghost before = quads@;
                quads.push(
                    (
                        oi + ((y + 1) * width + 0),
                        oi + (y * width + 0),
                        1 + (y * width + 0),
                        1 + ((y + 1) * width + 0),
                    ),
                );
                quads.push(
                    (
                        oi + (y * width + (width - 1)),
                        oi + ((y + 1) * width + (width - 1)),
                        1 + ((y + 1) * width + (width - 1)),
                        1 + (y * width + (width - 1)),
                    ),
                );
                proof {
                    assert(quads@ =~= before + wall_pair_of_row(width as int, depth as int, y as int));
                    assert(quads@ =~= head + row_walls(width as int, depth as int, (y + 1) as nat));
                }
                y += 1;
            }
            let ghost middle = quads@;
            let mut x: usize = 0;
            while x < width - 1
                invariant
                    x <= width - 1,
                    width >= 1,
                    depth >= 1,
                    oi == width * depth + 1,
                    2 * (width * depth) + 1 <= usize::MAX,
                    quads@ == middle + column_walls(width as int, depth as int, x as nat),
                decreases width - 1 - x,
            {
                proof {
                    lemma_cell_in_grid(width as int, depth as int, x as int, 0);
                    lemma_cell_in_grid(width as int, depth as int, x + 1, 0);
                    lemma_cell_in_grid(width as int, depth as int, x as int, depth - 1);
                    lemma_cell_in_grid(width as int, depth as int, x + 1, depth - 1);
                }
                let ghost before = quads@;
                quads.push(
                    (
                        oi + (0 * width + x),
                        oi + (0 * width + (x + 1)),
                        1 + (0 * width + (x + 1)),
                        1 + (0 * width + x),
                    ),
                );
                quads.push(
                    (
                        oi + ((depth - 1) * width + (x + 1)),
                        oi + ((depth - 1) * width + x),
                        1 + ((depth - 1) * width + x),
                        1 + ((depth - 1) * width + (x + 1)),
                    ),
                );
                proof {
                    assert(quads@ =~= before + wall_pair_of_column(
                        width as int,
                        depth as int,
                        x as int,
                    ));
                    assert(quads@ =~= middle + column_walls(
                        width as int,
                        depth as int,
                        (x + 1) as nat,
                    ));
                }
                x += 1;
            }
            assert(quads@ =~= solid_faces(width as int, depth as int, support));
        }
        quads
    }

    /// Number of columns.
    pub fn width(&self) -> (w: usize)
        ensures
            w == self.cols(),
    {
        self.width
    }

    /// Number of rows.
    pub fn depth(&self) -> (d: usize)
        ensures
            d == self.rows(),
    {
        self.depth
    }

    /// The greatest height that the source of the terrain can give.
    pub fn amplitude(&self) -> (a: i32)
        ensures
            a == self.top(),
    {
        self.amplitude
    }

    /// Where the heights come from.
    pub fn generator(&self) -> (g: &TerrainGenerator)
        ensures
            *g == self.origin(),
    {
        &self.generator
    }

    /// Position of the cell in column `x` and row `y` among the heights.
    pub fn index_of(&self, x: usize, y: usize) -> (i: usize)
        requires
            x < self.cols(),
            y < self.rows(),
        ensures
            i == cell_index(self.cols() as int, x as int, y as int),
            i < self.spec_heights().len(),
    {
        proof {
            use_type_invariant(self);
            lemma_cell_in_grid(self.width as int, self.depth as int, x as int, y as int);
        }
        y * self.width + x
    }

    /// Height of the cell in column `x` and row `y`.
    pub fn height_at(&self, x: usize, y: usize) -> (z: i32)
        requires
            x < self.cols(),
            y < self.rows(),
        ensures
            z == self.spec_heights()[cell_index(self.cols() as int, x as int, y as int)],
    {
        let i = self.index_of(x, y);
        self.heights[i]
    }

    /// The cells, row by row: `(row, column)` of each.
    pub fn positions_by_depth(&self) -> (cells: Vec<(usize, usize)>)
        ensures
            cells@.len() == self.cols() * self.rows(),
            forall|i: int|
                0 <= i < cells@.len() ==> #[trigger] cells@[i] == (
                    (i / (self.cols() as int)) as usize,
                    (i % (self.cols() as int)) as usize,
                ),
    {
        proof {
            use_type_invariant(self);
        }
        let mut cells: Vec<(usize, usize)> = Vec::new();
        let n = self.heights.len();
        let mut i: usize = 0;
        while i < n
            invariant
                i <= n,
                n == self.width * self.depth,
                self.width == self.cols(),
                self.depth == self.rows(),
                cells@.len() == i,
                forall|j: int|
                    0 <= j < i ==> #[trigger] cells@[j] == (
                        (j / (self.width as int)) as usize,
                        (j % (self.width as int)) as usize,
                    ),
            decreases n - i,
        {
            assert(self.width > 0) by (nonlinear_arith)
                requires
                    i < self.width * self.depth,
            ;
            cells.push((i / self.width, i % self.width));
            i += 1;
        }
        cells
    }

    /// The cells with their heights, row by row: `(row, column, height)` of
    /// each.
    pub fn iter_by_depth(&self) -> (cells: Vec<(usize, usize, i32)>)
        ensures
            cells@.len() == self.spec_heights().len(),
            forall|i: int|
                0 <= i < cells@.len() ==> #[trigger] cells@[i] == (
                    (i / (self.cols() as int)) as usize,
                    (i % (self.cols() as int)) as usize,
                    self.spec_heights()[i],
                ),
    {
        proof {
            use_type_invariant(self);
        }
        let mut cells: Vec<(usize, usize, i32)> = Vec::new();
        let mut i: usize = 0;
        while i < self.heights.len()
            invariant
                i <= self.heights@.len(),
                self.width == self.cols(),
                self.heights@ == self.spec_heights(),
                self.heights@.len() == self.width * self.depth,
                cells@.len() == i,
                forall|j: int|
                    0 <= j < i ==> #[trigger] cells@[j] == (
                        (j / (self.width as int)) as usize,
                        (j % (self.width as int)) as usize,
                        self.heights@[j],
                    ),
            decreases self.heights@.len() - i,
        {
            assert(self.width > 0) by (nonlinear_arith)
                requires
                    i < self.width * self.depth,
            ;
            cells.push((i / self.width, i % self.width, self.heights[i]));
            i += 1;
        }
        cells
    }

    /// The dual of the terrain: the heights that fill the terrain up to its
    /// amplitude, every row mirrored, so that the two stack into a block. A
    /// height beyond the range of `i32` becomes the nearest end of the range.
    pub fn dual(&self) -> (other: Terrain)
        ensures
            other.cols() == self.cols(),
            other.rows() == self.rows(),
            other.top() == self.top(),
            other.origin() == self.origin().spec_dual(),
            other.spec_heights() == self.dual_heights(),
    {
        proof {
            use_type_invariant(self);
        }
        let mut heights: Vec<i32> = Vec::new();
        let mut y: usize = 0;
        while y < self.depth
            invariant
                y <= self.depth,
                self.inv(),
                heights@.len() == y * self.width,
                heights@.len() <= self.dual_heights().len(),
                forall|i: int| 0 <= i < heights@.len() ==> #[trigger] heights@[i] == self.dual_heights()[i],
            decreases self.depth - y,
        {
            let mut x: usize = 0;
            while x < self.width
                invariant
                    x <= self.width,
                    y < self.depth,
                    self.inv(),
                    heights@.len() == y * self.width + x,
                    heights@.len() <= self.dual_heights().len(),
                    forall|i: int|
                        0 <= i < heights@.len() ==> #[trigger] heights@[i] == self.dual_heights()[i],
                decreases self.width - x,
            {
                let z = self.height_at(self.width - 1 - x, y);
                let wide: i64 = self.amplitude as i64 - z as i64;
                let kept: i32 = if wide < i32::MIN as i64 {
                    i32::MIN
                } else if wide > i32::MAX as i64 {
                    i32::MAX
                } else {
                    wide as i32
                };
                proof {
                    let i = y * self.width + x;
                    lemma_cell_in_grid(self.width as int, self.depth as int, x as int, y as int);
                    lemma_cell_parts(self.width as int, x as int, y as int);
                }
                heights.push(kept);
                x += 1;
            }
            proof {
                assert((y + 1) * self.width == y * self.width + self.width) by (nonlinear_arith);
                assert((y + 1) * self.width <= self.width * self.depth) by (nonlinear_arith)
                    requires
                        y + 1 <= self.depth,
                ;
            }
            y += 1;
        }
        assert(self.depth * self.width == self.width * self.depth) by (nonlinear_arith);
        assert(heights@ =~= self.dual_heights());
        Terrain {
            heights,
            width: self.width,
            depth: self.depth,
            amplitude: self.amplitude,
            generator: self.generator.dual(),
        }
    }
}

/// The values of a grid of `width` columns and `depth` rows, row by row,
/// with the order of the rows reversed.
pub open spec fn flipped(values: Seq<i32>, width: int, depth: int) -> Seq<i32> {
    Seq::new(
        values.len(),
        |i: int| values[cell_index(width, i % width, depth - 1 - i / width)],
    )
}

/// A position among the cells of a grid is that of a cell of the grid.
pub proof fn lemma_place_in_grid(width: int, depth: int, i: int)
    requires
        0 <= i < width * depth,
        0 < width,
    ensures
        0 <= i / width < depth,
        0 <= i % width < width,
{
    vstd::arithmetic::div_mod::lemma_multiply_divide_lt(i, width, depth);
    vstd::arithmetic::div_mod::lemma_div_pos_is_pos(i, width);
    vstd::arithmetic::div_mod::lemma_mod_bound(i, width);
}

/// A cell of a grid has a position among the cells of the grid.
pub proof fn lemma_cell_in_grid(width: int, depth: int, x: int, y: int)
    by (nonlinear_arith)
    requires
        0 <= x < width,
        0 <= y < depth,
    ensures
        0 <= cell_index(width, x, y) < width * depth,
        y * width >= 0,
{
}

/// The row and the column of a cell are the quotient and the remainder of
/// its position by the width of the grid.
pub proof fn lemma_cell_parts(width: int, x: int, y: int)
    requires
        0 <= x < width,
        0 <= y,
    ensures
        cell_index(width, x, y) / width == y,
        cell_index(width, x, y) % width == x,
{
    vstd::arithmetic::div_mod::lemma_fundamental_div_mod_converse(y * width + x, width, y, x);
}

impl Heightfield for Terrain {
    open spec fn spec_width(&self) -> u32 {
        self.cols() as u32
    }

    open spec fn spec_height(&self) -> u32 {
        self.rows() as u32
    }

    open spec fn spec_height_at(&self, x: u32, y: u32) -> i32 {
        self.spec_heights()[cell_index(self.cols() as int, x as int, y as int)]
    }

    fn width(&self) -> (w: u32) {
        proof {
            use_type_invariant(self);
        }
        self.width as u32
    }

    fn height(&self) -> (h: u32) {
        proof {
            use_type_invariant(self);
        }
        self.depth as u32
    }

    fn height_at(&self, x: u32, y: u32) -> (z: i32) {
        proof {
            use_type_invariant(self);
        }
        Terrain::height_at(self, x as usize, y as usize)
    }
}

} // verus!
