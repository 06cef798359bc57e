//! Board state model: the triangular grid of pegs, its construction rule,
//! and the counting functions that the rest of the solver reasons with.

use vstd::prelude::*;
use vstd::string::StringExecFns;

verus! {

/// State of one grid cell.  `Invalid` cells are permanent padding outside
/// the triangular footprint and never take part in a move.
#[derive(Clone, Copy, Debug, PartialEq, Eq, Structural, Hash)]
pub enum PegState {
    Occupied,
    Empty,
    Invalid,
}

/// Where the single starting hole is placed.
#[derive(Clone, Copy, Debug, PartialEq, Eq, Structural)]
pub enum InitialHole {
    Center,
    At(usize, usize),
}

/// Error kinds raised by board construction and variant dispatch.
#[derive(Clone, Copy, Debug, PartialEq, Eq, Structural)]
pub enum SolverError {
    Configuration,
    UnsupportedVariant,
}

/// First playable column of row `i` on a board of side `size`.
pub open spec fn row_first(size: int, i: int) -> int {
    if i == 0 {
        size / 2
    } else {
        size / 2 - (i + 1) / 2
    }
}

/// Whether cell `(i, j)` lies inside the triangular footprint.
pub open spec fn playable(size: int, i: int, j: int) -> bool {
    &&& 0 <= i < size
    &&& row_first(size, i) <= j <= row_first(size, i) + i
}

/// A well-formed grid: square of side `size >= 1`, `Invalid` exactly
/// outside the triangular footprint.
pub open spec fn wf_mat(g: Seq<Seq<PegState>>) -> bool {
    &&& g.len() >= 1
    &&& forall|i: int| 0 <= i < g.len() ==> (#[trigger] g[i]).len() == g.len()
    &&& forall|i: int, j: int|
        0 <= i < g.len() && 0 <= j < g.len() ==> ((#[trigger] g[i][j] == PegState::Invalid)
            <==> !playable(g.len() as int, i, j))
}

/// Number of cells in state `s` among the first `n` cells of a row.
pub open spec fn row_count(r: Seq<PegState>, s: PegState, n: int) -> int
    decreases n,
{
    if n <= 0 {
        0
    } else {
        row_count(r, s, n - 1) + (if r[n - 1] == s {
            1int
        } else {
            0int
        })
    }
}

/// Number of cells in state `s` among the first `n` rows of a grid.
pub open spec fn mat_count(g: Seq<Seq<PegState>>, s: PegState, n: int) -> int
    decreases n,
{
    if n <= 0 {
        0
    } else {
        mat_count(g, s, n - 1) + row_count(g[n - 1], s, g[n - 1].len() as int)
    }
}

/// Number of `Occupied` cells on the whole grid.
pub open spec fn occupied_of(g: Seq<Seq<PegState>>) -> int {
    mat_count(g, PegState::Occupied, g.len() as int)
}

/// Number of playable (non-`Invalid`) cells on the whole grid.
pub open spec fn playable_of(g: Seq<Seq<PegState>>) -> int {
    mat_count(g, PegState::Occupied, g.len() as int) + mat_count(g, PegState::Empty, g.len() as int)
}

/// A terminal (won) position: exactly one peg left anywhere.
pub open spec fn terminal_mat(g: Seq<Seq<PegState>>) -> bool {
    occupied_of(g) == 1
}

/// The grid with cell `(i, j)` replaced by `v`.
pub open spec fn mat_upd(g: Seq<Seq<PegState>>, i: int, j: int, v: PegState) -> Seq<Seq<PegState>> {
    g.update(i, g[i].update(j, v))
}

/// The hole coordinate selected by `h` on a board of side `size`.
pub open spec fn hole_coord(size: int, h: InitialHole) -> (int, int) {
    match h {
        InitialHole::Center => (size / 2, size / 2),
        InitialHole::At(i, j) => (i as int, j as int),
    }
}

/// A construction request that addresses a playable hole on a board whose
/// grid fits in memory.
pub open spec fn valid_config(size: int, h: InitialHole) -> bool {
    &&& 1 <= size
    &&& size * size <= usize::MAX as int
    &&& playable(size, hole_coord(size, h).0, hole_coord(size, h).1)
}

/// The initial state of cell `(i, j)`: the hole is `Empty`, every other
/// playable cell `Occupied`, the padding `Invalid`.
pub open spec fn init_cell(size: int, h: InitialHole, i: int, j: int) -> PegState {
    if i == hole_coord(size, h).0 && j == hole_coord(size, h).1 {
        PegState::Empty
    } else if playable(size, i, j) {
        PegState::Occupied
    } else {
        PegState::Invalid
    }
}

pub proof fn lemma_row_count_nonneg(r: Seq<PegState>, s: PegState, n: int)
    ensures
        row_count(r, s, n) >= 0,
    decreases n,
{
    if n > 0 {
        lemma_row_count_nonneg(r, s, n - 1);
    }
}

pub proof fn lemma_mat_count_nonneg(g: Seq<Seq<PegState>>, s: PegState, n: int)
    ensures
        mat_count(g, s, n) >= 0,
    decreases n,
{
    if n > 0 {
        lemma_mat_count_nonneg(g, s, n - 1);
        lemma_row_count_nonneg(g[n - 1], s, g[n - 1].len() as int);
    }
}

/// Counting is unchanged on rows the update does not touch, and shifts by
/// the difference of the old and new cell on the row it does.
pub proof fn lemma_row_count_update(r: Seq<PegState>, s: PegState, y: int, v: PegState, n: int)
    requires
        0 <= y < r.len(),
        n <= r.len(),
    ensures
        row_count(r.update(y, v), s, n) == row_count(r, s, n) + (if y < n {
            (if v == s {
                1int
            } else {
                0int
            }) - (if r[y] == s {
                1int
            } else {
                0int
            })
        } else {
            0int
        }),
    decreases n,
{
    if n > 0 {
        lemma_row_count_update(r, s, y, v, n - 1);
    }
}

pub proof fn lemma_mat_count_update(
    g: Seq<Seq<PegState>>,
    s: PegState,
    x: int,
    y: int,
    v: PegState,
    n: int,
)
    requires
        0 <= x < g.len(),
        0 <= y < g[x].len(),
        n <= g.len(),
    ensures
        mat_count(mat_upd(g, x, y, v), s, n) == mat_count(g, s, n) + (if x < n {
            (if v == s {
                1int
            } else {
                0int
            }) - (if g[x][y] == s {
                1int
            } else {
                0int
            })
        } else {
            0int
        }),
    decreases n,
{
    if n > 0 {
        lemma_mat_count_update(g, s, x, y, v, n - 1);
        if x == n - 1 {
            lemma_row_count_update(g[x], s, y, v, g[x].len() as int);
        } else {
            assert(mat_upd(g, x, y, v)[n - 1] == g[n - 1]);
        }
    }
}

/// A row whose cells in state `s` are exactly those in `[lo, hi)` has
/// `min(n, hi) - min(n, lo)` of them among its first `n` cells.
pub proof fn lemma_row_count_interval(r: Seq<PegState>, s: PegState, n: int, lo: int, hi: int)
    requires
        0 <= n <= r.len(),
        0 <= lo <= hi,
        forall|j: int| 0 <= j < n ==> ((r[j] == s) <==> (lo <= j < hi)),
    ensures
        row_count(r, s, n) == (if n <= lo {
            0int
        } else if n <= hi {
            n - lo
        } else {
            hi - lo
        }),
    decreases n,
{
    if n > 0 {
        lemma_row_count_interval(r, s, n - 1, lo, hi);
    }
}

/// A cell in state `s` puts the count over any prefix that covers it at 1
/// or more.
pub proof fn lemma_row_count_at_least(r: Seq<PegState>, s: PegState, j: int, n: int)
    requires
        0 <= j < n <= r.len(),
        r[j] == s,
    ensures
        row_count(r, s, n) >= 1,
    decreases n,
{
    lemma_row_count_nonneg(r, s, n - 1);
    if j < n - 1 {
        lemma_row_count_at_least(r, s, j, n - 1);
    }
}

pub proof fn lemma_mat_count_mono(g: Seq<Seq<PegState>>, s: PegState, n1: int, n2: int)
    requires
        n1 <= n2,
    ensures
        mat_count(g, s, n1) <= mat_count(g, s, n2),
    decreases n2 - n1,
{
    if n1 < n2 {
        lemma_mat_count_mono(g, s, n1, n2 - 1);
        if n2 > 0 {
            lemma_row_count_nonneg(g[n2 - 1], s, g[n2 - 1].len() as int);
        }
    }
}

/// A cell in state `s` puts the whole-grid count at 1 or more.
pub proof fn lemma_mat_count_at_least(g: Seq<Seq<PegState>>, s: PegState, i: int, j: int)
    requires
        0 <= i < g.len(),
        0 <= j < g[i].len(),
        g[i][j] == s,
    ensures
        mat_count(g, s, g.len() as int) >= 1,
{
    lemma_row_count_at_least(g[i], s, j, g[i].len() as int);
    lemma_mat_count_nonneg(g, s, i);
    assert(mat_count(g, s, i + 1) >= 1);
    lemma_mat_count_mono(g, s, i + 1, g.len() as int);
}

/// Two distinct cells in state `s` put the whole-grid count at 2 or more.
pub proof fn lemma_mat_count_two(g: Seq<Seq<PegState>>, s: PegState, i1: int, j1: int, i2: int, j2: int)
    requires
        0 <= i1 < g.len(),
        0 <= j1 < g[i1].len(),
        0 <= i2 < g.len(),
        0 <= j2 < g[i2].len(),
        (i1, j1) != (i2, j2),
        g[i1][j1] == s,
        g[i2][j2] == s,
        s != PegState::Invalid,
    ensures
        mat_count(g, s, g.len() as int) >= 2,
{
    let g2 = mat_upd(g, i1, j1, PegState::Invalid);
    lemma_mat_count_update(g, s, i1, j1, PegState::Invalid, g.len() as int);
    assert(g2[i2][j2] == s);
    lemma_mat_count_at_least(g2, s, i2, j2);
    assert(g2.len() == g.len());
}

/// Row-major flattening is injective: two cells inside the grid share a
/// flat index only if they are the same cell.
pub proof fn lemma_flat_index(size: int, i1: int, j1: int, i2: int, j2: int)
    requires
        0 <= i1 < size,
        0 <= j1 < size,
        0 <= i2 < size,
        0 <= j2 < size,
    ensures
        0 <= i1 * size + j1 < size * size,
        i1 * size + j1 == i2 * size + j2 ==> (i1 == i2 && j1 == j2),
{
    assert(0 <= i1 * size + j1 < size * size) by (nonlinear_arith)
        requires
            0 <= i1 < size,
            0 <= j1 < size,
    ;
    assert(i1 * size + j1 == i2 * size + j2 ==> (i1 == i2 && j1 == j2)) by (nonlinear_arith)
        requires
            0 <= i1 < size,
            0 <= j1 < size,
            0 <= i2 < size,
            0 <= j2 < size,
    ;
}

/// Row-major flat indices respect the row-major order on cells.
pub proof fn lemma_flat_index_lt(size: int, i1: int, j1: int, i2: int, j2: int)
    requires
        0 <= i1 < size,
        0 <= j1 < size,
        0 <= i2 < size,
        0 <= j2 < size,
        i1 < i2 || (i1 == i2 && j1 < j2),
    ensures
        i1 * size + j1 < i2 * size + j2,
{
    assert(i1 * size + j1 < i2 * size + j2) by (nonlinear_arith)
        requires
            0 <= i1 < size,
            0 <= j1 < size,
            0 <= i2 < size,
            0 <= j2 < size,
            i1 < i2 || (i1 == i2 && j1 < j2),
    ;
}

/// The playable span of every row stays inside the grid.
pub proof fn lemma_row_span_in_grid(size: int, i: int)
    requires
        1 <= size,
        0 <= i < size,
    ensures
        0 <= row_first(size, i),
        row_first(size, i) + i < size,
{
    assert((i + 1) / 2 <= size / 2);
    assert(i - (i + 1) / 2 == i / 2);
    assert(size / 2 + i / 2 <= size / 2 + (size - 1) / 2);
    assert(size / 2 + (size - 1) / 2 == size - 1);
}

/// Exact peg counts over the first `n` rows of a freshly initialized grid.
proof fn lemma_init_counts(size: int, h: InitialHole, g: Seq<Seq<PegState>>, n: int)
    requires
        valid_config(size, h),
        g.len() == size,
        forall|i: int| 0 <= i < size ==> (#[trigger] g[i]).len() == size,
        forall|i: int, j: int|
            0 <= i < size && 0 <= j < size ==> #[trigger] g[i][j] == init_cell(size, h, i, j),
        0 <= n <= size,
    ensures
        mat_count(g, PegState::Empty, n) == (if hole_coord(size, h).0 < n {
            1int
        } else {
            0int
        }),
        2 * mat_count(g, PegState::Occupied, n) == n * (n + 1) - 2 * (if hole_coord(size, h).0 < n {
            1int
        } else {
            0int
        }),
    decreases n,
{
    let hi = hole_coord(size, h).0;
    let hj = hole_coord(size, h).1;
    if n > 0 {
        lemma_init_counts(size, h, g, n - 1);
        let i = n - 1;
        let r = g[i];
        let lo = row_first(size, i);
        lemma_row_span_in_grid(size, i);
        if i == hi {
            // The hole row: one `Empty` cell at `hj`, the rest of the span `Occupied`.
            lemma_row_count_interval(r, PegState::Empty, size, hj, hj + 1);
            let full = r.update(hj, PegState::Occupied);
            assert(forall|j: int| 0 <= j < size ==> ((full[j] == PegState::Occupied) <==> (lo <= j
                < lo + i + 1)));
            lemma_row_count_interval(full, PegState::Occupied, size, lo, lo + i + 1);
            lemma_row_count_update(full, PegState::Occupied, hj, PegState::Empty, size);
            assert(full.update(hj, PegState::Empty) =~= r);
            assert(row_count(r, PegState::Occupied, size) == i);
        } else {
            lemma_row_count_interval(r, PegState::Empty, size, 0, 0);
            assert(forall|j: int| 0 <= j < size ==> ((r[j] == PegState::Occupied) <==> (lo <= j < lo
                + i + 1)));
            lemma_row_count_interval(r, PegState::Occupied, size, lo, lo + i + 1);
            assert(row_count(r, PegState::Occupied, size) == i + 1);
        }
        assert(r.len() == size);
        assert((n - 1) * n + 2 * n == n * (n + 1)) by (nonlinear_arith);
    }
}

/// The two-character glyph a cell is drawn with: a peg, a middle dot for
/// a hole, or blank padding.
pub open spec fn glyph(s: PegState) -> Seq<char> {
    match s {
        PegState::Occupied => " o"@,
        PegState::Empty => " \u{b7}"@,
        PegState::Invalid => "  "@,
    }
}

/// The glyphs of the first `n` cells of a row, concatenated.
pub open spec fn row_glyphs(r: Seq<PegState>, n: int) -> Seq<char>
    decreases n,
{
    if n <= 0 {
        Seq::empty()
    } else {
        row_glyphs(r, n - 1) + glyph(r[n - 1])
    }
}

/// One rendered line: an extra leading space on odd rows, then the row's
/// glyphs.
pub open spec fn line_render(g: Seq<Seq<PegState>>, i: int) -> Seq<char> {
    (if i % 2 == 1 {
        " "@
    } else {
        Seq::<char>::empty()
    }) + row_glyphs(g[i], g[i].len() as int)
}

/// First playable column of row `i`, computed at run time.
pub fn row_start(size: usize, i: usize) -> (r: usize)
    requires
        1 <= size,
        i < size,
    ensures
        r as int == row_first(size as int, i as int),
{
    if i == 0 {
        size / 2
    } else {
        assert((i + 1) / 2 <= size / 2);
        size / 2 - (i + 1) / 2
    }
}

/// The triangular board: a flat row-major grid of `size * size` cells.
#[derive(Clone, Debug)]
pub struct TriangleBoard {
    pub size: usize,
    pub cells: Vec<PegState>,
}

impl TriangleBoard {
    /// The side of the square grid.
    pub open spec fn side(self) -> int {
        self.size as int
    }

    /// The stored cells have exactly `size * size` entries.
    pub open spec fn dims_ok(self) -> bool {
        &&& 1 <= self.size
        &&& self.cells@.len() == self.size * self.size
    }

    /// The grid seen as a sequence of rows.
    pub open spec fn mat(self) -> Seq<Seq<PegState>> {
        Seq::new(
            self.size as nat,
            |i: int| Seq::new(self.size as nat, |j: int| self.cells@[i * self.size + j]),
        )
    }

    /// Well-formed board: correct dimensions and triangular footprint.
    pub open spec fn wf(self) -> bool {
        &&& self.dims_ok()
        &&& wf_mat(self.mat())
    }

    /// Build a board of side `size` whose single hole is chosen by
    /// `initial_hole`; every other playable cell starts `Occupied`.  A size
    /// of zero, a grid too large for the address space, or a hole that does
    /// not address a playable cell is rejected.
    pub fn new(size: usize, initial_hole: InitialHole) -> (r: Result<TriangleBoard, SolverError>)
        ensures
            match r {
                Ok(b) => {
                    &&& valid_config(size as int, initial_hole)
                    &&& b.wf()
                    &&& b.side() == size
                    &&& forall|i: int, j: int|
                        0 <= i < size && 0 <= j < size ==> #[trigger] b.mat()[i][j] == init_cell(
                            size as int,
                            initial_hole,
                            i,
                            j,
                        )
                    &&& mat_count(b.mat(), PegState::Empty, size as int) == 1
                    &&& occupied_of(b.mat()) == (size as int) * (size as int + 1) / 2 - 1
                    &&& playable_of(b.mat()) == (size as int) * (size as int + 1) / 2
                },
                Err(e) => {
                    &&& e == SolverError::Configuration
                    &&& !valid_config(size as int, initial_hole)
                },
            },
    {
        if size == 0 {
            return Err(SolverError::Configuration);
        }
        if size.checked_mul(size).is_none() {
            return Err(SolverError::Configuration);
        }
        let (hi, hj) = match initial_hole {
            InitialHole::Center => (size / 2, size / 2),
            InitialHole::At(i, j) => (i, j),
        };
        if hi >= size {
            return Err(SolverError::Configuration);
        }
        let hst = row_start(size, hi);
        if hj < hst || hj - hst > hi {
            return Err(SolverError::Configuration);
        }
        if hj >= size {
            // Unreachable: the playable span never leaves the grid.
            proof {
                lemma_row_span_in_grid(size as int, hi as int);
            }
            return Err(SolverError::Configuration);
        }
        let mut cells: Vec<PegState> = Vec::new();
        let mut i: usize = 0;
        while i < size
            invariant
                1 <= size,
                size * size <= usize::MAX as int,
                hi < size,
                hj < size,
                hi as int == hole_coord(size as int, initial_hole).0,
                hj as int == hole_coord(size as int, initial_hole).1,
                valid_config(size as int, initial_hole),
                i <= size,
                cells@.len() == i * size,
                forall|i2: int, j2: int|
                    0 <= i2 < i && 0 <= j2 < size ==> #[trigger] cells@[i2 * size + j2]
                        == init_cell(size as int, initial_hole, i2, j2),
            decreases size - i,
        {
            let st = row_start(size, i);
            proof {
                lemma_row_span_in_grid(size as int, i as int);
            }
            let mut j: usize = 0;
            while j < size
                invariant
                    1 <= size,
                    size * size <= usize::MAX as int,
                    hi < size,
                    hj < size,
                    hi as int == hole_coord(size as int, initial_hole).0,
                    hj as int == hole_coord(size as int, initial_hole).1,
                    i < size,
                    j <= size,
                    st as int == row_first(size as int, i as int),
                    cells@.len() == i * size + j,
                    forall|i2: int, j2: int|
                        0 <= i2 < i && 0 <= j2 < size ==> #[trigger] cells@[i2 * size + j2]
                            == init_cell(size as int, initial_hole, i2, j2),
                    forall|j2: int|
                        0 <= j2 < j ==> #[trigger] cells@[i as int * size + j2] == init_cell(
                            size as int,
                            initial_hole,
                            i as int,
                            j2,
                        ),
                decreases size - j,
            {
                proof {
                    lemma_flat_index(size as int, i as int, j as int, i as int, j as int);
                }
                let v = if i == hi && j == hj {
                    PegState::Empty
                } else if j >= st && j - st <= i {
                    PegState::Occupied
                } else {
                    PegState::Invalid
                };
                cells.push(v);
                proof {
                    assert(v == init_cell(size as int, initial_hole, i as int, j as int));
                    assert forall|i2: int, j2: int|
                        0 <= i2 < i && 0 <= j2 < size implies #[trigger] cells@[i2 * size + j2]
                        == init_cell(size as int, initial_hole, i2, j2) by {
                        lemma_flat_index(size as int, i2, j2, i2, j2);
                        lemma_flat_index_lt(size as int, i2, j2, i as int, j as int);
                    }
                    assert forall|j2: int|
                        0 <= j2 < j + 1 implies #[trigger] cells@[i as int * size + j2]
                        == init_cell(size as int, initial_hole, i as int, j2) by {
                        lemma_flat_index(size as int, i as int, j2, i as int, j2);
                        if j2 < j {
                            lemma_flat_index_lt(size as int, i as int, j2, i as int, j as int);
                        }
                    }
                }
                j = j + 1;
            }
            proof {
                assert((i as int + 1) * size as int == i as int * size as int + size as int)
                    by (nonlinear_arith);
            }
            i = i + 1;
        }
        let b = TriangleBoard { size, cells };
        proof {
            assert(b.cells@.len() == size * size);
            assert forall|i2: int, j2: int|
                0 <= i2 < size && 0 <= j2 < size implies #[trigger] b.mat()[i2][j2] == init_cell(
                size as int,
                initial_hole,
                i2,
                j2,
            ) by {
                lemma_flat_index(size as int, i2, j2, 0, 0);
                assert(b.mat()[i2][j2] == b.cells@[i2 * size as int + j2]);
            }
            assert forall|i2: int, j2: int|
                0 <= i2 < size && 0 <= j2 < size implies ((#[trigger] b.mat()[i2][j2]
                == PegState::Invalid) <==> !playable(size as int, i2, j2)) by {
                lemma_row_span_in_grid(size as int, i2);
            }
            assert(b.wf());
            lemma_init_counts(size as int, initial_hole, b.mat(), size as int);
            let t = (size as int) * (size as int + 1);
            assert(2 * occupied_of(b.mat()) == t - 2);
            assert(t == 2 * (occupied_of(b.mat()) + 1));
            assert(t / 2 == occupied_of(b.mat()) + 1);
            assert(2 * mat_count(b.mat(), PegState::Empty, size as int) + 2 * occupied_of(b.mat())
                == t);
        }
        Ok(b)
    }

    /// The side length of the grid.
    pub fn size(&self) -> (r: usize)
        ensures
            r as int == self.side(),
    {
        self.size
    }

    /// The state of cell `(i, j)`.
    pub fn cell(&self, i: usize, j: usize) -> (r: PegState)
        requires
            self.dims_ok(),
            i < self.side(),
            j < self.side(),
        ensures
            r == self.mat()[i as int][j as int],
    {
        let n = self.cells.len();
        proof {
            lemma_flat_index(self.side(), i as int, j as int, i as int, j as int);
            assert(n as int == self.side() * self.side());
        }
        self.cells[i * self.size + j]
    }

    /// Replace the state of cell `(i, j)`.
    pub(crate) fn set_cell(&mut self, i: usize, j: usize, v: PegState)
        requires
            old(self).dims_ok(),
            i < old(self).side(),
            j < old(self).side(),
        ensures
            final(self).dims_ok(),
            final(self).side() == old(self).side(),
            final(self).mat() == mat_upd(old(self).mat(), i as int, j as int, v),
    {
        let n = self.cells.len();
        proof {
            lemma_flat_index(self.side(), i as int, j as int, i as int, j as int);
            assert(n as int == self.side() * self.side());
        }
        let k = i * self.size + j;
        self.cells[k] = v;
        proof {
            let size = self.side();
            let gold = old(self).mat();
            let gnew = self.mat();
            assert forall|i2: int, j2: int|
                0 <= i2 < size && 0 <= j2 < size implies gnew[i2][j2] == mat_upd(
                gold,
                i as int,
                j as int,
                v,
            )[i2][j2] by {
                lemma_flat_index(size, i2, j2, i as int, j as int);
            }
            assert(gnew =~~= mat_upd(gold, i as int, j as int, v));
        }
    }

    /// An independent copy of the board.
    pub fn duplicate(&self) -> (r: TriangleBoard)
        ensures
            r.side() == self.side(),
            r.mat() == self.mat(),
            r.dims_ok() == self.dims_ok(),
            r.wf() == self.wf(),
    {
        let n = self.cells.len();
        let mut cells: Vec<PegState> = Vec::new();
        let mut k: usize = 0;
        while k < n
            invariant
                k <= n,
                n == self.cells@.len(),
                cells@.len() == k,
                forall|t: int| 0 <= t < k ==> cells@[t] == self.cells@[t],
            decreases n - k,
        {
            cells.push(self.cells[k]);
            k = k + 1;
        }
        let r = TriangleBoard { size: self.size, cells };
        proof {
            assert(r.cells@ =~= self.cells@);
            assert(r.mat() =~~= self.mat());
        }
        r
    }

    /// Number of `Occupied` cells on the board.
    pub fn occupied_count(&self) -> (r: usize)
        requires
            self.wf(),
        ensures
            r as int == occupied_of(self.mat()),
    {
        let g = Ghost(self.mat());
        let size = self.size;
        let n = self.cells.len();
        proof {
            assert(n as int == self.side() * self.side());
        }
        let mut count: usize = 0;
        let mut i: usize = 0;
        while i < size
            invariant
                self.wf(),
                size == self.side(),
                size * size <= usize::MAX as int,
                i <= size,
                count as int == mat_count(g@, PegState::Occupied, i as int),
                count as int <= i * size,
                g@ == self.mat(),
            decreases size - i,
        {
            let mut j: usize = 0;
            while j < size
                invariant
                    self.wf(),
                    size == self.side(),
                    size * size <= usize::MAX as int,
                    i < size,
                    j <= size,
                    count as int == mat_count(g@, PegState::Occupied, i as int) + row_count(
                        g@[i as int],
                        PegState::Occupied,
                        j as int,
                    ),
                    count as int <= i * size + j,
                    g@ == self.mat(),
                decreases size - j,
            {
                proof {
                    lemma_flat_index(size as int, i as int, j as int, i as int, j as int);
                }
                if self.cell(i, j) == PegState::Occupied {
                    count = count + 1;
                }
                j = j + 1;
            }
            proof {
                assert(g@[i as int].len() == size as int);
                assert(mat_count(g@, PegState::Occupied, i as int + 1) == mat_count(
                    g@,
                    PegState::Occupied,
                    i as int,
                ) + row_count(g@[i as int], PegState::Occupied, size as int));
                assert((i as int + 1) * size as int == i as int * size as int + size as int)
                    by (nonlinear_arith);
            }
            i = i + 1;
        }
        count
    }

    /// The board rendered one line per row: two characters per cell, odd
    /// rows shifted right by one space to draw the triangle.
    pub fn render_lines(&self) -> (r: Vec<String>)
        requires
            self.wf(),
        ensures
            r@.len() == self.side(),
            forall|i: int| 0 <= i < self.side() ==> (#[trigger] r@[i])@ == line_render(self.mat(), i),
    {
        let size = self.size();
        let mut lines: Vec<String> = Vec::new();
        let mut i: usize = 0;
        while i < size
            invariant
                self.wf(),
                size == self.side(),
                i <= size,
                lines@.len() == i,
                forall|t: int| 0 <= t < i ==> (#[trigger] lines@[t])@ == line_render(self.mat(), t),
            decreases size - i,
        {
            let ghost prefix = if i % 2 == 1 {
                " "@
            } else {
                Seq::<char>::empty()
            };
            let mut line = String::new();
            if i % 2 == 1 {
                line.append(" ");
            }
            proof {
                assert(prefix + row_glyphs(self.mat()[i as int], 0) =~= prefix);
            }
            let mut j: usize = 0;
            while j < size
                invariant
                    self.wf(),
                    size == self.side(),
                    i < size,
                    j <= size,
                    prefix == (if i % 2 == 1 {
                        " "@
                    } else {
                        Seq::<char>::empty()
                    }),
                    line@ == prefix + row_glyphs(self.mat()[i as int], j as int),
                decreases size - j,
            {
                let ghost row = self.mat()[i as int];
                match self.cell(i, j) {
                    PegState::Occupied => line.append(" o"),
                    PegState::Empty => line.append(" \u{b7}"),
                    PegState::Invalid => line.append("  "),
                }
                proof {
                    assert((prefix + row_glyphs(row, j as int)) + glyph(row[j as int]) =~= prefix
                        + row_glyphs(row, j as int + 1));
                }
                j = j + 1;
            }
            proof {
                assert(self.mat()[i as int].len() == size);
                assert(line@ == line_render(self.mat(), i as int));
            }
            lines.push(line);
            i = i + 1;
        }
        lines
    }

    /// Whether exactly one peg remains on the board.
    pub fn is_terminal(&self) -> (r: bool)
        requires
            self.wf(),
        ensures
            r == terminal_mat(self.mat()),
    {
        self.occupied_count() == 1
    }
}

} // verus!
