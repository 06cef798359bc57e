//! Move generation and board mutation: the six jump directions of the
//! triangular grid, their legality, and the exact effect of a move.

use vstd::prelude::*;

use crate::board::{
    lemma_mat_count_update, mat_count, mat_upd, occupied_of, playable, playable_of, terminal_mat,
    wf_mat, PegState, TriangleBoard,
};

verus! {

/// A cell coordinate: row from the top, column from the left.
#[derive(Clone, Copy, Debug, PartialEq, Eq, Structural, Hash)]
pub struct Coord {
    pub row: usize,
    pub col: usize,
}

/// One jump: the peg at `from` lands on `to` and the peg at `eliminate`,
/// jumped over, leaves the board.
#[derive(Clone, Copy, Debug, PartialEq, Eq, Structural, Hash)]
pub struct Move {
    pub from: Coord,
    pub to: Coord,
    pub eliminate: Coord,
}

/// Column offset, relative to `col`, of the adjacent cell one row up or
/// down on the left diagonal; the offset is subtracted.
pub open spec fn diag_left_off(i: int) -> int {
    if i % 2 == 1 {
        0
    } else {
        1
    }
}

/// Column offset of the adjacent cell one row up or down on the right
/// diagonal; the offset is added.
pub open spec fn diag_right_off(i: int) -> int {
    if i % 2 == 1 {
        1
    } else {
        0
    }
}

pub open spec fn legal_left(g: Seq<Seq<PegState>>, m: Move) -> bool {
    let s = g.len() as int;
    let i = m.from.row as int;
    let j = m.from.col as int;
    &&& i < s
    &&& 2 <= j < s
    &&& g[i][j] == PegState::Occupied
    &&& g[i][j - 1] == PegState::Occupied
    &&& g[i][j - 2] == PegState::Empty
    &&& m.to.row == i && m.to.col == j - 2
    &&& m.eliminate.row == i && m.eliminate.col == j - 1
}

pub open spec fn legal_right(g: Seq<Seq<PegState>>, m: Move) -> bool {
    let s = g.len() as int;
    let i = m.from.row as int;
    let j = m.from.col as int;
    &&& i < s
    &&& j + 2 < s
    &&& g[i][j] == PegState::Occupied
    &&& g[i][j + 1] == PegState::Occupied
    &&& g[i][j + 2] == PegState::Empty
    &&& m.to.row == i && m.to.col == j + 2
    &&& m.eliminate.row == i && m.eliminate.col == j + 1
}

pub open spec fn legal_up_left(g: Seq<Seq<PegState>>, m: Move) -> bool {
    let s = g.len() as int;
    let i = m.from.row as int;
    let j = m.from.col as int;
    &&& 2 <= i < s
    &&& 1 <= j < s
    &&& g[i][j] == PegState::Occupied
    &&& g[i - 1][j - diag_left_off(i)] == PegState::Occupied
    &&& g[i - 2][j - 1] == PegState::Empty
    &&& m.to.row == i - 2 && m.to.col == j - 1
    &&& m.eliminate.row == i - 1 && m.eliminate.col == j - diag_left_off(i)
}

pub open spec fn legal_up_right(g: Seq<Seq<PegState>>, m: Move) -> bool {
    let s = g.len() as int;
    let i = m.from.row as int;
    let j = m.from.col as int;
    &&& 2 <= i < s
    &&& j + 1 < s
    &&& g[i][j] == PegState::Occupied
    &&& g[i - 1][j + diag_right_off(i)] == PegState::Occupied
    &&& g[i - 2][j + 1] == PegState::Empty
    &&& m.to.row == i - 2 && m.to.col == j + 1
    &&& m.eliminate.row == i - 1 && m.eliminate.col == j + diag_right_off(i)
}

pub open spec fn legal_down_left(g: Seq<Seq<PegState>>, m: Move) -> bool {
    let s = g.len() as int;
    let i = m.from.row as int;
    let j = m.from.col as int;
    &&& i + 2 < s
    &&& 1 <= j < s
    &&& g[i][j] == PegState::Occupied
    &&& g[i + 1][j - diag_left_off(i)] == PegState::Occupied
    &&& g[i + 2][j - 1] == PegState::Empty
    &&& m.to.row == i + 2 && m.to.col == j - 1
    &&& m.eliminate.row == i + 1 && m.eliminate.col == j - diag_left_off(i)
}

pub open spec fn legal_down_right(g: Seq<Seq<PegState>>, m: Move) -> bool {
    let s = g.len() as int;
    let i = m.from.row as int;
    let j = m.from.col as int;
    &&& i + 2 < s
    &&& j + 1 < s
    &&& g[i][j] == PegState::Occupied
    &&& g[i + 1][j + diag_right_off(i)] == PegState::Occupied
    &&& g[i + 2][j + 1] == PegState::Empty
    &&& m.to.row == i + 2 && m.to.col == j + 1
    &&& m.eliminate.row == i + 1 && m.eliminate.col == j + diag_right_off(i)
}

/// A move is legal when one of the six jump directions admits it.
pub open spec fn legal_mat(g: Seq<Seq<PegState>>, m: Move) -> bool {
    ||| legal_left(g, m)
    ||| legal_right(g, m)
    ||| legal_up_left(g, m)
    ||| legal_up_right(g, m)
    ||| legal_down_left(g, m)
    ||| legal_down_right(g, m)
}

/// The grid after playing `m`: origin empties, landing cell fills, jumped
/// cell empties.
pub open spec fn step_mat(g: Seq<Seq<PegState>>, m: Move) -> Seq<Seq<PegState>> {
    let g1 = mat_upd(g, m.from.row as int, m.from.col as int, PegState::Empty);
    let g2 = mat_upd(g1, m.to.row as int, m.to.col as int, PegState::Occupied);
    mat_upd(g2, m.eliminate.row as int, m.eliminate.col as int, PegState::Empty)
}

/// A legal move addresses three distinct in-grid cells in the expected
/// states.
pub proof fn lemma_legal_bounds(g: Seq<Seq<PegState>>, m: Move)
    requires
        wf_mat(g),
        legal_mat(g, m),
    ensures
        m.from.row < g.len() && m.from.col < g.len(),
        m.to.row < g.len() && m.to.col < g.len(),
        m.eliminate.row < g.len() && m.eliminate.col < g.len(),
        g[m.from.row as int][m.from.col as int] == PegState::Occupied,
        g[m.eliminate.row as int][m.eliminate.col as int] == PegState::Occupied,
        g[m.to.row as int][m.to.col as int] == PegState::Empty,
        m.from != m.to && m.from != m.eliminate && m.to != m.eliminate,
{
}

/// Playing a legal move keeps the footprint and the grid shape, removes
/// exactly one peg, and adds exactly one empty cell.
pub proof fn lemma_step(g: Seq<Seq<PegState>>, m: Move)
    requires
        wf_mat(g),
        legal_mat(g, m),
    ensures
        step_mat(g, m).len() == g.len(),
        wf_mat(step_mat(g, m)),
        step_mat(g, m)[m.from.row as int][m.from.col as int] == PegState::Empty,
        step_mat(g, m)[m.eliminate.row as int][m.eliminate.col as int] == PegState::Empty,
        step_mat(g, m)[m.to.row as int][m.to.col as int] == PegState::Occupied,
        forall|i: int, j: int|
            0 <= i < g.len() && 0 <= j < g.len() && !(i == m.from.row as int && j
                == m.from.col as int) && !(i == m.to.row as int && j == m.to.col as int) && !(i
                == m.eliminate.row as int && j == m.eliminate.col as int)
                ==> #[trigger] step_mat(g, m)[i][j] == g[i][j],
        occupied_of(step_mat(g, m)) == occupied_of(g) - 1,
        mat_count(step_mat(g, m), PegState::Empty, g.len() as int) == mat_count(
            g,
            PegState::Empty,
            g.len() as int,
        ) + 1,
        mat_count(step_mat(g, m), PegState::Invalid, g.len() as int) == mat_count(
            g,
            PegState::Invalid,
            g.len() as int,
        ),
{
    lemma_legal_bounds(g, m);
    let n = g.len() as int;
    let fi = m.from.row as int;
    let fj = m.from.col as int;
    let ti = m.to.row as int;
    let tj = m.to.col as int;
    let ei = m.eliminate.row as int;
    let ej = m.eliminate.col as int;
    let g1 = mat_upd(g, fi, fj, PegState::Empty);
    let g2 = mat_upd(g1, ti, tj, PegState::Occupied);
    let g3 = mat_upd(g2, ei, ej, PegState::Empty);
    assert(g1.len() == n && g1[ti].len() == n && g2.len() == n && g2[ei].len() == n);
    assert(g1[ti][tj] == PegState::Empty);
    assert(g2[ei][ej] == PegState::Occupied);
    lemma_mat_count_update(g, PegState::Occupied, fi, fj, PegState::Empty, n);
    lemma_mat_count_update(g1, PegState::Occupied, ti, tj, PegState::Occupied, n);
    lemma_mat_count_update(g2, PegState::Occupied, ei, ej, PegState::Empty, n);
    lemma_mat_count_update(g, PegState::Empty, fi, fj, PegState::Empty, n);
    lemma_mat_count_update(g1, PegState::Empty, ti, tj, PegState::Occupied, n);
    lemma_mat_count_update(g2, PegState::Empty, ei, ej, PegState::Empty, n);
    lemma_mat_count_update(g, PegState::Invalid, fi, fj, PegState::Empty, n);
    lemma_mat_count_update(g1, PegState::Invalid, ti, tj, PegState::Occupied, n);
    lemma_mat_count_update(g2, PegState::Invalid, ei, ej, PegState::Empty, n);
    assert forall|i: int| 0 <= i < n implies (#[trigger] g3[i]).len() == n by {}
    assert forall|i: int, j: int| 0 <= i < n && 0 <= j < n implies ((#[trigger] g3[i][j]
        == PegState::Invalid) <==> !playable(n, i, j)) by {
        assert(g[i][j] == PegState::Invalid <==> !playable(n, i, j));
    }
}

/// A won position admits no further move: a jump needs two distinct
/// occupied cells, a single peg offers only one.
pub proof fn lemma_terminal_no_moves(g: Seq<Seq<PegState>>, m: Move)
    requires
        wf_mat(g),
        terminal_mat(g),
    ensures
        !legal_mat(g, m),
{
    if legal_mat(g, m) {
        lemma_legal_bounds(g, m);
        crate::board::lemma_mat_count_two(
            g,
            PegState::Occupied,
            m.from.row as int,
            m.from.col as int,
            m.eliminate.row as int,
            m.eliminate.col as int,
        );
    }
}

/// The sum of the first and last playable column of row `i`: mirroring a
/// column within the row maps `j` to this base minus `j`.
pub open spec fn mirror_base(size: int, i: int) -> int {
    2 * (size / 2) - (if i % 2 == 1 {
        1int
    } else {
        0int
    })
}

/// The board flipped left to right: row `i` reversed within its playable
/// span, the padding left in place.
pub open spec fn mirror_mat(g: Seq<Seq<PegState>>) -> Seq<Seq<PegState>> {
    Seq::new(
        g.len(),
        |i: int|
            Seq::new(
                g.len(),
                |j: int|
                    if 0 <= mirror_base(g.len() as int, i) - j < g.len() as int {
                        g[i][mirror_base(g.len() as int, i) - j]
                    } else {
                        PegState::Invalid
                    },
            ),
    )
}

/// A coordinate flipped left to right within its row.
pub open spec fn mirror_coord(size: int, c: Coord) -> Coord {
    Coord { row: c.row, col: (mirror_base(size, c.row as int) - c.col) as usize }
}

/// A move flipped left to right, coordinate by coordinate.
pub open spec fn mirror_move(size: int, m: Move) -> Move {
    Move {
        from: mirror_coord(size, m.from),
        to: mirror_coord(size, m.to),
        eliminate: mirror_coord(size, m.eliminate),
    }
}

/// The mirror base equals twice the first playable column plus the row
/// length minus one.
pub proof fn lemma_mirror_base(size: int, i: int)
    requires
        1 <= size,
        0 <= i < size,
    ensures
        mirror_base(size, i) == 2 * crate::board::row_first(size, i) + i,
{
    if i > 0 {
        if i % 2 == 0 {
            assert(2 * ((i + 1) / 2) == i);
        } else {
            assert(2 * ((i + 1) / 2) == i + 1);
        }
    }
}

/// Mirroring keeps a column inside the playable span of its row.
pub proof fn lemma_playable_mirror(size: int, i: int, j: int)
    requires
        1 <= size,
        0 <= i < size,
    ensures
        playable(size, i, j) ==> (0 <= mirror_base(size, i) - j < size && playable(
            size,
            i,
            mirror_base(size, i) - j,
        )),
{
    lemma_mirror_base(size, i);
    crate::board::lemma_row_span_in_grid(size, i);
}

/// A playable cell keeps its state under mirroring, at the mirrored
/// column.
proof fn lemma_mirror_cell(g: Seq<Seq<PegState>>, r: int, c: int)
    requires
        wf_mat(g),
        0 <= r < g.len(),
        0 <= c < g.len(),
        g[r][c] != PegState::Invalid,
    ensures
        0 <= mirror_base(g.len() as int, r) - c < g.len(),
        mirror_mat(g)[r][mirror_base(g.len() as int, r) - c] == g[r][c],
        playable(g.len() as int, r, c),
{
    let s = g.len() as int;
    lemma_playable_mirror(s, r, c);
    let mc = mirror_base(s, r) - c;
    assert(mirror_base(s, r) - mc == c);
    assert(mirror_mat(g)[r][mc] == g[r][c]);
}

/// Mirroring preserves well-formedness.
pub proof fn lemma_mirror_wf(g: Seq<Seq<PegState>>)
    requires
        wf_mat(g),
    ensures
        mirror_mat(g).len() == g.len(),
        wf_mat(mirror_mat(g)),
{
    let s = g.len() as int;
    let mg = mirror_mat(g);
    assert forall|i: int, j: int| 0 <= i < s && 0 <= j < s implies ((#[trigger] mg[i][j]
        == PegState::Invalid) <==> !playable(s, i, j)) by {
        lemma_mirror_base(s, i);
        crate::board::lemma_row_span_in_grid(s, i);
        let mj = mirror_base(s, i) - j;
        if 0 <= mj < s {
            assert(mg[i][j] == g[i][mj]);
            assert((g[i][mj] == PegState::Invalid) <==> !playable(s, i, mj));
        } else {
            assert(mg[i][j] == PegState::Invalid);
            assert(!playable(s, i, j));
        }
    }
}

/// Mirroring twice restores the board.
pub proof fn lemma_mirror_involution(g: Seq<Seq<PegState>>)
    requires
        wf_mat(g),
    ensures
        mirror_mat(mirror_mat(g)) == g,
{
    let s = g.len() as int;
    let mg = mirror_mat(g);
    lemma_mirror_wf(g);
    assert forall|i: int, j: int|
        0 <= i < s && 0 <= j < s implies #[trigger] mirror_mat(mg)[i][j] == g[i][j] by {
        lemma_mirror_base(s, i);
        crate::board::lemma_row_span_in_grid(s, i);
        let mj = mirror_base(s, i) - j;
        if 0 <= mj < s {
            assert(mirror_mat(mg)[i][j] == mg[i][mj]);
            assert(mg[i][mj] == g[i][j]);
        } else {
            assert(mirror_mat(mg)[i][j] == PegState::Invalid);
            assert(!playable(s, i, j));
            assert(g[i][j] == PegState::Invalid);
        }
    }
    assert(mirror_mat(mirror_mat(g)) =~~= g);
}

/// A legal move of the board is a legal move of the mirrored board, with
/// every coordinate mirrored; the jump direction flips left to right.
pub proof fn lemma_mirror_move_legal(g: Seq<Seq<PegState>>, m: Move)
    requires
        wf_mat(g),
        g.len() <= usize::MAX,
        legal_mat(g, m),
    ensures
        legal_mat(mirror_mat(g), mirror_move(g.len() as int, m)),
{
    let s = g.len() as int;
    let mg = mirror_mat(g);
    let mm = mirror_move(s, m);
    lemma_mirror_wf(g);
    lemma_legal_bounds(g, m);
    let i = m.from.row as int;
    let j = m.from.col as int;
    lemma_mirror_cell(g, i, j);
    if legal_left(g, m) {
        lemma_mirror_cell(g, i, j - 1);
        lemma_mirror_cell(g, i, j - 2);
        assert(legal_right(mg, mm));
    } else if legal_right(g, m) {
        lemma_mirror_cell(g, i, j + 1);
        lemma_mirror_cell(g, i, j + 2);
        assert(legal_left(mg, mm));
    } else if legal_up_left(g, m) {
        lemma_mirror_cell(g, i - 1, j - diag_left_off(i));
        lemma_mirror_cell(g, i - 2, j - 1);
        assert(legal_up_right(mg, mm));
    } else if legal_up_right(g, m) {
        lemma_mirror_cell(g, i - 1, j + diag_right_off(i));
        lemma_mirror_cell(g, i - 2, j + 1);
        assert(legal_up_left(mg, mm));
    } else if legal_down_left(g, m) {
        lemma_mirror_cell(g, i + 1, j - diag_left_off(i));
        lemma_mirror_cell(g, i + 2, j - 1);
        assert(legal_down_right(mg, mm));
    } else {
        lemma_mirror_cell(g, i + 1, j + diag_right_off(i));
        lemma_mirror_cell(g, i + 2, j + 1);
        assert(legal_down_left(mg, mm));
    }
}

/// Mirroring a legal move twice restores it.
proof fn lemma_mirror_move_involution(g: Seq<Seq<PegState>>, m: Move)
    requires
        wf_mat(g),
        g.len() <= usize::MAX,
        legal_mat(g, m),
    ensures
        mirror_move(g.len() as int, mirror_move(g.len() as int, m)) == m,
{
    let s = g.len() as int;
    lemma_legal_bounds(g, m);
    lemma_mirror_cell(g, m.from.row as int, m.from.col as int);
    lemma_mirror_cell(g, m.to.row as int, m.to.col as int);
    lemma_mirror_cell(g, m.eliminate.row as int, m.eliminate.col as int);
}

/// The legal moves of the mirrored board are exactly the mirror images of
/// the legal moves of the board.
pub proof fn lemma_mirror_move_set(g: Seq<Seq<PegState>>, m2: Move)
    requires
        wf_mat(g),
        g.len() <= usize::MAX,
    ensures
        legal_mat(mirror_mat(g), m2) <==> (exists|m: Move|
            #[trigger] legal_mat(g, m) && m2 == mirror_move(g.len() as int, m)),
{
    let s = g.len() as int;
    let mg = mirror_mat(g);
    lemma_mirror_wf(g);
    if legal_mat(mg, m2) {
        lemma_mirror_move_legal(mg, m2);
        lemma_mirror_involution(g);
        lemma_mirror_move_involution(mg, m2);
        let m = mirror_move(s, m2);
        assert(legal_mat(g, m) && m2 == mirror_move(s, m));
    }
    if exists|m: Move| #[trigger] legal_mat(g, m) && m2 == mirror_move(s, m) {
        let m = choose|m: Move| #[trigger] legal_mat(g, m) && m2 == mirror_move(s, m);
        lemma_mirror_move_legal(g, m);
    }
}

/// Mirroring a fresh board gives the fresh board whose hole is mirrored
/// within its row.
pub proof fn lemma_mirror_initial(size: usize, hi: usize, hj: usize, g: Seq<Seq<PegState>>)
    requires
        crate::board::valid_config(size as int, crate::board::InitialHole::At(hi, hj)),
        g.len() == size,
        forall|i: int| 0 <= i < size ==> (#[trigger] g[i]).len() == size,
        forall|i: int, j: int|
            0 <= i < size && 0 <= j < size ==> #[trigger] g[i][j] == crate::board::init_cell(
                size as int,
                crate::board::InitialHole::At(hi, hj),
                i,
                j,
            ),
    ensures
        crate::board::valid_config(
            size as int,
            crate::board::InitialHole::At(
                hi,
                (mirror_base(size as int, hi as int) - hj) as usize,
            ),
        ),
        forall|i: int, j: int|
            0 <= i < size && 0 <= j < size ==> #[trigger] mirror_mat(g)[i][j]
                == crate::board::init_cell(
                size as int,
                crate::board::InitialHole::At(
                    hi,
                    (mirror_base(size as int, hi as int) - hj) as usize,
                ),
                i,
                j,
            ),
{
    let s = size as int;
    lemma_playable_mirror(s, hi as int, hj as int);
    let mhj = mirror_base(s, hi as int) - hj;
    assert(0 <= mhj < s);
    let h2 = crate::board::InitialHole::At(hi, mhj as usize);
    assert(crate::board::hole_coord(s, h2).1 == mhj);
    assert forall|i: int, j: int|
        0 <= i < s && 0 <= j < s implies #[trigger] mirror_mat(g)[i][j] == crate::board::init_cell(
        s,
        h2,
        i,
        j,
    ) by {
        lemma_mirror_base(s, i);
        crate::board::lemma_row_span_in_grid(s, i);
        let mj = mirror_base(s, i) - j;
        if 0 <= mj < s {
            assert(mirror_mat(g)[i][j] == g[i][mj]);
            if i == hi as int && mj == hj as int {
                assert(mirror_base(s, i) - hj == j);
            }
        } else {
            assert(mirror_mat(g)[i][j] == PegState::Invalid);
            assert(!playable(s, i, j));
        }
    }
}

/// Membership in a sequence after a push.
proof fn lemma_push_contains(s: Seq<Move>, x: Move, y: Move)
    ensures
        s.push(x).contains(y) <==> (s.contains(y) || y == x),
{
    if s.contains(y) {
        let idx = choose|i: int| 0 <= i < s.len() && s[i] == y;
        assert(s.push(x)[idx] == y);
    }
    assert(s.push(x)[s.len() as int] == x);
    if s.push(x).contains(y) && y != x {
        let idx = choose|i: int| 0 <= i < s.push(x).len() && s.push(x)[i] == y;
        assert(s[idx] == y);
    }
}

impl TriangleBoard {
    /// The jump to the left from `(i, j)`, when it is legal.
    fn probe_left(&self, i: usize, j: usize) -> (r: Option<Move>)
        requires
            self.wf(),
            i < self.side(),
            j < self.side(),
        ensures
            forall|m: Move|
                #[trigger] legal_left(self.mat(), m) && m.from.row == i && m.from.col == j ==> r == Some(
                    m,
                ),
            r is Some ==> legal_left(self.mat(), r->0) && r->0.from.row == i && r->0.from.col
                == j,
    {
        if j >= 2 && self.cell(i, j) == PegState::Occupied && self.cell(i, j - 1)
            == PegState::Occupied && self.cell(i, j - 2) == PegState::Empty {
            Some(
                Move {
                    from: Coord { row: i, col: j },
                    to: Coord { row: i, col: j - 2 },
                    eliminate: Coord { row: i, col: j - 1 },
                },
            )
        } else {
            None
        }
    }

    /// The jump to the right from `(i, j)`, when it is legal.
    fn probe_right(&self, i: usize, j: usize) -> (r: Option<Move>)
        requires
            self.wf(),
            i < self.side(),
            j < self.side(),
        ensures
            forall|m: Move|
                #[trigger] legal_right(self.mat(), m) && m.from.row == i && m.from.col == j ==> r == Some(
                    m,
                ),
            r is Some ==> legal_right(self.mat(), r->0) && r->0.from.row == i && r->0.from.col
                == j,
    {
        let size = self.size();
        if size >= 3 && j <= size - 3 && self.cell(i, j) == PegState::Occupied && self.cell(
            i,
            j + 1,
        ) == PegState::Occupied && self.cell(i, j + 2) == PegState::Empty {
            Some(
                Move {
                    from: Coord { row: i, col: j },
                    to: Coord { row: i, col: j + 2 },
                    eliminate: Coord { row: i, col: j + 1 },
                },
            )
        } else {
            None
        }
    }

    /// The jump up and to the left from `(i, j)`, when it is legal.
    fn probe_up_left(&self, i: usize, j: usize) -> (r: Option<Move>)
        requires
            self.wf(),
            i < self.side(),
            j < self.side(),
        ensures
            forall|m: Move|
                #[trigger] legal_up_left(self.mat(), m) && m.from.row == i && m.from.col == j ==> r == Some(
                    m,
                ),
            r is Some ==> legal_up_left(self.mat(), r->0) && r->0.from.row == i && r->0.from.col
                == j,
    {
        let dl: usize = if i % 2 == 1 {
            0
        } else {
            1
        };
        if i >= 2 && j >= 1 && self.cell(i, j) == PegState::Occupied && self.cell(i - 1, j - dl)
            == PegState::Occupied && self.cell(i - 2, j - 1) == PegState::Empty {
            Some(
                Move {
                    from: Coord { row: i, col: j },
                    to: Coord { row: i - 2, col: j - 1 },
                    eliminate: Coord { row: i - 1, col: j - dl },
                },
            )
        } else {
            None
        }
    }

    /// The jump up and to the right from `(i, j)`, when it is legal.
    fn probe_up_right(&self, i: usize, j: usize) -> (r: Option<Move>)
        requires
            self.wf(),
            i < self.side(),
            j < self.side(),
        ensures
            forall|m: Move|
                #[trigger] legal_up_right(self.mat(), m) && m.from.row == i && m.from.col == j ==> r == Some(
                    m,
                ),
            r is Some ==> legal_up_right(self.mat(), r->0) && r->0.from.row == i && r->0.from.col
                == j,
    {
        let size = self.size();
        let dr: usize = if i % 2 == 1 {
            1
        } else {
            0
        };
        if i >= 2 && size >= 2 && j <= size - 2 && self.cell(i, j) == PegState::Occupied
            && self.cell(i - 1, j + dr) == PegState::Occupied && self.cell(i - 2, j + 1)
            == PegState::Empty {
            Some(
                Move {
                    from: Coord { row: i, col: j },
                    to: Coord { row: i - 2, col: j + 1 },
                    eliminate: Coord { row: i - 1, col: j + dr },
                },
            )
        } else {
            None
        }
    }

    /// The jump down and to the left from `(i, j)`, when it is legal.
    fn probe_down_left(&self, i: usize, j: usize) -> (r: Option<Move>)
        requires
            self.wf(),
            i < self.side(),
            j < self.side(),
        ensures
            forall|m: Move|
                #[trigger] legal_down_left(self.mat(), m) && m.from.row == i && m.from.col == j ==> r == Some(
                    m,
                ),
            r is Some ==> legal_down_left(self.mat(), r->0) && r->0.from.row == i && r->0.from.col
                == j,
    {
        let size = self.size();
        let dl: usize = if i % 2 == 1 {
            0
        } else {
            1
        };
        if size >= 3 && i <= size - 3 && j >= 1 && self.cell(i, j) == PegState::Occupied
            && self.cell(i + 1, j - dl) == PegState::Occupied && self.cell(i + 2, j - 1)
            == PegState::Empty {
            Some(
                Move {
                    from: Coord { row: i, col: j },
                    to: Coord { row: i + 2, col: j - 1 },
                    eliminate: Coord { row: i + 1, col: j - dl },
                },
            )
        } else {
            None
        }
    }

    /// The jump down and to the right from `(i, j)`, when it is legal.
    fn probe_down_right(&self, i: usize, j: usize) -> (r: Option<Move>)
        requires
            self.wf(),
            i < self.side(),
            j < self.side(),
        ensures
            forall|m: Move|
                #[trigger] legal_down_right(self.mat(), m) && m.from.row == i && m.from.col == j ==> r == Some(
                    m,
                ),
            r is Some ==> legal_down_right(self.mat(), r->0) && r->0.from.row == i && r->0.from.col
                == j,
    {
        let size = self.size();
        let dr: usize = if i % 2 == 1 {
            1
        } else {
            0
        };
        if size >= 3 && i <= size - 3 && size >= 2 && j <= size - 2 && self.cell(i, j)
            == PegState::Occupied && self.cell(i + 1, j + dr) == PegState::Occupied && self.cell(
            i + 2,
            j + 1,
        ) == PegState::Empty {
            Some(
                Move {
                    from: Coord { row: i, col: j },
                    to: Coord { row: i + 2, col: j + 1 },
                    eliminate: Coord { row: i + 1, col: j + dr },
                },
            )
        } else {
            None
        }
    }

    /// Append every legal move whose origin is `(i, j)`.
    #[verifier::rlimit(50)]
    fn moves_for_cell(&self, i: usize, j: usize, moves: &mut Vec<Move>)
        requires
            self.wf(),
            i < self.side(),
            j < self.side(),
            forall|t: int|
                0 <= t < old(moves)@.len() ==> !((#[trigger] old(moves)@[t]).from.row == i && old(
                    moves,
                )@[t].from.col == j),
            forall|p: int, q: int|
                #![trigger old(moves)@[p], old(moves)@[q]]
                0 <= p < q < old(moves)@.len() ==> old(moves)@[p] != old(moves)@[q],
        ensures
            forall|m: Move|
                #[trigger] final(moves)@.contains(m) <==> (old(moves)@.contains(m) || (legal_mat(
                    self.mat(),
                    m,
                ) && m.from.row == i && m.from.col == j)),
            forall|p: int, q: int|
                #![trigger final(moves)@[p], final(moves)@[q]]
                0 <= p < q < final(moves)@.len() ==> final(moves)@[p] != final(moves)@[q],
    {
        let g = Ghost(self.mat());
        let ghost s0 = moves@;
        let ghost n0 = moves@.len() as int;
        let r0 = self.probe_left(i, j);
        let r1 = self.probe_right(i, j);
        let r2 = self.probe_up_left(i, j);
        let r3 = self.probe_up_right(i, j);
        let r4 = self.probe_down_left(i, j);
        let r5 = self.probe_down_right(i, j);
        if let Some(m) = r0 {
            proof {
                assert forall|y: Move| true implies (#[trigger] moves@.push(m).contains(y) <==> (
                moves@.contains(y) || y == m)) by {
                    lemma_push_contains(moves@, m, y);
                }
            }
            moves.push(m);
        }
        proof {
            assert forall|t: int| n0 <= t < moves@.len() implies ((r0 is Some && moves@[t] == r0->0)) by {}
            assert forall|p: int, q: int|
                0 <= p < q < moves@.len() implies moves@[p] != moves@[q] by {}
        }
        if let Some(m) = r1 {
            proof {
                assert forall|y: Move| true implies (#[trigger] moves@.push(m).contains(y) <==> (
                moves@.contains(y) || y == m)) by {
                    lemma_push_contains(moves@, m, y);
                }
            }
            moves.push(m);
        }
        proof {
            assert forall|t: int| n0 <= t < moves@.len() implies ((r0 is Some && moves@[t] == r0->0) || (r1 is Some && moves@[t] == r1->0)) by {}
            assert forall|p: int, q: int|
                0 <= p < q < moves@.len() implies moves@[p] != moves@[q] by {}
        }
        if let Some(m) = r2 {
            proof {
                assert forall|y: Move| true implies (#[trigger] moves@.push(m).contains(y) <==> (
                moves@.contains(y) || y == m)) by {
                    lemma_push_contains(moves@, m, y);
                }
            }
            moves.push(m);
        }
        proof {
            assert forall|t: int| n0 <= t < moves@.len() implies ((r0 is Some && moves@[t] == r0->0) || (r1 is Some && moves@[t] == r1->0) || (r2 is Some && moves@[t] == r2->0)) by {}
            assert forall|p: int, q: int|
                0 <= p < q < moves@.len() implies moves@[p] != moves@[q] by {}
        }
        if let Some(m) = r3 {
            proof {
                assert forall|y: Move| true implies (#[trigger] moves@.push(m).contains(y) <==> (
                moves@.contains(y) || y == m)) by {
                    lemma_push_contains(moves@, m, y);
                }
            }
            moves.push(m);
        }
        proof {
            assert forall|t: int| n0 <= t < moves@.len() implies ((r0 is Some && moves@[t] == r0->0) || (r1 is Some && moves@[t] == r1->0) || (r2 is Some && moves@[t] == r2->0) || (r3 is Some && moves@[t] == r3->0)) by {}
            assert forall|p: int, q: int|
                0 <= p < q < moves@.len() implies moves@[p] != moves@[q] by {}
        }
        if let Some(m) = r4 {
            proof {
                assert forall|y: Move| true implies (#[trigger] moves@.push(m).contains(y) <==> (
                moves@.contains(y) || y == m)) by {
                    lemma_push_contains(moves@, m, y);
                }
            }
            moves.push(m);
        }
        proof {
            assert forall|t: int| n0 <= t < moves@.len() implies ((r0 is Some && moves@[t] == r0->0) || (r1 is Some && moves@[t] == r1->0) || (r2 is Some && moves@[t] == r2->0) || (r3 is Some && moves@[t] == r3->0) || (r4 is Some && moves@[t] == r4->0)) by {}
            assert forall|p: int, q: int|
                0 <= p < q < moves@.len() implies moves@[p] != moves@[q] by {}
        }
        if let Some(m) = r5 {
            proof {
                assert forall|y: Move| true implies (#[trigger] moves@.push(m).contains(y) <==> (
                moves@.contains(y) || y == m)) by {
                    lemma_push_contains(moves@, m, y);
                }
            }
            moves.push(m);
        }
        proof {
            assert forall|t: int| n0 <= t < moves@.len() implies ((r0 is Some && moves@[t] == r0->0) || (r1 is Some && moves@[t] == r1->0) || (r2 is Some && moves@[t] == r2->0) || (r3 is Some && moves@[t] == r3->0) || (r4 is Some && moves@[t] == r4->0) || (r5 is Some && moves@[t] == r5->0)) by {}
            assert forall|p: int, q: int|
                0 <= p < q < moves@.len() implies moves@[p] != moves@[q] by {}
        }
        proof {
            assert forall|m: Move| #[trigger] moves@.contains(m) implies (s0.contains(m) || (
            legal_mat(g@, m) && m.from.row == i && m.from.col == j)) by {
                if !s0.contains(m) {
                    if r0 == Some(m) {
                        assert(r0->0 == m);
                        assert(legal_left(self.mat(), m) && m.from.row == i && m.from.col == j);
                    } else if r1 == Some(m) {
                        assert(r1->0 == m);
                        assert(legal_right(self.mat(), m) && m.from.row == i && m.from.col == j);
                    } else if r2 == Some(m) {
                        assert(r2->0 == m);
                        assert(legal_up_left(self.mat(), m) && m.from.row == i && m.from.col == j);
                    } else if r3 == Some(m) {
                        assert(r3->0 == m);
                        assert(legal_up_right(self.mat(), m) && m.from.row == i && m.from.col == j);
                    } else if r4 == Some(m) {
                        assert(r4->0 == m);
                        assert(legal_down_left(self.mat(), m) && m.from.row == i && m.from.col == j);
                    } else if r5 == Some(m) {
                        assert(r5->0 == m);
                        assert(legal_down_right(self.mat(), m) && m.from.row == i && m.from.col == j);
                    }
                }
            }
            assert forall|m: Move|
                s0.contains(m) || (legal_mat(g@, m) && m.from.row == i && m.from.col
                    == j) implies #[trigger] moves@.contains(m) by {}
        }
    }

    /// Every legal move of the current position, in deterministic
    /// row-major order of the origin cell.
    pub fn find_valid_moves(&self) -> (moves: Vec<Move>)
        requires
            self.wf(),
        ensures
            forall|m: Move| #[trigger] moves@.contains(m) <==> legal_mat(self.mat(), m),
            forall|p: int, q: int|
                #![trigger moves@[p], moves@[q]]
                0 <= p < q < moves@.len() ==> moves@[p] != moves@[q],
    {
        let g = Ghost(self.mat());
        let size = self.size();
        let mut moves: Vec<Move> = Vec::new();
        let mut i: usize = 0;
        while i < size
            invariant
                self.wf(),
                size == self.side(),
                i <= size,
                g@ == self.mat(),
                forall|m: Move|
                    #[trigger] moves@.contains(m) <==> (legal_mat(g@, m) && m.from.row < i),
                forall|p: int, q: int|
                    #![trigger moves@[p], moves@[q]]
                    0 <= p < q < moves@.len() ==> moves@[p] != moves@[q],
            decreases size - i,
        {
            let mut j: usize = 0;
            while j < size
                invariant
                    self.wf(),
                    size == self.side(),
                    i < size,
                    j <= size,
                    g@ == self.mat(),
                    forall|m: Move|
                        #[trigger] moves@.contains(m) <==> (legal_mat(g@, m) && (m.from.row < i || (
                        m.from.row == i && m.from.col < j))),
                    forall|p: int, q: int|
                        #![trigger moves@[p], moves@[q]]
                        0 <= p < q < moves@.len() ==> moves@[p] != moves@[q],
                decreases size - j,
            {
                proof {
                    assert forall|t: int|
                        0 <= t < moves@.len() implies !((#[trigger] moves@[t]).from.row == i
                        && moves@[t].from.col == j) by {
                        assert(moves@.contains(moves@[t]));
                    }
                }
                self.moves_for_cell(i, j, &mut moves);
                j = j + 1;
            }
            proof {
                assert forall|m: Move| #[trigger] moves@.contains(m) implies (legal_mat(g@, m)
                    && m.from.row < i + 1) by {}
                assert forall|m: Move|
                    legal_mat(g@, m) && m.from.row < i + 1 implies #[trigger] moves@.contains(
                    m,
                ) by {
                    if m.from.row == i {
                        lemma_legal_bounds(g@, m);
                    }
                }
            }
            i = i + 1;
        }
        proof {
            assert forall|m: Move| legal_mat(g@, m) implies #[trigger] moves@.contains(m) by {
                lemma_legal_bounds(g@, m);
            }
        }
        moves
    }

    /// Play `m` in place.  The move must be legal for the current position;
    /// the caller is expected to take it from the generator.
    pub fn execute_move(&mut self, m: &Move)
        requires
            old(self).wf(),
            legal_mat(old(self).mat(), *m),
        ensures
            final(self).wf(),
            final(self).side() == old(self).side(),
            final(self).mat() == step_mat(old(self).mat(), *m),
            occupied_of(final(self).mat()) == occupied_of(old(self).mat()) - 1,
            playable_of(final(self).mat()) == playable_of(old(self).mat()),
            mat_count(final(self).mat(), PegState::Invalid, final(self).side()) == mat_count(
                old(self).mat(),
                PegState::Invalid,
                old(self).side(),
            ),
    {
        proof {
            lemma_legal_bounds(self.mat(), *m);
            lemma_step(self.mat(), *m);
        }
        self.set_cell(m.from.row, m.from.col, PegState::Empty);
        self.set_cell(m.to.row, m.to.col, PegState::Occupied);
        self.set_cell(m.eliminate.row, m.eliminate.col, PegState::Empty);
    }

    /// Undo `m`, restoring the position `g0` it was played from.
    pub(crate) fn undo_move(&mut self, m: &Move, g0: Ghost<Seq<Seq<PegState>>>)
        requires
            wf_mat(g0@),
            legal_mat(g0@, *m),
            old(self).dims_ok(),
            old(self).side() == g0@.len(),
            old(self).mat() == step_mat(g0@, *m),
        ensures
            final(self).wf(),
            final(self).side() == old(self).side(),
            final(self).mat() == g0@,
    {
        proof {
            lemma_legal_bounds(g0@, *m);
            lemma_step(g0@, *m);
        }
        self.set_cell(m.from.row, m.from.col, PegState::Occupied);
        self.set_cell(m.eliminate.row, m.eliminate.col, PegState::Occupied);
        self.set_cell(m.to.row, m.to.col, PegState::Empty);
        proof {
            let n = g0@.len() as int;
            let fi = m.from.row as int;
            let fj = m.from.col as int;
            let ti = m.to.row as int;
            let tj = m.to.col as int;
            let ei = m.eliminate.row as int;
            let ej = m.eliminate.col as int;
            assert forall|i: int, j: int| 0 <= i < n && 0 <= j < n implies #[trigger] self.mat()[i][j]
                == g0@[i][j] by {
                if !(i == fi && j == fj) && !(i == ti && j == tj) && !(i == ei && j == ej) {
                    assert(step_mat(g0@, *m)[i][j] == g0@[i][j]);
                }
            }
            assert(self.mat() =~~= g0@);
        }
    }
}

} // verus!
