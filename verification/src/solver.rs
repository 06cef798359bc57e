//! Search engine and solution collection: exhaustive enumeration of every
//! move sequence that leaves a single peg, depth-first on one thread or
//! with the branches fanned out over a thread pool.

use vstd::prelude::*;

use rayon::iter::{IntoParallelRefIterator, ParallelIterator};

use crate::board::{
    lemma_mat_count_nonneg, occupied_of, terminal_mat, wf_mat, PegState, SolverError,
    TriangleBoard,
};
use crate::moves::{legal_mat, lemma_step, lemma_terminal_no_moves, step_mat, Move};

verus! {

/// Whether playing `ms` from position `g`, move by move, is legal
/// throughout and ends with exactly one peg.
pub open spec fn is_win(g: Seq<Seq<PegState>>, ms: Seq<Move>) -> bool
    decreases ms.len(),
{
    if ms.len() == 0 {
        terminal_mat(g)
    } else {
        legal_mat(g, ms[0]) && is_win(step_mat(g, ms[0]), ms.subrange(1, ms.len() as int))
    }
}

/// Every winning move sequence from position `g`.
pub open spec fn win_seqs(g: Seq<Seq<PegState>>) -> Set<Seq<Move>> {
    Set::new(|ms: Seq<Move>| is_win(g, ms))
}

/// Every sequence of `s` with `h` prepended.
pub open spec fn prefixed(h: Seq<Move>, s: Set<Seq<Move>>) -> Set<Seq<Move>> {
    Set::new(|t: Seq<Move>| exists|ms: Seq<Move>| #[trigger] s.contains(ms) && t == h + ms)
}

/// The winning sequences reached through the first `k` generated moves:
/// for each such move `m`, the wins of the position after `m`, prefixed
/// with `h` extended by `m`.
pub open spec fn branch_union(
    g: Seq<Seq<PegState>>,
    h: Seq<Move>,
    moves: Seq<Move>,
    k: int,
) -> Set<Seq<Move>>
    decreases k,
{
    if k <= 0 {
        Set::empty()
    } else {
        branch_union(g, h, moves, k - 1).union(
            prefixed(h.push(moves[k - 1]), win_seqs(step_mat(g, moves[k - 1]))),
        )
    }
}

/// A terminal position has exactly one winning sequence: the empty one.
pub proof fn lemma_terminal_wins(g: Seq<Seq<PegState>>)
    requires
        wf_mat(g),
        terminal_mat(g),
    ensures
        win_seqs(g) == set![Seq::<Move>::empty()],
{
    assert forall|ms: Seq<Move>| win_seqs(g).contains(ms) implies ms == Seq::<Move>::empty() by {
        if ms.len() > 0 {
            lemma_terminal_no_moves(g, ms[0]);
        }
    }
    assert(is_win(g, Seq::<Move>::empty()));
    assert(win_seqs(g) =~= set![Seq::<Move>::empty()]);
}

/// A position that is not terminal and admits no move has no winning
/// sequence at all.
pub proof fn lemma_dead_end(g: Seq<Seq<PegState>>)
    requires
        wf_mat(g),
        !terminal_mat(g),
        forall|m: Move| !legal_mat(g, m),
    ensures
        win_seqs(g) == Set::<Seq<Move>>::empty(),
{
    assert forall|ms: Seq<Move>| !win_seqs(g).contains(ms) by {
        if ms.len() > 0 {
            assert(!legal_mat(g, ms[0]));
        }
    }
    assert(win_seqs(g) =~= Set::<Seq<Move>>::empty());
}

proof fn lemma_branch_union_contains(
    g: Seq<Seq<PegState>>,
    h: Seq<Move>,
    moves: Seq<Move>,
    k: int,
    t: Seq<Move>,
)
    requires
        0 <= k <= moves.len(),
    ensures
        branch_union(g, h, moves, k).contains(t) <==> exists|idx: int|
            0 <= idx < k && #[trigger] prefixed(
                h.push(moves[idx]),
                win_seqs(step_mat(g, moves[idx])),
            ).contains(t),
    decreases k,
{
    if k > 0 {
        lemma_branch_union_contains(g, h, moves, k - 1, t);
        if branch_union(g, h, moves, k).contains(t) {
            if branch_union(g, h, moves, k - 1).contains(t) {
                let idx = choose|idx: int|
                    0 <= idx < k - 1 && #[trigger] prefixed(
                        h.push(moves[idx]),
                        win_seqs(step_mat(g, moves[idx])),
                    ).contains(t);
                assert(prefixed(h.push(moves[idx]), win_seqs(step_mat(g, moves[idx]))).contains(t));
            } else {
                assert(prefixed(h.push(moves[k - 1]), win_seqs(step_mat(g, moves[k - 1]))).contains(
                    t,
                ));
            }
        }
        if exists|idx: int|
            0 <= idx < k && #[trigger] prefixed(
                h.push(moves[idx]),
                win_seqs(step_mat(g, moves[idx])),
            ).contains(t) {
            let idx = choose|idx: int|
                0 <= idx < k && #[trigger] prefixed(
                    h.push(moves[idx]),
                    win_seqs(step_mat(g, moves[idx])),
                ).contains(t);
            if idx < k - 1 {
                assert(branch_union(g, h, moves, k - 1).contains(t));
            } else {
                assert(branch_union(g, h, moves, k).contains(t));
            }
        }
    }
}

/// Away from a terminal position, the winning sequences split exactly by
/// their first move, drawn from the complete move list.
pub proof fn lemma_decompose(g: Seq<Seq<PegState>>, h: Seq<Move>, moves: Seq<Move>)
    requires
        wf_mat(g),
        !terminal_mat(g),
        forall|m: Move| #[trigger] moves.contains(m) <==> legal_mat(g, m),
    ensures
        prefixed(h, win_seqs(g)) == branch_union(g, h, moves, moves.len() as int),
{
    let n = moves.len() as int;
    assert forall|t: Seq<Move>| prefixed(h, win_seqs(g)).contains(t) implies branch_union(
        g,
        h,
        moves,
        n,
    ).contains(t) by {
        let ms = choose|ms: Seq<Move>| #[trigger] win_seqs(g).contains(ms) && t == h + ms;
        assert(is_win(g, ms));
        assert(ms.len() > 0);
        let m0 = ms[0];
        assert(legal_mat(g, m0));
        assert(moves.contains(m0));
        let idx = choose|idx: int| 0 <= idx < moves.len() && moves[idx] == m0;
        let rest = ms.subrange(1, ms.len() as int);
        assert(is_win(step_mat(g, m0), rest));
        assert(win_seqs(step_mat(g, m0)).contains(rest));
        assert(h + ms =~= h.push(m0) + rest);
        assert(prefixed(h.push(moves[idx]), win_seqs(step_mat(g, moves[idx]))).contains(t));
        lemma_branch_union_contains(g, h, moves, n, t);
    }
    assert forall|t: Seq<Move>| branch_union(g, h, moves, n).contains(t) implies prefixed(
        h,
        win_seqs(g),
    ).contains(t) by {
        lemma_branch_union_contains(g, h, moves, n, t);
        let idx = choose|idx: int|
            0 <= idx < n && #[trigger] prefixed(
                h.push(moves[idx]),
                win_seqs(step_mat(g, moves[idx])),
            ).contains(t);
        let m0 = moves[idx];
        assert(moves.contains(m0));
        assert(legal_mat(g, m0));
        let rest = choose|ms2: Seq<Move>|
            #[trigger] win_seqs(step_mat(g, m0)).contains(ms2) && t == h.push(m0) + ms2;
        let ms = seq![m0] + rest;
        assert(ms[0] == m0);
        assert(ms.subrange(1, ms.len() as int) =~= rest);
        assert(is_win(g, ms));
        assert(win_seqs(g).contains(ms));
        assert(h.push(m0) + rest =~= h + ms);
        assert(prefixed(h, win_seqs(g)).contains(t));
    }
    assert(prefixed(h, win_seqs(g)) =~= branch_union(g, h, moves, n));
}

/// An element-for-element copy of a move list.
fn clone_moves(v: &Vec<Move>) -> (r: Vec<Move>)
    ensures
        r@ == v@,
{
    let n = v.len();
    let mut r: Vec<Move> = Vec::new();
    let mut k: usize = 0;
    while k < n
        invariant
            k <= n,
            n == v@.len(),
            r@.len() == k,
            forall|t: int| 0 <= t < k ==> r@[t] == v@[t],
        decreases n - k,
    {
        r.push(v[k]);
        k = k + 1;
    }
    proof {
        assert(r@ =~= v@);
    }
    r
}

/// Whether two move lists hold the same moves in the same order.
fn moves_eq(a: &Vec<Move>, b: &Vec<Move>) -> (r: bool)
    ensures
        r == (a@ == b@),
{
    let n = a.len();
    if n != b.len() {
        return false;
    }
    let mut k: usize = 0;
    while k < n
        invariant
            k <= n,
            n == a@.len(),
            n == b@.len(),
            forall|t: int| 0 <= t < k ==> a@[t] == b@[t],
        decreases n - k,
    {
        let am = a[k];
        let bm = b[k];
        if !(am == bm) {
            return false;
        }
        k = k + 1;
    }
    proof {
        assert(a@ =~= b@);
    }
    true
}

/// One winning play: the ordered move sequence from the initial position
/// to a single remaining peg.
#[derive(Debug, Clone)]
pub struct Solution {
    pub moves: Vec<Move>,
}

impl View for Solution {
    type V = Seq<Move>;

    open spec fn view(&self) -> Seq<Move> {
        self.moves@
    }
}

impl Solution {
    pub fn new(moves: Vec<Move>) -> (r: Solution)
        ensures
            r@ == moves@,
    {
        Solution { moves }
    }

    /// The recorded move sequence.
    pub fn moves(&self) -> (r: &Vec<Move>)
        ensures
            r@ == self@,
    {
        &self.moves
    }

    /// An independent copy of the solution.
    pub fn duplicate(&self) -> (r: Solution)
        ensures
            r@ == self@,
    {
        Solution { moves: clone_moves(&self.moves) }
    }
}

/// The move sequences of the first `n` stored solutions, as a set.
pub open spec fn seqs_upto(items: Seq<Solution>, n: int) -> Set<Seq<Move>> {
    Set::new(|ms: Seq<Move>| exists|k: int| 0 <= k < n && (#[trigger] items[k])@ == ms)
}

/// A deduplicating collection of solutions, keyed by the full move
/// sequence.
#[derive(Debug)]
pub struct SolutionSet {
    pub items: Vec<Solution>,
}

impl SolutionSet {
    /// The set of move sequences held.
    pub open spec fn seqs(self) -> Set<Seq<Move>> {
        seqs_upto(self.items@, self.items@.len() as int)
    }

    /// No two stored solutions share a move sequence.
    pub open spec fn dedup_ok(self) -> bool {
        forall|p: int, q: int|
            #![trigger self.items@[p], self.items@[q]]
            0 <= p < q < self.items@.len() ==> self.items@[p]@ != self.items@[q]@
    }

    pub fn new() -> (r: SolutionSet)
        ensures
            r.dedup_ok(),
            r.seqs() == Set::<Seq<Move>>::empty(),
            r.items@.len() == 0,
    {
        let r = SolutionSet { items: Vec::new() };
        proof {
            assert(r.seqs() =~= Set::<Seq<Move>>::empty());
        }
        r
    }

    /// How many distinct solutions are held.
    pub fn len(&self) -> (r: usize)
        ensures
            r == self.items@.len(),
    {
        self.items.len()
    }

    /// The `k`-th stored solution, in insertion order.
    pub fn get(&self, k: usize) -> (r: &Solution)
        requires
            k < self.items@.len(),
        ensures
            r@ == self.items@[k as int]@,
    {
        &self.items[k]
    }

    /// Whether some stored solution has exactly this move sequence.
    pub fn contains_moves(&self, ms: &Vec<Move>) -> (r: bool)
        ensures
            r == self.seqs().contains(ms@),
    {
        let n = self.items.len();
        let mut k: usize = 0;
        while k < n
            invariant
                k <= n,
                n == self.items@.len(),
                forall|t: int| 0 <= t < k ==> (#[trigger] self.items@[t])@ != ms@,
            decreases n - k,
        {
            if moves_eq(&self.items[k].moves, ms) {
                proof {
                    assert((self.items@[k as int])@ == ms@);
                }
                return true;
            }
            k = k + 1;
        }
        proof {
            if self.seqs().contains(ms@) {
                let t = choose|t: int| 0 <= t < n && (#[trigger] self.items@[t])@ == ms@;
                assert(false);
            }
        }
        false
    }

    /// Add a solution unless its move sequence is already held.
    pub fn insert(&mut self, s: Solution)
        requires
            old(self).dedup_ok(),
        ensures
            final(self).dedup_ok(),
            final(self).seqs() == old(self).seqs().insert(s@),
    {
        if self.contains_moves(&s.moves) {
            proof {
                assert(final(self).seqs() =~= old(self).seqs().insert(s@));
            }
            return;
        }
        let ghost items0 = self.items@;
        self.items.push(s);
        proof {
            let items1 = self.items@;
            let n0 = items0.len() as int;
            assert forall|ms: Seq<Move>| #[trigger] seqs_upto(items1, n0 + 1).contains(ms) implies
                seqs_upto(items0, n0).insert(s@).contains(ms) by {
                let k = choose|k: int| 0 <= k < n0 + 1 && (#[trigger] items1[k])@ == ms;
                if k < n0 {
                    assert((items0[k])@ == ms);
                }
            }
            assert forall|ms: Seq<Move>| seqs_upto(items0, n0).insert(s@).contains(
                ms,
            ) implies #[trigger] seqs_upto(items1, n0 + 1).contains(ms) by {
                if seqs_upto(items0, n0).contains(ms) {
                    let k = choose|k: int| 0 <= k < n0 && (#[trigger] items0[k])@ == ms;
                    assert((items1[k])@ == ms);
                } else {
                    assert((items1[n0])@ == ms);
                }
            }
            assert(self.seqs() =~= old(self).seqs().insert(s@));
            assert forall|p: int, q: int|
                #![trigger items1[p], items1[q]]
                0 <= p < q < items1.len() implies items1[p]@ != items1[q]@ by {
                if q == n0 {
                    assert((items0[p])@ != s@);
                }
            }
        }
    }

    /// Fold every solution of `other` into this set.
    pub fn merge(&mut self, other: &SolutionSet)
        requires
            old(self).dedup_ok(),
        ensures
            final(self).dedup_ok(),
            final(self).seqs() == old(self).seqs().union(other.seqs()),
    {
        let n = other.items.len();
        let mut k: usize = 0;
        while k < n
            invariant
                k <= n,
                n == other.items@.len(),
                self.dedup_ok(),
                self.seqs() == old(self).seqs().union(seqs_upto(other.items@, k as int)),
            decreases n - k,
        {
            let ghost before = self.seqs();
            let s = other.items[k].duplicate();
            self.insert(s);
            proof {
                assert forall|ms: Seq<Move>| #[trigger] seqs_upto(other.items@, k + 1).contains(
                    ms,
                ) implies seqs_upto(other.items@, k as int).insert(other.items@[k as int]@).contains(
                    ms,
                ) by {
                    let t = choose|t: int| 0 <= t < k + 1 && (#[trigger] other.items@[t])@ == ms;
                    if t < k {
                        assert(seqs_upto(other.items@, k as int).contains(ms));
                    }
                }
                assert forall|ms: Seq<Move>| seqs_upto(other.items@, k as int).insert(
                    other.items@[k as int]@,
                ).contains(ms) implies #[trigger] seqs_upto(other.items@, k + 1).contains(ms) by {
                    if seqs_upto(other.items@, k as int).contains(ms) {
                        let t = choose|t: int| 0 <= t < k && (#[trigger] other.items@[t])@ == ms;
                        assert((other.items@[t])@ == ms);
                    } else {
                        assert((other.items@[k as int])@ == ms);
                    }
                }
                assert(seqs_upto(other.items@, k + 1) =~= seqs_upto(other.items@, k as int).insert(
                    other.items@[k as int]@,
                ));
                assert(self.seqs() =~= old(self).seqs().union(seqs_upto(other.items@, k + 1)));
            }
            k = k + 1;
        }
        proof {
            assert(seqs_upto(other.items@, n as int) == other.seqs());
        }
    }
}

/// The position reached by replaying `ms` from `g` move by move.
pub open spec fn run_moves(g: Seq<Seq<PegState>>, ms: Seq<Move>) -> Seq<Seq<PegState>>
    decreases ms.len(),
{
    if ms.len() == 0 {
        g
    } else {
        run_moves(step_mat(g, ms[0]), ms.subrange(1, ms.len() as int))
    }
}

/// Replaying a recorded winning sequence is legal at every step and ends
/// with exactly one peg on the board.
pub proof fn lemma_replay(g: Seq<Seq<PegState>>, ms: Seq<Move>)
    requires
        is_win(g, ms),
    ensures
        occupied_of(run_moves(g, ms)) == 1,
        forall|k: int|
            0 <= k < ms.len() ==> legal_mat(run_moves(g, ms.subrange(0, k)), ms[k]),
    decreases ms.len(),
{
    if ms.len() > 0 {
        let g1 = step_mat(g, ms[0]);
        let rest = ms.subrange(1, ms.len() as int);
        lemma_replay(g1, rest);
        assert forall|k: int|
            0 <= k < ms.len() implies legal_mat(run_moves(g, ms.subrange(0, k)), ms[k]) by {
            if k == 0 {
                assert(ms.subrange(0, 0) =~= Seq::<Move>::empty());
            } else {
                let p = ms.subrange(0, k);
                assert(p[0] == ms[0]);
                assert(p.subrange(1, k) =~= rest.subrange(0, k - 1));
                assert(run_moves(g, p) == run_moves(g1, rest.subrange(0, k - 1)));
                assert(legal_mat(run_moves(g1, rest.subrange(0, k - 1)), rest[k - 1]));
                assert(ms[k] == rest[k - 1]);
            }
        }
    }
}

proof fn lemma_seqs_upto_card(items: Seq<Solution>, n: int)
    requires
        0 <= n <= items.len(),
        forall|p: int, q: int|
            #![trigger items[p], items[q]]
            0 <= p < q < items.len() ==> items[p]@ != items[q]@,
    ensures
        seqs_upto(items, n).finite(),
        seqs_upto(items, n).len() == n,
    decreases n,
{
    if n == 0 {
        assert(seqs_upto(items, 0) =~= Set::<Seq<Move>>::empty());
    } else {
        lemma_seqs_upto_card(items, n - 1);
        let prev = seqs_upto(items, n - 1);
        let x = items[n - 1]@;
        assert forall|ms: Seq<Move>| #[trigger] seqs_upto(items, n).contains(ms) implies
            prev.insert(x).contains(ms) by {
            let k = choose|k: int| 0 <= k < n && (#[trigger] items[k])@ == ms;
            if k < n - 1 {
                assert(prev.contains(ms));
            }
        }
        assert forall|ms: Seq<Move>| prev.insert(x).contains(ms) implies #[trigger] seqs_upto(
            items,
            n,
        ).contains(ms) by {
            if prev.contains(ms) {
                let k = choose|k: int| 0 <= k < n - 1 && (#[trigger] items[k])@ == ms;
                assert((items[k])@ == ms);
            } else {
                assert((items[n - 1])@ == ms);
            }
        }
        assert(seqs_upto(items, n) =~= prev.insert(x));
        if prev.contains(x) {
            let k = choose|k: int| 0 <= k < n - 1 && (#[trigger] items[k])@ == x;
            assert(false);
        }
        vstd::set::axiom_set_insert_len(prev, x);
    }
}

/// How many solutions a deduplicated set stores: exactly the cardinality
/// of its set of move sequences.
pub proof fn lemma_len_is_cardinality(ss: SolutionSet)
    requires
        ss.dedup_ok(),
    ensures
        ss.seqs().finite(),
        ss.seqs().len() == ss.items@.len(),
{
    lemma_seqs_upto_card(ss.items@, ss.items@.len() as int);
}

/// A set known to hold exactly one sequence holds exactly one solution.
pub proof fn lemma_singleton_len(ss: SolutionSet, x: Seq<Move>)
    requires
        ss.dedup_ok(),
        ss.seqs() == set![x],
    ensures
        ss.items@.len() == 1,
        ss.items@[0]@ == x,
{
    assert(set![x].contains(x));
    let k = choose|k: int| 0 <= k < ss.items@.len() && (#[trigger] ss.items@[k])@ == x;
    if ss.items@.len() > 1 {
        let p = if k == 0 {
            1int
        } else {
            0int
        };
        assert(ss.seqs().contains(ss.items@[p]@));
        assert(ss.items@[p]@ == x);
        assert(false);
    }
    assert(ss.seqs().contains(ss.items@[0]@));
}

/// Any two complete enumerations of the same position — sequential or
/// parallel, first run or repeated — hold the same winning sequences.
pub proof fn lemma_enumerations_agree(a: SolutionSet, b: SolutionSet, g: Seq<Seq<PegState>>)
    requires
        a.seqs() == win_seqs(g),
        b.seqs() == win_seqs(g),
    ensures
        a.seqs() == b.seqs(),
{
}

/// Prepending an empty history changes nothing.
pub proof fn lemma_prefixed_empty(s: Set<Seq<Move>>)
    ensures
        prefixed(Seq::<Move>::empty(), s) == s,
{
    assert forall|t: Seq<Move>| prefixed(Seq::<Move>::empty(), s).contains(t) implies s.contains(
        t,
    ) by {
        let ms = choose|ms: Seq<Move>| #[trigger] s.contains(ms) && t == Seq::<Move>::empty() + ms;
        assert(Seq::<Move>::empty() + ms =~= ms);
    }
    assert forall|t: Seq<Move>| s.contains(t) implies prefixed(Seq::<Move>::empty(), s).contains(
        t,
    ) by {
        assert(Seq::<Move>::empty() + t =~= t);
        assert(s.contains(t) && t == Seq::<Move>::empty() + t);
    }
    assert(prefixed(Seq::<Move>::empty(), s) =~= s);
}

/// A terminal position contributes exactly its history as the one
/// solution.
proof fn lemma_prefixed_terminal(g: Seq<Seq<PegState>>, h: Seq<Move>)
    requires
        wf_mat(g),
        terminal_mat(g),
    ensures
        prefixed(h, win_seqs(g)) == set![h],
{
    lemma_terminal_wins(g);
    assert(h + Seq::<Move>::empty() =~= h);
    assert forall|t: Seq<Move>| prefixed(h, win_seqs(g)).contains(t) implies t == h by {
        let ms = choose|ms: Seq<Move>| #[trigger] win_seqs(g).contains(ms) && t == h + ms;
        assert(set![Seq::<Move>::empty()].contains(ms));
        assert(ms == Seq::<Move>::empty());
    }
    assert(win_seqs(g).contains(Seq::<Move>::empty()));
    assert(prefixed(h, win_seqs(g)).contains(h));
    assert(prefixed(h, win_seqs(g)) =~= set![h]);
}

/// Depth-first sequential search: explore every branch of the current
/// position, restoring board and history before returning, and record the
/// history of every terminal position reached.
fn solve_rec_seq(board: &mut TriangleBoard, history: &mut Vec<Move>, out: &mut SolutionSet)
    requires
        old(board).wf(),
        old(out).dedup_ok(),
    ensures
        final(board).wf(),
        final(board).side() == old(board).side(),
        final(board).mat() == old(board).mat(),
        final(history)@ == old(history)@,
        final(out).dedup_ok(),
        final(out).seqs() == old(out).seqs().union(
            prefixed(old(history)@, win_seqs(old(board).mat())),
        ),
    decreases occupied_of(board.mat()),
{
    let g = Ghost(board.mat());
    let h = Ghost(history@);
    let s0 = Ghost(out.seqs());
    if board.is_terminal() {
        let sol = Solution::new(clone_moves(history));
        out.insert(sol);
        proof {
            lemma_prefixed_terminal(g@, h@);
            assert(out.seqs() =~= s0@.union(prefixed(h@, win_seqs(g@))));
        }
        return ;
    }
    let moves = board.find_valid_moves();
    if moves.len() == 0 {
        proof {
            assert forall|m: Move| !legal_mat(g@, m) by {
                if legal_mat(g@, m) {
                    assert(moves@.contains(m));
                }
            }
            lemma_dead_end(g@);
            assert(prefixed(h@, Set::<Seq<Move>>::empty()) =~= Set::<Seq<Move>>::empty());
            assert(out.seqs() =~= s0@.union(prefixed(h@, win_seqs(g@))));
        }
        return ;
    }
    let n = moves.len();
    let mut k: usize = 0;
    while k < n
        invariant
            k <= n,
            n == moves@.len(),
            board.wf(),
            board.mat() == g@,
            board.side() == g@.len(),
            history@ == h@,
            out.dedup_ok(),
            out.seqs() == s0@.union(branch_union(g@, h@, moves@, k as int)),
            forall|m: Move| #[trigger] moves@.contains(m) <==> legal_mat(g@, m),
            !terminal_mat(g@),
            wf_mat(g@),
            g@ == old(board).mat(),
        decreases n - k,
    {
        let mov = moves[k];
        proof {
            assert(moves@.contains(mov));
            lemma_step(g@, mov);
            lemma_mat_count_nonneg(
                step_mat(g@, mov),
                PegState::Occupied,
                step_mat(g@, mov).len() as int,
            );
        }
        let ghost pre = out.seqs();
        board.execute_move(&mov);
        history.push(mov);
        solve_rec_seq(board, history, out);
        let _ = history.pop();
        board.undo_move(&mov, Ghost(g@));
        proof {
            assert(h@.push(mov).subrange(0, h@.len() as int) =~= h@);
            assert(branch_union(g@, h@, moves@, k as int + 1) == branch_union(
                g@,
                h@,
                moves@,
                k as int,
            ).union(prefixed(h@.push(moves@[k as int]), win_seqs(step_mat(g@, moves@[k as int])))));
            assert(out.seqs() =~= s0@.union(branch_union(g@, h@, moves@, k as int + 1)));
        }
        k = k + 1;
    }
    proof {
        lemma_decompose(g@, h@, moves@);
        assert(out.seqs() == s0@.union(prefixed(h@, win_seqs(g@))));
    }
}

/// Explore one branch of the parallel search: the given position with the
/// given history; sub-branches fan out over the thread pool.
fn solve_branch(board: &TriangleBoard, history: &Vec<Move>) -> (out: SolutionSet)
    requires
        board.wf(),
    ensures
        out.dedup_ok(),
        out.seqs() == prefixed(history@, win_seqs(board.mat())),
{
    let g = Ghost(board.mat());
    let h = Ghost(history@);
    if board.is_terminal() {
        let mut out = SolutionSet::new();
        out.insert(Solution::new(clone_moves(history)));
        proof {
            lemma_prefixed_terminal(g@, h@);
            assert(out.seqs() =~= prefixed(h@, win_seqs(g@)));
        }
        return out;
    }
    let moves = board.find_valid_moves();
    if moves.len() == 0 {
        let out = SolutionSet::new();
        proof {
            assert forall|m: Move| !legal_mat(g@, m) by {
                if legal_mat(g@, m) {
                    assert(moves@.contains(m));
                }
            }
            lemma_dead_end(g@);
            assert(prefixed(h@, Set::<Seq<Move>>::empty()) =~= Set::<Seq<Move>>::empty());
        }
        return out;
    }
    let n = moves.len();
    let mut branches: Vec<(TriangleBoard, Vec<Move>)> = Vec::new();
    let mut k: usize = 0;
    while k < n
        invariant
            k <= n,
            n == moves@.len(),
            board.wf(),
            g@ == board.mat(),
            h@ == history@,
            branches@.len() == k,
            forall|t: int|
                0 <= t < k ==> (#[trigger] branches@[t]).0.wf() && branches@[t].0.mat() == step_mat(
                    g@,
                    moves@[t],
                ) && branches@[t].1@ == h@.push(moves@[t]),
            forall|m: Move| #[trigger] moves@.contains(m) <==> legal_mat(g@, m),
        decreases n - k,
    {
        let mov = moves[k];
        proof {
            assert(moves@.contains(mov));
        }
        let mut nb = board.duplicate();
        nb.execute_move(&mov);
        let mut nh = clone_moves(history);
        nh.push(mov);
        branches.push((nb, nh));
        k = k + 1;
    }
    let results = par_solve_branches(&branches);
    let mut out = SolutionSet::new();
    let mut k2: usize = 0;
    while k2 < n
        invariant
            k2 <= n,
            n == moves@.len(),
            n == branches@.len(),
            n == results@.len(),
            out.dedup_ok(),
            out.seqs() == branch_union(g@, h@, moves@, k2 as int),
            forall|t: int|
                0 <= t < n ==> (#[trigger] branches@[t]).0.mat() == step_mat(g@, moves@[t])
                    && branches@[t].1@ == h@.push(moves@[t]),
            forall|t: int|
                0 <= t < n ==> (#[trigger] results@[t]).dedup_ok() && results@[t].seqs() == prefixed(
                    branches@[t].1@,
                    win_seqs(branches@[t].0.mat()),
                ),
        decreases n - k2,
    {
        out.merge(&results[k2]);
        proof {
            assert(branch_union(g@, h@, moves@, k2 as int + 1) == branch_union(
                g@,
                h@,
                moves@,
                k2 as int,
            ).union(
                prefixed(h@.push(moves@[k2 as int]), win_seqs(step_mat(g@, moves@[k2 as int]))),
            ));
        }
        k2 = k2 + 1;
    }
    proof {
        assert(!terminal_mat(g@));
        lemma_decompose(g@, h@, moves@);
    }
    out
}

/// Relies on rayon's `par_iter`, `ParallelIterator::map` and `collect`
/// into `Vec`: the closure runs once per element and the collected vector
/// has one result per input, in input order.
#[verifier::external_body]
fn par_solve_branches(branches: &Vec<(TriangleBoard, Vec<Move>)>) -> (r: Vec<SolutionSet>)
    requires
        forall|t: int| 0 <= t < branches@.len() ==> (#[trigger] branches@[t]).0.wf(),
    ensures
        r@.len() == branches@.len(),
        forall|t: int|
            0 <= t < branches@.len() ==> (#[trigger] r@[t]).dedup_ok() && r@[t].seqs() == prefixed(
                branches@[t].1@,
                win_seqs(branches@[t].0.mat()),
            ),
{
    branches.par_iter().map(|b| solve_branch(&b.0, &b.1)).collect()
}

/// The English cross-shaped board: recognised but not implemented; every
/// operation on it reports `UnsupportedVariant`.
#[derive(Debug, Clone, Default)]
pub struct EnglishBoard {
    grid: Vec<Vec<PegState>>,
}

/// A playable board variant.
#[derive(Debug, Clone)]
pub enum Board {
    Triangle(TriangleBoard),
    English(EnglishBoard),
}

impl Board {
    /// The triangular board held, when there is one.
    pub open spec fn tri(self) -> TriangleBoard {
        self->Triangle_0
    }

    /// A well-formed variant value.
    pub open spec fn wf(self) -> bool {
        match self {
            Board::Triangle(b) => b.wf(),
            Board::English(_) => true,
        }
    }

    /// Every legal move of the current position, or `UnsupportedVariant`
    /// for a variant without move rules.
    pub fn find_valid_moves(&self) -> (r: Result<Vec<Move>, SolverError>)
        requires
            self.wf(),
        ensures
            match r {
                Ok(moves) => self is Triangle && (forall|m: Move|
                    #[trigger] moves@.contains(m) <==> legal_mat(self.tri().mat(), m)),
                Err(e) => self is English && e == SolverError::UnsupportedVariant,
            },
    {
        match self {
            Board::English(_) => Err(SolverError::UnsupportedVariant),
            Board::Triangle(b) => Ok(b.find_valid_moves()),
        }
    }

    /// Play a generated move in place.
    pub fn execute_move(&mut self, m: &Move) -> (r: Result<(), SolverError>)
        requires
            old(self).wf(),
            *old(self) is Triangle ==> legal_mat(old(self).tri().mat(), *m),
        ensures
            final(self).wf(),
            match r {
                Ok(_) => {
                    &&& *old(self) is Triangle
                    &&& *final(self) is Triangle
                    &&& final(self).tri().mat() == step_mat(old(self).tri().mat(), *m)
                    &&& final(self).tri().side() == old(self).tri().side()
                    &&& occupied_of(final(self).tri().mat()) == occupied_of(old(self).tri().mat())
                        - 1
                },
                Err(e) => {
                    &&& *old(self) is English
                    &&& *final(self) == *old(self)
                    &&& e == SolverError::UnsupportedVariant
                },
            },
    {
        match self {
            Board::English(_) => Err(SolverError::UnsupportedVariant),
            Board::Triangle(b) => {
                b.execute_move(m);
                Ok(())
            },
        }
    }

    /// The board rendered one line per row, for the display collaborator.
    pub fn render_lines(&self) -> (r: Result<Vec<String>, SolverError>)
        requires
            self.wf(),
        ensures
            match r {
                Ok(lines) => {
                    &&& self is Triangle
                    &&& lines@.len() == self.tri().side()
                    &&& forall|i: int|
                        0 <= i < self.tri().side() ==> (#[trigger] lines@[i])@
                            == crate::board::line_render(self.tri().mat(), i)
                },
                Err(e) => self is English && e == SolverError::UnsupportedVariant,
            },
    {
        match self {
            Board::English(_) => Err(SolverError::UnsupportedVariant),
            Board::Triangle(b) => Ok(b.render_lines()),
        }
    }

    /// Whether exactly one peg remains.
    pub fn is_solved(&self) -> (r: Result<bool, SolverError>)
        requires
            self.wf(),
        ensures
            match r {
                Ok(t) => self is Triangle && t == terminal_mat(self.tri().mat()),
                Err(e) => self is English && e == SolverError::UnsupportedVariant,
            },
    {
        match self {
            Board::English(_) => Err(SolverError::UnsupportedVariant),
            Board::Triangle(b) => Ok(b.is_terminal()),
        }
    }

    /// How many pegs remain.
    pub fn occupied_count(&self) -> (r: Result<usize, SolverError>)
        requires
            self.wf(),
        ensures
            match r {
                Ok(c) => self is Triangle && c as int == occupied_of(self.tri().mat()),
                Err(e) => self is English && e == SolverError::UnsupportedVariant,
            },
    {
        match self {
            Board::English(_) => Err(SolverError::UnsupportedVariant),
            Board::Triangle(b) => Ok(b.occupied_count()),
        }
    }

    /// Enumerate every winning move sequence, exploring sibling branches
    /// concurrently; the result holds each winning sequence exactly once.
    pub fn solve(&self) -> (r: Result<SolutionSet, SolverError>)
        requires
            self.wf(),
        ensures
            match r {
                Ok(out) => {
                    &&& self is Triangle
                    &&& out.dedup_ok()
                    &&& out.seqs() == win_seqs(self.tri().mat())
                },
                Err(e) => self is English && e == SolverError::UnsupportedVariant,
            },
    {
        match self {
            Board::English(_) => Err(SolverError::UnsupportedVariant),
            Board::Triangle(b) => {
                let history: Vec<Move> = Vec::new();
                let out = solve_branch(b, &history);
                proof {
                    lemma_prefixed_empty(win_seqs(b.mat()));
                }
                Ok(out)
            },
        }
    }

    /// Enumerate every winning move sequence depth-first on the current
    /// thread; the result holds each winning sequence exactly once, in
    /// discovery order.
    pub fn solve_sequential(&self) -> (r: Result<SolutionSet, SolverError>)
        requires
            self.wf(),
        ensures
            match r {
                Ok(out) => {
                    &&& self is Triangle
                    &&& out.dedup_ok()
                    &&& out.seqs() == win_seqs(self.tri().mat())
                },
                Err(e) => self is English && e == SolverError::UnsupportedVariant,
            },
    {
        match self {
            Board::English(_) => Err(SolverError::UnsupportedVariant),
            Board::Triangle(b) => {
                let mut work = b.duplicate();
                let mut history: Vec<Move> = Vec::new();
                let mut out = SolutionSet::new();
                solve_rec_seq(&mut work, &mut history, &mut out);
                proof {
                    lemma_prefixed_empty(win_seqs(b.mat()));
                    assert(out.seqs() =~= win_seqs(b.mat()));
                }
                Ok(out)
            },
        }
    }
}

} // verus!
