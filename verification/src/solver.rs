//! The search for a sequence of moves that clears the board.

use vstd::prelude::*;
use std::collections::HashSet;
use crate::marble::Marble;
use crate::board::{
    Board, Move, after_move, at, grid_hash, occupied, playable, taken, lemma_move_round_trip,
    lemma_move_takes, lemma_unoccupied,
};
use crate::zobrist::CELLS;
use crate::moves::legal_moves_of;
use crate::rules::{legal, lemma_generated_moves_legal};

verus! {

broadcast use vstd::std_specs::hash::group_hash_axioms;

/// Number of moves that clear a full board.
pub const TOTAL_MOVES: usize = 28;

/// Whether each move of `line` is among the legal moves of the grid that
/// the moves before it leave, starting from `g`.
pub open spec fn valid_line(g: Seq<Marble>, line: Seq<Move>) -> bool
    decreases line.len(),
{
    line.len() == 0 || (legal_moves_of(g).contains(line[0]) && valid_line(
        after_move(g, line[0]),
        line.skip(1),
    ))
}

/// The grid that the moves of `line`, made one after the other, leave of
/// `g`.
pub open spec fn after_line(g: Seq<Marble>, line: Seq<Move>) -> Seq<Marble>
    decreases line.len(),
{
    if line.len() == 0 {
        g
    } else {
        after_line(after_move(g, line[0]), line.skip(1))
    }
}

/// The search at move number `depth` on grid `g`, from the `i`-th legal
/// move on: the line found, if any, and the fingerprints of the dead ends
/// known afterwards. A line has `TOTAL_MOVES` places, of which those from
/// `depth - 1` on hold the moves found.
pub open spec fn search_from(g: Seq<Marble>, t: Seq<u64>, visited: Set<u64>, depth: nat, i: nat) -> (
    Option<Seq<Move>>,
    Set<u64>,
)
    decreases TOTAL_MOVES - depth, legal_moves_of(g).len() - i,
{
    let candidates = legal_moves_of(g);
    if i >= candidates.len() || depth > TOTAL_MOVES || depth == 0 {
        (None, visited)
    } else {
        let m = candidates[i as int];
        let next = after_move(g, m);
        if depth == TOTAL_MOVES {
            (Some(Seq::new(TOTAL_MOVES as nat, |k: int| m)), visited)
        } else {
            let sub = search(next, t, visited, depth + 1);
            match sub.0 {
                Some(line) => (Some(line.update(depth - 1, m)), sub.1),
                None => search_from(g, t, sub.1.insert(grid_hash(next, t)), depth, i + 1),
            }
        }
    }
}

/// The search at move number `depth` on grid `g`: nothing is tried where
/// the grid's fingerprint is that of a known dead end.
pub open spec fn search(g: Seq<Marble>, t: Seq<u64>, visited: Set<u64>, depth: nat) -> (
    Option<Seq<Move>>,
    Set<u64>,
)
    decreases TOTAL_MOVES - depth, legal_moves_of(g).len() + 1,
{
    if visited.contains(grid_hash(g, t)) {
        (None, visited)
    } else {
        search_from(g, t, visited, depth, 0)
    }
}

/// The moves of a line that was found, as a sequence.
pub open spec fn line_view(r: Option<Vec<Move>>) -> Option<Seq<Move>> {
    match r {
        Some(v) => Some(v@),
        None => None,
    }
}

/// A line with the move `m` at each of its `TOTAL_MOVES` places.
fn filled(m: Move) -> (v: Vec<Move>)
    ensures
        v@ == Seq::new(TOTAL_MOVES as nat, |k: int| m),
{
    let mut v: Vec<Move> = Vec::with_capacity(TOTAL_MOVES);
    let mut k: usize = 0;
    while k < TOTAL_MOVES
        invariant
            k <= TOTAL_MOVES,
            v@ == Seq::new(k as nat, |j: int| m),
        decreases TOTAL_MOVES - k,
    {
        v.push(m);
        proof {
            assert(v@ =~= Seq::new((k + 1) as nat, |j: int| m));
        }
        k += 1;
    }
    v
}

/// Searches from the position on `board` at move number `depth`. Where no
/// line is found the board is as it was before.
fn go_solve(board: &mut Board, visited: &mut HashSet<u64>, depth: usize) -> (r: Option<Vec<Move>>)
    requires
        old(board).wf(),
        1 <= depth <= TOTAL_MOVES,
    ensures
        final(board).wf(),
        final(board).keys() == old(board).keys(),
        r is None ==> final(board).grid() == old(board).grid(),
        line_view(r) == search(old(board).grid(), old(board).keys(), old(visited)@, depth as nat).0,
        final(visited)@ == search(
            old(board).grid(),
            old(board).keys(),
            old(visited)@,
            depth as nat,
        ).1,
        r matches Some(v) ==> v@.len() == TOTAL_MOVES && valid_line(
            old(board).grid(),
            v@.skip(depth - 1),
        ),
    decreases TOTAL_MOVES - depth,
{
    let ghost g = board.grid();
    let ghost t = board.keys();
    let ghost seen = visited@;
    let h = board.hash();
    if visited.contains(&h) {
        return None;
    }
    let candidates = board.legal_moves();
    proof {
        lemma_generated_moves_legal(g);
        assert forall|k: int| 0 <= k < candidates@.len() implies playable(g, #[trigger] candidates@[k]) by {
            assert(legal(g, legal_moves_of(g)[k]));
        }
    }
    let mut i: usize = 0;
    while i < candidates.len()
        invariant
            i <= candidates@.len(),
            1 <= depth <= TOTAL_MOVES,
            board.wf(),
            board.grid() == g,
            board.keys() == t,
            g == old(board).grid(),
            t == old(board).keys(),
            seen == old(visited)@,
            !seen.contains(grid_hash(g, t)),
            candidates@ == legal_moves_of(g),
            forall|k: int| 0 <= k < candidates@.len() ==> playable(g, #[trigger] candidates@[k]),
            search_from(g, t, visited@, depth as nat, i as nat) == search(
                g,
                t,
                seen,
                depth as nat,
            ),
        decreases candidates@.len() - i,
    {
        let m = candidates[i];
        assert(playable(g, m));
        assert(legal_moves_of(g)[i as int] == m);
        assert(legal_moves_of(g).contains(m));
        proof {
            lemma_move_round_trip(g, m);
        }
        board.make_move(m);
        if depth == TOTAL_MOVES {
            let v = filled(m);
            proof {
                assert(v@.skip(depth - 1).skip(1) =~= Seq::<Move>::empty());
                assert(valid_line(after_move(g, m), v@.skip(depth - 1).skip(1)));
            }
            return Some(v);
        }
        match go_solve(board, visited, depth + 1) {
            Some(mut line) => {
                let ghost found = line@;
                line.set(depth - 1, m);
                proof {
                    assert(line@.skip(depth - 1).skip(1) =~= found.skip(depth as int));
                }
                return Some(line);
            },
            None => {},
        }
        visited.insert(board.hash());
        board.reverse_move(m);
        i += 1;
    }
    None
}

impl Board {
    /// Searches for `TOTAL_MOVES` moves that can be made one after the
    /// other from this position. The search tries the legal moves in their
    /// order, goes back whenever a position has no legal move left, and
    /// never enters a position whose fingerprint it has seen fail.
    pub fn solve(&self) -> (r: Option<Vec<Move>>)
        requires
            self.wf(),
        ensures
            line_view(r) == search(self.grid(), self.keys(), Set::empty(), 1).0,
            r matches Some(v) ==> v@.len() == TOTAL_MOVES && valid_line(self.grid(), v@),
            legal_moves_of(self.grid()).len() == 0 ==> r is None,
    {
        let mut board = self.clone();
        let mut visited: HashSet<u64> = HashSet::with_capacity(60000);
        let r = go_solve(&mut board, &mut visited, 1);
        proof {
            if r is Some {
                assert(r->0@.skip(0) =~= r->0@);
            }
        }
        r
    }
}

/// Number of marbles that the moves of `line` take off the board.
pub open spec fn taken_by(line: Seq<Move>) -> nat
    decreases line.len(),
{
    if line.len() == 0 {
        0
    } else {
        taken(line[0]) + taken_by(line.skip(1))
    }
}

/// The moves of a valid line take their marbles off the board: two each,
/// but one where Gold leaves alone.
pub proof fn lemma_line_takes(g: Seq<Marble>, line: Seq<Move>)
    requires
        g.len() == CELLS,
        valid_line(g, line),
    ensures
        after_line(g, line).len() == CELLS,
        occupied(after_line(g, line)) + taken_by(line) == occupied(g),
    decreases line.len(),
{
    if line.len() > 0 {
        let m = line[0];
        lemma_generated_moves_legal(g);
        let i = choose|i: int| 0 <= i < legal_moves_of(g).len() && legal_moves_of(g)[i] == m;
        assert(legal(g, legal_moves_of(g)[i]));
        lemma_move_takes(g, m);
        lemma_line_takes(after_move(g, m), line.skip(1));
    }
}

/// A valid line that takes as many marbles as the board holds leaves
/// every cell empty.
pub proof fn lemma_line_clears(g: Seq<Marble>, line: Seq<Move>)
    requires
        g.len() == CELLS,
        valid_line(g, line),
        taken_by(line) == occupied(g),
    ensures
        forall|x: int, y: int|
            0 <= x < 13 && 0 <= y < 13 ==> #[trigger] at(after_line(g, line), x, y) == Marble::Empty,
{
    lemma_line_takes(g, line);
    lemma_unoccupied(after_line(g, line));
}

} // verus!
