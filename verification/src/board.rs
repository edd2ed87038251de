//! The board, its fingerprint, and the moves that change it.

use vstd::prelude::*;
use crate::marble::Marble;
use crate::zobrist::{ZobristTable, slot, SIDE, CELLS, TABLE_LEN};

verus! {

/// A marble as it was seen at a cell: a snapshot, not a reference.
#[derive(Debug, PartialEq, Eq, Clone, Copy, Structural)]
pub struct MarblePos {
    pub x: usize,
    pub y: usize,
    pub marble: Marble,
}

/// A pair of marbles that leave the board together. Where `b` is Gold, `a`
/// and `b` are the same marble and only that one leaves.
#[derive(Debug, PartialEq, Eq, Clone, Copy, Structural)]
pub struct Move {
    pub a: MarblePos,
    pub b: MarblePos,
}

/// The marble at column `x` of row `y` of a grid given row by row.
pub open spec fn at(g: Seq<Marble>, x: int, y: int) -> Marble {
    g[y * 13 + x]
}

/// Whether `(x, y)` lies inside the padded grid, off its outermost ring.
pub open spec fn interior(x: int, y: int) -> bool {
    1 <= x <= 11 && 1 <= y <= 11
}

/// Whether the outermost ring of the grid is empty.
pub open spec fn border_empty(g: Seq<Marble>) -> bool {
    forall|x: int, y: int|
        0 <= x < 13 && 0 <= y < 13 && !interior(x, y) ==> #[trigger] at(g, x, y) == Marble::Empty
}

/// The row-by-row sequence of the cells of a square array.
pub open spec fn flat(cells: [[Marble; 13]; 13]) -> Seq<Marble> {
    Seq::new(CELLS as nat, |i: int| cells@[i / 13]@[i % 13])
}

/// What the cell with index `i` contributes to the fingerprint.
pub open spec fn cell_key(g: Seq<Marble>, t: Seq<u64>, i: int) -> u64 {
    if g[i] == Marble::Empty {
        0
    } else {
        t[slot(i % 13, i / 13, g[i])]
    }
}

/// XOR of the contributions of the first `n` cells.
pub open spec fn fold_hash(g: Seq<Marble>, t: Seq<u64>, n: nat) -> u64
    decreases n,
{
    if n == 0 {
        0
    } else {
        fold_hash(g, t, (n - 1) as nat) ^ cell_key(g, t, n - 1)
    }
}

/// The fingerprint of a grid: the XOR of the table's constants for all
/// occupied cells.
pub open spec fn grid_hash(g: Seq<Marble>, t: Seq<u64>) -> u64 {
    fold_hash(g, t, CELLS as nat)
}

/// What placing or removing marble `m` at `(x, y)` does to a fingerprint.
pub open spec fn toggle(h: u64, t: Seq<u64>, x: int, y: int, m: Marble) -> u64 {
    if m == Marble::Empty {
        h
    } else {
        h ^ t[slot(x, y, m)]
    }
}

/// Changing one cell changes the folded fingerprint by the XOR of the old
/// and the new contribution of that cell, once the fold has passed it.
proof fn lemma_fold_update(g: Seq<Marble>, t: Seq<u64>, i: int, m: Marble, n: nat)
    requires
        g.len() == CELLS,
        0 <= i < CELLS,
        n <= CELLS,
    ensures
        fold_hash(g.update(i, m), t, n) == if i < n {
            fold_hash(g, t, n) ^ cell_key(g, t, i) ^ cell_key(g.update(i, m), t, i)
        } else {
            fold_hash(g, t, n)
        },
    decreases n,
{
    if n > 0 {
        let g2 = g.update(i, m);
        lemma_fold_update(g, t, i, m, (n - 1) as nat);
        let p = fold_hash(g, t, (n - 1) as nat);
        let o = cell_key(g, t, i);
        let w = cell_key(g2, t, i);
        if i == n - 1 {
            assert(p ^ w == (p ^ o) ^ o ^ w) by (bit_vector);
        } else if i < n - 1 {
            let c = cell_key(g, t, n - 1);
            assert(cell_key(g2, t, n - 1) == c);
            assert((p ^ o ^ w) ^ c == (p ^ c) ^ o ^ w) by (bit_vector);
        } else {
            assert(cell_key(g2, t, n - 1) == cell_key(g, t, n - 1));
        }
    }
}

/// 1 for a marble, 0 for the empty marker.
pub open spec fn weight(m: Marble) -> nat {
    if m == Marble::Empty {
        0
    } else {
        1
    }
}

/// Number of marbles on the first `n` cells of `g`.
pub open spec fn occupied_upto(g: Seq<Marble>, n: nat) -> nat
    decreases n,
{
    if n == 0 {
        0
    } else {
        occupied_upto(g, (n - 1) as nat) + weight(g[n - 1])
    }
}

/// Number of marbles on `g`.
pub open spec fn occupied(g: Seq<Marble>) -> nat {
    occupied_upto(g, CELLS as nat)
}

/// Changing one cell changes the count of marbles by the difference of
/// the weights, once the count has passed that cell.
proof fn lemma_occupied_update(g: Seq<Marble>, i: int, m: Marble, n: nat)
    requires
        g.len() == CELLS,
        0 <= i < CELLS,
        n <= CELLS,
    ensures
        occupied_upto(g.update(i, m), n) + (if i < n {
            weight(g[i])
        } else {
            0
        }) == occupied_upto(g, n) + (if i < n {
            weight(m)
        } else {
            0
        }),
    decreases n,
{
    if n > 0 {
        lemma_occupied_update(g, i, m, (n - 1) as nat);
    }
}

/// A grid on which no marble is counted is empty.
proof fn lemma_none_occupied(g: Seq<Marble>, n: nat)
    requires
        g.len() == CELLS,
        n <= CELLS,
        occupied_upto(g, n) == 0,
    ensures
        forall|i: int| 0 <= i < n ==> g[i] == Marble::Empty,
    decreases n,
{
    if n > 0 {
        lemma_none_occupied(g, (n - 1) as nat);
    }
}

/// Whether the snapshot `p` names an interior cell of `g` and shows the
/// marble that lies there.
pub open spec fn shows(g: Seq<Marble>, p: MarblePos) -> bool {
    interior(p.x as int, p.y as int) && at(g, p.x as int, p.y as int) == p.marble
}

/// Whether the snapshot `p` names an interior cell of `g` that is empty.
pub open spec fn vacant(g: Seq<Marble>, p: MarblePos) -> bool {
    interior(p.x as int, p.y as int) && at(g, p.x as int, p.y as int) == Marble::Empty
}

/// Whether the two snapshots name the same cell.
pub open spec fn same_cell(a: MarblePos, b: MarblePos) -> bool {
    a.x == b.x && a.y == b.y
}

/// Whether move `m` can be made on `g`: both snapshots show what lies on
/// the board, and they are two cells unless the move takes Gold alone.
pub open spec fn playable(g: Seq<Marble>, m: Move) -> bool {
    shows(g, m.a) && (m.b.marble != Marble::Gold ==> shows(g, m.b) && !same_cell(m.a, m.b))
}

/// Whether move `m` can be taken back on `g`: its cells are empty, and
/// they are two cells unless the move took Gold alone.
pub open spec fn revertible(g: Seq<Marble>, m: Move) -> bool {
    vacant(g, m.a) && (m.b.marble != Marble::Gold ==> vacant(g, m.b) && !same_cell(m.a, m.b))
}

/// The grid with the cell of `p` emptied.
pub open spec fn without(g: Seq<Marble>, p: MarblePos) -> Seq<Marble> {
    g.update(p.y * 13 + p.x, Marble::Empty)
}

/// The grid with the marble of `p` on the cell of `p`.
pub open spec fn with(g: Seq<Marble>, p: MarblePos) -> Seq<Marble> {
    g.update(p.y * 13 + p.x, p.marble)
}

/// The grid after move `m`: one cell emptied where `b` is Gold, else two.
pub open spec fn after_move(g: Seq<Marble>, m: Move) -> Seq<Marble> {
    if m.b.marble == Marble::Gold {
        without(g, m.a)
    } else {
        without(without(g, m.a), m.b)
    }
}

/// The grid after move `m` is taken back.
pub open spec fn before_move(g: Seq<Marble>, m: Move) -> Seq<Marble> {
    if m.b.marble == Marble::Gold {
        with(g, m.a)
    } else {
        with(with(g, m.a), m.b)
    }
}

/// What making move `m`, or taking it back, does to a fingerprint: the
/// constant of `a` is folded in, and that of `b` unless `b` is Gold.
pub open spec fn toggle_move(h: u64, t: Seq<u64>, m: Move) -> u64 {
    let first = toggle(h, t, m.a.x as int, m.a.y as int, m.a.marble);
    if m.b.marble == Marble::Gold {
        first
    } else {
        toggle(first, t, m.b.x as int, m.b.y as int, m.b.marble)
    }
}

/// Whether every cell of the outermost ring of a square array is empty.
pub fn has_empty_border(cells: &[[Marble; 13]; 13]) -> (r: bool)
    ensures
        r == border_empty(flat(*cells)),
{
    let mut i: usize = 0;
    while i < CELLS
        invariant
            i <= CELLS,
            forall|k: int|
                0 <= k < i && !interior(k % 13, k / 13) ==> (#[trigger] flat(*cells)[k])
                    == Marble::Empty,
        decreases CELLS - i,
    {
        let x: usize = i % SIDE;
        let y: usize = i / SIDE;
        if (x == 0 || x == 12 || y == 0 || y == 12) && cells[y][x] != Marble::Empty {
            assert(at(flat(*cells), x as int, y as int) != Marble::Empty);
            return false;
        }
        i += 1;
    }
    assert forall|x: int, y: int| 0 <= x < 13 && 0 <= y < 13 && !interior(x, y) implies #[trigger] at(
        flat(*cells),
        x,
        y,
    ) == Marble::Empty by {
        let k = y * 13 + x;
        assert(k % 13 == x && k / 13 == y);
        assert(flat(*cells)[k] == Marble::Empty);
    }
    true
}

/// The padded grid of marbles together with its fingerprint and the table
/// of constants that the fingerprint is made of.
#[derive(Debug)]
pub struct Board {
    cells: [[Marble; 13]; 13],
    hash: u64,
    table: ZobristTable,
}

impl Board {
    /// The cells, row by row: cell `(x, y)` has index `y * 13 + x`.
    pub closed spec fn grid(&self) -> Seq<Marble> {
        flat(self.cells)
    }

    /// The stored fingerprint.
    pub closed spec fn hash_value(&self) -> u64 {
        self.hash
    }

    /// The constants of the board's table.
    pub closed spec fn keys(&self) -> Seq<u64> {
        self.table@
    }

    /// The board's invariant: the table is complete, the outermost ring is
    /// empty, and the stored fingerprint is that of the grid.
    pub open spec fn wf(&self) -> bool {
        &&& self.keys().len() == TABLE_LEN
        &&& self.grid().len() == CELLS
        &&& border_empty(self.grid())
        &&& self.hash_value() == grid_hash(self.grid(), self.keys())
    }

    /// A board with the given cells, fingerprinted with the given table.
    pub fn new(board: [[Marble; 13]; 13], table: ZobristTable) -> (b: Board)
        requires
            border_empty(flat(board)),
            table.wf(),
        ensures
            b.wf(),
            b.grid() == flat(board),
            b.keys() == table@,
    {
        let mut hash: u64 = 0;
        let mut i: usize = 0;
        while i < CELLS
            invariant
                i <= CELLS,
                table.wf(),
                hash == fold_hash(flat(board), table@, i as nat),
            decreases CELLS - i,
        {
            let x: usize = i % SIDE;
            let y: usize = i / SIDE;
            let m = board[y][x];
            assert(flat(board)[i as int] == m);
            if m != Marble::Empty {
                hash = hash ^ table.get(x, y, m);
            } else {
                assert(hash ^ 0 == hash) by (bit_vector);
            }
            i += 1;
        }
        Board { cells: board, hash, table }
    }

    /// The marble at column `x` of row `y`.
    pub fn get(&self, x: usize, y: usize) -> (m: Marble)
        requires
            x < SIDE,
            y < SIDE,
        ensures
            m == at(self.grid(), x as int, y as int),
    {
        assert(((y * 13 + x) as int) / 13 == y && ((y * 13 + x) as int) % 13 == x);
        self.cells[y][x]
    }

    /// The stored fingerprint.
    pub fn hash(&self) -> (h: u64)
        ensures
            h == self.hash_value(),
    {
        self.hash
    }

    /// Writes `m` to cell `(x, y)` and leaves the fingerprint as it is.
    fn put(&mut self, x: usize, y: usize, m: Marble)
        requires
            x < SIDE,
            y < SIDE,
        ensures
            final(self).grid() == old(self).grid().update(y * 13 + x, m),
            final(self).hash_value() == old(self).hash_value(),
            final(self).keys() == old(self).keys(),
    {
        self.cells[y][x] = m;
        assert(((y * 13 + x) as int) / 13 == y && ((y * 13 + x) as int) % 13 == x);
        assert(flat(self.cells) =~= flat(old(self).cells).update(y * 13 + x, m));
    }

    /// Folds the constant for marble `m` at `(x, y)` into the fingerprint;
    /// an empty marker changes nothing.
    fn hash_add_rem_marble(&mut self, x: usize, y: usize, m: Marble)
        requires
            old(self).keys().len() == TABLE_LEN,
            x < SIDE,
            y < SIDE,
        ensures
            final(self).grid() == old(self).grid(),
            final(self).keys() == old(self).keys(),
            final(self).hash_value() == toggle(
                old(self).hash_value(),
                old(self).keys(),
                x as int,
                y as int,
                m,
            ),
    {
        if m != Marble::Empty {
            self.hash = self.hash ^ self.table.get(x, y, m);
        }
    }

    /// Takes the marble that `pos` shows off the board.
    pub fn remove_marble(&mut self, pos: MarblePos)
        requires
            old(self).wf(),
            shows(old(self).grid(), pos),
        ensures
            final(self).wf(),
            final(self).grid() == without(old(self).grid(), pos),
            final(self).keys() == old(self).keys(),
            final(self).hash_value() == toggle(
                old(self).hash_value(),
                old(self).keys(),
                pos.x as int,
                pos.y as int,
                pos.marble,
            ),
    {
        self.put(pos.x, pos.y, Marble::Empty);
        self.hash_add_rem_marble(pos.x, pos.y, pos.marble);
        proof {
            let g = old(self).grid();
            let t = old(self).keys();
            let i = pos.y * 13 + pos.x;
            assert(i / 13 == pos.y && i % 13 == pos.x);
            lemma_fold_update(g, t, i, Marble::Empty, CELLS as nat);
            let h = old(self).hash_value();
            let k = cell_key(g, t, i);
            assert(h ^ k ^ 0 == h ^ k) by (bit_vector);
            assert(h ^ 0 ^ 0 == h) by (bit_vector);
            assert forall|x: int, y: int|
                0 <= x < 13 && 0 <= y < 13 && !interior(x, y) implies #[trigger] at(
                self.grid(),
                x,
                y,
            ) == Marble::Empty by {
                assert(at(g, x, y) == Marble::Empty);
            }
        }
    }

    /// Puts the marble that `pos` shows back on its cell, which is empty.
    pub fn add_marble(&mut self, pos: MarblePos)
        requires
            old(self).wf(),
            vacant(old(self).grid(), pos),
        ensures
            final(self).wf(),
            final(self).grid() == with(old(self).grid(), pos),
            final(self).keys() == old(self).keys(),
            final(self).hash_value() == toggle(
                old(self).hash_value(),
                old(self).keys(),
                pos.x as int,
                pos.y as int,
                pos.marble,
            ),
    {
        self.put(pos.x, pos.y, pos.marble);
        self.hash_add_rem_marble(pos.x, pos.y, pos.marble);
        proof {
            let g = old(self).grid();
            let t = old(self).keys();
            let i = pos.y * 13 + pos.x;
            assert(i / 13 == pos.y && i % 13 == pos.x);
            lemma_fold_update(g, t, i, pos.marble, CELLS as nat);
            let h = old(self).hash_value();
            let w = cell_key(self.grid(), t, i);
            assert(h ^ 0 ^ w == h ^ w) by (bit_vector);
            assert(h ^ 0 ^ 0 == h) by (bit_vector);
            assert forall|x: int, y: int|
                0 <= x < 13 && 0 <= y < 13 && !interior(x, y) implies #[trigger] at(
                self.grid(),
                x,
                y,
            ) == Marble::Empty by {
                assert(at(g, x, y) == Marble::Empty);
            }
        }
    }

    /// Makes move `mov`: its marbles leave the board, Gold alone.
    pub fn make_move(&mut self, mov: Move)
        requires
            old(self).wf(),
            playable(old(self).grid(), mov),
        ensures
            final(self).wf(),
            final(self).grid() == after_move(old(self).grid(), mov),
            final(self).keys() == old(self).keys(),
            final(self).hash_value() == toggle_move(old(self).hash_value(), old(self).keys(), mov),
            revertible(final(self).grid(), mov),
    {
        let Move { a, b } = mov;
        self.remove_marble(a);
        if mov.b.marble != Marble::Gold {
            self.remove_marble(b);
        }
    }

    /// Takes move `mov` back: its marbles return to their cells.
    pub fn reverse_move(&mut self, mov: Move)
        requires
            old(self).wf(),
            revertible(old(self).grid(), mov),
        ensures
            final(self).wf(),
            final(self).grid() == before_move(old(self).grid(), mov),
            final(self).keys() == old(self).keys(),
            final(self).hash_value() == toggle_move(old(self).hash_value(), old(self).keys(), mov),
    {
        let Move { a, b } = mov;
        self.add_marble(a);
        if mov.b.marble != Marble::Gold {
            self.add_marble(b);
        }
    }
}

impl Clone for Board {
    fn clone(&self) -> (b: Board)
        ensures
            b.grid() == self.grid(),
            b.hash_value() == self.hash_value(),
            b.keys() == self.keys(),
    {
        Board { cells: self.cells, hash: self.hash, table: self.table.clone() }
    }
}

/// A move made and then taken back leaves the grid as it was.
pub proof fn lemma_move_round_trip(g: Seq<Marble>, m: Move)
    requires
        g.len() == CELLS,
        playable(g, m),
    ensures
        revertible(after_move(g, m), m),
        before_move(after_move(g, m), m) == g,
{
    assert(before_move(after_move(g, m), m) =~= g);
}

/// Folding the same constant into a fingerprint twice leaves it as it was.
pub proof fn lemma_toggle_twice(h: u64, t: Seq<u64>, x: int, y: int, m: Marble)
    ensures
        toggle(toggle(h, t, x, y, m), t, x, y, m) == h,
{
    let k = t[slot(x, y, m)];
    assert(h ^ k ^ k == h) by (bit_vector);
}

/// Folding two constants into a fingerprint gives the same in either
/// order.
pub proof fn lemma_toggle_commutes(
    h: u64,
    t: Seq<u64>,
    x1: int,
    y1: int,
    m1: Marble,
    x2: int,
    y2: int,
    m2: Marble,
)
    ensures
        toggle(toggle(h, t, x1, y1, m1), t, x2, y2, m2) == toggle(
            toggle(h, t, x2, y2, m2),
            t,
            x1,
            y1,
            m1,
        ),
{
    let k1 = t[slot(x1, y1, m1)];
    let k2 = t[slot(x2, y2, m2)];
    assert(h ^ k1 ^ k2 == h ^ k2 ^ k1) by (bit_vector);
}

/// Making a move and taking it back leaves the fingerprint as it was.
pub proof fn lemma_toggle_move_twice(h: u64, t: Seq<u64>, m: Move)
    ensures
        toggle_move(toggle_move(h, t, m), t, m) == h,
{
    let ka = t[slot(m.a.x as int, m.a.y as int, m.a.marble)];
    let kb = t[slot(m.b.x as int, m.b.y as int, m.b.marble)];
    assert(h ^ ka ^ ka == h) by (bit_vector);
    assert(h ^ kb ^ kb == h) by (bit_vector);
    assert(h ^ ka ^ kb ^ ka ^ kb == h) by (bit_vector);
    assert(h ^ kb ^ ka == h ^ ka ^ kb) by (bit_vector);
}

/// Two boards with the same cells and the same table have the same
/// fingerprint, however they came to hold those cells.
pub proof fn lemma_fingerprint_of_grid(a: Board, b: Board)
    requires
        a.wf(),
        b.wf(),
        a.grid() == b.grid(),
        a.keys() == b.keys(),
    ensures
        a.hash_value() == b.hash_value(),
{
}

/// Number of marbles that move `m` takes off the board.
pub open spec fn taken(m: Move) -> nat {
    if m.b.marble == Marble::Gold {
        1
    } else {
        2
    }
}

/// A move whose snapshots show marbles takes one marble off the board
/// where it takes Gold alone, else two.
pub proof fn lemma_move_takes(g: Seq<Marble>, m: Move)
    requires
        g.len() == CELLS,
        playable(g, m),
        m.a.marble != Marble::Empty,
        m.b.marble != Marble::Empty,
    ensures
        after_move(g, m).len() == CELLS,
        occupied(after_move(g, m)) + taken(m) == occupied(g),
{
    let g1 = without(g, m.a);
    lemma_occupied_update(g, m.a.y * 13 + m.a.x, Marble::Empty, CELLS as nat);
    if m.b.marble != Marble::Gold {
        lemma_occupied_update(g1, m.b.y * 13 + m.b.x, Marble::Empty, CELLS as nat);
    }
}

/// A grid without marbles has the empty marker on every cell.
pub proof fn lemma_unoccupied(g: Seq<Marble>)
    requires
        g.len() == CELLS,
        occupied(g) == 0,
    ensures
        forall|x: int, y: int| 0 <= x < 13 && 0 <= y < 13 ==> #[trigger] at(g, x, y) == Marble::Empty,
{
    lemma_none_occupied(g, CELLS as nat);
}

} // verus!
