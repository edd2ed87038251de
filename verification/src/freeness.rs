//! Which marbles can be taken, and which metal is due.

use vstd::prelude::*;
use crate::marble::Marble;
use crate::board::{Board, MarblePos, at, interior, shows};

verus! {

/// Number of interior cells of the padded grid.
pub const INTERIOR_CELLS: usize = 121;

/// Column offset of the `k`-th neighbour of a cell, the six neighbours
/// taken in cyclic order.
pub open spec fn neighbour_dx(k: int) -> int {
    let r = k % 6;
    if r == 0 || r == 1 {
        1
    } else if r == 2 || r == 5 {
        0
    } else {
        -1
    }
}

/// Row offset of the `k`-th neighbour of a cell, the six neighbours taken
/// in cyclic order.
pub open spec fn neighbour_dy(k: int) -> int {
    let r = k % 6;
    if r == 0 || r == 3 {
        0
    } else if r == 1 || r == 2 {
        -1
    } else {
        1
    }
}

/// Whether the `k`-th neighbour of cell `(x, y)` is empty.
pub open spec fn neighbour_empty(g: Seq<Marble>, x: int, y: int, k: int) -> bool {
    at(g, x + neighbour_dx(k), y + neighbour_dy(k)) == Marble::Empty
}

/// Whether the three neighbours `k`, `k + 1` and `k + 2` of `(x, y)`, which
/// follow each other round the cell, are all empty.
pub open spec fn open_arc(g: Seq<Marble>, x: int, y: int, k: int) -> bool {
    neighbour_empty(g, x, y, k) && neighbour_empty(g, x, y, k + 1) && neighbour_empty(
        g,
        x,
        y,
        k + 2,
    )
}

/// A cell is free when it is occupied and three neighbours that follow each
/// other round it are empty.
pub open spec fn is_free_at(g: Seq<Marble>, x: int, y: int) -> bool {
    at(g, x, y) != Marble::Empty && exists|k: int| 0 <= k < 6 && #[trigger] open_arc(g, x, y, k)
}

/// Column of the `i`-th interior cell, the cells counted row by row.
pub open spec fn scan_x(i: int) -> int {
    1 + i % 11
}

/// Row of the `i`-th interior cell, the cells counted row by row.
pub open spec fn scan_y(i: int) -> int {
    1 + i / 11
}

/// Place of the cell of `p` in the row-by-row count of the interior cells.
pub open spec fn scan_index(p: MarblePos) -> int {
    (p.y - 1) * 11 + (p.x - 1)
}

/// The snapshot of the `i`-th interior cell of `g`.
pub open spec fn snapshot(g: Seq<Marble>, i: int) -> MarblePos {
    MarblePos {
        x: scan_x(i) as usize,
        y: scan_y(i) as usize,
        marble: at(g, scan_x(i), scan_y(i)),
    }
}

/// The snapshots of the free cells among the first `n` interior cells, in
/// row-by-row order.
pub open spec fn free_upto(g: Seq<Marble>, n: nat) -> Seq<MarblePos>
    decreases n,
{
    if n == 0 {
        Seq::empty()
    } else if is_free_at(g, scan_x(n - 1), scan_y(n - 1)) {
        free_upto(g, (n - 1) as nat).push(snapshot(g, n - 1))
    } else {
        free_upto(g, (n - 1) as nat)
    }
}

/// The snapshots of all free cells of `g`, in row-by-row order.
pub open spec fn free_seq(g: Seq<Marble>) -> Seq<MarblePos> {
    free_upto(g, INTERIOR_CELLS as nat)
}

/// Whether a marble of kind `m` lies on an interior cell of `g`.
pub open spec fn present(g: Seq<Marble>, m: Marble) -> bool {
    exists|x: int, y: int| interior(x, y) && #[trigger] at(g, x, y) == m
}

/// The least refined metal that lies on the board, `Empty` where no metal
/// is left.
pub open spec fn least_metal_of(g: Seq<Marble>) -> Marble {
    if present(g, Marble::Lead) {
        Marble::Lead
    } else if present(g, Marble::Tin) {
        Marble::Tin
    } else if present(g, Marble::Iron) {
        Marble::Iron
    } else if present(g, Marble::Copper) {
        Marble::Copper
    } else if present(g, Marble::Silver) {
        Marble::Silver
    } else if present(g, Marble::Gold) {
        Marble::Gold
    } else {
        Marble::Empty
    }
}

/// The list of free cells holds exactly the free interior cells, each
/// shown as it lies on the board, in strictly rising row-by-row order.
pub proof fn lemma_free_upto(g: Seq<Marble>, n: nat)
    requires
        n <= INTERIOR_CELLS,
    ensures
        free_upto(g, n).len() <= n,
        forall|i: int|
            0 <= i < free_upto(g, n).len() ==> {
                let p = #[trigger] free_upto(g, n)[i];
                &&& shows(g, p)
                &&& p.marble != Marble::Empty
                &&& is_free_at(g, p.x as int, p.y as int)
                &&& 0 <= scan_index(p) < n
            },
        forall|i: int, j: int|
            0 <= i < j < free_upto(g, n).len() ==> scan_index(#[trigger] free_upto(g, n)[i])
                < scan_index(#[trigger] free_upto(g, n)[j]),
        forall|k: int|
            0 <= k < n && is_free_at(g, scan_x(k), scan_y(k)) ==> free_upto(g, n).contains(
                #[trigger] snapshot(g, k),
            ),
    decreases n,
{
    if n > 0 {
        lemma_free_upto(g, (n - 1) as nat);
        let prev = free_upto(g, (n - 1) as nat);
        let cur = free_upto(g, n);
        let last = snapshot(g, n - 1);
        assert(scan_index(last) == n - 1);
        if is_free_at(g, scan_x(n - 1), scan_y(n - 1)) {
            assert(cur[cur.len() - 1] == last);
            assert forall|k: int|
                0 <= k < n && is_free_at(g, scan_x(k), scan_y(k)) implies cur.contains(
                #[trigger] snapshot(g, k),
            ) by {
                if k < n - 1 {
                    let w = choose|w: int| 0 <= w < prev.len() && prev[w] == snapshot(g, k);
                    assert(cur[w] == snapshot(g, k));
                } else {
                    assert(cur[cur.len() - 1] == snapshot(g, k));
                }
            }
        }
    }
}

impl Board {
    /// Whether the marble at `(c_x, c_y)` is free: the cell is occupied and
    /// three neighbours in a row round it are empty.
    pub fn is_free(&self, c_x: usize, c_y: usize) -> (r: bool)
        requires
            interior(c_x as int, c_y as int),
        ensures
            r == is_free_at(self.grid(), c_x as int, c_y as int),
    {
        let (s_x, s_y) = (c_x - 1, c_y - 1);
        if self.get(c_x, c_y) == Marble::Empty {
            return false;
        }
        let neighbours: [(usize, usize); 8] = [
            (2, 1),
            (2, 0),
            (1, 0),
            (0, 1),
            (0, 2),
            (1, 2),
            (2, 1),
            (2, 0),
        ];
        let ghost g = self.grid();
        let ghost x = c_x as int;
        let ghost y = c_y as int;
        assert(forall|k: int|
            0 <= k < 8 ==> (#[trigger] neighbours@[k]).0 == 1 + neighbour_dx(k) && neighbours@[k].1
                == 1 + neighbour_dy(k));
        let mut empty_neighbour_sum: usize = 0;
        let mut i: usize = 0;
        while i < 8
            invariant
                i <= 8,
                s_x == c_x - 1,
                s_y == c_y - 1,
                interior(x, y),
                x == c_x,
                y == c_y,
                g == self.grid(),
                at(g, x, y) != Marble::Empty,
                empty_neighbour_sum <= 2,
                empty_neighbour_sum <= i,
                forall|k: int|
                    0 <= k < 8 ==> (#[trigger] neighbours@[k]).0 == 1 + neighbour_dx(k)
                        && neighbours@[k].1 == 1 + neighbour_dy(k),
                forall|j: int| i - empty_neighbour_sum <= j < i ==> neighbour_empty(g, x, y, j),
                empty_neighbour_sum < i ==> !neighbour_empty(g, x, y, i - empty_neighbour_sum - 1),
                forall|k: int| 0 <= k && k + 2 < i ==> !#[trigger] open_arc(g, x, y, k),
            decreases 8 - i,
        {
            let (m_x, m_y) = neighbours[i];
            if self.get(s_x + m_x, s_y + m_y) == Marble::Empty {
                assert(neighbour_empty(g, x, y, i as int));
                empty_neighbour_sum += 1;
                if empty_neighbour_sum >= 3 {
                    assert(open_arc(g, x, y, i - 2));
                    return true;
                }
            } else {
                assert(!neighbour_empty(g, x, y, i as int));
                empty_neighbour_sum = 0;
            }
            i += 1;
        }
        false
    }

    /// The snapshots of all free marbles, in row-by-row order.
    pub fn free_marbles(&self) -> (v: Vec<MarblePos>)
        ensures
            v@ == free_seq(self.grid()),
    {
        let mut v: Vec<MarblePos> = Vec::with_capacity(10);
        let mut i: usize = 0;
        while i < INTERIOR_CELLS
            invariant
                i <= INTERIOR_CELLS,
                v@ == free_upto(self.grid(), i as nat),
            decreases INTERIOR_CELLS - i,
        {
            let x: usize = 1 + i % 11;
            let y: usize = 1 + i / 11;
            if self.is_free(x, y) {
                v.push(MarblePos { marble: self.get(x, y), x, y });
            }
            i += 1;
        }
        v
    }

    /// The least refined metal that is still on the board, `Empty` where no
    /// metal is left.
    pub fn least_metal(&self) -> (m: Marble)
        ensures
            m == least_metal_of(self.grid()),
    {
        let mut m_least = Marble::Empty;
        let mut m_least_val: u8 = 0;
        let ghost g = self.grid();
        let mut i: usize = 0;
        while i < INTERIOR_CELLS
            invariant
                i <= INTERIOR_CELLS,
                g == self.grid(),
                m_least_val == m_least.spec_urgency(),
                m_least_val == 0 ==> m_least == Marble::Empty,
                m_least_val > 0 ==> present(g, m_least),
                forall|k: int|
                    0 <= k < i ==> (#[trigger] at(g, scan_x(k), scan_y(k))).spec_urgency()
                        <= m_least_val,
            decreases INTERIOR_CELLS - i,
        {
            let x: usize = 1 + i % 11;
            let y: usize = 1 + i / 11;
            let marble_xy = self.get(x, y);
            let val = marble_xy.urgency();
            if val > m_least_val {
                m_least_val = val;
                m_least = marble_xy;
                assert(interior(x as int, y as int) && at(g, x as int, y as int) == m_least);
            }
            i += 1;
        }
        proof {
            assert forall|x: int, y: int| interior(x, y) implies (#[trigger] at(
                g,
                x,
                y,
            )).spec_urgency() <= m_least_val by {
                let k = (y - 1) * 11 + (x - 1);
                assert(scan_x(k) == x && scan_y(k) == y);
            }
        }
        m_least
    }
}

} // verus!
