//! The table of pseudorandom constants behind the state fingerprint.

use vstd::prelude::*;
use crate::marble::{Marble, KINDS};
use rand::Rng;

verus! {

/// Side length of the padded square grid.
pub const SIDE: usize = 13;

/// Number of cells of the padded grid.
pub const CELLS: usize = 169;

/// Number of constants in a table: one for each cell and marble kind.
pub const TABLE_LEN: usize = 2366;

/// Place in the table of the constant for marble kind `m` at column `x` of
/// row `y`.
pub open spec fn slot(x: int, y: int, m: Marble) -> int {
    (y * 13 + x) * 14 + m.spec_index()
}

/// Draws 64 bits from `rand`'s thread-local generator (`rand::thread_rng()`
/// followed by `Rng::next_u64`). Nothing is claimed of the value drawn. The
/// generator stops the program if the system offers no entropy at all.
#[verifier::external_body]
fn draw_u64() -> (r: u64) {
    rand::thread_rng().next_u64()
}

/// One 64-bit constant for each pair of a grid cell and a marble kind.
#[derive(Debug)]
pub struct ZobristTable {
    keys: Vec<u64>,
}

impl View for ZobristTable {
    type V = Seq<u64>;

    closed spec fn view(&self) -> Seq<u64> {
        self.keys@
    }
}

impl ZobristTable {
    /// A table holds exactly one constant for each cell and kind.
    pub open spec fn wf(&self) -> bool {
        self@.len() == TABLE_LEN
    }

    /// The constant for marble kind `m` at column `x` of row `y`.
    pub open spec fn key(&self, x: int, y: int, m: Marble) -> u64
        recommends
            self.wf(),
            0 <= x < SIDE,
            0 <= y < SIDE,
            m != Marble::Empty,
    {
        self@[slot(x, y, m)]
    }

    /// A table of freshly drawn random constants.
    pub fn random() -> (t: ZobristTable)
        ensures
            t.wf(),
    {
        let mut keys: Vec<u64> = Vec::with_capacity(TABLE_LEN);
        let mut i: usize = 0;
        while i < TABLE_LEN
            invariant
                i <= TABLE_LEN,
                keys@.len() == i,
            decreases TABLE_LEN - i,
        {
            keys.push(draw_u64());
            i += 1;
        }
        ZobristTable { keys }
    }

    /// A table made of the given constants, for reproducible runs: the
    /// constant for kind `m` at `(x, y)` is `values[slot(x, y, m)]`.
    /// `None` unless exactly `TABLE_LEN` constants are given.
    pub fn from_values(values: Vec<u64>) -> (t: Option<ZobristTable>)
        ensures
            t.is_some() <==> values@.len() == TABLE_LEN,
            t.is_some() ==> t.unwrap()@ == values@ && t.unwrap().wf(),
    {
        if values.len() == TABLE_LEN {
            Some(ZobristTable { keys: values })
        } else {
            None
        }
    }

    /// The constant for marble kind `m` at column `x` of row `y`.
    pub fn get(&self, x: usize, y: usize, m: Marble) -> (k: u64)
        requires
            self.wf(),
            x < SIDE,
            y < SIDE,
            m != Marble::Empty,
        ensures
            k == self.key(x as int, y as int, m),
    {
        let i: usize = (y * SIDE + x) * KINDS + m.index();
        self.keys[i]
    }
}

impl Clone for ZobristTable {
    fn clone(&self) -> (t: ZobristTable)
        ensures
            t@ == self@,
    {
        let keys = self.keys.clone();
        assert(keys@ =~= self.keys@);
        ZobristTable { keys }
    }
}

} // verus!
