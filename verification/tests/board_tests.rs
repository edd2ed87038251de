use sigmar::board::{has_empty_border, Board, MarblePos, Move};
use sigmar::marble::Marble;
use sigmar::zobrist::ZobristTable;

fn table() -> ZobristTable {
    let values: Vec<u64> = (0..2366u64)
        .map(|i| (i + 1).wrapping_mul(0x9E37_79B9_7F4A_7C15).rotate_left(17) ^ (i << 3))
        .collect();
    ZobristTable::from_values(values).unwrap()
}

fn counting_table() -> ZobristTable {
    ZobristTable::from_values((0..2366u64).map(|i| i + 1).collect()).unwrap()
}

fn empty_cells() -> [[Marble; 13]; 13] {
    [[Marble::Empty; 13]; 13]
}

fn pos(x: usize, y: usize, marble: Marble) -> MarblePos {
    MarblePos { x, y, marble }
}

fn snapshot(b: &Board) -> Vec<Marble> {
    let mut v = Vec::new();
    for y in 0..13 {
        for x in 0..13 {
            v.push(b.get(x, y));
        }
    }
    v
}

#[test]
fn table_needs_one_constant_per_cell_and_kind() {
    assert!(ZobristTable::from_values(vec![0; 2366]).is_some());
    assert!(ZobristTable::from_values(vec![0; 2365]).is_none());
    assert!(ZobristTable::from_values(vec![0; 2367]).is_none());
    assert!(ZobristTable::from_values(Vec::new()).is_none());
}

#[test]
fn table_lookup_follows_the_slot_formula() {
    let t = counting_table();
    assert_eq!(t.get(0, 0, Marble::Lead), 1);
    assert_eq!(t.get(1, 0, Marble::Lead), 15);
    assert_eq!(t.get(0, 1, Marble::Lead), 13 * 14 + 1);
    assert_eq!(t.get(3, 2, Marble::Salt), ((2 * 13 + 3) * 14 + 13 + 1) as u64);
    assert_eq!(t.get(12, 12, Marble::Salt), 2366);
}

#[test]
fn random_table_is_complete() {
    let t = ZobristTable::random();
    let b = Board::new(empty_cells(), t);
    assert_eq!(b.hash(), 0);
    let t2 = ZobristTable::random();
    let mut any_nonzero = false;
    for y in 0..13 {
        for x in 0..13 {
            if t2.get(x, y, Marble::Salt) != 0 {
                any_nonzero = true;
            }
        }
    }
    assert!(any_nonzero);
}

#[test]
fn cloned_table_has_the_same_constants() {
    let t = table();
    let c = t.clone();
    for y in 0..13 {
        for x in 0..13 {
            assert_eq!(t.get(x, y, Marble::Fire), c.get(x, y, Marble::Fire));
        }
    }
}

#[test]
fn border_check_sees_every_edge() {
    let mut cells = empty_cells();
    assert!(has_empty_border(&cells));
    cells[5][5] = Marble::Salt;
    cells[1][1] = Marble::Lead;
    cells[11][11] = Marble::Gold;
    assert!(has_empty_border(&cells));
    for &(x, y) in [(0usize, 0usize), (12, 0), (0, 12), (12, 12), (0, 6), (6, 0), (12, 6), (6, 12)].iter() {
        let mut c = cells;
        c[y][x] = Marble::Air;
        assert!(!has_empty_border(&c));
    }
}

#[test]
fn empty_board_has_fingerprint_zero() {
    let b = Board::new(empty_cells(), table());
    assert_eq!(b.hash(), 0);
    for m in snapshot(&b) {
        assert_eq!(m, Marble::Empty);
    }
}

#[test]
fn fingerprint_is_the_xor_of_the_constants_of_occupied_cells() {
    let t = counting_table();
    let mut cells = empty_cells();
    cells[1][1] = Marble::Lead;
    let b = Board::new(cells, t.clone());
    assert_eq!(b.hash(), ((1 * 13 + 1) * 14 + 0 + 1) as u64);
    cells[4][7] = Marble::Salt;
    let b = Board::new(cells, t.clone());
    let k1 = ((1 * 13 + 1) * 14 + 0 + 1) as u64;
    let k2 = ((4 * 13 + 7) * 14 + 13 + 1) as u64;
    assert_eq!(b.hash(), k1 ^ k2);
    assert_eq!(b.hash(), t.get(1, 1, Marble::Lead) ^ t.get(7, 4, Marble::Salt));
}

#[test]
fn new_board_keeps_the_cells() {
    let mut cells = empty_cells();
    cells[3][4] = Marble::Vitae;
    cells[11][1] = Marble::Mors;
    let b = Board::new(cells, table());
    assert_eq!(b.get(4, 3), Marble::Vitae);
    assert_eq!(b.get(1, 11), Marble::Mors);
    assert_eq!(b.get(3, 4), Marble::Empty);
    assert_eq!(b.get(0, 0), Marble::Empty);
}

#[test]
fn fingerprint_does_not_depend_on_the_order_of_placement() {
    let a = pos(3, 3, Marble::Air);
    let b = pos(8, 2, Marble::Lead);
    let c = pos(5, 9, Marble::Salt);
    let mut one = Board::new(empty_cells(), table());
    one.add_marble(a);
    one.add_marble(b);
    one.add_marble(c);
    let mut two = Board::new(empty_cells(), table());
    two.add_marble(c);
    two.add_marble(a);
    two.add_marble(b);
    assert_eq!(one.hash(), two.hash());
    assert_eq!(snapshot(&one), snapshot(&two));
    let mut cells = empty_cells();
    cells[3][3] = Marble::Air;
    cells[2][8] = Marble::Lead;
    cells[9][5] = Marble::Salt;
    let three = Board::new(cells, table());
    assert_eq!(one.hash(), three.hash());
    assert_ne!(one.hash(), 0);
}

#[test]
fn add_then_remove_cancels_out() {
    let t = table();
    let mut b = Board::new(empty_cells(), t.clone());
    let p = pos(6, 6, Marble::Mercury);
    b.add_marble(p);
    assert_eq!(b.get(6, 6), Marble::Mercury);
    assert_eq!(b.hash(), t.get(6, 6, Marble::Mercury));
    b.remove_marble(p);
    assert_eq!(b.get(6, 6), Marble::Empty);
    assert_eq!(b.hash(), 0);
}

#[test]
fn adding_an_empty_marker_changes_nothing() {
    let mut cells = empty_cells();
    cells[2][2] = Marble::Tin;
    let mut b = Board::new(cells, table());
    let before = b.hash();
    b.add_marble(pos(4, 4, Marble::Empty));
    assert_eq!(b.hash(), before);
    assert_eq!(b.get(4, 4), Marble::Empty);
}

#[test]
fn make_move_empties_both_cells() {
    let t = table();
    let mut cells = empty_cells();
    cells[2][2] = Marble::Salt;
    cells[9][9] = Marble::Salt;
    cells[5][5] = Marble::Air;
    let mut b = Board::new(cells, t.clone());
    let m = Move { a: pos(2, 2, Marble::Salt), b: pos(9, 9, Marble::Salt) };
    b.make_move(m);
    assert_eq!(b.get(2, 2), Marble::Empty);
    assert_eq!(b.get(9, 9), Marble::Empty);
    assert_eq!(b.get(5, 5), Marble::Air);
    assert_eq!(b.hash(), t.get(5, 5, Marble::Air));
}

#[test]
fn gold_move_empties_one_cell() {
    let t = table();
    let mut cells = empty_cells();
    cells[6][6] = Marble::Gold;
    cells[3][3] = Marble::Salt;
    let mut b = Board::new(cells, t.clone());
    let g = pos(6, 6, Marble::Gold);
    b.make_move(Move { a: g, b: g });
    assert_eq!(b.get(6, 6), Marble::Empty);
    assert_eq!(b.get(3, 3), Marble::Salt);
    assert_eq!(b.hash(), t.get(3, 3, Marble::Salt));
    b.reverse_move(Move { a: g, b: g });
    assert_eq!(b.get(6, 6), Marble::Gold);
    assert_eq!(b.hash(), t.get(3, 3, Marble::Salt) ^ t.get(6, 6, Marble::Gold));
}

#[test]
fn move_round_trip_restores_grid_and_fingerprint() {
    let mut cells = empty_cells();
    cells[2][2] = Marble::Lead;
    cells[2][6] = Marble::Mercury;
    cells[8][3] = Marble::Mors;
    cells[8][9] = Marble::Vitae;
    cells[5][5] = Marble::Fire;
    cells[10][10] = Marble::Fire;
    let mut b = Board::new(cells, table());
    let grid = snapshot(&b);
    let hash = b.hash();
    let moves = b.legal_moves();
    assert!(!moves.is_empty());
    for m in moves {
        b.make_move(m);
        assert_ne!(snapshot(&b), grid);
        assert_ne!(b.hash(), hash);
        b.reverse_move(m);
        assert_eq!(snapshot(&b), grid);
        assert_eq!(b.hash(), hash);
    }
}

#[test]
fn cloned_board_is_independent() {
    let mut cells = empty_cells();
    cells[4][4] = Marble::Water;
    let b = Board::new(cells, table());
    let mut c = b.clone();
    assert_eq!(c.hash(), b.hash());
    c.remove_marble(pos(4, 4, Marble::Water));
    assert_eq!(c.get(4, 4), Marble::Empty);
    assert_eq!(b.get(4, 4), Marble::Water);
    assert_ne!(c.hash(), b.hash());
}

#[test]
fn marble_pos_is_a_snapshot() {
    let mut cells = empty_cells();
    cells[4][4] = Marble::Water;
    let mut b = Board::new(cells, table());
    let p = pos(4, 4, b.get(4, 4));
    b.remove_marble(p);
    assert_eq!(p.marble, Marble::Water);
    assert_eq!(p, pos(4, 4, Marble::Water));
}
