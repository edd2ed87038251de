use sigmar::board::{Board, MarblePos, Move};
use sigmar::marble::Marble;
use sigmar::moves::moves_from_groups;
use sigmar::zobrist::ZobristTable;

fn table() -> ZobristTable {
    let values: Vec<u64> = (0..2366u64)
        .map(|i| (i + 1).wrapping_mul(0x9E37_79B9_7F4A_7C15).rotate_left(17) ^ (i << 3))
        .collect();
    ZobristTable::from_values(values).unwrap()
}

fn board(marbles: &[(usize, usize, Marble)]) -> Board {
    let mut cells = [[Marble::Empty; 13]; 13];
    for &(x, y, m) in marbles {
        cells[y][x] = m;
    }
    Board::new(cells, table())
}

fn pos(x: usize, y: usize, marble: Marble) -> MarblePos {
    MarblePos { x, y, marble }
}

fn mv(a: MarblePos, b: MarblePos) -> Move {
    Move { a, b }
}

// The six neighbours of (6, 6), in cyclic order.
const RING: [(usize, usize); 6] = [(7, 6), (7, 5), (6, 5), (5, 6), (5, 7), (6, 7)];

fn ringed(filled: &[usize]) -> Board {
    let mut marbles = vec![(6, 6, Marble::Salt)];
    for &k in filled {
        marbles.push((RING[k].0, RING[k].1, Marble::Lead));
    }
    board(&marbles)
}

#[test]
fn three_consecutive_empty_neighbours_make_a_marble_free() {
    assert!(ringed(&[3, 4, 5]).is_free(6, 6));
    assert!(ringed(&[0, 1, 2]).is_free(6, 6));
    assert!(ringed(&[1, 2, 3]).is_free(6, 6));
}

#[test]
fn two_consecutive_empty_neighbours_do_not() {
    assert!(!ringed(&[2, 5]).is_free(6, 6));
    assert!(!ringed(&[0, 3]).is_free(6, 6));
    assert!(!ringed(&[1, 4]).is_free(6, 6));
    assert!(!ringed(&[2, 3, 4, 5]).is_free(6, 6));
    assert!(!ringed(&[0, 2, 4]).is_free(6, 6));
    assert!(!ringed(&[0, 1, 2, 3, 4, 5]).is_free(6, 6));
}

#[test]
fn the_empty_arc_may_wrap_round() {
    // neighbours 5, 0 and 1 are empty
    assert!(ringed(&[2, 3, 4]).is_free(6, 6));
    // neighbours 4, 5 and 0 are empty
    assert!(ringed(&[1, 2, 3]).is_free(6, 6));
    // only 5 and 0 are empty
    assert!(!ringed(&[1, 2, 3, 4]).is_free(6, 6));
}

#[test]
fn an_empty_cell_is_not_free() {
    let b = board(&[]);
    assert!(!b.is_free(6, 6));
    assert!(!b.is_free(1, 1));
    assert!(!b.is_free(11, 11));
}

#[test]
fn a_lone_marble_is_free_anywhere() {
    for &(x, y) in [(1usize, 1usize), (11, 1), (1, 11), (11, 11), (6, 6)].iter() {
        assert!(board(&[(x, y, Marble::Iron)]).is_free(x, y));
    }
}

#[test]
fn free_marbles_come_row_by_row() {
    let b = board(&[(9, 9, Marble::Air), (2, 2, Marble::Salt), (6, 2, Marble::Lead), (3, 5, Marble::Fire)]);
    assert_eq!(
        b.free_marbles(),
        vec![
            pos(2, 2, Marble::Salt),
            pos(6, 2, Marble::Lead),
            pos(3, 5, Marble::Fire),
            pos(9, 9, Marble::Air),
        ]
    );
}

#[test]
fn enclosed_marbles_are_left_out() {
    let mut marbles = vec![(6, 6, Marble::Gold)];
    for &(x, y) in RING.iter() {
        marbles.push((x, y, Marble::Salt));
    }
    let b = board(&marbles);
    let free = b.free_marbles();
    assert_eq!(free.len(), 6);
    assert!(free.iter().all(|p| p.marble == Marble::Salt));
}

#[test]
fn least_metal_is_the_least_refined_one_present() {
    assert_eq!(board(&[]).least_metal(), Marble::Empty);
    assert_eq!(board(&[(3, 3, Marble::Salt), (4, 8, Marble::Mercury)]).least_metal(), Marble::Empty);
    assert_eq!(board(&[(3, 3, Marble::Gold)]).least_metal(), Marble::Gold);
    assert_eq!(
        board(&[(3, 3, Marble::Gold), (9, 9, Marble::Silver), (1, 1, Marble::Copper)]).least_metal(),
        Marble::Copper
    );
    assert_eq!(
        board(&[(3, 3, Marble::Tin), (11, 11, Marble::Lead), (1, 1, Marble::Iron)]).least_metal(),
        Marble::Lead
    );
}

#[test]
fn least_metal_counts_marbles_that_are_not_free() {
    let mut marbles = vec![(6, 6, Marble::Lead)];
    for &(x, y) in RING.iter() {
        marbles.push((x, y, Marble::Tin));
    }
    marbles.push((2, 2, Marble::Mercury));
    let b = board(&marbles);
    assert_eq!(b.least_metal(), Marble::Lead);
    // Lead is enclosed, so Mercury has no partner although Tin is free.
    assert_eq!(b.legal_moves(), Vec::<Move>::new());
}

#[test]
fn metals_leave_from_least_to_most_refined() {
    let lead = pos(2, 2, Marble::Lead);
    let tin = pos(9, 9, Marble::Tin);
    let m1 = pos(5, 5, Marble::Mercury);
    let m2 = pos(7, 7, Marble::Mercury);
    let mut b = board(&[(2, 2, Marble::Lead), (9, 9, Marble::Tin), (5, 5, Marble::Mercury), (7, 7, Marble::Mercury)]);
    let moves = b.legal_moves();
    assert_eq!(moves, vec![mv(lead, m1), mv(lead, m2)]);
    assert!(moves.iter().all(|m| m.a.marble == Marble::Lead));
    b.make_move(moves[0]);
    assert_eq!(b.least_metal(), Marble::Tin);
    assert_eq!(b.legal_moves(), vec![mv(tin, m2)]);
}

#[test]
fn mercury_takes_the_first_free_metal() {
    let b = board(&[(8, 3, Marble::Iron), (2, 4, Marble::Iron), (6, 9, Marble::Mercury)]);
    assert_eq!(b.legal_moves(), vec![mv(pos(8, 3, Marble::Iron), pos(6, 9, Marble::Mercury))]);
}

#[test]
fn a_free_gold_alone_pairs_with_itself() {
    let g = pos(6, 6, Marble::Gold);
    let b = board(&[(6, 6, Marble::Gold)]);
    assert_eq!(b.legal_moves(), vec![mv(g, g)]);
    let b = board(&[(6, 6, Marble::Gold), (2, 2, Marble::Mercury), (9, 3, Marble::Salt)]);
    assert_eq!(b.legal_moves(), vec![mv(g, g)]);
}

#[test]
fn gold_waits_for_the_other_metals() {
    let b = board(&[(6, 6, Marble::Gold), (2, 2, Marble::Silver)]);
    assert_eq!(b.legal_moves(), Vec::<Move>::new());
}

#[test]
fn elementals_pair_within_their_kind_only() {
    let a1 = pos(3, 3, Marble::Air);
    let a2 = pos(8, 3, Marble::Air);
    let b = board(&[(3, 3, Marble::Air), (8, 3, Marble::Air), (5, 8, Marble::Fire)]);
    let moves = b.legal_moves();
    assert_eq!(moves, vec![mv(a1, a2)]);
    assert!(moves.iter().all(|m| m.a.marble == m.b.marble));
}

#[test]
fn three_of_a_kind_give_three_pairs() {
    let w1 = pos(2, 2, Marble::Water);
    let w2 = pos(6, 4, Marble::Water);
    let w3 = pos(4, 9, Marble::Water);
    let b = board(&[(2, 2, Marble::Water), (6, 4, Marble::Water), (4, 9, Marble::Water)]);
    assert_eq!(b.legal_moves(), vec![mv(w1, w2), mv(w1, w3), mv(w2, w3)]);
}

#[test]
fn every_mors_pairs_with_every_vitae() {
    let v1 = pos(2, 2, Marble::Vitae);
    let m1 = pos(6, 3, Marble::Mors);
    let v2 = pos(4, 7, Marble::Vitae);
    let m2 = pos(9, 9, Marble::Mors);
    let b = board(&[(2, 2, Marble::Vitae), (6, 3, Marble::Mors), (4, 7, Marble::Vitae), (9, 9, Marble::Mors)]);
    assert_eq!(b.legal_moves(), vec![mv(m1, v1), mv(m1, v2), mv(m2, v1), mv(m2, v2)]);
}

#[test]
fn salt_pairs_with_salt_and_with_every_elemental() {
    let s1 = pos(2, 2, Marble::Salt);
    let air = pos(6, 6, Marble::Air);
    let s2 = pos(10, 10, Marble::Salt);
    let b = board(&[(2, 2, Marble::Salt), (6, 6, Marble::Air), (10, 10, Marble::Salt)]);
    assert_eq!(b.legal_moves(), vec![mv(s1, s2), mv(air, s1), mv(air, s2)]);
}

#[test]
fn moves_come_in_the_order_of_the_kinds() {
    let b = board(&[
        (1, 1, Marble::Salt),
        (3, 1, Marble::Earth),
        (5, 1, Marble::Mors),
        (7, 1, Marble::Vitae),
        (9, 1, Marble::Fire),
        (11, 1, Marble::Fire),
        (1, 5, Marble::Mercury),
        (3, 5, Marble::Copper),
        (5, 5, Marble::Earth),
    ]);
    let salt = pos(1, 1, Marble::Salt);
    let e1 = pos(3, 1, Marble::Earth);
    let mors = pos(5, 1, Marble::Mors);
    let vitae = pos(7, 1, Marble::Vitae);
    let f1 = pos(9, 1, Marble::Fire);
    let f2 = pos(11, 1, Marble::Fire);
    let mercury = pos(1, 5, Marble::Mercury);
    let copper = pos(3, 5, Marble::Copper);
    let e2 = pos(5, 5, Marble::Earth);
    assert_eq!(
        b.legal_moves(),
        vec![
            mv(copper, mercury),
            mv(f1, f2),
            mv(e1, e2),
            mv(mors, vitae),
            mv(f1, salt),
            mv(f2, salt),
            mv(e1, salt),
            mv(e2, salt),
        ]
    );
}

#[test]
fn no_moves_without_matching_marbles() {
    assert_eq!(board(&[]).legal_moves(), Vec::<Move>::new());
    assert_eq!(board(&[(4, 4, Marble::Mors)]).legal_moves(), Vec::<Move>::new());
    assert_eq!(board(&[(4, 4, Marble::Salt)]).legal_moves(), Vec::<Move>::new());
    assert_eq!(board(&[(4, 4, Marble::Mercury)]).legal_moves(), Vec::<Move>::new());
    assert_eq!(
        board(&[(4, 4, Marble::Air), (8, 8, Marble::Fire), (2, 9, Marble::Vitae)]).legal_moves(),
        Vec::<Move>::new()
    );
}

#[test]
fn moves_from_groups_uses_the_first_group_of_a_kind() {
    let s1 = pos(2, 2, Marble::Salt);
    let s2 = pos(4, 4, Marble::Salt);
    let air = pos(6, 6, Marble::Air);
    let groups = vec![(Marble::Air, vec![air]), (Marble::Salt, vec![s1, s2])];
    assert_eq!(moves_from_groups(&groups, Marble::Empty), vec![mv(s1, s2), mv(air, s1), mv(air, s2)]);
    let split = vec![(Marble::Salt, vec![s1]), (Marble::Air, vec![air]), (Marble::Salt, vec![s2])];
    assert_eq!(moves_from_groups(&split, Marble::Empty), vec![mv(air, s1)]);
    assert_eq!(moves_from_groups(&Vec::new(), Marble::Lead), Vec::<Move>::new());
}

#[test]
fn moves_from_groups_gates_the_metals() {
    let lead = pos(2, 2, Marble::Lead);
    let tin = pos(4, 4, Marble::Tin);
    let gold = pos(8, 8, Marble::Gold);
    let mercury = pos(6, 6, Marble::Mercury);
    let groups = vec![
        (Marble::Lead, vec![lead]),
        (Marble::Tin, vec![tin]),
        (Marble::Gold, vec![gold]),
        (Marble::Mercury, vec![mercury]),
    ];
    assert_eq!(moves_from_groups(&groups, Marble::Lead), vec![mv(lead, mercury)]);
    assert_eq!(moves_from_groups(&groups, Marble::Tin), vec![mv(tin, mercury)]);
    assert_eq!(moves_from_groups(&groups, Marble::Iron), Vec::<Move>::new());
    assert_eq!(moves_from_groups(&groups, Marble::Gold), vec![mv(gold, gold)]);
    assert_eq!(moves_from_groups(&groups, Marble::Empty), Vec::<Move>::new());
}

#[test]
fn kind_index_is_that_of_the_marble() {
    assert_eq!(pos(3, 4, Marble::Tin).kind_index(), 1);
    assert_eq!(pos(3, 4, Marble::Salt).kind_index(), 13);
}
