//! The matching rules, and how the generated moves relate to them.

use vstd::prelude::*;
use crate::marble::Marble;
use crate::board::{
    MarblePos, Move, shows, same_cell, playable, revertible, after_move, before_move, grid_hash,
    toggle_move, lemma_move_round_trip, lemma_toggle_move_twice,
};
use crate::zobrist::CELLS;
use crate::freeness::{
    free_seq, least_metal_of, is_free_at, scan_index, snapshot, lemma_free_upto, INTERIOR_CELLS,
};
use crate::moves::{
    of_kind, kind_pred, pair, row, self_pairs, pairs_upto, pairs, cross_upto, cross,
    available_metals, elementals, gold_moves, mercury_moves, moves_of, legal_moves_of,
};

verus! {

/// Whether `p` shows a marble as it lies on `g`, and that marble is free.
pub open spec fn free_shown(g: Seq<Marble>, p: MarblePos) -> bool {
    shows(g, p) && is_free_at(g, p.x as int, p.y as int)
}

/// Whether the matching rules let marbles of kinds `a` and `b` leave
/// together, as first and second marble of a move, where `least` is the
/// least refined metal on the board.
pub open spec fn matching(least: Marble, a: Marble, b: Marble) -> bool {
    ||| a == Marble::Gold && b == Marble::Gold && least == Marble::Gold
    ||| a.spec_is_metal() && a != Marble::Gold && a == least && b == Marble::Mercury
    ||| a.spec_is_elemental() && a == b
    ||| a == Marble::Mors && b == Marble::Vitae
    ||| a == Marble::Salt && b == Marble::Salt
    ||| a.spec_is_elemental() && b == Marble::Salt
}

/// A move is legal on `g` when both its marbles are free and shown as they
/// lie on `g`, their kinds match, and they are two marbles, or else one
/// Gold paired with itself.
pub open spec fn legal(g: Seq<Marble>, m: Move) -> bool {
    &&& free_shown(g, m.a)
    &&& free_shown(g, m.b)
    &&& matching(least_metal_of(g), m.a.marble, m.b.marble)
    &&& if m.b.marble == Marble::Gold {
        m.a == m.b
    } else {
        !same_cell(m.a, m.b)
    }
}

/// Whether `p` holds of every move of `s`.
pub open spec fn all_moves(s: Seq<Move>, p: spec_fn(Move) -> bool) -> bool {
    forall|i: int| 0 <= i < s.len() ==> p(#[trigger] s[i])
}

/// Whether the marbles of `s` are free marbles of `g` of kind `k`, no two
/// of them on one cell.
pub open spec fn free_group(g: Seq<Marble>, s: Seq<MarblePos>, k: Marble) -> bool {
    &&& forall|i: int| 0 <= i < s.len() ==> free_shown(g, #[trigger] s[i]) && s[i].marble == k
    &&& forall|i: int, j: int|
        0 <= i < j < s.len() ==> scan_index(#[trigger] s[i]) < scan_index(#[trigger] s[j])
}

/// What holds of all moves of two lists holds of all moves of both together.
proof fn lemma_all_add(a: Seq<Move>, b: Seq<Move>, p: spec_fn(Move) -> bool)
    requires
        all_moves(a, p),
        all_moves(b, p),
    ensures
        all_moves(a + b, p),
{
}

/// What holds of each pair of `fixed` with one of `others` holds of all
/// moves of the row.
proof fn lemma_row_all(
    fixed: MarblePos,
    others: Seq<MarblePos>,
    fixed_first: bool,
    p: spec_fn(Move) -> bool,
)
    requires
        forall|j: int| 0 <= j < others.len() ==> p(#[trigger] pair(fixed, others[j], fixed_first)),
    ensures
        all_moves(row(fixed, others, fixed_first), p),
{
    assert forall|i: int| 0 <= i < row(fixed, others, fixed_first).len() implies p(
        #[trigger] row(fixed, others, fixed_first)[i],
    ) by {
        assert(p(pair(fixed, others[i], fixed_first)));
    }
}

/// What holds of each pair of an earlier with a later marble of `s` holds
/// of all moves of the pairs.
proof fn lemma_pairs_all(s: Seq<MarblePos>, n: nat, p: spec_fn(Move) -> bool)
    requires
        n <= s.len(),
        forall|i: int, j: int| 0 <= i < j < s.len() ==> p(#[trigger] pair(s[i], s[j], true)),
    ensures
        all_moves(pairs_upto(s, n), p),
    decreases n,
{
    if n > 0 {
        lemma_pairs_all(s, (n - 1) as nat, p);
        let rest = s.skip(n as int);
        assert forall|j: int| 0 <= j < rest.len() implies p(
            #[trigger] pair(s[n - 1], rest[j], true),
        ) by {
            assert(rest[j] == s[n + j]);
            assert(p(pair(s[n - 1], s[n + j], true)));
        }
        lemma_row_all(s[n - 1], rest, true, p);
        lemma_all_add(pairs_upto(s, (n - 1) as nat), row(s[n - 1], rest, true), p);
    }
}

/// What holds of each pair of a marble of `outer` with one of `inner`
/// holds of all moves of the cross product.
proof fn lemma_cross_all(
    outer: Seq<MarblePos>,
    inner: Seq<MarblePos>,
    outer_first: bool,
    n: nat,
    p: spec_fn(Move) -> bool,
)
    requires
        n <= outer.len(),
        forall|i: int, j: int|
            0 <= i < outer.len() && 0 <= j < inner.len() ==> p(
                #[trigger] pair(outer[i], inner[j], outer_first),
            ),
    ensures
        all_moves(cross_upto(outer, inner, outer_first, n), p),
    decreases n,
{
    if n > 0 {
        lemma_cross_all(outer, inner, outer_first, (n - 1) as nat, p);
        lemma_row_all(outer[n - 1], inner, outer_first, p);
        lemma_all_add(
            cross_upto(outer, inner, outer_first, (n - 1) as nat),
            row(outer[n - 1], inner, outer_first),
            p,
        );
    }
}

/// Picking the marbles of one kind out of free marbles in rising order
/// leaves free marbles of that kind in rising order.
proof fn lemma_of_kind_free(g: Seq<Marble>, s: Seq<MarblePos>, k: Marble)
    requires
        forall|i: int| 0 <= i < s.len() ==> free_shown(g, #[trigger] s[i]),
        forall|i: int, j: int|
            0 <= i < j < s.len() ==> scan_index(#[trigger] s[i]) < scan_index(#[trigger] s[j]),
    ensures
        free_group(g, of_kind(s, k), k),
        forall|i: int|
            0 <= i < of_kind(s, k).len() ==> s.contains(#[trigger] of_kind(s, k)[i]),
    decreases s.len(),
{
    reveal(Seq::filter);
    if s.len() > 0 {
        let rest = s.drop_last();
        lemma_of_kind_free(g, rest, k);
        let sub = of_kind(rest, k);
        let cur = of_kind(s, k);
        assert forall|i: int| 0 <= i < sub.len() implies s.contains(#[trigger] sub[i])
            && scan_index(sub[i]) < scan_index(s.last()) by {
            let w = choose|w: int| 0 <= w < rest.len() && rest[w] == sub[i];
            assert(s[w] == sub[i]);
        }
        if s.last().marble == k {
            assert(cur == sub.push(s.last()));
            assert(s[s.len() - 1] == s.last());
        } else {
            assert(cur == sub);
        }
    }
}

/// Every generated move is legal.
pub proof fn lemma_generated_moves_legal(g: Seq<Marble>)
    ensures
        forall|i: int|
            0 <= i < legal_moves_of(g).len() ==> legal(g, #[trigger] legal_moves_of(g)[i]),
{
    reveal(legal_moves_of);
    let free = free_seq(g);
    let least = least_metal_of(g);
    let by_kind = |k: Marble| of_kind(free, k);
    let p = |m: Move| legal(g, m);
    lemma_free_upto(g, INTERIOR_CELLS as nat);
    assert forall|k: Marble| #[trigger] free_group(g, of_kind(free, k), k) by {
        lemma_of_kind_free(g, free, k);
    }
    let gold = by_kind(Marble::Gold);
    let mercury = by_kind(Marble::Mercury);
    let air = by_kind(Marble::Air);
    let fire = by_kind(Marble::Fire);
    let water = by_kind(Marble::Water);
    let earth = by_kind(Marble::Earth);
    let vitae = by_kind(Marble::Vitae);
    let mors = by_kind(Marble::Mors);
    let salt = by_kind(Marble::Salt);
    assert(free_group(g, gold, Marble::Gold));
    assert(free_group(g, mercury, Marble::Mercury));
    assert(free_group(g, air, Marble::Air));
    assert(free_group(g, fire, Marble::Fire));
    assert(free_group(g, water, Marble::Water));
    assert(free_group(g, earth, Marble::Earth));
    assert(free_group(g, vitae, Marble::Vitae));
    assert(free_group(g, mors, Marble::Mors));
    assert(free_group(g, salt, Marble::Salt));
    let s_gold = gold_moves(by_kind, least);
    assert(all_moves(s_gold, p));
    let s_mercury = mercury_moves(by_kind, least);
    assert(all_moves(s_mercury, p)) by {
        let metals = available_metals(by_kind, least);
        if metals.len() > 0 {
            assert(free_group(g, by_kind(least), least));
            lemma_row_all(metals[0], mercury, true, p);
        }
    }
    lemma_pairs_all(air, air.len(), p);
    lemma_pairs_all(fire, fire.len(), p);
    lemma_pairs_all(water, water.len(), p);
    lemma_pairs_all(earth, earth.len(), p);
    lemma_cross_all(mors, vitae, true, mors.len(), p);
    lemma_pairs_all(salt, salt.len(), p);
    let els = elementals(by_kind);
    assert forall|j: int| 0 <= j < els.len() implies free_shown(g, #[trigger] els[j])
        && els[j].marble.spec_is_elemental() by {
        if j < air.len() {
            assert(els[j] == air[j]);
        } else if j < air.len() + fire.len() {
            assert(els[j] == fire[j - air.len()]);
        } else if j < air.len() + fire.len() + water.len() {
            assert(els[j] == water[j - air.len() - fire.len()]);
        } else {
            assert(els[j] == earth[j - air.len() - fire.len() - water.len()]);
        }
    }
    lemma_cross_all(salt, els, false, salt.len(), p);
    let s1 = s_gold + s_mercury;
    lemma_all_add(s_gold, s_mercury, p);
    let s2 = s1 + pairs(air);
    lemma_all_add(s1, pairs(air), p);
    let s3 = s2 + pairs(fire);
    lemma_all_add(s2, pairs(fire), p);
    let s4 = s3 + pairs(water);
    lemma_all_add(s3, pairs(water), p);
    let s5 = s4 + pairs(earth);
    lemma_all_add(s4, pairs(earth), p);
    let s6 = s5 + cross(mors, vitae, true);
    lemma_all_add(s5, cross(mors, vitae, true), p);
    let s7 = s6 + pairs(salt);
    lemma_all_add(s6, pairs(salt), p);
    let s8 = s7 + cross(salt, els, false);
    lemma_all_add(s7, cross(salt, els, false), p);
    assert(s8 == legal_moves_of(g));
    assert(all_moves(legal_moves_of(g), p));
}

/// Metals leave from the least refined to the most refined: a metal in a
/// generated move is of the least refined kind that lies on the board.
pub proof fn lemma_metals_gated(g: Seq<Marble>)
    ensures
        forall|i: int|
            0 <= i < legal_moves_of(g).len() ==> {
                let m = #[trigger] legal_moves_of(g)[i];
                &&& m.a.marble.spec_is_metal() ==> m.a.marble == least_metal_of(g)
                &&& m.b.marble.spec_is_metal() ==> m.b.marble == least_metal_of(g)
            },
{
    lemma_generated_moves_legal(g);
}

/// Elementals pair within their kind only: where both marbles of a
/// generated move are elementals, they are of one kind.
pub proof fn lemma_elementals_pair_in_kind(g: Seq<Marble>)
    ensures
        forall|i: int|
            0 <= i < legal_moves_of(g).len() ==> {
                let m = #[trigger] legal_moves_of(g)[i];
                m.a.marble.spec_is_elemental() && m.b.marble.spec_is_elemental() ==> m.a.marble
                    == m.b.marble
            },
{
    lemma_generated_moves_legal(g);
}

/// A legal move can be made; made and then taken back, it leaves the grid
/// as it was, and a fingerprint `h` as it was too, whether it is followed
/// step by step or taken as the fingerprint of the grid.
pub proof fn lemma_legal_round_trip(g: Seq<Marble>, t: Seq<u64>, h: u64, m: Move)
    requires
        g.len() == CELLS,
        legal(g, m),
    ensures
        playable(g, m),
        revertible(after_move(g, m), m),
        before_move(after_move(g, m), m) == g,
        grid_hash(before_move(after_move(g, m), m), t) == grid_hash(g, t),
        toggle_move(toggle_move(h, t, m), t, m) == h,
{
    lemma_move_round_trip(g, m);
    lemma_toggle_move_twice(h, t, m);
}

/// What one of two sequences holds, the two put together hold too.
proof fn lemma_add_contains<T>(a: Seq<T>, b: Seq<T>, x: T)
    requires
        a.contains(x) || b.contains(x),
    ensures
        (a + b).contains(x),
{
    if a.contains(x) {
        let i = choose|i: int| 0 <= i < a.len() && a[i] == x;
        assert((a + b)[i] == x);
    } else {
        let i = choose|i: int| 0 <= i < b.len() && b[i] == x;
        assert((a + b)[a.len() + i] == x);
    }
}

/// The pairs of `s` hold the move of each earlier marble with each later
/// one.
proof fn lemma_pairs_contains(s: Seq<MarblePos>, n: nat, i: int, j: int)
    requires
        0 <= i < j < s.len(),
        i < n <= s.len(),
    ensures
        pairs_upto(s, n).contains(pair(s[i], s[j], true)),
    decreases n,
{
    let before = pairs_upto(s, (n - 1) as nat);
    let last = row(s[n - 1], s.skip(n as int), true);
    if i == n - 1 {
        assert(last[j - n] == pair(s[i], s[j], true));
    } else {
        lemma_pairs_contains(s, (n - 1) as nat, i, j);
    }
    lemma_add_contains(before, last, pair(s[i], s[j], true));
}

/// The cross product holds the move of each marble of `outer` with each
/// marble of `inner`.
proof fn lemma_cross_contains(
    outer: Seq<MarblePos>,
    inner: Seq<MarblePos>,
    outer_first: bool,
    n: nat,
    i: int,
    j: int,
)
    requires
        0 <= i < n <= outer.len(),
        0 <= j < inner.len(),
    ensures
        cross_upto(outer, inner, outer_first, n).contains(pair(outer[i], inner[j], outer_first)),
    decreases n,
{
    let before = cross_upto(outer, inner, outer_first, (n - 1) as nat);
    let last = row(outer[n - 1], inner, outer_first);
    if i == n - 1 {
        assert(last[j] == pair(outer[i], inner[j], outer_first));
    } else {
        lemma_cross_contains(outer, inner, outer_first, (n - 1) as nat, i, j);
    }
    lemma_add_contains(before, last, pair(outer[i], inner[j], outer_first));
}

/// A free marble shown as it lies on `g` is among the free marbles of its
/// kind.
proof fn lemma_free_listed(g: Seq<Marble>, p: MarblePos)
    requires
        free_shown(g, p),
    ensures
        of_kind(free_seq(g), p.marble).contains(p),
{
    let free = free_seq(g);
    let k = scan_index(p);
    lemma_free_upto(g, INTERIOR_CELLS as nat);
    assert(snapshot(g, k) == p);
    assert(free.contains(snapshot(g, k)));
    let w = choose|w: int| 0 <= w < free.len() && free[w] == p;
    free.lemma_filter_contains(kind_pred(p.marble), w);
}

/// A move that one of the parts of the list of moves holds is in the
/// list.
proof fn lemma_in_moves_of(by_kind: spec_fn(Marble) -> Seq<MarblePos>, least: Marble, m: Move)
    requires
        ({
            ||| gold_moves(by_kind, least).contains(m)
            ||| mercury_moves(by_kind, least).contains(m)
            ||| pairs(by_kind(Marble::Air)).contains(m)
            ||| pairs(by_kind(Marble::Fire)).contains(m)
            ||| pairs(by_kind(Marble::Water)).contains(m)
            ||| pairs(by_kind(Marble::Earth)).contains(m)
            ||| cross(by_kind(Marble::Mors), by_kind(Marble::Vitae), true).contains(m)
            ||| pairs(by_kind(Marble::Salt)).contains(m)
            ||| cross(by_kind(Marble::Salt), elementals(by_kind), false).contains(m)
        }),
    ensures
        moves_of(by_kind, least).contains(m),
{
    let golds = gold_moves(by_kind, least);
    let mercuries = mercury_moves(by_kind, least);
    let airs = pairs(by_kind(Marble::Air));
    let fires = pairs(by_kind(Marble::Fire));
    let waters = pairs(by_kind(Marble::Water));
    let earths = pairs(by_kind(Marble::Earth));
    let deaths = cross(by_kind(Marble::Mors), by_kind(Marble::Vitae), true);
    let salts = pairs(by_kind(Marble::Salt));
    let salted = cross(by_kind(Marble::Salt), elementals(by_kind), false);
    let s1 = golds + mercuries;
    if golds.contains(m) || mercuries.contains(m) {
        lemma_add_contains(golds, mercuries, m);
    }
    let s2 = s1 + airs;
    if s1.contains(m) || airs.contains(m) {
        lemma_add_contains(s1, airs, m);
    }
    let s3 = s2 + fires;
    if s2.contains(m) || fires.contains(m) {
        lemma_add_contains(s2, fires, m);
    }
    let s4 = s3 + waters;
    if s3.contains(m) || waters.contains(m) {
        lemma_add_contains(s3, waters, m);
    }
    let s5 = s4 + earths;
    if s4.contains(m) || earths.contains(m) {
        lemma_add_contains(s4, earths, m);
    }
    let s6 = s5 + deaths;
    if s5.contains(m) || deaths.contains(m) {
        lemma_add_contains(s5, deaths, m);
    }
    let s7 = s6 + salts;
    if s6.contains(m) || salts.contains(m) {
        lemma_add_contains(s6, salts, m);
    }
    lemma_add_contains(s7, salted, m);
}

/// The free metal that Mercury is paired with: the first free marble of
/// the least refined metal on the board.
pub open spec fn first_metal(g: Seq<Marble>) -> MarblePos {
    of_kind(free_seq(g), least_metal_of(g))[0]
}

/// Every pair of free marbles that the rules let leave together is
/// generated: a free Gold with itself; each free Mercury, where a metal is
/// due and free, with the first free marble of that metal; two marbles of
/// one kind in one of the two orders; and any other pair as it stands.
pub proof fn lemma_legal_moves_generated(g: Seq<Marble>, a: MarblePos, b: MarblePos)
    requires
        legal(g, Move { a, b }),
    ensures
        b.marble == Marble::Mercury ==> legal_moves_of(g).contains(Move { a: first_metal(g), b })
            && first_metal(g).marble == a.marble && free_shown(g, first_metal(g)),
        b.marble != Marble::Mercury && a.marble != b.marble ==> legal_moves_of(g).contains(
            Move { a, b },
        ),
        a.marble == b.marble ==> legal_moves_of(g).contains(Move { a, b })
            || legal_moves_of(g).contains(Move { a: b, b: a }),
{
    reveal(legal_moves_of);
    let free = free_seq(g);
    let least = least_metal_of(g);
    let by_kind = |k: Marble| of_kind(free, k);
    lemma_free_upto(g, INTERIOR_CELLS as nat);
    lemma_free_listed(g, a);
    lemma_free_listed(g, b);
    let ka = by_kind(a.marble);
    let kb = by_kind(b.marble);
    let i = choose|i: int| 0 <= i < ka.len() && ka[i] == a;
    let j = choose|j: int| 0 <= j < kb.len() && kb[j] == b;
    if b.marble == Marble::Gold {
        let m = Move { a, b };
        assert(self_pairs(ka)[i] == m);
        lemma_in_moves_of(by_kind, least, m);
    } else if b.marble == Marble::Mercury {
        lemma_of_kind_free(g, free, least);
        let metals = available_metals(by_kind, least);
        assert(metals == ka);
        let m = Move { a: metals[0], b };
        assert(row(metals[0], kb, true)[j] == m);
        lemma_in_moves_of(by_kind, least, m);
    } else if a.marble == b.marble {
        if i < j {
            lemma_pairs_contains(ka, ka.len(), i, j);
            lemma_in_moves_of(by_kind, least, Move { a, b });
        } else {
            lemma_pairs_contains(ka, ka.len(), j, i);
            lemma_in_moves_of(by_kind, least, Move { a: b, b: a });
        }
    } else if a.marble == Marble::Mors {
        lemma_cross_contains(ka, kb, true, ka.len(), i, j);
        lemma_in_moves_of(by_kind, least, Move { a, b });
    } else {
        let air = by_kind(Marble::Air);
        let fire = by_kind(Marble::Fire);
        let water = by_kind(Marble::Water);
        let earth = by_kind(Marble::Earth);
        let els = elementals(by_kind);
        if air.contains(a) || fire.contains(a) {
            lemma_add_contains(air, fire, a);
        }
        if (air + fire).contains(a) || water.contains(a) {
            lemma_add_contains(air + fire, water, a);
        }
        lemma_add_contains(air + fire + water, earth, a);
        let w = choose|w: int| 0 <= w < els.len() && els[w] == a;
        lemma_cross_contains(kb, els, false, kb.len(), j, w);
        lemma_in_moves_of(by_kind, least, Move { a, b });
    }
}

} // verus!
