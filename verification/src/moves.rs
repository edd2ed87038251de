//! The legal moves of a position.

use vstd::prelude::*;
use itertools::Itertools;
use crate::marble::Marble;
use crate::board::{Board, MarblePos, Move};
use crate::freeness::{free_seq, least_metal_of};

verus! {

/// Free marbles that share a kind, together with that kind.
pub type Group = (Marble, Vec<MarblePos>);

impl MarblePos {
    /// The place of the marble's kind in the order of the kinds: the key
    /// by which free marbles are sorted before they are grouped.
    pub fn kind_index(&self) -> (r: usize)
        ensures
            r == self.marble.spec_index(),
    {
        self.marble.index()
    }
}

/// The test "is of kind `k`".
pub open spec fn kind_pred(k: Marble) -> spec_fn(MarblePos) -> bool {
    |p: MarblePos| p.marble == k
}

/// The marbles of kind `k` among `s`, in the order in which `s` has them.
pub open spec fn of_kind(s: Seq<MarblePos>, k: Marble) -> Seq<MarblePos> {
    s.filter(kind_pred(k))
}

/// All marbles of the groups, group after group.
pub open spec fn concat(groups: Seq<Group>) -> Seq<MarblePos>
    decreases groups.len(),
{
    if groups.len() == 0 {
        Seq::empty()
    } else {
        concat(groups.drop_last()) + groups.last().1@
    }
}

/// The marbles of the first group from index `i` on whose key is `k`;
/// none where no such group has that key.
pub open spec fn group_from(groups: Seq<Group>, k: Marble, i: nat) -> Seq<MarblePos>
    decreases groups.len() - i,
{
    if i >= groups.len() {
        Seq::empty()
    } else if groups[i as int].0 == k {
        groups[i as int].1@
    } else {
        group_from(groups, k, i + 1)
    }
}

/// The marbles of the first group whose key is `k`; none where no group
/// has that key.
pub open spec fn group_of(groups: Seq<Group>, k: Marble) -> Seq<MarblePos> {
    group_from(groups, k, 0)
}

/// Whether every marble of every group is of the kind that is the group's
/// key.
pub open spec fn uniform(groups: Seq<Group>) -> bool {
    forall|i: int, j: int|
        0 <= i < groups.len() && 0 <= j < groups[i].1@.len() ==> (#[trigger] groups[i].1@[j]).marble
            == groups[i].0
}

/// Whether the marbles are in rising order of their kinds.
pub open spec fn sorted_by_kind(s: Seq<MarblePos>) -> bool {
    forall|i: int, j: int|
        0 <= i < j < s.len() ==> (#[trigger] s[i]).marble.spec_index() <= (
        #[trigger] s[j]).marble.spec_index()
}

/// Whether the groups are runs: each is uniform and not empty, and two
/// that follow each other differ in their keys.
pub open spec fn runs(groups: Seq<Group>) -> bool {
    &&& uniform(groups)
    &&& forall|i: int| 0 <= i < groups.len() ==> (#[trigger] groups[i]).1@.len() > 0
    &&& forall|i: int| 0 < i < groups.len() ==> groups[i - 1].0 != (#[trigger] groups[i]).0
}

/// Whether the keys of the groups rise strictly in the order of the kinds.
pub open spec fn keys_rise(groups: Seq<Group>) -> bool {
    forall|i: int, j: int|
        0 <= i < j < groups.len() ==> (#[trigger] groups[i]).0.spec_index() < (
        #[trigger] groups[j]).0.spec_index()
}

/// Sorts the marbles by kind with std's `sort_by_key` on a `Vec`, the key
/// being `MarblePos::kind_index`. Believed of it, as std documents it: the
/// result is in rising order of the key, and the sort is stable, so the
/// marbles of each kind are the same as before and in the same order.
#[verifier::external_body]
fn sort_by_kind(v: Vec<MarblePos>) -> (r: Vec<MarblePos>)
    ensures
        r@.len() == v@.len(),
        sorted_by_kind(r@),
        forall|k: Marble| #[trigger] of_kind(r@, k) == of_kind(v@, k),
{
    let mut r = v;
    r.sort_by_key(|p: &MarblePos| p.kind_index());
    r
}

/// Splits the marbles into runs of equal kind with `itertools`'
/// `Itertools::group_by`, the key being the marble's kind, and collects
/// each run with its key. Believed of it, as its source shows: the runs, one
/// after the other, are the input; no run is empty; every marble of a run
/// is of the run's key; and two runs that follow each other differ in their
/// keys.
#[verifier::external_body]
fn group_by_kind(v: Vec<MarblePos>) -> (r: Vec<Group>)
    ensures
        concat(r@) == v@,
        runs(r@),
{
    let groups = v.into_iter().group_by(|p: &MarblePos| p.marble);
    let r = groups.into_iter().map(|(k, g)| (k, g.collect())).collect();
    r
}

/// A move of `fixed` with `other`; `fixed` is its first marble where
/// `fixed_first` holds, else its second.
pub open spec fn pair(fixed: MarblePos, other: MarblePos, fixed_first: bool) -> Move {
    if fixed_first {
        Move { a: fixed, b: other }
    } else {
        Move { a: other, b: fixed }
    }
}

/// One move of `fixed` with each of `others`, in their order.
pub open spec fn row(fixed: MarblePos, others: Seq<MarblePos>, fixed_first: bool) -> Seq<Move> {
    Seq::new(others.len(), |i: int| pair(fixed, others[i], fixed_first))
}

/// One move of each marble with itself.
pub open spec fn self_pairs(s: Seq<MarblePos>) -> Seq<Move> {
    Seq::new(s.len(), |i: int| Move { a: s[i], b: s[i] })
}

/// The moves of each of the first `n` marbles of `s` with each marble that
/// comes after it in `s`.
pub open spec fn pairs_upto(s: Seq<MarblePos>, n: nat) -> Seq<Move>
    decreases n,
{
    if n == 0 {
        Seq::empty()
    } else {
        pairs_upto(s, (n - 1) as nat) + row(s[n - 1], s.skip(n as int), true)
    }
}

/// One move for every two marbles of `s`, the earlier one first.
pub open spec fn pairs(s: Seq<MarblePos>) -> Seq<Move> {
    pairs_upto(s, s.len())
}

/// The moves of each of the first `n` marbles of `outer` with each marble
/// of `inner`.
pub open spec fn cross_upto(
    outer: Seq<MarblePos>,
    inner: Seq<MarblePos>,
    outer_first: bool,
    n: nat,
) -> Seq<Move>
    decreases n,
{
    if n == 0 {
        Seq::empty()
    } else {
        cross_upto(outer, inner, outer_first, (n - 1) as nat) + row(
            outer[n - 1],
            inner,
            outer_first,
        )
    }
}

/// One move for every marble of `outer` with every marble of `inner`.
pub open spec fn cross(outer: Seq<MarblePos>, inner: Seq<MarblePos>, outer_first: bool) -> Seq<
    Move,
> {
    cross_upto(outer, inner, outer_first, outer.len())
}

/// The free metals that Mercury can take: those of the least refined kind
/// on the board, unless that kind is Gold.
pub open spec fn available_metals(
    by_kind: spec_fn(Marble) -> Seq<MarblePos>,
    least: Marble,
) -> Seq<MarblePos> {
    if least.spec_is_metal() && least != Marble::Gold {
        by_kind(least)
    } else {
        Seq::empty()
    }
}

/// The free elementals: Air, Fire, Water, Earth, in this order.
pub open spec fn elementals(by_kind: spec_fn(Marble) -> Seq<MarblePos>) -> Seq<MarblePos> {
    by_kind(Marble::Air) + by_kind(Marble::Fire) + by_kind(Marble::Water) + by_kind(Marble::Earth)
}

/// The moves that take Gold: one for each free Gold, once Gold is the
/// least refined metal left.
pub open spec fn gold_moves(by_kind: spec_fn(Marble) -> Seq<MarblePos>, least: Marble) -> Seq<
    Move,
> {
    if least == Marble::Gold {
        self_pairs(by_kind(Marble::Gold))
    } else {
        Seq::empty()
    }
}

/// The moves of Mercury: each free Mercury with the first available metal.
pub open spec fn mercury_moves(by_kind: spec_fn(Marble) -> Seq<MarblePos>, least: Marble) -> Seq<
    Move,
> {
    let metals = available_metals(by_kind, least);
    if metals.len() > 0 {
        row(metals[0], by_kind(Marble::Mercury), true)
    } else {
        Seq::empty()
    }
}

/// The moves of a position whose free marbles of kind `k` are
/// `by_kind(k)` and whose least refined metal is `least`.
pub open spec fn moves_of(by_kind: spec_fn(Marble) -> Seq<MarblePos>, least: Marble) -> Seq<Move> {
    gold_moves(by_kind, least) + mercury_moves(by_kind, least) + pairs(by_kind(Marble::Air))
        + pairs(by_kind(Marble::Fire)) + pairs(by_kind(Marble::Water)) + pairs(
        by_kind(Marble::Earth),
    ) + cross(by_kind(Marble::Mors), by_kind(Marble::Vitae), true) + pairs(by_kind(Marble::Salt))
        + cross(by_kind(Marble::Salt), elementals(by_kind), false)
}

/// The legal moves of grid `g`, in the order in which they are generated.
#[verifier::opaque]
pub open spec fn legal_moves_of(g: Seq<Marble>) -> Seq<Move> {
    moves_of(|k: Marble| of_kind(free_seq(g), k), least_metal_of(g))
}

/// Of marbles that are all of kind `key`, those of kind `k` are all of
/// them or none.
proof fn lemma_of_kind_uniform(s: Seq<MarblePos>, key: Marble, k: Marble)
    requires
        forall|j: int| 0 <= j < s.len() ==> (#[trigger] s[j]).marble == key,
    ensures
        of_kind(s, k) == if key == k {
            s
        } else {
            Seq::empty()
        },
    decreases s.len(),
{
    reveal(Seq::filter);
    if s.len() > 0 {
        lemma_of_kind_uniform(s.drop_last(), key, k);
        if key == k {
            assert(s.drop_last().push(s.last()) =~= s);
        }
    } else {
        assert(s =~= Seq::empty());
    }
}

/// The keys of runs of marbles that are sorted by kind rise strictly.
proof fn lemma_keys_rise(groups: Seq<Group>)
    requires
        runs(groups),
        sorted_by_kind(concat(groups)),
    ensures
        keys_rise(groups),
    decreases groups.len(),
{
    if groups.len() > 1 {
        let n = groups.len() as int;
        let rest = groups.drop_last();
        let all = concat(groups);
        let head = concat(rest);
        let last = groups[n - 1].1@;
        assert(all == head + last);
        assert forall|i: int, j: int| 0 <= i < rest.len() && 0 <= j < rest[i].1@.len() implies (
        #[trigger] rest[i].1@[j]).marble == rest[i].0 by {
            assert(groups[i].1@[j].marble == groups[i].0);
        }
        assert forall|i: int| 0 <= i < rest.len() implies (#[trigger] rest[i]).1@.len() > 0 by {
            assert(groups[i].1@.len() > 0);
        }
        assert forall|i: int| 0 < i < rest.len() implies rest[i - 1].0 != (#[trigger] rest[i]).0 by {
            assert(groups[i - 1].0 != groups[i].0);
        }
        assert forall|i: int, j: int| 0 <= i < j < head.len() implies (
        #[trigger] head[i]).marble.spec_index() <= (#[trigger] head[j]).marble.spec_index() by {
            assert(all[i] == head[i] && all[j] == head[j]);
        }
        lemma_keys_rise(rest);
        let before = rest[n - 2].1@;
        assert(rest.drop_last() == groups.take(n - 2)) by {
            assert(rest.drop_last() =~= groups.take(n - 2));
        }
        assert(head == concat(rest.drop_last()) + before);
        assert(groups[n - 2].1@.len() > 0 && groups[n - 1].1@.len() > 0);
        let x = head[head.len() - 1];
        let y = last[0];
        assert(x == before[before.len() - 1]);
        assert(groups[n - 2].1@[before.len() - 1].marble == groups[n - 2].0);
        assert(groups[n - 1].1@[0].marble == groups[n - 1].0);
        assert(all[head.len() - 1] == x && all[head.len() as int] == y);
        assert(x.marble.spec_index() <= y.marble.spec_index());
        assert(groups[n - 2].0 != groups[n - 1].0);
        assert(groups[n - 2].0.spec_index() < groups[n - 1].0.spec_index());
        assert forall|i: int, j: int| 0 <= i < j < groups.len() implies (
        #[trigger] groups[i]).0.spec_index() < (#[trigger] groups[j]).0.spec_index() by {
            if j < n - 1 {
                assert(rest[i].0.spec_index() < rest[j].0.spec_index());
            } else if i < n - 2 {
                assert(rest[i].0.spec_index() < rest[n - 2].0.spec_index());
            }
        }
    }
}

/// Among uniform groups with rising keys, the marbles of kind `k` are
/// those of the one group with key `k`, or none where no group has it.
proof fn lemma_of_kind_concat(groups: Seq<Group>, k: Marble)
    requires
        uniform(groups),
        keys_rise(groups),
    ensures
        forall|i: int|
            0 <= i < groups.len() && (#[trigger] groups[i]).0 == k ==> of_kind(concat(groups), k)
                == groups[i].1@,
        (forall|i: int| 0 <= i < groups.len() ==> (#[trigger] groups[i]).0 != k) ==> of_kind(
            concat(groups),
            k,
        ) == Seq::<MarblePos>::empty(),
    decreases groups.len(),
{
    if groups.len() > 0 {
        let n = groups.len() as int;
        let rest = groups.drop_last();
        assert forall|i: int, j: int| 0 <= i < rest.len() && 0 <= j < rest[i].1@.len() implies (
        #[trigger] rest[i].1@[j]).marble == rest[i].0 by {
            assert(groups[i].1@[j].marble == groups[i].0);
        }
        assert forall|i: int, j: int| 0 <= i < j < rest.len() implies (
        #[trigger] rest[i]).0.spec_index() < (#[trigger] rest[j]).0.spec_index() by {
            assert(groups[i].0.spec_index() < groups[j].0.spec_index());
        }
        lemma_of_kind_concat(rest, k);
        let last = groups[n - 1].1@;
        assert forall|j: int| 0 <= j < last.len() implies (#[trigger] last[j]).marble == groups[n
            - 1].0 by {
            assert(groups[n - 1].1@[j].marble == groups[n - 1].0);
        }
        lemma_of_kind_uniform(last, groups[n - 1].0, k);
        Seq::filter_distributes_over_add(concat(rest), last, kind_pred(k));
        assert(of_kind(concat(groups), k) == of_kind(concat(rest), k) + of_kind(last, k));
        if groups[n - 1].0 == k {
            assert forall|i: int| 0 <= i < rest.len() implies (#[trigger] rest[i]).0 != k by {
                assert(groups[i].0.spec_index() < groups[n - 1].0.spec_index());
            }
            assert(of_kind(concat(groups), k) =~= last);
            assert forall|i: int| 0 <= i < groups.len() && (#[trigger] groups[i]).0
                == k implies of_kind(concat(groups), k) == groups[i].1@ by {
                if i < n - 1 {
                    assert(groups[i].0.spec_index() < groups[n - 1].0.spec_index());
                }
            }
        } else {
            assert(of_kind(concat(groups), k) =~= of_kind(concat(rest), k));
            assert forall|i: int| 0 <= i < groups.len() && (#[trigger] groups[i]).0
                == k implies of_kind(concat(groups), k) == groups[i].1@ by {
                assert(rest[i].0 == k);
            }
            if forall|i: int| 0 <= i < groups.len() ==> (#[trigger] groups[i]).0 != k {
                assert forall|i: int| 0 <= i < rest.len() implies (#[trigger] rest[i]).0 != k by {
                    assert(groups[i].0 != k);
                }
            }
        }
    } else {
        reveal(Seq::filter);
    }
}

/// Where no group before index `i` has key `k` and the group at `i` has
/// it, that group is the first with key `k`.
proof fn lemma_group_from(groups: Seq<Group>, k: Marble, s: nat, i: int)
    requires
        s <= i < groups.len(),
        groups[i].0 == k,
        forall|j: int| s <= j < i ==> (#[trigger] groups[j]).0 != k,
    ensures
        group_from(groups, k, s) == groups[i].1@,
    decreases i - s,
{
    if s < i {
        assert(groups[s as int].0 != k);
        lemma_group_from(groups, k, s + 1, i);
    }
}

/// Where no group from index `s` on has key `k`, there is no first group
/// with key `k`.
proof fn lemma_group_from_none(groups: Seq<Group>, k: Marble, s: nat)
    requires
        forall|j: int| s <= j < groups.len() ==> (#[trigger] groups[j]).0 != k,
    ensures
        group_from(groups, k, s) == Seq::<MarblePos>::empty(),
    decreases groups.len() - s,
{
    if s < groups.len() {
        assert(groups[s as int].0 != k);
        lemma_group_from_none(groups, k, s + 1);
    }
}

/// Of runs of marbles that are sorted by kind, the first run with key `k`
/// holds all marbles of kind `k`.
pub proof fn lemma_group_of(groups: Seq<Group>, k: Marble)
    requires
        runs(groups),
        sorted_by_kind(concat(groups)),
    ensures
        group_of(groups, k) == of_kind(concat(groups), k),
{
    lemma_keys_rise(groups);
    lemma_of_kind_concat(groups, k);
    if exists|i: int| 0 <= i < groups.len() && (#[trigger] groups[i]).0 == k {
        let i = choose|i: int| 0 <= i < groups.len() && (#[trigger] groups[i]).0 == k;
        assert forall|j: int| 0 <= j < i implies (#[trigger] groups[j]).0 != k by {
            assert(groups[j].0.spec_index() < groups[i].0.spec_index());
        }
        lemma_group_from(groups, k, 0, i);
    } else {
        lemma_group_from_none(groups, k, 0);
    }
}

/// The marbles of the first group whose key is `kind`; none where no group
/// has that key.
fn find_group(groups: &Vec<Group>, kind: Marble) -> (r: Vec<MarblePos>)
    ensures
        r@ == group_of(groups@, kind),
{
    let mut r: Vec<MarblePos> = Vec::new();
    let mut i: usize = 0;
    while i < groups.len()
        invariant
            i <= groups@.len(),
            r@.len() == 0,
            group_from(groups@, kind, i as nat) == group_of(groups@, kind),
        decreases groups@.len() - i,
    {
        if groups[i].0 == kind {
            append(&mut r, &groups[i].1);
            assert(r@ =~= groups@[i as int].1@);
            return r;
        }
        i += 1;
    }
    assert(r@ =~= Seq::<MarblePos>::empty());
    r
}

/// Appends the marbles of `src` to `dst`.
fn append(dst: &mut Vec<MarblePos>, src: &Vec<MarblePos>)
    ensures
        final(dst)@ == old(dst)@ + src@,
{
    let ghost before = dst@;
    let mut j: usize = 0;
    while j < src.len()
        invariant
            j <= src@.len(),
            dst@ == before + src@.take(j as int),
        decreases src@.len() - j,
    {
        dst.push(src[j]);
        proof {
            assert(src@.take(j + 1) =~= src@.take(j as int).push(src@[j as int]));
            assert(dst@ =~= before + src@.take(j + 1));
        }
        j += 1;
    }
    proof {
        assert(src@.take(src@.len() as int) =~= src@);
    }
}

/// Appends one move of `fixed` with each marble of `others` from index
/// `start` on.
fn push_row(
    moves: &mut Vec<Move>,
    fixed: MarblePos,
    others: &Vec<MarblePos>,
    start: usize,
    fixed_first: bool,
)
    requires
        start <= others@.len(),
    ensures
        final(moves)@ == old(moves)@ + row(fixed, others@.skip(start as int), fixed_first),
{
    let ghost before = moves@;
    let ghost all = row(fixed, others@.skip(start as int), fixed_first);
    let mut j: usize = start;
    while j < others.len()
        invariant
            start <= j <= others@.len(),
            all == row(fixed, others@.skip(start as int), fixed_first),
            moves@ == before + all.take(j - start),
        decreases others@.len() - j,
    {
        let other = others[j];
        let m = if fixed_first {
            Move { a: fixed, b: other }
        } else {
            Move { a: other, b: fixed }
        };
        moves.push(m);
        proof {
            assert(all[j - start] == m);
            assert(all.take(j + 1 - start) =~= all.take(j - start).push(m));
            assert(moves@ =~= before + all.take(j + 1 - start));
        }
        j += 1;
    }
    proof {
        assert(all.take(all.len() as int) =~= all);
    }
}

/// Appends one move of each marble of `group` with itself.
fn push_self_pairs(moves: &mut Vec<Move>, group: &Vec<MarblePos>)
    ensures
        final(moves)@ == old(moves)@ + self_pairs(group@),
{
    let ghost before = moves@;
    let ghost all = self_pairs(group@);
    let mut j: usize = 0;
    while j < group.len()
        invariant
            j <= group@.len(),
            all == self_pairs(group@),
            moves@ == before + all.take(j as int),
        decreases group@.len() - j,
    {
        let g = group[j];
        moves.push(Move { a: g, b: g });
        proof {
            assert(all.take(j + 1) =~= all.take(j as int).push(Move { a: g, b: g }));
            assert(moves@ =~= before + all.take(j + 1));
        }
        j += 1;
    }
    proof {
        assert(all.take(all.len() as int) =~= all);
    }
}

/// Appends one move for every two marbles of `group`.
fn push_pairs(moves: &mut Vec<Move>, group: &Vec<MarblePos>)
    ensures
        final(moves)@ == old(moves)@ + pairs(group@),
{
    let ghost before = moves@;
    let mut i: usize = 0;
    while i < group.len()
        invariant
            i <= group@.len(),
            moves@ == before + pairs_upto(group@, i as nat),
        decreases group@.len() - i,
    {
        push_row(moves, group[i], group, i + 1, true);
        proof {
            assert(moves@ =~= before + pairs_upto(group@, (i + 1) as nat));
        }
        i += 1;
    }
}

/// Appends one move for every marble of `outer` with every marble of
/// `inner`.
fn push_cross(
    moves: &mut Vec<Move>,
    outer: &Vec<MarblePos>,
    inner: &Vec<MarblePos>,
    outer_first: bool,
)
    ensures
        final(moves)@ == old(moves)@ + cross(outer@, inner@, outer_first),
{
    let ghost before = moves@;
    let mut i: usize = 0;
    while i < outer.len()
        invariant
            i <= outer@.len(),
            moves@ == before + cross_upto(outer@, inner@, outer_first, i as nat),
        decreases outer@.len() - i,
    {
        push_row(moves, outer[i], inner, 0, outer_first);
        proof {
            assert(inner@.skip(0) =~= inner@);
            assert(moves@ =~= before + cross_upto(outer@, inner@, outer_first, (i + 1) as nat));
        }
        i += 1;
    }
}

/// The moves that the matching rules allow among grouped free marbles,
/// where `least` is the least refined metal on the board.
pub fn moves_from_groups(groups: &Vec<Group>, least: Marble) -> (moves: Vec<Move>)
    ensures
        moves@ == moves_of(|k: Marble| group_of(groups@, k), least),
{
    let ghost by_kind = |k: Marble| group_of(groups@, k);
    let mut moves: Vec<Move> = Vec::with_capacity(40);
    if least == Marble::Gold {
        let golds = find_group(groups, Marble::Gold);
        push_self_pairs(&mut moves, &golds);
    }
    assert(moves@ =~= gold_moves(by_kind, least));
    let ghost s1 = moves@;
    if least.is_metal() && least != Marble::Gold {
        let metals = find_group(groups, least);
        if metals.len() > 0 {
            let mercury = find_group(groups, Marble::Mercury);
            push_row(&mut moves, metals[0], &mercury, 0, true);
            assert(mercury@.skip(0) =~= mercury@);
        }
    }
    assert(moves@ =~= s1 + mercury_moves(by_kind, least));
    let air = find_group(groups, Marble::Air);
    let fire = find_group(groups, Marble::Fire);
    let water = find_group(groups, Marble::Water);
    let earth = find_group(groups, Marble::Earth);
    push_pairs(&mut moves, &air);
    push_pairs(&mut moves, &fire);
    push_pairs(&mut moves, &water);
    push_pairs(&mut moves, &earth);
    let mut all_elementals = air;
    append(&mut all_elementals, &fire);
    append(&mut all_elementals, &water);
    append(&mut all_elementals, &earth);
    assert(all_elementals@ == elementals(by_kind));
    let vitae = find_group(groups, Marble::Vitae);
    let mors = find_group(groups, Marble::Mors);
    push_cross(&mut moves, &mors, &vitae, true);
    let salt = find_group(groups, Marble::Salt);
    push_pairs(&mut moves, &salt);
    push_cross(&mut moves, &salt, &all_elementals, false);
    moves
}

impl Board {
    /// The legal moves of the position: every free Gold alone once Gold is
    /// the least refined metal left; every free Mercury with the first free
    /// marble of the least refined metal; every two free elementals of one
    /// kind; every free Mors with every free Vitae; every two free Salts;
    /// and every free elemental with every free Salt.
    pub fn legal_moves(&self) -> (moves: Vec<Move>)
        ensures
            moves@ == legal_moves_of(self.grid()),
    {
        let free = self.free_marbles();
        let least = self.least_metal();
        let sorted = sort_by_kind(free);
        let groups = group_by_kind(sorted);
        proof {
            reveal(legal_moves_of);
            assert forall|k: Marble| #[trigger]
                group_of(groups@, k) == of_kind(free_seq(self.grid()), k) by {
                lemma_group_of(groups@, k);
                assert(of_kind(sorted@, k) == of_kind(free@, k));
            }
        }
        moves_from_groups(&groups, least)
    }
}

} // verus!
