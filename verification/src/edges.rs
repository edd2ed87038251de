//! Linking weak edge pixels to strong ones.

use vstd::prelude::*;
use vstd::arithmetic::div_mod::{lemma_fundamental_div_mod, lemma_fundamental_div_mod_converse};
use std::collections::VecDeque;

verus! {

/// How strongly a pixel is held to lie on an edge.
#[derive(PartialEq, Eq, Debug, Clone, Copy, Structural)]
pub enum CannyLabel {
    Strong,
    Weak,
    Suppressed,
}

/// Column step to the `k`-th of the eight neighbours of a pixel.
pub open spec fn step_x(k: int) -> int {
    if k < 3 {
        -1
    } else if k < 5 {
        0
    } else {
        1
    }
}

/// Row step to the `k`-th of the eight neighbours of a pixel.
pub open spec fn step_y(k: int) -> int {
    if k == 0 || k == 3 || k == 5 {
        -1
    } else if k == 2 || k == 6 {
        0
    } else {
        1
    }
}

/// The place among the eight neighbours of the one that lies `dx` columns
/// and `dy` rows away.
pub open spec fn step_index(dx: int, dy: int) -> int {
    if dx == -1 {
        if dy == -1 {
            0
        } else if dy == 1 {
            1
        } else {
            2
        }
    } else if dx == 0 {
        if dy == -1 {
            3
        } else {
            4
        }
    } else {
        if dy == -1 {
            5
        } else if dy == 0 {
            6
        } else {
            7
        }
    }
}

/// Whether pixels `i` and `j` of an image of width `w` touch, by a side or
/// by a corner.
pub open spec fn adjacent(w: int, i: int, j: int) -> bool {
    let dx = j % w - i % w;
    let dy = j / w - i / w;
    -1 <= dx <= 1 && -1 <= dy <= 1 && !(dx == 0 && dy == 0)
}

/// The place of pixel `j` among the neighbours of pixel `i`.
pub open spec fn neighbour_index(w: int, i: int, j: int) -> int {
    step_index(j % w - i % w, j / w - i / w)
}

/// Whether `path` is a chain of pixels that starts at a strong pixel and
/// goes on over weak pixels, each touching the one before it.
pub open spec fn is_chain(labels: Seq<CannyLabel>, w: int, path: Seq<int>) -> bool {
    &&& path.len() > 0
    &&& forall|k: int| 0 <= k < path.len() ==> 0 <= #[trigger] path[k] < labels.len()
    &&& labels[path[0]] == CannyLabel::Strong
    &&& forall|k: int|
        0 < k < path.len() ==> labels[#[trigger] path[k]] == CannyLabel::Weak && adjacent(
            w,
            path[k - 1],
            path[k],
        )
}

/// Whether pixel `i` is strong, or weak and joined to a strong pixel by a
/// chain of weak pixels that touch.
pub open spec fn linked(labels: Seq<CannyLabel>, w: int, i: int) -> bool {
    exists|path: Seq<int>| #[trigger] is_chain(labels, w, path) && path.last() == i
}

/// Number of weak pixels among the first `n`.
pub open spec fn weak_upto(s: Seq<CannyLabel>, n: nat) -> nat
    decreases n,
{
    if n == 0 {
        0
    } else if s[n - 1] == CannyLabel::Weak {
        weak_upto(s, (n - 1) as nat) + 1
    } else {
        weak_upto(s, (n - 1) as nat)
    }
}

/// What holds of the labels `cur` while weak pixels of `start` are made
/// strong: no pixel changes but from weak to strong, and every strong one
/// is linked.
pub open spec fn sound(start: Seq<CannyLabel>, cur: Seq<CannyLabel>, w: int) -> bool {
    &&& cur.len() == start.len()
    &&& forall|i: int|
        0 <= i < cur.len() ==> {
            &&& start[i] == CannyLabel::Strong ==> #[trigger] cur[i] == CannyLabel::Strong
            &&& start[i] == CannyLabel::Suppressed <==> cur[i] == CannyLabel::Suppressed
            &&& cur[i] == CannyLabel::Strong ==> linked(start, w, i)
        }
}

/// Whether pixel `a` waits in `queue`.
pub open spec fn waits(queue: Seq<usize>, a: int) -> bool {
    exists|q: int| 0 <= q < queue.len() && #[trigger] queue[q] == a
}

/// Whether every strong pixel that touches a weak one is still waiting in
/// `queue`; of pixel `i` only the neighbours from the `k`-th on may be weak
/// without it.
pub open spec fn frontier(cur: Seq<CannyLabel>, w: int, queue: Seq<usize>, i: int, k: int) -> bool {
    forall|a: int, j: int|
        0 <= a < cur.len() && 0 <= j < cur.len() && cur[a] == CannyLabel::Strong && cur[j]
            == CannyLabel::Weak && #[trigger] adjacent(w, a, j) ==> waits(queue, a) || (a
            == i && neighbour_index(w, i, j) >= k)
}

/// Whether every pixel that waits in `queue` is a strong pixel of `cur`.
pub open spec fn queued(cur: Seq<CannyLabel>, queue: Seq<usize>) -> bool {
    forall|q: int|
        0 <= q < queue.len() ==> (#[trigger] queue[q]) < cur.len() && cur[queue[q] as int]
            == CannyLabel::Strong
}

/// The pixel at column `x` of row `y` has index `y * w + x`, from which
/// column and row are found again.
proof fn lemma_cell(w: int, h: int, x: int, y: int)
    requires
        0 <= x < w,
        0 <= y < h,
    ensures
        0 <= y * w + x < w * h,
        (y * w + x) % w == x,
        (y * w + x) / w == y,
{
    lemma_fundamental_div_mod_converse(y * w + x, w, y, x);
    assert(0 <= y * w && y * w + w <= w * h) by (nonlinear_arith)
        requires
            0 <= y < h,
            0 < w,
    ;
}

/// Column and row of a pixel lie inside the image, and give its index.
proof fn lemma_coords(w: int, h: int, j: int)
    requires
        0 <= j < w * h,
        0 < w,
    ensures
        0 <= j % w < w,
        0 <= j / w < h,
        j == (j / w) * w + j % w,
{
    lemma_fundamental_div_mod(j, w);
    let q = j / w;
    assert(q * w == w * q) by (nonlinear_arith);
    assert(0 <= q < h) by (nonlinear_arith)
        requires
            0 <= j < w * h,
            0 < w,
            j == w * q + j % w,
            0 <= j % w < w,
    ;
}

/// Making a weak pixel strong lowers the count of weak pixels by one, once
/// the count has passed it.
proof fn lemma_weak_update(s: Seq<CannyLabel>, t: int, n: nat)
    requires
        0 <= t < s.len(),
        n <= s.len(),
        s[t] == CannyLabel::Weak,
    ensures
        weak_upto(s.update(t, CannyLabel::Strong), n) + (if t < n {
            1nat
        } else {
            0nat
        }) == weak_upto(s, n),
    decreases n,
{
    if n > 0 {
        lemma_weak_update(s, t, (n - 1) as nat);
    }
}

/// The neighbour of `i` that lies `step_x(k)` columns and `step_y(k)` rows
/// away is the only pixel with place `k` among the neighbours of `i`.
proof fn lemma_only_neighbour(w: int, h: int, i: int, j: int, k: int)
    requires
        0 < w,
        0 <= i < w * h,
        0 <= j < w * h,
        0 <= k < 8,
        adjacent(w, i, j),
        neighbour_index(w, i, j) == k,
    ensures
        0 <= i % w + step_x(k) < w,
        0 <= i / w + step_y(k) < h,
        j == (i / w + step_y(k)) * w + (i % w + step_x(k)),
{
    lemma_coords(w, h, j);
    lemma_coords(w, h, i);
}

/// A chain to a pixel, lengthened by a weak pixel that touches it, is a
/// chain to that weak pixel.
proof fn lemma_chain_step(labels: Seq<CannyLabel>, w: int, t: int, i: int)
    requires
        0 <= t < labels.len(),
        labels[t] == CannyLabel::Weak,
        adjacent(w, i, t),
        linked(labels, w, i),
    ensures
        linked(labels, w, t),
{
    let path = choose|path: Seq<int>| #[trigger] is_chain(labels, w, path) && path.last() == i;
    let longer = path.push(t);
    assert forall|k: int| 0 < k < longer.len() implies labels[#[trigger] longer[k]]
        == CannyLabel::Weak && adjacent(w, longer[k - 1], longer[k]) by {
        if k < path.len() {
            assert(labels[path[k]] == CannyLabel::Weak && adjacent(w, path[k - 1], path[k]));
        }
    }
    assert forall|k: int| 0 <= k < longer.len() implies 0 <= #[trigger] longer[k]
        < labels.len() by {
        if k < path.len() {
            assert(0 <= path[k] < labels.len());
        }
    }
    assert(longer[0] == path[0]);
    assert(is_chain(labels, w, longer) && longer.last() == t);
}

/// Making a weak neighbour of a strong pixel strong, and letting it wait,
/// keeps what holds of the labels.
proof fn lemma_mark(
    start: Seq<CannyLabel>,
    cur: Seq<CannyLabel>,
    w: int,
    h: int,
    queue: Seq<usize>,
    i: int,
    k: int,
    t: usize,
)
    requires
        0 < w,
        cur.len() == w * h,
        0 <= t < cur.len(),
        sound(start, cur, w),
        frontier(cur, w, queue, i, k),
        queued(cur, queue),
        0 <= i < cur.len(),
        cur[i] == CannyLabel::Strong,
        0 <= k < 8,
        0 <= i % w + step_x(k) < w,
        0 <= i / w + step_y(k) < h,
        t == (i / w + step_y(k)) * w + (i % w + step_x(k)),
        cur[t as int] == CannyLabel::Weak,
    ensures
        sound(start, cur.update(t as int, CannyLabel::Strong), w),
        frontier(cur.update(t as int, CannyLabel::Strong), w, queue.push(t), i, k + 1),
        queued(cur.update(t as int, CannyLabel::Strong), queue.push(t)),
{
    let cur2 = cur.update(t as int, CannyLabel::Strong);
    let queue2 = queue.push(t);
    lemma_cell(w, h, i % w + step_x(k), i / w + step_y(k));
    lemma_coords(w, h, i);
    assert(adjacent(w, t as int, i));
    assert(start[t as int] == CannyLabel::Weak);
    assert(adjacent(w, i, t as int));
    assert(linked(start, w, i));
    lemma_chain_step(start, w, t as int, i);
    assert forall|a: int, j: int|
        0 <= a < cur2.len() && 0 <= j < cur2.len() && cur2[a] == CannyLabel::Strong && cur2[j]
            == CannyLabel::Weak && #[trigger] adjacent(w, a, j) implies waits(queue2, a)
        || (a == i && neighbour_index(w, i, j) >= k + 1) by {
        if a == t {
            assert(queue2[queue.len() as int] == t);
        } else {
            assert(cur[a] == CannyLabel::Strong && cur[j] == CannyLabel::Weak);
            if waits(queue, a) {
                let q = choose|q: int| 0 <= q < queue.len() && #[trigger] queue[q] == a;
                assert(queue2[q] == a);
            } else {
                if neighbour_index(w, i, j) == k {
                    lemma_only_neighbour(w, h, i, j, k);
                }
            }
        }
    }
    assert forall|q: int| 0 <= q < queue2.len() implies (#[trigger] queue2[q]) < cur2.len()
        && cur2[queue2[q] as int] == CannyLabel::Strong by {
        if q < queue.len() {
            assert(queue[q] < cur.len() && cur[queue[q] as int] == CannyLabel::Strong);
        }
    }
}

/// Where the `k`-th neighbour of `i` is not weak, or lies outside the
/// image, it need not be looked at again.
proof fn lemma_skip(cur: Seq<CannyLabel>, w: int, h: int, queue: Seq<usize>, i: int, k: int)
    requires
        0 < w,
        cur.len() == w * h,
        frontier(cur, w, queue, i, k),
        0 <= i < cur.len(),
        0 <= k < 8,
        ({
            let tx = i % w + step_x(k);
            let ty = i / w + step_y(k);
            0 <= tx < w && 0 <= ty < h ==> cur[ty * w + tx] != CannyLabel::Weak
        }),
    ensures
        frontier(cur, w, queue, i, k + 1),
{
    assert forall|a: int, j: int|
        0 <= a < cur.len() && 0 <= j < cur.len() && cur[a] == CannyLabel::Strong && cur[j]
            == CannyLabel::Weak && #[trigger] adjacent(w, a, j) implies waits(queue, a)
        || (a == i && neighbour_index(w, i, j) >= k + 1) by {
        if !waits(queue, a) && neighbour_index(w, i, j) == k {
            lemma_only_neighbour(w, h, i, j, k);
        }
    }
}

/// Once no strong pixel touches a weak one, every pixel of a chain is
/// strong.
proof fn lemma_complete(
    start: Seq<CannyLabel>,
    cur: Seq<CannyLabel>,
    w: int,
    path: Seq<int>,
    k: int,
)
    requires
        sound(start, cur, w),
        frontier(cur, w, Seq::<usize>::empty(), 0, 8),
        is_chain(start, w, path),
        0 <= k < path.len(),
    ensures
        cur[path[k]] == CannyLabel::Strong,
    decreases k,
{
    let i = path[k];
    assert(0 <= i < start.len());
    if k > 0 {
        lemma_complete(start, cur, w, path, k - 1);
        let j = path[k - 1];
        assert(0 <= j < start.len());
        assert(start[i] == CannyLabel::Weak && adjacent(w, j, i));
        assert(cur[i] != CannyLabel::Suppressed);
        if cur[i] == CannyLabel::Weak {
            assert(waits(Seq::<usize>::empty(), j) || (j == 0 && neighbour_index(w, 0, i) >= 8));
        }
    } else {
        assert(start[i] == CannyLabel::Strong);
    }
}

/// The `k`-th of the eight neighbours of pixel `(x, y)` in an image of `w`
/// columns and `h` rows, if it lies inside the image.
fn neighbour(w: usize, h: usize, x: usize, y: usize, k: usize) -> (t: Option<usize>)
    requires
        x < w,
        y < h,
        k < 8,
        w * h <= usize::MAX,
    ensures
        t.is_some() <==> 0 <= x + step_x(k as int) < w && 0 <= y + step_y(k as int) < h,
        t.is_some() ==> t.unwrap() == (y + step_y(k as int)) * w + (x + step_x(k as int))
            && t.unwrap() < w * h,
{
    let tx: usize = if k < 3 {
        if x == 0 {
            return None;
        }
        x - 1
    } else if k < 5 {
        x
    } else {
        if x + 1 >= w {
            return None;
        }
        x + 1
    };
    let ty: usize = if k == 0 || k == 3 || k == 5 {
        if y == 0 {
            return None;
        }
        y - 1
    } else if k == 2 || k == 6 {
        y
    } else {
        if y + 1 >= h {
            return None;
        }
        y + 1
    };
    proof {
        lemma_cell(w as int, h as int, tx as int, ty as int);
    }
    Some(ty * w + tx)
}

/// Marks the edge pixels of an image of `w` columns and `h` rows: the
/// strong pixels, and the weak ones that are joined to a strong pixel over
/// weak pixels that touch by a side or a corner.
pub fn hysteresis(labels: Vec<CannyLabel>, w: usize, h: usize) -> (edges: Vec<bool>)
    requires
        labels@.len() == w * h,
    ensures
        edges@.len() == labels@.len(),
        forall|i: int| 0 <= i < edges@.len() ==> edges@[i] == linked(labels@, w as int, i),
{
    let ghost start = labels@;
    let mut cur = labels;
    let n = cur.len();
    let mut queue: VecDeque<usize> = VecDeque::with_capacity(40);
    let mut s: usize = 0;
    while s < n
        invariant
            s <= n,
            n == cur@.len(),
            cur@ == start,
            queued(cur@, queue@),
            forall|a: int|
                0 <= a < s && cur@[a] == CannyLabel::Strong ==> waits(queue@, a),
        decreases n - s,
    {
        if cur[s] == CannyLabel::Strong {
            let ghost before = queue@;
            queue.push_back(s);
            proof {
                assert(queue@[before.len() as int] == s);
                assert forall|a: int|
                    0 <= a < s && cur@[a] == CannyLabel::Strong implies waits(queue@, a) by {
                    let q = choose|q: int| 0 <= q < before.len() && #[trigger] before[q] == a;
                    assert(queue@[q] == a);
                }
            }
        }
        s += 1;
    }
    proof {
        assert forall|i: int| 0 <= i < cur@.len() && cur@[i] == CannyLabel::Strong implies linked(
            start,
            w as int,
            i,
        ) by {
            let path = seq![i];
            assert(path[0] == i);
            assert(is_chain(start, w as int, path) && path.last() == i);
        }
    }
    loop
        invariant
            n == cur@.len(),
            n == w * h,
            sound(start, cur@, w as int),
            frontier(cur@, w as int, queue@, 0, 8),
            queued(cur@, queue@),
        ensures
            queue@.len() == 0,
        decreases weak_upto(cur@, n as nat), queue@.len(),
    {
        let ghost waiting = queue@;
        let ghost weak = weak_upto(cur@, n as nat);
        let i = match queue.pop_front() {
            Some(i) => i,
            None => {
                break ;
            },
        };
        assert(waiting[0] == i);
        assert(w > 0) by (nonlinear_arith)
            requires
                i < w * h,
        ;
        let x = i % w;
        let y = i / w;
        proof {
            lemma_coords(w as int, h as int, i as int);
            assert forall|a: int, j: int|
                0 <= a < cur@.len() && 0 <= j < cur@.len() && cur@[a] == CannyLabel::Strong
                    && cur@[j] == CannyLabel::Weak && #[trigger] adjacent(
                    w as int,
                    a,
                    j,
                ) implies waits(queue@, a) || (a == i && neighbour_index(
                w as int,
                i as int,
                j,
            ) >= 0) by {
                let q = choose|q: int| 0 <= q < waiting.len() && #[trigger] waiting[q] == a;
                if q > 0 {
                    assert(queue@[q - 1] == a);
                }
            }
            assert forall|q: int| 0 <= q < queue@.len() implies (#[trigger] queue@[q]) < cur@.len()
                && cur@[queue@[q] as int] == CannyLabel::Strong by {
                assert(waiting[q + 1] < cur@.len());
            }
        }
        let mut k: usize = 0;
        while k < 8
            invariant
                k <= 8,
                n == cur@.len(),
                n == w * h,
                0 < w,
                i < n,
                x == i % w,
                y == i / w,
                x < w,
                y < h,
                cur@[i as int] == CannyLabel::Strong,
                sound(start, cur@, w as int),
                frontier(cur@, w as int, queue@, i as int, k as int),
                queued(cur@, queue@),
                weak_upto(cur@, n as nat) <= weak,
                weak_upto(cur@, n as nat) == weak ==> queue@.len() + 1 == waiting.len(),
            decreases 8 - k,
        {
            match neighbour(w, h, x, y, k) {
                Some(t) => {
                    if cur[t] == CannyLabel::Weak {
                        proof {
                            lemma_mark(
                                start,
                                cur@,
                                w as int,
                                h as int,
                                queue@,
                                i as int,
                                k as int,
                                t,
                            );
                            lemma_weak_update(cur@, t as int, n as nat);
                        }
                        cur.set(t, CannyLabel::Strong);
                        queue.push_back(t);
                    } else {
                        proof {
                            lemma_skip(cur@, w as int, h as int, queue@, i as int, k as int);
                        }
                    }
                },
                None => {
                    proof {
                        lemma_skip(cur@, w as int, h as int, queue@, i as int, k as int);
                    }
                },
            }
            k += 1;
        }
        proof {
            assert forall|a: int, j: int|
                0 <= a < cur@.len() && 0 <= j < cur@.len() && cur@[a] == CannyLabel::Strong
                    && cur@[j] == CannyLabel::Weak && #[trigger] adjacent(
                    w as int,
                    a,
                    j,
                ) implies waits(queue@, a) || (a == 0 && neighbour_index(
                w as int,
                0,
                j,
            ) >= 8) by {
                assert(neighbour_index(w as int, i as int, j) < 8);
            }
        }
    }
    proof {
        assert(queue@ =~= Seq::<usize>::empty());
    }
    let mut edges: Vec<bool> = Vec::with_capacity(n);
    let mut e: usize = 0;
    while e < n
        invariant
            e <= n,
            n == cur@.len(),
            edges@.len() == e,
            sound(start, cur@, w as int),
            frontier(cur@, w as int, Seq::<usize>::empty(), 0, 8),
            forall|i: int| 0 <= i < e ==> edges@[i] == linked(start, w as int, i),
        decreases n - e,
    {
        let strong = cur[e] == CannyLabel::Strong;
        proof {
            if linked(start, w as int, e as int) {
                let path = choose|path: Seq<int>| #[trigger]
                    is_chain(start, w as int, path) && path.last() == e as int;
                lemma_complete(start, cur@, w as int, path, path.len() - 1);
            }
        }
        edges.push(strong);
        e += 1;
    }
    edges
}

} // verus!
