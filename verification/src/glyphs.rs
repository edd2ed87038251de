//! Matching an edge image against the sample images of the marble kinds.

use vstd::prelude::*;
use crate::marble::Marble;

verus! {

/// A marble kind together with the edge image of its glyph.
pub type Sample = (Marble, Vec<bool>);

/// Number of places among the first `n` at which both images have a set
/// pixel.
pub open spec fn common_upto(a: Seq<bool>, b: Seq<bool>, n: nat) -> nat
    decreases n,
{
    if n == 0 {
        0
    } else if a[n - 1] && b[n - 1] {
        common_upto(a, b, (n - 1) as nat) + 1
    } else {
        common_upto(a, b, (n - 1) as nat)
    }
}

/// Number of places at which both images have a set pixel.
pub open spec fn common(a: Seq<bool>, b: Seq<bool>) -> nat {
    common_upto(a, b, a.len())
}

/// Whether every set pixel of `a` has a place in `b`.
pub open spec fn covered(a: Seq<bool>, b: Seq<bool>) -> bool {
    forall|i: int| 0 <= i < a.len() && a[i] ==> i < b.len()
}

/// Among `n` places at most `n` are set in both images.
proof fn lemma_common_bound(a: Seq<bool>, b: Seq<bool>, n: nat)
    ensures
        common_upto(a, b, n) <= n,
    decreases n,
{
    if n > 0 {
        lemma_common_bound(a, b, (n - 1) as nat);
    }
}

/// Number of places at which both images have a set pixel.
pub fn matching_pixels(a: &Vec<bool>, b: &Vec<bool>) -> (r: i32)
    requires
        covered(a@, b@),
        a@.len() <= i32::MAX,
    ensures
        r == common(a@, b@),
{
    let mut r: i32 = 0;
    let mut i: usize = 0;
    while i < a.len()
        invariant
            i <= a@.len(),
            a@.len() <= i32::MAX,
            covered(a@, b@),
            r == common_upto(a@, b@, i as nat),
            r <= i,
        decreases a@.len() - i,
    {
        if a[i] && b[i] {
            r += 1;
        }
        i += 1;
    }
    r
}

/// Whether sample `i` is the best match of `image`: it has a set pixel in
/// common with the image, no sample has more, and none before it has as
/// many.
pub open spec fn is_best(image: Seq<bool>, font: Seq<Sample>, i: int) -> bool {
    &&& 0 <= i < font.len()
    &&& common(image, font[i].1@) > 0
    &&& forall|j: int| 0 <= j < font.len() ==> common(image, #[trigger] font[j].1@) <= common(
        image,
        font[i].1@,
    )
    &&& forall|j: int| 0 <= j < i ==> common(image, #[trigger] font[j].1@) < common(
        image,
        font[i].1@,
    )
}

/// Whether no sample has a set pixel in common with `image`.
pub open spec fn no_match(image: Seq<bool>, font: Seq<Sample>) -> bool {
    forall|j: int| 0 <= j < font.len() ==> common(image, #[trigger] font[j].1@) == 0
}

/// The kind whose sample matches `image` best: the first of those that
/// share the most set pixels with it; `Empty` where none shares any.
pub fn best_match(image: &Vec<bool>, font: &Vec<Sample>) -> (m: Marble)
    requires
        image@.len() <= i32::MAX,
        forall|j: int| 0 <= j < font@.len() ==> covered(image@, #[trigger] font@[j].1@),
    ensures
        no_match(image@, font@) ==> m == Marble::Empty,
        !no_match(image@, font@) ==> exists|i: int|
            is_best(image@, font@, i) && m == (#[trigger] font@[i]).0,
{
    let mut best_match = Marble::Empty;
    let mut best_match_count: i32 = 0;
    let ghost mut best: int = -1;
    let mut k: usize = 0;
    while k < font.len()
        invariant
            k <= font@.len(),
            image@.len() <= i32::MAX,
            forall|j: int| 0 <= j < font@.len() ==> covered(image@, #[trigger] font@[j].1@),
            -1 <= best < k,
            best == -1 ==> best_match == Marble::Empty && best_match_count == 0,
            best >= 0 ==> best_match == font@[best].0 && best_match_count == common(
                image@,
                font@[best].1@,
            ) && best_match_count > 0,
            forall|j: int|
                0 <= j < k ==> common(image@, #[trigger] font@[j].1@) <= best_match_count,
            forall|j: int|
                0 <= j < best ==> common(image@, #[trigger] font@[j].1@) < best_match_count,
        decreases font@.len() - k,
    {
        let matching = matching_pixels(image, &font[k].1);
        if matching > best_match_count {
            best_match_count = matching;
            best_match = font[k].0;
            proof {
                best = k as int;
            }
        }
        k += 1;
    }
    proof {
        if best >= 0 {
            assert(is_best(image@, font@, best));
            assert(common(image@, font@[best].1@) > 0);
        }
    }
    best_match
}

} // verus!
