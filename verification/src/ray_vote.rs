//! The decisions of ray-cast classification: each cast ray reports how many
//! times it crossed the other shell (signed by direction), and an odd count
//! means the start point is inside. Votes over several rays and two
//! perturbed start points decide whether a face lies inside (1) or outside
//! (0) the other shell.
use vstd::prelude::*;

verus! {

/// A crossing count means inside when it is odd.
pub open spec fn is_odd_count(c: isize) -> bool {
    c % 2 != 0
}

/// The class a crossing count gives: 1 (inside) when odd, 0 when even.
pub open spec fn parity_class_spec(c: isize) -> isize {
    if is_odd_count(c) {
        1
    } else {
        0
    }
}

/// The class a crossing count gives: 1 (inside) when odd, 0 (outside) when
/// even.
pub fn parity_class(c: isize) -> (r: isize)
    ensures
        r == parity_class_spec(c),
{
    if c % 2 != 0 {
        1
    } else {
        0
    }
}

/// How many of the first `n` rays report an odd crossing count.
pub open spec fn inside_votes(cs: Seq<Option<isize>>, n: int) -> nat
    decreases n,
{
    if n <= 0 {
        0
    } else {
        inside_votes(cs, n - 1) + match cs[n - 1] {
            Some(c) => if is_odd_count(c) {
                1nat
            } else {
                0nat
            },
            None => 0nat,
        }
    }
}

/// How many of the first `n` rays report an even crossing count.
pub open spec fn outside_votes(cs: Seq<Option<isize>>, n: int) -> nat
    decreases n,
{
    if n <= 0 {
        0
    } else {
        outside_votes(cs, n - 1) + match cs[n - 1] {
            Some(c) => if is_odd_count(c) {
                0nat
            } else {
                1nat
            },
            None => 0nat,
        }
    }
}

/// The majority vote of the rays: inside when at least three rays say so,
/// else outside when at least three say so, else undecided. Rays that failed
/// (`None`) do not vote.
pub open spec fn majority_spec(cs: Seq<Option<isize>>) -> Option<isize> {
    if inside_votes(cs, cs.len() as int) >= 3 {
        Some(1)
    } else if outside_votes(cs, cs.len() as int) >= 3 {
        Some(0)
    } else {
        None
    }
}

/// The majority vote of the rays cast from one point (see `majority_spec`).
pub fn majority_vote(crossings: &Vec<Option<isize>>) -> (r: Option<isize>)
    ensures
        r == majority_spec(crossings@),
{
    let ghost cs = crossings@;
    let mut inside: usize = 0;
    let mut outside: usize = 0;
    let mut i: usize = 0;
    while i < crossings.len()
        invariant
            cs == crossings@,
            i <= cs.len(),
            inside == inside_votes(cs, i as int),
            outside == outside_votes(cs, i as int),
            inside + outside <= i,
        decreases cs.len() - i,
    {
        match crossings[i] {
            Some(c) => {
                if c % 2 != 0 {
                    inside = inside + 1;
                } else {
                    outside = outside + 1;
                }
            },
            None => {},
        }
        i = i + 1;
    }
    if inside >= 3 {
        Some(1)
    } else if outside >= 3 {
        Some(0)
    } else {
        None
    }
}

/// The vote of a point from the votes of its two perturbed copies: when both
/// decide, their common class, or outside (0) when they disagree — the point
/// then lies on the other shell's boundary; otherwise whichever decided.
pub open spec fn combined_spec(pos: Option<isize>, neg: Option<isize>) -> Option<isize> {
    match (pos, neg) {
        (Some(a), Some(b)) => if a == b {
            Some(a)
        } else {
            Some(0)
        },
        (Some(a), None) => Some(a),
        (None, Some(b)) => Some(b),
        (None, None) => None,
    }
}

/// The vote of a point from the votes of its two perturbed copies (see
/// `combined_spec`).
pub fn combine_votes(pos: Option<isize>, neg: Option<isize>) -> (r: Option<isize>)
    ensures
        r == combined_spec(pos, neg),
{
    match (pos, neg) {
        (Some(a), Some(b)) => if a == b {
            Some(a)
        } else {
            Some(0)
        },
        (Some(a), None) => Some(a),
        (None, Some(b)) => Some(b),
        (None, None) => None,
    }
}

/// A point's vote is always a class when it decides: inside or outside.
pub proof fn votes_are_classes(cs1: Seq<Option<isize>>, cs2: Seq<Option<isize>>)
    ensures
        combined_spec(majority_spec(cs1), majority_spec(cs2)) matches Some(c) ==> c == 0 || c == 1,
{
}

/// How the two perturbed votes combine: two decided votes that agree give
/// that vote; two decided votes that disagree mean the point lies on the
/// other solid's boundary, which counts as outside (0); a single decided vote
/// is taken; no decided vote gives none. The order of the two does not
/// matter.
pub proof fn combined_vote_law(pos: Option<isize>, neg: Option<isize>)
    ensures
        forall|a: isize| #[trigger] combined_spec(Some(a), Some(a)) == Some(a),
        forall|a: isize, b: isize| a != b ==> #[trigger] combined_spec(Some(a), Some(b)) == Some(0isize),
        forall|a: isize| #[trigger] combined_spec(Some(a), None) == Some(a),
        forall|a: isize| #[trigger] combined_spec(None, Some(a)) == Some(a),
        combined_spec(pos, neg) is None <==> (pos is None && neg is None),
        combined_spec(pos, neg) == combined_spec(neg, pos),
{
}

/// An odd crossing count means inside (1), an even one outside (0),
/// whatever the sign of the count.
pub proof fn parity_class_law(k: isize)
    requires
        isize::MIN <= 2 * k + 1 <= isize::MAX,
        isize::MIN <= 2 * k <= isize::MAX,
    ensures
        parity_class_spec((2 * k) as isize) == 0,
        parity_class_spec((2 * k + 1) as isize) == 1,
{
}

proof fn lemma_votes_bound(cs: Seq<Option<isize>>, n: int)
    requires
        0 <= n <= cs.len(),
    ensures
        inside_votes(cs, n) + outside_votes(cs, n) <= n,
    decreases n,
{
    if n > 0 {
        lemma_votes_bound(cs, n - 1);
    }
}

/// The ray crossed the other shell an odd number of times.
pub open spec fn odd_ray(x: Option<isize>) -> bool {
    x matches Some(c) && c % 2 != 0
}

/// The ray crossed the other shell an even number of times.
pub open spec fn even_ray(x: Option<isize>) -> bool {
    x matches Some(c) && c % 2 == 0
}

proof fn lemma_votes_unanimous(cs: Seq<Option<isize>>, n: int, odd: bool)
    requires
        0 <= n <= cs.len(),
        odd ==> forall|k: int| 0 <= k < cs.len() ==> odd_ray(#[trigger] cs[k]),
        !odd ==> forall|k: int| 0 <= k < cs.len() ==> even_ray(#[trigger] cs[k]),
    ensures
        odd ==> inside_votes(cs, n) == n,
        !odd ==> outside_votes(cs, n) == n,
    decreases n,
{
    if n > 0 {
        lemma_votes_unanimous(cs, n - 1, odd);
        if odd {
            assert(odd_ray(cs[n - 1]));
        } else {
            assert(even_ray(cs[n - 1]));
        }
    }
}

/// The majority vote needs three agreeing rays: with fewer than three rays
/// it never decides; when at least three rays all cross an odd number of
/// times it says inside, and when at least three all cross an even number of
/// times it says outside.
pub proof fn majority_vote_law(cs: Seq<Option<isize>>)
    ensures
        cs.len() < 3 ==> majority_spec(cs) is None,
        (cs.len() >= 3 && forall|k: int| 0 <= k < cs.len() ==> odd_ray(#[trigger] cs[k])) ==> majority_spec(cs) == Some(1isize),
        (cs.len() >= 3 && forall|k: int| 0 <= k < cs.len() ==> even_ray(#[trigger] cs[k])) ==> majority_spec(cs) == Some(0isize),
{
    lemma_votes_bound(cs, cs.len() as int);
    if forall|k: int| 0 <= k < cs.len() ==> odd_ray(#[trigger] cs[k]) {
        lemma_votes_unanimous(cs, cs.len() as int, true);
    }
    if forall|k: int| 0 <= k < cs.len() ==> even_ray(#[trigger] cs[k]) {
        lemma_votes_unanimous(cs, cs.len() as int, false);
    }
}

} // verus!
