//! The double-bridge perturbation of iterated local search.
use vstd::prelude::*;
use rand::seq::SliceRandom;
use crate::tour::{push_range, same_nodes, sort_ascending};

verus! {

broadcast use vstd::seq_lib::group_seq_properties;

/// Cuts the tour before positions `a <= b <= c <= d` and reconnects the
/// pieces as A + C + B + D' (`path[..a]`, `path[c..d]`, `path[b..c]`,
/// `path[a..b]`, `path[d..]`).
pub open spec fn double_bridge_spec(path: Seq<usize>, a: int, b: int, c: int, d: int) -> Seq<usize> {
    path.subrange(0, a) + path.subrange(c, d) + path.subrange(b, c) + path.subrange(a, b)
        + path.subrange(d, path.len() as int)
}

/// A double bridge moves whole pieces around, so the tour keeps its nodes.
pub proof fn lemma_double_bridge_keeps_nodes(path: Seq<usize>, a: int, b: int, c: int, d: int)
    requires
        0 <= a <= b <= c <= d <= path.len(),
    ensures
        same_nodes(double_bridge_spec(path, a, b, c, d), path),
{
    broadcast use vstd::seq_lib::lemma_multiset_commutative;

    let p0 = path.subrange(0, a);
    let p1 = path.subrange(a, b);
    let p2 = path.subrange(b, c);
    let p3 = path.subrange(c, d);
    let p4 = path.subrange(d, path.len() as int);
    assert(path =~= p0 + p1 + p2 + p3 + p4);
    assert(double_bridge_spec(path, a, b, c, d) =~= p0 + p3 + p2 + p1 + p4);
    assert((p0 + p3 + p2 + p1 + p4).to_multiset() =~= (p0 + p1 + p2 + p3 + p4).to_multiset());
}

/// Reconnects `path` by a double bridge at the given cut positions.
pub fn double_bridge_at(path: &Vec<usize>, a: usize, b: usize, c: usize, d: usize) -> (r: Vec<usize>)
    requires
        a <= b <= c <= d <= path@.len(),
    ensures
        r@ == double_bridge_spec(path@, a as int, b as int, c as int, d as int),
        same_nodes(r@, path@),
{
    let mut new_path: Vec<usize> = Vec::new();
    push_range(&mut new_path, path, 0, a);
    push_range(&mut new_path, path, c, d);
    push_range(&mut new_path, path, b, c);
    push_range(&mut new_path, path, a, b);
    push_range(&mut new_path, path, d, path.len());
    proof {
        lemma_double_bridge_keeps_nodes(path@, a as int, b as int, c as int, d as int);
    }
    new_path
}

/// Shuffles `values` with the thread-local generator of `rand`
/// (`rand::rng()` and `SliceRandom::shuffle`, a Fisher–Yates pass of swaps).
/// Claimed: the result is a rearrangement of the input.  Which rearrangement
/// comes out is left open; `rand::rng()` panics only if the operating
/// system's random source fails when first seeding.
#[verifier::external_body]
fn shuffle_values(values: &mut Vec<usize>)
    ensures
        final(values)@.to_multiset() == old(values)@.to_multiset(),
{
    let mut rng = rand::rng();
    values.shuffle(&mut rng);
}

/// The candidate cut positions of a tour of `n` nodes: `1, 2, ..., n - 2`.
pub fn cut_candidates(n: usize) -> (cuts: Vec<usize>)
    requires
        n >= 2,
    ensures
        cuts@ == Seq::new((n - 2) as nat, |i: int| (i + 1) as usize),
{
    let mut cuts: Vec<usize> = Vec::new();
    let mut c: usize = 1;
    while c < n - 1
        invariant
            1 <= c <= n - 1,
            cuts@ == Seq::new((c - 1) as nat, |i: int| (i + 1) as usize),
        decreases n - 1 - c,
    {
        cuts.push(c);
        c = c + 1;
        assert(cuts@ =~= Seq::new((c - 1) as nat, |i: int| (i + 1) as usize));
    }
    cuts
}

/// The first four of the shuffled, repeat-free candidates, in increasing
/// order.
pub fn pick_cuts(shuffled: &Vec<usize>) -> (r: (usize, usize, usize, usize))
    requires
        shuffled@.len() >= 4,
        shuffled@.no_duplicates(),
    ensures
        r.0 < r.1 < r.2 < r.3,
        seq![r.0, r.1, r.2, r.3].to_multiset() == shuffled@.take(4).to_multiset(),
{
    broadcast use vstd::seq_lib::group_to_multiset_ensures;

    let mut cuts: Vec<usize> = Vec::new();
    push_range(&mut cuts, shuffled, 0, 4);
    let ghost picked = cuts@;
    assert(picked =~= shuffled@.take(4));
    sort_ascending(&mut cuts);
    proof {
        assert(picked.no_duplicates()) by {
            assert forall|i: int, j: int| 0 <= i < j < 4 implies picked[i] != picked[j] by {
                assert(picked[i] == shuffled@[i] && picked[j] == shuffled@[j]);
            }
        }
        picked.lemma_multiset_has_no_duplicates();
        cuts@.lemma_multiset_has_no_duplicates_conv();
        assert(cuts@.len() == 4) by {
            assert(cuts@.to_multiset().len() == picked.to_multiset().len());
        }
        assert(cuts@[0] != cuts@[1] && cuts@[1] != cuts@[2] && cuts@[2] != cuts@[3]);
        assert(seq![cuts@[0], cuts@[1], cuts@[2], cuts@[3]] =~= cuts@);
    }
    (cuts[0], cuts[1], cuts[2], cuts[3])
}

/// Double-bridge move with four random cut positions: tours of fewer than 8
/// nodes come back unchanged; otherwise four distinct positions
/// `1 <= a < b < c < d <= n - 2` are drawn and the tour is reconnected there.
pub fn double_bridge(path: &[usize]) -> (r: Vec<usize>)
    ensures
        path@.len() < 8 ==> r@ == path@,
        path@.len() >= 8 ==> exists|a: int, b: int, c: int, d: int|
            1 <= a < b < c < d <= path@.len() - 2 && r@ == double_bridge_spec(
                path@,
                a,
                b,
                c,
                d,
            ),
        same_nodes(r@, path@),
{
    broadcast use vstd::seq_lib::group_to_multiset_ensures;

    let n = path.len();
    let mut whole: Vec<usize> = Vec::new();
    let mut k: usize = 0;
    while k < n
        invariant
            k <= n,
            n == path@.len(),
            whole@ == path@.subrange(0, k as int),
        decreases n - k,
    {
        whole.push(path[k]);
        k = k + 1;
        assert(whole@ =~= path@.subrange(0, k as int));
    }
    assert(whole@ =~= path@);
    if n < 8 {
        return whole;
    }
    let mut cuts = cut_candidates(n);
    let ghost candidates = cuts@;
    shuffle_values(&mut cuts);
    proof {
        assert(candidates.no_duplicates());
        candidates.lemma_multiset_has_no_duplicates();
        cuts@.lemma_multiset_has_no_duplicates_conv();
        assert(cuts@.len() == n - 2) by {
            assert(cuts@.to_multiset().len() == candidates.to_multiset().len());
        }
    }
    let (a, b, c, d) = pick_cuts(&cuts);
    proof {
        let picked = seq![a, b, c, d];
        assert forall|i: int| 0 <= i < 4 implies 1 <= #[trigger] picked[i] <= n - 2 by {
            assert(picked.to_multiset().count(picked[i]) > 0);
            assert(cuts@.take(4).to_multiset().count(picked[i]) > 0);
            let j = choose|j: int| 0 <= j < 4 && cuts@.take(4)[j] == picked[i];
            assert(cuts@[j] == picked[i]);
            assert(cuts@.to_multiset().count(picked[i]) > 0);
            assert(candidates.to_multiset().count(picked[i]) > 0);
            let k = choose|k: int| 0 <= k < candidates.len() && candidates[k] == picked[i];
        }
        assert(picked[0] == a && picked[3] == d);
    }
    let r = double_bridge_at(&whole, a, b, c, d);
    assert(1 <= a < b < c < d <= n - 2);
    r
}

} // verus!
