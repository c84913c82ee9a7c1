//! Randomness, drawn from the process-local generator.
//!
//! Every random draw the engine makes goes through the two wrappers in this
//! module.  Nothing is promised about the distribution of the results — only
//! what holds of every possible outcome — so all verified logic downstream is
//! correct for any draw.

use vstd::prelude::*;

verus! {

/// Mathematical total of a list of weights.
pub open spec fn sum_weights(s: Seq<u32>) -> int
    decreases s.len(),
{
    if s.len() == 0 {
        0
    } else {
        s[0] + sum_weights(s.drop_first())
    }
}

/// The total of a weight list is at least any single entry, and non-negative.
pub proof fn lemma_sum_weights_bounds(s: Seq<u32>)
    ensures
        sum_weights(s) >= 0,
        forall|i: int| 0 <= i < s.len() ==> s[i] <= sum_weights(s),
    decreases s.len(),
{
    if s.len() > 0 {
        lemma_sum_weights_bounds(s.drop_first());
        assert forall|i: int| 0 <= i < s.len() implies s[i] <= sum_weights(s) by {
            if i > 0 {
                assert(s.drop_first()[i - 1] == s[i]);
            }
        }
    }
}

/// Appending one weight adds it to the total.
pub proof fn lemma_sum_weights_push(s: Seq<u32>, w: u32)
    ensures
        sum_weights(s.push(w)) == sum_weights(s) + w,
    decreases s.len(),
{
    if s.len() == 0 {
        assert(s.push(w).drop_first() =~= Seq::<u32>::empty());
        assert(sum_weights(s.push(w)) == w + sum_weights(Seq::<u32>::empty()));
    } else {
        assert(s.push(w).drop_first() =~= s.drop_first().push(w));
        lemma_sum_weights_push(s.drop_first(), w);
        assert(s.push(w)[0] == s[0]);
        assert(sum_weights(s.push(w)) == s[0] + sum_weights(s.drop_first().push(w)));
    }
}

/// A concatenation's total is the totals' sum.
pub proof fn lemma_sum_weights_concat(a: Seq<u32>, b: Seq<u32>)
    ensures
        sum_weights(a + b) == sum_weights(a) + sum_weights(b),
    decreases a.len(),
{
    if a.len() == 0 {
        assert(a + b =~= b);
    } else {
        assert((a + b).drop_first() =~= a.drop_first() + b);
        assert((a + b)[0] == a[0]);
        lemma_sum_weights_concat(a.drop_first(), b);
    }
}

/// Removing one weight subtracts it from the total.
pub proof fn lemma_sum_weights_remove(s: Seq<u32>, i: int)
    requires
        0 <= i < s.len(),
    ensures
        sum_weights(s.remove(i)) == sum_weights(s) - s[i],
{
    let t = s.take(i);
    let u = s.skip(i + 1);
    let mid = seq![s[i]] + u;
    assert(s =~= t + mid);
    assert(s.remove(i) =~= t + u);
    lemma_sum_weights_concat(t, mid);
    lemma_sum_weights_concat(t, u);
    assert(mid.drop_first() =~= u);
    assert(mid[0] == s[i]);
    assert(sum_weights(mid) == s[i] + sum_weights(u));
}

/// Replacing one weight shifts the total by the difference.
pub proof fn lemma_sum_weights_update(s: Seq<u32>, i: int, w: u32)
    requires
        0 <= i < s.len(),
    ensures
        sum_weights(s.update(i, w)) == sum_weights(s) - s[i] + w,
{
    let t = s.take(i);
    let u = s.skip(i + 1);
    let mid_old = seq![s[i]] + u;
    let mid_new = seq![w] + u;
    assert(s =~= t + mid_old);
    assert(s.update(i, w) =~= t + mid_new);
    lemma_sum_weights_concat(t, mid_old);
    lemma_sum_weights_concat(t, mid_new);
    assert(mid_old.drop_first() =~= u);
    assert(mid_old[0] == s[i]);
    assert(sum_weights(mid_old) == s[i] + sum_weights(u));
    assert(mid_new.drop_first() =~= u);
    assert(mid_new[0] == w);
    assert(sum_weights(mid_new) == w + sum_weights(u));
}

/// Relies on `rand::distributions::WeightedIndex`: `new` returns `Err` exactly
/// when the weight list is empty or sums to zero, and `sample` returns an
/// index whose weight is positive, each index drawn with probability
/// proportional to its weight.  `new` sums the weights in their own type, so
/// the caller must keep the total within `u32`.
#[verifier::external_body]
pub(crate) fn sample_weighted(weights: &Vec<u32>) -> (r: Option<usize>)
    requires
        sum_weights(weights@) <= u32::MAX,
    ensures
        match r {
            Some(i) => i < weights@.len() && weights@[i as int] > 0,
            None => forall|i: int| 0 <= i < weights@.len() ==> weights@[i] == 0,
        },
{
    let distribution = match rand::distributions::WeightedIndex::new(weights.iter().copied()) {
        Ok(d) => d,
        Err(_) => return None,
    };
    Some(rand::prelude::Distribution::sample(&distribution, &mut rand::thread_rng()))
}

/// Relies on `rand::seq::SliceRandom::shuffle`: an in-place uniform random
/// permutation of the slice, so the contents are kept exactly.
#[verifier::external_body]
pub(crate) fn shuffle_ids(ids: &mut Vec<i64>)
    ensures
        final(ids)@.to_multiset() == old(ids)@.to_multiset(),
{
    rand::seq::SliceRandom::shuffle(ids.as_mut_slice(), &mut rand::thread_rng());
}

} // verus!
