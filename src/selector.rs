//! Weighted random choice of one backend from a snapshot of the pool.

use rand::Rng;
use vstd::prelude::*;
use vstd::set_lib::{lemma_int_range, set_int_range};

use crate::registry::{views, EntryView, ServiceEntry};

verus! {

/// The sum of the weights of `s`.
pub open spec fn total_weight(s: Seq<EntryView>) -> nat
    decreases s.len(),
{
    if s.len() == 0 {
        0
    } else {
        total_weight(s.drop_last()) + s.last().weight as nat
    }
}

/// The sum of the weights of the entries before position `i`.
pub open spec fn weight_before(s: Seq<EntryView>, i: int) -> nat {
    total_weight(s.take(i))
}

/// A draw `c` picks entry `i` when `c` falls in the span of `i`'s weight on the
/// line of cumulative weights.
pub open spec fn picks(s: Seq<EntryView>, c: int, i: int) -> bool {
    &&& 0 <= i < s.len()
    &&& weight_before(s, i) <= c < weight_before(s, i + 1)
}

proof fn lemma_weight_before_step(s: Seq<EntryView>, i: int)
    requires
        0 <= i < s.len(),
    ensures
        weight_before(s, i + 1) == weight_before(s, i) + s[i].weight,
{
    assert(s.take(i + 1).drop_last() =~= s.take(i));
}

/// Cumulative weights never decrease along the pool.
pub proof fn lemma_weight_before_monotone(s: Seq<EntryView>, i: int, j: int)
    requires
        0 <= i <= j <= s.len(),
    ensures
        weight_before(s, i) <= weight_before(s, j),
    decreases j - i,
{
    if i < j {
        lemma_weight_before_monotone(s, i, j - 1);
        lemma_weight_before_step(s, j - 1);
    }
}

/// The sum of the weights of a slice, without overflow.
pub fn sum_weights(services: &[ServiceEntry]) -> (total: u128)
    ensures
        total == total_weight(views(services@)),
{
    let ghost s = views(services@);
    let mut total: u128 = 0;
    let mut i: usize = 0;
    assert(s.take(0) =~= Seq::<EntryView>::empty());
    while i < services.len()
        invariant
            i <= services.len(),
            s == views(services@),
            total == weight_before(s, i as int),
            total <= i * 0xffff_ffffu128,
        decreases services.len() - i,
    {
        proof {
            lemma_weight_before_step(s, i as int);
            assert(i < 0x1_0000_0000_0000_0000u128);
        }
        total = total + services[i].weight as u128;
        i = i + 1;
    }
    assert(s.take(i as int) =~= s);
    total
}

/// The entry that the draw `choice` picks: the first whose cumulative weight
/// exceeds `choice`. `None` when `choice` is not below the total weight.
pub fn pick_weighted(services: &[ServiceEntry], choice: u128) -> (r: Option<usize>)
    ensures
        match r {
            Some(i) => picks(views(services@), choice as int, i as int),
            None => choice >= total_weight(views(services@)),
        },
{
    let ghost s = views(services@);
    let mut rest: u128 = choice;
    let mut i: usize = 0;
    assert(s.take(0) =~= Seq::<EntryView>::empty());
    while i < services.len()
        invariant
            i <= services.len(),
            s == views(services@),
            weight_before(s, i as int) <= choice,
            rest == choice - weight_before(s, i as int),
        decreases services.len() - i,
    {
        proof {
            lemma_weight_before_step(s, i as int);
        }
        let w = services[i].weight as u128;
        if rest < w {
            return Some(i);
        }
        rest = rest - w;
        i = i + 1;
    }
    assert(s.take(i as int) =~= s);
    None
}

/// Relies on rand's `thread_rng().gen_range(0..bound)`: a number drawn
/// uniformly below `bound`; the range must not be empty.
#[verifier::external_body]
fn random_below(bound: u128) -> (r: u128)
    requires
        bound > 0,
    ensures
        r < bound,
{
    rand::thread_rng().gen_range(0..bound)
}

/// Chooses one entry at random, each with probability proportional to its
/// weight. An empty pool gives `None`; a pool whose weights are all zero gives
/// its first entry.
pub fn select_service(services: &[ServiceEntry]) -> (r: Option<usize>)
    ensures
        r is None <==> services@.len() == 0,
        match r {
            Some(i) => {
                &&& i < services@.len()
                &&& total_weight(views(services@)) == 0 ==> i == 0
                &&& total_weight(views(services@)) > 0 ==> {
                    &&& services@[i as int].weight > 0
                    &&& exists|c: int|
                        0 <= c < total_weight(views(services@)) && #[trigger] picks(
                            views(services@),
                            c,
                            i as int,
                        )
                }
            },
            None => true,
        },
{
    if services.len() == 0 {
        return None;
    }
    let total = sum_weights(services);
    if total == 0 {
        return Some(0);
    }
    let choice = random_below(total);
    match pick_weighted(services, choice) {
        Some(i) => {
            proof {
                let s = views(services@);
                lemma_weight_before_step(s, i as int);
                assert(picks(s, choice as int, i as int));
            }
            Some(i)
        },
        None => Some(0),
    }
}

/// Each draw below the total weight picks at most one entry.
pub proof fn lemma_pick_unique(s: Seq<EntryView>, c: int, i: int, j: int)
    requires
        picks(s, c, i),
        picks(s, c, j),
    ensures
        i == j,
{
    if i < j {
        lemma_weight_before_monotone(s, i + 1, j);
    } else if j < i {
        lemma_weight_before_monotone(s, j + 1, i);
    }
}

/// Of the draws below the total weight, exactly `weight` of them pick a given
/// entry: they form the span between its cumulative weights. A uniform draw
/// thus picks each entry with probability `weight / total`.
pub proof fn lemma_pick_share(s: Seq<EntryView>, i: int)
    requires
        0 <= i < s.len(),
    ensures
        ({
            let draws = Set::new(|c: int| 0 <= c < total_weight(s) && picks(s, c, i));
            &&& draws == set_int_range(weight_before(s, i) as int, weight_before(s, i + 1) as int)
            &&& draws.finite()
            &&& draws.len() == s[i].weight
        }),
{
    let draws = Set::new(|c: int| 0 <= c < total_weight(s) && picks(s, c, i));
    lemma_weight_before_step(s, i);
    lemma_weight_before_monotone(s, i + 1, s.len() as int);
    assert(s.take(s.len() as int) =~= s);
    assert(draws =~= set_int_range(weight_before(s, i) as int, weight_before(s, i + 1) as int));
    lemma_int_range(weight_before(s, i) as int, weight_before(s, i + 1) as int);
}

} // verus!
