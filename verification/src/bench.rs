//! What the end-to-end bench makes of what it sees: when it has its fill, and
//! what its latency measurements come to.
use crate::types::Fill;
use vstd::prelude::*;
use vstd::relations::{sorted_by, total_ordering};
use vstd::seq_lib::{
    lemma_sorted_unique, to_multiset_build, to_multiset_contains, to_multiset_insert,
    to_multiset_len,
};

verus! {

/// What a bench client that waits for a fill sees next.
#[derive(Debug, Clone, Copy, PartialEq, Eq, Structural)]
pub enum Sighting {
    /// A text, and the fill that it holds if it holds one.
    Text(Option<Fill>),
    /// A message that is no text.
    Other,
    /// An error of the connection.
    Failed,
    /// The end of the connection.
    Closed,
    /// Nothing within the time that was left.
    TimedOut,
}

/// How the client goes on.
#[derive(Debug, Clone, Copy, PartialEq, Eq, Structural)]
pub enum FillWait {
    /// The fill is there.
    Got(Fill),
    /// Wait for the next message.
    Wait,
    /// There will be no fill.
    Lost(Sighting),
}

/// Whether a client that waits for a fill and has `seen` something goes on by
/// `next`.
pub open spec fn waits(seen: Sighting, next: FillWait) -> bool {
    match seen {
        Sighting::Text(Some(fill)) => next == FillWait::Got(fill),
        Sighting::Text(None) | Sighting::Other => next == FillWait::Wait,
        Sighting::Failed | Sighting::Closed | Sighting::TimedOut => next == FillWait::Lost(seen),
    }
}

/// A client has its fill exactly when it has seen one, that very fill; it gives
/// up exactly at the end of its connection or of its time, and says which.
pub proof fn client_waits_for_its_fill(seen: Sighting, next: FillWait)
    requires
        waits(seen, next),
    ensures
        forall|fill: Fill| seen == Sighting::Text(Some(fill)) <==> next == FillWait::Got(fill),
        next is Lost <==> seen is Failed || seen is Closed || seen is TimedOut,
        next matches FillWait::Lost(why) ==> why == seen,
{
}

/// How a client that waits for a fill goes on.
pub fn fill_wait(seen: Sighting) -> (next: FillWait)
    ensures
        next == match seen {
            Sighting::Text(Some(fill)) => FillWait::Got(fill),
            Sighting::Text(None) | Sighting::Other => FillWait::Wait,
            Sighting::Failed | Sighting::Closed | Sighting::TimedOut => FillWait::Lost(seen),
        },
        waits(seen, next),
{
    match seen {
        Sighting::Text(Some(fill)) => FillWait::Got(fill),
        Sighting::Text(None) => FillWait::Wait,
        Sighting::Other => FillWait::Wait,
        Sighting::Failed => FillWait::Lost(seen),
        Sighting::Closed => FillWait::Lost(seen),
        Sighting::TimedOut => FillWait::Lost(seen),
    }
}

/// The order of measurements.
pub open spec fn at_most() -> spec_fn(u128, u128) -> bool {
    |a: u128, b: u128| a <= b
}

/// The measurements in ascending order.
pub open spec fn ascending(samples: Seq<u128>) -> Seq<u128> {
    samples.sort_by(at_most())
}

/// The sum of the measurements.
pub open spec fn sum(samples: Seq<u128>) -> nat
    decreases samples.len(),
{
    if samples.len() == 0 {
        0
    } else {
        sum(samples.drop_last()) + samples.last() as nat
    }
}

/// A series of measurements in a few numbers.
#[derive(Debug, Clone, Copy, PartialEq, Eq, Structural)]
pub struct LatencySummary {
    pub mean: u128,
    pub p50: u128,
    pub p99: u128,
    pub min: u128,
    pub max: u128,
}

/// `samples` in ascending order.
fn sort(samples: &Vec<u128>) -> (sorted: Vec<u128>)
    ensures
        sorted@ == ascending(samples@),
        sorted@.len() == samples@.len(),
{
    let mut sorted: Vec<u128> = Vec::new();
    let mut i: usize = 0;
    assert(samples@.take(0) =~= Seq::<u128>::empty());
    while i < samples.len()
        invariant
            i <= samples@.len(),
            sorted@.len() == i,
            sorted@.to_multiset() == samples@.take(i as int).to_multiset(),
            forall|a: int, b: int| 0 <= a < b < sorted@.len() ==> sorted@[a] <= sorted@[b],
        decreases samples@.len() - i,
    {
        let sample = samples[i];
        let mut at: usize = i;
        while at > 0 && sorted[at - 1] > sample
            invariant
                at <= i,
                sorted@.len() == i,
                forall|b: int| at <= b < sorted@.len() ==> sorted@[b] > sample,
            decreases at,
        {
            at = at - 1;
        }
        let ghost was = sorted@;
        sorted.insert(at, sample);
        proof {
            assert(samples@.take(i + 1) =~= samples@.take(i as int).push(sample));
            to_multiset_build(samples@.take(i as int), sample);
            to_multiset_insert(was, at as int, sample);
            assert forall|a: int, b: int| 0 <= a < b < sorted@.len() implies sorted@[a]
                <= sorted@[b] by {
                if b == at {
                    assert(a == at - 1 || was[a] <= was[at - 1]);
                }
            }
        }
        i = i + 1;
    }
    proof {
        assert(samples@.take(i as int) =~= samples@);
        assert(total_ordering(at_most()));
        samples@.lemma_sort_by_ensures(at_most());
        assert(sorted_by(sorted@, at_most()));
        lemma_sorted_unique(sorted@, ascending(samples@), at_most());
    }
    sorted
}

/// The sum of `samples`.
fn add_up(samples: &Vec<u128>) -> (total: u128)
    requires
        sum(samples@) <= u128::MAX,
    ensures
        total == sum(samples@),
{
    let mut total: u128 = 0;
    let mut i: usize = 0;
    assert(samples@.take(0) =~= Seq::<u128>::empty());
    while i < samples.len()
        invariant
            i <= samples@.len(),
            sum(samples@) <= u128::MAX,
            total == sum(samples@.take(i as int)),
        decreases samples@.len() - i,
    {
        proof {
            assert(samples@.take(i + 1).drop_last() =~= samples@.take(i as int));
            lemma_sum_grows(samples@, i + 1);
        }
        total = total + samples[i];
        i = i + 1;
    }
    assert(samples@.take(i as int) =~= samples@);
    total
}

/// More measurements make no smaller sum.
proof fn lemma_sum_grows(samples: Seq<u128>, n: int)
    requires
        0 <= n <= samples.len(),
    ensures
        sum(samples.take(n)) <= sum(samples),
    decreases samples.len() - n,
{
    if n == samples.len() {
        assert(samples.take(n) =~= samples);
    } else {
        lemma_sum_grows(samples, n + 1);
        assert(samples.take(n + 1).drop_last() =~= samples.take(n));
    }
}

/// Whether `summary` is what `samples` come to.
pub open spec fn summarizes(samples: Seq<u128>, summary: LatencySummary) -> bool {
    &&& summary.mean == sum(samples) / samples.len()
    &&& summary.p50 == ascending(samples)[samples.len() as int / 2]
    &&& summary.p99 == ascending(samples)[samples.len() as int * 99 / 100]
    &&& summary.min == ascending(samples)[0]
    &&& summary.max == ascending(samples).last()
}

/// Every measurement counts once, with all of it.
pub proof fn sum_counts_every_sample(samples: Seq<u128>, k: int, sample: u128)
    requires
        0 <= k <= samples.len(),
    ensures
        sum(Seq::empty()) == 0,
        sum(samples.insert(k, sample)) == sum(samples) + sample,
    decreases samples.len(),
{
    let grown = samples.insert(k, sample);
    if k == samples.len() {
        assert(grown.drop_last() =~= samples);
    } else {
        sum_counts_every_sample(samples.drop_last(), k, sample);
        assert(grown.drop_last() =~= samples.drop_last().insert(k, sample));
        assert(grown.last() == samples.last());
    }
}

/// A summary tells of the measurements themselves: put into order, none left out
/// and none made up, they have the least and the greatest at their ends, the
/// median in the middle and the last percentile where a hundredth is left. The
/// mean is what each would be if all were equal, rounded down. Gives the
/// measurements in order.
pub proof fn summary_tells_of_the_samples(samples: Seq<u128>, summary: LatencySummary) -> (sorted:
    Seq<u128>)
    requires
        samples.len() > 0,
        summarizes(samples, summary),
    ensures
        sorted.len() == samples.len(),
        sorted.to_multiset() == samples.to_multiset(),
        forall|i: int, j: int| 0 <= i < j < sorted.len() ==> sorted[i] <= sorted[j],
        summary.min == sorted[0],
        summary.max == sorted[samples.len() - 1],
        summary.p50 == sorted[samples.len() as int / 2],
        summary.p99 == sorted[samples.len() as int * 99 / 100],
        summary.mean * samples.len() <= sum(samples) < (summary.mean + 1) * samples.len(),
        forall|i: int|
            0 <= i < samples.len() ==> summary.min <= #[trigger] samples[i] <= summary.max,
{
    let sorted = ascending(samples);
    let n = samples.len() as int;
    let total = sum(samples) as int;
    assert(total_ordering(at_most()));
    samples.lemma_sort_by_ensures(at_most());
    to_multiset_len(samples);
    to_multiset_len(sorted);
    assert forall|i: int, j: int| 0 <= i < j < sorted.len() implies sorted[i] <= sorted[j] by {
        assert(at_most()(sorted[i], sorted[j]));
    }
    assert forall|i: int| 0 <= i < samples.len() implies summary.min <= #[trigger] samples[i]
        <= summary.max by {
        to_multiset_contains(samples, samples[i]);
        to_multiset_contains(sorted, samples[i]);
        assert(samples.contains(samples[i]));
        let j = choose|j: int| 0 <= j < sorted.len() && sorted[j] == samples[i];
        assert(j == 0 || sorted[0] <= sorted[j]);
        assert(j == n - 1 || sorted[j] <= sorted[n - 1]);
    }
    assert(total / n * n <= total < (total / n + 1) * n) by (nonlinear_arith)
        requires
            n > 0,
    ;
    sorted
}

/// What `samples` come to: their mean, rounded down, the middle one, the one
/// that all but one in a hundred stay below, the least and the greatest.
pub fn summarize(samples: &Vec<u128>) -> (summary: LatencySummary)
    requires
        samples@.len() > 0,
        samples@.len() * 99 <= usize::MAX,
        sum(samples@) <= u128::MAX,
    ensures
        summary.mean == sum(samples@) / samples@.len(),
        summary.p50 == ascending(samples@)[samples@.len() as int / 2],
        summary.p99 == ascending(samples@)[samples@.len() as int * 99 / 100],
        summary.min == ascending(samples@)[0],
        summary.max == ascending(samples@).last(),
        summarizes(samples@, summary),
{
    let sorted = sort(samples);
    let total = add_up(samples);
    let n = sorted.len();
    LatencySummary {
        mean: total / (n as u128),
        p50: sorted[n / 2],
        p99: sorted[(n * 99) / 100],
        min: sorted[0],
        max: sorted[n - 1],
    }
}

} // verus!
