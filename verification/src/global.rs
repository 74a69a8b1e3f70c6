//! The totals of a run: the counts of every file folded into one aggregate
//! that starts with the six usual priorities at zero.

use crate::aggregate::{AggregatedData, Tallies};
use crate::counts::{all_positive, count_of, merged, sums_fit, Counts};
use vstd::prelude::*;

verus! {

/// `k` is one of the priorities `"0"` to `"5"`.
pub open spec fn is_default_priority(k: Seq<char>) -> bool {
    k == "0"@ || k == "1"@ || k == "2"@ || k == "3"@ || k == "4"@ || k == "5"@
}

/// The priorities `"0"` to `"5"`, each counted zero times.
pub open spec fn default_priorities() -> Map<Seq<char>, nat> {
    Map::new(|k: Seq<char>| is_default_priority(k), |k: Seq<char>| 0nat)
}

/// `m` holds each of the priorities `"0"` to `"5"`.
pub open spec fn has_default_priorities(m: Map<Seq<char>, nat>) -> bool {
    forall|k: Seq<char>| is_default_priority(k) ==> #[trigger] m.dom().contains(k)
}

/// The totals before any file: the default priorities and nothing else.
pub open spec fn seeded() -> Tallies {
    Tallies {
        priorities: default_priorities(),
        sources: Map::empty(),
        destinations: Map::empty(),
        aware: Map::empty(),
    }
}

/// The totals `a` with the counts `b` added, mapping by mapping.
pub open spec fn merge(a: Tallies, b: Tallies) -> Tallies {
    Tallies {
        priorities: merged(a.priorities, b.priorities),
        sources: merged(a.sources, b.sources),
        destinations: merged(a.destinations, b.destinations),
        aware: merged(a.aware, b.aware),
    }
}

/// Adding `b` to `a` keeps every count within the counter's range.
pub open spec fn can_merge(a: Tallies, b: Tallies) -> bool {
    &&& sums_fit(a.priorities, b.priorities)
    &&& sums_fit(a.sources, b.sources)
    &&& sums_fit(a.destinations, b.destinations)
    &&& sums_fit(a.aware, b.aware)
}

/// The totals after the given files, folded first to last from the seeded
/// start.
pub open spec fn merge_all(parts: Seq<Tallies>) -> Tallies
    decreases parts.len(),
{
    if parts.len() == 0 {
        seeded()
    } else {
        merge(merge_all(parts.drop_last()), parts.last())
    }
}

/// How often `k` was counted as a source over all the given files.
pub open spec fn source_sum(parts: Seq<Tallies>, k: Seq<char>) -> nat
    decreases parts.len(),
{
    if parts.len() == 0 {
        0
    } else {
        source_sum(parts.drop_last(), k) + count_of(parts.last().sources, k)
    }
}

/// A count would leave the counter's range.
#[derive(Clone, Copy, Debug, PartialEq, Eq, Structural)]
pub struct CountOverflow;

/// The totals of a run.
#[derive(Clone, Debug)]
pub struct GlobalAggregates {
    totals: AggregatedData,
}

impl GlobalAggregates {
    /// The mappings are well formed and the default priorities are present.
    pub closed spec fn wf(self) -> bool {
        &&& self.totals.wf()
        &&& has_default_priorities(self.totals@.priorities)
    }

    /// The four mappings held.
    pub closed spec fn view(self) -> Tallies {
        self.totals@
    }

    /// Totals that are well formed hold the default priorities.
    pub proof fn lemma_defaults_are_present(self)
        requires
            self.wf(),
        ensures
            has_default_priorities(self@.priorities),
    {
    }

    /// The totals before any file.
    pub fn new() -> (r: GlobalAggregates)
        ensures
            r.wf(),
            r@ == seeded(),
    {
        let mut priorities = Counts::new();
        priorities.add("0", 0);
        priorities.add("1", 0);
        priorities.add("2", 0);
        priorities.add("3", 0);
        priorities.add("4", 0);
        priorities.add("5", 0);
        assert(priorities@ =~= default_priorities());
        GlobalAggregates {
            totals: AggregatedData {
                priorities_count: priorities,
                threat_sources: Counts::new(),
                threat_destinations: Counts::new(),
                aware_threats: Counts::new(),
            },
        }
    }

    /// The four mappings of the totals.
    pub fn totals(&self) -> (r: &AggregatedData)
        ensures
            r@ == self@,
            self.wf() ==> r.wf(),
    {
        &self.totals
    }

    /// Folds the counts of one file into the totals. Where a count would
    /// leave the counter's range nothing is changed and the error is
    /// returned.
    pub fn merge_into(&mut self, partial: &AggregatedData) -> (r: Result<(), CountOverflow>)
        requires
            old(self).wf(),
            partial.wf(),
        ensures
            final(self).wf(),
            r is Ok <==> can_merge(old(self)@, partial@),
            r is Ok ==> final(self)@ == merge(old(self)@, partial@),
            r is Err ==> *final(self) == *old(self),
    {
        let fits = self.totals.priorities_count.fits(&partial.priorities_count)
            && self.totals.threat_sources.fits(&partial.threat_sources)
            && self.totals.threat_destinations.fits(&partial.threat_destinations)
            && self.totals.aware_threats.fits(&partial.aware_threats);
        if !fits {
            return Err(CountOverflow);
        }
        self.totals.priorities_count.absorb(&partial.priorities_count);
        self.totals.threat_sources.absorb(&partial.threat_sources);
        self.totals.threat_destinations.absorb(&partial.threat_destinations);
        self.totals.aware_threats.absorb(&partial.aware_threats);
        Ok(())
    }
}

/// Folding is commutative: the two orders give the same counts.
pub proof fn lemma_merge_commutes(a: Tallies, b: Tallies)
    ensures
        merge(a, b) == merge(b, a),
{
    assert(merged(a.priorities, b.priorities) =~= merged(b.priorities, a.priorities));
    assert(merged(a.sources, b.sources) =~= merged(b.sources, a.sources));
    assert(merged(a.destinations, b.destinations) =~= merged(b.destinations, a.destinations));
    assert(merged(a.aware, b.aware) =~= merged(b.aware, a.aware));
}

/// Folding is associative: how the files are grouped does not matter.
pub proof fn lemma_merge_associates(a: Tallies, b: Tallies, c: Tallies)
    ensures
        merge(merge(a, b), c) == merge(a, merge(b, c)),
{
    assert(merged(merged(a.priorities, b.priorities), c.priorities) =~= merged(
        a.priorities,
        merged(b.priorities, c.priorities),
    ));
    assert(merged(merged(a.sources, b.sources), c.sources) =~= merged(
        a.sources,
        merged(b.sources, c.sources),
    ));
    assert(merged(merged(a.destinations, b.destinations), c.destinations) =~= merged(
        a.destinations,
        merged(b.destinations, c.destinations),
    ));
    assert(merged(merged(a.aware, b.aware), c.aware) =~= merged(
        a.aware,
        merged(b.aware, c.aware),
    ));
}

/// Whether a mapping can take another without overflow does not depend on
/// which of the two is added to which.
pub proof fn lemma_can_merge_commutes(a: Tallies, b: Tallies)
    ensures
        can_merge(a, b) == can_merge(b, a),
{
    lemma_sums_fit_commutes(a.priorities, b.priorities);
    lemma_sums_fit_commutes(a.sources, b.sources);
    lemma_sums_fit_commutes(a.destinations, b.destinations);
    lemma_sums_fit_commutes(a.aware, b.aware);
}

proof fn lemma_sums_fit_commutes(a: Map<Seq<char>, nat>, b: Map<Seq<char>, nat>)
    ensures
        sums_fit(a, b) == sums_fit(b, a),
{
    if sums_fit(a, b) {
        assert forall|k: Seq<char>| #[trigger] count_of(b, k) + count_of(a, k) <= u64::MAX by {
            assert(count_of(a, k) + count_of(b, k) <= u64::MAX);
        }
    }
    if sums_fit(b, a) {
        assert forall|k: Seq<char>| #[trigger] count_of(a, k) + count_of(b, k) <= u64::MAX by {
            assert(count_of(b, k) + count_of(a, k) <= u64::MAX);
        }
    }
}

/// The totals hold the priorities `"0"` to `"5"` whatever was folded in,
/// and with no file each of them stands at zero.
pub proof fn lemma_default_priorities_stay(parts: Seq<Tallies>)
    ensures
        has_default_priorities(merge_all(parts).priorities),
        parts.len() == 0 ==> forall|k: Seq<char>|
            is_default_priority(k) ==> #[trigger] merge_all(parts).priorities[k] == 0,
    decreases parts.len(),
{
    if parts.len() > 0 {
        lemma_default_priorities_stay(parts.drop_last());
        let before = merge_all(parts.drop_last()).priorities;
        assert forall|k: Seq<char>| is_default_priority(k) implies #[trigger] merge_all(
            parts,
        ).priorities.dom().contains(k) by {
            assert(before.dom().contains(k));
        }
    }
}

/// A priority that no file counted stands at zero in the totals when it is
/// one of the defaults.
pub proof fn lemma_uncounted_default_is_zero(parts: Seq<Tallies>, k: Seq<char>)
    requires
        is_default_priority(k),
        forall|i: int| 0 <= i < parts.len() ==> count_of(#[trigger] parts[i].priorities, k) == 0,
    ensures
        merge_all(parts).priorities.contains_pair(k, 0),
    decreases parts.len(),
{
    if parts.len() > 0 {
        let rest = parts.drop_last();
        assert forall|i: int| 0 <= i < rest.len() implies count_of(
            #[trigger] rest[i].priorities,
            k,
        ) == 0 by {
            assert(rest[i] == parts[i]);
        }
        lemma_uncounted_default_is_zero(rest, k);
        assert(parts.last() == parts[parts.len() - 1]);
    }
}

/// The totals hold as sources exactly the addresses that some file
/// counted, each with the sum of its counts over the files.
pub proof fn lemma_sources_are_summed(parts: Seq<Tallies>, k: Seq<char>)
    ensures
        count_of(merge_all(parts).sources, k) == source_sum(parts, k),
        merge_all(parts).sources.dom().contains(k) <==> exists|i: int|
            0 <= i < parts.len() && (#[trigger] parts[i]).sources.dom().contains(k),
    decreases parts.len(),
{
    if parts.len() > 0 {
        let rest = parts.drop_last();
        lemma_sources_are_summed(rest, k);
        if merge_all(parts).sources.dom().contains(k) {
            if parts.last().sources.dom().contains(k) {
                assert(parts[parts.len() - 1].sources.dom().contains(k));
            } else {
                let w = choose|i: int| 0 <= i < rest.len() && (#[trigger] rest[i]).sources.dom().contains(k);
                assert(parts[w].sources.dom().contains(k));
            }
        }
        if exists|i: int| 0 <= i < parts.len() && (#[trigger] parts[i]).sources.dom().contains(k) {
            let w = choose|i: int| 0 <= i < parts.len() && (#[trigger] parts[i]).sources.dom().contains(k);
            if w < rest.len() {
                assert(rest[w].sources.dom().contains(k));
            }
        }
    }
}

/// Where no file holds a label at zero, the totals hold none at zero either,
/// but for the default priorities.
pub proof fn lemma_totals_are_positive(parts: Seq<Tallies>)
    requires
        forall|i: int| 0 <= i < parts.len() ==> (#[trigger] parts[i]).positive(),
    ensures
        all_positive(merge_all(parts).sources),
        all_positive(merge_all(parts).destinations),
        all_positive(merge_all(parts).aware),
        forall|k: Seq<char>|
            merge_all(parts).priorities.dom().contains(k) && !is_default_priority(k)
                ==> #[trigger] count_of(merge_all(parts).priorities, k) >= 1,
    decreases parts.len(),
{
    if parts.len() > 0 {
        let rest = parts.drop_last();
        assert forall|i: int| 0 <= i < rest.len() implies (#[trigger] rest[i]).positive() by {
            assert(rest[i] == parts[i]);
        }
        lemma_totals_are_positive(rest);
        let acc = merge_all(rest);
        let last = parts.last();
        assert(last == parts[parts.len() - 1]);
        assert(last.positive());
        let next = merge_all(parts);
        assert forall|k: Seq<char>| next.sources.dom().contains(k) implies #[trigger] count_of(
            next.sources,
            k,
        ) >= 1 by {
            assert(count_of(acc.sources, k) >= 1 || count_of(last.sources, k) >= 1);
        }
        assert forall|k: Seq<char>| next.destinations.dom().contains(k) implies #[trigger] count_of(
            next.destinations,
            k,
        ) >= 1 by {
            assert(count_of(acc.destinations, k) >= 1 || count_of(last.destinations, k) >= 1);
        }
        assert forall|k: Seq<char>| next.aware.dom().contains(k) implies #[trigger] count_of(
            next.aware,
            k,
        ) >= 1 by {
            assert(count_of(acc.aware, k) >= 1 || count_of(last.aware, k) >= 1);
        }
        assert forall|k: Seq<char>|
            next.priorities.dom().contains(k) && !is_default_priority(k) implies #[trigger] count_of(
            next.priorities,
            k,
        ) >= 1 by {
            assert(count_of(acc.priorities, k) >= 1 || count_of(last.priorities, k) >= 1);
        }
    }
}

} // verus!
