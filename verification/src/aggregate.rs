//! The counts drawn from one log file: which rows are counted, and what
//! each counted row adds.

use crate::counts::{all_positive, bounded_by, bumped, count_of, Counts};
use crate::records::{csv_records, field, field_text, fields_view, read_records, rows_view};
use crate::text::{contains_text, occurs_in};
use crate::timestamp::{event_time, parse_event_time, Timestamp};
use vstd::prelude::*;

verus! {

/// Position of the priority label in a row.
pub const PRIORITY_FIELD: usize = 1;

/// Position of the flags in a row.
pub const FLAGS_FIELD: usize = 3;

/// Position of the event's time in a row.
pub const EVENT_TIME_FIELD: usize = 4;

/// Position of the source address in a row.
pub const SOURCE_FIELD: usize = 6;

/// Position of the destination address in a row.
pub const DESTINATION_FIELD: usize = 12;

/// The marker that makes a row an AWARE event when its flags hold it.
pub open spec fn aware_marker() -> Seq<char> {
    "AWARE"@
}

/// The four mappings of an aggregate, each from label to count.
pub struct Tallies {
    pub priorities: Map<Seq<char>, nat>,
    pub sources: Map<Seq<char>, nat>,
    pub destinations: Map<Seq<char>, nat>,
    pub aware: Map<Seq<char>, nat>,
}

impl Tallies {
    /// Nothing counted.
    pub open spec fn empty() -> Tallies {
        Tallies {
            priorities: Map::empty(),
            sources: Map::empty(),
            destinations: Map::empty(),
            aware: Map::empty(),
        }
    }

    /// Every label present in one of the four mappings was counted at
    /// least once.
    pub open spec fn positive(self) -> bool {
        &&& all_positive(self.priorities)
        &&& all_positive(self.sources)
        &&& all_positive(self.destinations)
        &&& all_positive(self.aware)
    }

    /// No count in any of the four mappings exceeds `n`.
    pub open spec fn within(self, n: nat) -> bool {
        &&& bounded_by(self.priorities, n)
        &&& bounded_by(self.sources, n)
        &&& bounded_by(self.destinations, n)
        &&& bounded_by(self.aware, n)
    }
}

/// A row is counted when its time was read and is strictly later than the
/// cutoff.
pub open spec fn is_counted(parsed: Option<Timestamp>, cutoff: Timestamp) -> bool {
    parsed matches Some(t) && t.is_after(cutoff)
}

/// The flags of the row hold the AWARE marker somewhere.
pub open spec fn is_aware(fields: Seq<Seq<char>>) -> bool {
    occurs_in(aware_marker(), field_text(fields, FLAGS_FIELD as int))
}

/// `acc` after one row with the given reading of its time. A counted row
/// adds one to its priority, its source and its destination, and, when it is
/// an AWARE event, one to the half-day it falls into. Any other row adds
/// nothing.
pub open spec fn with_row(
    acc: Tallies,
    fields: Seq<Seq<char>>,
    parsed: Option<Timestamp>,
    cutoff: Timestamp,
) -> Tallies {
    if is_counted(parsed, cutoff) {
        Tallies {
            priorities: bumped(acc.priorities, field_text(fields, PRIORITY_FIELD as int), 1),
            sources: bumped(acc.sources, field_text(fields, SOURCE_FIELD as int), 1),
            destinations: bumped(
                acc.destinations,
                field_text(fields, DESTINATION_FIELD as int),
                1,
            ),
            aware: if is_aware(fields) {
                bumped(acc.aware, parsed->0.bucket_label(), 1)
            } else {
                acc.aware
            },
        }
    } else {
        acc
    }
}

/// The counts of a sequence of rows, first to last. A row that could not be
/// read adds nothing.
pub open spec fn tally(rows: Seq<Result<Seq<Seq<char>>, Seq<char>>>, cutoff: Timestamp) -> Tallies
    decreases rows.len(),
{
    if rows.len() == 0 {
        Tallies::empty()
    } else {
        let acc = tally(rows.drop_last(), cutoff);
        match rows.last() {
            Ok(fields) => with_row(
                acc,
                fields,
                event_time(field_text(fields, EVENT_TIME_FIELD as int)),
                cutoff,
            ),
            Err(_) => acc,
        }
    }
}

/// The messages of the rows that could not be read, first to last.
pub open spec fn notices(rows: Seq<Result<Seq<Seq<char>>, Seq<char>>>) -> Seq<Seq<char>>
    decreases rows.len(),
{
    if rows.len() == 0 {
        Seq::empty()
    } else {
        match rows.last() {
            Ok(_) => notices(rows.drop_last()),
            Err(reason) => notices(rows.drop_last()).push(reason),
        }
    }
}

/// One more row raises no count by more than one.
pub proof fn lemma_with_row_within(
    acc: Tallies,
    fields: Seq<Seq<char>>,
    parsed: Option<Timestamp>,
    cutoff: Timestamp,
    n: nat,
)
    requires
        acc.within(n),
    ensures
        with_row(acc, fields, parsed, cutoff).within(n + 1),
{
    let next = with_row(acc, fields, parsed, cutoff);
    assert forall|k: Seq<char>| #[trigger] count_of(next.priorities, k) <= n + 1 by {
        assert(count_of(acc.priorities, k) <= n);
        assert(count_of(acc.priorities, field_text(fields, PRIORITY_FIELD as int)) <= n);
    }
    assert forall|k: Seq<char>| #[trigger] count_of(next.sources, k) <= n + 1 by {
        assert(count_of(acc.sources, k) <= n);
        assert(count_of(acc.sources, field_text(fields, SOURCE_FIELD as int)) <= n);
    }
    assert forall|k: Seq<char>| #[trigger] count_of(next.destinations, k) <= n + 1 by {
        assert(count_of(acc.destinations, k) <= n);
        assert(count_of(acc.destinations, field_text(fields, DESTINATION_FIELD as int)) <= n);
    }
    assert forall|k: Seq<char>| #[trigger] count_of(next.aware, k) <= n + 1 by {
        assert(count_of(acc.aware, k) <= n);
        if parsed is Some {
            assert(count_of(acc.aware, parsed->0.bucket_label()) <= n);
        }
    }
}

/// The counts drawn from one file.
#[derive(Clone, Debug)]
pub struct AggregatedData {
    pub priorities_count: Counts,
    pub threat_sources: Counts,
    pub threat_destinations: Counts,
    pub aware_threats: Counts,
}

impl AggregatedData {
    /// Each of the four mappings is well formed.
    pub open spec fn wf(self) -> bool {
        &&& self.priorities_count.wf()
        &&& self.threat_sources.wf()
        &&& self.threat_destinations.wf()
        &&& self.aware_threats.wf()
    }

    /// The four mappings held.
    pub open spec fn view(self) -> Tallies {
        Tallies {
            priorities: self.priorities_count@,
            sources: self.threat_sources@,
            destinations: self.threat_destinations@,
            aware: self.aware_threats@,
        }
    }

    /// An aggregate with nothing counted.
    pub fn new() -> (r: AggregatedData)
        ensures
            r.wf(),
            r@ == Tallies::empty(),
    {
        AggregatedData {
            priorities_count: Counts::new(),
            threat_sources: Counts::new(),
            threat_destinations: Counts::new(),
            aware_threats: Counts::new(),
        }
    }

    /// Takes one row into the aggregate, given what reading its time gave.
    pub fn record(&mut self, fields: &Vec<String>, parsed: Option<Timestamp>, cutoff: &Timestamp)
        requires
            old(self).wf(),
            old(self)@.within((u64::MAX - 1) as nat),
        ensures
            final(self).wf(),
            final(self)@ == with_row(old(self)@, fields_view(fields@), parsed, *cutoff),
    {
        match parsed {
            Some(at) => {
                if at.later_than(cutoff) {
                    let priority = field(fields, PRIORITY_FIELD);
                    let source = field(fields, SOURCE_FIELD);
                    let destination = field(fields, DESTINATION_FIELD);
                    assert(count_of(old(self)@.priorities, priority@) <= u64::MAX - 1);
                    assert(count_of(old(self)@.sources, source@) <= u64::MAX - 1);
                    assert(count_of(old(self)@.destinations, destination@) <= u64::MAX - 1);
                    self.priorities_count.add(priority, 1);
                    self.threat_sources.add(source, 1);
                    self.threat_destinations.add(destination, 1);
                    if contains_text(field(fields, FLAGS_FIELD), "AWARE") {
                        let bucket = at.bucket();
                        assert(count_of(old(self)@.aware, bucket@) <= u64::MAX - 1);
                        self.aware_threats.add(bucket.as_str(), 1);
                    }
                }
            },
            None => {},
        }
    }
}

/// What one file gave: its counts, and the messages of the rows that could
/// not be read.
#[derive(Clone, Debug)]
pub struct Extraction {
    pub data: AggregatedData,
    pub notices: Vec<String>,
}

/// Counts the rows of a file that are strictly later than `cutoff`.
///
/// The time of each row is read from its field at [`EVENT_TIME_FIELD`]. A
/// row that could not be read is skipped and its message kept; a row whose
/// time cannot be read is skipped in silence.
pub fn aggregate_rows(
    rows: &Vec<Result<Vec<String>, String>>,
    cutoff: &Timestamp,
) -> (r: Extraction)
    ensures
        r.data.wf(),
        r.data@ == tally(rows_view(rows@), *cutoff),
        fields_view(r.notices@) == notices(rows_view(rows@)),
{
    let ghost all = rows_view(rows@);
    let mut data = AggregatedData::new();
    let mut skipped: Vec<String> = Vec::new();
    assert(fields_view(skipped@) =~= notices(all.take(0)));
    let mut i: usize = 0;
    while i < rows.len()
        invariant
            i <= rows.len(),
            all == rows_view(rows@),
            data.wf(),
            data@ == tally(all.take(i as int), *cutoff),
            data@.within(i as nat),
            fields_view(skipped@) == notices(all.take(i as int)),
        decreases rows.len() - i,
    {
        let ghost done = all.take(i as int);
        let ghost next = all.take(i + 1);
        assert(next.drop_last() =~= done);
        assert(next.last() == all[i as int]);
        match &rows[i] {
            Ok(fields) => {
                let parsed = parse_event_time(field(fields, EVENT_TIME_FIELD));
                proof {
                    lemma_with_row_within(data@, fields_view(fields@), parsed, *cutoff, i as nat);
                }
                data.record(fields, parsed, cutoff);
            },
            Err(reason) => {
                let ghost before = skipped@;
                skipped.push(reason.clone());
                assert(fields_view(skipped@) =~= fields_view(before).push(reason@));
            },
        }
        i += 1;
    }
    assert(all.take(rows.len() as int) =~= all);
    Extraction { data, notices: skipped }
}

/// Reads `data` as a comma-delimited file and counts its rows that are
/// strictly later than `cutoff`.
pub fn extract_aggregates(data: &[u8], cutoff: &Timestamp) -> (r: Extraction)
    ensures
        r.data.wf(),
        r.data@ == tally(csv_records(data@), *cutoff),
        fields_view(r.notices@) == notices(csv_records(data@)),
{
    let rows = read_records(data);
    aggregate_rows(&rows, cutoff)
}

/// A row whose time cannot be read leaves every count as it was.
pub proof fn lemma_unreadable_time_adds_nothing(
    acc: Tallies,
    fields: Seq<Seq<char>>,
    cutoff: Timestamp,
)
    ensures
        with_row(acc, fields, None, cutoff) == acc,
{
}

/// Appending a row whose time cannot be read, or a row that could not be
/// read at all, changes no count of a file.
pub proof fn lemma_skipped_row_leaves_tally(
    rows: Seq<Result<Seq<Seq<char>>, Seq<char>>>,
    row: Result<Seq<Seq<char>>, Seq<char>>,
    cutoff: Timestamp,
)
    requires
        row matches Ok(fields) ==> event_time(field_text(fields, EVENT_TIME_FIELD as int)) is None,
    ensures
        tally(rows.push(row), cutoff) == tally(rows, cutoff),
{
    assert(rows.push(row).drop_last() =~= rows);
}

/// A row that is not strictly later than the cutoff changes no count.
pub proof fn lemma_row_at_or_before_cutoff_adds_nothing(
    acc: Tallies,
    fields: Seq<Seq<char>>,
    at: Timestamp,
    cutoff: Timestamp,
)
    requires
        !at.is_after(cutoff),
    ensures
        with_row(acc, fields, Some(at), cutoff) == acc,
{
}

/// In the counts of a file no label stands at zero.
pub proof fn lemma_tally_is_positive(
    rows: Seq<Result<Seq<Seq<char>>, Seq<char>>>,
    cutoff: Timestamp,
)
    ensures
        tally(rows, cutoff).positive(),
    decreases rows.len(),
{
    if rows.len() > 0 {
        lemma_tally_is_positive(rows.drop_last(), cutoff);
        let acc = tally(rows.drop_last(), cutoff);
        let next = tally(rows, cutoff);
        assert forall|k: Seq<char>| next.priorities.dom().contains(k) implies #[trigger] count_of(
            next.priorities,
            k,
        ) >= 1 by {
            if acc.priorities.dom().contains(k) {
                assert(count_of(acc.priorities, k) >= 1);
            }
        }
        assert forall|k: Seq<char>| next.sources.dom().contains(k) implies #[trigger] count_of(
            next.sources,
            k,
        ) >= 1 by {
            if acc.sources.dom().contains(k) {
                assert(count_of(acc.sources, k) >= 1);
            }
        }
        assert forall|k: Seq<char>| next.destinations.dom().contains(k) implies #[trigger] count_of(
            next.destinations,
            k,
        ) >= 1 by {
            if acc.destinations.dom().contains(k) {
                assert(count_of(acc.destinations, k) >= 1);
            }
        }
        assert forall|k: Seq<char>| next.aware.dom().contains(k) implies #[trigger] count_of(
            next.aware,
            k,
        ) >= 1 by {
            if acc.aware.dom().contains(k) {
                assert(count_of(acc.aware, k) >= 1);
            }
        }
    }
}

} // verus!
