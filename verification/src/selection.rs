//! Which files of a directory are taken: those named like a log dump and
//! modified recently enough.

use crate::text::has_prefix;
use vstd::prelude::*;

verus! {

/// The number of seconds in a day.
pub const SECONDS_PER_DAY: i64 = 86_400;

/// What the name of a log file begins with.
pub open spec fn log_prefix() -> Seq<char> {
    "fwddmp.log.tmp"@
}

/// The moment `days_back` days before `now_secs`, in seconds since the
/// epoch.
pub open spec fn cutoff_seconds(now_secs: int, days_back: int) -> int {
    now_secs - days_back * SECONDS_PER_DAY
}

/// A file is taken when its name begins with the prefix, its modification
/// time could be read, and that time is strictly later than the cutoff.
pub open spec fn is_selected(
    name: Seq<char>,
    modified_secs: Option<u64>,
    now_secs: int,
    days_back: int,
) -> bool {
    &&& log_prefix().is_prefix_of(name)
    &&& modified_secs matches Some(m)
    &&& m > cutoff_seconds(now_secs, days_back)
}

/// Whether a file name begins with the prefix of the log files.
pub fn is_log_name(name: &str) -> (r: bool)
    ensures
        r == log_prefix().is_prefix_of(name@),
{
    has_prefix(name, "fwddmp.log.tmp")
}

/// An entry of a directory: its file name and, where the metadata could be
/// read, its modification time in seconds since the epoch.
#[derive(Clone, Debug, PartialEq, Eq)]
pub struct FileCandidate {
    pub name: String,
    pub modified_secs: Option<u64>,
}

impl FileCandidate {
    /// Whether this entry is taken at `now_secs` with a window of
    /// `days_back` days.
    pub open spec fn selected(self, now_secs: int, days_back: int) -> bool {
        is_selected(self.name@, self.modified_secs, now_secs, days_back)
    }

    /// Decides [`FileCandidate::selected`].
    pub fn is_recent_log(&self, now_secs: i64, days_back: i64) -> (r: bool)
        ensures
            r == self.selected(now_secs as int, days_back as int),
    {
        if !is_log_name(self.name.as_str()) {
            return false;
        }
        match self.modified_secs {
            Some(m) => {
                let cutoff: i128 = now_secs as i128 - days_back as i128 * SECONDS_PER_DAY as i128;
                m as i128 > cutoff
            },
            None => false,
        }
    }
}

/// The positions of the entries taken, in the order of the listing.
pub open spec fn selected_positions(
    candidates: Seq<FileCandidate>,
    now_secs: int,
    days_back: int,
) -> Seq<int>
    decreases candidates.len(),
{
    if candidates.len() == 0 {
        Seq::empty()
    } else {
        let rest = selected_positions(candidates.drop_last(), now_secs, days_back);
        if candidates.last().selected(now_secs, days_back) {
            rest.push(candidates.len() - 1)
        } else {
            rest
        }
    }
}

/// The positions as numbers.
pub open spec fn positions_view(positions: Seq<usize>) -> Seq<int> {
    Seq::new(positions.len(), |i: int| positions[i] as int)
}

/// Picks from a directory listing the entries that are log files modified
/// strictly later than `days_back` days before `now_secs`. The result holds
/// their positions in the listing, in its order.
pub fn filter_files(
    candidates: &Vec<FileCandidate>,
    now_secs: i64,
    days_back: i64,
) -> (r: Vec<usize>)
    ensures
        positions_view(r@) == selected_positions(candidates@, now_secs as int, days_back as int),
{
    let mut taken: Vec<usize> = Vec::new();
    assert(positions_view(taken@) =~= selected_positions(
        candidates@.take(0),
        now_secs as int,
        days_back as int,
    ));
    let mut i: usize = 0;
    while i < candidates.len()
        invariant
            i <= candidates.len(),
            positions_view(taken@) == selected_positions(
                candidates@.take(i as int),
                now_secs as int,
                days_back as int,
            ),
        decreases candidates.len() - i,
    {
        assert(candidates@.take(i + 1).drop_last() =~= candidates@.take(i as int));
        if candidates[i].is_recent_log(now_secs, days_back) {
            let ghost before = taken@;
            taken.push(i);
            assert(positions_view(taken@) =~= positions_view(before).push(i as int));
        }
        i += 1;
    }
    assert(candidates@.take(candidates.len() as int) =~= candidates@);
    taken
}

/// A file whose name does not begin with the prefix is never taken,
/// whenever it was modified.
pub proof fn lemma_prefix_is_required(
    name: Seq<char>,
    modified_secs: Option<u64>,
    now_secs: int,
    days_back: int,
)
    requires
        !log_prefix().is_prefix_of(name),
    ensures
        !is_selected(name, modified_secs, now_secs, days_back),
{
}

/// The boundary is strict: a log file modified exactly `days_back` days
/// ago, or earlier, is left out, and one modified any later is taken.
pub proof fn lemma_boundary_is_strict(name: Seq<char>, modified: u64, now_secs: int, days_back: int)
    requires
        log_prefix().is_prefix_of(name),
    ensures
        modified <= now_secs - days_back * SECONDS_PER_DAY ==> !is_selected(
            name,
            Some(modified),
            now_secs,
            days_back,
        ),
        modified > now_secs - days_back * SECONDS_PER_DAY ==> is_selected(
            name,
            Some(modified),
            now_secs,
            days_back,
        ),
{
}

/// A file whose metadata could not be read is never taken.
pub proof fn lemma_unreadable_is_left_out(name: Seq<char>, now_secs: int, days_back: int)
    ensures
        !is_selected(name, None, now_secs, days_back),
{
}

/// With a window of no days, no file modified up to now is taken.
pub proof fn lemma_empty_window_selects_nothing(
    candidates: Seq<FileCandidate>,
    now_secs: int,
)
    requires
        forall|i: int|
            0 <= i < candidates.len() ==> (#[trigger] candidates[i].modified_secs matches Some(m)
                ==> m <= now_secs),
    ensures
        selected_positions(candidates, now_secs, 0) == Seq::<int>::empty(),
    decreases candidates.len(),
{
    if candidates.len() > 0 {
        let rest = candidates.drop_last();
        assert forall|i: int| 0 <= i < rest.len() implies (
        #[trigger] rest[i].modified_secs matches Some(m) ==> m <= now_secs) by {
            assert(rest[i] == candidates[i]);
        }
        lemma_empty_window_selects_nothing(rest, now_secs);
        let last = candidates.last();
        assert(last == candidates[candidates.len() - 1]);
    }
}

/// The positions taken ascend, each is the position of an entry that is
/// taken, and no such entry is missing.
pub proof fn lemma_selected_positions(candidates: Seq<FileCandidate>, now_secs: int, days_back: int)
    ensures
        ({
            let taken = selected_positions(candidates, now_secs, days_back);
            &&& forall|i: int|
                0 <= i < taken.len() ==> 0 <= #[trigger] taken[i] < candidates.len()
                    && candidates[taken[i]].selected(now_secs, days_back)
            &&& forall|i: int, j: int| 0 <= i < j < taken.len() ==> taken[i] < taken[j]
            &&& forall|p: int|
                0 <= p < candidates.len() && (#[trigger] candidates[p]).selected(
                    now_secs,
                    days_back,
                ) ==> taken.contains(p)
        }),
    decreases candidates.len(),
{
    let taken = selected_positions(candidates, now_secs, days_back);
    if candidates.len() > 0 {
        let rest = candidates.drop_last();
        let before = selected_positions(rest, now_secs, days_back);
        lemma_selected_positions(rest, now_secs, days_back);
        assert forall|i: int| 0 <= i < taken.len() implies 0 <= #[trigger] taken[i]
            < candidates.len() && candidates[taken[i]].selected(now_secs, days_back) by {
            if i < before.len() {
                assert(taken[i] == before[i]);
                assert(rest[before[i]] == candidates[before[i]]);
            }
        }
        assert forall|i: int, j: int| 0 <= i < j < taken.len() implies taken[i] < taken[j] by {
            if j < before.len() {
                assert(taken[i] == before[i] && taken[j] == before[j]);
            } else {
                assert(taken[i] == before[i]);
            }
        }
        assert forall|p: int|
            0 <= p < candidates.len() && (#[trigger] candidates[p]).selected(
                now_secs,
                days_back,
            ) implies taken.contains(p) by {
            if p < rest.len() {
                assert(rest[p] == candidates[p]);
                assert(before.contains(p));
                let w = choose|w: int| 0 <= w < before.len() && before[w] == p;
                assert(taken[w] == p);
            } else {
                assert(taken[taken.len() - 1] == p);
            }
        }
    }
}

} // verus!
