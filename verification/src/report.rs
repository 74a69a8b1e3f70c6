//! The two documents of a run: the ranked overview of the events, and the
//! full list of the sources.

use crate::aggregate::Tallies;
use crate::counts::{is_ascending_listing, Entry};
use crate::global::GlobalAggregates;
use crate::ranking::{
    ascending, descending, entries_view, is_descending_listing, is_ranking, lemma_ranking_unique,
    ranked, top,
};
use vstd::prelude::*;

verus! {

/// How many sources and how many destinations the overview shows.
pub const TOP_LIMIT: usize = 10;

/// One object of a document: two arrays of equal length under their
/// headings, where the label at a position belongs to the count at it.
#[derive(Clone, Debug, PartialEq, Eq)]
pub struct Section {
    pub title: String,
    pub label_heading: String,
    pub labels: Vec<String>,
    pub count_heading: String,
    pub counts: Vec<u64>,
}

/// A section as texts and numbers.
pub struct SectionView {
    pub title: Seq<char>,
    pub label_heading: Seq<char>,
    pub labels: Seq<Seq<char>>,
    pub count_heading: Seq<char>,
    pub counts: Seq<nat>,
}

impl SectionView {
    /// The rows of the section: each label with the count at its position.
    pub open spec fn rows(self) -> Seq<(Seq<char>, nat)> {
        Seq::new(self.labels.len(), |i: int| (self.labels[i], self.counts[i]))
    }

    /// The two arrays have one length.
    pub open spec fn aligned(self) -> bool {
        self.labels.len() == self.counts.len()
    }

    /// The section has the given title and headings, and `Count` over its
    /// counts.
    pub open spec fn is_headed(self, title: Seq<char>, label_heading: Seq<char>) -> bool {
        &&& self.title == title
        &&& self.label_heading == label_heading
        &&& self.count_heading == "Count"@
        &&& self.aligned()
    }
}

impl View for Section {
    type V = SectionView;

    open spec fn view(&self) -> SectionView {
        SectionView {
            title: self.title@,
            label_heading: self.label_heading@,
            labels: Seq::new(self.labels@.len(), |i: int| self.labels@[i]@),
            count_heading: self.count_heading@,
            counts: Seq::new(self.counts@.len(), |i: int| self.counts@[i] as nat),
        }
    }
}

/// The sections of a document as texts and numbers.
pub open spec fn document_view(document: Seq<Section>) -> Seq<SectionView> {
    Seq::new(document.len(), |i: int| document[i]@)
}

/// `s` is the start of the ranking of `m`: its first `limit` pairs, or all
/// of them where there are fewer.
pub open spec fn is_top_ranking(
    s: Seq<(Seq<char>, nat)>,
    m: Map<Seq<char>, nat>,
    limit: nat,
) -> bool {
    exists|full: Seq<(Seq<char>, nat)>|
        #![trigger is_ranking(full, m)]
        is_ranking(full, m) && s == full.take(
            if full.len() <= limit {
                full.len() as int
            } else {
                limit as int
            },
        )
}

/// A mapping has one start of its ranking for each limit.
pub proof fn lemma_top_ranking_unique(
    s1: Seq<(Seq<char>, nat)>,
    s2: Seq<(Seq<char>, nat)>,
    m: Map<Seq<char>, nat>,
    limit: nat,
)
    requires
        is_top_ranking(s1, m, limit),
        is_top_ranking(s2, m, limit),
    ensures
        s1 == s2,
        s1.len() <= limit,
{
    let full1 = choose|full: Seq<(Seq<char>, nat)>|
        #![trigger is_ranking(full, m)]
        is_ranking(full, m) && s1 == full.take(
            if full.len() <= limit {
                full.len() as int
            } else {
                limit as int
            },
        );
    let full2 = choose|full: Seq<(Seq<char>, nat)>|
        #![trigger is_ranking(full, m)]
        is_ranking(full, m) && s2 == full.take(
            if full.len() <= limit {
                full.len() as int
            } else {
                limit as int
            },
        );
    lemma_ranking_unique(full1, full2, m);
}

/// The overview of the totals: the priorities by label descending, the ten
/// foremost sources and destinations by count, and the AWARE events by
/// half-day ascending.
pub open spec fn is_events_document(document: Seq<SectionView>, totals: Tallies) -> bool {
    &&& document.len() == 4
    &&& document[0].is_headed("Priorities"@, "Priority"@)
    &&& is_descending_listing(document[0].rows(), totals.priorities)
    &&& document[1].is_headed("Threat Sources"@, "Source"@)
    &&& is_top_ranking(document[1].rows(), totals.sources, TOP_LIMIT as nat)
    &&& document[2].is_headed("Threat Destinations"@, "Destination"@)
    &&& is_top_ranking(document[2].rows(), totals.destinations, TOP_LIMIT as nat)
    &&& document[3].is_headed("AWARE Threats"@, "Date"@)
    &&& is_ascending_listing(document[3].rows(), totals.aware)
}

/// The list of every source with its count, by label ascending.
pub open spec fn is_sources_document(document: Seq<SectionView>, totals: Tallies) -> bool {
    &&& document.len() == 1
    &&& document[0].is_headed("Threat Sources"@, "Source"@)
    &&& is_ascending_listing(document[0].rows(), totals.sources)
}

/// A section with the given title and headings over the given entries.
pub fn section(title: &str, label_heading: &str, entries: &Vec<Entry>) -> (r: Section)
    ensures
        r@.is_headed(title@, label_heading@),
        r@.rows() == entries_view(entries@),
{
    let mut labels: Vec<String> = Vec::new();
    let mut counts: Vec<u64> = Vec::new();
    let mut i: usize = 0;
    while i < entries.len()
        invariant
            i <= entries.len(),
            labels@.len() == i,
            counts@.len() == i,
            forall|q: int| 0 <= q < i ==> (#[trigger] labels@[q])@ == entries@[q].label@,
            forall|q: int| 0 <= q < i ==> #[trigger] counts@[q] == entries@[q].count,
        decreases entries.len() - i,
    {
        labels.push(entries[i].label.clone());
        counts.push(entries[i].count);
        i += 1;
    }
    let r = Section {
        title: title.to_owned(),
        label_heading: label_heading.to_owned(),
        labels,
        count_heading: "Count".to_owned(),
        counts,
    };
    assert(r@.rows() =~= entries_view(entries@));
    r
}

/// Builds the overview of the totals.
pub fn events_report(totals: &GlobalAggregates) -> (r: Vec<Section>)
    requires
        totals.wf(),
    ensures
        is_events_document(document_view(r@), totals@),
        document_view(r@)[1].labels.len() <= TOP_LIMIT,
        document_view(r@)[2].labels.len() <= TOP_LIMIT,
{
    let held = totals.totals();
    let priorities = descending(&held.priorities_count);
    let all_sources = ranked(&held.threat_sources);
    let ghost source_ranking = entries_view(all_sources@);
    let sources = top(all_sources, TOP_LIMIT);
    let all_destinations = ranked(&held.threat_destinations);
    let ghost destination_ranking = entries_view(all_destinations@);
    let destinations = top(all_destinations, TOP_LIMIT);
    let aware = ascending(&held.aware_threats);
    let mut document: Vec<Section> = Vec::new();
    document.push(section("Priorities", "Priority", &priorities));
    document.push(section("Threat Sources", "Source", &sources));
    document.push(section("Threat Destinations", "Destination", &destinations));
    document.push(section("AWARE Threats", "Date", &aware));
    proof {
        let shown = document_view(document@);
        assert(shown[1].rows().len() == shown[1].labels.len());
        assert(shown[2].rows().len() == shown[2].labels.len());
        assert(entries_view(sources@).len() <= TOP_LIMIT);
        assert(entries_view(destinations@).len() <= TOP_LIMIT);
        assert(is_ranking(source_ranking, totals@.sources));
        assert(is_top_ranking(shown[1].rows(), totals@.sources, TOP_LIMIT as nat));
        assert(is_ranking(destination_ranking, totals@.destinations));
        assert(is_top_ranking(shown[2].rows(), totals@.destinations, TOP_LIMIT as nat));
    }
    document
}

/// Builds the list of every source.
pub fn sources_report(totals: &GlobalAggregates) -> (r: Vec<Section>)
    requires
        totals.wf(),
    ensures
        is_sources_document(document_view(r@), totals@),
{
    let sources = ascending(&totals.totals().threat_sources);
    let mut document: Vec<Section> = Vec::new();
    document.push(section("Threat Sources", "Source", &sources));
    document
}

/// The error of the JSON writer.
#[verifier::external_type_specification]
#[verifier::external_body]
pub struct ExJsonError(serde_json::Error);

/// The pretty-printed JSON text of a document: an object with one member
/// per section, named by its title, whose value is an object with the two
/// arrays under their headings. It is nothing where the writer fails.
pub uninterp spec fn pretty_json(document: Seq<SectionView>) -> Option<Seq<char>>;

/// Puts the sections into a `serde_json::Map`, each as a map of its two
/// arrays, and calls `serde_json::to_string_pretty` on the whole.
///
/// Believed, not proved: the text, or the failure, is a function of what the
/// sections hold.
#[verifier::external_body]
pub(crate) fn write_pretty_json(document: &Vec<Section>) -> (r: Result<String, serde_json::Error>)
    ensures
        match r {
            Ok(text) => pretty_json(document_view(document@)) == Some(text@),
            Err(_) => pretty_json(document_view(document@)) is None,
        },
{
    let mut root = serde_json::Map::new();
    for section in document {
        let mut arrays = serde_json::Map::new();
        arrays.insert(section.label_heading.clone(), serde_json::Value::from(section.labels.clone()));
        arrays.insert(section.count_heading.clone(), serde_json::Value::from(section.counts.clone()));
        root.insert(section.title.clone(), serde_json::Value::Object(arrays));
    }
    serde_json::to_string_pretty(&serde_json::Value::Object(root))
}

/// A document could not be written as JSON.
#[derive(Clone, Copy, Debug, PartialEq, Eq, Structural)]
pub struct RenderError;

/// Writes a document as pretty-printed JSON text.
pub fn render(document: &Vec<Section>) -> (r: Result<String, RenderError>)
    ensures
        match r {
            Ok(text) => pretty_json(document_view(document@)) == Some(text@),
            Err(_) => pretty_json(document_view(document@)) is None,
        },
{
    match write_pretty_json(document) {
        Ok(text) => Ok(text),
        Err(_) => Err(RenderError),
    }
}

} // verus!
