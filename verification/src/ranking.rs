//! The orders in which a mapping is shown: by label ascending or
//! descending, and by count with the largest first.

use crate::counts::{is_ascending_listing, Counts, Entry};
use crate::text::{
    compare_text, lemma_lex_connected, lemma_lex_irreflexive, lemma_lex_transitive, lex_lt,
    Precedence,
};
use vstd::prelude::*;

verus! {

/// The entries as pairs of label and count.
pub open spec fn entries_view(entries: Seq<Entry>) -> Seq<(Seq<char>, nat)> {
    Seq::new(entries.len(), |i: int| (entries[i].label@, entries[i].count as nat))
}

/// `a` is shown before `b` in a ranking: the larger count first, and of two
/// equal counts the smaller label.
pub open spec fn ranks_before(a: (Seq<char>, nat), b: (Seq<char>, nat)) -> bool {
    a.1 > b.1 || (a.1 == b.1 && lex_lt(a.0, b.0))
}

/// Every pair of `s` is a pair of `m`, and every label of `m` has a pair
/// in `s`.
pub open spec fn lists_all(s: Seq<(Seq<char>, nat)>, m: Map<Seq<char>, nat>) -> bool {
    &&& forall|i: int| 0 <= i < s.len() ==> m.contains_pair(#[trigger] s[i].0, s[i].1)
    &&& forall|k: Seq<char>|
        m.dom().contains(k) ==> exists|i: int| 0 <= i < s.len() && #[trigger] s[i].0 == k
}

/// `s` lists `m` completely by count, largest first, equal counts by label
/// ascending.
pub open spec fn is_ranking(s: Seq<(Seq<char>, nat)>, m: Map<Seq<char>, nat>) -> bool {
    &&& forall|i: int, j: int| 0 <= i < j < s.len() ==> ranks_before(#[trigger] s[i], #[trigger] s[j])
    &&& lists_all(s, m)
}

/// `s` lists `m` completely in descending label order.
pub open spec fn is_descending_listing(s: Seq<(Seq<char>, nat)>, m: Map<Seq<char>, nat>) -> bool {
    &&& forall|i: int, j: int|
        0 <= i < j < s.len() ==> lex_lt(#[trigger] s[j].0, #[trigger] s[i].0)
    &&& lists_all(s, m)
}

/// The ranking order is transitive.
pub proof fn lemma_ranks_transitive(a: (Seq<char>, nat), b: (Seq<char>, nat), c: (Seq<char>, nat))
    requires
        ranks_before(a, b),
        ranks_before(b, c),
    ensures
        ranks_before(a, c),
{
    if a.1 == b.1 && b.1 == c.1 {
        lemma_lex_transitive(a.0, b.0, c.0);
    }
}

/// Two pairs with different labels rank one way or the other.
pub proof fn lemma_ranks_connected(a: (Seq<char>, nat), b: (Seq<char>, nat))
    requires
        a.0 != b.0,
    ensures
        ranks_before(a, b) || ranks_before(b, a),
{
    lemma_lex_connected(a.0, b.0);
}

/// Whether the entry `a` ranks before the entry `b`.
pub fn ranks_ahead(a: &Entry, b: &Entry) -> (r: bool)
    ensures
        r == ranks_before((a.label@, a.count as nat), (b.label@, b.count as nat)),
{
    if a.count != b.count {
        a.count > b.count
    } else {
        match compare_text(a.label.as_str(), b.label.as_str()) {
            Precedence::Before => true,
            Precedence::Same => {
                proof {
                    lemma_lex_irreflexive(a.label@);
                }
                false
            },
            Precedence::After => false,
        }
    }
}

fn entry_at(counts: &Counts, i: usize) -> (r: Entry)
    requires
        i < counts.listing().len(),
    ensures
        (r.label@, r.count as nat) == counts.listing()[i as int],
{
    Entry { label: counts.label_at(i).clone(), count: counts.count_at(i) }
}

/// The entries of a mapping in ascending label order.
pub fn ascending(counts: &Counts) -> (r: Vec<Entry>)
    requires
        counts.wf(),
    ensures
        is_ascending_listing(entries_view(r@), counts@),
{
    let n: usize = counts.len();
    let mut out: Vec<Entry> = Vec::new();
    let mut i: usize = 0;
    while i < n
        invariant
            n == counts.listing().len(),
            i <= n,
            out@.len() == i,
            forall|q: int| 0 <= q < i ==> #[trigger] entries_view(out@)[q] == counts.listing()[q],
        decreases n - i,
    {
        let ghost before = out@;
        let e = entry_at(counts, i);
        out.push(e);
        assert forall|q: int| 0 <= q < i + 1 implies #[trigger] entries_view(out@)[q]
            == counts.listing()[q] by {
            if q < i {
                assert(entries_view(before)[q] == counts.listing()[q]);
            }
        }
        i += 1;
    }
    proof {
        counts.lemma_listing();
        assert(entries_view(out@) =~= counts.listing());
    }
    out
}

/// The entries of a mapping in descending label order.
pub fn descending(counts: &Counts) -> (r: Vec<Entry>)
    requires
        counts.wf(),
    ensures
        is_descending_listing(entries_view(r@), counts@),
{
    let n: usize = counts.len();
    let mut out: Vec<Entry> = Vec::new();
    let mut i: usize = 0;
    while i < n
        invariant
            n == counts.listing().len(),
            i <= n,
            out@.len() == i,
            forall|q: int|
                0 <= q < i ==> #[trigger] entries_view(out@)[q] == counts.listing()[n - 1 - q],
        decreases n - i,
    {
        let ghost before = out@;
        let e = entry_at(counts, n - 1 - i);
        out.push(e);
        assert forall|q: int| 0 <= q < i + 1 implies #[trigger] entries_view(out@)[q]
            == counts.listing()[n - 1 - q] by {
            if q < i {
                assert(entries_view(before)[q] == counts.listing()[n - 1 - q]);
            }
        }
        i += 1;
    }
    proof {
        counts.lemma_listing();
        let s = entries_view(out@);
        let l = counts.listing();
        assert forall|a: int, b: int| 0 <= a < b < s.len() implies lex_lt(
            #[trigger] s[b].0,
            #[trigger] s[a].0,
        ) by {
            assert(s[a] == l[n - 1 - a]);
            assert(s[b] == l[n - 1 - b]);
            assert(lex_lt(l[n - 1 - b].0, l[n - 1 - a].0));
        }
        assert forall|q: int| 0 <= q < s.len() implies counts@.contains_pair(
            #[trigger] s[q].0,
            s[q].1,
        ) by {
            assert(s[q] == l[n - 1 - q]);
            assert(counts@.contains_pair(l[n - 1 - q].0, l[n - 1 - q].1));
        }
        assert forall|k: Seq<char>| counts@.dom().contains(k) implies exists|q: int|
            0 <= q < s.len() && #[trigger] s[q].0 == k by {
            let j = choose|j: int| 0 <= j < l.len() && #[trigger] l[j].0 == k;
            assert(s[n - 1 - j] == l[n - 1 - (n - 1 - j)]);
            assert(s[n - 1 - j].0 == k);
        }
    }
    out
}

/// `s` stands in ranking order: each pair ranks before all that follow.
pub open spec fn in_ranking_order(s: Seq<(Seq<char>, nat)>) -> bool {
    forall|i: int, j: int| 0 <= i < j < s.len() ==> ranks_before(#[trigger] s[i], #[trigger] s[j])
}

/// `out` holds exactly the first `n` pairs of `l`, in some order.
spec fn holds_first(out: Seq<(Seq<char>, nat)>, l: Seq<(Seq<char>, nat)>, n: int) -> bool {
    out.to_multiset() == l.take(n).to_multiset()
}

/// Where `out` holds the first `n` pairs of `l`, each of its pairs is one of
/// them; the position in `l` is returned.
proof fn lemma_source_of(
    out: Seq<(Seq<char>, nat)>,
    l: Seq<(Seq<char>, nat)>,
    n: int,
    q: int,
) -> (j: int)
    requires
        0 <= n <= l.len(),
        holds_first(out, l, n),
        0 <= q < out.len(),
    ensures
        0 <= j < n,
        l[j] == out[q],
{
    out.to_multiset_ensures();
    l.take(n).to_multiset_ensures();
    assert(out.contains(out[q]));
    assert(out.to_multiset().count(out[q]) > 0);
    assert(l.take(n).to_multiset().count(out[q]) > 0);
    assert(l.take(n).contains(out[q]));
    let j = choose|j: int| 0 <= j < l.take(n).len() && l.take(n)[j] == out[q];
    j
}

/// Where `out` holds the first `n` pairs of `l`, each of them stands in
/// `out`; the position in `out` is returned.
proof fn lemma_place_of(
    out: Seq<(Seq<char>, nat)>,
    l: Seq<(Seq<char>, nat)>,
    n: int,
    j: int,
) -> (q: int)
    requires
        0 <= n <= l.len(),
        holds_first(out, l, n),
        0 <= j < n,
    ensures
        0 <= q < out.len(),
        out[q] == l[j],
{
    out.to_multiset_ensures();
    l.take(n).to_multiset_ensures();
    assert(l.take(n)[j] == l[j]);
    assert(l.take(n).contains(l[j]));
    assert(l.take(n).to_multiset().count(l[j]) > 0);
    assert(out.to_multiset().count(l[j]) > 0);
    assert(out.contains(l[j]));
    let q = choose|q: int| 0 <= q < out.len() && out[q] == l[j];
    q
}

proof fn lemma_insert_holds_first(
    out: Seq<(Seq<char>, nat)>,
    l: Seq<(Seq<char>, nat)>,
    n: int,
    p: int,
)
    requires
        0 <= n < l.len(),
        0 <= p <= out.len(),
        holds_first(out, l, n),
    ensures
        holds_first(out.insert(p, l[n]), l, n + 1),
{
    let next = out.insert(p, l[n]);
    next.to_multiset_ensures();
    assert(next.remove(p) =~= out);
    assert(next[p] == l[n]);
    assert(next.contains(l[n]));
    assert(next.to_multiset() =~= out.to_multiset().insert(l[n]));
    l.take(n).to_multiset_ensures();
    assert(l.take(n + 1) =~= l.take(n).push(l[n]));
}

/// Where the pair at `p` does not rank before a new pair, the new pair ranks
/// before it and before all that follow.
proof fn lemma_rest_ranks_after(
    out: Seq<(Seq<char>, nat)>,
    l: Seq<(Seq<char>, nat)>,
    m: Map<Seq<char>, nat>,
    n: int,
    p: int,
)
    requires
        0 <= n < l.len(),
        0 <= p <= out.len(),
        is_ascending_listing(l, m),
        holds_first(out, l, n),
        in_ranking_order(out),
        p < out.len() ==> !ranks_before(out[p], l[n]),
    ensures
        forall|q: int| p <= q < out.len() ==> ranks_before(l[n], #[trigger] out[q]),
{
    if p < out.len() {
        let j = lemma_source_of(out, l, n, p);
        assert(lex_lt(l[j].0, l[n].0));
        if l[j].0 == l[n].0 {
            lemma_lex_irreflexive(l[j].0);
        }
        lemma_ranks_connected(out[p], l[n]);
        assert forall|q: int| p <= q < out.len() implies ranks_before(l[n], #[trigger] out[q]) by {
            if p < q {
                assert(ranks_before(out[p], out[q]));
                lemma_ranks_transitive(l[n], out[p], out[q]);
            }
        }
    }
}

/// Where a pair ranks before a new pair, so do all the pairs in front of it.
proof fn lemma_front_ranks_before(out: Seq<(Seq<char>, nat)>, e: (Seq<char>, nat), p: int)
    requires
        0 <= p < out.len(),
        in_ranking_order(out),
        ranks_before(out[p], e),
    ensures
        forall|q: int| 0 <= q <= p ==> ranks_before(#[trigger] out[q], e),
{
    assert forall|q: int| 0 <= q <= p implies ranks_before(#[trigger] out[q], e) by {
        if q < p {
            assert(ranks_before(out[q], out[p]));
            lemma_ranks_transitive(out[q], out[p], e);
        }
    }
}

proof fn lemma_insert_keeps_order(out: Seq<(Seq<char>, nat)>, e: (Seq<char>, nat), p: int)
    requires
        0 <= p <= out.len(),
        in_ranking_order(out),
        forall|q: int| 0 <= q < p ==> ranks_before(#[trigger] out[q], e),
        forall|q: int| p <= q < out.len() ==> ranks_before(e, #[trigger] out[q]),
    ensures
        in_ranking_order(out.insert(p, e)),
{
    let after = out.insert(p, e);
    assert forall|a: int, b: int| 0 <= a < b < after.len() implies ranks_before(
        #[trigger] after[a],
        #[trigger] after[b],
    ) by {
        if b < p {
            assert(ranks_before(out[a], out[b]));
        } else if b == p {
            assert(ranks_before(out[a], e));
        } else if a < p {
            assert(ranks_before(out[a], out[b - 1]));
        } else if a == p {
            assert(ranks_before(e, out[b - 1]));
        } else {
            assert(ranks_before(out[a - 1], out[b - 1]));
        }
    }
}

proof fn lemma_holds_all(s: Seq<(Seq<char>, nat)>, l: Seq<(Seq<char>, nat)>, m: Map<Seq<char>, nat>)
    requires
        is_ascending_listing(l, m),
        holds_first(s, l, l.len() as int),
    ensures
        lists_all(s, m),
{
    assert forall|q: int| 0 <= q < s.len() implies m.contains_pair(#[trigger] s[q].0, s[q].1) by {
        let j = lemma_source_of(s, l, l.len() as int, q);
        assert(m.contains_pair(l[j].0, l[j].1));
    }
    assert forall|k: Seq<char>| m.dom().contains(k) implies exists|q: int|
        0 <= q < s.len() && #[trigger] s[q].0 == k by {
        let j = choose|j: int| 0 <= j < l.len() && #[trigger] l[j].0 == k;
        let q = lemma_place_of(s, l, l.len() as int, j);
        assert(s[q].0 == k);
    }
}

/// The entries of a mapping by count, largest first; entries with the same
/// count stand in ascending label order.
pub fn ranked(counts: &Counts) -> (r: Vec<Entry>)
    requires
        counts.wf(),
    ensures
        is_ranking(entries_view(r@), counts@),
{
    let ghost l = counts.listing();
    let n: usize = counts.len();
    let mut out: Vec<Entry> = Vec::new();
    proof {
        counts.lemma_listing();
        assert(entries_view(out@) =~= l.take(0));
    }
    let mut i: usize = 0;
    while i < n
        invariant
            l == counts.listing(),
            is_ascending_listing(l, counts@),
            n == l.len(),
            i <= n,
            out@.len() == i,
            holds_first(entries_view(out@), l, i as int),
            in_ranking_order(entries_view(out@)),
        decreases n - i,
    {
        let e = entry_at(counts, i);
        let ghost before = entries_view(out@);
        let mut p: usize = 0;
        let mut end: usize = out.len();
        while p < end
            invariant
                p <= end <= out@.len(),
                i < n,
                n == l.len(),
                before == entries_view(out@),
                is_ascending_listing(l, counts@),
                holds_first(before, l, i as int),
                in_ranking_order(before),
                (e.label@, e.count as nat) == l[i as int],
                forall|q: int| 0 <= q < p ==> ranks_before(#[trigger] before[q], l[i as int]),
                forall|q: int|
                    end <= q < before.len() ==> ranks_before(l[i as int], #[trigger] before[q]),
            decreases end - p,
        {
            let mid: usize = p + (end - p) / 2;
            if ranks_ahead(&out[mid], &e) {
                proof {
                    lemma_front_ranks_before(before, l[i as int], mid as int);
                }
                p = mid + 1;
            } else {
                proof {
                    lemma_rest_ranks_after(before, l, counts@, i as int, mid as int);
                }
                end = mid;
            }
        }
        proof {
            lemma_insert_holds_first(before, l, i as int, p as int);
            lemma_insert_keeps_order(before, l[i as int], p as int);
        }
        out.insert(p, e);
        assert(entries_view(out@) =~= before.insert(p as int, l[i as int]));
        i += 1;
    }
    proof {
        lemma_holds_all(entries_view(out@), l, counts@);
    }
    out
}

/// The first `limit` entries, or all of them where there are fewer.
pub fn top(entries: Vec<Entry>, limit: usize) -> (r: Vec<Entry>)
    ensures
        r@.len() <= limit,
        entries_view(r@) == entries_view(entries@).take(
            if entries@.len() <= limit {
                entries@.len() as int
            } else {
                limit as int
            },
        ),
{
    let mut out = entries;
    if out.len() > limit {
        out.truncate(limit);
    }
    assert(entries_view(out@) =~= entries_view(entries@).take(out@.len() as int));
    out
}

/// The three orders in which a mapping is listed.
pub enum ListingOrder {
    /// By label, smallest first.
    Ascending,
    /// By label, largest first.
    Descending,
    /// By count, largest first, equal counts by label ascending.
    ByCount,
}

/// `a` stands before `b` in the given order.
pub open spec fn precedes(order: ListingOrder, a: (Seq<char>, nat), b: (Seq<char>, nat)) -> bool {
    match order {
        ListingOrder::Ascending => lex_lt(a.0, b.0),
        ListingOrder::Descending => lex_lt(b.0, a.0),
        ListingOrder::ByCount => ranks_before(a, b),
    }
}

/// `s` lists `m` completely in the given order.
pub open spec fn is_listing_in(
    order: ListingOrder,
    s: Seq<(Seq<char>, nat)>,
    m: Map<Seq<char>, nat>,
) -> bool {
    &&& forall|i: int, j: int|
        0 <= i < j < s.len() ==> precedes(order, #[trigger] s[i], #[trigger] s[j])
    &&& lists_all(s, m)
}

proof fn lemma_precedes_transitive(
    order: ListingOrder,
    a: (Seq<char>, nat),
    b: (Seq<char>, nat),
    c: (Seq<char>, nat),
)
    requires
        precedes(order, a, b),
        precedes(order, b, c),
    ensures
        precedes(order, a, c),
{
    match order {
        ListingOrder::Ascending => lemma_lex_transitive(a.0, b.0, c.0),
        ListingOrder::Descending => lemma_lex_transitive(c.0, b.0, a.0),
        ListingOrder::ByCount => lemma_ranks_transitive(a, b, c),
    }
}

proof fn lemma_precedes_irreflexive(order: ListingOrder, a: (Seq<char>, nat))
    ensures
        !precedes(order, a, a),
{
    lemma_lex_irreflexive(a.0);
}

proof fn lemma_listing_tail(order: ListingOrder, s: Seq<(Seq<char>, nat)>, m: Map<Seq<char>, nat>)
    requires
        s.len() > 0,
        is_listing_in(order, s, m),
    ensures
        is_listing_in(order, s.drop_first(), m.remove(s[0].0)),
{
    let t = s.drop_first();
    let rest = m.remove(s[0].0);
    assert forall|i: int, j: int| 0 <= i < j < t.len() implies precedes(
        order,
        #[trigger] t[i],
        #[trigger] t[j],
    ) by {
        assert(precedes(order, s[i + 1], s[j + 1]));
    }
    assert forall|i: int| 0 <= i < t.len() implies rest.contains_pair(#[trigger] t[i].0, t[i].1) by {
        assert(m.contains_pair(s[i + 1].0, s[i + 1].1));
        assert(m.contains_pair(s[0].0, s[0].1));
        assert(precedes(order, s[0], s[i + 1]));
        if s[i + 1].0 == s[0].0 {
            assert(s[i + 1] == s[0]);
            lemma_precedes_irreflexive(order, s[0]);
        }
    }
    assert forall|k: Seq<char>| rest.dom().contains(k) implies exists|i: int|
        0 <= i < t.len() && #[trigger] t[i].0 == k by {
        assert(m.dom().contains(k));
        let i = choose|i: int| 0 <= i < s.len() && #[trigger] s[i].0 == k;
        assert(t[i - 1].0 == k);
    }
}

/// A mapping has one listing in each order.
pub proof fn lemma_listing_unique(
    order: ListingOrder,
    s1: Seq<(Seq<char>, nat)>,
    s2: Seq<(Seq<char>, nat)>,
    m: Map<Seq<char>, nat>,
)
    requires
        is_listing_in(order, s1, m),
        is_listing_in(order, s2, m),
    ensures
        s1 == s2,
    decreases s1.len(),
{
    if s1.len() == 0 {
        if s2.len() > 0 {
            assert(m.contains_pair(s2[0].0, s2[0].1));
            let i = choose|i: int| 0 <= i < s1.len() && #[trigger] s1[i].0 == s2[0].0;
        }
        assert(s1 =~= s2);
    } else {
        assert(m.contains_pair(s1[0].0, s1[0].1));
        let j = choose|j: int| 0 <= j < s2.len() && #[trigger] s2[j].0 == s1[0].0;
        assert(m.contains_pair(s2[j].0, s2[j].1));
        assert(s2[j] == s1[0]);
        assert(m.contains_pair(s2[0].0, s2[0].1));
        let i = choose|i: int| 0 <= i < s1.len() && #[trigger] s1[i].0 == s2[0].0;
        assert(m.contains_pair(s1[i].0, s1[i].1));
        assert(s1[i] == s2[0]);
        if j > 0 {
            assert(precedes(order, s2[0], s2[j]));
            if i > 0 {
                assert(precedes(order, s1[0], s1[i]));
                lemma_precedes_transitive(order, s1[0], s2[0], s1[0]);
            }
            lemma_precedes_irreflexive(order, s1[0]);
        }
        assert(s1[0] == s2[0]);
        lemma_listing_tail(order, s1, m);
        lemma_listing_tail(order, s2, m);
        lemma_listing_unique(order, s1.drop_first(), s2.drop_first(), m.remove(s1[0].0));
        assert(s1 =~= seq![s1[0]] + s1.drop_first());
        assert(s2 =~= seq![s2[0]] + s2.drop_first());
    }
}

/// A mapping has exactly one ranking.
pub proof fn lemma_ranking_unique(
    s1: Seq<(Seq<char>, nat)>,
    s2: Seq<(Seq<char>, nat)>,
    m: Map<Seq<char>, nat>,
)
    requires
        is_ranking(s1, m),
        is_ranking(s2, m),
    ensures
        s1 == s2,
{
    lemma_listing_unique(ListingOrder::ByCount, s1, s2, m);
}

/// A mapping has exactly one listing in ascending label order.
pub proof fn lemma_ascending_unique(
    s1: Seq<(Seq<char>, nat)>,
    s2: Seq<(Seq<char>, nat)>,
    m: Map<Seq<char>, nat>,
)
    requires
        is_ascending_listing(s1, m),
        is_ascending_listing(s2, m),
    ensures
        s1 == s2,
{
    lemma_listing_unique(ListingOrder::Ascending, s1, s2, m);
}

/// A mapping has exactly one listing in descending label order.
pub proof fn lemma_descending_unique(
    s1: Seq<(Seq<char>, nat)>,
    s2: Seq<(Seq<char>, nat)>,
    m: Map<Seq<char>, nat>,
)
    requires
        is_descending_listing(s1, m),
        is_descending_listing(s2, m),
    ensures
        s1 == s2,
{
    lemma_listing_unique(ListingOrder::Descending, s1, s2, m);
}

} // verus!
