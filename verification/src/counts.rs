//! Occurrence counts by label, kept in ascending label order.

use crate::text::{
    compare_text, lemma_lex_connected, lemma_lex_irreflexive, lemma_lex_transitive, lex_lt,
    Precedence,
};
use vstd::prelude::*;

verus! {

/// How often `k` was counted in `m`; a label that is absent counts as zero.
pub open spec fn count_of(m: Map<Seq<char>, nat>, k: Seq<char>) -> nat {
    if m.dom().contains(k) {
        m[k]
    } else {
        0
    }
}

/// `m` after `n` more occurrences of `k`.
pub open spec fn bumped(m: Map<Seq<char>, nat>, k: Seq<char>, n: nat) -> Map<Seq<char>, nat> {
    m.insert(k, count_of(m, k) + n)
}

/// The label-wise sum of two mappings: a label is present when either has it.
pub open spec fn merged(a: Map<Seq<char>, nat>, b: Map<Seq<char>, nat>) -> Map<Seq<char>, nat> {
    Map::new(
        |k: Seq<char>| a.dom().contains(k) || b.dom().contains(k),
        |k: Seq<char>| count_of(a, k) + count_of(b, k),
    )
}

/// Every label's two counts, added, fit the counter's width.
pub open spec fn sums_fit(a: Map<Seq<char>, nat>, b: Map<Seq<char>, nat>) -> bool {
    forall|k: Seq<char>| #[trigger] count_of(a, k) + count_of(b, k) <= u64::MAX
}

/// No count in `m` exceeds `n`.
pub open spec fn bounded_by(m: Map<Seq<char>, nat>, n: nat) -> bool {
    forall|k: Seq<char>| #[trigger] count_of(m, k) <= n
}

/// Every label present in `m` was counted at least once.
pub open spec fn all_positive(m: Map<Seq<char>, nat>) -> bool {
    forall|k: Seq<char>| m.dom().contains(k) ==> #[trigger] count_of(m, k) >= 1
}

/// `s` lists `m` completely, one pair per label, in ascending label order.
pub open spec fn is_ascending_listing(s: Seq<(Seq<char>, nat)>, m: Map<Seq<char>, nat>) -> bool {
    &&& forall|i: int, j: int|
        0 <= i < j < s.len() ==> lex_lt(#[trigger] s[i].0, #[trigger] s[j].0)
    &&& forall|i: int| 0 <= i < s.len() ==> m.contains_pair(#[trigger] s[i].0, s[i].1)
    &&& forall|k: Seq<char>|
        m.dom().contains(k) ==> exists|i: int| 0 <= i < s.len() && #[trigger] s[i].0 == k
}

/// One label with its count.
#[derive(Clone, Debug, PartialEq, Eq)]
pub struct Entry {
    pub label: String,
    pub count: u64,
}

/// A mapping from label to count.
#[derive(Clone, Debug)]
pub struct Counts {
    entries: Vec<Entry>,
}

impl Counts {
    spec fn key(self, i: int) -> Seq<char> {
        self.entries@[i].label@
    }

    spec fn num(self, i: int) -> nat {
        self.entries@[i].count as nat
    }

    /// The mapping held by the first `n` entries.
    spec fn upto(self, n: int) -> Map<Seq<char>, nat> {
        Map::new(
            |k: Seq<char>| exists|i: int| 0 <= i < n && i < self.entries@.len() && self.key(i) == k,
            |k: Seq<char>|
                self.num(choose|i: int| 0 <= i < n && i < self.entries@.len() && self.key(i) == k),
        )
    }

    /// The labels ascend strictly, so none occurs twice.
    pub closed spec fn wf(self) -> bool {
        forall|i: int, j: int|
            0 <= i < j < self.entries@.len() ==> lex_lt(#[trigger] self.key(i), #[trigger] self.key(j))
    }

    /// The pairs held, in ascending label order.
    pub closed spec fn listing(self) -> Seq<(Seq<char>, nat)> {
        Seq::new(self.entries@.len(), |i: int| (self.key(i), self.num(i)))
    }

    /// The mapping held.
    pub closed spec fn view(self) -> Map<Seq<char>, nat> {
        self.upto(self.entries@.len() as int)
    }

    proof fn lemma_distinct(self, i: int, j: int)
        requires
            self.wf(),
            0 <= i < self.entries@.len(),
            0 <= j < self.entries@.len(),
            self.key(i) == self.key(j),
        ensures
            i == j,
    {
        lemma_lex_irreflexive(self.key(i));
    }

    proof fn lemma_upto_at(self, n: int, i: int)
        requires
            self.wf(),
            0 <= i < n,
            i < self.entries@.len(),
        ensures
            self.upto(n).dom().contains(self.key(i)),
            self.upto(n)[self.key(i)] == self.num(i),
    {
        let k = self.key(i);
        let j = choose|j: int| 0 <= j < n && j < self.entries@.len() && self.key(j) == k;
        self.lemma_distinct(i, j);
    }

    proof fn lemma_upto_step(self, n: int)
        requires
            self.wf(),
            0 <= n < self.entries@.len(),
        ensures
            !self.upto(n).dom().contains(self.key(n)),
            self.upto(n + 1) == self.upto(n).insert(self.key(n), self.num(n)),
    {
        if self.upto(n).dom().contains(self.key(n)) {
            let j = choose|j: int| 0 <= j < n && j < self.entries@.len() && self.key(j) == self.key(n);
            self.lemma_distinct(j, n);
        }
        let a = self.upto(n + 1);
        let b = self.upto(n).insert(self.key(n), self.num(n));
        assert forall|k: Seq<char>| a.dom().contains(k) == b.dom().contains(k) by {
            if a.dom().contains(k) {
                let j = choose|j: int| 0 <= j < n + 1 && j < self.entries@.len() && self.key(j) == k;
                if j < n {
                    self.lemma_upto_at(n, j);
                }
            }
            if b.dom().contains(k) {
                if k == self.key(n) {
                    self.lemma_upto_at(n + 1, n);
                } else {
                    let j = choose|j: int| 0 <= j < n && j < self.entries@.len() && self.key(j) == k;
                    self.lemma_upto_at(n + 1, j);
                }
            }
        }
        assert forall|k: Seq<char>| a.dom().contains(k) implies a[k] == b[k] by {
            let j = choose|j: int| 0 <= j < n + 1 && j < self.entries@.len() && self.key(j) == k;
            self.lemma_upto_at(n + 1, j);
            if j < n {
                self.lemma_upto_at(n, j);
                self.lemma_distinct(j, j);
                if k == self.key(n) {
                    self.lemma_distinct(j, n);
                }
            }
        }
        assert(a =~= b);
    }

    /// The listing is the mapping, label by label, in ascending order.
    pub proof fn lemma_listing(self)
        requires
            self.wf(),
        ensures
            is_ascending_listing(self.listing(), self@),
    {
        let s = self.listing();
        let m = self@;
        assert forall|i: int, j: int| 0 <= i < j < s.len() implies lex_lt(
            #[trigger] s[i].0,
            #[trigger] s[j].0,
        ) by {
            assert(lex_lt(self.key(i), self.key(j)));
        }
        assert forall|i: int| 0 <= i < s.len() implies m.contains_pair(#[trigger] s[i].0, s[i].1) by {
            self.lemma_upto_at(self.entries@.len() as int, i);
        }
        assert forall|k: Seq<char>| m.dom().contains(k) implies exists|i: int|
            0 <= i < s.len() && #[trigger] s[i].0 == k by {
            let j = choose|j: int|
                0 <= j < self.entries@.len() && j < self.entries@.len() && self.key(j) == k;
            assert(s[j].0 == k);
        }
    }

    /// An empty mapping.
    pub fn new() -> (r: Counts)
        ensures
            r.wf(),
            r@ == Map::<Seq<char>, nat>::empty(),
    {
        let r = Counts { entries: Vec::new() };
        assert(r@ =~= Map::<Seq<char>, nat>::empty());
        r
    }

    /// The number of labels held.
    pub fn len(&self) -> (n: usize)
        ensures
            n == self.listing().len(),
    {
        self.entries.len()
    }

    /// The label at position `i` of the listing.
    pub fn label_at(&self, i: usize) -> (r: &String)
        requires
            i < self.listing().len(),
        ensures
            r@ == self.listing()[i as int].0,
    {
        &self.entries[i].label
    }

    /// The count at position `i` of the listing.
    pub fn count_at(&self, i: usize) -> (r: u64)
        requires
            i < self.listing().len(),
        ensures
            r == self.listing()[i as int].1,
    {
        self.entries[i].count
    }

    /// Where `label` stands, or where it would be put.
    fn locate(&self, label: &str) -> (r: (bool, usize))
        requires
            self.wf(),
        ensures
            r.1 <= self.entries@.len(),
            r.0 ==> r.1 < self.entries@.len() && self.key(r.1 as int) == label@,
            !r.0 ==> forall|i: int| 0 <= i < r.1 ==> lex_lt(#[trigger] self.key(i), label@),
            !r.0 ==> forall|i: int|
                r.1 <= i < self.entries@.len() ==> lex_lt(label@, #[trigger] self.key(i)),
    {
        let mut lo: usize = 0;
        let mut hi: usize = self.entries.len();
        while lo < hi
            invariant
                self.wf(),
                lo <= hi <= self.entries@.len(),
                forall|i: int| 0 <= i < lo ==> lex_lt(#[trigger] self.key(i), label@),
                forall|i: int| hi <= i < self.entries@.len() ==> lex_lt(label@, #[trigger] self.key(i)),
            decreases hi - lo,
        {
            let mid: usize = lo + (hi - lo) / 2;
            match compare_text(self.entries[mid].label.as_str(), label) {
                Precedence::Same => {
                    return (true, mid);
                },
                Precedence::Before => {
                    assert forall|i: int| 0 <= i < mid + 1 implies lex_lt(
                        #[trigger] self.key(i),
                        label@,
                    ) by {
                        if i < mid {
                            assert(lex_lt(self.key(i), self.key(mid as int)));
                            lemma_lex_transitive(self.key(i), self.key(mid as int), label@);
                        }
                    }
                    lo = mid + 1;
                },
                Precedence::After => {
                    proof {
                        lemma_lex_connected(self.key(mid as int), label@);
                    }
                    assert forall|i: int| mid <= i < self.entries@.len() implies lex_lt(
                        label@,
                        #[trigger] self.key(i),
                    ) by {
                        if mid < i {
                            assert(lex_lt(self.key(mid as int), self.key(i)));
                            lemma_lex_transitive(label@, self.key(mid as int), self.key(i));
                        }
                    }
                    hi = mid;
                },
            }
        }
        (false, lo)
    }

    proof fn lemma_absent(self, k: Seq<char>)
        requires
            forall|i: int| 0 <= i < self.entries@.len() ==> #[trigger] self.key(i) != k,
        ensures
            !self@.dom().contains(k),
    {
    }

    /// The count recorded for `label`, if it is present.
    pub fn get(&self, label: &str) -> (r: Option<u64>)
        requires
            self.wf(),
        ensures
            r is Some == self@.dom().contains(label@),
            r matches Some(n) ==> n == self@[label@],
    {
        let (found, pos) = self.locate(label);
        if found {
            proof {
                self.lemma_upto_at(self.entries@.len() as int, pos as int);
            }
            Some(self.entries[pos].count)
        } else {
            proof {
                assert forall|i: int| 0 <= i < self.entries@.len() implies #[trigger] self.key(i)
                    != label@ by {
                    lemma_lex_irreflexive(label@);
                }
                self.lemma_absent(label@);
            }
            None
        }
    }

    /// Counts `n` more occurrences of `label`, entering the label if it is new.
    pub fn add(&mut self, label: &str, n: u64)
        requires
            old(self).wf(),
            count_of(old(self)@, label@) + n <= u64::MAX,
        ensures
            final(self).wf(),
            final(self)@ == bumped(old(self)@, label@, n as nat),
    {
        let ghost before = *self;
        let ghost len = self.entries@.len() as int;
        let (found, pos) = self.locate(label);
        if found {
            proof {
                before.lemma_upto_at(len, pos as int);
            }
            let sum: u64 = self.entries[pos].count + n;
            self.entries[pos].count = sum;
            proof {
                let after = *self;
                assert forall|i: int| 0 <= i < len implies after.key(i) == before.key(i) by {}
                assert(after.wf()) by {
                    assert forall|i: int, j: int| 0 <= i < j < len implies lex_lt(
                        #[trigger] after.key(i),
                        #[trigger] after.key(j),
                    ) by {
                        assert(lex_lt(before.key(i), before.key(j)));
                    }
                }
                let want = bumped(before@, label@, n as nat);
                assert forall|k: Seq<char>| after@.dom().contains(k) == want.dom().contains(k) by {
                    if after@.dom().contains(k) {
                        let j = choose|j: int| 0 <= j < len && j < len && after.key(j) == k;
                        before.lemma_upto_at(len, j);
                    }
                    if want.dom().contains(k) {
                        if k == label@ {
                            after.lemma_upto_at(len, pos as int);
                        } else {
                            let j = choose|j: int| 0 <= j < len && j < len && before.key(j) == k;
                            after.lemma_upto_at(len, j);
                        }
                    }
                }
                assert forall|k: Seq<char>| after@.dom().contains(k) implies after@[k] == want[k] by {
                    let j = choose|j: int| 0 <= j < len && j < len && after.key(j) == k;
                    after.lemma_upto_at(len, j);
                    before.lemma_upto_at(len, j);
                    if j != pos {
                        if k == label@ {
                            before.lemma_distinct(j, pos as int);
                        }
                    }
                }
                assert(after@ =~= want);
            }
        } else {
            let entry = Entry { label: label.to_owned(), count: n };
            self.entries.insert(pos, entry);
            proof {
                let after = *self;
                assert forall|i: int| 0 <= i < len + 1 implies #[trigger] after.key(i) == (if i < pos {
                    before.key(i)
                } else if i == pos {
                    label@
                } else {
                    before.key(i - 1)
                }) by {}
                assert(after.wf()) by {
                    assert forall|i: int, j: int| 0 <= i < j < len + 1 implies lex_lt(
                        #[trigger] after.key(i),
                        #[trigger] after.key(j),
                    ) by {
                        if j < pos {
                            assert(lex_lt(before.key(i), before.key(j)));
                        } else if j == pos {
                            assert(lex_lt(before.key(i), label@));
                        } else if i < pos {
                            assert(lex_lt(before.key(i), before.key(j - 1)));
                        } else if i == pos {
                            assert(lex_lt(label@, before.key(j - 1)));
                        } else {
                            assert(lex_lt(before.key(i - 1), before.key(j - 1)));
                        }
                    }
                }
                assert(!before@.dom().contains(label@)) by {
                    assert forall|i: int| 0 <= i < len implies #[trigger] before.key(i)
                        != label@ by {
                        lemma_lex_irreflexive(label@);
                    }
                    before.lemma_absent(label@);
                }
                let want = bumped(before@, label@, n as nat);
                assert forall|k: Seq<char>| after@.dom().contains(k) == want.dom().contains(k) by {
                    if after@.dom().contains(k) {
                        let j = choose|j: int| 0 <= j < len + 1 && j < len + 1 && after.key(j) == k;
                        if j < pos {
                            before.lemma_upto_at(len, j);
                        } else if j > pos {
                            before.lemma_upto_at(len, j - 1);
                        }
                    }
                    if want.dom().contains(k) {
                        if k == label@ {
                            after.lemma_upto_at(len + 1, pos as int);
                        } else {
                            let j = choose|j: int| 0 <= j < len && j < len && before.key(j) == k;
                            if j < pos {
                                after.lemma_upto_at(len + 1, j);
                            } else {
                                after.lemma_upto_at(len + 1, j + 1);
                            }
                        }
                    }
                }
                assert forall|k: Seq<char>| after@.dom().contains(k) implies after@[k] == want[k] by {
                    let j = choose|j: int| 0 <= j < len + 1 && j < len + 1 && after.key(j) == k;
                    after.lemma_upto_at(len + 1, j);
                    if j < pos {
                        before.lemma_upto_at(len, j);
                    } else if j > pos {
                        before.lemma_upto_at(len, j - 1);
                    }
                }
                assert(after@ =~= want);
            }
        }
    }

    /// Every count held is one that a counter can hold.
    pub proof fn lemma_counts_in_range(self)
        requires
            self.wf(),
        ensures
            bounded_by(self@, u64::MAX as nat),
    {
        assert forall|k: Seq<char>| #[trigger] count_of(self@, k) <= u64::MAX by {
            if self@.dom().contains(k) {
                let j = choose|j: int|
                    0 <= j < self.entries@.len() && j < self.entries@.len() && self.key(j) == k;
                self.lemma_upto_at(self.entries@.len() as int, j);
            }
        }
    }

    /// Whether `other` can be added to this mapping without a count
    /// leaving the counter's range.
    pub fn fits(&self, other: &Counts) -> (r: bool)
        requires
            self.wf(),
            other.wf(),
        ensures
            r == sums_fit(self@, other@),
    {
        let ghost len = other.entries@.len() as int;
        let mut i: usize = 0;
        while i < other.entries.len()
            invariant
                self.wf(),
                other.wf(),
                len == other.entries@.len(),
                i <= len,
                forall|j: int|
                    0 <= j < i ==> count_of(self@, #[trigger] other.key(j)) + other.num(j)
                        <= u64::MAX,
            decreases len - i,
        {
            let entry = &other.entries[i];
            proof {
                other.lemma_upto_at(len, i as int);
            }
            match self.get(entry.label.as_str()) {
                Some(c) => {
                    if c > u64::MAX - entry.count {
                        assert(count_of(self@, other.key(i as int)) + count_of(
                            other@,
                            other.key(i as int),
                        ) > u64::MAX);
                        return false;
                    }
                },
                None => {},
            }
            i += 1;
        }
        proof {
            self.lemma_counts_in_range();
            assert forall|k: Seq<char>| #[trigger] count_of(self@, k) + count_of(other@, k)
                <= u64::MAX by {
                assert(count_of(self@, k) <= u64::MAX);
                if other@.dom().contains(k) {
                    let j = choose|j: int| 0 <= j < len && j < len && other.key(j) == k;
                    other.lemma_upto_at(len, j);
                }
            }
        }
        true
    }

    /// Adds every count of `other` to this mapping, label by label.
    pub fn absorb(&mut self, other: &Counts)
        requires
            old(self).wf(),
            other.wf(),
            sums_fit(old(self)@, other@),
        ensures
            final(self).wf(),
            final(self)@ == merged(old(self)@, other@),
    {
        let ghost base = self@;
        let ghost len = other.entries@.len() as int;
        assert(self@ =~= merged(base, other.upto(0)));
        let mut i: usize = 0;
        while i < other.entries.len()
            invariant
                self.wf(),
                other.wf(),
                len == other.entries@.len(),
                i <= len,
                sums_fit(base, other@),
                self@ == merged(base, other.upto(i as int)),
            decreases len - i,
        {
            let entry = &other.entries[i];
            let ghost k = other.key(i as int);
            let ghost prior = self@;
            proof {
                other.lemma_upto_step(i as int);
                other.lemma_upto_at(len, i as int);
                assert(count_of(base, k) + count_of(other@, k) <= u64::MAX);
                assert(count_of(prior, k) == count_of(base, k));
            }
            self.add(entry.label.as_str(), entry.count);
            assert(self@ =~= merged(base, other.upto(i + 1)));
            i += 1;
        }
    }
}

} // verus!
