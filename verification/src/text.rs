//! Character-level helpers on strings: code-point order, prefixes and
//! substring search, each with a mathematical statement over `Seq<char>`.

use vstd::prelude::*;
use vstd::std_specs::iter::IteratorSpec;

verus! {

/// Strict lexicographic order on character sequences, comparing code points.
/// A proper prefix sorts before the longer sequence.
pub open spec fn lex_lt(a: Seq<char>, b: Seq<char>) -> bool
    decreases a.len(),
{
    if b.len() == 0 {
        false
    } else if a.len() == 0 {
        true
    } else if a[0] != b[0] {
        a[0] < b[0]
    } else {
        lex_lt(a.drop_first(), b.drop_first())
    }
}

/// The outcome of comparing two texts.
#[derive(Clone, Copy, Debug, PartialEq, Eq, Structural)]
pub enum Precedence {
    Before,
    Same,
    After,
}

/// How `a` stands to `b` in the order of [`lex_lt`].
pub open spec fn precedence(a: Seq<char>, b: Seq<char>) -> Precedence {
    if a == b {
        Precedence::Same
    } else if lex_lt(a, b) {
        Precedence::Before
    } else {
        Precedence::After
    }
}

/// No text sorts before itself.
pub proof fn lemma_lex_irreflexive(a: Seq<char>)
    ensures
        !lex_lt(a, a),
    decreases a.len(),
{
    if a.len() > 0 {
        lemma_lex_irreflexive(a.drop_first());
    }
}

/// The order is transitive.
pub proof fn lemma_lex_transitive(a: Seq<char>, b: Seq<char>, c: Seq<char>)
    requires
        lex_lt(a, b),
        lex_lt(b, c),
    ensures
        lex_lt(a, c),
    decreases a.len(),
{
    if a.len() > 0 && b.len() > 0 && c.len() > 0 && a[0] == b[0] && b[0] == c[0] {
        lemma_lex_transitive(a.drop_first(), b.drop_first(), c.drop_first());
    }
}

/// Two different texts are ordered one way or the other.
pub proof fn lemma_lex_connected(a: Seq<char>, b: Seq<char>)
    ensures
        a == b || lex_lt(a, b) || lex_lt(b, a),
    decreases a.len(),
{
    if a.len() > 0 && b.len() > 0 && a[0] == b[0] {
        lemma_lex_connected(a.drop_first(), b.drop_first());
        if a.drop_first() == b.drop_first() {
            assert(a =~= seq![a[0]] + a.drop_first());
            assert(b =~= seq![b[0]] + b.drop_first());
        }
    } else if a.len() == 0 && b.len() == 0 {
        assert(a =~= b);
    }
}

/// Texts that share their first character compare as their tails do.
pub proof fn lemma_precedence_step(a: Seq<char>, b: Seq<char>)
    requires
        a.len() > 0,
        b.len() > 0,
        a[0] == b[0],
    ensures
        precedence(a, b) == precedence(a.drop_first(), b.drop_first()),
{
    if a.drop_first() == b.drop_first() {
        assert(a =~= seq![a[0]] + a.drop_first());
        assert(b =~= seq![b[0]] + b.drop_first());
    }
}

/// Compares two strings by code point, without allocating.
pub fn compare_text(a: &str, b: &str) -> (r: Precedence)
    ensures
        r == precedence(a@, b@),
{
    let mut left = a.chars();
    let mut right = b.chars();
    loop
        invariant
            left.obeys_prophetic_iter_laws(),
            right.obeys_prophetic_iter_laws(),
            left.decrease() is Some,
            precedence(a@, b@) == precedence(left.remaining(), right.remaining()),
        decreases left.decrease()->0,
    {
        let ghost l = left.remaining();
        let ghost r = right.remaining();
        let x = left.next();
        let y = right.next();
        match (x, y) {
            (None, None) => {
                assert(l =~= r);
                return Precedence::Same;
            },
            (None, Some(_)) => {
                return Precedence::Before;
            },
            (Some(_), None) => {
                return Precedence::After;
            },
            (Some(p), Some(q)) => {
                if p != q {
                    if p < q {
                        return Precedence::Before;
                    } else {
                        return Precedence::After;
                    }
                }
                assert(precedence(l, r) == precedence(l.drop_first(), r.drop_first())) by {
                    lemma_precedence_step(l, r);
                }
            },
        }
    }
}

/// The characters of a string, in order.
pub fn to_chars(s: &str) -> (v: Vec<char>)
    ensures
        v@ == s@,
{
    let mut v: Vec<char> = Vec::new();
    for c in it: s.chars()
        invariant
            v@ == it.seq().take(it.index() as int),
            it.seq() == s@,
    {
        v.push(c);
    }
    v
}

/// A text begins with a prefix exactly when their tails do, once the first
/// characters agree.
pub proof fn lemma_prefix_step(prefix: Seq<char>, s: Seq<char>)
    requires
        prefix.len() > 0,
        s.len() > 0,
    ensures
        prefix.is_prefix_of(s) == (prefix[0] == s[0] && prefix.drop_first().is_prefix_of(
            s.drop_first(),
        )),
{
    let pt = prefix.drop_first();
    let st = s.drop_first();
    if prefix.is_prefix_of(s) {
        assert(prefix[0] == s.subrange(0, prefix.len() as int)[0]);
        assert forall|i: int| 0 <= i < pt.len() implies pt[i] == st.subrange(
            0,
            pt.len() as int,
        )[i] by {
            assert(prefix[i + 1] == s.subrange(0, prefix.len() as int)[i + 1]);
        }
        assert(pt =~= st.subrange(0, pt.len() as int));
    }
    if prefix[0] == s[0] && pt.is_prefix_of(st) {
        assert forall|i: int| 0 <= i < prefix.len() implies prefix[i] == s.subrange(
            0,
            prefix.len() as int,
        )[i] by {
            if i > 0 {
                assert(pt[i - 1] == st.subrange(0, pt.len() as int)[i - 1]);
            }
        }
        assert(prefix =~= s.subrange(0, prefix.len() as int));
    }
}

/// Whether `s` begins with `prefix`.
pub fn has_prefix(s: &str, prefix: &str) -> (r: bool)
    ensures
        r == prefix@.is_prefix_of(s@),
{
    let mut want = prefix.chars();
    let mut have = s.chars();
    loop
        invariant
            want.obeys_prophetic_iter_laws(),
            have.obeys_prophetic_iter_laws(),
            want.decrease() is Some,
            prefix@.is_prefix_of(s@) == want.remaining().is_prefix_of(have.remaining()),
        decreases want.decrease()->0,
    {
        let ghost w = want.remaining();
        let ghost h = have.remaining();
        let x = want.next();
        let y = have.next();
        match (x, y) {
            (None, _) => {
                assert(w =~= h.subrange(0, 0));
                return true;
            },
            (Some(_), None) => {
                return false;
            },
            (Some(p), Some(q)) => {
                assert(w.is_prefix_of(h) == (w[0] == h[0] && w.drop_first().is_prefix_of(
                    h.drop_first(),
                ))) by {
                    lemma_prefix_step(w, h);
                }
                if p != q {
                    return false;
                }
            },
        }
    }
}

/// `needle` stands in `hay` at position `i`.
pub open spec fn occurs_at(needle: Seq<char>, hay: Seq<char>, i: int) -> bool {
    &&& 0 <= i
    &&& i + needle.len() <= hay.len()
    &&& hay.subrange(i, i + needle.len()) == needle
}

/// `needle` stands somewhere in `hay` as a contiguous run of characters.
pub open spec fn occurs_in(needle: Seq<char>, hay: Seq<char>) -> bool {
    exists|i: int| occurs_at(needle, hay, i)
}

fn matches_at(hay: &Vec<char>, needle: &Vec<char>, i: usize) -> (r: bool)
    requires
        i + needle.len() <= hay.len(),
    ensures
        r == occurs_at(needle@, hay@, i as int),
{
    let mut k: usize = 0;
    while k < needle.len()
        invariant
            k <= needle.len(),
            i + needle.len() <= hay.len(),
            forall|j: int| 0 <= j < k ==> hay@[i + j] == needle@[j],
        decreases needle.len() - k,
    {
        if hay[i + k] != needle[k] {
            assert(hay@.subrange(i as int, i + needle.len())[k as int] != needle@[k as int]);
            return false;
        }
        k += 1;
    }
    assert(hay@.subrange(i as int, i + needle.len()) =~= needle@);
    true
}

/// Whether `needle` occurs in `hay`; the comparison is exact, character by
/// character.
pub fn contains_text(hay: &str, needle: &str) -> (r: bool)
    ensures
        r == occurs_in(needle@, hay@),
{
    let h = to_chars(hay);
    let n = to_chars(needle);
    if n.len() > h.len() {
        return false;
    }
    let last: usize = h.len() - n.len();
    let mut i: usize = 0;
    loop
        invariant
            i <= last,
            last == h.len() - n.len(),
            n.len() <= h.len(),
            h@ == hay@,
            n@ == needle@,
            forall|j: int| 0 <= j < i ==> !occurs_at(needle@, hay@, j),
        decreases last - i,
    {
        if matches_at(&h, &n, i) {
            return true;
        }
        if i == last {
            return false;
        }
        i += 1;
    }
}

} // verus!
