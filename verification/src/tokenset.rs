use vstd::prelude::*;

use crate::frac::Frac;
use crate::ngram::vec_contains_string;

verus! {

// A set of distinct tokens, and the Jaccard distance between two such
// sets.  The distance between sets `A` and `B` is
// `(|A union B| - |A intersect B|) / |A union B|`; when the union is
// empty the distance defaults to 0 or 1 depending on the caller's
// convention.

/// The most tokens a set may hold; keeps all cardinality arithmetic far
/// away from machine limits.
pub const MAX_TOKENS: usize = 0x7fff_ffff;

/// Pushing an element onto a sequence inserts it into the set of its
/// elements.
pub proof fn lemma_to_set_push(s: Seq<Seq<char>>, x: Seq<char>)
    ensures
        s.push(x).to_set() =~= s.to_set().insert(x),
{
    broadcast use vstd::set::group_set_axioms;

    assert forall|y: Seq<char>| #[trigger] s.push(x).contains(y) implies s.to_set().insert(
        x,
    ).contains(y) by {
        vstd::seq_lib::lemma_seq_contains_after_push(s, x, y);
    }
    assert forall|y: Seq<char>| #[trigger] s.to_set().insert(x).contains(y) implies s.push(
        x,
    ).contains(y) by {
        vstd::seq_lib::lemma_seq_contains_after_push(s, x, y);
    }
}

/// A set of distinct tokens.
pub struct TokenSet {
    pub toks: Vec<String>,
}

impl TokenSet {
    pub open spec fn wf(&self) -> bool {
        &&& self.toks@.map_values(|s: String| s@).no_duplicates()
        &&& self.toks@.len() <= MAX_TOKENS
    }

    /// The mathematical set of tokens held.
    pub open spec fn tokens(&self) -> Set<Seq<char>> {
        self.toks@.map_values(|s: String| s@).to_set()
    }

    /// Builds the set of the distinct entries of `tokens`.
    pub fn new(tokens: &Vec<String>) -> (r: TokenSet)
        requires
            tokens@.len() <= MAX_TOKENS,
        ensures
            r.wf(),
            r.tokens() == tokens@.map_values(|s: String| s@).to_set(),
    {
        let ghost tm = tokens@.map_values(|s: String| s@);
        let mut out: Vec<String> = Vec::new();
        let mut i: usize = 0;
        proof {
            assert(tm.take(0) =~= Seq::<Seq<char>>::empty());
            assert(out@.map_values(|s: String| s@) =~= Seq::<Seq<char>>::empty());
            assert(out@.map_values(|s: String| s@).to_set() =~= tm.take(0).to_set());
        }
        while i < tokens.len()
            invariant
                i <= tokens@.len(),
                tokens@.len() <= MAX_TOKENS,
                tm == tokens@.map_values(|s: String| s@),
                out@.map_values(|s: String| s@).no_duplicates(),
                out@.len() <= i,
                out@.map_values(|s: String| s@).to_set() == tm.take(i as int).to_set(),
            decreases tokens@.len() - i,
        {
            let ghost om = out@.map_values(|s: String| s@);
            proof {
                assert(tm[i as int] == tokens@[i as int]@);
                assert(tm.take(i + 1) =~= tm.take(i as int).push(tm[i as int]));
                lemma_to_set_push(tm.take(i as int), tm[i as int]);
            }
            if !vec_contains_string(&out, &tokens[i]) {
                let x = tokens[i].clone();
                proof {
                    assert(x@ == tokens@[i as int]@);
                    assert((out@.push(x)).map_values(|s: String| s@) =~= om.push(x@));
                    assert(!om.contains(x@));
                    assert(om.push(x@).no_duplicates());
                    lemma_to_set_push(om, x@);
                }
                out.push(x);
            } else {
                proof {
                    broadcast use vstd::set::group_set_axioms;

                    assert(om.contains(tm[i as int]));
                    assert(om.to_set().contains(tm[i as int]));
                    assert(om.to_set().insert(tm[i as int]) =~= om.to_set());
                }
            }
            i += 1;
        }
        proof {
            assert(tm.take(tokens@.len() as int) =~= tm);
        }
        TokenSet { toks: out }
    }

    /// The number of distinct tokens.
    pub fn card(&self) -> (r: usize)
        requires
            self.wf(),
        ensures
            r == self.tokens().len(),
            r <= MAX_TOKENS,
    {
        proof {
            self.toks@.map_values(|s: String| s@).unique_seq_to_set();
        }
        self.toks.len()
    }

    /// Does the set hold `t`?
    pub fn contains_token(&self, t: &String) -> (r: bool)
        ensures
            r == self.tokens().contains(t@),
    {
        let r = vec_contains_string(&self.toks, t);
        proof {
            let m = self.toks@.map_values(|s: String| s@);
            assert(m.to_set().contains(t@) == m.contains(t@));
        }
        r
    }

    /// The number of tokens both sets hold.
    pub fn inter_count(&self, other: &TokenSet) -> (r: usize)
        requires
            self.wf(),
            other.wf(),
        ensures
            r == self.tokens().intersect(other.tokens()).len(),
            r <= self.toks@.len(),
    {
        let ghost sm = self.toks@.map_values(|s: String| s@);
        let ghost ot = other.tokens();
        let mut cnt: usize = 0;
        let mut i: usize = 0;
        proof {
            assert(sm.take(0) =~= Seq::<Seq<char>>::empty());
            assert(sm.take(0).to_set().intersect(ot) =~= Set::<Seq<char>>::empty());
        }
        while i < self.toks.len()
            invariant
                i <= self.toks@.len(),
                sm == self.toks@.map_values(|s: String| s@),
                sm.no_duplicates(),
                ot == other.tokens(),
                cnt <= i,
                cnt == sm.take(i as int).to_set().intersect(ot).len(),
            decreases self.toks@.len() - i,
        {
            let ghost pre = sm.take(i as int).to_set().intersect(ot);
            proof {
                broadcast use vstd::set::group_set_axioms;

                assert(sm.take(i + 1) =~= sm.take(i as int).push(sm[i as int]));
                lemma_to_set_push(sm.take(i as int), sm[i as int]);
                vstd::set_lib::lemma_len_intersect(sm.take(i as int).to_set(), ot);
                assert(sm.take(i as int).to_set().finite());
            }
            if other.contains_token(&self.toks[i]) {
                proof {
                    assert(sm[i as int] == self.toks@[i as int]@);
                    assert(ot.contains(sm[i as int]));
                    assert(sm.take(i + 1).to_set().intersect(ot) =~= pre.insert(sm[i as int]));
                    assert(!sm.take(i as int).contains(sm[i as int]));
                    assert(!pre.contains(sm[i as int]));
                    assert(pre.insert(sm[i as int]).len() == pre.len() + 1);
                }
                cnt += 1;
            } else {
                proof {
                    assert(sm[i as int] == self.toks@[i as int]@);
                    assert(!ot.contains(sm[i as int]));
                    assert(sm.take(i + 1).to_set().intersect(ot) =~= pre);
                }
            }
            i += 1;
        }
        proof {
            assert(sm.take(self.toks@.len() as int) =~= sm);
        }
        cnt
    }
}

/// Inclusion-exclusion for finite sets.
pub proof fn lemma_inclusion_exclusion<A>(s1: Set<A>, s2: Set<A>)
    requires
        s1.finite(),
        s2.finite(),
    ensures
        s1.union(s2).len() + s1.intersect(s2).len() == s1.len() + s2.len(),
    decreases s1.len(),
{
    broadcast use vstd::set::group_set_axioms;

    if s1.is_empty() {
        assert(s1.union(s2) =~= s2);
        assert(s1.intersect(s2) =~= Set::<A>::empty());
    } else {
        let a = s1.choose();
        assert(s1.contains(a));
        let r = s1.remove(a);
        lemma_inclusion_exclusion(r, s2);
        if s2.contains(a) {
            assert(s1.union(s2) =~= r.union(s2));
            assert(s1.intersect(s2) =~= r.intersect(s2).insert(a));
            assert(!r.intersect(s2).contains(a));
            vstd::set_lib::lemma_len_intersect(r, s2);
        } else {
            assert(s1.union(s2) =~= r.union(s2).insert(a));
            assert(s1.intersect(s2) =~= r.intersect(s2));
            assert(!r.union(s2).contains(a));
            vstd::set_lib::lemma_len_union(r, s2);
        }
    }
}

/// The Jaccard distance between two token sets, as an exact fraction.
/// When the union is empty the distance is 1 if `empty_is_one` holds
/// and 0 otherwise.
pub open spec fn spec_jaccard(a: Set<Seq<char>>, b: Set<Seq<char>>, empty_is_one: bool) -> Frac {
    let u = a.union(b).len();
    let i = a.intersect(b).len();
    if u == 0 {
        if empty_is_one {
            Frac { num: 1, den: 1 }
        } else {
            Frac { num: 0, den: 1 }
        }
    } else {
        Frac { num: (u - i) as u64, den: u as u64 }
    }
}

/// Computes the Jaccard distance between `a` and `b`.
pub fn jaccard(a: &TokenSet, b: &TokenSet, empty_is_one: bool) -> (r: Frac)
    requires
        a.wf(),
        b.wf(),
    ensures
        r == spec_jaccard(a.tokens(), b.tokens(), empty_is_one),
        r.wf(),
        r.num <= r.den,
{
    let ghost sa = a.tokens();
    let ghost sb = b.tokens();
    let inter = a.inter_count(b);
    let ca = a.card();
    let cb = b.card();
    proof {
        assert(sa.finite());
        assert(sb.finite());
        lemma_inclusion_exclusion(sa, sb);
        vstd::set_lib::lemma_len_intersect(sa, sb);
        vstd::set_lib::lemma_len_intersect(sb, sa);
        assert(sb.intersect(sa) =~= sa.intersect(sb));
        assert(sa.intersect(sb).len() <= ca && sa.intersect(sb).len() <= cb);
    }
    let u = ca + cb - inter;
    if u == 0 {
        if empty_is_one {
            Frac { num: 1, den: 1 }
        } else {
            Frac { num: 0, den: 1 }
        }
    } else {
        Frac { num: (u - inter) as u64, den: u as u64 }
    }
}

/// The Jaccard distance is symmetric: the union and the intersection
/// of two sets do not depend on their order, so neither does the
/// distance.
pub proof fn lemma_jaccard_symmetric(a: Set<Seq<char>>, b: Set<Seq<char>>, empty_is_one: bool)
    ensures
        spec_jaccard(a, b, empty_is_one) == spec_jaccard(b, a, empty_is_one),
{
    assert(a.union(b) =~= b.union(a));
    assert(a.intersect(b) =~= b.intersect(a));
}

/// The distance of a set to itself is zero.  Under the
/// empty-union-means-one convention this asks for a nonempty set: two
/// empty sets are put at distance one there.
pub proof fn lemma_jaccard_self_zero(a: Set<Seq<char>>, empty_is_one: bool)
    requires
        a.finite(),
        empty_is_one ==> a.len() > 0,
    ensures
        spec_jaccard(a, a, empty_is_one).is_zero(),
{
    assert(a.union(a) =~= a);
    assert(a.intersect(a) =~= a);
}

} // verus!
