use vstd::prelude::*;

use crate::LabeledSample;
use crate::bignat::BigNat;
use crate::frac::Frac;
use crate::token;
use crate::tokenset;
use crate::tokenset::{MAX_TOKENS, TokenSet};

verus! {

// The k-nearest-neighbours classifier.  A query is compared to every
// training sample by the Jaccard distance of their word sets; the k
// closest samples vote, either one vote each or weighted by inverse
// distance.  Ties between equally distant samples go to the sample
// encountered first; ties between equally voted labels go to the
// smallest label value.

/// How the k nearest neighbours vote.
#[derive(Clone, Copy, Debug, PartialEq, Eq, Structural)]
pub enum TypeVote {
    Majoritaire,
    Pondere,
}

/// The set of whitespace-separated, lower-cased words of a text.
pub open spec fn spec_word_set(text: Seq<char>) -> Set<Seq<char>> {
    token::spec_words_ws(text).to_set()
}

/// The Jaccard distance between the word sets of two texts; 0 when both
/// are empty.
pub open spec fn spec_distance_tweets(a: Seq<char>, b: Seq<char>) -> Frac {
    tokenset::spec_jaccard(spec_word_set(a), spec_word_set(b), false)
}

/// The set of words of `tweet`, lower-cased and split on whitespace.
pub fn tokeniser_tweet(tweet: &str) -> (r: TokenSet)
    requires
        tweet@.len() <= MAX_TOKENS,
    ensures
        r.wf(),
        r.tokens() == spec_word_set(tweet@),
{
    let toks = token::tokenize_whitespace(tweet);
    proof {
        token::lemma_token_count(token::lower_seq(tweet@), false);
    }
    TokenSet::new(&toks)
}

/// The Jaccard distance between two tweets:
/// `(total distinct words - shared words) / total distinct words`,
/// and 0 when neither tweet has any word.
pub fn distance_tweets(tweet1: &str, tweet2: &str) -> (r: Frac)
    requires
        tweet1@.len() <= MAX_TOKENS,
        tweet2@.len() <= MAX_TOKENS,
    ensures
        r == spec_distance_tweets(tweet1@, tweet2@),
        r.wf(),
        r.num <= r.den,
{
    let s1 = tokeniser_tweet(tweet1);
    let s2 = tokeniser_tweet(tweet2);
    tokenset::jaccard(&s1, &s2, false)
}

/// All fractions of `ds` denote values.
pub open spec fn dists_wf(ds: Seq<Frac>) -> bool {
    forall|i: int| 0 <= i < ds.len() ==> (#[trigger] ds[i]).wf()
}

/// The strict order in which neighbour `i` is preferred to neighbour
/// `j`: strictly smaller distance, or equal distance and encountered
/// earlier.
pub open spec fn key_lt(ds: Seq<Frac>, i: int, j: int) -> bool {
    ds[i].spec_lt(ds[j]) || (ds[i].spec_eq(ds[j]) && i < j)
}

/// `key_lt` is transitive.
pub proof fn lemma_key_trans(ds: Seq<Frac>, i: int, j: int, l: int)
    requires
        dists_wf(ds),
        0 <= i < ds.len(),
        0 <= j < ds.len(),
        0 <= l < ds.len(),
        key_lt(ds, i, j),
        key_lt(ds, j, l),
    ensures
        key_lt(ds, i, l),
{
    let an = ds[i].num as int;
    let ad = ds[i].den as int;
    let bn = ds[j].num as int;
    let bd = ds[j].den as int;
    let cn = ds[l].num as int;
    let cd = ds[l].den as int;
    if ds[i].spec_lt(ds[j]) && ds[j].spec_lt(ds[l]) {
        assert(an * cd < cn * ad) by (nonlinear_arith)
            requires
                an * bd < bn * ad,
                bn * cd < cn * bd,
                ad >= 1,
                bd >= 1,
                cd >= 1,
                an >= 0,
                bn >= 0,
                cn >= 0,
        ;
    } else if ds[i].spec_lt(ds[j]) && ds[j].spec_eq(ds[l]) {
        assert(an * cd < cn * ad) by (nonlinear_arith)
            requires
                an * bd < bn * ad,
                bn * cd == cn * bd,
                ad >= 1,
                bd >= 1,
                cd >= 1,
        ;
    } else if ds[i].spec_eq(ds[j]) && ds[j].spec_lt(ds[l]) {
        assert(an * cd < cn * ad) by (nonlinear_arith)
            requires
                an * bd == bn * ad,
                bn * cd < cn * bd,
                ad >= 1,
                bd >= 1,
                cd >= 1,
        ;
    } else {
        assert(ds[i].spec_eq(ds[j]) && ds[j].spec_eq(ds[l]) && i < j < l);
        assert(an * cd == cn * ad) by (nonlinear_arith)
            requires
                an * bd == bn * ad,
                bn * cd == cn * bd,
                ad >= 1,
                bd >= 1,
                cd >= 1,
        ;
    }
}

/// The indices preferred to `i`.
pub open spec fn below(ds: Seq<Frac>, i: int) -> Set<int> {
    Set::new(|j: int| 0 <= j < ds.len() && key_lt(ds, j, i))
}

/// Is sample `i` among the `k` nearest?  Exactly the `k` smallest
/// `(distance, index)` keys are selected.
pub open spec fn spec_selected(ds: Seq<Frac>, k: int, i: int) -> bool {
    below(ds, i).len() < k
}

/// The selected `(distance, label)` pairs among the first `m` samples,
/// in encounter order.
pub open spec fn spec_neighbors(
    base: Seq<LabeledSample>,
    ds: Seq<Frac>,
    k: int,
    m: int,
) -> Seq<(Frac, i32)>
    decreases m,
{
    if m <= 0 {
        Seq::empty()
    } else {
        let p = spec_neighbors(base, ds, k, m - 1);
        if spec_selected(ds, k, m - 1) {
            p.push((ds[m - 1], base[m - 1].label))
        } else {
            p
        }
    }
}

proof fn lemma_below_finite(ds: Seq<Frac>, i: int)
    ensures
        below(ds, i).finite(),
        below(ds, i).len() <= ds.len(),
{
    broadcast use vstd::set::group_set_axioms;

    vstd::set_lib::lemma_int_range(0, ds.len() as int);
    assert(below(ds, i).subset_of(vstd::set_lib::set_int_range(0, ds.len() as int)));
    vstd::set_lib::lemma_len_subset(
        below(ds, i),
        vstd::set_lib::set_int_range(0, ds.len() as int),
    );
}

/// Marks the `k` nearest samples.
fn select_k(ds: &Vec<Frac>, k: usize) -> (chosen: Vec<bool>)
    requires
        1 <= k <= ds@.len(),
        dists_wf(ds@),
    ensures
        chosen@.len() == ds@.len(),
        forall|i: int|
            0 <= i < ds@.len() ==> (chosen@[i] == spec_selected(ds@, k as int, i)),
        Set::new(|i: int| 0 <= i < ds@.len() && spec_selected(ds@, k as int, i)).len() == k,
{
    let n = ds.len();
    let mut chosen: Vec<bool> = Vec::new();
    let mut z: usize = 0;
    while z < n
        invariant
            z <= n,
            chosen@.len() == z,
            forall|j: int| 0 <= j < z ==> !chosen@[j],
        decreases n - z,
    {
        chosen.push(false);
        z += 1;
    }
    let ghost mut csel: Set<int> = Set::empty();
    let mut t: usize = 0;
    while t < k
        invariant
            t <= k,
            1 <= k <= n,
            n == ds@.len(),
            dists_wf(ds@),
            chosen@.len() == n,
            csel.finite(),
            csel.len() == t,
            forall|j: int| csel.contains(j) ==> 0 <= j < n,
            forall|j: int| 0 <= j < n ==> (chosen@[j] == csel.contains(j)),
            forall|i2: int, j2: int|
                csel.contains(i2) && 0 <= j2 < n && !csel.contains(j2) ==> key_lt(ds@, i2, j2),
        decreases k - t,
    {
        let mut best: usize = 0;
        let mut have: bool = false;
        let mut j: usize = 0;
        while j < n
            invariant
                j <= n,
                n == ds@.len(),
                dists_wf(ds@),
                chosen@.len() == n,
                forall|j2: int| csel.contains(j2) ==> 0 <= j2 < n,
                forall|j2: int| 0 <= j2 < n ==> (chosen@[j2] == csel.contains(j2)),
                have ==> best < j && !csel.contains(best as int),
                have ==> forall|j2: int|
                    0 <= j2 < j && !csel.contains(j2) && j2 != best ==> key_lt(
                        ds@,
                        best as int,
                        j2,
                    ),
                !have ==> forall|j2: int| 0 <= j2 < j ==> csel.contains(j2),
            decreases n - j,
        {
            if !chosen[j] {
                if !have {
                    best = j;
                    have = true;
                } else {
                    if ds[j].lt(&ds[best]) {
                        proof {
                            assert(key_lt(ds@, j as int, best as int));
                            assert forall|j2: int|
                                0 <= j2 < j + 1 && !csel.contains(j2) && j2 != j implies key_lt(
                                ds@,
                                j as int,
                                j2,
                            ) by {
                                if j2 == best {
                                } else {
                                    lemma_key_trans(ds@, j as int, best as int, j2);
                                }
                            }
                        }
                        best = j;
                    } else {
                        proof {
                            assert(!ds@[j as int].spec_lt(ds@[best as int]));
                            assert(key_lt(ds@, best as int, j as int));
                        }
                    }
                }
            }
            j += 1;
        }
        if !have {
            proof {
                vstd::set_lib::lemma_int_range(0, n as int);
                assert(vstd::set_lib::set_int_range(0, n as int).subset_of(csel));
                vstd::set_lib::lemma_len_subset(
                    vstd::set_lib::set_int_range(0, n as int),
                    csel,
                );
                assert(false);
            }
        }
        chosen.set(best, true);
        proof {
            assert(!csel.contains(best as int));
            csel = csel.insert(best as int);
        }
        t += 1;
    }
    proof {
        broadcast use vstd::set::group_set_axioms;

        assert forall|i: int| 0 <= i < n implies (csel.contains(i) == spec_selected(
            ds@,
            k as int,
            i,
        )) by {
            lemma_below_finite(ds@, i);
            if csel.contains(i) {
                assert forall|j: int| below(ds@, i).contains(j) implies csel.remove(
                    i,
                ).contains(j) by {
                    assert(0 <= j < n && key_lt(ds@, j, i));
                    assert(j != i);
                    if !csel.contains(j) {
                        assert(key_lt(ds@, i, j));
                        assert(false);
                    }
                }
                vstd::set_lib::lemma_len_subset(below(ds@, i), csel.remove(i));
                assert(csel.remove(i).len() == k - 1);
            } else {
                assert forall|j: int| csel.contains(j) implies below(ds@, i).contains(j) by {
                    assert(key_lt(ds@, j, i));
                }
                vstd::set_lib::lemma_len_subset(csel, below(ds@, i));
            }
        }
        assert(Set::new(|i: int| 0 <= i < ds@.len() && spec_selected(ds@, k as int, i))
            =~= csel);
        assert forall|i: int| 0 <= i < ds@.len() implies (chosen@[i] == spec_selected(
            ds@,
            k as int,
            i,
        )) by {
            assert(chosen@[i] == csel.contains(i));
        }
    }
    chosen
}

/// The labels of a neighbour list.
pub open spec fn labels_of(ns: Seq<(Frac, i32)>) -> Seq<i32> {
    ns.map_values(|p: (Frac, i32)| p.1)
}

/// How often `l` occurs in `ls`.
pub open spec fn lbl_count(ls: Seq<i32>, l: i32) -> int
    decreases ls.len(),
{
    if ls.len() == 0 {
        0
    } else {
        lbl_count(ls.drop_last(), l) + if ls.last() == l {
            1int
        } else {
            0
        }
    }
}

/// Does `l1` beat `l2` in a majority vote: strictly more occurrences,
/// or as many and a smaller label value.
pub open spec fn better_major(ls: Seq<i32>, l1: i32, l2: i32) -> bool {
    lbl_count(ls, l1) > lbl_count(ls, l2) || (lbl_count(ls, l1) == lbl_count(ls, l2) && l1 < l2)
}

/// The winner of the majority vote over the first `m` entries of `ls`
/// (each entry proposes its own label; a proposal replaces the current
/// winner only when it beats it).
pub open spec fn spec_major_upto(ls: Seq<i32>, m: int) -> Option<i32>
    decreases m,
{
    if m <= 0 {
        None
    } else {
        let prev = spec_major_upto(ls, m - 1);
        match prev {
            None => Some(ls[m - 1]),
            Some(b) => if better_major(ls, ls[m - 1], b) {
                Some(ls[m - 1])
            } else {
                Some(b)
            },
        }
    }
}

/// The winner of the majority vote: the most frequent label, ties going
/// to the smallest label value.  `None` only for an empty list.
pub open spec fn spec_major(ls: Seq<i32>) -> Option<i32> {
    spec_major_upto(ls, ls.len() as int)
}

fn count_label(ns: &Vec<(Frac, i32)>, l: i32) -> (r: usize)
    ensures
        r == lbl_count(labels_of(ns@), l),
{
    let ghost ls = labels_of(ns@);
    let mut cnt: usize = 0;
    let mut i: usize = 0;
    proof {
        assert(ls.take(0) =~= Seq::<i32>::empty());
    }
    while i < ns.len()
        invariant
            i <= ns@.len(),
            ls == labels_of(ns@),
            cnt <= i,
            cnt == lbl_count(ls.take(i as int), l),
        decreases ns@.len() - i,
    {
        proof {
            assert(ls.take(i + 1).drop_last() =~= ls.take(i as int));
            assert(ls.take(i + 1).last() == ls[i as int]);
            assert(ls[i as int] == ns@[i as int].1);
        }
        if ns[i].1 == l {
            cnt += 1;
        }
        i += 1;
    }
    proof {
        assert(ls.take(ns@.len() as int) =~= ls);
    }
    cnt
}

/// One neighbour, one vote: returns the most frequent label among the
/// neighbours, ties going to the smallest label value; `None` when
/// there is no neighbour.
pub fn vote_majoritaire(proches_voisins: &Vec<(Frac, i32)>) -> (r: Option<i32>)
    ensures
        r == spec_major(labels_of(proches_voisins@)),
{
    let ghost ls = labels_of(proches_voisins@);
    let mut best: Option<i32> = None;
    let mut i: usize = 0;
    while i < proches_voisins.len()
        invariant
            i <= proches_voisins@.len(),
            ls == labels_of(proches_voisins@),
            best == spec_major_upto(ls, i as int),
        decreases proches_voisins@.len() - i,
    {
        let l = proches_voisins[i].1;
        proof {
            assert(ls[i as int] == proches_voisins@[i as int].1);
        }
        match best {
            None => {
                best = Some(l);
            },
            Some(b) => {
                let cl = count_label(proches_voisins, l);
                let cb = count_label(proches_voisins, b);
                if cl > cb || (cl == cb && l < b) {
                    best = Some(l);
                }
            },
        }
        i += 1;
    }
    best
}

/// The weight a neighbour contributes: 1 for distance zero, the inverse
/// of its distance otherwise, as the fraction `wnum / wden`.
pub open spec fn wnum(f: Frac) -> int {
    if f.num == 0 {
        1
    } else {
        f.den as int
    }
}

pub open spec fn wden(f: Frac) -> int {
    if f.num == 0 {
        1
    } else {
        f.num as int
    }
}

/// The product of the weight denominators of the first `m` neighbours,
/// the one at `i` excluded.
pub open spec fn prod_skip(ns: Seq<(Frac, i32)>, i: int, m: int) -> int
    decreases m,
{
    if m <= 0 {
        1
    } else {
        prod_skip(ns, i, m - 1) * (if m - 1 == i {
            1int
        } else {
            wden(ns[m - 1].0)
        })
    }
}

/// The weighted vote for label `l` over the first `m` neighbours,
/// brought to the common denominator of all weight denominators: each
/// neighbour of label `l` contributes its weight numerator times every
/// other neighbour's weight denominator.
pub open spec fn wtotal_upto(ns: Seq<(Frac, i32)>, l: i32, m: int) -> int
    decreases m,
{
    if m <= 0 {
        0
    } else {
        wtotal_upto(ns, l, m - 1) + if ns[m - 1].1 == l {
            wnum(ns[m - 1].0) * prod_skip(ns, m - 1, ns.len() as int)
        } else {
            0
        }
    }
}

pub open spec fn wtotal(ns: Seq<(Frac, i32)>, l: i32) -> int {
    wtotal_upto(ns, l, ns.len() as int)
}

/// Does `l1` beat `l2` in the weighted vote: a strictly larger weight
/// sum, or an equal sum and a smaller label value.
pub open spec fn better_weighted(ns: Seq<(Frac, i32)>, l1: i32, l2: i32) -> bool {
    wtotal(ns, l1) > wtotal(ns, l2) || (wtotal(ns, l1) == wtotal(ns, l2) && l1 < l2)
}

pub open spec fn spec_major_weighted_upto(ns: Seq<(Frac, i32)>, m: int) -> Option<i32>
    decreases m,
{
    if m <= 0 {
        None
    } else {
        let prev = spec_major_weighted_upto(ns, m - 1);
        match prev {
            None => Some(ns[m - 1].1),
            Some(b) => if better_weighted(ns, ns[m - 1].1, b) {
                Some(ns[m - 1].1)
            } else {
                Some(b)
            },
        }
    }
}

/// The winner of the inverse-distance-weighted vote; `None` when there
/// is no neighbour.
pub open spec fn spec_major_weighted(ns: Seq<(Frac, i32)>) -> Option<i32> {
    spec_major_weighted_upto(ns, ns.len() as int)
}

fn prod_skip_of(ns: &Vec<(Frac, i32)>, i: usize) -> (r: BigNat)
    ensures
        r.value() == prod_skip(ns@, i as int, ns@.len() as int),
{
    let mut acc = BigNat::from_u64(1);
    let mut j: usize = 0;
    while j < ns.len()
        invariant
            j <= ns@.len(),
            acc.value() == prod_skip(ns@, i as int, j as int),
        decreases ns@.len() - j,
    {
        if j != i {
            let f = ns[j].0;
            let w: u64 = if f.num == 0 {
                1
            } else {
                f.num
            };
            proof {
                assert(w as int == wden(ns@[j as int].0));
            }
            acc = acc.mul_small(w);
        } else {
            proof {
                assert(acc.value() * 1 == acc.value());
            }
        }
        j += 1;
    }
    acc
}

fn weighted_total(ns: &Vec<(Frac, i32)>, l: i32) -> (r: BigNat)
    ensures
        r.value() == wtotal(ns@, l),
{
    let mut sum = BigNat::from_u64(0);
    let mut i: usize = 0;
    while i < ns.len()
        invariant
            i <= ns@.len(),
            sum.value() == wtotal_upto(ns@, l, i as int),
        decreases ns@.len() - i,
    {
        if ns[i].1 == l {
            let p = prod_skip_of(ns, i);
            let f = ns[i].0;
            let w: u64 = if f.num == 0 {
                1
            } else {
                f.den
            };
            proof {
                assert(w as int == wnum(ns@[i as int].0));
            }
            let term = p.mul_small(w);
            proof {
                assert(term.value() == wnum(ns@[i as int].0) * prod_skip(
                    ns@,
                    i as int,
                    ns@.len() as int,
                ));
            }
            sum = sum.add(&term);
        }
        i += 1;
    }
    sum
}

/// Weighted vote: each neighbour votes for its label with weight 1 over
/// its distance (1 when the distance is zero); the label with the
/// largest weight sum wins, ties going to the smallest label value.
pub fn vote_pondere(proches_voisins: &Vec<(Frac, i32)>) -> (r: Option<i32>)
    ensures
        r == spec_major_weighted(proches_voisins@),
{
    let mut best: Option<i32> = None;
    let mut i: usize = 0;
    while i < proches_voisins.len()
        invariant
            i <= proches_voisins@.len(),
            best == spec_major_weighted_upto(proches_voisins@, i as int),
        decreases proches_voisins@.len() - i,
    {
        let l = proches_voisins[i].1;
        match best {
            None => {
                best = Some(l);
            },
            Some(b) => {
                let tl = weighted_total(proches_voisins, l);
                let tb = weighted_total(proches_voisins, b);
                if tb.lt(&tl) || (tb.eq_value(&tl) && l < b) {
                    best = Some(l);
                }
            },
        }
        i += 1;
    }
    best
}

/// All texts of the corpus stay within the token bound.
pub open spec fn texts_bounded(base: Seq<LabeledSample>) -> bool {
    forall|i: int| 0 <= i < base.len() ==> (#[trigger] base[i].text)@.len() <= MAX_TOKENS
}

/// The distances of a query to every sample of the corpus.
pub open spec fn spec_dists(x: Seq<char>, base: Seq<LabeledSample>) -> Seq<Frac> {
    Seq::new(base.len(), |i: int| spec_distance_tweets(x, base[i].text@))
}

fn compute_dists(x: &str, base: &Vec<LabeledSample>) -> (r: Vec<Frac>)
    requires
        x@.len() <= MAX_TOKENS,
        texts_bounded(base@),
    ensures
        r@ == spec_dists(x@, base@),
        dists_wf(r@),
{
    let qs = tokeniser_tweet(x);
    let mut ds: Vec<Frac> = Vec::new();
    let mut i: usize = 0;
    while i < base.len()
        invariant
            i <= base@.len(),
            qs.wf(),
            qs.tokens() == spec_word_set(x@),
            x@.len() <= MAX_TOKENS,
            texts_bounded(base@),
            ds@.len() == i,
            forall|j: int| 0 <= j < i ==> ds@[j] == spec_dists(x@, base@)[j],
            dists_wf(ds@),
        decreases base@.len() - i,
    {
        let ts = tokeniser_tweet(base[i].text.as_str());
        let d = tokenset::jaccard(&qs, &ts, false);
        ds.push(d);
        i += 1;
    }
    proof {
        assert(ds@ =~= spec_dists(x@, base@));
    }
    ds
}

/// Classifies `x` by its `k` nearest neighbours in `base` under the
/// requested vote.  Fails with `None` exactly when `k` is zero or
/// larger than the corpus (an empty corpus included).
pub fn classifier_tweet(x: &str, k: usize, base: &Vec<LabeledSample>, type_vote: TypeVote) -> (r:
    Option<i32>)
    requires
        x@.len() <= MAX_TOKENS,
        texts_bounded(base@),
    ensures
        r is None <==> (k == 0 || k > base@.len()),
        1 <= k <= base@.len() ==> r == (match type_vote {
            TypeVote::Majoritaire => spec_major(
                labels_of(
                    spec_neighbors(base@, spec_dists(x@, base@), k as int, base@.len() as int),
                ),
            ),
            TypeVote::Pondere => spec_major_weighted(
                spec_neighbors(base@, spec_dists(x@, base@), k as int, base@.len() as int),
            ),
        }),
{
    if base.len() == 0 || k == 0 || k > base.len() {
        return None;
    }
    let ds = compute_dists(x, base);
    let chosen = select_k(&ds, k);
    let ghost dss = spec_dists(x@, base@);
    let mut proches_voisins: Vec<(Frac, i32)> = Vec::new();
    let mut i: usize = 0;
    let ghost selset = Set::new(
        |j: int| 0 <= j < base@.len() && spec_selected(dss, k as int, j),
    );
    proof {
        vstd::set_lib::lemma_int_range(0, base@.len() as int);
        vstd::set_lib::lemma_len_subset(
            selset,
            vstd::set_lib::set_int_range(0, base@.len() as int),
        );
        assert(Set::new(|j: int| 0 <= j < i && spec_selected(dss, k as int, j)) =~= Set::<
            int,
        >::empty());
    }
    while i < base.len()
        invariant
            i <= base@.len(),
            ds@ == dss,
            dss == spec_dists(x@, base@),
            chosen@.len() == base@.len(),
            forall|j: int|
                0 <= j < base@.len() ==> (chosen@[j] == spec_selected(dss, k as int, j)),
            proches_voisins@ == spec_neighbors(base@, dss, k as int, i as int),
            proches_voisins@.len() == Set::new(
                |j: int| 0 <= j < i && spec_selected(dss, k as int, j),
            ).len(),
        decreases base@.len() - i,
    {
        let ghost pre = Set::new(|j: int| 0 <= j < i && spec_selected(dss, k as int, j));
        proof {
            vstd::set_lib::lemma_int_range(0, i as int);
            vstd::set_lib::lemma_len_subset(
                pre,
                vstd::set_lib::set_int_range(0, i as int),
            );
            if spec_selected(dss, k as int, i as int) {
                assert(Set::new(|j: int| 0 <= j < i + 1 && spec_selected(dss, k as int, j))
                    =~= pre.insert(i as int));
                assert(!pre.contains(i as int));
            } else {
                assert(Set::new(|j: int| 0 <= j < i + 1 && spec_selected(dss, k as int, j))
                    =~= pre);
            }
        }
        if chosen[i] {
            proches_voisins.push((ds[i], base[i].label));
        }
        i += 1;
    }
    proof {
        assert(Set::new(|j: int| 0 <= j < base@.len() && spec_selected(dss, k as int, j))
            =~= selset);
        assert(proches_voisins@.len() == k);
    }
    match type_vote {
        TypeVote::Majoritaire => vote_majoritaire(&proches_voisins),
        TypeVote::Pondere => vote_pondere(&proches_voisins),
    }
}

/// The labels of the first `m` training samples, in order.
pub open spec fn corpus_labels(base: Seq<LabeledSample>, m: int) -> Seq<i32>
    decreases m,
{
    if m <= 0 {
        Seq::empty()
    } else {
        corpus_labels(base, m - 1).push(base[m - 1].label)
    }
}

/// With `k` the whole training size, every sample is selected.
pub proof fn lemma_full_k_selected(ds: Seq<Frac>, i: int)
    requires
        0 <= i < ds.len(),
    ensures
        spec_selected(ds, ds.len() as int, i),
{
    broadcast use vstd::set::group_set_axioms;

    lemma_below_finite(ds, i);
    assert(!below(ds, i).contains(i)) by {
        assert(!key_lt(ds, i, i));
    }
    vstd::set_lib::lemma_int_range(0, ds.len() as int);
    assert(below(ds, i).subset_of(vstd::set_lib::set_int_range(0, ds.len() as int).remove(i)));
    vstd::set_lib::lemma_len_subset(
        below(ds, i),
        vstd::set_lib::set_int_range(0, ds.len() as int).remove(i),
    );
    assert(vstd::set_lib::set_int_range(0, ds.len() as int).contains(i));
}

/// With `k` equal to the training size and a majority vote, the k
/// nearest neighbours are the whole training set, so classification
/// returns the overall plurality label of the corpus (ties to the
/// smallest label value), whatever the query text.
pub proof fn lemma_full_k_majority(x: Seq<char>, base: Seq<LabeledSample>)
    requires
        base.len() >= 1,
    ensures
        labels_of(
            spec_neighbors(base, spec_dists(x, base), base.len() as int, base.len() as int),
        ) == corpus_labels(base, base.len() as int),
        spec_major(corpus_labels(base, base.len() as int)) is Some,
{
    let ds = spec_dists(x, base);
    lemma_full_k_neighbors(x, base, base.len() as int);
}

proof fn lemma_full_k_neighbors(x: Seq<char>, base: Seq<LabeledSample>, m: int)
    requires
        0 <= m <= base.len(),
    ensures
        labels_of(spec_neighbors(base, spec_dists(x, base), base.len() as int, m))
            == corpus_labels(base, m),
    decreases m,
{
    let ds = spec_dists(x, base);
    if m == 0 {
        assert(labels_of(Seq::<(Frac, i32)>::empty()) =~= Seq::<i32>::empty());
    } else {
        lemma_full_k_neighbors(x, base, m - 1);
        lemma_full_k_selected(ds, m - 1);
        let p = spec_neighbors(base, ds, base.len() as int, m - 1);
        let q = spec_neighbors(base, ds, base.len() as int, m);
        assert(q == p.push((ds[m - 1], base[m - 1].label)));
        assert(labels_of(q) =~= labels_of(p).push(base[m - 1].label));
    }
}

} // verus!
