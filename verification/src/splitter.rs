use vstd::prelude::*;
use vstd::multiset::Multiset;

use crate::LabeledSample;
use rand::Rng;
use rand::SeedableRng;

verus! {

// Stratified train/test splitting.  The corpus is grouped by label,
// each group is shuffled and cut at `floor(group size * ratio)`, the
// first parts form the training set and the remainders the test set,
// and both are shuffled again.  Shuffling draws from an explicitly
// passed, seedable random source, so a fixed seed reproduces a split.

#[verifier::external_type_specification]
#[verifier::external_body]
pub struct ExStdRng(rand::rngs::StdRng);

/// Relies on rand's `SeedableRng::seed_from_u64` for `StdRng`: builds a
/// deterministic random source from a seed.
#[verifier::external_body]
pub fn rng_from_seed(seed: u64) -> rand::rngs::StdRng {
    rand::rngs::StdRng::seed_from_u64(seed)
}

/// Relies on rand's `Rng::random_range`: some value below `bound`.
/// Nothing is assumed about which one.
#[verifier::external_body]
fn rng_below(rng: &mut rand::rngs::StdRng, bound: u64) -> (r: u64)
    requires
        bound >= 1,
    ensures
        r < bound,
{
    rng.random_range(0..bound)
}

/// How many samples of `s` carry label `l`.
pub open spec fn count_lbl(s: Seq<LabeledSample>, l: i32) -> int
    decreases s.len(),
{
    if s.len() == 0 {
        0
    } else {
        count_lbl(s.drop_last(), l) + if s.last().label == l {
            1int
        } else {
            0
        }
    }
}

pub proof fn lemma_count_bounds(s: Seq<LabeledSample>, l: i32)
    ensures
        0 <= count_lbl(s, l) <= s.len(),
    decreases s.len(),
{
    if s.len() > 0 {
        lemma_count_bounds(s.drop_last(), l);
    }
}

/// Counting distributes over concatenation.
pub proof fn lemma_count_add(s1: Seq<LabeledSample>, s2: Seq<LabeledSample>, l: i32)
    ensures
        count_lbl(s1 + s2, l) == count_lbl(s1, l) + count_lbl(s2, l),
    decreases s2.len(),
{
    if s2.len() == 0 {
        assert(s1 + s2 =~= s1);
    } else {
        assert((s1 + s2).drop_last() =~= s1 + s2.drop_last());
        assert((s1 + s2).last() == s2.last());
        lemma_count_add(s1, s2.drop_last(), l);
    }
}

/// Removing the sample at `j` lowers the count of its label by one.
proof fn lemma_count_remove(s: Seq<LabeledSample>, j: int, l: i32)
    requires
        0 <= j < s.len(),
    ensures
        count_lbl(s.remove(j), l) == count_lbl(s, l) - (if s[j].label == l {
            1int
        } else {
            0
        }),
    decreases s.len(),
{
    if j == s.len() - 1 {
        assert(s.remove(j) =~= s.drop_last());
    } else {
        assert(s.remove(j).drop_last() =~= s.drop_last().remove(j));
        assert(s.remove(j).last() == s.last());
        lemma_count_remove(s.drop_last(), j, l);
    }
}

/// Shuffles `v` in place: afterwards it holds the same samples, as a
/// multiset, in some order drawn from `rng`; every per-label count is
/// kept.
pub fn shuffle(v: &mut Vec<LabeledSample>, rng: &mut rand::rngs::StdRng)
    ensures
        final(v)@.to_multiset() == old(v)@.to_multiset(),
        final(v)@.len() == old(v)@.len(),
        forall|l: i32| #[trigger] count_lbl(final(v)@, l) == count_lbl(old(v)@, l),
{
    broadcast use vstd::seq_lib::group_seq_properties;

    let ghost orig = v@;
    let mut rest: Vec<LabeledSample> = Vec::new();
    core::mem::swap(v, &mut rest);
    proof {
        assert(v@ =~= Seq::<LabeledSample>::empty());
        assert(v@.to_multiset().add(rest@.to_multiset()) =~= rest@.to_multiset());
        v@.to_multiset_ensures();
        rest@.to_multiset_ensures();
    }
    while rest.len() > 0
        invariant
            v@.to_multiset().add(rest@.to_multiset()) == orig.to_multiset(),
            v@.len() + rest@.len() == orig.len(),
            forall|l: i32| #[trigger] count_lbl(v@, l) + count_lbl(rest@, l) == count_lbl(
                orig,
                l,
            ),
        decreases rest@.len(),
    {
        let j_draw = rng_below(rng, rest.len() as u64);
        let j = j_draw as usize;
        let ghost old_v = v@;
        let ghost old_rest = rest@;
        let s = rest.remove(j);
        v.push(s);
        proof {
            old_rest.to_multiset_ensures();
            old_v.to_multiset_ensures();
            assert(rest@.to_multiset() == old_rest.to_multiset().remove(old_rest[j as int]));
            assert(v@.to_multiset() == old_v.to_multiset().insert(old_rest[j as int]));
            assert(old_rest.to_multiset().count(old_rest[j as int]) > 0) by {
                assert(old_rest.contains(old_rest[j as int]));
            }
            assert(v@.to_multiset().add(rest@.to_multiset()) =~= old_v.to_multiset().add(
                old_rest.to_multiset(),
            ));
            assert forall|l: i32| #[trigger] count_lbl(v@, l) + count_lbl(rest@, l)
                == count_lbl(orig, l) by {
                lemma_count_remove(old_rest, j as int, l);
                assert(v@.drop_last() =~= old_v);
                assert(count_lbl(v@, l) == count_lbl(old_v, l) + (if old_rest[j as int].label
                    == l {
                    1int
                } else {
                    0
                }));
            }
        }
    }
    proof {
        assert(rest@ =~= Seq::<LabeledSample>::empty());
        assert(rest@.to_multiset() =~= Multiset::<LabeledSample>::empty());
        assert(v@.to_multiset().add(Multiset::<LabeledSample>::empty()) =~= v@.to_multiset());
    }
}

/// The samples of `s` that carry label `l`, in order.
pub open spec fn filter_lbl(s: Seq<LabeledSample>, l: i32) -> Seq<LabeledSample>
    decreases s.len(),
{
    if s.len() == 0 {
        Seq::empty()
    } else {
        let p = filter_lbl(s.drop_last(), l);
        if s.last().label == l {
            p.push(s.last())
        } else {
            p
        }
    }
}

pub proof fn lemma_filter_lbl_facts(s: Seq<LabeledSample>, l: i32)
    ensures
        filter_lbl(s, l).len() == count_lbl(s, l),
        forall|i: int|
            0 <= i < filter_lbl(s, l).len() ==> (#[trigger] filter_lbl(s, l)[i]).label == l,
    decreases s.len(),
{
    if s.len() > 0 {
        lemma_filter_lbl_facts(s.drop_last(), l);
    }
}

/// A group whose samples all carry one label counts that label only.
pub proof fn lemma_uniform_counts(g: Seq<LabeledSample>, l: i32, l2: i32)
    requires
        forall|i: int| 0 <= i < g.len() ==> (#[trigger] g[i]).label == l,
    ensures
        count_lbl(g, l) == g.len(),
        l2 != l ==> count_lbl(g, l2) == 0,
    decreases g.len(),
{
    if g.len() > 0 {
        lemma_uniform_counts(g.drop_last(), l, l2);
    }
}

/// The sum of the per-label sample multisets over the labels of `ls`.
pub open spec fn sum_ms(ls: Seq<i32>, s: Seq<LabeledSample>) -> Multiset<LabeledSample>
    decreases ls.len(),
{
    if ls.len() == 0 {
        Multiset::empty()
    } else {
        sum_ms(ls.drop_last(), s).add(filter_lbl(s, ls.last()).to_multiset())
    }
}

/// Grouping by the distinct labels of a corpus partitions its samples.
proof fn lemma_sum_ms_drop(ls: Seq<i32>, s: Seq<LabeledSample>)
    requires
        s.len() > 0,
        ls.no_duplicates(),
    ensures
        sum_ms(ls, s) == if ls.contains(s.last().label) {
            sum_ms(ls, s.drop_last()).insert(s.last())
        } else {
            sum_ms(ls, s.drop_last())
        },
    decreases ls.len(),
{
    broadcast use vstd::multiset::group_multiset_axioms;

    if ls.len() == 0 {
        assert(!ls.contains(s.last().label));
    } else {
        let l = ls.last();
        let lr = ls.drop_last();
        assert(lr.no_duplicates());
        lemma_sum_ms_drop(lr, s);
        filter_lbl(s, l).to_multiset_ensures();
        filter_lbl(s.drop_last(), l).to_multiset_ensures();
        if l == s.last().label {
            assert(!lr.contains(l));
            assert(filter_lbl(s, l).to_multiset() == filter_lbl(s.drop_last(), l).to_multiset()
                .insert(s.last())) by {
                assert(filter_lbl(s, l) == filter_lbl(s.drop_last(), l).push(s.last()));
                filter_lbl(s.drop_last(), l).to_multiset_ensures();
            }
            assert(ls.contains(s.last().label)) by {
                assert(ls[ls.len() - 1] == l);
            }
            assert(sum_ms(lr, s).add(
                filter_lbl(s.drop_last(), l).to_multiset().insert(s.last()),
            ) =~= sum_ms(lr, s.drop_last()).add(filter_lbl(s.drop_last(), l).to_multiset()).insert(
                s.last(),
            ));
        } else {
            assert(filter_lbl(s, l) == filter_lbl(s.drop_last(), l));
            if ls.contains(s.last().label) {
                assert(lr.contains(s.last().label)) by {
                    let i = choose|i: int| 0 <= i < ls.len() && ls[i] == s.last().label;
                    assert(i < ls.len() - 1);
                    assert(lr[i] == ls[i]);
                }
                assert(sum_ms(lr, s.drop_last()).insert(s.last()).add(
                    filter_lbl(s.drop_last(), l).to_multiset(),
                ) =~= sum_ms(lr, s.drop_last()).add(
                    filter_lbl(s.drop_last(), l).to_multiset(),
                ).insert(s.last()));
            } else {
                assert(!lr.contains(s.last().label)) by {
                    if lr.contains(s.last().label) {
                        let i = choose|i: int| 0 <= i < lr.len() && lr[i] == s.last().label;
                        assert(ls[i] == lr[i]);
                    }
                }
            }
        }
    }
}

/// Over a complete list of distinct labels, the per-label groups hold
/// exactly the corpus.
pub proof fn lemma_sum_ms_all(ls: Seq<i32>, s: Seq<LabeledSample>)
    requires
        ls.no_duplicates(),
        forall|i: int| 0 <= i < s.len() ==> ls.contains((#[trigger] s[i]).label),
    ensures
        sum_ms(ls, s) == s.to_multiset(),
    decreases s.len(),
{
    broadcast use vstd::multiset::group_multiset_axioms;

    if s.len() == 0 {
        assert(s =~= Seq::<LabeledSample>::empty());
        lemma_sum_ms_empty(ls);
        assert(s.to_multiset() =~= Multiset::<LabeledSample>::empty()) by {
            s.to_multiset_ensures();
        }
    } else {
        let d = s.drop_last();
        assert(forall|i: int| 0 <= i < d.len() ==> ls.contains((#[trigger] d[i]).label)) by {
            assert(forall|i: int| 0 <= i < d.len() ==> d[i] == s[i]);
        }
        lemma_sum_ms_all(ls, d);
        lemma_sum_ms_drop(ls, s);
        assert(ls.contains(s.last().label)) by {
            assert(s[s.len() - 1] == s.last());
        }
        assert(s.to_multiset() == d.to_multiset().insert(s.last())) by {
            d.to_multiset_ensures();
            assert(s =~= d.push(s.last()));
        }
    }
}

proof fn lemma_sum_ms_empty(ls: Seq<i32>)
    ensures
        sum_ms(ls, Seq::<LabeledSample>::empty()) == Multiset::<LabeledSample>::empty(),
    decreases ls.len(),
{
    broadcast use vstd::multiset::group_multiset_axioms;

    if ls.len() > 0 {
        lemma_sum_ms_empty(ls.drop_last());
        assert(sum_ms(ls.drop_last(), Seq::<LabeledSample>::empty()).add(
            filter_lbl(Seq::<LabeledSample>::empty(), ls.last()).to_multiset(),
        ) =~= Multiset::<LabeledSample>::empty()) by {
            filter_lbl(Seq::<LabeledSample>::empty(), ls.last()).to_multiset_ensures();
        }
    }
}

/// A label that no sample carries has count zero.
pub proof fn lemma_count_absent(s: Seq<LabeledSample>, l: i32)
    requires
        forall|i: int| 0 <= i < s.len() ==> (#[trigger] s[i]).label != l,
    ensures
        count_lbl(s, l) == 0,
    decreases s.len(),
{
    if s.len() > 0 {
        lemma_count_bounds(s, l);
        assert(forall|i: int|
            0 <= i < s.drop_last().len() ==> (#[trigger] s.drop_last()[i]).label != l) by {
            assert(forall|i: int| 0 <= i < s.len() - 1 ==> s.drop_last()[i] == s[i]);
        }
        lemma_count_absent(s.drop_last(), l);
        assert(s.last() == s[s.len() - 1]);
    }
}

/// The distinct labels of the corpus, in first-appearance order.
fn distinct_labels(donnees: &Vec<LabeledSample>) -> (r: Vec<i32>)
    ensures
        r@.no_duplicates(),
        forall|i: int| 0 <= i < donnees@.len() ==> r@.contains((#[trigger] donnees@[i]).label),
{
    let mut out: Vec<i32> = Vec::new();
    let mut i: usize = 0;
    while i < donnees.len()
        invariant
            i <= donnees@.len(),
            out@.no_duplicates(),
            forall|j: int| 0 <= j < i ==> out@.contains((#[trigger] donnees@[j]).label),
        decreases donnees@.len() - i,
    {
        let l = donnees[i].label;
        let mut found = false;
        let mut j: usize = 0;
        while j < out.len()
            invariant
                j <= out@.len(),
                found == exists|j2: int| 0 <= j2 < j && out@[j2] == l,
            decreases out@.len() - j,
        {
            if out[j] == l {
                found = true;
            }
            j += 1;
        }
        let ghost old_out = out@;
        if !found {
            proof {
                if out@.contains(l) {
                    let j2 = choose|j2: int| 0 <= j2 < out@.len() && out@[j2] == l;
                    assert(false);
                }
                assert(forall|j2: int| 0 <= j2 < out@.len() ==> out@[j2] != l);
            }
            out.push(l);
            proof {
                assert(out@[out@.len() - 1] == donnees@[i as int].label);
            }
        } else {
            proof {
                let j2 = choose|j2: int| 0 <= j2 < out@.len() && out@[j2] == l;
                assert(out@.contains(l));
            }
        }
        proof {
            assert forall|j: int| 0 <= j < i + 1 implies out@.contains(
                (#[trigger] donnees@[j]).label,
            ) by {
                if j < i {
                    let w = choose|w: int| 0 <= w < old_out.len() && old_out[w] == donnees@[j].label;
                    assert(out@[w] == donnees@[j].label);
                } else {
                    assert(out@.contains(l));
                }
            }
        }
        i += 1;
    }
    out
}

/// The samples of the corpus carrying label `l`, cloned, in order.
fn extract_group(donnees: &Vec<LabeledSample>, l: i32) -> (r: Vec<LabeledSample>)
    ensures
        r@ == filter_lbl(donnees@, l),
{
    let mut out: Vec<LabeledSample> = Vec::new();
    let mut i: usize = 0;
    proof {
        assert(donnees@.take(0) =~= Seq::<LabeledSample>::empty());
    }
    while i < donnees.len()
        invariant
            i <= donnees@.len(),
            out@ == filter_lbl(donnees@.take(i as int), l),
        decreases donnees@.len() - i,
    {
        proof {
            assert(donnees@.take(i + 1).drop_last() =~= donnees@.take(i as int));
            assert(donnees@.take(i + 1).last() == donnees@[i as int]);
        }
        if donnees[i].label == l {
            out.push(donnees[i].clone());
        }
        i += 1;
    }
    proof {
        assert(donnees@.take(donnees@.len() as int) =~= donnees@);
    }
    out
}

/// Computes `floor(len * num / den)`.
fn split_point(len: usize, num: u64, den: u64) -> (r: usize)
    requires
        den >= 1,
        num <= den,
    ensures
        r == (len as int) * (num as int) / (den as int),
        r <= len,
{
    proof {
        vstd::arithmetic::mul::lemma_mul_upper_bound(
            len as int,
            u64::MAX as int,
            num as int,
            u64::MAX as int,
        );
    }
    let p: u128 = (len as u128) * (num as u128) / (den as u128);
    proof {
        assert((len as int) * (num as int) <= (len as int) * (den as int)) by (nonlinear_arith)
            requires
                num <= den,
                0 <= len,
        ;
        vstd::arithmetic::div_mod::lemma_div_is_ordered(
            (len as int) * (num as int),
            (len as int) * (den as int),
            den as int,
        );
        assert((len as int) * (den as int) / (den as int) == len as int) by {
            vstd::arithmetic::div_mod::lemma_div_by_multiple(len as int, den as int);
        }
        assert((len as int) * (num as int) >= 0) by (nonlinear_arith)
            requires
                0 <= len,
                0 <= num,
        ;
        vstd::arithmetic::div_mod::lemma_div_is_ordered(
            0,
            (len as int) * (num as int),
            den as int,
        );
    }
    p as usize
}

/// Splits the corpus into a training and a test set, stratified by
/// label: every label keeps its proportion, each group contributing
/// `floor(group size * ratio_num / ratio_den)` samples to the training
/// set and the rest to the test set.  Together the two sides hold
/// exactly the corpus samples; the order within each side is drawn from
/// `rng`.
pub fn diviser_donnees_stratifiee(
    donnees: &Vec<LabeledSample>,
    ratio_num: u64,
    ratio_den: u64,
    rng: &mut rand::rngs::StdRng,
) -> (r: (Vec<LabeledSample>, Vec<LabeledSample>))
    requires
        ratio_den >= 1,
        ratio_num <= ratio_den,
    ensures
        r.0@.to_multiset().add(r.1@.to_multiset()) == donnees@.to_multiset(),
        forall|l: i32| #[trigger] count_lbl(r.0@, l) + count_lbl(r.1@, l) == count_lbl(
            donnees@,
            l,
        ),
        forall|l: i32| #[trigger] count_lbl(r.0@, l) == count_lbl(donnees@, l) * (
        ratio_num as int) / (ratio_den as int),
        r.0@.len() == floor_sum(
            label_list(donnees@),
            donnees@,
            ratio_num as int,
            ratio_den as int,
        ),
        r.1@.len() == donnees@.len() - r.0@.len(),
{
    broadcast use vstd::multiset::group_multiset_axioms;

    let labels = distinct_labels(donnees);
    let mut entrainement: Vec<LabeledSample> = Vec::new();
    let mut test: Vec<LabeledSample> = Vec::new();
    let mut g: usize = 0;
    proof {
        assert(labels@.take(0) =~= Seq::<i32>::empty());
        assert(entrainement@.to_multiset().add(test@.to_multiset()) =~= sum_ms(
            labels@.take(0),
            donnees@,
        )) by {
            entrainement@.to_multiset_ensures();
            test@.to_multiset_ensures();
        }
    }
    while g < labels.len()
        invariant
            g <= labels@.len(),
            labels@.no_duplicates(),
            forall|i: int|
                0 <= i < donnees@.len() ==> labels@.contains((#[trigger] donnees@[i]).label),
            ratio_den >= 1,
            ratio_num <= ratio_den,
            entrainement@.to_multiset().add(test@.to_multiset()) == sum_ms(
                labels@.take(g as int),
                donnees@,
            ),
            forall|j: int|
                0 <= j < g ==> #[trigger] count_lbl(entrainement@, labels@[j]) == count_lbl(
                    donnees@,
                    labels@[j],
                ) * (ratio_num as int) / (ratio_den as int),
            forall|j: int|
                0 <= j < g ==> #[trigger] count_lbl(entrainement@, labels@[j]) + count_lbl(
                    test@,
                    labels@[j],
                ) == count_lbl(donnees@, labels@[j]),
            forall|l: i32|
                !labels@.take(g as int).contains(l) ==> #[trigger] count_lbl(entrainement@, l)
                    == 0 && count_lbl(test@, l) == 0,
        decreases labels@.len() - g,
    {
        let l = labels[g];
        let mut group = extract_group(donnees, l);
        proof {
            lemma_filter_lbl_facts(donnees@, l);
        }
        shuffle(&mut group, rng);
        let cut = split_point(group.len(), ratio_num, ratio_den);
        let ghost old_train = entrainement@;
        let ghost old_test = test@;
        let ghost group_view = group@;
        let mut idx: usize = 0;
        while idx < cut
            invariant
                cut <= group_view.len(),
                idx <= cut,
                group@ == group_view,
                entrainement@ == old_train + group_view.take(idx as int),
            decreases cut - idx,
        {
            proof {
                assert(old_train + group_view.take(idx + 1) =~= (old_train + group_view.take(
                    idx as int,
                )).push(group_view[idx as int]));
            }
            entrainement.push(group[idx].clone());
            idx += 1;
        }
        let mut idx2: usize = cut;
        while idx2 < group.len()
            invariant
                cut <= idx2 <= group_view.len(),
                group@ == group_view,
                test@ == old_test + group_view.subrange(cut as int, idx2 as int),
            decreases group_view.len() - idx2,
        {
            proof {
                assert(old_test + group_view.subrange(cut as int, idx2 + 1) =~= (old_test
                    + group_view.subrange(cut as int, idx2 as int)).push(
                    group_view[idx2 as int],
                ));
            }
            test.push(group[idx2].clone());
            idx2 += 1;
        }
        proof {
            let taken = group_view.take(cut as int);
            let rest = group_view.subrange(cut as int, group_view.len() as int);
            assert(entrainement@ == old_train + taken);
            assert(test@ == old_test + rest);
            assert(taken + rest =~= group_view);
            // multiset bookkeeping
            vstd::seq_lib::lemma_multiset_commutative(old_train, taken);
            vstd::seq_lib::lemma_multiset_commutative(old_test, rest);
            vstd::seq_lib::lemma_multiset_commutative(taken, rest);
            assert(entrainement@.to_multiset().add(test@.to_multiset()) =~= (
            old_train.to_multiset().add(old_test.to_multiset())).add(group_view.to_multiset()));
            assert(labels@.take(g + 1).drop_last() =~= labels@.take(g as int));
            assert(labels@.take(g + 1).last() == labels@[g as int]);
            assert(group_view.to_multiset() == filter_lbl(donnees@, l).to_multiset());
            assert(sum_ms(labels@.take(g + 1), donnees@) == sum_ms(
                labels@.take(g as int),
                donnees@,
            ).add(filter_lbl(donnees@, l).to_multiset()));
            // count bookkeeping
            let gcount = count_lbl(donnees@, l);
            assert(count_lbl(group_view, l) == gcount) by {
                lemma_uniform_counts(filter_lbl(donnees@, l), l, l);
            }
            assert(forall|i: int|
                0 <= i < group_view.len() ==> (#[trigger] group_view[i]).label == l) by {
                assert(forall|x: LabeledSample|
                    group_view.to_multiset().count(x) > 0 ==> filter_lbl(
                        donnees@,
                        l,
                    ).to_multiset().count(x) > 0);
                group_view.to_multiset_ensures();
                filter_lbl(donnees@, l).to_multiset_ensures();
                assert forall|i: int|
                    0 <= i < group_view.len() implies (#[trigger] group_view[i]).label == l by {
                    assert(group_view.contains(group_view[i]));
                    assert(group_view.to_multiset().count(group_view[i]) > 0);
                    assert(filter_lbl(donnees@, l).contains(group_view[i]));
                    lemma_filter_lbl_facts(donnees@, l);
                    let w = choose|w: int|
                        0 <= w < filter_lbl(donnees@, l).len() && filter_lbl(donnees@, l)[w]
                            == group_view[i];
                }
            }
            assert(group_view.len() == gcount);
            assert forall|l2: i32| true implies #[trigger] count_lbl(entrainement@, l2)
                == count_lbl(old_train, l2) + count_lbl(taken, l2) && count_lbl(test@, l2)
                == count_lbl(old_test, l2) + count_lbl(rest, l2) && count_lbl(taken, l2)
                + count_lbl(rest, l2) == count_lbl(group_view, l2) by {
                lemma_count_add(old_train, taken, l2);
                lemma_count_add(old_test, rest, l2);
                lemma_count_add(taken, rest, l2);
                assert(taken + rest =~= group_view);
            }
            assert(forall|i: int| 0 <= i < taken.len() ==> (#[trigger] taken[i]).label == l);
            assert(forall|i: int| 0 <= i < rest.len() ==> (#[trigger] rest[i]).label == l);
            assert(count_lbl(taken, l) == cut && count_lbl(rest, l) == group_view.len() - cut)
                by {
                lemma_uniform_counts(taken, l, l);
                lemma_uniform_counts(rest, l, l);
            }
            assert(cut == gcount * (ratio_num as int) / (ratio_den as int));
            assert forall|l2: i32| l2 != l implies count_lbl(taken, l2) == 0 && count_lbl(
                rest,
                l2,
            ) == 0 by {
                lemma_uniform_counts(taken, l, l2);
                lemma_uniform_counts(rest, l, l2);
            }
            assert forall|l2: i32| !labels@.take(g + 1).contains(l2) implies #[trigger] count_lbl(
                entrainement@,
                l2,
            ) == 0 && count_lbl(test@, l2) == 0 by {
                assert(!labels@.take(g as int).contains(l2)) by {
                    if labels@.take(g as int).contains(l2) {
                        let w = choose|w: int| 0 <= w < g && labels@.take(g as int)[w] == l2;
                        assert(labels@.take(g + 1)[w] == l2);
                    }
                }
                assert(l2 != l) by {
                    assert(labels@.take(g + 1)[g as int] == l);
                }
            }
            assert forall|j: int| 0 <= j < g + 1 implies #[trigger] count_lbl(
                entrainement@,
                labels@[j],
            ) == count_lbl(donnees@, labels@[j]) * (ratio_num as int) / (ratio_den as int)
                && count_lbl(entrainement@, labels@[j]) + count_lbl(test@, labels@[j])
                == count_lbl(donnees@, labels@[j]) by {
                if j < g {
                    assert(labels@[j] != l) by {
                        assert(labels@[g as int] == l);
                    }
                } else {
                    assert(labels@[j] == l);
                    assert(count_lbl(old_train, l) == 0 && count_lbl(old_test, l) == 0) by {
                        assert(!labels@.take(g as int).contains(l)) by {
                            if labels@.take(g as int).contains(l) {
                                let w = choose|w: int|
                                    0 <= w < g && labels@.take(g as int)[w] == l;
                                assert(labels@[w] == labels@[g as int]);
                            }
                        }
                    }
                }
            }
        }
        g += 1;
    }
    proof {
        assert(labels@.take(labels@.len() as int) =~= labels@);
        lemma_sum_ms_all(labels@, donnees@);
        assert forall|l: i32| true implies #[trigger] count_lbl(entrainement@, l) + count_lbl(
            test@,
            l,
        ) == count_lbl(donnees@, l) && count_lbl(entrainement@, l) == count_lbl(donnees@, l) * (
        ratio_num as int) / (ratio_den as int) by {
            if labels@.contains(l) {
                let j = choose|j: int| 0 <= j < labels@.len() && labels@[j] == l;
            } else {
                assert(count_lbl(donnees@, l) == 0) by {
                    assert(forall|i: int|
                        0 <= i < donnees@.len() ==> (#[trigger] donnees@[i]).label != l);
                    lemma_count_absent(donnees@, l);
                }
                assert(0 * (ratio_num as int) == 0);
                assert(0int / (ratio_den as int) == 0) by {
                    vstd::arithmetic::div_mod::lemma_div_of0(ratio_den as int);
                }
            }
        }
    }
    proof {
        let ll = label_list(donnees@);
        lemma_label_list_props(donnees@);
        assert forall|i: int| 0 <= i < entrainement@.len() implies ll.contains(
            (#[trigger] entrainement@[i]).label,
        ) by {
            lemma_count_witness(entrainement@, i);
            let l = entrainement@[i].label;
            lemma_count_bounds(test@, l);
            assert(count_lbl(donnees@, l) >= 1);
            if !ll.contains(l) {
                assert(forall|w: int| 0 <= w < donnees@.len() ==> (#[trigger] donnees@[w]).label
                    != l);
                lemma_count_absent(donnees@, l);
            }
        }
        lemma_sum_counts_all(ll, entrainement@);
        lemma_sum_counts_floor(ll, entrainement@, donnees@, ratio_num as int, ratio_den as int);
        // the two sides' lengths add up to the corpus size
        broadcast use vstd::multiset::group_multiset_axioms;

        entrainement@.to_multiset_ensures();
        test@.to_multiset_ensures();
        donnees@.to_multiset_ensures();
        assert(entrainement@.to_multiset().add(test@.to_multiset()).len()
            == entrainement@.to_multiset().len() + test@.to_multiset().len());
    }
    shuffle(&mut entrainement, rng);
    shuffle(&mut test, rng);
    (entrainement, test)
}

/// The distinct labels of a corpus, in first-appearance order.
pub open spec fn label_list(s: Seq<LabeledSample>) -> Seq<i32>
    decreases s.len(),
{
    if s.len() == 0 {
        Seq::empty()
    } else {
        let p = label_list(s.drop_last());
        if p.contains(s.last().label) {
            p
        } else {
            p.push(s.last().label)
        }
    }
}

/// The label list is distinct and holds exactly the labels that occur.
pub proof fn lemma_label_list_props(s: Seq<LabeledSample>)
    ensures
        label_list(s).no_duplicates(),
        forall|i: int| 0 <= i < s.len() ==> label_list(s).contains((#[trigger] s[i]).label),
        forall|l: i32| label_list(s).contains(l) ==> #[trigger] count_lbl(s, l) >= 1,
    decreases s.len(),
{
    if s.len() > 0 {
        let d = s.drop_last();
        lemma_label_list_props(d);
        let p = label_list(d);
        assert forall|i: int| 0 <= i < s.len() implies label_list(s).contains(
            (#[trigger] s[i]).label,
        ) by {
            if i < s.len() - 1 {
                assert(d[i] == s[i]);
                assert(p.contains(s[i].label));
                let w = choose|w: int| 0 <= w < p.len() && p[w] == s[i].label;
                assert(label_list(s)[w] == s[i].label);
            } else {
                if p.contains(s.last().label) {
                    let w = choose|w: int| 0 <= w < p.len() && p[w] == s.last().label;
                    assert(label_list(s)[w] == s.last().label);
                } else {
                    assert(label_list(s)[label_list(s).len() - 1] == s.last().label);
                }
            }
        }
        assert forall|l: i32| label_list(s).contains(l) implies #[trigger] count_lbl(s, l)
            >= 1 by {
            lemma_count_bounds(d, l);
            if l == s.last().label {
            } else {
                let w = choose|w: int| 0 <= w < label_list(s).len() && label_list(s)[w] == l;
                if !p.contains(s.last().label) && w == label_list(s).len() - 1 {
                    assert(label_list(s)[w] == s.last().label);
                } else {
                    assert(p[w] == l);
                    assert(p.contains(l));
                }
            }
        }
        if !p.contains(s.last().label) {
            assert(p.push(s.last().label).no_duplicates());
        }
    }
}

/// A corpus has labels exactly when it has samples.
pub proof fn lemma_label_list_empty(s: Seq<LabeledSample>)
    ensures
        (label_list(s).len() == 0) <==> (s.len() == 0),
    decreases s.len(),
{
    if s.len() > 0 {
        lemma_label_list_empty(s.drop_last());
        if s.len() > 1 {
            assert(label_list(s.drop_last()).len() >= 1);
        }
    }
}

/// Every sample's label counts at least once.
pub proof fn lemma_count_witness(s: Seq<LabeledSample>, i: int)
    requires
        0 <= i < s.len(),
    ensures
        count_lbl(s, s[i].label) >= 1,
    decreases s.len(),
{
    lemma_count_bounds(s.drop_last(), s[i].label);
    if i < s.len() - 1 {
        assert(s.drop_last()[i] == s[i]);
        lemma_count_witness(s.drop_last(), i);
    }
}

/// The summed training shares of the labels of `ls`:
/// `floor(count * num / den)` per label.
pub open spec fn floor_sum(ls: Seq<i32>, s: Seq<LabeledSample>, num: int, den: int) -> int
    decreases ls.len(),
{
    if ls.len() == 0 {
        0
    } else {
        floor_sum(ls.drop_last(), s, num, den) + count_lbl(s, ls.last()) * num / den
    }
}

/// With pointwise `count(part, l) == count(whole, l) * num / den`, the
/// per-label counts of the part sum to the floor sum of the whole.
pub proof fn lemma_sum_counts_floor(
    ls: Seq<i32>,
    part: Seq<LabeledSample>,
    whole: Seq<LabeledSample>,
    num: int,
    den: int,
)
    requires
        forall|l: i32| #[trigger] count_lbl(part, l) == count_lbl(whole, l) * num / den,
    ensures
        sum_counts(ls, part) == floor_sum(ls, whole, num, den),
    decreases ls.len(),
{
    if ls.len() > 0 {
        lemma_sum_counts_floor(ls.drop_last(), part, whole, num, den);
    }
}
/// The sum of the per-label counts over the labels of `ls`.
pub open spec fn sum_counts(ls: Seq<i32>, s: Seq<LabeledSample>) -> int
    decreases ls.len(),
{
    if ls.len() == 0 {
        0
    } else {
        sum_counts(ls.drop_last(), s) + count_lbl(s, ls.last())
    }
}

pub proof fn lemma_sum_counts_drop(ls: Seq<i32>, s: Seq<LabeledSample>)
    requires
        s.len() > 0,
        ls.no_duplicates(),
    ensures
        sum_counts(ls, s) == sum_counts(ls, s.drop_last()) + (if ls.contains(s.last().label) {
            1int
        } else {
            0
        }),
    decreases ls.len(),
{
    if ls.len() > 0 {
        let lr = ls.drop_last();
        assert(lr.no_duplicates());
        lemma_sum_counts_drop(lr, s);
        if ls.last() == s.last().label {
            assert(!lr.contains(ls.last()));
            assert(ls.contains(s.last().label)) by {
                assert(ls[ls.len() - 1] == ls.last());
            }
        } else {
            if ls.contains(s.last().label) {
                assert(lr.contains(s.last().label)) by {
                    let i = choose|i: int| 0 <= i < ls.len() && ls[i] == s.last().label;
                    assert(i < ls.len() - 1);
                    assert(lr[i] == ls[i]);
                }
            } else {
                assert(!lr.contains(s.last().label)) by {
                    if lr.contains(s.last().label) {
                        let i = choose|i: int| 0 <= i < lr.len() && lr[i] == s.last().label;
                        assert(ls[i] == lr[i]);
                    }
                }
            }
        }
    }
}

/// Over a complete list of distinct labels the per-label counts sum to
/// the corpus size.
pub proof fn lemma_sum_counts_all(ls: Seq<i32>, s: Seq<LabeledSample>)
    requires
        ls.no_duplicates(),
        forall|i: int| 0 <= i < s.len() ==> ls.contains((#[trigger] s[i]).label),
    ensures
        sum_counts(ls, s) == s.len(),
    decreases s.len(),
{
    if s.len() == 0 {
        assert(s =~= Seq::<LabeledSample>::empty());
        lemma_sum_counts_zero(ls);
    } else {
        let d = s.drop_last();
        assert(forall|i: int| 0 <= i < d.len() ==> ls.contains((#[trigger] d[i]).label)) by {
            assert(forall|i: int| 0 <= i < d.len() ==> d[i] == s[i]);
        }
        lemma_sum_counts_all(ls, d);
        lemma_sum_counts_drop(ls, s);
        assert(ls.contains(s.last().label)) by {
            assert(s[s.len() - 1] == s.last());
        }
    }
}

pub proof fn lemma_sum_counts_zero(ls: Seq<i32>)
    ensures
        sum_counts(ls, Seq::<LabeledSample>::empty()) == 0,
    decreases ls.len(),
{
    if ls.len() > 0 {
        lemma_sum_counts_zero(ls.drop_last());
    }
}



} // verus!
