use vstd::prelude::*;

use crate::LabeledSample;
use crate::bayes::{BayesModel, VoteType, alpha_wf, spec_trained_from};
use crate::cluster;
use crate::confusion;
use crate::confusion::ConfusionMatrix;
use crate::knn;
use crate::ngram::{NgramMode, Representation};
use crate::splitter;
use crate::splitter::count_lbl;

verus! {

// The shared benchmarking protocol: split the corpus two thirds for
// training and one third for testing, classify every test sample, and
// accumulate a confusion matrix with its rendered report.  Test
// samples the classifier cannot label are dropped, not counted as
// errors.

/// How many samples the two-thirds split trains on: the summed
/// per-label floors, fixed by the corpus alone.
pub open spec fn spec_train_len(all: Seq<LabeledSample>) -> int {
    splitter::floor_sum(splitter::label_list(all), all, 2, 3)
}

/// How many samples the two-thirds split tests on.
pub open spec fn spec_test_len(all: Seq<LabeledSample>) -> int {
    all.len() - spec_train_len(all)
}

/// Everything the stratified two-thirds split guarantees of its two
/// halves: together they hold exactly the corpus, every label keeps
/// `floor(count * 2 / 3)` on the training side, and the lengths are
/// the corpus-determined ones.
pub open spec fn spec_split_of(
    train: Seq<LabeledSample>,
    test: Seq<LabeledSample>,
    all: Seq<LabeledSample>,
) -> bool {
    &&& train.to_multiset().add(test.to_multiset()) == all.to_multiset()
    &&& forall|l: i32| #[trigger] count_lbl(train, l) + count_lbl(test, l) == count_lbl(all, l)
    &&& forall|l: i32| #[trigger] count_lbl(train, l) == count_lbl(all, l) * 2 / 3
    &&& train.len() == spec_train_len(all)
    &&& test.len() == spec_test_len(all)
}

/// The matrix holds exactly the cell counts of the given
/// (true label, predicted label) pairs.
pub open spec fn matrix_of_pairs(m: ConfusionMatrix, pairs: Seq<(i32, i32)>) -> bool {
    forall|a: int, b: int|
        0 <= a < 3 && 0 <= b < 3 ==> #[trigger] m.at(a, b) == confusion::cell_count(
            pairs,
            a,
            b,
            pairs.len() as int,
        )
}

/// The two halves of a split hold exactly the corpus: their lengths
/// add up and every sample of either side occurs in the corpus.
pub proof fn lemma_split_halves(
    train: Seq<LabeledSample>,
    test: Seq<LabeledSample>,
    all: Seq<LabeledSample>,
)
    requires
        train.to_multiset().add(test.to_multiset()) == all.to_multiset(),
    ensures
        train.len() + test.len() == all.len(),
        forall|i: int| 0 <= i < train.len() ==> all.contains(#[trigger] train[i]),
        forall|i: int| 0 <= i < test.len() ==> all.contains(#[trigger] test[i]),
{
    broadcast use vstd::multiset::group_multiset_axioms;

    train.to_multiset_ensures();
    test.to_multiset_ensures();
    all.to_multiset_ensures();
    assert forall|i: int| 0 <= i < train.len() implies all.contains(#[trigger] train[i]) by {
        assert(train.contains(train[i]));
        assert(train.to_multiset().count(train[i]) > 0);
        assert(all.to_multiset().count(train[i]) > 0);
    }
    assert forall|i: int| 0 <= i < test.len() implies all.contains(#[trigger] test[i]) by {
        assert(test.contains(test[i]));
        assert(test.to_multiset().count(test[i]) > 0);
        assert(all.to_multiset().count(test[i]) > 0);
    }
}

/// A part drawn from a bounded corpus stays bounded.
pub proof fn lemma_bounded_from_corpus(part: Seq<LabeledSample>, all: Seq<LabeledSample>)
    requires
        forall|i: int| 0 <= i < part.len() ==> all.contains(#[trigger] part[i]),
        knn::texts_bounded(all),
    ensures
        knn::texts_bounded(part),
{
    assert forall|i: int|
        0 <= i < part.len() implies (#[trigger] part[i].text)@.len()
        <= crate::tokenset::MAX_TOKENS by {
        assert(all.contains(part[i]));
        let j = choose|j: int| 0 <= j < all.len() && all[j] == part[i];
        assert(all[j].text@.len() <= crate::tokenset::MAX_TOKENS);
    }
}

/// The evaluation pairs of a trained Naive Bayes model over a test
/// set: each sample's true label beside the model's classification.
pub open spec fn bayes_pairs(model: BayesModel, test: Seq<LabeledSample>) -> Seq<(i32, i32)> {
    Seq::new(test.len(), |i: int| (test[i].label, model.spec_classifier(test[i].text@)->0))
}

/// Splits the corpus two thirds to one, trains a Naive Bayes model on
/// the training side and scores it on the test side.  `None` exactly
/// when a side of the split is empty (the sizes are fixed by the
/// corpus's label counts); otherwise the matrix counts every test
/// sample by its true label and the model's classification, and the
/// report renders the matrix.
pub fn bayes_evaluate(
    all: &Vec<LabeledSample>,
    vote: VoteType,
    representation: Representation,
    ngram_mode: NgramMode,
    rng: &mut rand::rngs::StdRng,
) -> (r: Option<(ConfusionMatrix, String)>)
    requires
        all@.len() <= crate::bayes::MAX_DOCS,
        knn::texts_bounded(all@),
        alpha_wf(vote),
    ensures
        r is None <==> (spec_train_len(all@) == 0 || spec_test_len(all@) == 0),
        match r {
            Some(p) => {
                &&& p.0.wf()
                &&& p.1@ == confusion::spec_report(&p.0)
                &&& exists|
                    train: Seq<LabeledSample>,
                    test: Seq<LabeledSample>,
                    model: BayesModel,
                |
                    {
                        &&& #[trigger] spec_split_of(train, test, all@)
                        &&& #[trigger] spec_trained_from(
                            model,
                            train,
                            vote,
                            representation,
                            ngram_mode,
                        )
                        &&& matrix_of_pairs(p.0, bayes_pairs(model, test))
                    }
            },
            None => true,
        },
{
    let (train, test) = splitter::diviser_donnees_stratifiee(all, 2, 3, rng);
    if train.len() == 0 || test.len() == 0 {
        return None;
    }
    proof {
        lemma_split_halves(train@, test@, all@);
        lemma_bounded_from_corpus(train@, all@);
        lemma_bounded_from_corpus(test@, all@);
    }
    let model = BayesModel::new(&train, vote, representation, ngram_mode);
    let ghost pairs = bayes_pairs(model, test@);
    let mut results: Vec<(i32, i32)> = Vec::new();
    let mut i: usize = 0;
    proof {
        assert(results@ =~= pairs.take(0));
    }
    while i < test.len()
        invariant
            i <= test@.len(),
            test@.len() <= crate::bayes::MAX_DOCS,
            train@.len() >= 1,
            spec_trained_from(model, train@, vote, representation, ngram_mode),
            pairs == bayes_pairs(model, test@),
            results@ == pairs.take(i as int),
        decreases test@.len() - i,
    {
        proof {
            assert(model.classes@.contains(train@[0].label));
            assert(model.classes@.len() > 0);
        }
        match model.classifier(test[i].text.as_str()) {
            Some(pred) => {
                results.push((test[i].label, pred));
                proof {
                    assert(results@ =~= pairs.take(i + 1));
                }
            },
            None => {
                proof {
                    assert(false);
                }
            },
        }
        i += 1;
    }
    proof {
        assert(pairs.take(test@.len() as int) =~= pairs);
    }
    let mtx = confusion::build_matrix(&results);
    let report = confusion::format_matrice_confusion(&mtx);
    proof {
        assert(matrix_of_pairs(mtx, pairs));
        assert(spec_split_of(train@, test@, all@));
    }
    Some((mtx, report))
}

/// What the k-nearest-neighbours classifier returns for a query over a
/// training corpus.
pub open spec fn knn_prediction(
    x: Seq<char>,
    train: Seq<LabeledSample>,
    k: int,
    type_vote: knn::TypeVote,
) -> Option<i32> {
    let ds = knn::spec_dists(x, train);
    let ns = knn::spec_neighbors(train, ds, k, train.len() as int);
    match type_vote {
        knn::TypeVote::Majoritaire => knn::spec_major(knn::labels_of(ns)),
        knn::TypeVote::Pondere => knn::spec_major_weighted(ns),
    }
}

/// The evaluation pairs of the k-nearest-neighbours classifier over a
/// test set.
pub open spec fn knn_pairs(
    train: Seq<LabeledSample>,
    test: Seq<LabeledSample>,
    k: int,
    type_vote: knn::TypeVote,
) -> Seq<(i32, i32)> {
    Seq::new(
        test.len(),
        |i: int| (test[i].label, knn_prediction(test[i].text@, train, k, type_vote)->0),
    )
}

/// Splits the corpus two thirds to one and scores the k-nearest-
/// neighbours classifier on the test side.  `None` exactly when a side
/// of the split is empty; otherwise the matrix counts every test
/// sample by its true label and the k-nearest vote (an empty matrix
/// when `k` is zero or exceeds the training size, since every
/// classification fails then), and the report renders the matrix.
pub fn knn_evaluate(
    all: &Vec<LabeledSample>,
    k: usize,
    type_vote: knn::TypeVote,
    rng: &mut rand::rngs::StdRng,
) -> (r: Option<(ConfusionMatrix, String)>)
    requires
        all@.len() <= crate::confusion::MAX_PAIRS,
        knn::texts_bounded(all@),
    ensures
        r is None <==> (spec_train_len(all@) == 0 || spec_test_len(all@) == 0),
        match r {
            Some(p) => {
                &&& p.0.wf()
                &&& p.1@ == confusion::spec_report(&p.0)
                &&& exists|train: Seq<LabeledSample>, test: Seq<LabeledSample>|
                    {
                        &&& #[trigger] spec_split_of(train, test, all@)
                        &&& (1 <= k <= train.len() ==> matrix_of_pairs(
                            p.0,
                            #[trigger] knn_pairs(train, test, k as int, type_vote),
                        ))
                        &&& (!(1 <= k <= train.len()) ==> matrix_of_pairs(
                            p.0,
                            Seq::<(i32, i32)>::empty(),
                        ))
                    }
            },
            None => true,
        },
{
    let (train, test) = splitter::diviser_donnees_stratifiee(all, 2, 3, rng);
    if train.len() == 0 || test.len() == 0 {
        return None;
    }
    proof {
        lemma_split_halves(train@, test@, all@);
        lemma_bounded_from_corpus(train@, all@);
        lemma_bounded_from_corpus(test@, all@);
    }
    let ghost pairs = knn_pairs(train@, test@, k as int, type_vote);
    let mut results: Vec<(i32, i32)> = Vec::new();
    let mut i: usize = 0;
    proof {
        assert(results@ =~= pairs.take(0));
        assert(results@ =~= Seq::<(i32, i32)>::empty());
    }
    while i < test.len()
        invariant
            i <= test@.len(),
            test@.len() <= crate::confusion::MAX_PAIRS,
            knn::texts_bounded(train@),
            knn::texts_bounded(test@),
            pairs == knn_pairs(train@, test@, k as int, type_vote),
            1 <= k <= train@.len() ==> results@ == pairs.take(i as int),
            !(1 <= k <= train@.len()) ==> results@ == Seq::<(i32, i32)>::empty(),
        decreases test@.len() - i,
    {
        match knn::classifier_tweet(test[i].text.as_str(), k, &train, type_vote) {
            Some(pred) => {
                results.push((test[i].label, pred));
                proof {
                    assert(results@ =~= pairs.take(i + 1));
                }
            },
            None => {},
        }
        i += 1;
    }
    proof {
        assert(pairs.take(test@.len() as int) =~= pairs);
    }
    let mtx = confusion::build_matrix(&results);
    let report = confusion::format_matrice_confusion(&mtx);
    proof {
        assert(spec_split_of(train@, test@, all@));
        if 1 <= k && k <= train@.len() {
            assert(matrix_of_pairs(mtx, pairs));
        } else {
            assert(matrix_of_pairs(mtx, Seq::<(i32, i32)>::empty()));
        }
    }
    Some((mtx, report))
}

/// The evaluation pairs of nearest-neighbour cluster lookup over a
/// test set, for a given dendrogram of the training side.
pub open spec fn cluster_pairs(
    steps: Seq<cluster::MergeStep>,
    train: Seq<LabeledSample>,
    test: Seq<LabeledSample>,
    k: int,
) -> Seq<(i32, i32)> {
    Seq::new(
        test.len(),
        |i: int| (test[i].label, cluster::spec_predicted_label(steps, train, k, test[i].text@)),
    )
}

/// Splits the corpus two thirds to one, clusters the training side
/// into `k` clusters, labels each cluster by majority vote, and scores
/// nearest-neighbour cluster lookup on the test side.  `None` exactly
/// when a side of the split is empty or `k` exceeds the training size;
/// otherwise the matrix counts every test sample by its true label and
/// the label some well-formed full dendrogram of the training side
/// yields, and the report renders the matrix.
pub fn clustering_evaluate(
    all: &Vec<LabeledSample>,
    k: usize,
    method: cluster::LinkageMethod,
    rng: &mut rand::rngs::StdRng,
) -> (r: Option<(ConfusionMatrix, String)>)
    requires
        all@.len() <= crate::confusion::MAX_PAIRS,
        knn::texts_bounded(all@),
    ensures
        r is None <==> (spec_train_len(all@) == 0 || spec_test_len(all@) == 0 || k
            > spec_train_len(all@)),
        match r {
            Some(p) => {
                &&& p.0.wf()
                &&& p.1@ == confusion::spec_report(&p.0)
                &&& exists|
                    train: Seq<LabeledSample>,
                    test: Seq<LabeledSample>,
                    steps: Seq<cluster::MergeStep>,
                |
                    {
                        &&& #[trigger] spec_split_of(train, test, all@)
                        &&& cluster::valid_steps(steps, train.len() as int)
                        &&& cluster::steps_sized(steps, train.len() as int)
                        &&& steps.len() == train.len() - 1
                        &&& (steps.len() >= 1 ==> cluster::first_merge_closest(steps, train))
                        &&& cluster::steps_match(steps, cluster::spec_dendrogram(train, method))
                        &&& matrix_of_pairs(
                            p.0,
                            #[trigger] cluster_pairs(steps, train, test, k as int),
                        )
                    }
            },
            None => true,
        },
{
    let (train, test) = splitter::diviser_donnees_stratifiee(all, 2, 3, rng);
    let n = train.len();
    if n == 0 || test.len() == 0 || k > n {
        return None;
    }
    proof {
        lemma_split_halves(train@, test@, all@);
        lemma_bounded_from_corpus(train@, all@);
        lemma_bounded_from_corpus(test@, all@);
    }
    let mut points: Vec<crate::tokenset::TokenSet> = Vec::new();
    let mut i: usize = 0;
    while i < n
        invariant
            i <= n,
            n == train@.len(),
            knn::texts_bounded(train@),
            points@.len() == i,
            forall|w: int|
                0 <= w < i ==> (#[trigger] points@[w]).wf() && points@[w].tokens()
                    == crate::token::spec_words_alnum(train@[w].text@).to_set(),
        decreases n - i,
    {
        points.push(cluster::tokeniser_tweet(train[i].text.as_str()));
        i += 1;
    }
    let matv = cluster::distance_matrix(&points);
    let ghost mv = matv@;
    let steps = cluster::linkage(matv, n, method);
    proof {
        assert(cluster::vals_of(mv, n as int) =~~= cluster::spec_dist_vals(train@)) by {
            assert forall|p: int, q: int|
                0 <= p < n && 0 <= q < n implies (#[trigger] cluster::vals_of(
                mv,
                n as int,
            )[p][q]) == cluster::spec_dist_vals(train@)[p][q] by {
                assert(cluster::vals_of(mv, n as int)[p][q] == (mv[p]@[q].num.value(),
                mv[p]@[q].den.value()));
                assert(cluster::spec_point_dist(points@, p, q) == cluster::spec_pair_dist(
                    train@,
                    p,
                    q,
                ));
            }
        }
        assert(cluster::steps_match(steps@, cluster::spec_dendrogram(train@, method)));
        if steps@.len() >= 1 {
            assert forall|p: int, q: int|
                0 <= p < q < train@.len() implies !(#[trigger] cluster::spec_pair_dist(
                train@,
                p,
                q,
            )).spec_lt(
                cluster::spec_pair_dist(
                    train@,
                    steps@[0].cluster1 as int,
                    steps@[0].cluster2 as int,
                ),
            ) by {
                assert(!cluster::mat_lt(
                    mv,
                    p,
                    q,
                    steps@[0].cluster1 as int,
                    steps@[0].cluster2 as int,
                ));
            }
            assert(cluster::first_merge_closest(steps@, train@));
        }
    }
    let msteps = if n > k {
        if n - k > steps.len() {
            steps.len()
        } else {
            n - k
        }
    } else {
        0
    };
    let uf = cluster::cut_dendrogram(&steps, n, msteps);
    let ghost pairs = cluster_pairs(steps@, train@, test@, k as int);
    let mut results: Vec<(i32, i32)> = Vec::new();
    let mut t: usize = 0;
    proof {
        assert(results@ =~= pairs.take(0));
    }
    while t < test.len()
        invariant
            t <= test@.len(),
            test@.len() <= crate::confusion::MAX_PAIRS,
            knn::texts_bounded(test@),
            1 <= n == train@.len() == points@.len(),
            k <= n,
            uf.wf(),
            msteps as int == cluster::spec_cut_steps(n as int, k as int, steps@.len() as int),
            msteps <= steps@.len(),
            forall|x: int, y: int|
                0 <= x < n + msteps && 0 <= y < n + msteps ==> ((#[trigger] cluster::root_of(
                    uf.parent@,
                    x,
                ) == #[trigger] cluster::root_of(uf.parent@, y)) <==> cluster::dendro_cluster(
                    steps@,
                    n as int,
                    msteps as int,
                    x,
                ) == cluster::dendro_cluster(steps@, n as int, msteps as int, y)),
            forall|w: int|
                0 <= w < n ==> (#[trigger] points@[w]).wf() && points@[w].tokens()
                    == crate::token::spec_words_alnum(train@[w].text@).to_set(),
            pairs == cluster_pairs(steps@, train@, test@, k as int),
            results@ == pairs.take(t as int),
        decreases test@.len() - t,
    {
        let q = cluster::tokeniser_tweet(test[t].text.as_str());
        let ds = cluster::compute_cdists(&q, &points);
        proof {
            assert(ds@ =~= cluster::spec_query_dists(test@[t as int].text@, train@));
        }
        let nn = cluster::nearest_neighbor(&ds);
        let root = uf.find(nn);
        let pred = cluster::cluster_label(&uf, &train, root);
        proof {
            cluster::lemma_member_labels_partition(
                uf.parent@,
                steps@,
                n as int,
                msteps as int,
                train@,
                nn as int,
                n as int,
            );
            assert(pred == cluster::spec_predicted_label(
                steps@,
                train@,
                k as int,
                test@[t as int].text@,
            ));
        }
        results.push((test[t].label, pred));
        proof {
            assert(results@ =~= pairs.take(t + 1));
        }
        t += 1;
    }
    proof {
        assert(pairs.take(test@.len() as int) =~= pairs);
    }
    let mtx = confusion::build_matrix(&results);
    let report = confusion::format_matrice_confusion(&mtx);
    proof {
        assert(matrix_of_pairs(mtx, pairs));
        assert(spec_split_of(train@, test@, all@));
    }
    Some((mtx, report))
}

/// The evaluation pairs of the dictionary polarity classifier over a
/// test set.
pub open spec fn naive_pairs(
    test: Seq<LabeledSample>,
    pos: Set<Seq<char>>,
    neg: Set<Seq<char>>,
    wnum: int,
    wden: int,
) -> Seq<(i32, i32)> {
    Seq::new(
        test.len(),
        |i: int|
            {
                let words = crate::token::spec_words_alnum(test[i].text@);
                (
                    test[i].label,
                    crate::polarity::spec_polarity(
                        crate::polarity::neg_hits(words, pos, neg, words.len() as int),
                        crate::polarity::pos_hits(words, pos, words.len() as int),
                        wnum,
                        wden,
                    ),
                )
            },
    )
}

/// Splits the corpus two thirds to one and scores the dictionary
/// polarity classifier on the test side; the training side is left
/// unused, as the dictionaries need no training.  `None` exactly when
/// a side of the split is empty; otherwise the matrix counts every
/// test sample by its true label and its dictionary polarity, and the
/// report renders the matrix.
pub fn naive_evaluate(
    all: &Vec<LabeledSample>,
    pos_set: &crate::tokenset::TokenSet,
    neg_set: &crate::tokenset::TokenSet,
    wnum: u32,
    wden: u32,
    rng: &mut rand::rngs::StdRng,
) -> (r: Option<(ConfusionMatrix, String)>)
    requires
        all@.len() <= crate::confusion::MAX_PAIRS,
        knn::texts_bounded(all@),
        wden >= 1,
    ensures
        r is None <==> (spec_train_len(all@) == 0 || spec_test_len(all@) == 0),
        match r {
            Some(p) => {
                &&& p.0.wf()
                &&& p.1@ == confusion::spec_report(&p.0)
                &&& exists|train: Seq<LabeledSample>, test: Seq<LabeledSample>|
                    {
                        &&& #[trigger] spec_split_of(train, test, all@)
                        &&& matrix_of_pairs(
                            p.0,
                            #[trigger] naive_pairs(
                                test,
                                pos_set.tokens(),
                                neg_set.tokens(),
                                wnum as int,
                                wden as int,
                            ),
                        )
                    }
            },
            None => true,
        },
{
    let (train, test) = splitter::diviser_donnees_stratifiee(all, 2, 3, rng);
    if train.len() == 0 || test.len() == 0 {
        return None;
    }
    proof {
        lemma_split_halves(train@, test@, all@);
        lemma_bounded_from_corpus(test@, all@);
    }
    let ghost pairs = naive_pairs(
        test@,
        pos_set.tokens(),
        neg_set.tokens(),
        wnum as int,
        wden as int,
    );
    let mut results: Vec<(i32, i32)> = Vec::new();
    let mut i: usize = 0;
    proof {
        assert(results@ =~= pairs.take(0));
    }
    while i < test.len()
        invariant
            i <= test@.len(),
            test@.len() <= crate::confusion::MAX_PAIRS,
            knn::texts_bounded(test@),
            wden >= 1,
            pairs == naive_pairs(
                test@,
                pos_set.tokens(),
                neg_set.tokens(),
                wnum as int,
                wden as int,
            ),
            results@ == pairs.take(i as int),
        decreases test@.len() - i,
    {
        let pred = crate::polarity::analyser_tweet(
            test[i].text.as_str(),
            pos_set,
            neg_set,
            wnum,
            wden,
        );
        results.push((test[i].label, pred));
        proof {
            assert(results@ =~= pairs.take(i + 1));
        }
        i += 1;
    }
    proof {
        assert(pairs.take(test@.len() as int) =~= pairs);
    }
    let mtx = confusion::build_matrix(&results);
    let report = confusion::format_matrice_confusion(&mtx);
    proof {
        assert(matrix_of_pairs(mtx, pairs));
        assert(spec_split_of(train@, test@, all@));
    }
    Some((mtx, report))
}

} // verus!
