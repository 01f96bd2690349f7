use sentiment_core::LabeledSample;
use sentiment_core::bayes::{BayesModel, VoteType};
use sentiment_core::cluster;
use sentiment_core::confusion;
use sentiment_core::evaluate;
use sentiment_core::frac::Frac;
use sentiment_core::knn;
use sentiment_core::ngram::{NgramMode, Representation};
use sentiment_core::parse_labeled_line;
use sentiment_core::polarity;
use sentiment_core::splitter;
use sentiment_core::tokenset::TokenSet;

fn sample(text: &str, label: i32) -> LabeledSample {
    LabeledSample { text: text.to_string(), label }
}

fn three_sample_corpus() -> Vec<LabeledSample> {
    vec![sample("good great", 4), sample("bad terrible", 0), sample("meh okay", 2)]
}

#[test]
fn bayes_classifies_training_text() {
    let corpus = three_sample_corpus();
    let model = BayesModel::new(&corpus, VoteType::Laplace, Representation::Presence, NgramMode::Uni);
    assert_eq!(model.classifier("good great"), Some(4));
}

#[test]
fn bayes_priors_sum_to_total() {
    let corpus = three_sample_corpus();
    let model = BayesModel::new(&corpus, VoteType::Laplace, Representation::Presence, NgramMode::Uni);
    assert_eq!(model.total_docs, 3);
    let sum: u64 = model.class_docs.iter().sum();
    assert_eq!(sum, model.total_docs);
}

#[test]
fn bayes_likelihoods_strictly_inside_unit() {
    let corpus = three_sample_corpus();
    let model = BayesModel::new(&corpus, VoteType::Laplace, Representation::Presence, NgramMode::Uni);
    assert!(model.vocab.len() >= 2);
    let (an, ad) = (1u128, 1u128);
    for ci in 0..model.classes.len() {
        let denom = model.class_totals[ci] as u128 * ad + an * model.vocab.len() as u128;
        for wi in 0..model.vocab.len() {
            let num = model.counts[wi][ci] as u128 * ad + an;
            assert!(0 < num, "numerator must be positive");
            assert!(num < denom, "likelihood must stay below one");
        }
    }
}

#[test]
fn bayes_empty_corpus_cannot_classify() {
    let corpus: Vec<LabeledSample> = Vec::new();
    let model = BayesModel::new(&corpus, VoteType::Laplace, Representation::Presence, NgramMode::Uni);
    assert_eq!(model.classifier("anything"), None);
}

#[test]
fn bayes_lidstone_and_frequence_still_classify() {
    let corpus = three_sample_corpus();
    let model =
        BayesModel::new(&corpus, VoteType::Lidstone, Representation::Frequence, NgramMode::UniBi);
    assert_eq!(model.classifier("bad terrible"), Some(0));
}

#[test]
fn knn_one_neighbor_returns_its_label() {
    let corpus = three_sample_corpus();
    assert_eq!(
        knn::classifier_tweet("bad terrible", 1, &corpus, knn::TypeVote::Majoritaire),
        Some(0)
    );
}

#[test]
fn knn_rejects_bad_k() {
    let corpus = three_sample_corpus();
    assert_eq!(knn::classifier_tweet("x", 0, &corpus, knn::TypeVote::Majoritaire), None);
    assert_eq!(knn::classifier_tweet("x", 4, &corpus, knn::TypeVote::Majoritaire), None);
    let empty: Vec<LabeledSample> = Vec::new();
    assert_eq!(knn::classifier_tweet("x", 1, &empty, knn::TypeVote::Majoritaire), None);
}

#[test]
fn knn_full_k_returns_plurality() {
    let corpus = vec![
        sample("good great", 4),
        sample("nice words", 4),
        sample("bad terrible", 0),
    ];
    // with k the whole corpus, the distances cannot exclude anyone:
    // the plurality label 4 wins whatever the query says
    assert_eq!(
        knn::classifier_tweet("completely unrelated text", 3, &corpus, knn::TypeVote::Majoritaire),
        Some(4)
    );
}

#[test]
fn knn_distance_is_symmetric_and_zero_on_self() {
    let d1 = knn::distance_tweets("a b c", "c b a");
    assert_eq!(d1.num, 0);
    let d2 = knn::distance_tweets("a b", "b x");
    let d3 = knn::distance_tweets("b x", "a b");
    assert_eq!(d2, d3);
    // one word of three shared: distance 2/3
    let d4 = knn::distance_tweets("a b", "b c");
    assert_eq!((d4.num, d4.den), (2, 3));
    // both empty: distance zero by the knn convention
    let d5 = knn::distance_tweets("", "");
    assert_eq!(d5.num, 0);
}

#[test]
fn knn_weighted_vote_can_disagree_with_majority() {
    let neighbors = vec![
        (Frac { num: 1, den: 2 }, 4),
        (Frac { num: 1, den: 2 }, 4),
        (Frac { num: 1, den: 100 }, 0),
    ];
    assert_eq!(knn::vote_majoritaire(&neighbors), Some(4));
    // weights: label 4 gets 2 + 2 = 4, label 0 gets 100
    assert_eq!(knn::vote_pondere(&neighbors), Some(0));
}

#[test]
fn knn_zero_distance_weighs_one() {
    let neighbors = vec![
        (Frac { num: 0, den: 1 }, 4),
        (Frac { num: 1, den: 3 }, 0),
    ];
    // the exact neighbour weighs 1, the distant one weighs 3
    assert_eq!(knn::vote_pondere(&neighbors), Some(0));
}

#[test]
fn knn_vote_ties_go_to_smallest_label() {
    let neighbors = vec![
        (Frac { num: 1, den: 2 }, 4),
        (Frac { num: 1, den: 2 }, 0),
    ];
    assert_eq!(knn::vote_majoritaire(&neighbors), Some(0));
    assert_eq!(knn::vote_pondere(&neighbors), Some(0));
}

fn six_sample_corpus() -> Vec<LabeledSample> {
    vec![
        sample("good great", 4),
        sample("good nice", 4),
        sample("bad terrible", 0),
        sample("bad awful", 0),
        sample("meh okay", 2),
        sample("meh blah", 2),
    ]
}

#[test]
fn clustering_classifies_training_text() {
    let corpus = six_sample_corpus();
    let r = cluster::predict_tweet_class(&corpus, "bad terrible", 3, cluster::LinkageMethod::Average);
    assert_eq!(r, Some(0));
}

#[test]
fn clustering_other_linkages_run() {
    let corpus = six_sample_corpus();
    for method in [cluster::LinkageMethod::Complete, cluster::LinkageMethod::Ward] {
        let r = cluster::predict_tweet_class(&corpus, "good great", 3, method);
        assert_eq!(r, Some(4), "query identical to a training text keeps its label");
    }
}

#[test]
fn clustering_rejects_bad_inputs() {
    let corpus = six_sample_corpus();
    assert_eq!(
        cluster::predict_tweet_class(&corpus, "x", 7, cluster::LinkageMethod::Average),
        None
    );
    let empty: Vec<LabeledSample> = Vec::new();
    assert_eq!(
        cluster::predict_tweet_class(&empty, "x", 1, cluster::LinkageMethod::Average),
        None
    );
}

#[test]
fn cut_to_corpus_size_gives_singletons() {
    let corpus = six_sample_corpus();
    let mut points = Vec::new();
    for s in &corpus {
        points.push(cluster::tokeniser_tweet(&s.text));
    }
    let mat = cluster::distance_matrix(&points);
    let steps = cluster::linkage(mat, 6, cluster::LinkageMethod::Average);
    assert_eq!(steps.len(), 5);
    // the three same-class pairs tie at the smallest distance 2/3, and
    // the first merge takes the pair encountered first
    assert_eq!((steps[0].cluster1, steps[0].cluster2), (0, 1));
    // no merge applied: every leaf is its own cluster
    let uf = cluster::cut_dendrogram(&steps, 6, 0);
    let mut roots = Vec::new();
    for i in 0..6usize {
        let r = uf.find(i);
        assert!(!roots.contains(&r), "cutting to n clusters must give n singletons");
        roots.push(r);
    }
    // all merges applied: one cluster holds everyone
    let full = cluster::cut_dendrogram(&steps, 6, 5);
    let r0 = full.find(0);
    for i in 1..6usize {
        assert_eq!(full.find(i), r0, "cutting to one cluster must join everyone");
    }
}

#[test]
fn union_find_joins_and_separates() {
    let mut uf = cluster::UnionFind::new(5);
    assert_eq!(uf.find(2), 2);
    uf.union(1, 3);
    assert_eq!(uf.find(1), uf.find(3));
    assert_ne!(uf.find(1), uf.find(2));
}

#[test]
fn split_preserves_per_class_counts() {
    let mut corpus = Vec::new();
    for i in 0..9 {
        corpus.push(sample(&format!("negative text {i}"), 0));
    }
    for i in 0..6 {
        corpus.push(sample(&format!("neutral text {i}"), 2));
    }
    for i in 0..3 {
        corpus.push(sample(&format!("positive text {i}"), 4));
    }
    let mut rng = splitter::rng_from_seed(7);
    let (train, test) = splitter::diviser_donnees_stratifiee(&corpus, 2, 3, &mut rng);
    let count = |v: &Vec<LabeledSample>, l: i32| v.iter().filter(|s| s.label == l).count();
    for l in [0, 2, 4] {
        assert_eq!(count(&train, l) + count(&test, l), count(&corpus, l));
    }
    // train takes floor(group * 2 / 3) of each class
    assert_eq!(count(&train, 0), 6);
    assert_eq!(count(&train, 2), 4);
    assert_eq!(count(&train, 4), 2);
    assert_eq!(train.len(), 12);
    assert_eq!(test.len(), 6);
}

#[test]
fn split_is_reproducible_under_a_seed() {
    let corpus = six_sample_corpus();
    let mut rng1 = splitter::rng_from_seed(99);
    let mut rng2 = splitter::rng_from_seed(99);
    let (tr1, te1) = splitter::diviser_donnees_stratifiee(&corpus, 2, 3, &mut rng1);
    let (tr2, te2) = splitter::diviser_donnees_stratifiee(&corpus, 2, 3, &mut rng2);
    let texts = |v: &Vec<LabeledSample>| v.iter().map(|s| s.text.clone()).collect::<Vec<_>>();
    assert_eq!(texts(&tr1), texts(&tr2));
    assert_eq!(texts(&te1), texts(&te2));
}

#[test]
fn shuffle_keeps_the_samples() {
    let mut v = six_sample_corpus();
    let mut rng = splitter::rng_from_seed(5);
    splitter::shuffle(&mut v, &mut rng);
    assert_eq!(v.len(), 6);
    let mut texts: Vec<String> = v.iter().map(|s| s.text.clone()).collect();
    texts.sort();
    let mut expected: Vec<String> =
        six_sample_corpus().iter().map(|s| s.text.clone()).collect();
    expected.sort();
    assert_eq!(texts, expected);
}

#[test]
fn confusion_matrix_counts_and_totals() {
    let pairs = vec![
        (4, 4),
        (4, 0),
        (0, 0),
        (2, 4),
        (7, 4), // unknown true label: dropped
        (4, 9), // unknown prediction: dropped
    ];
    let m = confusion::build_matrix(&pairs);
    // rows 0/1/2 are true negative/neutral/positive
    assert_eq!(m.cells[2][2], 1);
    assert_eq!(m.cells[2][0], 1);
    assert_eq!(m.cells[0][0], 1);
    assert_eq!(m.cells[1][2], 1);
    let total: u64 = m.cells.iter().flatten().sum();
    assert_eq!(total, 4, "all cells together count the classified samples");
    let row_pos: u64 = m.cells[2].iter().sum();
    assert_eq!(row_pos, 2, "row sums count the true labels");
    let col_pos: u64 = (0..3).map(|a| m.cells[a][2]).sum();
    assert_eq!(col_pos, 2, "column sums count the predictions");
}

#[test]
fn confusion_report_renders_the_cells() {
    let pairs = vec![(4, 4), (4, 4), (0, 2), (2, 2)];
    let m = confusion::build_matrix(&pairs);
    let report = confusion::format_matrice_confusion(&m);
    let expected = "[table=5]\n\
        [cell]Reel/Estime[/cell][cell]Positive[/cell][cell]Negatif[/cell][cell]Neutre[/cell][cell]Total reel[/cell]\n\
        [cell]Positive[/cell][cell]2[/cell][cell]0[/cell][cell]0[/cell][cell]2[/cell]\n\
        [cell]Negatif[/cell][cell]0[/cell][cell]0[/cell][cell]1[/cell][cell]1[/cell]\n\
        [cell]Neutre[/cell][cell]0[/cell][cell]0[/cell][cell]1[/cell][cell]1[/cell]\n\
        [cell]Total estime[/cell][cell]2[/cell][cell]0[/cell][cell]2[/cell][cell]4[/cell]\n\
        [/table]";
    assert_eq!(report, expected);
}

#[test]
fn number_rendering_is_decimal() {
    assert_eq!(confusion::u64_to_string(0), "0");
    assert_eq!(confusion::u64_to_string(7), "7");
    assert_eq!(confusion::u64_to_string(12345), "12345");
    assert_eq!(confusion::u64_to_string(u64::MAX), "18446744073709551615");
}

#[test]
fn evaluation_drivers_produce_reports() {
    let mut corpus = Vec::new();
    for i in 0..6 {
        corpus.push(sample(&format!("good great fine number{i}"), 4));
        corpus.push(sample(&format!("bad terrible awful number{i}"), 0));
        corpus.push(sample(&format!("meh okay blah number{i}"), 2));
    }
    let mut rng = splitter::rng_from_seed(11);
    let b = evaluate::bayes_evaluate(
        &corpus,
        VoteType::Laplace,
        Representation::Presence,
        NgramMode::Uni,
        &mut rng,
    );
    let (bm, breport) = b.expect("both split sides are nonempty");
    assert!(breport.starts_with("[table=5]"));
    // each of the three classes splits 4 train / 2 test, and the model
    // classifies every test sample, so the matrix counts all six
    let btotal: u64 = bm.cells.iter().flatten().sum();
    assert_eq!(btotal, 6);
    let k = evaluate::knn_evaluate(&corpus, 2, knn::TypeVote::Pondere, &mut rng);
    let (km, kreport) = k.expect("knn evaluation runs");
    assert!(kreport.starts_with("[table=5]"));
    let ktotal: u64 = km.cells.iter().flatten().sum();
    assert_eq!(ktotal, 6, "a valid k classifies every test sample");
    // an oversized k fails every classification: the matrix is empty
    let k_bad = evaluate::knn_evaluate(&corpus, 13, knn::TypeVote::Majoritaire, &mut rng);
    let kb: u64 = k_bad.expect("the split itself still runs").0.cells.iter().flatten().sum();
    assert_eq!(kb, 0);
    let c = evaluate::clustering_evaluate(&corpus, 3, cluster::LinkageMethod::Average, &mut rng);
    let (cm, creport) = c.expect("clustering evaluation runs");
    assert!(creport.starts_with("[table=5]"));
    let ctotal: u64 = cm.cells.iter().flatten().sum();
    assert_eq!(ctotal, 6, "every test sample gets a cluster label");
    // k beyond the training size refuses the evaluation outright
    assert!(evaluate::clustering_evaluate(&corpus, 13, cluster::LinkageMethod::Average, &mut rng)
        .is_none());
    // an empty corpus cannot be split
    let empty: Vec<LabeledSample> = Vec::new();
    assert!(evaluate::bayes_evaluate(
        &empty,
        VoteType::Laplace,
        Representation::Presence,
        NgramMode::Uni,
        &mut rng,
    )
    .is_none());
}

#[test]
fn parse_labeled_line_reads_label_and_text() {
    let s = parse_labeled_line("4,\"good great\"").expect("valid line");
    assert_eq!(s.label, 4);
    assert_eq!(s.text, "good great");
    let t = parse_labeled_line("0,with,inner,commas").expect("valid line");
    assert_eq!(t.label, 0);
    assert_eq!(t.text, "with,inner,commas");
    let u = parse_labeled_line("-12,abc").expect("valid line");
    assert_eq!(u.label, -12);
    assert!(parse_labeled_line("no comma here").is_none());
    assert!(parse_labeled_line("notanumber,x").is_none());
}

#[test]
fn parse_i32_handles_signs_and_range() {
    assert_eq!(sentiment_core::parse_i32("2147483647"), Some(2147483647));
    assert_eq!(sentiment_core::parse_i32("2147483648"), None);
    assert_eq!(sentiment_core::parse_i32("-2147483648"), Some(-2147483648));
    assert_eq!(sentiment_core::parse_i32("-2147483649"), None);
    assert_eq!(sentiment_core::parse_i32("+17"), Some(17));
    assert_eq!(sentiment_core::parse_i32(""), None);
    assert_eq!(sentiment_core::parse_i32("-"), None);
    assert_eq!(sentiment_core::parse_i32("12x"), None);
    assert_eq!(sentiment_core::parse_i32("99999999999999999999"), None);
}

#[test]
fn fraction_values_compare_exactly() {
    let half = Frac { num: 1, den: 2 };
    let two_quarters = Frac { num: 2, den: 4 };
    assert!(half.eq_value(&two_quarters));
    assert!(half.lt(&Frac { num: 2, den: 3 }));
    assert!(!half.lt(&two_quarters));
}

#[test]
fn naive_evaluation_produces_a_report() {
    let mut corpus = Vec::new();
    for i in 0..6 {
        corpus.push(sample(&format!("good thing {i}"), 4));
        corpus.push(sample(&format!("bad thing {i}"), 0));
    }
    let pos = TokenSet::new(&vec!["good".to_string()]);
    let neg = TokenSet::new(&vec!["bad".to_string()]);
    let mut rng = splitter::rng_from_seed(3);
    let r = evaluate::naive_evaluate(&corpus, &pos, &neg, 1, 2, &mut rng);
    let (m, report) = r.expect("the split leaves both sides filled");
    assert!(report.starts_with("[table=5]"));
    let total: u64 = m.cells.iter().flatten().sum();
    assert_eq!(total, 4, "every test sample is classified");
}

#[test]
fn polarity_counts_against_threshold() {
    let pos = TokenSet::new(&vec!["good".to_string(), "great".to_string()]);
    let neg = TokenSet::new(&vec!["bad".to_string()]);
    // two positive hits of three: ratio 2/3 beats the threshold 1/2
    assert_eq!(polarity::analyser_tweet("good great bad", &pos, &neg, 1, 2), 4);
    // every hit negative
    assert_eq!(polarity::analyser_tweet("bad!", &pos, &neg, 1, 2), 0);
    // no hit at all is neutral
    assert_eq!(polarity::analyser_tweet("nothing matches", &pos, &neg, 1, 2), 2);
    assert_eq!(polarity::compute_polarity_with_weight(1, 1, 1, 2), 2);
    assert_eq!(polarity::compute_polarity_with_weight(0, 0, 1, 2), 2);
}
