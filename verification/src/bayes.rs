use vstd::prelude::*;

use vstd::arithmetic::power::pow;

use crate::LabeledSample;
use crate::bignat::BigNat;
use crate::knn::texts_bounded;
use crate::ngram;
use crate::ngram::{NgramMode, Representation};
use crate::splitter::count_lbl;

verus! {

// The multinomial Naive Bayes classifier.  Training counts documents
// per class and token occurrences per class; classification picks the
// class with the largest posterior
//     P(c) * product over query tokens t of P(t | c)
// where P(c) = docs(c) / docs and
// P(t | c) = (count(c, t) + alpha) / (tokens(c) + alpha * |vocabulary|).
// All probabilities are ratios of integers, so scores are compared
// exactly, as big-integer cross products, rather than through
// floating-point logarithms; the arg-max is the same, and ties go to
// the smallest label value.

/// The most training documents a model accepts.
pub const MAX_DOCS: usize = 0x7fff_ffff;

/// The smoothing constant, as a rational: Laplace smoothing is 1,
/// Lidstone is 1/2, and any positive rational can be given directly.
#[derive(Clone, Copy, Debug, PartialEq, Eq, Structural)]
pub enum VoteType {
    Laplace,
    Lidstone,
    AddAlpha(u32, u32),
}

pub open spec fn spec_alpha_num(v: VoteType) -> int {
    match v {
        VoteType::Laplace => 1,
        VoteType::Lidstone => 1,
        VoteType::AddAlpha(n, _) => n as int,
    }
}

pub open spec fn spec_alpha_den(v: VoteType) -> int {
    match v {
        VoteType::Laplace => 1,
        VoteType::Lidstone => 2,
        VoteType::AddAlpha(_, d) => d as int,
    }
}

/// A smoothing constant must be positive.
pub open spec fn alpha_wf(v: VoteType) -> bool {
    spec_alpha_num(v) >= 1 && spec_alpha_den(v) >= 1
}

impl VoteType {
    /// The numerator and denominator of the smoothing constant.
    pub fn alpha_parts(&self) -> (r: (u64, u64))
        ensures
            r.0 == spec_alpha_num(*self),
            r.1 == spec_alpha_den(*self),
            r.0 <= u32::MAX,
            r.1 <= u32::MAX,
    {
        match self {
            VoteType::Laplace => (1, 1),
            VoteType::Lidstone => (1, 2),
            VoteType::AddAlpha(n, d) => (*n as u64, *d as u64),
        }
    }
}

/// The character sequences of a vector of strings.
pub open spec fn str_views(v: Seq<String>) -> Seq<Seq<char>> {
    v.map_values(|s: String| s@)
}

/// The token occurrences one document contributes, under the model's
/// representation and n-gram mode.
pub open spec fn doc_toks(rep: Representation, mode: NgramMode, text: Seq<char>) -> Seq<
    Seq<char>,
> {
    ngram::spec_counted(rep, ngram::spec_ngram_tokens(mode, text))
}

/// How often token `w` occurs in `ts`.
pub open spec fn tok_count(ts: Seq<Seq<char>>, w: Seq<char>) -> int
    decreases ts.len(),
{
    if ts.len() == 0 {
        0
    } else {
        tok_count(ts.drop_last(), w) + if ts.last() == w {
            1int
        } else {
            0
        }
    }
}

pub proof fn lemma_tok_count_bounds(ts: Seq<Seq<char>>, w: Seq<char>)
    ensures
        0 <= tok_count(ts, w) <= ts.len(),
        tok_count(ts, w) > 0 <==> ts.contains(w),
    decreases ts.len(),
{
    if ts.len() > 0 {
        lemma_tok_count_bounds(ts.drop_last(), w);
        if ts.contains(w) && !(ts.last() == w) {
            let i = choose|i: int| 0 <= i < ts.len() && ts[i] == w;
            assert(ts.drop_last()[i] == w);
            assert(ts.drop_last().contains(w));
        }
        if ts.drop_last().contains(w) {
            let i = choose|i: int| 0 <= i < ts.len() - 1 && ts.drop_last()[i] == w;
            assert(ts[i] == w);
        }
    }
}

/// Occurrences of token `w` in class `c` over the first `m` documents.
pub open spec fn wc_upto(
    data: Seq<LabeledSample>,
    rep: Representation,
    mode: NgramMode,
    c: i32,
    w: Seq<char>,
    m: int,
) -> int
    decreases m,
{
    if m <= 0 {
        0
    } else {
        wc_upto(data, rep, mode, c, w, m - 1) + if data[m - 1].label == c {
            tok_count(doc_toks(rep, mode, data[m - 1].text@), w)
        } else {
            0
        }
    }
}

/// All token occurrences of class `c` over the first `m` documents.
pub open spec fn class_total_upto(
    data: Seq<LabeledSample>,
    rep: Representation,
    mode: NgramMode,
    c: i32,
    m: int,
) -> int
    decreases m,
{
    if m <= 0 {
        0
    } else {
        class_total_upto(data, rep, mode, c, m - 1) + if data[m - 1].label == c {
            doc_toks(rep, mode, data[m - 1].text@).len() as int
        } else {
            0
        }
    }
}

/// Does token `w` occur in one of the first `m` documents?
pub open spec fn in_vocab_upto(
    data: Seq<LabeledSample>,
    rep: Representation,
    mode: NgramMode,
    w: Seq<char>,
    m: int,
) -> bool {
    exists|i: int| 0 <= i < m && doc_toks(rep, mode, (#[trigger] data[i]).text@).contains(w)
}

proof fn lemma_counted_len(rep: Representation, ts: Seq<Seq<char>>)
    ensures
        ngram::spec_counted(rep, ts).len() <= ts.len(),
{
    ngram::lemma_dedup_le(ts);
}

/// Under the corpus bounds a document contributes fewer than `2^32`
/// token occurrences.
pub proof fn lemma_doc_toks_bound(rep: Representation, mode: NgramMode, text: Seq<char>)
    requires
        text.len() <= crate::tokenset::MAX_TOKENS,
    ensures
        doc_toks(rep, mode, text).len() < 0x1_0000_0000,
{
    ngram::lemma_ngram_token_bound(mode, text);
    lemma_counted_len(rep, ngram::spec_ngram_tokens(mode, text));
}

pub proof fn lemma_wc_le_total(
    data: Seq<LabeledSample>,
    rep: Representation,
    mode: NgramMode,
    c: i32,
    w: Seq<char>,
    m: int,
)
    ensures
        0 <= wc_upto(data, rep, mode, c, w, m) <= class_total_upto(data, rep, mode, c, m),
    decreases m,
{
    if m > 0 {
        lemma_wc_le_total(data, rep, mode, c, w, m - 1);
        lemma_tok_count_bounds(doc_toks(rep, mode, data[m - 1].text@), w);
    }
}

pub proof fn lemma_class_total_bound(
    data: Seq<LabeledSample>,
    rep: Representation,
    mode: NgramMode,
    c: i32,
    m: int,
)
    requires
        0 <= m <= data.len(),
        texts_bounded(data),
    ensures
        0 <= class_total_upto(data, rep, mode, c, m) <= m * 0x1_0000_0000,
    decreases m,
{
    if m > 0 {
        lemma_class_total_bound(data, rep, mode, c, m - 1);
        lemma_doc_toks_bound(rep, mode, data[m - 1].text@);
    }
}

/// If a token occurs nowhere in the first `m` documents, its counts are
/// zero.
proof fn lemma_wc_absent(
    data: Seq<LabeledSample>,
    rep: Representation,
    mode: NgramMode,
    c: i32,
    w: Seq<char>,
    m: int,
)
    requires
        !in_vocab_upto(data, rep, mode, w, m),
    ensures
        wc_upto(data, rep, mode, c, w, m) == 0,
    decreases m,
{
    if m > 0 {
        assert(!in_vocab_upto(data, rep, mode, w, m - 1)) by {
            if in_vocab_upto(data, rep, mode, w, m - 1) {
                let i = choose|i: int|
                    0 <= i < m - 1 && doc_toks(rep, mode, (#[trigger] data[i]).text@).contains(
                        w,
                    );
                assert(in_vocab_upto(data, rep, mode, w, m));
            }
        }
        lemma_wc_absent(data, rep, mode, c, w, m - 1);
        assert(!doc_toks(rep, mode, data[m - 1].text@).contains(w));
        lemma_tok_count_bounds(doc_toks(rep, mode, data[m - 1].text@), w);
    }
}

/// A trained Naive Bayes model: per-class document counts, per-class
/// token counts over a shared vocabulary, and the smoothing constant.
pub struct BayesModel {
    pub classes: Vec<i32>,
    pub class_docs: Vec<u64>,
    pub total_docs: u64,
    pub vocab: Vec<String>,
    pub counts: Vec<Vec<u64>>,
    pub class_totals: Vec<u64>,
    pub representation: Representation,
    pub ngram_mode: NgramMode,
    pub alpha: VoteType,
}

impl BayesModel {
    pub open spec fn rows(&self) -> Seq<Seq<u64>> {
        self.counts@.map_values(|r: Vec<u64>| r@)
    }

    pub open spec fn vocab_map(&self) -> Seq<Seq<char>> {
        str_views(self.vocab@)
    }

    /// Internal consistency: parallel lengths, distinct classes and
    /// vocabulary, positive smoothing, every count within its class
    /// total, and every total far from machine limits.
    pub open spec fn wf(&self) -> bool {
        &&& self.classes@.no_duplicates()
        &&& self.vocab_map().no_duplicates()
        &&& self.class_docs@.len() == self.classes@.len()
        &&& self.class_totals@.len() == self.classes@.len()
        &&& self.counts@.len() == self.vocab@.len()
        &&& forall|wi: int|
            0 <= wi < self.counts@.len() ==> (#[trigger] self.counts@[wi])@.len()
                == self.classes@.len()
        &&& alpha_wf(self.alpha)
        &&& self.total_docs <= MAX_DOCS
        &&& forall|ci: int|
            0 <= ci < self.classes@.len() ==> (#[trigger] self.class_docs@[ci])
                <= self.total_docs
        &&& forall|ci: int|
            0 <= ci < self.classes@.len() ==> (#[trigger] self.class_totals@[ci])
                < 0x8000_0000_0000_0000
        &&& self.vocab@.len() < 0x8000_0000_0000_0000
        &&& forall|wi: int, ci: int|
            0 <= wi < self.counts@.len() && 0 <= ci < self.classes@.len()
                ==> (#[trigger] self.counts@[wi]@[ci]) <= self.class_totals@[ci]
    }

    /// The smoothed denominator of class `ci`:
    /// `tokens(ci) * alpha_den + alpha_num * |vocabulary|`, the common
    /// denominator of the class's token probabilities.
    pub open spec fn spec_denom(&self, ci: int) -> int {
        self.class_totals@[ci] * spec_alpha_den(self.alpha) + spec_alpha_num(self.alpha)
            * self.vocab@.len()
    }

    /// The index of token `w` in the vocabulary.
    pub open spec fn vocab_idx(&self, w: Seq<char>) -> int {
        choose|i: int| 0 <= i < self.vocab@.len() && self.vocab_map()[i] == w
    }

    /// The smoothed numerator of `P(w | ci)`:
    /// `count(ci, w) * alpha_den + alpha_num`.
    pub open spec fn spec_factor(&self, ci: int, w: Seq<char>) -> int {
        self.rows()[self.vocab_idx(w)][ci] * spec_alpha_den(self.alpha) + spec_alpha_num(
            self.alpha,
        )
    }
}

fn find_string(v: &Vec<String>, t: &String) -> (r: Option<usize>)
    ensures
        match r {
            Some(i) => 0 <= i < v@.len() && v@[i as int]@ == t@,
            None => !v@.map_values(|s: String| s@).contains(t@),
        },
{
    let ghost vm = v@.map_values(|s: String| s@);
    let mut i: usize = 0;
    while i < v.len()
        invariant
            i <= v@.len(),
            vm == v@.map_values(|s: String| s@),
            forall|k: int| 0 <= k < i ==> vm[k] != t@,
        decreases v@.len() - i,
    {
        if v[i] == *t {
            return Some(i);
        }
        i += 1;
    }
    proof {
        if vm.contains(t@) {
            let k = choose|k: int| 0 <= k < vm.len() && vm[k] == t@;
            assert(false);
        }
    }
    None
}

fn find_label(v: &Vec<i32>, l: i32) -> (r: Option<usize>)
    ensures
        match r {
            Some(i) => 0 <= i < v@.len() && v@[i as int] == l,
            None => !v@.contains(l),
        },
{
    let mut i: usize = 0;
    while i < v.len()
        invariant
            i <= v@.len(),
            forall|k: int| 0 <= k < i ==> v@[k] != l,
        decreases v@.len() - i,
    {
        if v[i] == l {
            return Some(i);
        }
        i += 1;
    }
    proof {
        if v@.contains(l) {
            let k = choose|k: int| 0 <= k < v@.len() && v@[k] == l;
            assert(false);
        }
    }
    None
}

fn zero_row(n: usize) -> (r: Vec<u64>)
    ensures
        r@.len() == n,
        forall|i: int| 0 <= i < n ==> r@[i] == 0,
{
    let mut out: Vec<u64> = Vec::new();
    let mut i: usize = 0;
    while i < n
        invariant
            i <= n,
            out@.len() == i,
            forall|j: int| 0 <= j < i ==> out@[j] == 0,
        decreases n - i,
    {
        out.push(0);
        i += 1;
    }
    out
}

fn bump_row(counts: &mut Vec<Vec<u64>>, wi: usize, ci: usize)
    requires
        wi < old(counts)@.len(),
        ci < old(counts)@[wi as int]@.len(),
        old(counts)@[wi as int]@[ci as int] < u64::MAX,
    ensures
        final(counts)@.len() == old(counts)@.len(),
        final(counts)@[wi as int]@ == old(counts)@[wi as int]@.update(
            ci as int,
            (old(counts)@[wi as int]@[ci as int] + 1) as u64,
        ),
        forall|k: int|
            0 <= k < old(counts)@.len() && k != wi ==> (#[trigger] final(counts)@[k])
                == old(counts)@[k],
{
    let mut row: Vec<u64> = Vec::new();
    let n = counts[wi].len();
    let mut j: usize = 0;
    while j < n
        invariant
            j <= n,
            wi < counts@.len(),
            ci < n,
            n == counts@[wi as int]@.len(),
            counts@ == old(counts)@,
            counts@[wi as int]@[ci as int] < u64::MAX,
            row@.len() == j,
            forall|k: int|
                0 <= k < j ==> row@[k] == (if k == ci {
                    (counts@[wi as int]@[ci as int] + 1) as u64
                } else {
                    counts@[wi as int]@[k]
                }),
        decreases n - j,
    {
        if j == ci {
            row.push(counts[wi][j] + 1);
        } else {
            row.push(counts[wi][j]);
        }
        j += 1;
    }
    proof {
        assert(row@ =~= old(counts)@[wi as int]@.update(
            ci as int,
            (old(counts)@[wi as int]@[ci as int] + 1) as u64,
        ));
    }
    counts.set(wi, row);
}

/// Everything training pins about a model: its parameters, its
/// classes (the corpus labels in first-appearance order, each with its
/// document count), its per-class token counts and totals over the
/// corpus, and its vocabulary (exactly the tokens that occur).
pub open spec fn spec_trained_from(
    r: BayesModel,
    data: Seq<LabeledSample>,
    vote: VoteType,
    representation: Representation,
    ngram_mode: NgramMode,
) -> bool {
    &&& r.wf()
    &&& r.representation == representation
    &&& r.ngram_mode == ngram_mode
    &&& r.alpha == vote
    &&& r.total_docs == data.len()
    &&& r.classes@ == crate::splitter::label_list(data)
    &&& forall|i: int| 0 <= i < data.len() ==> r.classes@.contains((#[trigger] data[i]).label)
    &&& forall|ci: int|
        0 <= ci < r.classes@.len() ==> (#[trigger] r.class_docs@[ci]) == count_lbl(
            data,
            r.classes@[ci],
        ) && r.class_docs@[ci] >= 1
    &&& forall|ci: int|
        0 <= ci < r.classes@.len() ==> (#[trigger] r.class_totals@[ci]) == class_total_upto(
            data,
            representation,
            ngram_mode,
            r.classes@[ci],
            data.len() as int,
        )
    &&& forall|wi: int, ci: int|
        0 <= wi < r.vocab@.len() && 0 <= ci < r.classes@.len()
            ==> (#[trigger] r.rows()[wi][ci]) == wc_upto(
            data,
            representation,
            ngram_mode,
            r.classes@[ci],
            r.vocab_map()[wi],
            data.len() as int,
        )
    &&& forall|w: Seq<char>|
        #[trigger] r.vocab_map().contains(w) <==> in_vocab_upto(
            data,
            representation,
            ngram_mode,
            w,
            data.len() as int,
        )
}

impl BayesModel {
    /// Trains a model: counts documents per class and token
    /// occurrences per class over the vocabulary of all training
    /// tokens.
    pub fn new(
        data: &Vec<LabeledSample>,
        vote: VoteType,
        representation: Representation,
        ngram_mode: NgramMode,
    ) -> (r: BayesModel)
        requires
            data@.len() <= MAX_DOCS,
            texts_bounded(data@),
            alpha_wf(vote),
        ensures
            spec_trained_from(r, data@, vote, representation, ngram_mode),
    {
        // first pass: classes and document counts
        let mut classes: Vec<i32> = Vec::new();
        let mut class_docs: Vec<u64> = Vec::new();
        let mut i: usize = 0;
        proof {
            assert(data@.take(0) =~= Seq::<LabeledSample>::empty());
        }
        while i < data.len()
            invariant
                i <= data@.len(),
                data@.len() <= MAX_DOCS,
                classes@.no_duplicates(),
                class_docs@.len() == classes@.len(),
                forall|j: int| 0 <= j < i ==> classes@.contains((#[trigger] data@[j]).label),
                classes@ == crate::splitter::label_list(data@.take(i as int)),
                forall|ci: int|
                    0 <= ci < classes@.len() ==> (#[trigger] class_docs@[ci]) == count_lbl(
                        data@.take(i as int),
                        classes@[ci],
                    ),
                forall|ci: int|
                    0 <= ci < classes@.len() ==> 1 <= (#[trigger] class_docs@[ci]) <= i,
            decreases data@.len() - i,
        {
            let l = data[i].label;
            let ghost old_classes = classes@;
            let ghost old_docs = class_docs@;
            proof {
                assert(data@.take(i + 1).drop_last() =~= data@.take(i as int));
                assert(data@.take(i + 1).last() == data@[i as int]);
            }
            match find_label(&classes, l) {
                Some(ci) => {
                    let c = class_docs[ci];
                    class_docs.set(ci, c + 1);
                    proof {
                        assert(classes@.contains(l)) by {
                            assert(classes@[ci as int] == l);
                        }
                        assert(crate::splitter::label_list(data@.take(i + 1)) == classes@);
                        assert forall|ci2: int|
                            0 <= ci2 < classes@.len() implies (#[trigger] class_docs@[ci2])
                            == count_lbl(data@.take(i + 1), classes@[ci2]) by {
                            if ci2 != ci {
                                assert(classes@[ci2] != l);
                            }
                        }
                    }
                },
                None => {
                    proof {
                        assert(forall|j2: int| 0 <= j2 < classes@.len() ==> classes@[j2] != l);
                        assert(forall|j2: int|
                            0 <= j2 < i ==> (#[trigger] data@.take(i as int)[j2]).label != l);
                        crate::splitter::lemma_count_absent(data@.take(i as int), l);
                    }
                    classes.push(l);
                    class_docs.push(1);
                    proof {
                        assert(classes@[classes@.len() - 1] == l);
                        assert(!old_classes.contains(l)) by {
                            if old_classes.contains(l) {
                                let w = choose|w: int|
                                    0 <= w < old_classes.len() && old_classes[w] == l;
                            }
                        }
                        assert(classes@ =~= old_classes.push(l));
                        assert(crate::splitter::label_list(data@.take(i + 1)) == classes@);
                        assert forall|ci2: int|
                            0 <= ci2 < classes@.len() implies (#[trigger] class_docs@[ci2])
                            == count_lbl(data@.take(i + 1), classes@[ci2]) by {
                            if ci2 < classes@.len() - 1 {
                                assert(classes@[ci2] == old_classes[ci2]);
                                assert(class_docs@[ci2] == old_docs[ci2]);
                                assert(classes@[ci2] != l) by {
                                    assert(old_classes[ci2] != l);
                                }
                            }
                        }
                    }
                },
            }
            proof {
                assert forall|j: int| 0 <= j < i + 1 implies classes@.contains(
                    (#[trigger] data@[j]).label,
                ) by {
                    if j < i {
                        let w = choose|w: int|
                            0 <= w < old_classes.len() && old_classes[w] == data@[j].label;
                        assert(classes@[w] == data@[j].label);
                    } else {
                        let w = choose|w: int| 0 <= w < classes@.len() && classes@[w] == l;
                        assert(classes@.contains(l));
                    }
                }
            }
            i += 1;
        }
        proof {
            assert(data@.take(data@.len() as int) =~= data@);
        }
        // second pass: vocabulary, per-class token counts, class totals
        let mut vocab: Vec<String> = Vec::new();
        let mut counts: Vec<Vec<u64>> = Vec::new();
        let mut class_totals: Vec<u64> = zero_row(classes.len());
        let nclasses = classes.len();
        let mut d: usize = 0;
        while d < data.len()
            invariant
                d <= data@.len(),
                data@.len() <= MAX_DOCS,
                texts_bounded(data@),
                nclasses == classes@.len(),
                classes@.no_duplicates(),
                forall|j: int| 0 <= j < data@.len() ==> classes@.contains(
                    (#[trigger] data@[j]).label,
                ),
                str_views(vocab@).no_duplicates(),
                counts@.len() == vocab@.len(),
                vocab@.len() <= d * 0x1_0000_0000,
                class_totals@.len() == classes@.len(),
                forall|wi: int|
                    0 <= wi < counts@.len() ==> (#[trigger] counts@[wi])@.len()
                        == classes@.len(),
                forall|ci: int|
                    0 <= ci < classes@.len() ==> (#[trigger] class_totals@[ci])
                        == class_total_upto(data@, representation, ngram_mode, classes@[ci], d as int),
                forall|wi: int, ci: int|
                    0 <= wi < counts@.len() && 0 <= ci < classes@.len()
                        ==> (#[trigger] counts@[wi]@[ci]) == wc_upto(
                        data@,
                        representation,
                        ngram_mode,
                        classes@[ci],
                        str_views(vocab@)[wi],
                        d as int,
                    ),
                forall|w: Seq<char>|
                    #[trigger] str_views(vocab@).contains(w) <==> in_vocab_upto(
                        data@,
                        representation,
                        ngram_mode,
                        w,
                        d as int,
                    ),
            decreases data@.len() - d,
        {
            let txt = data[d].text.as_str();
            proof {
                assert(txt@ == data@[d as int].text@);
            }
            let raw = ngram_mode.tokeniser_tweet(txt);
            proof {
                assert(raw@.map_values(|x: String| x@) == ngram::spec_ngram_tokens(
                    ngram_mode,
                    txt@,
                ));
                assert(ngram::spec_ngram_tokens(ngram_mode, txt@) == ngram::spec_ngram_tokens(
                    ngram_mode,
                    data@[d as int].text@,
                ));
            }
            let toks = representation.tokens_to_count(raw);
            let ghost toksm = toks@.map_values(|x: String| x@);
            proof {
                assert(toksm == doc_toks(representation, ngram_mode, data@[d as int].text@));
                lemma_doc_toks_bound(representation, ngram_mode, data@[d as int].text@);
                assert(toksm.take(0) =~= Seq::<Seq<char>>::empty());
            }
            let ci = match find_label(&classes, data[d].label) {
                Some(c) => c,
                None => {
                    proof {
                        assert(classes@.contains(data@[d as int].label));
                        assert(false);
                    }
                    0
                },
            };
            let ghost lbl = data@[d as int].label;
            let mut t: usize = 0;
            while t < toks.len()
                invariant
                    t <= toks@.len(),
                    d < data@.len(),
                    data@.len() <= MAX_DOCS,
                    texts_bounded(data@),
                    nclasses == classes@.len(),
                    classes@.no_duplicates(),
                    ci < classes@.len(),
                    classes@[ci as int] == lbl,
                    lbl == data@[d as int].label,
                    toksm == toks@.map_values(|x: String| x@),
                    toksm == doc_toks(representation, ngram_mode, data@[d as int].text@),
                    toksm.len() < 0x1_0000_0000,
                    str_views(vocab@).no_duplicates(),
                    counts@.len() == vocab@.len(),
                    vocab@.len() <= d * 0x1_0000_0000 + t,
                    class_totals@.len() == classes@.len(),
                    forall|wi: int|
                        0 <= wi < counts@.len() ==> (#[trigger] counts@[wi])@.len()
                            == classes@.len(),
                    forall|ci2: int|
                        0 <= ci2 < classes@.len() ==> (#[trigger] class_totals@[ci2])
                            == class_total_upto(data@, representation, ngram_mode, classes@[ci2], d as int) + (
                        if ci2 == ci {
                            t as int
                        } else {
                            0
                        }),
                    forall|wi: int, ci2: int|
                        0 <= wi < counts@.len() && 0 <= ci2 < classes@.len()
                            ==> (#[trigger] counts@[wi]@[ci2]) == wc_upto(
                            data@,
                            representation,
                            ngram_mode,
                            classes@[ci2],
                            str_views(vocab@)[wi],
                            d as int,
                        ) + (if ci2 == ci {
                            tok_count(toksm.take(t as int), str_views(vocab@)[wi])
                        } else {
                            0
                        }),
                    forall|w: Seq<char>|
                        #[trigger] str_views(vocab@).contains(w) <==> (
                        in_vocab_upto(data@, representation, ngram_mode, w, d as int) || toksm.take(
                            t as int,
                        ).contains(w)),
                decreases toks@.len() - t,
            {
                let ghost vm = str_views(vocab@);
                let ghost tokv = toksm[t as int];
                proof {
                    assert(toksm.take(t + 1).drop_last() =~= toksm.take(t as int));
                    assert(toksm.take(t + 1).last() == toksm[t as int]);
                    assert(toksm[t as int] == toks@[t as int]@);
                }
                let wi = match find_string(&vocab, &toks[t]) {
                    Some(w) => w,
                    None => {
                        // a token never seen before: new vocabulary
                        // entry with all-zero counts
                        proof {
                            assert(!vm.contains(tokv));
                            assert(!in_vocab_upto(data@, representation, ngram_mode, tokv, d as int));
                            assert forall|ci2: int| 0 <= ci2 < classes@.len() implies wc_upto(
                                data@,
                                representation,
                                ngram_mode,
                                classes@[ci2],
                                tokv,
                                d as int,
                            ) == 0 by {
                                lemma_wc_absent(data@, representation, ngram_mode, classes@[ci2], tokv, d as int);
                            }
                            lemma_tok_count_bounds(toksm.take(t as int), tokv);
                            assert(!toksm.take(t as int).contains(tokv));
                            assert(tok_count(toksm.take(t as int), tokv) == 0);
                        }
                        let nv = vocab.len();
                        vocab.push(toks[t].clone());
                        counts.push(zero_row(nclasses));
                        proof {
                            let vm2 = str_views(vocab@);
                            assert(vm2 =~= vm.push(tokv));
                            assert(!vm.contains(tokv));
                            assert(vm2.no_duplicates());
                            assert forall|w: Seq<char>| #[trigger] vm2.contains(w) implies (
                            vm.contains(w) || w == tokv) by {
                                let k = choose|k: int| 0 <= k < vm2.len() && vm2[k] == w;
                                if k < vm.len() {
                                    assert(vm[k] == w);
                                }
                            }
                            assert forall|w: Seq<char>| vm.contains(w) implies vm2.contains(
                                w,
                            ) by {
                                let k = choose|k: int| 0 <= k < vm.len() && vm[k] == w;
                                assert(vm2[k] == w);
                            }
                            assert(vm2.contains(tokv)) by {
                                assert(vm2[vm2.len() - 1] == tokv);
                            }
                        }
                        nv
                    },
                };
                proof {
                    let vm2 = str_views(vocab@);
                    assert(vm2[wi as int] == tokv);
                    assert(wi < counts@.len());
                    assert(counts@[wi as int]@[ci as int] == wc_upto(
                        data@,
                        representation,
                        ngram_mode,
                        classes@[ci as int],
                        tokv,
                        d as int,
                    ) + tok_count(toksm.take(t as int), tokv));
                    lemma_wc_le_total(data@, representation, ngram_mode, classes@[ci as int], tokv, d as int);
                    lemma_class_total_bound(data@, representation, ngram_mode, classes@[ci as int], d as int);
                    lemma_tok_count_bounds(toksm.take(t as int), tokv);
                    assert(counts@[wi as int]@[ci as int] < u64::MAX);
                }
                bump_row(&mut counts, wi, ci);
                let ct = class_totals[ci];
                proof {
                    lemma_class_total_bound(data@, representation, ngram_mode, classes@[ci as int], d as int);
                }
                class_totals.set(ci, ct + 1);
                proof {
                    let vm2 = str_views(vocab@);
                    assert forall|wi2: int, ci2: int|
                        0 <= wi2 < counts@.len() && 0 <= ci2 < classes@.len()
                            implies (#[trigger] counts@[wi2]@[ci2]) == wc_upto(
                            data@,
                            representation,
                            ngram_mode,
                            classes@[ci2],
                            vm2[wi2],
                            d as int,
                        ) + (if ci2 == ci {
                            tok_count(toksm.take(t + 1), vm2[wi2])
                        } else {
                            0
                        }) by {
                        if wi2 != wi {
                            assert(vm2[wi2] != tokv) by {
                                assert(vm2[wi as int] == tokv);
                            }
                        }
                    }
                    assert forall|w: Seq<char>| #[trigger] vm2.contains(w) implies (
                    in_vocab_upto(data@, representation, ngram_mode, w, d as int) || toksm.take(t + 1).contains(
                        w,
                    )) by {
                        if toksm.take(t as int).contains(w) {
                            let k = choose|k: int|
                                0 <= k < t && toksm.take(t as int)[k] == w;
                            assert(toksm.take(t + 1)[k] == w);
                        }
                    }
                    assert forall|w: Seq<char>|
                        in_vocab_upto(data@, representation, ngram_mode, w, d as int) || toksm.take(
                            t + 1,
                        ).contains(w) implies #[trigger] vm2.contains(w) by {
                        if toksm.take(t + 1).contains(w) && !in_vocab_upto(
                            data@,
                            representation,
                            ngram_mode,
                            w,
                            d as int,
                        ) {
                            let k = choose|k: int|
                                0 <= k < t + 1 && (#[trigger] toksm.take(t + 1)[k]) == w;
                            if k < t {
                                assert(toksm.take(t as int)[k] == w);
                                assert(toksm.take(t as int).contains(w));
                            } else {
                                assert(w == tokv);
                                assert(vm2[wi as int] == tokv);
                            }
                        }
                    }
                }
                t += 1;
            }
            proof {
                assert(toksm.take(toksm.len() as int) =~= toksm);
                assert forall|ci2: int|
                    0 <= ci2 < classes@.len() implies class_total_upto(
                    data@,
                    representation,
                    ngram_mode,
                    classes@[ci2],
                    d + 1,
                ) == class_total_upto(data@, representation, ngram_mode, classes@[ci2], d as int) + (if ci2 == ci {
                    toksm.len() as int
                } else {
                    0
                }) by {
                    if ci2 != ci {
                        assert(classes@[ci2] != lbl);
                    }
                }
                assert forall|wi2: int, ci2: int|
                    0 <= wi2 < counts@.len() && 0 <= ci2 < classes@.len() implies wc_upto(
                    data@,
                    representation,
                    ngram_mode,
                    classes@[ci2],
                    str_views(vocab@)[wi2],
                    d + 1,
                ) == wc_upto(
                    data@,
                    representation,
                    ngram_mode,
                    classes@[ci2],
                    str_views(vocab@)[wi2],
                    d as int,
                ) + (if ci2 == ci {
                    tok_count(toksm, str_views(vocab@)[wi2])
                } else {
                    0
                }) by {
                    if ci2 != ci {
                        assert(classes@[ci2] != lbl);
                    }
                }
                assert forall|w: Seq<char>|
                    in_vocab_upto(data@, representation, ngram_mode, w, d + 1) implies (in_vocab_upto(
                    data@,
                    representation,
                    ngram_mode,
                    w,
                    d as int,
                ) || toksm.contains(w)) by {
                    let k = choose|k: int|
                        0 <= k < d + 1 && doc_toks(representation, ngram_mode, (#[trigger] data@[k]).text@)
                            .contains(w);
                    if k < d {
                        assert(in_vocab_upto(data@, representation, ngram_mode, w, d as int));
                    }
                }
                assert forall|w: Seq<char>|
                    in_vocab_upto(data@, representation, ngram_mode, w, d as int) implies in_vocab_upto(
                    data@,
                    representation,
                    ngram_mode,
                    w,
                    d + 1,
                ) by {
                    let k = choose|k: int|
                        0 <= k < d && doc_toks(representation, ngram_mode, (#[trigger] data@[k]).text@).contains(
                            w,
                        );
                }
                assert forall|w: Seq<char>| toksm.contains(w) implies in_vocab_upto(
                    data@,
                    representation,
                    ngram_mode,
                    w,
                    d + 1,
                ) by {
                    assert(doc_toks(representation, ngram_mode, (data@[d as int]).text@).contains(w));
                }
            }
            d += 1;
        }
        let total_docs = data.len() as u64;
        let r = BayesModel {
            classes,
            class_docs,
            total_docs,
            vocab,
            counts,
            class_totals,
            representation,
            ngram_mode,
            alpha: vote,
        };
        proof {
            assert forall|ci: int| 0 <= ci < r.classes@.len() implies (
            #[trigger] r.class_docs@[ci]) <= r.total_docs by {
                crate::splitter::lemma_count_bounds(data@, r.classes@[ci]);
            }
            assert forall|ci: int| 0 <= ci < r.classes@.len() implies (
            #[trigger] r.class_totals@[ci]) < 0x8000_0000_0000_0000 by {
                lemma_class_total_bound(data@, representation, ngram_mode, r.classes@[ci], data@.len() as int);
            }
            assert forall|wi: int, ci: int|
                0 <= wi < r.counts@.len() && 0 <= ci < r.classes@.len()
                    implies (#[trigger] r.counts@[wi]@[ci]) <= r.class_totals@[ci] by {
                lemma_wc_le_total(
                    data@,
                    representation,
                    ngram_mode,
                    r.classes@[ci],
                    r.vocab_map()[wi],
                    data@.len() as int,
                );
            }
            assert forall|wi: int, ci: int|
                0 <= wi < r.vocab@.len() && 0 <= ci < r.classes@.len()
                    implies (#[trigger] r.rows()[wi][ci]) == wc_upto(
                    data@,
                    representation,
                    ngram_mode,
                    r.classes@[ci],
                    r.vocab_map()[wi],
                    data@.len() as int,
                ) by {
                assert(r.rows()[wi] == r.counts@[wi]@);
            }
        }
        r
    }
}

impl BayesModel {
    /// The query tokens that the vocabulary knows, in order, among the
    /// first `t` tokens of `toks`; out-of-vocabulary tokens contribute
    /// nothing to any class score.
    pub open spec fn spec_kept_upto(&self, toks: Seq<Seq<char>>, t: int) -> Seq<Seq<char>>
        decreases t,
    {
        if t <= 0 {
            Seq::empty()
        } else {
            let p = self.spec_kept_upto(toks, t - 1);
            if self.vocab_map().contains(toks[t - 1]) {
                p.push(toks[t - 1])
            } else {
                p
            }
        }
    }

    /// The in-vocabulary tokens of a query under the model's
    /// representation and n-gram mode.
    pub open spec fn spec_kept(&self, text: Seq<char>) -> Seq<Seq<char>> {
        let toks = doc_toks(self.representation, self.ngram_mode, text);
        self.spec_kept_upto(toks, toks.len() as int)
    }

    /// The numerator of the unnormalised posterior of class `ci`: its
    /// document count times the smoothed numerator of each kept query
    /// token, over the first `t` of them.
    pub open spec fn prod_factors(&self, ci: int, kept: Seq<Seq<char>>, t: int) -> int
        decreases t,
    {
        if t <= 0 {
            self.class_docs@[ci] as int
        } else {
            self.prod_factors(ci, kept, t - 1) * self.spec_factor(ci, kept[t - 1])
        }
    }

    /// Does class `c1` score strictly higher than `c2` on the kept
    /// query tokens?  Scores are the exact posteriors
    /// `docs(c) / docs * product P(t | c)`; the comparison
    /// cross-multiplies the two rationals (the shared factor `docs`
    /// cancels).
    pub open spec fn score_gt(&self, kept: Seq<Seq<char>>, c1: int, c2: int) -> bool {
        self.prod_factors(c1, kept, kept.len() as int) * pow(self.spec_denom(c2), kept.len())
            > self.prod_factors(c2, kept, kept.len() as int) * pow(
            self.spec_denom(c1),
            kept.len(),
        )
    }

    /// Do the two classes score exactly alike?
    pub open spec fn score_eq(&self, kept: Seq<Seq<char>>, c1: int, c2: int) -> bool {
        self.prod_factors(c1, kept, kept.len() as int) * pow(self.spec_denom(c2), kept.len())
            == self.prod_factors(c2, kept, kept.len() as int) * pow(
            self.spec_denom(c1),
            kept.len(),
        )
    }

    /// The index of the winning class among the first `j`: the highest
    /// score, ties going to the smallest label value.
    pub open spec fn spec_pick(&self, kept: Seq<Seq<char>>, j: int) -> Option<int>
        decreases j,
    {
        if j <= 0 {
            None
        } else {
            let prev = self.spec_pick(kept, j - 1);
            match prev {
                None => Some(j - 1),
                Some(b) => if self.score_gt(kept, j - 1, b) || (self.score_eq(kept, j - 1, b)
                    && self.classes@[j - 1] < self.classes@[b]) {
                    Some(j - 1)
                } else {
                    Some(b)
                },
            }
        }
    }

    /// The label the model assigns to `text`: the class with the
    /// maximum posterior, ties going to the smallest label value;
    /// `None` only for a model trained on an empty corpus.
    pub open spec fn spec_classifier(&self, text: Seq<char>) -> Option<i32> {
        match self.spec_pick(self.spec_kept(text), self.classes@.len() as int) {
            None => None,
            Some(b) => Some(self.classes@[b]),
        }
    }

    fn kept_tokens(&self, toks: &Vec<String>) -> (r: Vec<String>)
        ensures
            str_views(r@) == self.spec_kept_upto(
                str_views(toks@),
                toks@.len() as int,
            ),
            forall|j: int|
                0 <= j < r@.len() ==> self.vocab_map().contains(#[trigger] str_views(r@)[j]),
    {
        let ghost toksm = str_views(toks@);
        let mut out: Vec<String> = Vec::new();
        let mut t: usize = 0;
        while t < toks.len()
            invariant
                t <= toks@.len(),
                toksm == str_views(toks@),
                str_views(out@) == self.spec_kept_upto(toksm, t as int),
                forall|j: int|
                    0 <= j < out@.len() ==> self.vocab_map().contains(
                        #[trigger] str_views(out@)[j],
                    ),
            decreases toks@.len() - t,
        {
            let ghost omo = str_views(out@);
            match find_string(&self.vocab, &toks[t]) {
                Some(wi) => {
                    proof {
                        assert(self.vocab_map()[wi as int] == toksm[t as int]);
                        assert(self.vocab_map().contains(toksm[t as int]));
                    }
                    let x = toks[t].clone();
                    proof {
                        assert(str_views(out@.push(x)) =~= omo.push(x@));
                        assert(x@ == toksm[t as int]);
                    }
                    out.push(x);
                },
                None => {
                    proof {
                        assert(!self.vocab_map().contains(toksm[t as int]));
                    }
                },
            }
            t += 1;
        }
        out
    }

    fn score_big(&self, ci: usize, other: usize, kept: &Vec<String>) -> (r: BigNat)
        requires
            self.wf(),
            ci < self.classes@.len(),
            other < self.classes@.len(),
            forall|j: int|
                0 <= j < kept@.len() ==> self.vocab_map().contains(
                    #[trigger] str_views(kept@)[j],
                ),
        ensures
            r.value() == self.prod_factors(
                ci as int,
                str_views(kept@),
                kept@.len() as int,
            ) * pow(self.spec_denom(other as int), kept@.len()),
    {
        let ghost keptm = str_views(kept@);
        let (an, ad) = self.alpha.alpha_parts();
        let mut acc = BigNat::from_u64(self.class_docs[ci]);
        let mut t: usize = 0;
        while t < kept.len()
            invariant
                t <= kept@.len(),
                self.wf(),
                ci < self.classes@.len(),
                an == spec_alpha_num(self.alpha),
                ad == spec_alpha_den(self.alpha),
                an <= u32::MAX,
                ad <= u32::MAX,
                keptm == str_views(kept@),
                forall|j: int|
                    0 <= j < kept@.len() ==> self.vocab_map().contains(#[trigger] keptm[j]),
                acc.value() == self.prod_factors(ci as int, keptm, t as int),
            decreases kept@.len() - t,
        {
            let wi = match find_string(&self.vocab, &kept[t]) {
                Some(w) => w,
                None => {
                    proof {
                        assert(self.vocab_map().contains(keptm[t as int]));
                        assert(false);
                    }
                    0
                },
            };
            proof {
                assert(self.vocab_map()[wi as int] == keptm[t as int]);
                let vi = self.vocab_idx(keptm[t as int]);
                assert(0 <= vi < self.vocab@.len() && self.vocab_map()[vi] == keptm[t as int])
                    by {
                    assert(self.vocab_map()[wi as int] == keptm[t as int]);
                }
                assert(vi == wi) by {
                    if vi != wi {
                        assert(self.vocab_map()[vi] == self.vocab_map()[wi as int]);
                    }
                }
                vstd::arithmetic::mul::lemma_mul_upper_bound(
                    self.counts@[wi as int]@[ci as int] as int,
                    0x8000_0000_0000_0000,
                    ad as int,
                    0x1_0000_0000,
                );
            }
            let f: u128 = (self.counts[wi][ci] as u128) * (ad as u128) + (an as u128);
            proof {
                assert(self.rows()[wi as int] == self.counts@[wi as int]@);
                assert(f as int == self.spec_factor(ci as int, keptm[t as int]));
            }
            acc = acc.mul_u128(f);
            t += 1;
        }
        proof {
            assert(keptm.len() == kept@.len());
            vstd::arithmetic::mul::lemma_mul_upper_bound(
                self.class_totals@[other as int] as int,
                0x8000_0000_0000_0000,
                spec_alpha_den(self.alpha),
                0x1_0000_0000,
            );
            vstd::arithmetic::mul::lemma_mul_upper_bound(
                spec_alpha_num(self.alpha),
                0x1_0000_0000,
                self.vocab@.len() as int,
                0x8000_0000_0000_0000,
            );
        }
        let dn: u128 = (self.class_totals[other] as u128) * (ad as u128) + (an as u128) * (
        self.vocab.len() as u128);
        proof {
            assert(dn as int == self.spec_denom(other as int));
            assert(pow(self.spec_denom(other as int), 0) == 1) by {
                vstd::arithmetic::power::lemma_pow0(self.spec_denom(other as int));
            }
            assert(acc.value() * 1 == acc.value());
        }
        let m = kept.len();
        let ghost pf = self.prod_factors(ci as int, keptm, keptm.len() as int);
        let mut j: usize = 0;
        while j < m
            invariant
                j <= m,
                m == keptm.len(),
                dn as int == self.spec_denom(other as int),
                acc.value() == pf * pow(self.spec_denom(other as int), j as nat),
            decreases m - j,
        {
            acc = acc.mul_u128(dn);
            proof {
                let d0 = self.spec_denom(other as int);
                assert(pow(d0, (j + 1) as nat) == d0 * pow(d0, j as nat)) by {
                    vstd::arithmetic::power::lemma_pow_adds(d0, 1, j as nat);
                    vstd::arithmetic::power::lemma_pow1(d0);
                }
                assert((pf * pow(d0, j as nat)) * d0 == pf * (d0 * pow(d0, j as nat)))
                    by (nonlinear_arith);
            }
            j += 1;
        }
        acc
    }

    /// Classifies `tweet` by the maximum smoothed posterior over the
    /// trained classes; ties go to the smallest label value, and
    /// out-of-vocabulary query tokens are ignored.  Returns `None`
    /// exactly when the model was trained on an empty corpus.
    pub fn classifier(&self, tweet: &str) -> (r: Option<i32>)
        requires
            self.wf(),
        ensures
            r == self.spec_classifier(tweet@),
            r is Some <==> self.classes@.len() > 0,
    {
        let raw = self.ngram_mode.tokeniser_tweet(tweet);
        let toks = self.representation.tokens_to_count(raw);
        proof {
            assert(str_views(toks@) == doc_toks(
                self.representation,
                self.ngram_mode,
                tweet@,
            ));
        }
        let kept = self.kept_tokens(&toks);
        let ghost keptm = str_views(kept@);
        proof {
            assert(keptm == self.spec_kept(tweet@));
        }
        let n = self.classes.len();
        let mut best: Option<usize> = None;
        let mut j: usize = 0;
        while j < n
            invariant
                j <= n,
                n == self.classes@.len(),
                self.wf(),
                keptm == str_views(kept@),
                keptm == self.spec_kept(tweet@),
                forall|j2: int|
                    0 <= j2 < kept@.len() ==> self.vocab_map().contains(#[trigger] keptm[j2]),
                match best {
                    None => self.spec_pick(keptm, j as int) is None,
                    Some(b) => b < n && self.spec_pick(keptm, j as int) == Some(b as int),
                },
            decreases n - j,
        {
            match best {
                None => {
                    best = Some(j);
                },
                Some(b) => {
                    let a_big = self.score_big(j, b, &kept);
                    let b_big = self.score_big(b, j, &kept);
                    if b_big.lt(&a_big) || (b_big.eq_value(&a_big) && self.classes[j]
                        < self.classes[b]) {
                        best = Some(j);
                    }
                },
            }
            j += 1;
        }
        match best {
            None => None,
            Some(b) => Some(self.classes[b]),
        }
    }
}

/// The sum of a sequence of document counts.
pub open spec fn sum_docs(s: Seq<u64>) -> int
    decreases s.len(),
{
    if s.len() == 0 {
        0
    } else {
        sum_docs(s.drop_last()) + s.last()
    }
}

proof fn lemma_sum_docs_pointwise(docs: Seq<u64>, ls: Seq<i32>, s: Seq<LabeledSample>)
    requires
        docs.len() == ls.len(),
        forall|j: int| 0 <= j < ls.len() ==> (#[trigger] docs[j]) == count_lbl(s, ls[j]),
    ensures
        sum_docs(docs) == crate::splitter::sum_counts(ls, s),
    decreases ls.len(),
{
    if ls.len() > 0 {
        assert(forall|j: int|
            0 <= j < ls.len() - 1 ==> (#[trigger] docs.drop_last()[j]) == count_lbl(
                s,
                ls.drop_last()[j],
            )) by {
            assert(forall|j: int|
                0 <= j < ls.len() - 1 ==> docs.drop_last()[j] == docs[j] && ls.drop_last()[j]
                    == ls[j]);
        }
        lemma_sum_docs_pointwise(docs.drop_last(), ls.drop_last(), s);
        assert(docs.last() == docs[docs.len() - 1]);
        assert(ls.last() == ls[ls.len() - 1]);
    }
}

/// The prior probabilities of a trained model sum to one: the per-class
/// document counts sum to the total document count, so
/// `sum over classes c of exp(logPrior(c)) = sum docs(c) / docs = 1`.
pub proof fn lemma_priors_sum_to_one(m: &BayesModel, data: Seq<LabeledSample>)
    requires
        m.classes@.no_duplicates(),
        m.class_docs@.len() == m.classes@.len(),
        m.total_docs == data.len(),
        forall|i: int| 0 <= i < data.len() ==> m.classes@.contains((#[trigger] data[i]).label),
        forall|ci: int|
            0 <= ci < m.classes@.len() ==> (#[trigger] m.class_docs@[ci]) == count_lbl(
                data,
                m.classes@[ci],
            ),
    ensures
        sum_docs(m.class_docs@) == m.total_docs,
{
    crate::splitter::lemma_sum_counts_all(m.classes@, data);
    lemma_sum_docs_pointwise(m.class_docs@, m.classes@, data);
}

/// Every smoothed token probability lies strictly between 0 and 1: for
/// any class and any vocabulary token, `0 < numerator < denominator`
/// holds of `P(t | c) = (count + alpha) / (tokens + alpha * |V|)`, so
/// `exp(logLikelihood(c, t))` lies in `(0, 1)`.  This needs at least
/// two distinct vocabulary tokens: with a single one, a class made of
/// that token alone reaches probability exactly 1.
pub proof fn lemma_likelihood_in_unit(m: &BayesModel, ci: int, wi: int)
    requires
        m.wf(),
        0 <= ci < m.classes@.len(),
        0 <= wi < m.vocab@.len(),
        m.vocab@.len() >= 2,
    ensures
        0 < m.spec_factor(ci, m.vocab_map()[wi]) < m.spec_denom(ci),
{
    let w = m.vocab_map()[wi];
    let vi = m.vocab_idx(w);
    assert(0 <= vi < m.vocab@.len() && m.vocab_map()[vi] == w) by {
        assert(m.vocab_map()[wi] == w);
    }
    assert(vi == wi) by {
        if vi != wi {
            assert(m.vocab_map()[vi] == m.vocab_map()[wi]);
        }
    }
    let cnt = m.rows()[wi][ci] as int;
    let tot = m.class_totals@[ci] as int;
    let an = spec_alpha_num(m.alpha);
    let ad = spec_alpha_den(m.alpha);
    let v = m.vocab@.len() as int;
    assert(m.rows()[wi] == m.counts@[wi]@);
    assert(cnt <= tot);
    assert(cnt * ad >= 0) by (nonlinear_arith)
        requires
            cnt >= 0,
            ad >= 1,
    ;
    assert(cnt * ad <= tot * ad) by (nonlinear_arith)
        requires
            cnt <= tot,
            ad >= 1,
    ;
    assert(an * v >= 2 * an) by (nonlinear_arith)
        requires
            v >= 2,
            an >= 1,
    ;
}

} // verus!
