use vstd::prelude::*;

use crate::token;

verus! {

// Token extraction for the Naive Bayes classifier: whitespace-separated
// words of at least four characters, optionally combined into bigrams
// (consecutive word pairs joined by a single space).

/// Which n-grams the Naive Bayes tokenizer produces.
#[derive(Clone, Copy, Debug, PartialEq, Eq, Structural)]
pub enum NgramMode {
    Uni,
    Bi,
    UniBi,
}

/// The entries of `ws` that hold at least four characters, in order.
pub open spec fn spec_min4(ws: Seq<Seq<char>>) -> Seq<Seq<char>>
    decreases ws.len(),
{
    if ws.len() == 0 {
        Seq::empty()
    } else {
        let d = spec_min4(ws.drop_last());
        if ws.last().len() >= 4 {
            d.push(ws.last())
        } else {
            d
        }
    }
}

/// Whitespace-separated, lower-cased words of at least four characters.
pub open spec fn spec_unigrams(text: Seq<char>) -> Seq<Seq<char>> {
    spec_min4(token::spec_words_ws(text))
}

pub open spec fn spec_join_pair(a: Seq<char>, b: Seq<char>) -> Seq<char> {
    a + seq![' '] + b
}

/// Consecutive pairs of `ws`, each pair joined by a single space.
pub open spec fn spec_bigrams(ws: Seq<Seq<char>>) -> Seq<Seq<char>> {
    if ws.len() < 2 {
        Seq::empty()
    } else {
        Seq::new((ws.len() - 1) as nat, |i: int| spec_join_pair(ws[i], ws[i + 1]))
    }
}

/// The token sequence the Naive Bayes classifier derives from `text`
/// under mode `m`.
pub open spec fn spec_ngram_tokens(m: NgramMode, text: Seq<char>) -> Seq<Seq<char>> {
    match m {
        NgramMode::Uni => spec_unigrams(text),
        NgramMode::Bi => spec_bigrams(spec_unigrams(text)),
        NgramMode::UniBi => spec_unigrams(text) + spec_bigrams(spec_unigrams(text)),
    }
}

pub proof fn lemma_min4_le(ws: Seq<Seq<char>>)
    ensures
        spec_min4(ws).len() <= ws.len(),
    decreases ws.len(),
{
    if ws.len() > 0 {
        lemma_min4_le(ws.drop_last());
    }
}

pub proof fn lemma_dedup_le(s: Seq<Seq<char>>)
    ensures
        spec_dedup(s).len() <= s.len(),
    decreases s.len(),
{
    if s.len() > 0 {
        lemma_dedup_le(s.drop_last());
    }
}

/// A text of `n` characters yields at most `2n` n-gram tokens.
pub proof fn lemma_ngram_token_bound(m: NgramMode, text: Seq<char>)
    ensures
        spec_ngram_tokens(m, text).len() <= 2 * text.len(),
{
    crate::token::lemma_token_count(crate::token::lower_seq(text), false);
    lemma_min4_le(crate::token::spec_words_ws(text));
    assert(spec_unigrams(text).len() <= text.len());
    assert(spec_bigrams(spec_unigrams(text)).len() <= text.len());
}

/// Does some entry of `v` hold the same characters as `t`?
pub fn vec_contains_string(v: &Vec<String>, t: &String) -> (r: bool)
    ensures
        r == v@.map_values(|x: String| x@).contains(t@),
{
    let ghost vm = v@.map_values(|x: String| x@);
    let mut i: usize = 0;
    while i < v.len()
        invariant
            i <= v@.len(),
            vm == v@.map_values(|x: String| x@),
            forall|k: int| 0 <= k < i ==> vm[k] != t@,
        decreases v@.len() - i,
    {
        if v[i] == *t {
            assert(vm[i as int] == t@);
            return true;
        }
        i += 1;
    }
    proof {
        if vm.contains(t@) {
            let k = choose|k: int| 0 <= k < vm.len() && vm[k] == t@;
            assert(false);
        }
    }
    false
}

fn filter_min_len(v: Vec<String>) -> (r: Vec<String>)
    ensures
        r@.map_values(|x: String| x@) == spec_min4(v@.map_values(|x: String| x@)),
{
    let ghost vm = v@.map_values(|x: String| x@);
    let mut out: Vec<String> = Vec::new();
    let mut i: usize = 0;
    proof {
        assert(vm.take(0) =~= Seq::<Seq<char>>::empty());
        assert(out@.map_values(|x: String| x@) =~= spec_min4(vm.take(0)));
    }
    while i < v.len()
        invariant
            i <= v@.len(),
            vm == v@.map_values(|x: String| x@),
            out@.map_values(|x: String| x@) == spec_min4(vm.take(i as int)),
        decreases v@.len() - i,
    {
        let keep = v[i].as_str().unicode_len() >= 4;
        proof {
            assert(vm.take(i + 1).drop_last() =~= vm.take(i as int));
            assert(vm.take(i + 1).last() == vm[i as int]);
            assert(vm[i as int] == v@[i as int]@);
        }
        if keep {
            let x = v[i].clone();
            proof {
                assert((out@.push(x)).map_values(|y: String| y@) =~= out@.map_values(
                    |y: String| y@,
                ).push(x@));
            }
            out.push(x);
        }
        i += 1;
    }
    proof {
        assert(vm.take(v@.len() as int) =~= vm);
    }
    out
}

fn bigrams_of(v: &Vec<String>) -> (r: Vec<String>)
    ensures
        r@.map_values(|x: String| x@) == spec_bigrams(v@.map_values(|x: String| x@)),
{
    let ghost vm = v@.map_values(|x: String| x@);
    let mut out: Vec<String> = Vec::new();
    if v.len() < 2 {
        proof {
            assert(out@.map_values(|x: String| x@) =~= spec_bigrams(vm));
        }
        return out;
    }
    let mut i: usize = 0;
    while i < v.len() - 1
        invariant
            v@.len() >= 2,
            i <= v@.len() - 1,
            vm == v@.map_values(|x: String| x@),
            out@.map_values(|x: String| x@) == spec_bigrams(vm).take(i as int),
        decreases v@.len() - 1 - i,
    {
        let joined = v[i].clone().concat(" ").concat(v[i + 1].as_str());
        proof {
            reveal_strlit(" ");
            assert(" "@ =~= seq![' ']);
            assert(joined@ =~= spec_join_pair(vm[i as int], vm[i + 1]));
            assert((out@.push(joined)).map_values(|y: String| y@) =~= out@.map_values(
                |y: String| y@,
            ).push(joined@));
            assert(spec_bigrams(vm).take(i + 1) =~= spec_bigrams(vm).take(i as int).push(
                spec_bigrams(vm)[i as int],
            ));
        }
        out.push(joined);
        i += 1;
    }
    proof {
        assert(spec_bigrams(vm).take(v@.len() - 1) =~= spec_bigrams(vm));
    }
    out
}

impl NgramMode {
    /// The Naive Bayes token sequence of `tweet`: lower-cased
    /// whitespace-separated words of at least four characters, as
    /// unigrams, bigrams, or both, depending on the mode.
    pub fn tokeniser_tweet(&self, tweet: &str) -> (r: Vec<String>)
        ensures
            r@.map_values(|x: String| x@) == spec_ngram_tokens(*self, tweet@),
    {
        let unigrams = filter_min_len(token::tokenize_whitespace(tweet));
        match self {
            NgramMode::Uni => unigrams,
            NgramMode::Bi => bigrams_of(&unigrams),
            NgramMode::UniBi => {
                let grams = bigrams_of(&unigrams);
                let mut out = unigrams;
                let mut i: usize = 0;
                proof {
                    assert(out@.map_values(|x: String| x@) + grams@.map_values(
                        |x: String| x@,
                    ).take(0) =~= out@.map_values(|x: String| x@));
                }
                while i < grams.len()
                    invariant
                        i <= grams@.len(),
                        out@.map_values(|x: String| x@) == spec_unigrams(tweet@) + grams@.map_values(
                            |x: String| x@,
                        ).take(i as int),
                        grams@.map_values(|x: String| x@) == spec_bigrams(spec_unigrams(tweet@)),
                    decreases grams@.len() - i,
                {
                    let x = grams[i].clone();
                    proof {
                        let gm = grams@.map_values(|y: String| y@);
                        assert((out@.push(x)).map_values(|y: String| y@) =~= out@.map_values(
                            |y: String| y@,
                        ).push(x@));
                        assert(spec_unigrams(tweet@) + gm.take(i + 1) =~= (spec_unigrams(tweet@)
                            + gm.take(i as int)).push(gm[i as int]));
                    }
                    out.push(x);
                    i += 1;
                }
                proof {
                    let gm = grams@.map_values(|y: String| y@);
                    assert(gm.take(grams@.len() as int) =~= gm);
                }
                out
            },
        }
    }
}

/// How token occurrences are counted: `Presence` keeps each distinct
/// token of a document once, `Frequence` keeps every occurrence.
#[derive(Clone, Copy, Debug, PartialEq, Eq, Structural)]
pub enum Representation {
    Presence,
    Frequence,
}

/// First-occurrence deduplication.
pub open spec fn spec_dedup(s: Seq<Seq<char>>) -> Seq<Seq<char>>
    decreases s.len(),
{
    if s.len() == 0 {
        s
    } else {
        let d = spec_dedup(s.drop_last());
        if d.contains(s.last()) {
            d
        } else {
            d.push(s.last())
        }
    }
}

/// The token multiset a document contributes under representation `m`.
pub open spec fn spec_counted(m: Representation, toks: Seq<Seq<char>>) -> Seq<Seq<char>> {
    match m {
        Representation::Presence => spec_dedup(toks),
        Representation::Frequence => toks,
    }
}

impl Representation {
    /// Reduces a document's token sequence to the occurrences that are
    /// counted: all of them for `Frequence`, the distinct ones (first
    /// occurrence kept) for `Presence`.
    pub fn tokens_to_count(&self, tokens: Vec<String>) -> (r: Vec<String>)
        ensures
            r@.map_values(|x: String| x@) == spec_counted(
                *self,
                tokens@.map_values(|x: String| x@),
            ),
    {
        let ghost tm = tokens@.map_values(|x: String| x@);
        match self {
            Representation::Frequence => tokens,
            Representation::Presence => {
                let mut out: Vec<String> = Vec::new();
                let mut i: usize = 0;
                proof {
                    assert(tm.take(0) =~= Seq::<Seq<char>>::empty());
                    assert(out@.map_values(|x: String| x@) =~= spec_dedup(tm.take(0)));
                }
                while i < tokens.len()
                    invariant
                        i <= tokens@.len(),
                        tm == tokens@.map_values(|x: String| x@),
                        out@.map_values(|x: String| x@) == spec_dedup(tm.take(i as int)),
                    decreases tokens@.len() - i,
                {
                    proof {
                        assert(tm.take(i + 1).drop_last() =~= tm.take(i as int));
                        assert(tm.take(i + 1).last() == tm[i as int]);
                    }
                    if !vec_contains_string(&out, &tokens[i]) {
                        let x = tokens[i].clone();
                        proof {
                            assert((out@.push(x)).map_values(|y: String| y@) =~= out@.map_values(
                                |y: String| y@,
                            ).push(x@));
                        }
                        out.push(x);
                    }
                    i += 1;
                }
                proof {
                    assert(tm.take(tokens@.len() as int) =~= tm);
                }
                out
            },
        }
    }
}

} // verus!
