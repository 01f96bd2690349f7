use vstd::prelude::*;

use crate::token;
use crate::tokenset::{MAX_TOKENS, TokenSet};

verus! {

// The dictionary-based polarity classifier: a tweet's words are looked
// up in a positive and a negative word list, and the share of positive
// (or negative) hits against a weight threshold decides the label.

/// The polarity decided by the two hit counts against the threshold
/// `wnum / wden`: positive (4) when the positive share exceeds the
/// threshold or every hit is positive, negative (0) likewise, neutral
/// (2) otherwise or when nothing was hit.
pub open spec fn spec_polarity(negatives: int, positives: int, wnum: int, wden: int) -> i32 {
    let total = negatives + positives;
    if total == 0 {
        2
    } else if positives * wden > wnum * total || positives == total {
        4
    } else if negatives * wden > wnum * total || negatives == total {
        0
    } else {
        2
    }
}

/// Decides the polarity of the given hit counts.
pub fn compute_polarity_with_weight(negatives: u32, positives: u32, wnum: u32, wden: u32) -> (r:
    i32)
    requires
        wden >= 1,
    ensures
        r == spec_polarity(negatives as int, positives as int, wnum as int, wden as int),
{
    let total: u64 = negatives as u64 + positives as u64;
    if total == 0 {
        return 2;
    }
    let threshold = crate::frac::mul_u64(wnum as u64, total);
    if crate::frac::mul_u64(positives as u64, wden as u64) > threshold || positives as u64
        == total {
        return 4;
    }
    if crate::frac::mul_u64(negatives as u64, wden as u64) > threshold || negatives as u64
        == total {
        return 0;
    }
    2
}

/// How many of the first `m` words hit the positive list.
pub open spec fn pos_hits(
    words: Seq<Seq<char>>,
    pos: Set<Seq<char>>,
    m: int,
) -> int
    decreases m,
{
    if m <= 0 {
        0
    } else {
        pos_hits(words, pos, m - 1) + if pos.contains(words[m - 1]) {
            1int
        } else {
            0
        }
    }
}

/// How many of the first `m` words miss the positive list but hit the
/// negative one.
pub open spec fn neg_hits(
    words: Seq<Seq<char>>,
    pos: Set<Seq<char>>,
    neg: Set<Seq<char>>,
    m: int,
) -> int
    decreases m,
{
    if m <= 0 {
        0
    } else {
        neg_hits(words, pos, neg, m - 1) + if !pos.contains(words[m - 1]) && neg.contains(
            words[m - 1],
        ) {
            1int
        } else {
            0
        }
    }
}

/// Classifies a tweet by dictionary lookup: its alphanumeric words are
/// counted against the positive and negative word lists (a word on
/// both lists counts as positive), and the hit shares against the
/// threshold `wnum / wden` decide the label.
pub fn analyser_tweet(
    tweet: &str,
    pos_set: &TokenSet,
    neg_set: &TokenSet,
    wnum: u32,
    wden: u32,
) -> (r: i32)
    requires
        tweet@.len() <= MAX_TOKENS,
        wden >= 1,
    ensures
        ({
            let words = token::spec_words_alnum(tweet@);
            r == spec_polarity(
                neg_hits(words, pos_set.tokens(), neg_set.tokens(), words.len() as int),
                pos_hits(words, pos_set.tokens(), words.len() as int),
                wnum as int,
                wden as int,
            )
        }),
{
    let words = token::tokenize_alnum(tweet);
    let ghost wm = words@.map_values(|s: String| s@);
    let mut positives: u32 = 0;
    let mut negatives: u32 = 0;
    let mut i: usize = 0;
    proof {
        token::lemma_token_count(token::lower_seq(tweet@), true);
    }
    while i < words.len()
        invariant
            i <= words@.len(),
            words@.len() <= MAX_TOKENS,
            wm == words@.map_values(|s: String| s@),
            wm == token::spec_words_alnum(tweet@),
            positives == pos_hits(wm, pos_set.tokens(), i as int),
            negatives == neg_hits(wm, pos_set.tokens(), neg_set.tokens(), i as int),
            positives <= i,
            negatives <= i,
        decreases words@.len() - i,
    {
        proof {
            assert(wm[i as int] == words@[i as int]@);
        }
        if pos_set.contains_token(&words[i]) {
            positives += 1;
        } else if neg_set.contains_token(&words[i]) {
            negatives += 1;
        }
        i += 1;
    }
    compute_polarity_with_weight(negatives, positives, wnum, wden)
}

} // verus!
