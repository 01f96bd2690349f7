use vstd::prelude::*;

verus! {

// Tokenisation shared by the classifiers.
//
// Normalisation is ASCII-based: ASCII upper-case letters are folded to
// lower case and every other character is kept unchanged.  A token is a
// maximal run of "word" characters; which characters count as word
// characters depends on the boundary rule of the classifier (split on
// whitespace, or split on every non-alphanumeric character).

pub open spec fn is_ascii_space(c: char) -> bool {
    (9 <= c as u32 && c as u32 <= 13) || c as u32 == 32
}

pub open spec fn is_ascii_alnum(c: char) -> bool {
    (48 <= c as u32 && c as u32 <= 57) || (65 <= c as u32 && c as u32 <= 90) || (97 <= c as u32
        && c as u32 <= 122)
}

pub open spec fn is_ascii_upper(c: char) -> bool {
    65 <= c as u32 && c as u32 <= 90
}

/// ASCII lower-casing of a single character.
pub open spec fn lower_char(c: char) -> char {
    if is_ascii_upper(c) {
        (((c as u32) + 32) as u8) as char
    } else {
        c
    }
}

pub open spec fn lower_seq(s: Seq<char>) -> Seq<char> {
    s.map_values(|c: char| lower_char(c))
}

/// The two boundary rules used by the classifiers: with `alnum_rule` a
/// word character is an alphanumeric character, without it a word
/// character is anything but whitespace.
pub open spec fn word_ok(alnum_rule: bool, c: char) -> bool {
    if alnum_rule {
        is_ascii_alnum(c)
    } else {
        !is_ascii_space(c)
    }
}

/// The sequence of maximal runs of word characters of `s`, in order.
pub open spec fn split_tokens(s: Seq<char>, alnum_rule: bool) -> Seq<Seq<char>>
    decreases s.len(),
{
    if s.len() == 0 {
        Seq::empty()
    } else if !word_ok(alnum_rule, s[0]) {
        split_tokens(s.drop_first(), alnum_rule)
    } else {
        let rest = split_tokens(s.drop_first(), alnum_rule);
        if s.len() >= 2 && word_ok(alnum_rule, s[1]) {
            seq![seq![s[0]] + rest.first()] + rest.drop_first()
        } else {
            seq![seq![s[0]]] + rest
        }
    }
}

/// Unfolding rule for `split_tokens`: a full run of word characters comes
/// off the front as one token.
proof fn lemma_split_run(s: Seq<char>, b: bool, m: int)
    requires
        1 <= m <= s.len(),
        forall|k: int| 0 <= k < m ==> word_ok(b, s[k]),
        m == s.len() || !word_ok(b, s[m]),
    ensures
        split_tokens(s, b) == seq![s.take(m)] + split_tokens(s.skip(m), b),
    decreases m,
{
    if m == 1 {
        assert(s.take(1) =~= seq![s[0]]);
        assert(s.skip(1) =~= s.drop_first());
        assert(split_tokens(s, b) =~= seq![s.take(1)] + split_tokens(s.skip(1), b));
    } else {
        let t = s.drop_first();
        assert(forall|k: int| 0 <= k < m - 1 ==> #[trigger] t[k] == s[k + 1]);
        lemma_split_run(t, b, m - 1);
        let rest = split_tokens(t, b);
        assert(rest == seq![t.take(m - 1)] + split_tokens(t.skip(m - 1), b));
        assert(rest.first() == t.take(m - 1));
        assert(rest.drop_first() =~= split_tokens(t.skip(m - 1), b));
        assert(t.skip(m - 1) =~= s.skip(m));
        assert(seq![s[0]] + t.take(m - 1) =~= s.take(m));
        assert(s.len() >= 2 && word_ok(b, s[1]));
        assert(split_tokens(s, b) =~= seq![s.take(m)] + split_tokens(s.skip(m), b));
    }
}

/// A text of `n` characters splits into at most `n` tokens.
pub proof fn lemma_token_count(s: Seq<char>, b: bool)
    ensures
        split_tokens(s, b).len() <= s.len(),
        s.len() > 0 && word_ok(b, s[0]) ==> split_tokens(s, b).len() >= 1,
    decreases s.len(),
{
    if s.len() == 0 {
    } else {
        let t = s.drop_first();
        lemma_token_count(t, b);
        if word_ok(b, s[0]) && s.len() >= 2 && word_ok(b, s[1]) {
            assert(t.len() > 0 && word_ok(b, t[0]));
        }
    }
}

/// Relies on `String::push`: appends exactly one character at the end.
#[verifier::external_body]
pub(crate) fn push_char(s: &mut String, c: char)
    ensures
        final(s)@ == old(s)@.push(c),
{
    s.push(c);
}

fn lower_char_exec(c: char) -> (r: char)
    ensures
        r == lower_char(c),
{
    let u = c as u32;
    if 65 <= u && u <= 90 {
        ((u + 32) as u8) as char
    } else {
        c
    }
}

/// ASCII lower-casing of a whole string.
pub fn to_lower(s: &str) -> (r: String)
    ensures
        r@ == lower_seq(s@),
{
    let n = s.unicode_len();
    let mut r = String::new();
    let mut i: usize = 0;
    while i < n
        invariant
            i <= n,
            n == s@.len(),
            r@ == lower_seq(s@.take(i as int)),
        decreases n - i,
    {
        let c = s.get_char(i);
        let lc = lower_char_exec(c);
        push_char(&mut r, lc);
        proof {
            assert(s@.take(i + 1) =~= s@.take(i as int).push(s@[i as int]));
            assert(lower_seq(s@.take(i + 1)) =~= lower_seq(s@.take(i as int)).push(
                lower_char(s@[i as int]),
            ));
        }
        i += 1;
    }
    proof {
        assert(s@.take(n as int) =~= s@);
    }
    r
}

fn is_word_char(c: char, alnum_rule: bool) -> (r: bool)
    ensures
        r == word_ok(alnum_rule, c),
{
    let u = c as u32;
    if alnum_rule {
        (48 <= u && u <= 57) || (65 <= u && u <= 90) || (97 <= u && u <= 122)
    } else {
        !((9 <= u && u <= 13) || u == 32)
    }
}

/// Splits `s` into its maximal runs of word characters.
fn split_words(s: &str, alnum_rule: bool) -> (r: Vec<String>)
    ensures
        r@.map_values(|t: String| t@) == split_tokens(s@, alnum_rule),
{
    let n = s.unicode_len();
    let mut out: Vec<String> = Vec::new();
    let mut i: usize = 0;
    proof {
        assert(s@.skip(0) =~= s@);
        assert(out@.map_values(|t: String| t@) =~= Seq::<Seq<char>>::empty());
        assert(Seq::<Seq<char>>::empty() + split_tokens(s@, alnum_rule) =~= split_tokens(
            s@,
            alnum_rule,
        ));
    }
    while i < n
        invariant
            i <= n,
            n == s@.len(),
            out@.map_values(|t: String| t@) + split_tokens(s@.skip(i as int), alnum_rule)
                == split_tokens(s@, alnum_rule),
        decreases n - i,
    {
        let c = s.get_char(i);
        if !is_word_char(c, alnum_rule) {
            proof {
                let suf = s@.skip(i as int);
                assert(suf.drop_first() =~= s@.skip(i + 1));
                assert(suf[0] == s@[i as int]);
                assert(split_tokens(suf, alnum_rule) == split_tokens(
                    suf.drop_first(),
                    alnum_rule,
                ));
            }
            i += 1;
        } else {
            let mut j: usize = i + 1;
            let mut done = false;
            while !done
                invariant
                    i < j <= n,
                    n == s@.len(),
                    forall|k: int| i <= k < j ==> word_ok(alnum_rule, #[trigger] s@[k]),
                    done ==> j == n || !word_ok(alnum_rule, s@[j as int]),
                decreases n - j, (if done { 0int } else { 1 }),
            {
                if j < n {
                    let cj = s.get_char(j);
                    if is_word_char(cj, alnum_rule) {
                        j += 1;
                    } else {
                        done = true;
                    }
                } else {
                    done = true;
                }
            }
            let tok: String = s.substring_char(i, j).to_owned();
            proof {
                let suf = s@.skip(i as int);
                assert(forall|k: int| 0 <= k <= j - i ==> k + i < s@.len() ==> #[trigger] suf[k]
                    == s@[k + i]);
                lemma_split_run(suf, alnum_rule, j - i);
                assert(suf.take(j - i) =~= s@.subrange(i as int, j as int));
                assert(suf.skip(j - i) =~= s@.skip(j as int));
                assert((out@.push(tok)).map_values(|t: String| t@) =~= out@.map_values(
                    |t: String| t@,
                ).push(tok@));
                assert(out@.map_values(|t: String| t@).push(tok@) + split_tokens(
                    s@.skip(j as int),
                    alnum_rule,
                ) =~= out@.map_values(|t: String| t@) + (seq![suf.take(j - i)] + split_tokens(
                    suf.skip(j - i),
                    alnum_rule,
                )));
            }
            out.push(tok);
            i = j;
        }
    }
    proof {
        assert(s@.skip(n as int) =~= Seq::<char>::empty());
        assert(out@.map_values(|t: String| t@) + Seq::<Seq<char>>::empty() =~= out@.map_values(
            |t: String| t@,
        ));
    }
    out
}

/// The token sequence of `text` under the whitespace boundary rule,
/// lower-cased.
pub open spec fn spec_words_ws(text: Seq<char>) -> Seq<Seq<char>> {
    split_tokens(lower_seq(text), false)
}

/// The token sequence of `text` under the alphanumeric boundary rule,
/// lower-cased.
pub open spec fn spec_words_alnum(text: Seq<char>) -> Seq<Seq<char>> {
    split_tokens(lower_seq(text), true)
}

/// Lower-cases `text` and splits it on whitespace.
pub fn tokenize_whitespace(text: &str) -> (r: Vec<String>)
    ensures
        r@.map_values(|t: String| t@) == spec_words_ws(text@),
{
    let low = to_lower(text);
    split_words(low.as_str(), false)
}

/// Lower-cases `text` and splits it on every non-alphanumeric character.
pub fn tokenize_alnum(text: &str) -> (r: Vec<String>)
    ensures
        r@.map_values(|t: String| t@) == spec_words_alnum(text@),
{
    let low = to_lower(text);
    split_words(low.as_str(), true)
}

} // verus!
