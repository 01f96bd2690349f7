//! Sentiment classification of short text messages into the three
//! labels negative (0), neutral (2) and positive (4), by three
//! interchangeable strategies: a multinomial Naive Bayes model, a
//! k-nearest-neighbours vote over Jaccard word-set distances, and
//! agglomerative hierarchical clustering with majority-labelled
//! clusters.  A stratified splitter and a confusion-matrix evaluator
//! benchmark all three the same way.  Probabilities and distances are
//! ratios of integer counts throughout, so every comparison is exact.

use vstd::prelude::*;

pub mod bayes;
pub mod bignat;
pub mod cluster;
pub mod confusion;
pub mod evaluate;
pub mod frac;
pub mod knn;
pub mod ngram;
pub mod regexb;
pub mod sniffer;
pub mod polarity;
pub mod splitter;
pub mod token;
pub mod tokenset;

verus! {

/// A piece of text together with its sentiment label.
///
/// Labels follow the corpus convention: 0 = negative, 2 = neutral,
/// 4 = positive. Any other value is carried through unchanged and
/// treated as unknown when results are rendered.
pub struct LabeledSample {
    pub text: String,
    pub label: i32,
}

impl Clone for LabeledSample {
    fn clone(&self) -> (r: Self)
        ensures
            r == *self,
    {
        LabeledSample { text: self.text.clone(), label: self.label }
    }
}

/// The value of the first `m` characters of `s` read as decimal
/// digits.
pub open spec fn digits_val(s: Seq<char>, m: int) -> int
    decreases m,
{
    if m <= 0 {
        0
    } else {
        digits_val(s, m - 1) * 10 + (s[m - 1] as u32 - 48)
    }
}

pub open spec fn all_digits(s: Seq<char>) -> bool {
    forall|i: int| 0 <= i < s.len() ==> 48 <= (#[trigger] s[i]) as u32 <= 57
}

/// What `s` parses to as a 32-bit signed decimal number: an optional
/// sign followed by digits, within range; `None` otherwise.
pub open spec fn spec_parse_i32(s: Seq<char>) -> Option<int> {
    let signed = s.len() > 0 && (s[0] == '-' || s[0] == '+');
    let neg = s.len() > 0 && s[0] == '-';
    let body = if signed {
        s.skip(1)
    } else {
        s
    };
    if body.len() == 0 || !all_digits(body) {
        None
    } else {
        let v = digits_val(body, body.len() as int);
        if neg {
            if v <= 0x8000_0000 {
                Some(-v)
            } else {
                None
            }
        } else {
            if v <= 0x7fff_ffff {
                Some(v)
            } else {
                None
            }
        }
    }
}

proof fn lemma_digits_grow(s: Seq<char>, m1: int, m2: int)
    requires
        0 <= m1 <= m2 <= s.len(),
        all_digits(s),
    ensures
        0 <= digits_val(s, m1) <= digits_val(s, m2),
    decreases m2,
{
    if m2 > m1 {
        lemma_digits_grow(s, m1, m2 - 1);
    } else {
        if m1 > 0 {
            lemma_digits_grow(s, m1 - 1, m1 - 1);
        }
    }
}

/// Parses a 32-bit signed decimal number.
pub fn parse_i32(s: &str) -> (r: Option<i32>)
    ensures
        match r {
            Some(x) => spec_parse_i32(s@) == Some(x as int),
            None => spec_parse_i32(s@) is None,
        },
{
    let n = s.unicode_len();
    let mut neg = false;
    let mut start: usize = 0;
    if n > 0 {
        let c0 = s.get_char(0);
        if c0 == '-' {
            neg = true;
            start = 1;
        } else if c0 == '+' {
            start = 1;
        }
    }
    let ghost body = if start == 1 {
        s@.skip(1)
    } else {
        s@
    };
    if start >= n {
        return None;
    }
    let mut acc: u64 = 0;
    let mut i = start;
    while i < n
        invariant
            start <= i <= n,
            start <= 1,
            n == s@.len(),
            n > start,
            body == (if start == 1 {
                s@.skip(1)
            } else {
                s@
            }),
            (start == 1) == (s@.len() > 0 && (s@[0] == '-' || s@[0] == '+')),
            neg == (s@.len() > 0 && s@[0] == '-'),
            body.len() == n - start,
            forall|j: int| 0 <= j < body.len() ==> body[j] == s@[j + start],
            acc == digits_val(body, i - start),
            forall|j: int| 0 <= j < i - start ==> 48 <= (#[trigger] body[j]) as u32 <= 57,
            acc <= 0x8000_0000 * 10 + 9,
        decreases n - i,
    {
        let c = s.get_char(i);
        let u = c as u32;
        if !(48 <= u && u <= 57) {
            proof {
                assert(body[i - start] == s@[i as int]);
                assert(!all_digits(body));
            }
            return None;
        }
        if acc > 0x8000_0000 {
            proof {
                if all_digits(body) {
                    lemma_digits_grow(body, i - start, body.len() as int);
                }
            }
            return None;
        }
        acc = acc * 10 + (u - 48) as u64;
        proof {
            assert(body[i - start] == s@[i as int]);
        }
        i += 1;
    }
    proof {
        assert(all_digits(body));
        assert(acc == digits_val(body, body.len() as int));
    }
    if neg {
        if acc > 0x8000_0000 {
            None
        } else {
            let v: i64 = -(acc as i64);
            Some(v as i32)
        }
    } else {
        if acc > 0x7fff_ffff {
            None
        } else {
            Some(acc as i32)
        }
    }
}

/// The text with every leading double quote removed.
pub open spec fn drop_lead_q(s: Seq<char>) -> Seq<char>
    decreases s.len(),
{
    if s.len() > 0 && s[0] == '"' {
        drop_lead_q(s.drop_first())
    } else {
        s
    }
}

/// The text with every trailing double quote removed.
pub open spec fn drop_trail_q(s: Seq<char>) -> Seq<char>
    decreases s.len(),
{
    if s.len() > 0 && s.last() == '"' {
        drop_trail_q(s.drop_last())
    } else {
        s
    }
}

/// The text with all leading and trailing double quotes removed.
pub open spec fn trim_q(s: Seq<char>) -> Seq<char> {
    drop_trail_q(drop_lead_q(s))
}

/// Strips leading and trailing double quotes.
pub fn trim_quotes(s: &str) -> (r: String)
    ensures
        r@ == trim_q(s@),
{
    let n = s.unicode_len();
    let mut a: usize = 0;
    let mut done_a = false;
    proof {
        assert(s@.skip(0) =~= s@);
    }
    while !done_a
        invariant
            a <= n,
            n == s@.len(),
            drop_lead_q(s@) == drop_lead_q(s@.skip(a as int)),
            done_a ==> a == n || s@[a as int] != '"',
        decreases n - a, (if done_a {
            0int
        } else {
            1
        }),
    {
        if a < n {
            let c = s.get_char(a);
            if c == '"' {
                proof {
                    assert(s@.skip(a as int)[0] == s@[a as int]);
                    assert(s@.skip(a as int).drop_first() =~= s@.skip(a + 1));
                }
                a += 1;
            } else {
                done_a = true;
            }
        } else {
            done_a = true;
        }
    }
    proof {
        if a == n {
            assert(s@.skip(a as int) =~= Seq::<char>::empty());
        }
        assert(drop_lead_q(s@) == s@.skip(a as int));
    }
    let mut b: usize = n;
    let mut done_b = false;
    proof {
        assert(s@.skip(a as int) =~= s@.subrange(a as int, n as int));
    }
    while !done_b
        invariant
            a <= b <= n,
            n == s@.len(),
            drop_lead_q(s@) == s@.skip(a as int),
            drop_trail_q(s@.skip(a as int)) == drop_trail_q(s@.subrange(a as int, b as int)),
            done_b ==> b == a || s@[b - 1] != '"',
        decreases b, (if done_b {
            0int
        } else {
            1
        }),
    {
        if b > a {
            let c = s.get_char(b - 1);
            if c == '"' {
                proof {
                    assert(s@.subrange(a as int, b as int).last() == s@[b - 1]);
                    assert(s@.subrange(a as int, b as int).drop_last() =~= s@.subrange(
                        a as int,
                        b - 1,
                    ));
                }
                b -= 1;
            } else {
                done_b = true;
            }
        } else {
            done_b = true;
        }
    }
    proof {
        if b == a {
            assert(s@.subrange(a as int, b as int) =~= Seq::<char>::empty());
        }
        assert(trim_q(s@) == s@.subrange(a as int, b as int));
    }
    s.substring_char(a, b).to_owned()
}

/// Reads one corpus line of the form `label,text`: the part before the
/// first comma must parse as a 32-bit label, the rest is the text with
/// surrounding double quotes stripped.  `None` for a line without a
/// comma or with an unreadable label.
#[verifier::rlimit(50)]
pub fn parse_labeled_line(line: &str) -> (r: Option<LabeledSample>)
    ensures
        match r {
            Some(sm) => exists|c: int|
                0 <= c < line@.len() && #[trigger] line@[c] == ',' && (forall|j: int|
                    0 <= j < c ==> line@[j] != ',') && spec_parse_i32(line@.take(c)) == Some(
                    sm.label as int,
                ) && sm.text@ == trim_q(line@.skip(c + 1)),
            None => (forall|j: int| 0 <= j < line@.len() ==> line@[j] != ',') || exists|c: int|
                0 <= c < line@.len() && #[trigger] line@[c] == ',' && (forall|j: int|
                    0 <= j < c ==> line@[j] != ',') && spec_parse_i32(line@.take(c)) is None,
        },
{
    let n = line.unicode_len();
    let mut c: usize = 0;
    let mut found = false;
    let mut stop = false;
    while !stop
        invariant
            c <= n,
            n == line@.len(),
            forall|j: int| 0 <= j < c ==> line@[j] != ',',
            found ==> c < n && line@[c as int] == ',',
            stop ==> found || c == n,
        decreases n - c, (if stop {
            0int
        } else {
            1
        }),
    {
        if c < n {
            if line.get_char(c) == ',' {
                found = true;
                stop = true;
            } else {
                c += 1;
            }
        } else {
            stop = true;
        }
    }
    if !found {
        return None;
    }
    let head = line.substring_char(0, c);
    proof {
        assert(head@ =~= line@.take(c as int));
    }
    match parse_i32(head) {
        Some(label) => {
            let tail = line.substring_char(c + 1, n);
            proof {
                assert(tail@ =~= line@.skip(c + 1));
            }
            let text = trim_quotes(tail);
            let sm = LabeledSample { text, label };
            proof {
                assert(line@[c as int] == ',');
            }
            Some(sm)
        },
        None => {
            proof {
                assert(line@[c as int] == ',');
            }
            None
        },
    }
}

} // verus!
