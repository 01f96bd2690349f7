use vstd::prelude::*;

use crate::token::push_char;
use vstd::string::StrSliceExecFns;
use vstd::string::StringExecFns;

verus! {

// A small combinator builder for regular-expression pattern strings.
// Every combinator's effect on the pattern text is stated exactly; only
// the final compilation hands the pattern to the regex crate.

#[verifier::external_type_specification]
#[verifier::external_body]
pub struct ExRegex(regex::Regex);

#[verifier::external_type_specification]
#[verifier::external_body]
pub struct ExRegexError(regex::Error);

/// Builds regular-expression patterns by concatenation.
pub struct RegexLogicalBuilder {
    pub proc_result: String,
}

impl RegexLogicalBuilder {
    /// The empty pattern.
    pub fn new() -> (r: Self)
        ensures
            r.proc_result@ == Seq::<char>::empty(),
    {
        RegexLogicalBuilder { proc_result: String::new() }
    }

    /// A pattern from literal text.
    pub fn from_pattern(s: &str) -> (r: Self)
        ensures
            r.proc_result@ == s@,
    {
        RegexLogicalBuilder { proc_result: s.to_owned() }
    }

    /// Relies on `regex::Regex::new`: compiles the pattern, or reports
    /// why it is not a valid regular expression.
    #[verifier::external_body]
    pub fn build(&self) -> Result<regex::Regex, regex::Error> {
        regex::Regex::new(&self.proc_result)
    }

    /// Appends an alternation bar.
    pub fn or(self) -> (r: Self)
        ensures
            r.proc_result@ == self.proc_result@ + "|"@,
    {
        let mut s = self.proc_result;
        s.append("|");
        RegexLogicalBuilder { proc_result: s }
    }

    /// Wraps the pattern in a group.
    pub fn group(self) -> (r: Self)
        ensures
            r.proc_result@ == "("@ + self.proc_result@ + ")"@,
    {
        let mut s = String::new();
        s.append("(");
        s.append(self.proc_result.as_str());
        s.append(")");
        RegexLogicalBuilder { proc_result: s }
    }

    /// Appends another pattern.
    pub fn plus(self, re: RegexLogicalBuilder) -> (r: Self)
        ensures
            r.proc_result@ == self.proc_result@ + re.proc_result@,
    {
        let mut s = self.proc_result;
        s.append(re.proc_result.as_str());
        RegexLogicalBuilder { proc_result: s }
    }

    /// Repeats the last item any number of times.
    pub fn any_times(self) -> (r: Self)
        ensures
            r.proc_result@ == self.proc_result@ + "*"@,
    {
        let mut s = self.proc_result;
        s.append("*");
        RegexLogicalBuilder { proc_result: s }
    }

    /// Repeats the last item at least once.
    pub fn one_or_more(self) -> (r: Self)
        ensures
            r.proc_result@ == self.proc_result@ + "+"@,
    {
        let mut s = self.proc_result;
        s.append("+");
        RegexLogicalBuilder { proc_result: s }
    }

    /// Appends a non-space character class.
    pub fn plus_non_space(self) -> (r: Self)
        ensures
            r.proc_result@ == self.proc_result@ + "[^ ]"@,
    {
        let mut s = self.proc_result;
        s.append("[^ ]");
        RegexLogicalBuilder { proc_result: s }
    }

    /// Appends a match of anything.
    pub fn plus_anything(self) -> (r: Self)
        ensures
            r.proc_result@ == self.proc_result@ + ".*"@,
    {
        let mut s = self.proc_result;
        s.append(".*");
        RegexLogicalBuilder { proc_result: s }
    }

    /// The pattern, followed anywhere later by `re`.
    pub fn contains(self, re: RegexLogicalBuilder) -> (r: Self)
        ensures
            r.proc_result@ == self.proc_result@ + ".*"@ + re.proc_result@,
    {
        let mut s = self.proc_result;
        s.append(".*");
        s.append(re.proc_result.as_str());
        RegexLogicalBuilder { proc_result: s }
    }

    /// Surrounds the pattern with word boundaries: a space or the
    /// start of the text before, a space or the end after.
    pub fn as_whole_word(self) -> (r: Self)
        ensures
            r.proc_result@ == "( |^)"@ + self.proc_result@ + "( |$)"@,
    {
        let mut s = String::new();
        s.append("( |^)");
        s.append(self.proc_result.as_str());
        s.append("( |$)");
        RegexLogicalBuilder { proc_result: s }
    }

    /// Requires a space or the end of the text after the pattern.
    pub fn as_word_end(self) -> (r: Self)
        ensures
            r.proc_result@ == self.proc_result@ + "( |$)"@,
    {
        let mut s = self.proc_result;
        s.append("( |$)");
        RegexLogicalBuilder { proc_result: s }
    }

    /// Both this pattern and `re` occur, in either order.
    pub fn and(self, re: RegexLogicalBuilder) -> (r: Self)
        ensures
            r.proc_result@ == "(("@ + self.proc_result@ + ").*("@ + re.proc_result@ + "))|(("@
                + re.proc_result@ + ").*("@ + self.proc_result@ + "))"@,
    {
        let mut s = String::new();
        s.append("((");
        s.append(self.proc_result.as_str());
        s.append(").*(");
        s.append(re.proc_result.as_str());
        s.append("))|((");
        s.append(re.proc_result.as_str());
        s.append(").*(");
        s.append(self.proc_result.as_str());
        s.append("))");
        RegexLogicalBuilder { proc_result: s }
    }

    /// A character class of the given pieces.
    pub fn class_from(vals: &Vec<String>) -> (r: Self)
        ensures
            r.proc_result@ == "["@ + cat_views(vals@.map_values(|v: String| v@)) + "]"@,
    {
        let ghost vm = vals@.map_values(|v: String| v@);
        let mut p = String::new();
        p.append("[");
        let mut i: usize = 0;
        proof {
            assert(vm.take(0) =~= Seq::<Seq<char>>::empty());
            assert(p@ =~= "["@ + cat_views(vm.take(0)));
        }
        while i < vals.len()
            invariant
                i <= vals@.len(),
                vm == vals@.map_values(|v: String| v@),
                p@ == "["@ + cat_views(vm.take(i as int)),
            decreases vals@.len() - i,
        {
            p.append(vals[i].as_str());
            proof {
                assert(vm.take(i + 1).drop_last() =~= vm.take(i as int));
                assert(vm.take(i + 1).last() == vm[i as int]);
                assert(p@ =~= "["@ + cat_views(vm.take(i + 1)));
            }
            i += 1;
        }
        p.append("]");
        proof {
            assert(vm.take(vals@.len() as int) =~= vm);
        }
        RegexLogicalBuilder { proc_result: p }
    }

    /// One builder per pattern string.
    pub fn strings_to_builders(strings: &Vec<String>) -> (r: Vec<RegexLogicalBuilder>)
        ensures
            r@.len() == strings@.len(),
            forall|i: int|
                0 <= i < strings@.len() ==> (#[trigger] r@[i]).proc_result@ == strings@[i]@,
    {
        let mut out: Vec<RegexLogicalBuilder> = Vec::new();
        let mut i: usize = 0;
        while i < strings.len()
            invariant
                i <= strings@.len(),
                out@.len() == i,
                forall|j: int|
                    0 <= j < i ==> (#[trigger] out@[j]).proc_result@ == strings@[j]@,
            decreases strings@.len() - i,
        {
            out.push(RegexLogicalBuilder { proc_result: strings[i].clone() });
            i += 1;
        }
        out
    }

    /// An alternation of all the given patterns, each in a group; with
    /// no pattern the builder is unchanged.
    pub fn any_of(self, res: Vec<RegexLogicalBuilder>) -> (r: Self)
        ensures
            res@.len() == 0 ==> r.proc_result@ == self.proc_result@,
            res@.len() > 0 ==> r.proc_result@ == (self.proc_result@ + alt_cat(
                res@.map_values(|b: RegexLogicalBuilder| b.proc_result@),
            )).drop_last(),
    {
        if res.len() == 0 {
            return self;
        }
        let ghost vm = res@.map_values(|b: RegexLogicalBuilder| b.proc_result@);
        let mut s = self.proc_result;
        let ghost base0 = s@;
        let mut i: usize = 0;
        proof {
            assert(vm.take(0) =~= Seq::<Seq<char>>::empty());
            assert(s@ =~= base0 + alt_cat(vm.take(0)));
        }
        while i < res.len()
            invariant
                i <= res@.len(),
                vm == res@.map_values(|b: RegexLogicalBuilder| b.proc_result@),
                s@ == base0 + alt_cat(vm.take(i as int)),
            decreases res@.len() - i,
        {
            s.append("(");
            s.append(res[i].proc_result.as_str());
            s.append(")|");
            proof {
                assert(vm.take(i + 1).drop_last() =~= vm.take(i as int));
                assert(vm.take(i + 1).last() == vm[i as int]);
                assert(s@ =~= base0 + alt_cat(vm.take(i + 1)));
            }
            i += 1;
        }
        proof {
            assert(vm.take(res@.len() as int) =~= vm);
            lemma_alt_cat_len(vm);
        }
        let n = s.as_str().unicode_len();
        let trimmed = s.as_str().substring_char(0, n - 1).to_owned();
        proof {
            assert(trimmed@ =~= (base0 + alt_cat(vm)).drop_last());
        }
        RegexLogicalBuilder { proc_result: trimmed }
    }
}

/// The concatenation of a sequence of pattern texts.
pub open spec fn cat_views(vs: Seq<Seq<char>>) -> Seq<char>
    decreases vs.len(),
{
    if vs.len() == 0 {
        Seq::empty()
    } else {
        cat_views(vs.drop_last()) + vs.last()
    }
}

/// The concatenation of grouped alternatives, each followed by a bar.
pub open spec fn alt_cat(vs: Seq<Seq<char>>) -> Seq<char>
    decreases vs.len(),
{
    if vs.len() == 0 {
        Seq::empty()
    } else {
        alt_cat(vs.drop_last()) + "("@ + vs.last() + ")|"@
    }
}

proof fn lemma_alt_cat_len(vs: Seq<Seq<char>>)
    ensures
        alt_cat(vs).len() >= 2 * vs.len(),
    decreases vs.len(),
{
    reveal_strlit("(");
    reveal_strlit(")|");
    if vs.len() > 0 {
        lemma_alt_cat_len(vs.drop_last());
    }
}

/// The characters that must be escaped inside a pattern.
pub open spec fn is_special(c: char) -> bool {
    c == '/' || c == '\\' || c == '?' || c == ':' || c == '*' || c == '+' || c == '[' || c
        == ']' || c == '.' || c == '|' || c == '$' || c == '^' || c == '=' || c == '!' || c
        == '<' || c == '>'
}

/// The text with every special character preceded by a backslash.
pub open spec fn escaped(s: Seq<char>) -> Seq<char>
    decreases s.len(),
{
    if s.len() == 0 {
        Seq::empty()
    } else {
        escaped(s.drop_last()) + (if is_special(s.last()) {
            seq!['\\', s.last()]
        } else {
            seq![s.last()]
        })
    }
}

impl RegexLogicalBuilder {
    /// Escapes the special pattern characters of a literal text, so
    /// that the result matches that text verbatim.
    pub fn protect_string(input: &str) -> (r: String)
        ensures
            r@ == escaped(input@),
    {
        let n = input.unicode_len();
        let mut out = String::new();
        let mut i: usize = 0;
        proof {
            assert(input@.take(0) =~= Seq::<char>::empty());
        }
        while i < n
            invariant
                i <= n,
                n == input@.len(),
                out@ == escaped(input@.take(i as int)),
            decreases n - i,
        {
            let c = input.get_char(i);
            let special = c == '/' || c == '\\' || c == '?' || c == ':' || c == '*' || c
                == '+' || c == '[' || c == ']' || c == '.' || c == '|' || c == '$' || c == '^'
                || c == '=' || c == '!' || c == '<' || c == '>';
            if special {
                push_char(&mut out, '\\');
            }
            push_char(&mut out, c);
            proof {
                assert(input@.take(i + 1).drop_last() =~= input@.take(i as int));
                assert(input@.take(i + 1).last() == input@[i as int]);
                if is_special(input@[i as int]) {
                    assert(out@ =~= escaped(input@.take(i as int)) + seq![
                        '\\',
                        input@[i as int],
                    ]);
                } else {
                    assert(out@ =~= escaped(input@.take(i as int)) + seq![input@[i as int]]);
                }
                assert(out@ =~= escaped(input@.take(i + 1)));
            }
            i += 1;
        }
        proof {
            assert(input@.take(n as int) =~= input@);
        }
        out
    }

    /// Removes the last character of a text; an empty text stays
    /// empty.
    pub fn rem_last(value: &str) -> (r: String)
        ensures
            value@.len() > 0 ==> r@ == value@.drop_last(),
            value@.len() == 0 ==> r@ == Seq::<char>::empty(),
    {
        let n = value.unicode_len();
        if n == 0 {
            String::new()
        } else {
            value.substring_char(0, n - 1).to_owned()
        }
    }
}

} // verus!
