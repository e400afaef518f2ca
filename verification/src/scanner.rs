//! The line scanner: a one-shot search session over an input text, with a
//! case-sensitivity policy resolved once at construction.

use vstd::prelude::*;
use crate::text::contains_seq;
use crate::text::contains_str;
use crate::text::is_trimmed;
use crate::text::lemma_contains_empty;
use crate::text::lower_of;
use crate::text::lowercase;
use crate::text::split_lines;
use crate::text::split_lines_spec;
use crate::text::trim_spec;
use crate::text::trim_str;

verus! {

/// The character sequences of a sequence of owned strings.
pub open spec fn views(v: Seq<String>) -> Seq<Seq<char>> {
    v.map_values(|l: String| l@)
}

/// Whether a line is kept for a pattern: exact-case containment when case is
/// respected, containment of the lowercased line over the lowercased pattern
/// when case is ignored. Matching looks at the raw line, terminator included.
pub open spec fn line_matches(line: Seq<char>, pat: Seq<char>, ignore_case: bool) -> bool {
    if ignore_case {
        contains_seq(lower_of(line), lower_of(pat))
    } else {
        contains_seq(line, pat)
    }
}

/// The lines kept for a pattern, in input order, duplicates preserved.
pub open spec fn matching_lines(lines: Seq<Seq<char>>, pat: Seq<char>, ignore_case: bool) -> Seq<
    Seq<char>,
> {
    lines.filter(|l: Seq<char>| line_matches(l, pat, ignore_case))
}

/// The case policy resolved at construction time: an explicit flag wins;
/// otherwise the environment value `"1"` turns case-insensitivity on, and any
/// other value or none at all leaves matching case-sensitive.
pub open spec fn effective_ignore_case(
    explicit: Option<bool>,
    env_value: Option<Seq<char>>,
) -> bool {
    match explicit {
        Some(b) => b,
        None => match env_value {
            Some(v) => v == seq!['1'],
            None => false,
        },
    }
}

/// The character sequence behind an optional owned string.
pub open spec fn opt_view(o: Option<String>) -> Option<Seq<char>> {
    match o {
        Some(v) => Some(v@),
        None => None,
    }
}

/// A one-shot stream consumer that can report its matches.
pub trait Searchable {
    fn search(&mut self, pat: &str) -> Vec<String>;
}

/// A search session: the not-yet-scanned input lines, the case policy, and
/// the matched lines accumulated so far. Scanning drains the input; matches
/// accumulate across calls and are never cleared.
pub struct SearchInterface {
    pub ignore_case: bool,
    pub lines: Vec<String>,
    pub matched_lines: Vec<String>,
}

impl SearchInterface {
    /// Opens a session over `input`, split into lines. The case policy comes
    /// from the explicit flag if one is given, else from the injected
    /// `IGNORE_CASE` environment value, read once here and never again.
    pub fn new(ignore_case: Option<bool>, env_ignore_case: Option<String>, input: String) -> (s:
        Self)
        ensures
            s.ignore_case == effective_ignore_case(ignore_case, opt_view(env_ignore_case)),
            views(s.lines@) == split_lines_spec(input@),
            s.matched_lines@ == Seq::<String>::empty(),
    {
        let default_flag = match &env_ignore_case {
            Some(v) => {
                let one = String::from_str("1");
                proof {
                    reveal_strlit("1");
                    assert(one@ =~= seq!['1']);
                }
                *v == one
            },
            None => false,
        };
        let flag = match ignore_case {
            Some(b) => b,
            None => default_flag,
        };
        SearchInterface { ignore_case: flag, lines: split_lines(input.as_str()), matched_lines: Vec::new() }
    }

    /// Scans the remaining input to its end and returns every match found so
    /// far, trimmed. Exactly the remaining lines containing the pattern (under
    /// the session's case policy) join the accumulated matches, in input
    /// order; the result is those matches with surrounding whitespace
    /// stripped, while matching itself saw the raw lines. An empty pattern
    /// matches every line.
    pub fn search(&mut self, pat: &str) -> (result: Vec<String>)
        ensures
            final(self).ignore_case == old(self).ignore_case,
            final(self).lines@.len() == 0,
            views(final(self).matched_lines@) == views(old(self).matched_lines@)
                + matching_lines(views(old(self).lines@), pat@, old(self).ignore_case),
            result@.len() == final(self).matched_lines@.len(),
            forall|i: int|
                0 <= i < result@.len() ==> result@[i]@ == trim_spec(
                    final(self).matched_lines@[i]@,
                ),
            forall|i: int| 0 <= i < result@.len() ==> is_trimmed(result@[i]@),
            pat@.len() == 0 ==> matching_lines(views(old(self).lines@), pat@, old(self).ignore_case)
                == views(old(self).lines@),
    {
        let search_pat: String = if self.ignore_case {
            lowercase(pat)
        } else {
            String::from_str(pat)
        };
        let mut idx: usize = 0;
        proof {
            assert(views(self.lines@.take(0)) =~= Seq::<Seq<char>>::empty());
            lemma_matching_lines_empty(pat@, self.ignore_case);
            assert(views(self.matched_lines@) =~= views(self.matched_lines@) + matching_lines(
                views(self.lines@.take(0)),
                pat@,
                self.ignore_case,
            ));
        }
        while idx < self.lines.len()
            invariant
                self.ignore_case == old(self).ignore_case,
                self.lines@ == old(self).lines@,
                idx <= self.lines@.len(),
                self.ignore_case ==> search_pat@ == lower_of(pat@),
                !self.ignore_case ==> search_pat@ == pat@,
                pat@.len() == 0 ==> search_pat@.len() == 0,
                views(self.matched_lines@) == views(old(self).matched_lines@) + matching_lines(
                    views(self.lines@.take(idx as int)),
                    pat@,
                    self.ignore_case,
                ),
            decreases self.lines@.len() - idx,
        {
            let is_match = if self.ignore_case {
                let lowered = lowercase(self.lines[idx].as_str());
                contains_str(lowered.as_str(), search_pat.as_str())
            } else {
                contains_str(self.lines[idx].as_str(), search_pat.as_str())
            };
            let ghost prev_matched = self.matched_lines@;
            if is_match {
                let cloned = self.lines[idx].clone();
                self.matched_lines.push(cloned);
            }
            proof {
                let l = self.lines@[idx as int]@;
                assert(line_matches(l, pat@, self.ignore_case) == is_match);
                lemma_matching_lines_step(
                    views(self.lines@.take(idx as int)),
                    pat@,
                    self.ignore_case,
                    l,
                );
                assert(views(self.lines@.take(idx + 1)) =~= views(
                    self.lines@.take(idx as int),
                ).push(l));
                if is_match {
                    assert(views(self.matched_lines@) =~= views(prev_matched).push(l));
                    assert(views(self.matched_lines@) =~= views(old(self).matched_lines@)
                        + matching_lines(views(self.lines@.take(idx + 1)), pat@, self.ignore_case));
                } else {
                    assert(views(self.matched_lines@) =~= views(old(self).matched_lines@)
                        + matching_lines(views(self.lines@.take(idx + 1)), pat@, self.ignore_case));
                }
            }
            idx += 1;
        }
        proof {
            assert(self.lines@.take(self.lines@.len() as int) =~= self.lines@);
        }
        self.lines = Vec::new();
        if search_pat.as_str().unicode_len() == 0 {
            proof {
                assert forall|i: int| 0 <= i < views(old(self).lines@).len() implies line_matches(
                    views(old(self).lines@)[i],
                    pat@,
                    old(self).ignore_case,
                ) by {
                    let l = views(old(self).lines@)[i];
                    if old(self).ignore_case {
                        assert(lower_of(pat@) =~= Seq::<char>::empty());
                        lemma_contains_empty(lower_of(l), lower_of(pat@));
                    } else {
                        lemma_contains_empty(l, pat@);
                    }
                }
                lemma_matching_lines_all(views(old(self).lines@), pat@, old(self).ignore_case);
            }
        }
        let mut result: Vec<String> = Vec::new();
        let mut k: usize = 0;
        while k < self.matched_lines.len()
            invariant
                k <= self.matched_lines@.len(),
                self.ignore_case == old(self).ignore_case,
                self.lines@.len() == 0,
                views(self.matched_lines@) == views(old(self).matched_lines@) + matching_lines(
                    views(old(self).lines@),
                    pat@,
                    old(self).ignore_case,
                ),
                pat@.len() == 0 ==> matching_lines(
                    views(old(self).lines@),
                    pat@,
                    old(self).ignore_case,
                ) == views(old(self).lines@),
                result@.len() == k,
                forall|i: int|
                    0 <= i < k ==> result@[i]@ == trim_spec(self.matched_lines@[i]@),
                forall|i: int| 0 <= i < k ==> is_trimmed(result@[i]@),
            decreases self.matched_lines@.len() - k,
        {
            let trimmed = trim_str(self.matched_lines[k].as_str());
            result.push(trimmed);
            k += 1;
        }
        result
    }
}

impl Searchable for SearchInterface {
    /// Forwards to `SearchInterface::search`, and promises the same: the
    /// input is drained, exactly the matching lines join the accumulated
    /// matches, and the result is those matches, trimmed.
    fn search(&mut self, pat: &str) -> (result: Vec<String>)
        ensures
            final(self).ignore_case == old(self).ignore_case,
            final(self).lines@.len() == 0,
            views(final(self).matched_lines@) == views(old(self).matched_lines@)
                + matching_lines(views(old(self).lines@), pat@, old(self).ignore_case),
            result@.len() == final(self).matched_lines@.len(),
            forall|i: int|
                0 <= i < result@.len() ==> result@[i]@ == trim_spec(
                    final(self).matched_lines@[i]@,
                ),
            forall|i: int| 0 <= i < result@.len() ==> is_trimmed(result@[i]@),
            pat@.len() == 0 ==> matching_lines(views(old(self).lines@), pat@, old(self).ignore_case)
                == views(old(self).lines@),
    {
        SearchInterface::search(self, pat)
    }
}

/// `xs` can be read off `ys` left to right: the elements of `xs` occur in
/// `ys` in the same relative order.
pub open spec fn is_subsequence_of<A>(xs: Seq<A>, ys: Seq<A>) -> bool
    decreases ys.len(),
{
    if xs.len() == 0 {
        true
    } else if ys.len() == 0 {
        false
    } else {
        (xs.last() == ys.last() && is_subsequence_of(xs.drop_last(), ys.drop_last()))
            || is_subsequence_of(xs, ys.drop_last())
    }
}

/// The kept lines preserve input order and add nothing: they form a
/// subsequence of the input lines.
pub proof fn lemma_matching_lines_subsequence(
    lines: Seq<Seq<char>>,
    pat: Seq<char>,
    ignore_case: bool,
)
    ensures
        is_subsequence_of(matching_lines(lines, pat, ignore_case), lines),
    decreases lines.len(),
{
    if lines.len() == 0 {
        lemma_matching_lines_empty(pat, ignore_case);
    } else {
        lemma_matching_lines_subsequence(lines.drop_last(), pat, ignore_case);
        lemma_matching_lines_step(lines.drop_last(), pat, ignore_case, lines.last());
        assert(lines.drop_last().push(lines.last()) =~= lines);
        let kept = matching_lines(lines, pat, ignore_case);
        let kept0 = matching_lines(lines.drop_last(), pat, ignore_case);
        if line_matches(lines.last(), pat, ignore_case) {
            assert(kept == kept0.push(lines.last()));
            assert(kept.last() == lines.last());
            assert(kept.drop_last() =~= kept0);
        }
    }
}

/// One element more at the end: `y` occurs in `s.push(x)` iff it occurs in
/// `s` or equals `x`.
proof fn lemma_push_contains<A>(s: Seq<A>, x: A, y: A)
    ensures
        s.push(x).contains(y) <==> (s.contains(y) || y == x),
{
    if s.contains(y) {
        let i = choose|i: int| 0 <= i < s.len() && s[i] == y;
        assert(s.push(x)[i] == y);
    }
    if y == x {
        assert(s.push(x)[s.len() as int] == y);
    }
    if s.push(x).contains(y) {
        let i = choose|i: int| 0 <= i < s.push(x).len() && s.push(x)[i] == y;
        if i < s.len() {
            assert(s[i] == y);
        }
    }
}

/// A line stands among the kept lines iff it stands among the input lines
/// and matches the pattern under the session's case policy.
pub proof fn lemma_matching_lines_iff(
    lines: Seq<Seq<char>>,
    pat: Seq<char>,
    ignore_case: bool,
    line: Seq<char>,
)
    ensures
        matching_lines(lines, pat, ignore_case).contains(line) <==> (lines.contains(line)
            && line_matches(line, pat, ignore_case)),
    decreases lines.len(),
{
    if lines.len() == 0 {
        lemma_matching_lines_empty(pat, ignore_case);
    } else {
        lemma_matching_lines_iff(lines.drop_last(), pat, ignore_case, line);
        lemma_matching_lines_step(lines.drop_last(), pat, ignore_case, lines.last());
        assert(lines.drop_last().push(lines.last()) =~= lines);
        let kept0 = matching_lines(lines.drop_last(), pat, ignore_case);
        lemma_push_contains(lines.drop_last(), lines.last(), line);
        if line_matches(lines.last(), pat, ignore_case) {
            lemma_push_contains(kept0, lines.last(), line);
        }
    }
}

/// No line is kept from an empty input.
proof fn lemma_matching_lines_empty(pat: Seq<char>, ignore_case: bool)
    ensures
        matching_lines(Seq::<Seq<char>>::empty(), pat, ignore_case) == Seq::<Seq<char>>::empty(),
{
    reveal(Seq::filter);
}

/// Scanning one more line keeps the earlier result, with the line appended
/// exactly when it matches.
proof fn lemma_matching_lines_step(
    lines: Seq<Seq<char>>,
    pat: Seq<char>,
    ignore_case: bool,
    x: Seq<char>,
)
    ensures
        matching_lines(lines.push(x), pat, ignore_case) == if line_matches(x, pat, ignore_case) {
            matching_lines(lines, pat, ignore_case).push(x)
        } else {
            matching_lines(lines, pat, ignore_case)
        },
{
    reveal(Seq::filter);
    assert(lines.push(x).drop_last() =~= lines);
    assert(lines.push(x).last() == x);
}

/// When every line matches, every line is kept.
proof fn lemma_matching_lines_all(lines: Seq<Seq<char>>, pat: Seq<char>, ignore_case: bool)
    requires
        forall|i: int| 0 <= i < lines.len() ==> line_matches(lines[i], pat, ignore_case),
    ensures
        matching_lines(lines, pat, ignore_case) == lines,
    decreases lines.len(),
{
    reveal(Seq::filter);
    if lines.len() > 0 {
        lemma_matching_lines_all(lines.drop_last(), pat, ignore_case);
        assert(lines.drop_last().push(lines.last()) =~= lines);
        lemma_matching_lines_step(lines.drop_last(), pat, ignore_case, lines.last());
    }
}

} // verus!
