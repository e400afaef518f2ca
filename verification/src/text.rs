//! Character and string primitives for the line scanner: whitespace
//! classification, trimming, substring containment, line splitting, and
//! lowercasing.

use vstd::prelude::*;

verus! {

/// The characters with the Unicode `White_Space` property, the set that
/// `str::trim` strips from both ends of a string.
pub open spec fn is_space_char(c: char) -> bool {
    ||| c == ' '
    ||| c == '\t'
    ||| c == '\n'
    ||| c == '\r'
    ||| c == '\u{000B}'
    ||| c == '\u{000C}'
    ||| c == '\u{0085}'
    ||| c == '\u{00A0}'
    ||| c == '\u{1680}'
    ||| c == '\u{2000}'
    ||| c == '\u{2001}'
    ||| c == '\u{2002}'
    ||| c == '\u{2003}'
    ||| c == '\u{2004}'
    ||| c == '\u{2005}'
    ||| c == '\u{2006}'
    ||| c == '\u{2007}'
    ||| c == '\u{2008}'
    ||| c == '\u{2009}'
    ||| c == '\u{200A}'
    ||| c == '\u{2028}'
    ||| c == '\u{2029}'
    ||| c == '\u{202F}'
    ||| c == '\u{205F}'
    ||| c == '\u{3000}'
}

/// Decides whitespace exactly as `is_space_char` does.
pub fn is_space(c: char) -> (r: bool)
    ensures
        r == is_space_char(c),
{
    c == ' ' || c == '\t' || c == '\n' || c == '\r' || c == '\u{000B}' || c == '\u{000C}'
        || c == '\u{0085}' || c == '\u{00A0}' || c == '\u{1680}' || c == '\u{2000}'
        || c == '\u{2001}' || c == '\u{2002}' || c == '\u{2003}' || c == '\u{2004}'
        || c == '\u{2005}' || c == '\u{2006}' || c == '\u{2007}' || c == '\u{2008}'
        || c == '\u{2009}' || c == '\u{200A}' || c == '\u{2028}' || c == '\u{2029}'
        || c == '\u{202F}' || c == '\u{205F}' || c == '\u{3000}'
}

/// `needle` occurs in `hay` starting at position `i`.
pub open spec fn matches_at(hay: Seq<char>, needle: Seq<char>, i: int) -> bool {
    &&& 0 <= i
    &&& i + needle.len() <= hay.len()
    &&& hay.subrange(i, i + needle.len() as int) == needle
}

/// `needle` occurs somewhere in `hay`; every string contains the empty one.
pub open spec fn contains_seq(hay: Seq<char>, needle: Seq<char>) -> bool {
    exists|i: int| matches_at(hay, needle, i)
}

/// An empty needle occurs in every haystack, at position 0.
pub proof fn lemma_contains_empty(hay: Seq<char>, needle: Seq<char>)
    requires
        needle.len() == 0,
    ensures
        contains_seq(hay, needle),
{
    assert(hay.subrange(0, 0) =~= needle);
    assert(matches_at(hay, needle, 0));
}

/// Substring search: decides `contains_seq(hay@, needle@)`.
pub fn contains_str(hay: &str, needle: &str) -> (r: bool)
    ensures
        r == contains_seq(hay@, needle@),
{
    let h: usize = hay.unicode_len();
    let n: usize = needle.unicode_len();
    if n == 0 {
        proof {
            lemma_contains_empty(hay@, needle@);
        }
        return true;
    }
    if n > h {
        assert(!contains_seq(hay@, needle@)) by {
            assert(forall|i: int| !matches_at(hay@, needle@, i));
        }
        return false;
    }
    let mut i: usize = 0;
    while i <= h - n
        invariant
            0 < n <= h,
            h == hay@.len(),
            n == needle@.len(),
            i <= h - n + 1,
            forall|j: int| 0 <= j < i ==> !matches_at(hay@, needle@, j),
        decreases h - n + 1 - i,
    {
        let mut k: usize = 0;
        let mut mismatch = false;
        while k < n && !mismatch
            invariant
                0 < n <= h,
                h == hay@.len(),
                n == needle@.len(),
                i <= h - n,
                k <= n,
                !mismatch ==> forall|m: int| 0 <= m < k ==> hay@[i + m] == needle@[m],
                mismatch ==> !matches_at(hay@, needle@, i as int),
            decreases n - k,
        {
            if hay.get_char(i + k) != needle.get_char(k) {
                assert(!matches_at(hay@, needle@, i as int)) by {
                    if hay@.subrange(i as int, i + n) == needle@ {
                        assert(hay@.subrange(i as int, i + n)[k as int] == hay@[i + k]);
                    }
                }
                mismatch = true;
            }
            k += 1;
        }
        if !mismatch {
            assert(hay@.subrange(i as int, i + n) =~= needle@);
            assert(matches_at(hay@, needle@, i as int));
            return true;
        }
        i += 1;
    }
    assert(!contains_seq(hay@, needle@)) by {
        assert(forall|j: int| !matches_at(hay@, needle@, j));
    }
    false
}

/// `s` without its leading whitespace.
pub open spec fn trim_start_spec(s: Seq<char>) -> Seq<char>
    decreases s.len(),
{
    if s.len() > 0 && is_space_char(s[0]) {
        trim_start_spec(s.skip(1))
    } else {
        s
    }
}

/// `s` without its trailing whitespace.
pub open spec fn trim_end_spec(s: Seq<char>) -> Seq<char>
    decreases s.len(),
{
    if s.len() > 0 && is_space_char(s[s.len() - 1]) {
        trim_end_spec(s.take(s.len() - 1))
    } else {
        s
    }
}

/// `s` without leading or trailing whitespace, as `str::trim` leaves it.
pub open spec fn trim_spec(s: Seq<char>) -> Seq<char> {
    trim_end_spec(trim_start_spec(s))
}

/// `s` carries no leading and no trailing whitespace.
pub open spec fn is_trimmed(s: Seq<char>) -> bool {
    s.len() > 0 ==> (!is_space_char(s[0]) && !is_space_char(s[s.len() - 1]))
}

/// If everything before position `i` is whitespace and `i` is the end or a
/// non-space, trimming the start keeps exactly the suffix from `i`.
proof fn lemma_trim_start_at(s: Seq<char>, i: int)
    requires
        0 <= i <= s.len(),
        forall|k: int| 0 <= k < i ==> is_space_char(s[k]),
        i == s.len() || !is_space_char(s[i]),
    ensures
        trim_start_spec(s) == s.subrange(i, s.len() as int),
    decreases i,
{
    if i == 0 {
        assert(s.subrange(0, s.len() as int) =~= s);
    } else {
        lemma_trim_start_at(s.skip(1), i - 1);
        assert(s.skip(1).subrange(i - 1, s.skip(1).len() as int) =~= s.subrange(
            i,
            s.len() as int,
        ));
    }
}

/// If everything from position `j` on is whitespace and `j` is the start or
/// preceded by a non-space, trimming the end keeps exactly the prefix up to `j`.
proof fn lemma_trim_end_at(s: Seq<char>, j: int)
    requires
        0 <= j <= s.len(),
        forall|k: int| j <= k < s.len() ==> is_space_char(s[k]),
        j == 0 || !is_space_char(s[j - 1]),
    ensures
        trim_end_spec(s) == s.subrange(0, j),
    decreases s.len() - j,
{
    if j == s.len() {
        assert(s.subrange(0, j) =~= s);
    } else {
        lemma_trim_end_at(s.take(s.len() - 1), j);
        assert(s.take(s.len() - 1).subrange(0, j) =~= s.subrange(0, j));
    }
}

/// Trims leading and trailing whitespace, exactly as `trim_spec` describes.
pub fn trim_str(s: &str) -> (r: String)
    ensures
        r@ == trim_spec(s@),
        is_trimmed(r@),
{
    let len: usize = s.unicode_len();
    let mut start: usize = 0;
    while start < len && is_space(s.get_char(start))
        invariant
            len == s@.len(),
            start <= len,
            forall|k: int| 0 <= k < start ==> is_space_char(s@[k]),
        decreases len - start,
    {
        start += 1;
    }
    proof {
        lemma_trim_start_at(s@, start as int);
    }
    if start == len {
        proof {
            lemma_trim_end_at(trim_start_spec(s@), 0);
        }
        assert(trim_spec(s@) =~= Seq::<char>::empty());
        return String::new();
    }
    let mut end: usize = len;
    while end > start && is_space(s.get_char(end - 1))
        invariant
            len == s@.len(),
            start < len,
            start <= end <= len,
            !is_space_char(s@[start as int]),
            forall|k: int| end <= k < len ==> is_space_char(s@[k]),
        decreases end,
    {
        end -= 1;
    }
    assert(end > start);
    let trimmed = s.substring_char(start, end);
    proof {
        let t = s@.subrange(start as int, s@.len() as int);
        lemma_trim_end_at(t, end - start);
        assert(t.subrange(0, end - start) =~= s@.subrange(start as int, end as int));
    }
    String::from_str(trimmed)
}

/// Length of the first line of `s`, its `'\n'` terminator included; the whole
/// of `s` if no `'\n'` occurs.
pub open spec fn first_line_len(s: Seq<char>) -> int
    decreases s.len(),
{
    if s.len() == 0 {
        0
    } else if s[0] == '\n' {
        1
    } else {
        1 + first_line_len(s.skip(1))
    }
}

proof fn lemma_first_line_len_bounds(s: Seq<char>)
    ensures
        s.len() > 0 ==> 1 <= first_line_len(s) <= s.len(),
        s.len() == 0 ==> first_line_len(s) == 0,
    decreases s.len(),
{
    if s.len() > 0 && s[0] != '\n' {
        lemma_first_line_len_bounds(s.skip(1));
    }
}

/// `s` split into lines, as a buffered reader would hand them out one
/// `read_line` at a time: each line keeps its `'\n'` terminator, the last line
/// may lack one, and a trailing `'\n'` does not open an empty final line.
pub open spec fn split_lines_spec(s: Seq<char>) -> Seq<Seq<char>>
    decreases s.len(),
    via split_lines_spec_decreases
{
    if s.len() == 0 {
        Seq::<Seq<char>>::empty()
    } else {
        seq![s.take(first_line_len(s))] + split_lines_spec(s.skip(first_line_len(s)))
    }
}

#[via_fn]
proof fn split_lines_spec_decreases(s: Seq<char>) {
    lemma_first_line_len_bounds(s);
}

/// If no `'\n'` stands before position `m` and `m` is the end or a `'\n'`,
/// then the first line runs to `m`, terminator included.
proof fn lemma_first_line_len_at(s: Seq<char>, m: int)
    requires
        0 <= m <= s.len(),
        forall|k: int| 0 <= k < m ==> s[k] != '\n',
        m == s.len() || s[m] == '\n',
    ensures
        first_line_len(s) == if m < s.len() {
            m + 1
        } else {
            m
        },
    decreases m,
{
    if m == 0 {
    } else {
        lemma_first_line_len_at(s.skip(1), m - 1);
    }
}

/// Splits `s` into its lines, exactly as `split_lines_spec` describes.
pub fn split_lines(s: &str) -> (lines: Vec<String>)
    ensures
        lines@.map_values(|l: String| l@) == split_lines_spec(s@),
{
    let len: usize = s.unicode_len();
    let mut lines: Vec<String> = Vec::new();
    let mut i: usize = 0;
    proof {
        assert(s@.skip(0) =~= s@);
        assert(lines@.map_values(|l: String| l@) + split_lines_spec(s@) =~= split_lines_spec(s@));
    }
    while i < len
        invariant
            len == s@.len(),
            i <= len,
            split_lines_spec(s@) == lines@.map_values(|l: String| l@) + split_lines_spec(
                s@.skip(i as int),
            ),
        decreases len - i,
    {
        let ghost rest = s@.skip(i as int);
        let mut j: usize = i;
        while j < len && s.get_char(j) != '\n'
            invariant
                len == s@.len(),
                i <= j <= len,
                forall|k: int| i <= k < j ==> s@[k] != '\n',
            decreases len - j,
        {
            j += 1;
        }
        let line_end: usize = if j < len {
            j + 1
        } else {
            j
        };
        proof {
            assert(forall|k: int| 0 <= k < j - i ==> rest[k] != '\n');
            lemma_first_line_len_at(rest, j - i);
            assert(first_line_len(rest) == line_end - i);
        }
        let line = String::from_str(s.substring_char(i, line_end));
        lines.push(line);
        proof {
            assert(rest.take(line_end - i) =~= s@.subrange(i as int, line_end as int));
            assert(rest.skip(line_end - i) =~= s@.skip(line_end as int));
            assert(lines@.map_values(|l: String| l@) =~= lines@.drop_last().map_values(
                |l: String| l@,
            ).push(s@.subrange(i as int, line_end as int)));
            assert(lines@.drop_last().map_values(|l: String| l@).push(
                s@.subrange(i as int, line_end as int),
            ) + split_lines_spec(s@.skip(line_end as int)) =~= lines@.drop_last().map_values(
                |l: String| l@,
            ) + (seq![rest.take(first_line_len(rest))] + split_lines_spec(
                rest.skip(first_line_len(rest)),
            )));
        }
        i = line_end;
    }
    assert(split_lines_spec(s@.skip(i as int)) =~= Seq::<Seq<char>>::empty());
    assert(lines@.map_values(|l: String| l@) =~= lines@.map_values(|l: String| l@) + Seq::<
        Seq<char>,
    >::empty());
    lines
}

/// What `str::to_lowercase` returns for a string with these characters.
/// Unicode lowercasing is a function of the characters alone; its full
/// definition is not restated here, only named.
pub uninterp spec fn lower_of(s: Seq<char>) -> Seq<char>;

/// Relies on `str::to_lowercase`: the result depends on the characters alone,
/// and an empty string stays empty.
#[verifier::external_body]
pub fn lowercase(s: &str) -> (r: String)
    ensures
        r@ == lower_of(s@),
        s@.len() == 0 ==> r@.len() == 0,
{
    s.to_lowercase()
}

} // verus!
