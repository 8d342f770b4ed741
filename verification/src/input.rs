//! Assembling piped input.
//!
//! When no path is given, the tool drains standard input line by line, joins
//! the lines with newlines and trims surrounding whitespace before treating
//! the result as a path. Reading the stream stays outside the library; the
//! joining and trimming are verified here.

use vstd::prelude::*;

verus! {

/// The lines joined into one text, a newline between each pair.
pub open spec fn join_lines_spec(ls: Seq<Seq<char>>) -> Seq<char>
    decreases ls.len(),
{
    if ls.len() == 0 {
        Seq::empty()
    } else if ls.len() == 1 {
        ls[0]
    } else {
        join_lines_spec(ls.drop_last()) + seq!['\n'] + ls.last()
    }
}

/// The character is whitespace: one of the fixed set of Unicode
/// white-space code points.
pub open spec fn is_space(c: char) -> bool {
    ||| ('\u{0009}' <= c && c <= '\u{000d}')
    ||| c == ' '
    ||| c == '\u{0085}'
    ||| c == '\u{00a0}'
    ||| c == '\u{1680}'
    ||| ('\u{2000}' <= c && c <= '\u{200a}')
    ||| c == '\u{2028}'
    ||| c == '\u{2029}'
    ||| c == '\u{202f}'
    ||| c == '\u{205f}'
    ||| c == '\u{3000}'
}

/// The text with every leading and trailing whitespace character removed.
pub open spec fn trim_spec(s: Seq<char>) -> Seq<char>
    decreases s.len(),
{
    if s.len() > 0 && is_space(s.first()) {
        trim_spec(s.drop_first())
    } else if s.len() > 0 && is_space(s.last()) {
        trim_spec(s.drop_last())
    } else {
        s
    }
}

/// The trimmed text is the slice between the first and the last
/// non-whitespace character.
proof fn lemma_trim_characterization(s: Seq<char>, lo: int, hi: int)
    requires
        0 <= lo <= s.len(),
        forall|m: int| 0 <= m < lo ==> is_space(s[m]),
        lo < s.len() ==> !is_space(s[lo]),
        lo == s.len() ==> hi == lo,
        lo < s.len() ==> lo < hi <= s.len() && !is_space(s[hi - 1]),
        lo < s.len() ==> forall|m: int| hi <= m < s.len() ==> is_space(s[m]),
    ensures
        trim_spec(s) == s.subrange(lo, hi),
    decreases s.len(),
{
    if s.len() == 0 {
        assert(trim_spec(s) =~= s.subrange(0, 0));
    } else if is_space(s.first()) {
        let df = s.drop_first();
        assert(lo >= 1);
        assert forall|m: int| 0 <= m < lo - 1 implies is_space(df[m]) by {
            assert(df[m] == s[m + 1]);
        }
        if lo - 1 < df.len() {
            assert forall|m: int| hi - 1 <= m < df.len() implies is_space(df[m]) by {
                assert(df[m] == s[m + 1]);
            }
        }
        lemma_trim_characterization(df, lo - 1, hi - 1);
        assert(df.subrange(lo - 1, hi - 1) =~= s.subrange(lo, hi));
    } else if is_space(s.last()) {
        assert(lo == 0);
        let dl = s.drop_last();
        assert(hi - 1 != s.len() - 1);
        assert(hi <= dl.len());
        assert forall|m: int| hi <= m < dl.len() implies is_space(dl[m]) by {
            assert(dl[m] == s[m]);
        }
        lemma_trim_characterization(dl, 0, hi);
        assert(dl.subrange(0, hi) =~= s.subrange(0, hi));
    } else {
        assert(lo == 0);
        assert(hi == s.len()) by {
            if hi < s.len() {
                assert(is_space(s[s.len() - 1]));
            }
        }
        assert(s.subrange(0, s.len() as int) =~= s);
    }
}

/// Decides the whitespace predicate on one character.
fn is_space_char(c: char) -> (r: bool)
    ensures
        r == is_space(c),
{
    ('\u{0009}' <= c && c <= '\u{000d}') || c == ' ' || c == '\u{0085}' || c == '\u{00a0}' || c
        == '\u{1680}' || ('\u{2000}' <= c && c <= '\u{200a}') || c == '\u{2028}' || c == '\u{2029}'
        || c == '\u{202f}' || c == '\u{205f}' || c == '\u{3000}'
}

/// Joins the lines into one text with a newline between each pair.
pub fn join_lines(lines: &Vec<String>) -> (r: String)
    ensures
        r@ == join_lines_spec(lines.deep_view()),
{
    let ghost dv = lines.deep_view();
    let mut out = String::new();
    let mut i: usize = 0;
    while i < lines.len()
        invariant
            i <= lines.len(),
            dv == lines.deep_view(),
            out@ == join_lines_spec(dv.take(i as int)),
        decreases lines.len() - i,
    {
        if i > 0 {
            out.append("\n");
        }
        out.append(lines[i].as_str());
        proof {
            assert(dv[i as int] == lines@[i as int]@);
            assert(dv.take(i + 1 as int).drop_last() =~= dv.take(i as int));
            assert(dv.take(i + 1 as int).last() == dv[i as int]);
            if i == 0 {
                assert(out@ =~= dv[0]);
                assert(join_lines_spec(dv.take(1)) == dv.take(1)[0]);
            } else {
                reveal_strlit("\n");
                assert("\n"@ =~= seq!['\n']);
                assert(out@ =~= join_lines_spec(dv.take(i as int)) + seq!['\n'] + dv[i as int]);
            }
        }
        i = i + 1;
    }
    proof {
        assert(dv.take(lines.len() as int) =~= dv);
    }
    out
}

/// Removes leading and trailing whitespace from the text.
pub fn trim_whitespace(s: &String) -> (r: String)
    ensures
        r@ == trim_spec(s@),
{
    let n = s.as_str().unicode_len();
    let mut lo: usize = 0;
    while lo < n && is_space_char(s.as_str().get_char(lo))
        invariant
            lo <= n,
            n == s@.len(),
            forall|m: int| 0 <= m < lo ==> is_space(s@[m]),
        decreases n - lo,
    {
        lo = lo + 1;
    }
    if lo == n {
        proof {
            lemma_trim_characterization(s@, lo as int, lo as int);
        }
        let r = String::new();
        proof {
            assert(r@ =~= s@.subrange(lo as int, lo as int));
        }
        return r;
    }
    let mut hi: usize = n;
    while hi > lo && is_space_char(s.as_str().get_char(hi - 1))
        invariant
            lo <= hi <= n,
            n == s@.len(),
            forall|m: int| hi <= m < n ==> is_space(s@[m]),
        decreases hi,
    {
        hi = hi - 1;
    }
    proof {
        assert(hi > lo) by {
            if hi == lo {
                assert(is_space(s@[lo as int]));
            }
        }
        lemma_trim_characterization(s@, lo as int, hi as int);
    }
    let piece = s.as_str().substring_char(lo, hi);
    String::from_str(piece)
}

} // verus!
