//! Splitting raw text into lines.
//!
//! A document is read as one text blob and cut at newline characters. A
//! carriage return directly before a newline belongs to the line ending and
//! is removed; text after the last newline forms a final line unless it is
//! empty, so a trailing newline adds no empty line.

use vstd::prelude::*;

verus! {

/// The index of the first newline in the text, or its length if none occurs.
pub open spec fn find_newline(s: Seq<char>) -> int
    decreases s.len(),
{
    if s.len() == 0 {
        0
    } else if s[0] == '\n' {
        0
    } else {
        1 + find_newline(s.drop_first())
    }
}

proof fn lemma_find_newline(s: Seq<char>)
    ensures
        0 <= find_newline(s) <= s.len(),
        find_newline(s) < s.len() ==> s[find_newline(s)] == '\n',
        forall|m: int| 0 <= m < find_newline(s) ==> s[m] != '\n',
    decreases s.len(),
{
    if s.len() > 0 && s[0] != '\n' {
        lemma_find_newline(s.drop_first());
        assert forall|m: int| 0 <= m < find_newline(s) implies s[m] != '\n' by {
            if m > 0 {
                assert(s.drop_first()[m - 1] == s[m]);
            }
        }
    }
}

/// A line with the carriage return of a CRLF ending removed.
pub open spec fn strip_trailing_cr(l: Seq<char>) -> Seq<char> {
    if l.len() > 0 && l.last() == '\r' {
        l.drop_last()
    } else {
        l
    }
}

/// The lines of the text: the newline-free segment before each newline, with
/// a carriage return directly before the newline removed, and whatever
/// follows the last newline as a final line when it is non-empty.
pub open spec fn split_lines(s: Seq<char>) -> Seq<Seq<char>>
    decreases s.len(),
{
    if s.len() == 0 {
        Seq::empty()
    } else {
        let j = find_newline(s);
        if 0 <= j < s.len() {
            seq![strip_trailing_cr(s.take(j))] + split_lines(s.skip(j + 1))
        } else {
            seq![s]
        }
    }
}

/// Splits the content into the lines the sorter consumes.
pub fn split_content_by_lines(content: String) -> (r: Vec<String>)
    ensures
        r.deep_view() == split_lines(content@),
{
    let s = content.as_str();
    let n = s.unicode_len();
    let mut out: Vec<String> = Vec::new();
    let mut pos: usize = 0;
    proof {
        assert(content@.skip(0) =~= content@);
        assert(out.deep_view() =~= Seq::<Seq<char>>::empty());
        assert(Seq::<Seq<char>>::empty() + split_lines(content@) =~= split_lines(content@));
    }
    while pos < n
        invariant
            pos <= n,
            n == content@.len(),
            s@ == content@,
            split_lines(content@) == out.deep_view() + split_lines(content@.skip(pos as int)),
        decreases n - pos,
    {
        let ghost rest = content@.skip(pos as int);
        let mut j: usize = pos;
        while j < n && s.get_char(j) != '\n'
            invariant
                pos <= j <= n,
                n == s@.len(),
                forall|m: int| pos <= m < j ==> s@[m] != '\n',
            decreases n - j,
        {
            j = j + 1;
        }
        proof {
            lemma_find_newline(rest);
            let f = find_newline(rest);
            assert(f == j - pos) by {
                if f < j - pos {
                    assert(rest[f] == '\n');
                    assert(rest[f] == s@[pos + f]);
                } else if f > j - pos {
                    assert(j < n);
                    assert(rest[j - pos] == s@[j as int]);
                }
            }
        }
        let end: usize = if j < n && j > pos {
            if s.get_char(j - 1) == '\r' {
                j - 1
            } else {
                j
            }
        } else {
            j
        };
        let piece = s.substring_char(pos, end);
        let ghost prevd = out.deep_view();
        let ghost prevs = out@;
        let line = String::from_str(piece);
        out.push(line);
        proof {
            assert forall|m: int| 0 <= m < out@.len() implies out.deep_view()[m] == prevd.push(
                piece@,
            )[m] by {
                if m < prevs.len() {
                    assert(out@[m] == prevs[m]);
                } else {
                    assert(out@[m] == line);
                }
            }
            assert(out.deep_view() =~= prevd.push(piece@));
            if j < n {
                assert(rest.take(j - pos as int) =~= content@.subrange(pos as int, j as int));
                assert(piece@ == strip_trailing_cr(rest.take(j - pos as int))) by {
                    let seg = content@.subrange(pos as int, j as int);
                    if j > pos && s@[j - 1 as int] == '\r' {
                        assert(seg.len() > 0 && seg.last() == '\r');
                        assert(seg.drop_last() =~= content@.subrange(pos as int, j - 1 as int));
                    }
                }
                assert(rest.skip(j - pos as int + 1) =~= content@.skip(j + 1 as int));
                assert(split_lines(rest) == seq![piece@] + split_lines(
                    content@.skip(j + 1 as int),
                ));
            } else {
                assert(find_newline(rest) == rest.len());
                assert(piece@ == content@.subrange(pos as int, n as int));
                assert(piece@ == rest);
                assert(split_lines(rest) == seq![rest]);
                assert(content@.skip(n as int).len() == 0);
                assert(split_lines(content@.skip(n as int)) == Seq::<Seq<char>>::empty());
            }
            assert(out.deep_view() + split_lines(content@.skip(if j < n {
                j + 1 as int
            } else {
                n as int
            })) =~= prevd + split_lines(rest));
        }
        pos = if j < n {
            j + 1
        } else {
            n
        };
    }
    proof {
        assert(content@.skip(pos as int).len() == 0);
        assert(split_lines(content@.skip(pos as int)) == Seq::<Seq<char>>::empty());
        assert(out.deep_view() + Seq::<Seq<char>>::empty() =~= out.deep_view());
    }
    out
}

} // verus!
