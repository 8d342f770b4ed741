//! The line sorter.
//!
//! `sort` orders a document — a sequence of lines — under a chosen mode and
//! is specified exactly: its result equals the stable insertion sort
//! [`sort_lines`] of the document's view. `reverse` inverts a document.
//! The proof functions at the end state the laws of the sorter: the result
//! is a sorted permutation of the input, numeric mode keeps unparseable
//! lines in their original relative order behind the parsed ones, sorting
//! is idempotent, and the empty document sorts to itself.

use vstd::prelude::*;

use crate::numeric::{i64_value, is_i64_literal, key_of, num_key};
use crate::order::{lemma_lex_le_total, lemma_lex_le_transitive, lex_le, lex_leq};

verus! {

/// The comparator a document is ordered under. `Default` and `Lexicographic`
/// both compare lines as literal strings; `Numeric` compares them by their
/// parsed 64-bit value, with unparseable lines keyed by the sentinel
/// `i64::MAX`. Numeric mode takes precedence over lexicographic mode when a
/// caller sets both flags, and lexicographic over default; the modes are kept
/// as one enumeration so that exactly one comparator is ever chosen.
#[derive(Clone, Copy, Debug, PartialEq, Eq, Structural)]
pub enum SortMode {
    Default,
    Numeric,
    Lexicographic,
}

/// Line `a` sorts at or before line `b` under the given mode.
pub open spec fn line_le(mode: SortMode, a: Seq<char>, b: Seq<char>) -> bool {
    match mode {
        SortMode::Numeric => num_key(a) <= num_key(b),
        SortMode::Default => lex_le(a, b),
        SortMode::Lexicographic => lex_le(a, b),
    }
}

/// Every mode's comparator is total.
pub proof fn lemma_line_le_total(mode: SortMode, a: Seq<char>, b: Seq<char>)
    ensures
        line_le(mode, a, b) || line_le(mode, b, a),
{
    if !(mode is Numeric) {
        lemma_lex_le_total(a, b);
    }
}

/// Every mode's comparator is transitive.
pub proof fn lemma_line_le_transitive(mode: SortMode, a: Seq<char>, b: Seq<char>, c: Seq<char>)
    requires
        line_le(mode, a, b),
        line_le(mode, b, c),
    ensures
        line_le(mode, a, c),
{
    if !(mode is Numeric) {
        lemma_lex_le_transitive(a, b, c);
    }
}

/// The document is non-decreasing under the mode's comparator.
pub open spec fn sorted_under(mode: SortMode, s: Seq<Seq<char>>) -> bool {
    forall|i: int, j: int| 0 <= i < j < s.len() ==> line_le(mode, s[i], s[j])
}

/// The line `x` placed into `s` directly after every line that sorts at or
/// before it; on a sorted `s` this is the stable insertion step.
pub open spec fn insert_line(mode: SortMode, x: Seq<char>, s: Seq<Seq<char>>) -> Seq<Seq<char>>
    decreases s.len(),
{
    if s.len() == 0 {
        seq![x]
    } else if line_le(mode, s[0], x) {
        seq![s[0]] + insert_line(mode, x, s.drop_first())
    } else {
        seq![x] + s
    }
}

/// The document sorted under the mode's comparator by stable insertion:
/// lines are taken in order and each is placed after every earlier line
/// that sorts at or before it.
pub open spec fn sort_lines(mode: SortMode, s: Seq<Seq<char>>) -> Seq<Seq<char>>
    decreases s.len(),
{
    if s.len() == 0 {
        Seq::empty()
    } else {
        insert_line(mode, s.last(), sort_lines(mode, s.drop_last()))
    }
}

/// The position `insert_line` places `x` at: the index of the first line of
/// `s` that does not sort at or before `x`. The insertion is the sequence
/// insertion at that index.
proof fn find_insert_pos(mode: SortMode, x: Seq<char>, s: Seq<Seq<char>>) -> (j: int)
    ensures
        0 <= j <= s.len(),
        forall|m: int| 0 <= m < j ==> line_le(mode, s[m], x),
        j < s.len() ==> !line_le(mode, s[j], x),
        insert_line(mode, x, s) == s.insert(j, x),
    decreases s.len(),
{
    if s.len() == 0 {
        assert(insert_line(mode, x, s) =~= s.insert(0, x));
        0
    } else if line_le(mode, s[0], x) {
        let df = s.drop_first();
        let j0 = find_insert_pos(mode, x, df);
        df.insert_ensures(j0, x);
        s.insert_ensures(j0 + 1, x);
        assert forall|m: int| 0 <= m < s.len() + 1 implies (seq![s[0]] + df.insert(j0, x))[m]
            == s.insert(j0 + 1, x)[m] by {
            if m == 0 {
            } else if m <= j0 {
                assert((seq![s[0]] + df.insert(j0, x))[m] == df.insert(j0, x)[m - 1]);
                assert(df.insert(j0, x)[m - 1] == df[m - 1]);
            } else if m == j0 + 1 {
                assert((seq![s[0]] + df.insert(j0, x))[m] == df.insert(j0, x)[j0]);
            } else {
                assert((seq![s[0]] + df.insert(j0, x))[m] == df.insert(j0, x)[m - 1]);
                assert(df.insert(j0, x)[m - 1] == df[m - 2]);
            }
        }
        assert(insert_line(mode, x, s) =~= s.insert(j0 + 1, x));
        assert forall|m: int| 0 <= m < j0 + 1 implies line_le(mode, s[m], x) by {
            if m > 0 {
                assert(df[m - 1] == s[m]);
            }
        }
        j0 + 1
    } else {
        assert(s.insert(0, x) =~= seq![x] + s);
        0
    }
}

/// Inserting into a sorted document keeps it sorted, adds the new line to
/// its multiset of lines, and lengthens it by one.
proof fn lemma_insert_line_sorted(mode: SortMode, x: Seq<char>, s: Seq<Seq<char>>)
    requires
        sorted_under(mode, s),
    ensures
        sorted_under(mode, insert_line(mode, x, s)),
        insert_line(mode, x, s).to_multiset() == s.to_multiset().insert(x),
        insert_line(mode, x, s).len() == s.len() + 1,
{
    let j = find_insert_pos(mode, x, s);
    let r = s.insert(j, x);
    s.insert_ensures(j, x);
    vstd::seq_lib::to_multiset_insert(s, j, x);
    if j < s.len() {
        lemma_line_le_total(mode, x, s[j]);
    }
    assert forall|a: int, b: int| 0 <= a < b < r.len() implies line_le(mode, r[a], r[b]) by {
        if b < j {
            assert(r[a] == s[a] && r[b] == s[b]);
        } else if a > j {
            assert(r[a] == s[a - 1] && r[b] == s[b - 1]);
        } else if a == j {
            assert(r[a] == x && r[b] == s[b - 1]);
            if b - 1 > j {
                assert(line_le(mode, s[j], s[b - 1]));
                lemma_line_le_transitive(mode, x, s[j], s[b - 1]);
            }
        } else if b == j {
            assert(r[a] == s[a] && r[b] == x);
        } else {
            assert(a < j && b > j);
            assert(r[a] == s[a] && r[b] == s[b - 1]);
            if a == b - 1 {
                assert(false);
            }
        }
    }
}

/// The sorted document is a permutation of the input, non-decreasing under
/// the mode's comparator, and of the same length.
pub proof fn lemma_sort_lines_ensures(mode: SortMode, s: Seq<Seq<char>>)
    ensures
        sorted_under(mode, sort_lines(mode, s)),
        sort_lines(mode, s).to_multiset() == s.to_multiset(),
        sort_lines(mode, s).len() == s.len(),
    decreases s.len(),
{
    if s.len() == 0 {
        assert(s =~= Seq::<Seq<char>>::empty());
    } else {
        let dl = s.drop_last();
        lemma_sort_lines_ensures(mode, dl);
        lemma_insert_line_sorted(mode, s.last(), sort_lines(mode, dl));
        vstd::seq_lib::to_multiset_build(dl, s.last());
        assert(dl.push(s.last()) =~= s);
        assert(dl.push(s.last()) == s);
        assert(s.to_multiset() == dl.push(s.last()).to_multiset());
        assert(dl.push(s.last()).to_multiset() == dl.to_multiset().insert(s.last()));
        assert(sort_lines(mode, s) == insert_line(mode, s.last(), sort_lines(mode, dl)));
        assert(insert_line(mode, s.last(), sort_lines(mode, dl)).to_multiset() == sort_lines(
            mode,
            dl,
        ).to_multiset().insert(s.last()));
    }
}

/// A document that is already sorted under a mode sorts to itself.
pub proof fn lemma_sort_of_sorted(mode: SortMode, s: Seq<Seq<char>>)
    requires
        sorted_under(mode, s),
    ensures
        sort_lines(mode, s) == s,
    decreases s.len(),
{
    if s.len() > 0 {
        let dl = s.drop_last();
        assert(sorted_under(mode, dl)) by {
            assert forall|i: int, j: int| 0 <= i < j < dl.len() implies line_le(
                mode,
                dl[i],
                dl[j],
            ) by {
                assert(dl[i] == s[i] && dl[j] == s[j]);
            }
        }
        lemma_sort_of_sorted(mode, dl);
        let j = find_insert_pos(mode, s.last(), dl);
        if j < dl.len() {
            assert(line_le(mode, s[j], s[s.len() - 1]));
            assert(false);
        }
        dl.insert_ensures(j, s.last());
        assert(dl.insert(dl.len() as int, s.last()) =~= s);
    }
}

/// The lines that numeric mode keys with the value `k`.
pub open spec fn key_is(k: int) -> spec_fn(Seq<char>) -> bool {
    |l: Seq<char>| num_key(l) == k
}

/// The lines that are not 64-bit integer literals.
pub open spec fn non_literal() -> spec_fn(Seq<char>) -> bool {
    |l: Seq<char>| !is_i64_literal(l)
}

/// A document none of whose lines satisfy the predicate filters to nothing.
proof fn lemma_filter_none(s: Seq<Seq<char>>, p: spec_fn(Seq<char>) -> bool)
    requires
        forall|i: int| 0 <= i < s.len() ==> !p(s[i]),
    ensures
        s.filter(p) == Seq::<Seq<char>>::empty(),
    decreases s.len(),
{
    reveal(Seq::filter);
    if s.len() == 0 {
        assert(s =~= Seq::<Seq<char>>::empty());
    } else {
        lemma_filter_none(s.drop_last(), p);
    }
}

/// Predicates that agree on every line of a document filter it alike.
proof fn lemma_filter_agree(
    s: Seq<Seq<char>>,
    p: spec_fn(Seq<char>) -> bool,
    q: spec_fn(Seq<char>) -> bool,
)
    requires
        forall|i: int| 0 <= i < s.len() ==> p(s[i]) == q(s[i]),
    ensures
        s.filter(p) == s.filter(q),
    decreases s.len(),
{
    reveal(Seq::filter);
    if s.len() > 0 {
        lemma_filter_agree(s.drop_last(), p, q);
    }
}

/// The stable insertion step in numeric mode appends a line of key `k` to
/// the filtered lines of that key and leaves every other key's lines alone.
proof fn lemma_insert_line_filter(x: Seq<char>, s: Seq<Seq<char>>, k: int)
    requires
        sorted_under(SortMode::Numeric, s),
    ensures
        num_key(x) == k ==> insert_line(SortMode::Numeric, x, s).filter(key_is(k)) == s.filter(
            key_is(k),
        ).push(x),
        num_key(x) != k ==> insert_line(SortMode::Numeric, x, s).filter(key_is(k)) == s.filter(
            key_is(k),
        ),
{
    let mode = SortMode::Numeric;
    let p = key_is(k);
    let j = find_insert_pos(mode, x, s);
    let s0 = s.subrange(0, j);
    let s1 = s.subrange(j, s.len() as int);
    assert(s0.push(x) =~= s0 + seq![x]);
    assert(s.insert(j, x) == (s0 + seq![x]) + s1);
    Seq::<Seq<char>>::filter_distributes_over_add(s0 + seq![x], s1, p);
    Seq::<Seq<char>>::filter_distributes_over_add(s0, seq![x], p);
    Seq::<Seq<char>>::filter_distributes_over_add(s0, s1, p);
    assert(s =~= s0 + s1);
    reveal(Seq::filter);
    assert(seq![x].drop_last() =~= Seq::<Seq<char>>::empty());
    assert(seq![x].drop_last() == Seq::<Seq<char>>::empty());
    assert(Seq::<Seq<char>>::empty().filter(p) == Seq::<Seq<char>>::empty());
    if p(x) {
        assert(seq![x].filter(p) =~= seq![x]);
    } else {
        assert(seq![x].filter(p) =~= Seq::<Seq<char>>::empty());
    }
    if num_key(x) == k {
        assert forall|m: int| 0 <= m < s1.len() implies !p(s1[m]) by {
            assert(s1[m] == s[j + m]);
            assert(!line_le(mode, s[j], x));
            if m > 0 {
                assert(line_le(mode, s[j], s[j + m]));
            }
        }
        lemma_filter_none(s1, p);
        assert(insert_line(mode, x, s).filter(p) =~= s.filter(p).push(x));
    } else {
        assert(insert_line(mode, x, s).filter(p) =~= s.filter(p));
    }
}

/// Numeric-mode sorting is stable within each key: the lines of any one key
/// come out in their original relative order.
pub proof fn lemma_sort_lines_stable(s: Seq<Seq<char>>, k: int)
    ensures
        sort_lines(SortMode::Numeric, s).filter(key_is(k)) == s.filter(key_is(k)),
    decreases s.len(),
{
    let mode = SortMode::Numeric;
    reveal(Seq::filter);
    if s.len() == 0 {
        assert(s =~= Seq::<Seq<char>>::empty());
    } else {
        let dl = s.drop_last();
        lemma_sort_lines_stable(dl, k);
        lemma_sort_lines_ensures(mode, dl);
        lemma_insert_line_filter(s.last(), sort_lines(mode, dl), k);
    }
}

/// Sorting under lexicographic mode yields a permutation of the document —
/// no line added or dropped, duplicates kept with their multiplicity — that
/// is non-decreasing under byte-wise string comparison.
pub proof fn lemma_lexicographic_law(doc: Seq<Seq<char>>)
    ensures
        sort_lines(SortMode::Lexicographic, doc).to_multiset() == doc.to_multiset(),
        forall|i: int, j: int|
            0 <= i < j < sort_lines(SortMode::Lexicographic, doc).len() ==> lex_le(
                sort_lines(SortMode::Lexicographic, doc)[i],
                sort_lines(SortMode::Lexicographic, doc)[j],
            ),
{
    lemma_sort_lines_ensures(SortMode::Lexicographic, doc);
    let r = sort_lines(SortMode::Lexicographic, doc);
    assert forall|i: int, j: int| 0 <= i < j < r.len() implies lex_le(r[i], r[j]) by {
        assert(line_le(SortMode::Lexicographic, r[i], r[j]));
    }
}

/// Sorting under numeric mode yields a permutation of the document in which
/// every line that parses as a 64-bit integer precedes every line that does
/// not, the parsed lines are non-decreasing by value, and the unparseable
/// lines keep their original relative order among themselves. A line whose
/// value is exactly `i64::MAX` shares the sentinel key of the unparseable
/// lines and can land among them, so such lines are excluded.
pub proof fn lemma_numeric_law(doc: Seq<Seq<char>>)
    requires
        forall|i: int|
            0 <= i < doc.len() && is_i64_literal(#[trigger] doc[i]) ==> i64_value(doc[i])
                < i64::MAX,
    ensures
        sort_lines(SortMode::Numeric, doc).to_multiset() == doc.to_multiset(),
        forall|i: int, j: int|
            0 <= i < j < sort_lines(SortMode::Numeric, doc).len() && is_i64_literal(
                #[trigger] sort_lines(SortMode::Numeric, doc)[j],
            ) ==> is_i64_literal(#[trigger] sort_lines(SortMode::Numeric, doc)[i]),
        forall|i: int, j: int|
            0 <= i < j < sort_lines(SortMode::Numeric, doc).len() && is_i64_literal(
                #[trigger] sort_lines(SortMode::Numeric, doc)[i],
            ) && is_i64_literal(#[trigger] sort_lines(SortMode::Numeric, doc)[j]) ==> i64_value(
                sort_lines(SortMode::Numeric, doc)[i],
            ) <= i64_value(sort_lines(SortMode::Numeric, doc)[j]),
        sort_lines(SortMode::Numeric, doc).filter(non_literal()) == doc.filter(non_literal()),
{
    let mode = SortMode::Numeric;
    let r = sort_lines(mode, doc);
    lemma_sort_lines_ensures(mode, doc);
    assert forall|i: int|
        0 <= i < r.len() && is_i64_literal(#[trigger] r[i]) implies i64_value(r[i])
        < i64::MAX by {
        vstd::seq_lib::to_multiset_contains(r, r[i]);
        vstd::seq_lib::to_multiset_contains(doc, r[i]);
        assert(r.contains(r[i]));
        let w = choose|w: int| 0 <= w < doc.len() && doc[w] == r[i];
        assert(i64_value(doc[w]) < i64::MAX);
    }
    assert forall|i: int, j: int|
        0 <= i < j < r.len() && is_i64_literal(#[trigger] r[j]) implies is_i64_literal(
        #[trigger] r[i],
    ) by {
        assert(line_le(mode, r[i], r[j]));
        assert(num_key(r[j]) < i64::MAX);
    }
    assert forall|i: int, j: int|
        0 <= i < j < r.len() && is_i64_literal(#[trigger] r[i]) && is_i64_literal(
        #[trigger] r[j],
    ) implies i64_value(r[i]) <= i64_value(r[j]) by {
        assert(line_le(mode, r[i], r[j]));
    }
    let sentinel = i64::MAX as int;
    lemma_sort_lines_stable(doc, sentinel);
    lemma_filter_agree(doc, key_is(sentinel), non_literal());
    lemma_filter_agree(r, key_is(sentinel), non_literal());
}

/// Reversal reads a sorted document back-to-front, under any mode.
pub proof fn lemma_reverse_law(mode: SortMode, doc: Seq<Seq<char>>)
    ensures
        sort_lines(mode, doc).reverse().len() == sort_lines(mode, doc).len(),
        forall|i: int|
            0 <= i < sort_lines(mode, doc).len() ==> sort_lines(mode, doc).reverse()[i]
                == sort_lines(mode, doc)[sort_lines(mode, doc).len() - 1 - i],
{
}

/// Sorting is idempotent: sorting a sorted document changes nothing, so
/// sorting twice under one mode equals sorting once.
pub proof fn lemma_sort_idempotent(mode: SortMode, doc: Seq<Seq<char>>)
    ensures
        sort_lines(mode, sort_lines(mode, doc)) == sort_lines(mode, doc),
{
    lemma_sort_lines_ensures(mode, doc);
    lemma_sort_of_sorted(mode, sort_lines(mode, doc));
}

/// The empty document sorts to the empty document, under any mode.
pub proof fn lemma_sort_empty(mode: SortMode)
    ensures
        sort_lines(mode, Seq::<Seq<char>>::empty()) == Seq::<Seq<char>>::empty(),
{
}

/// Decides the mode's ordering on two in-memory lines.
pub fn line_leq(mode: SortMode, a: &String, b: &String) -> (r: bool)
    ensures
        r == line_le(mode, a@, b@),
{
    match mode {
        SortMode::Numeric => {
            let ka = key_of(a);
            let kb = key_of(b);
            ka <= kb
        },
        SortMode::Default => lex_leq(a, b),
        SortMode::Lexicographic => lex_leq(a, b),
    }
}

/// Sorts the document under the given mode. The result is exactly the
/// stable insertion sort of the document's lines.
pub fn sort(doc: Vec<String>, mode: SortMode) -> (r: Vec<String>)
    ensures
        r.deep_view() == sort_lines(mode, doc.deep_view()),
{
    let ghost dv = doc.deep_view();
    let mut out: Vec<String> = Vec::new();
    let mut i: usize = 0;
    while i < doc.len()
        invariant
            i <= doc.len(),
            dv == doc.deep_view(),
            out.deep_view() == sort_lines(mode, dv.take(i as int)),
        decreases doc.len() - i,
    {
        let x = doc[i].clone();
        let ghost prev = out.deep_view();
        let ghost prevs = out@;
        let mut j: usize = 0;
        while j < out.len() && line_leq(mode, &out[j], &x)
            invariant
                j <= out.len(),
                prev == out.deep_view(),
                x@ == dv[i as int],
                forall|m: int| 0 <= m < j ==> line_le(mode, prev[m], x@),
            decreases out.len() - j,
        {
            j = j + 1;
        }
        proof {
            let jj = find_insert_pos(mode, x@, prev);
            assert(jj == j as int) by {
                if jj < j {
                    assert(line_le(mode, prev[jj], x@));
                } else if jj > j {
                    assert(line_le(mode, prev[j as int], x@));
                }
            }
        }
        out.insert(j, x);
        proof {
            prevs.insert_ensures(j as int, x);
            prev.insert_ensures(j as int, x@);
            assert(out@ == prevs.insert(j as int, x));
            assert forall|m: int| 0 <= m < out@.len() implies out.deep_view()[m] == prev.insert(
                j as int,
                x@,
            )[m] by {
                if m < j {
                    assert(out@[m] == prevs[m]);
                } else if m == j {
                    assert(out@[m] == x);
                } else {
                    assert(out@[m] == prevs[m - 1]);
                }
            }
            assert(out.deep_view() =~= prev.insert(j as int, x@));
            assert(dv.take(i + 1 as int).drop_last() =~= dv.take(i as int));
            assert(dv.take(i + 1 as int).last() == dv[i as int]);
            assert(sort_lines(mode, dv.take(i + 1 as int)) == insert_line(
                mode,
                dv[i as int],
                sort_lines(mode, dv.take(i as int)),
            ));
        }
        i = i + 1;
    }
    proof {
        assert(dv.take(doc.len() as int) =~= dv);
    }
    out
}

/// Reverses the document: the output reads the input back-to-front.
pub fn reverse(doc: Vec<String>) -> (r: Vec<String>)
    ensures
        r.deep_view() == doc.deep_view().reverse(),
{
    let ghost dv = doc.deep_view();
    let mut out: Vec<String> = Vec::new();
    let mut i: usize = doc.len();
    while i > 0
        invariant
            i <= doc.len(),
            dv == doc.deep_view(),
            dv.len() == doc.len(),
            out.len() == doc.len() - i,
            forall|m: int| 0 <= m < out.len() ==> out@[m]@ == dv[dv.len() - 1 - m],
        decreases i,
    {
        i = i - 1;
        let x = doc[i].clone();
        let ghost prevs = out@;
        out.push(x);
        proof {
            assert(out@ == prevs.push(x));
            assert(dv[i as int] == doc@[i as int]@);
            assert forall|m: int| 0 <= m < out.len() implies out@[m]@ == dv[dv.len() - 1 - m] by {
                if m < prevs.len() {
                    assert(out@[m] == prevs[m]);
                } else {
                    assert(out@[m] == x);
                }
            }
        }
    }
    proof {
        assert forall|m: int| 0 <= m < out.len() implies out.deep_view()[m] == dv.reverse()[m] by {
            assert(out.deep_view()[m] == out@[m]@);
        }
        assert(out.deep_view() =~= dv.reverse());
    }
    out
}

} // verus!
