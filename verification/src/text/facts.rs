//! Facts about the text primitives, for the proofs about the grammar.

use super::{
    is_trimmed, is_whitespace, join_lines, lemma_position, lemma_whitespace_position, lines_of,
    is_blank, position, split_on, starts_with, strip_cr, strip_prefix, trim, trim_end, trim_start,
    unlines, whitespace_position,
};
use vstd::prelude::*;

verus! {

/// Whether `c` does not occur in `s`.
pub open spec fn lacks(s: Seq<char>, c: char) -> bool {
    forall|i: int| 0 <= i < s.len() ==> s[i] != c
}

/// Whether every character of `s` is white space.
pub open spec fn all_whitespace(s: Seq<char>) -> bool {
    forall|i: int| 0 <= i < s.len() ==> is_whitespace(#[trigger] s[i])
}

/// Whether no character of `s` is white space.
pub open spec fn no_whitespace(s: Seq<char>) -> bool {
    forall|i: int| 0 <= i < s.len() ==> !is_whitespace(#[trigger] s[i])
}

/// The number of characters that `trim_start` removes.
pub open spec fn trim_lo(s: Seq<char>) -> int {
    s.len() - trim_start(s).len()
}

/// The index at which the part that `trim` keeps ends.
pub open spec fn trim_hi(s: Seq<char>) -> int {
    trim_lo(s) + trim(s).len()
}

/// `trim_start` removes a prefix of white space, up to the first character
/// that is none.
pub proof fn lemma_trim_start(s: Seq<char>)
    ensures
        0 <= trim_lo(s) <= s.len(),
        trim_start(s) == s.skip(trim_lo(s)),
        all_whitespace(s.take(trim_lo(s))),
        trim_start(s).len() > 0 ==> !is_whitespace(trim_start(s)[0]),
    decreases s.len(),
{
    if s.len() > 0 && is_whitespace(s[0]) {
        let r = s.skip(1);
        lemma_trim_start(r);
        let k = trim_lo(r);
        assert(r.skip(k) == s.skip(k + 1));
        assert forall|i: int| 0 <= i < k + 1 implies is_whitespace(#[trigger] s.take(k + 1)[i]) by {
            if i > 0 {
                assert(s.take(k + 1)[i] == r.take(k)[i - 1]);
            }
        }
    } else {
        assert(s.skip(0) == s);
    }
}

/// `trim_end` removes a suffix of white space, back to the last character
/// that is none.
pub proof fn lemma_trim_end(s: Seq<char>)
    ensures
        0 <= trim_end(s).len() <= s.len(),
        trim_end(s) == s.take(trim_end(s).len() as int),
        all_whitespace(s.skip(trim_end(s).len() as int)),
        trim_end(s).len() > 0 ==> !is_whitespace(trim_end(s).last()),
    decreases s.len(),
{
    if s.len() > 0 && is_whitespace(s.last()) {
        let r = s.drop_last();
        lemma_trim_end(r);
        let m = trim_end(r).len() as int;
        assert(r.take(m) == s.take(m));
        assert forall|i: int| 0 <= i < s.len() - m implies is_whitespace(#[trigger] s.skip(m)[i]) by {
            if i < r.len() - m {
                assert(s.skip(m)[i] == r.skip(m)[i]);
            }
        }
    } else {
        assert(s.take(s.len() as int) == s);
    }
}

/// `trim` keeps the part of `s` between its first and its last character
/// that is no white space.
pub proof fn lemma_trim(s: Seq<char>)
    ensures
        0 <= trim_lo(s) <= trim_hi(s) <= s.len(),
        trim(s) == s.subrange(trim_lo(s), trim_hi(s)),
        all_whitespace(s.take(trim_lo(s))),
        all_whitespace(s.skip(trim_hi(s))),
        is_trimmed(trim(s)),
{
    lemma_trim_start(s);
    let t = trim_start(s);
    lemma_trim_end(t);
    let lo = trim_lo(s);
    let m = trim_end(t).len() as int;
    assert(t.take(m) == s.subrange(lo, lo + m));
    assert forall|i: int| 0 <= i < s.len() - (lo + m) implies is_whitespace(
        #[trigger] s.skip(lo + m)[i],
    ) by {
        assert(s.skip(lo + m)[i] == t.skip(m)[i]);
    }
    if trim(s).len() > 0 {
        assert(trim(s)[0] == t[0]);
    }
}

/// A text that neither starts nor ends with white space is its own trim.
pub proof fn lemma_trim_of_trimmed(s: Seq<char>)
    requires
        is_trimmed(s),
    ensures
        trim(s) == s,
{
}

/// Trimming twice is trimming once.
pub proof fn lemma_trim_idempotent(s: Seq<char>)
    ensures
        trim(trim(s)) == trim(s),
        is_trimmed(trim(s)),
{
    lemma_trim(s);
    lemma_trim_of_trimmed(trim(s));
}

/// White space in front of a text does not change what `trim_start` leaves.
pub proof fn lemma_trim_start_padded(a: Seq<char>, s: Seq<char>)
    requires
        all_whitespace(a),
    ensures
        trim_start(a + s) == trim_start(s),
    decreases a.len(),
{
    if a.len() == 0 {
        assert(a + s == s);
    } else {
        assert((a + s)[0] == a[0]);
        assert((a + s).skip(1) == a.skip(1) + s);
        assert forall|i: int| 0 <= i < a.skip(1).len() implies is_whitespace(
            #[trigger] a.skip(1)[i],
        ) by {
            assert(a.skip(1)[i] == a[i + 1]);
        }
        lemma_trim_start_padded(a.skip(1), s);
    }
}

/// White space behind a text does not change what `trim_end` leaves.
pub proof fn lemma_trim_end_padded(s: Seq<char>, b: Seq<char>)
    requires
        all_whitespace(b),
    ensures
        trim_end(s + b) == trim_end(s),
    decreases b.len(),
{
    if b.len() == 0 {
        assert(s + b == s);
    } else {
        assert((s + b).last() == b.last());
        assert((s + b).drop_last() == s + b.drop_last());
        assert forall|i: int| 0 <= i < b.drop_last().len() implies is_whitespace(
            #[trigger] b.drop_last()[i],
        ) by {
            assert(b.drop_last()[i] == b[i]);
        }
        lemma_trim_end_padded(s, b.drop_last());
    }
}

/// A text made of white space trims to nothing.
pub proof fn lemma_trim_all_whitespace(s: Seq<char>)
    requires
        all_whitespace(s),
    ensures
        trim(s).len() == 0,
        trim_start(s).len() == 0,
{
    lemma_trim_start_padded(s, Seq::empty());
    assert(s + Seq::<char>::empty() == s);
}

/// A text that is not empty and neither starts nor ends with white space
/// comes back when the white space around it is trimmed.
pub proof fn lemma_trim_padded(a: Seq<char>, s: Seq<char>, b: Seq<char>)
    requires
        all_whitespace(a),
        all_whitespace(b),
        is_trimmed(s),
    ensures
        trim(a + s + b) == s,
{
    assert(a + s + b == a + (s + b));
    lemma_trim_start_padded(a, s + b);
    if s.len() == 0 {
        assert(s + b == b);
        lemma_trim_all_whitespace(b);
    } else {
        assert((s + b)[0] == s[0]);
        lemma_trim_end_padded(s, b);
    }
}

/// White space around a text does not change its trim.
pub proof fn lemma_trim_ignores_padding(a: Seq<char>, s: Seq<char>, b: Seq<char>)
    requires
        all_whitespace(a),
        all_whitespace(b),
    ensures
        trim(a + s + b) == trim(s),
{
    lemma_trim(s);
    let lo = trim_lo(s);
    let hi = trim_hi(s);
    let a2 = a + s.take(lo);
    let b2 = s.skip(hi) + b;
    assert(a + s + b == a2 + trim(s) + b2);
    assert forall|i: int| 0 <= i < a2.len() implies is_whitespace(#[trigger] a2[i]) by {
        if i >= a.len() {
            assert(a2[i] == s.take(lo)[i - a.len()]);
        }
    }
    assert forall|i: int| 0 <= i < b2.len() implies is_whitespace(#[trigger] b2[i]) by {
        if i < s.len() - hi {
            assert(b2[i] == s.skip(hi)[i]);
        } else {
            assert(b2[i] == b[i - (s.len() - hi)]);
        }
    }
    lemma_trim_padded(a2, trim(s), b2);
}

// ---------------------------------------------------------------------------
// Searching in concatenations
// ---------------------------------------------------------------------------

/// The first `c` of a text that lacks `c` up to some `c` is that one.
pub proof fn lemma_position_concat(a: Seq<char>, c: char, b: Seq<char>)
    requires
        lacks(a, c),
    ensures
        position(a + seq![c] + b, c) == a.len(),
    decreases a.len(),
{
    let s = a + seq![c] + b;
    if a.len() == 0 {
        assert(s[0] == c);
    } else {
        assert(s[0] == a[0]);
        assert(s.skip(1) == a.skip(1) + seq![c] + b);
        assert forall|i: int| 0 <= i < a.skip(1).len() implies a.skip(1)[i] != c by {
            assert(a.skip(1)[i] == a[i + 1]);
        }
        lemma_position_concat(a.skip(1), c, b);
    }
}

/// In a text that lacks `c`, `position` finds nothing.
pub proof fn lemma_position_lacks(s: Seq<char>, c: char)
    ensures
        lacks(s, c) <==> position(s, c) == s.len(),
{
    lemma_position(s, c);
    if position(s, c) < s.len() {
        assert(s[position(s, c)] == c);
    }
}

/// The first white space of a text without white space up to some white
/// space is that one.
pub proof fn lemma_whitespace_position_concat(a: Seq<char>, w: char, b: Seq<char>)
    requires
        no_whitespace(a),
        is_whitespace(w),
    ensures
        whitespace_position(a + seq![w] + b) == a.len(),
    decreases a.len(),
{
    let s = a + seq![w] + b;
    if a.len() == 0 {
        assert(s[0] == w);
    } else {
        assert(s[0] == a[0]);
        assert(s.skip(1) == a.skip(1) + seq![w] + b);
        assert forall|i: int| 0 <= i < a.skip(1).len() implies !is_whitespace(
            #[trigger] a.skip(1)[i],
        ) by {
            assert(a.skip(1)[i] == a[i + 1]);
        }
        lemma_whitespace_position_concat(a.skip(1), w, b);
    }
}

/// A text that begins with `p` is `p` followed by the rest.
pub proof fn lemma_strip_prefix_concat(p: Seq<char>, s: Seq<char>)
    ensures
        starts_with(p + s, p),
        strip_prefix(p + s, p) == s,
{
    assert((p + s).take(p.len() as int) == p);
    assert((p + s).skip(p.len() as int) == s);
}

// ---------------------------------------------------------------------------
// Lines
// ---------------------------------------------------------------------------

/// The lines, each without one trailing carriage return.
pub open spec fn strip_all(lines: Seq<Seq<char>>) -> Seq<Seq<char>> {
    Seq::new(lines.len(), |i: int| strip_cr(lines[i]))
}

/// Whether no line holds a line feed.
pub open spec fn are_lines(lines: Seq<Seq<char>>) -> bool {
    forall|i: int| 0 <= i < lines.len() ==> lacks(#[trigger] lines[i], '\n')
}

/// No line of a text holds a line feed.
pub proof fn lemma_lines_are_lines(s: Seq<char>)
    ensures
        are_lines(lines_of(s)),
    decreases s.len(),
{
    if s.len() > 0 {
        lemma_position(s, '\n');
        let n = position(s, '\n');
        if n < s.len() {
            lemma_lines_are_lines(s.skip(n + 1));
            let rest = lines_of(s.skip(n + 1));
            let first = strip_cr(s.take(n));
            assert forall|i: int| 0 <= i < lines_of(s).len() implies lacks(
                #[trigger] lines_of(s)[i],
                '\n',
            ) by {
                if i == 0 {
                    assert(lines_of(s)[0] == first);
                    assert forall|j: int| 0 <= j < first.len() implies first[j] != '\n' by {
                        assert(first[j] == s[j]);
                    }
                } else {
                    assert(lines_of(s)[i] == rest[i - 1]);
                }
            }
        } else {
            assert(lines_of(s) == seq![s]);
        }
    }
}

/// The first line of a text is what stands before its first line feed.
pub proof fn lemma_lines_of_line(x: Seq<char>, rest: Seq<char>)
    requires
        lacks(x, '\n'),
    ensures
        lines_of(x + seq!['\n'] + rest) == seq![strip_cr(x)] + lines_of(rest),
{
    let s = x + seq!['\n'] + rest;
    lemma_position_concat(x, '\n', rest);
    assert(s.take(x.len() as int) == x);
    assert(s.skip(x.len() as int + 1) == rest);
}

/// The lines of lines written one after the other are those lines, each
/// without one trailing carriage return.
pub proof fn lemma_lines_of_unlines(lines: Seq<Seq<char>>, rest: Seq<char>)
    requires
        are_lines(lines),
    ensures
        lines_of(unlines(lines) + rest) == strip_all(lines) + lines_of(rest),
    decreases lines.len(),
{
    if lines.len() == 0 {
        assert(unlines(lines) + rest == rest);
        assert(strip_all(lines) + lines_of(rest) == lines_of(rest));
    } else {
        let init = lines.drop_last();
        let last = lines.last();
        let tail = last + seq!['\n'] + rest;
        assert(unlines(lines) + rest == unlines(init) + tail);
        assert forall|i: int| 0 <= i < init.len() implies lacks(#[trigger] init[i], '\n') by {
            assert(init[i] == lines[i]);
        }
        lemma_lines_of_unlines(init, tail);
        lemma_lines_of_line(last, rest);
        assert(strip_all(init) + (seq![strip_cr(last)] + lines_of(rest)) == strip_all(lines)
            + lines_of(rest));
    }
}

/// Writing two lists of lines one after the other writes their
/// concatenation.
pub proof fn lemma_unlines_concat(a: Seq<Seq<char>>, b: Seq<Seq<char>>)
    ensures
        unlines(a + b) == unlines(a) + unlines(b),
    decreases b.len(),
{
    if b.len() == 0 {
        assert(a + b == a);
        assert(unlines(a) + unlines(b) == unlines(a));
    } else {
        assert((a + b).drop_last() == a + b.drop_last());
        assert((a + b).last() == b.last());
        lemma_unlines_concat(a, b.drop_last());
        assert(unlines(a) + unlines(b.drop_last()) + b.last() + seq!['\n'] == unlines(a) + (
        unlines(b.drop_last()) + b.last() + seq!['\n']));
    }
}

/// Lines joined by line feeds, with one more at the end, are the lines
/// written one after the other.
pub proof fn lemma_join_then_newline(lines: Seq<Seq<char>>)
    requires
        lines.len() > 0,
    ensures
        join_lines(lines) + seq!['\n'] == unlines(lines),
    decreases lines.len(),
{
    if lines.len() == 1 {
        assert(lines.drop_last().len() == 0);
        assert(unlines(lines.drop_last()) == Seq::<char>::empty());
        assert(unlines(lines) == Seq::<char>::empty() + lines[0] + seq!['\n']);
        assert(Seq::<char>::empty() + lines[0] == lines[0]);
    } else {
        lemma_join_then_newline(lines.drop_last());
        assert(join_lines(lines.drop_last()) + seq!['\n'] + lines.last() + seq!['\n']
            == unlines(lines.drop_last()) + lines.last() + seq!['\n']);
    }
}

/// The first line of a list of at least two joined lines stands in front.
pub proof fn lemma_join_first(lines: Seq<Seq<char>>)
    requires
        lines.len() >= 2,
    ensures
        join_lines(lines) == lines[0] + seq!['\n'] + join_lines(lines.skip(1)),
    decreases lines.len(),
{
    if lines.len() == 2 {
        assert(lines.drop_last() == seq![lines[0]]);
        assert(lines.skip(1) == seq![lines[1]]);
        assert(join_lines(lines.drop_last()) == lines[0]);
        assert(join_lines(lines.skip(1)) == lines[1]);
    } else {
        let init = lines.drop_last();
        lemma_join_first(init);
        assert(init.skip(1) == lines.skip(1).drop_last());
        assert(init[0] == lines[0]);
        assert(lines.skip(1).last() == lines.last());
        assert(lines[0] + seq!['\n'] + join_lines(init.skip(1)) + seq!['\n'] + lines.last()
            == lines[0] + seq!['\n'] + (join_lines(init.skip(1)) + seq!['\n'] + lines.last()));
    }
}

// ---------------------------------------------------------------------------
// Blank texts and partial trims
// ---------------------------------------------------------------------------

/// A text is blank exactly when it is made of white space.
pub proof fn lemma_blank_iff_all_whitespace(x: Seq<char>)
    ensures
        is_blank(x) <==> all_whitespace(x),
{
    lemma_trim(x);
    if all_whitespace(x) {
        lemma_trim_all_whitespace(x);
    }
    if is_blank(x) {
        let lo = trim_lo(x);
        assert forall|i: int| 0 <= i < x.len() implies is_whitespace(#[trigger] x[i]) by {
            if i < lo {
                assert(x[i] == x.take(lo)[i]);
            } else {
                assert(x[i] == x.skip(lo)[i - lo]);
            }
        }
    }
}

/// What follows a text that is not blank does not change what `trim_start`
/// removes from it.
pub proof fn lemma_trim_start_keeps(x: Seq<char>, y: Seq<char>)
    requires
        !is_blank(x),
    ensures
        trim_start(x + y) == trim_start(x) + y,
    decreases x.len(),
{
    lemma_blank_iff_all_whitespace(x);
    if x.len() > 0 && is_whitespace(x[0]) {
        let r = x.skip(1);
        assert((x + y)[0] == x[0]);
        assert((x + y).skip(1) == r + y);
        lemma_blank_iff_all_whitespace(r);
        if all_whitespace(r) {
            assert forall|i: int| 0 <= i < x.len() implies is_whitespace(#[trigger] x[i]) by {
                if i > 0 {
                    assert(x[i] == r[i - 1]);
                }
            }
        }
        lemma_trim_start_keeps(r, y);
    } else {
        assert(x.len() > 0);
        assert((x + y)[0] == x[0]);
    }
}

/// What stands before a text that is not blank does not change what
/// `trim_end` removes from it.
pub proof fn lemma_trim_end_keeps(y: Seq<char>, x: Seq<char>)
    requires
        !is_blank(x),
    ensures
        trim_end(y + x) == y + trim_end(x),
    decreases x.len(),
{
    lemma_blank_iff_all_whitespace(x);
    if x.len() > 0 && is_whitespace(x.last()) {
        let r = x.drop_last();
        assert((y + x).last() == x.last());
        assert((y + x).drop_last() == y + r);
        lemma_blank_iff_all_whitespace(r);
        if all_whitespace(r) {
            assert forall|i: int| 0 <= i < x.len() implies is_whitespace(#[trigger] x[i]) by {
                if i < r.len() {
                    assert(x[i] == r[i]);
                }
            }
        }
        lemma_trim_end_keeps(y, r);
    } else {
        assert(x.len() > 0);
        assert((y + x).last() == x.last());
    }
}

/// Trimming one side first does not change the trim.
pub proof fn lemma_trim_of_partial_trim(x: Seq<char>)
    ensures
        trim(trim_start(x)) == trim(x),
        trim(trim_end(x)) == trim(x),
{
    lemma_trim_start(x);
    lemma_trim_end(x);
    let a = x.take(trim_lo(x));
    let b = x.skip(trim_end(x).len() as int);
    assert(x == a + trim_start(x) + Seq::<char>::empty());
    assert(x == Seq::<char>::empty() + trim_end(x) + b);
    lemma_trim_ignores_padding(a, trim_start(x), Seq::empty());
    lemma_trim_ignores_padding(Seq::empty(), trim_end(x), b);
}

/// A trailing carriage return does not change the trim.
pub proof fn lemma_trim_of_strip_cr(x: Seq<char>)
    ensures
        trim(strip_cr(x)) == trim(x),
{
    if x.len() > 0 && x.last() == '\r' {
        let b = seq!['\r'];
        assert(x == Seq::<char>::empty() + x.drop_last() + b);
        assert forall|i: int| 0 <= i < b.len() implies is_whitespace(#[trigger] b[i]) by {}
        lemma_trim_ignores_padding(Seq::empty(), x.drop_last(), b);
    }
}

// ---------------------------------------------------------------------------
// Splitting and joining
// ---------------------------------------------------------------------------

/// Splitting joined lines at the line feeds gives the lines back.
pub proof fn lemma_split_of_join(lines: Seq<Seq<char>>)
    requires
        lines.len() >= 1,
        are_lines(lines),
    ensures
        split_on(join_lines(lines), '\n') == lines,
    decreases lines.len(),
{
    if lines.len() == 1 {
        lemma_position_lacks(lines[0], '\n');
        assert(split_on(lines[0], '\n') == seq![lines[0]]);
        assert(lines == seq![lines[0]]);
    } else {
        lemma_join_first(lines);
        let rest = join_lines(lines.skip(1));
        let s = lines[0] + seq!['\n'] + rest;
        lemma_position_concat(lines[0], '\n', rest);
        assert(s.take(lines[0].len() as int) == lines[0]);
        assert(s.skip(lines[0].len() as int + 1) == rest);
        assert forall|i: int| 0 <= i < lines.skip(1).len() implies lacks(
            #[trigger] lines.skip(1)[i],
            '\n',
        ) by {
            assert(lines.skip(1)[i] == lines[i + 1]);
        }
        lemma_split_of_join(lines.skip(1));
        assert(seq![lines[0]] + lines.skip(1) == lines);
    }
}

/// The pieces of a text between its line feeds hold no line feed, and,
/// joined by line feeds, give the text back.
pub proof fn lemma_join_of_split(s: Seq<char>)
    ensures
        split_on(s, '\n').len() >= 1,
        are_lines(split_on(s, '\n')),
        join_lines(split_on(s, '\n')) == s,
    decreases s.len(),
{
    lemma_position(s, '\n');
    let n = position(s, '\n');
    if n >= s.len() {
        lemma_position_lacks(s, '\n');
        assert(split_on(s, '\n') == seq![s]);
    } else {
        let rest = s.skip(n + 1);
        lemma_join_of_split(rest);
        let pieces = seq![s.take(n)] + split_on(rest, '\n');
        assert(split_on(s, '\n') == pieces);
        assert forall|i: int| 0 <= i < pieces.len() implies lacks(#[trigger] pieces[i], '\n') by {
            if i == 0 {
                assert forall|j: int| 0 <= j < pieces[0].len() implies pieces[0][j] != '\n' by {
                    assert(pieces[0][j] == s[j]);
                }
            } else {
                assert(pieces[i] == split_on(rest, '\n')[i - 1]);
            }
        }
        lemma_join_first(pieces);
        assert(pieces.skip(1) == split_on(rest, '\n'));
        assert(s == s.take(n) + seq!['\n'] + rest);
    }
}

/// The first `c` of a text is the first `c` of whatever begins with that
/// text.
pub proof fn lemma_position_prefix(a: Seq<char>, b: Seq<char>, c: char)
    requires
        position(a, c) < a.len(),
    ensures
        position(a + b, c) == position(a, c),
    decreases a.len(),
{
    if a.len() > 0 {
        assert((a + b)[0] == a[0]);
        if a[0] != c {
            assert((a + b).skip(1) == a.skip(1) + b);
            lemma_position_prefix(a.skip(1), b, c);
        }
    }
}

/// The lines of a text that follows a complete line are the lines of
/// what stands before, then those of the text.
pub proof fn lemma_lines_of_concat(a: Seq<char>, b: Seq<char>)
    requires
        a.len() > 0 ==> a.last() == '\n',
    ensures
        lines_of(a + b) == lines_of(a) + lines_of(b),
    decreases a.len(),
{
    if a.len() == 0 {
        assert(a + b == b);
        assert(lines_of(a) + lines_of(b) == lines_of(b));
    } else {
        lemma_position(a, '\n');
        let n = position(a, '\n');
        if n >= a.len() {
            assert(a[a.len() - 1] != '\n');
        }
        lemma_position_prefix(a, b, '\n');
        let rest = a.skip(n + 1);
        assert((a + b).take(n) == a.take(n));
        assert((a + b).skip(n + 1) == rest + b);
        if rest.len() > 0 {
            assert(rest.last() == a.last());
        }
        lemma_lines_of_concat(rest, b);
        assert(seq![strip_cr(a.take(n))] + (lines_of(rest) + lines_of(b)) == seq![
            strip_cr(a.take(n)),
        ] + lines_of(rest) + lines_of(b));
    }
}

} // verus!
