//! The line structure of a text, as the rope reports it.
//!
//! A line break is LF, VT, FF, NEL, LINE SEPARATOR, PARAGRAPH SEPARATOR, a
//! CR that is not followed by LF, or the pair CR LF (one break). A line
//! starts at index 0 and right after every line break, and the break belongs
//! to the line that it ends. A text has one line more than it has breaks.
use vstd::prelude::*;

verus! {

/// A char that ends a line on its own (CR is handled apart, because of CR LF).
pub open spec fn is_break_char(c: char) -> bool {
    c == '\n' || c == '\u{0B}' || c == '\u{0C}' || c == '\u{85}' || c == '\u{2028}'
        || c == '\u{2029}'
}

/// A line break ends right before index `k` of `s`.
pub open spec fn break_ends_at(s: Seq<char>, k: int) -> bool {
    &&& 0 < k <= s.len()
    &&& (is_break_char(s[k - 1]) || (s[k - 1] == '\r' && (k == s.len() || s[k] != '\n')))
}

/// Index 0 and every index in `1..=k` at which a line break ends, in order.
pub open spec fn starts_upto(s: Seq<char>, k: nat) -> Seq<int>
    decreases k,
{
    if k == 0 {
        seq![0int]
    } else {
        let prev = starts_upto(s, (k - 1) as nat);
        if break_ends_at(s, k as int) {
            prev.push(k as int)
        } else {
            prev
        }
    }
}

/// The char indices at which the lines of `s` start.
pub open spec fn line_starts(s: Seq<char>) -> Seq<int> {
    starts_upto(s, s.len())
}

/// Number of lines of `s`.
pub open spec fn line_count(s: Seq<char>) -> nat {
    line_starts(s).len()
}

/// Char index at which line `i` starts.
pub open spec fn line_start(s: Seq<char>, i: int) -> int {
    line_starts(s)[i]
}

/// Char index one past the end of line `i` (its line break included).
pub open spec fn line_end(s: Seq<char>, i: int) -> int {
    if i + 1 < line_count(s) {
        line_start(s, i + 1)
    } else {
        s.len() as int
    }
}

/// Number of chars of line `i`, its line break included.
pub open spec fn line_len(s: Seq<char>, i: int) -> int {
    line_end(s, i) - line_start(s, i)
}

/// The chars of line `i`, its line break included.
pub open spec fn line_text(s: Seq<char>, i: int) -> Seq<char> {
    s.subrange(line_start(s, i), line_end(s, i))
}

proof fn lemma_starts_upto(s: Seq<char>, k: nat)
    requires
        k <= s.len(),
    ensures
        starts_upto(s, k).len() >= 1,
        starts_upto(s, k).len() <= k + 1,
        starts_upto(s, k)[0] == 0,
        forall|i: int, j: int|
            0 <= i < j < starts_upto(s, k).len() ==> starts_upto(s, k)[i] < starts_upto(s, k)[j],
        forall|i: int| 0 <= i < starts_upto(s, k).len() ==> 0 <= #[trigger] starts_upto(s, k)[i] <= k,
        forall|i: int|
            1 <= i < starts_upto(s, k).len() ==> break_ends_at(s, #[trigger] starts_upto(s, k)[i]),
        forall|j: int| 0 < j <= k && break_ends_at(s, j) ==> #[trigger] starts_upto(s, k).contains(j),
    decreases k,
{
    if k > 0 {
        lemma_starts_upto(s, (k - 1) as nat);
        let prev = starts_upto(s, (k - 1) as nat);
        assert forall|j: int| 0 < j <= k && break_ends_at(s, j) implies #[trigger] starts_upto(
            s,
            k,
        ).contains(j) by {
            if j < k {
                assert(prev.contains(j));
                let i = choose|i: int| 0 <= i < prev.len() && prev[i] == j;
                if break_ends_at(s, k as int) {
                    assert(starts_upto(s, k) == prev.push(k as int));
                    assert(starts_upto(s, k)[i] == j);
                } else {
                    assert(starts_upto(s, k)[i] == j);
                }
            } else {
                assert(starts_upto(s, k).last() == j);
            }
        }
    }
}

/// The lines start exactly at index 0 and where a line break ends.
pub proof fn law_lines_start_after_breaks(s: Seq<char>)
    ensures
        line_start(s, 0) == 0,
        forall|i: int| 1 <= i < line_count(s) ==> break_ends_at(s, #[trigger] line_start(s, i)),
        forall|j: int|
            0 < j <= s.len() && break_ends_at(s, j) ==> exists|i: int|
                0 <= i < line_count(s) && #[trigger] line_start(s, i) == j,
{
    lemma_starts_upto(s, s.len());
    assert forall|j: int| 0 < j <= s.len() && break_ends_at(s, j) implies exists|i: int|
        0 <= i < line_count(s) && #[trigger] line_start(s, i) == j by {
        assert(line_starts(s).contains(j));
        let i = choose|i: int| 0 <= i < line_starts(s).len() && line_starts(s)[i] == j;
        assert(line_start(s, i) == j);
    }
}

/// The lines of a text start at 0, in strictly increasing order, within the
/// text; there are at most one more lines than chars.
pub proof fn lemma_line_starts(s: Seq<char>)
    ensures
        1 <= line_count(s) <= s.len() + 1,
        line_start(s, 0) == 0,
        forall|i: int, j: int|
            0 <= i < j < line_count(s) ==> line_start(s, i) < line_start(s, j),
        forall|i: int| 0 <= i < line_count(s) ==> 0 <= #[trigger] line_start(s, i) <= s.len(),
{
    lemma_starts_upto(s, s.len());
}

/// Every line lies within the text, and lines follow each other.
pub proof fn lemma_line_bounds(s: Seq<char>, i: int)
    requires
        0 <= i < line_count(s),
    ensures
        0 <= line_start(s, i) <= line_end(s, i) <= s.len(),
        line_len(s, i) >= 0,
        i + 1 < line_count(s) ==> line_end(s, i) == line_start(s, i + 1),
{
    lemma_line_starts(s);
}

/// A position's char index grows with the position: a valid column of an
/// earlier line never lies after the start of a later line.
pub proof fn lemma_line_order(s: Seq<char>, i: int, j: int)
    requires
        0 <= i < j < line_count(s),
    ensures
        line_end(s, i) <= line_start(s, j),
{
    lemma_line_starts(s);
    if i + 1 < j {
        assert(line_start(s, i + 1) < line_start(s, j));
    }
}

/// Lines `0..n` of `s`, joined.
pub open spec fn joined_lines(s: Seq<char>, n: nat) -> Seq<char>
    decreases n,
{
    if n == 0 {
        seq![]
    } else {
        joined_lines(s, (n - 1) as nat) + line_text(s, n - 1)
    }
}

proof fn lemma_joined_lines(s: Seq<char>, n: nat)
    requires
        1 <= n <= line_count(s),
    ensures
        joined_lines(s, n) == s.take(line_end(s, n - 1)),
    decreases n,
{
    lemma_line_bounds(s, n - 1);
    if n > 1 {
        lemma_joined_lines(s, (n - 1) as nat);
        lemma_line_bounds(s, n - 2);
        let a = line_end(s, n - 2);
        let b = line_end(s, n - 1);
        assert(a == line_start(s, n - 1));
        assert(joined_lines(s, n) == joined_lines(s, (n - 1) as nat) + line_text(s, n - 1));
        assert(s.take(a) + s.subrange(a, b) =~= s.take(b));
    } else {
        lemma_line_starts(s);
        assert(joined_lines(s, n) == joined_lines(s, 0) + line_text(s, 0));
        assert(joined_lines(s, n) =~= s.take(line_end(s, n - 1)));
    }
}

/// The lines, line breaks included, joined in order give back the text.
pub proof fn law_lines_join_to_text(s: Seq<char>)
    ensures
        joined_lines(s, line_count(s)) == s,
{
    lemma_line_starts(s);
    lemma_joined_lines(s, line_count(s));
    assert(s.take(s.len() as int) =~= s);
}

/// A char that neither is nor starts a line break.
pub open spec fn is_plain_char(c: char) -> bool {
    !is_break_char(c) && c != '\r'
}

/// `s` with `x` put in at index `i`.
pub open spec fn insert_char_at(s: Seq<char>, i: int, x: char) -> Seq<char> {
    s.take(i) + seq![x] + s.skip(i)
}

/// Index `i` falls between the CR and the LF of a CR LF pair.
pub open spec fn splits_crlf(s: Seq<char>, i: int) -> bool {
    0 < i < s.len() && s[i - 1] == '\r' && s[i] == '\n'
}

/// `v` with every entry past `i` moved up by one.
pub open spec fn shift_after(v: Seq<int>, i: int) -> Seq<int> {
    v.map_values(|e: int| if e > i { e + 1 } else { e })
}

proof fn lemma_insert_breaks(s: Seq<char>, i: int, x: char, k: int)
    requires
        0 <= i <= s.len(),
        is_plain_char(x),
        !splits_crlf(s, i),
    ensures
        k <= i ==> (break_ends_at(insert_char_at(s, i, x), k) == break_ends_at(s, k)),
        k == i + 1 ==> !break_ends_at(insert_char_at(s, i, x), k),
        k >= i + 2 ==> (break_ends_at(insert_char_at(s, i, x), k) == break_ends_at(s, k - 1)),
{
    let t = insert_char_at(s, i, x);
    assert(t.len() == s.len() + 1);
    assert(forall|j: int| 0 <= j < i ==> t[j] == s[j]);
    assert(t[i] == x);
    assert(forall|j: int| i < j < t.len() ==> t[j] == s[j - 1]);
}

proof fn lemma_insert_starts_before(s: Seq<char>, i: int, x: char, k: nat)
    requires
        0 <= i <= s.len(),
        is_plain_char(x),
        !splits_crlf(s, i),
        k <= i,
    ensures
        starts_upto(insert_char_at(s, i, x), k) == starts_upto(s, k),
    decreases k,
{
    if k > 0 {
        lemma_insert_starts_before(s, i, x, (k - 1) as nat);
        lemma_insert_breaks(s, i, x, k as int);
    }
}

proof fn lemma_insert_starts_after(s: Seq<char>, i: int, x: char, k: nat)
    requires
        0 <= i <= k <= s.len(),
        is_plain_char(x),
        !splits_crlf(s, i),
    ensures
        starts_upto(insert_char_at(s, i, x), k + 1) == shift_after(starts_upto(s, k), i),
    decreases k,
{
    let t = insert_char_at(s, i, x);
    lemma_starts_upto(s, k);
    if k == i {
        lemma_insert_starts_before(s, i, x, k);
        lemma_insert_breaks(s, i, x, (k + 1) as int);
        assert(shift_after(starts_upto(s, k), i) =~= starts_upto(s, k));
    } else {
        lemma_insert_starts_after(s, i, x, (k - 1) as nat);
        lemma_insert_breaks(s, i, x, (k + 1) as int);
        let prev = starts_upto(s, (k - 1) as nat);
        if break_ends_at(s, k as int) {
            assert(shift_after(prev.push(k as int), i) =~= shift_after(prev, i).push((k + 1) as int));
        }
    }
}

/// Putting in a plain char that does not split a CR LF pair keeps the line
/// breaks: the lines that start at or before the char keep their starts,
/// the later ones move up by one.
pub proof fn lemma_insert_line_starts(s: Seq<char>, i: int, x: char)
    requires
        0 <= i <= s.len(),
        is_plain_char(x),
        !splits_crlf(s, i),
    ensures
        line_starts(insert_char_at(s, i, x)) == shift_after(line_starts(s), i),
        line_count(insert_char_at(s, i, x)) == line_count(s),
{
    lemma_insert_starts_after(s, i, x, s.len());
    assert(insert_char_at(s, i, x).len() == s.len() + 1);
}

/// `trim_len` chars of `t` stand before a tail of CR and LF chars, and the
/// last of them, if any, is neither.
pub open spec fn is_trimmed_len(t: Seq<char>, n: int) -> bool {
    &&& 0 <= n <= t.len()
    &&& forall|j: int| n <= j < t.len() ==> #[trigger] t[j] == '\n' || t[j] == '\r'
    &&& n > 0 ==> t[n - 1] != '\n' && t[n - 1] != '\r'
}

proof fn lemma_starts_prefix(s: Seq<char>, k: nat, k2: nat)
    requires
        k <= k2 <= s.len(),
    ensures
        starts_upto(s, k).len() <= starts_upto(s, k2).len(),
        starts_upto(s, k2).take(starts_upto(s, k).len() as int) == starts_upto(s, k),
        forall|m: int|
            starts_upto(s, k).len() <= m < starts_upto(s, k2).len() ==> #[trigger] starts_upto(
                s,
                k2,
            )[m] > k,
    decreases k2,
{
    if k2 > k {
        lemma_starts_prefix(s, k, (k2 - 1) as nat);
        let prev = starts_upto(s, (k2 - 1) as nat);
        let n = starts_upto(s, k).len() as int;
        if break_ends_at(s, k2 as int) {
            assert(starts_upto(s, k2) == prev.push(k2 as int));
            assert(starts_upto(s, k2).take(n) =~= prev.take(n));
        }
    } else {
        assert(starts_upto(s, k2).take(starts_upto(s, k).len() as int) =~= starts_upto(s, k2));
    }
}

/// The line that index `i` falls in: the last one starting at or before it.
pub open spec fn line_of(s: Seq<char>, i: int) -> int {
    starts_upto(s, i as nat).len() - 1
}

/// Index `i` of a text (or its end) lies in exactly one line: the one that
/// `line_of` names, which starts at or before `i`, and whose successor, if
/// any, starts after `i`. The lines up to it start as in the prefix of
/// length `i`.
pub proof fn lemma_line_of(s: Seq<char>, i: int)
    requires
        0 <= i <= s.len(),
    ensures
        0 <= line_of(s, i) < line_count(s),
        line_start(s, line_of(s, i)) <= i,
        line_of(s, i) + 1 < line_count(s) ==> line_start(s, line_of(s, i) + 1) > i,
        line_starts(s).take(line_of(s, i) + 1) == starts_upto(s, i as nat),
{
    lemma_starts_prefix(s, i as nat, s.len());
    lemma_starts_upto(s, i as nat);
    let n = starts_upto(s, i as nat).len() as int;
    assert(line_starts(s)[n - 1] == starts_upto(s, i as nat)[n - 1]);
}

/// A line that starts at or before `i` while the next one, if any, starts
/// after it, is the line of `i`.
pub proof fn lemma_line_of_unique(s: Seq<char>, i: int, l: int)
    requires
        0 <= i <= s.len(),
        0 <= l < line_count(s),
        line_start(s, l) <= i,
        l + 1 < line_count(s) ==> line_start(s, l + 1) > i,
    ensures
        line_of(s, i) == l,
{
    lemma_line_of(s, i);
    lemma_line_starts(s);
    let m = line_of(s, i);
    if m < l {
        assert(line_start(s, m + 1) <= line_start(s, l));
    } else if m > l {
        assert(line_start(s, l + 1) <= line_start(s, m));
    }
}

/// The text's only line break is LF: every char is LF or plain.
pub open spec fn lf_only(s: Seq<char>) -> bool {
    forall|k: int| 0 <= k < s.len() ==> #[trigger] s[k] == '\n' || is_plain_char(s[k])
}

pub proof fn lemma_lf_breaks(s: Seq<char>, k: int)
    requires
        lf_only(s),
    ensures
        break_ends_at(s, k) <==> (0 < k <= s.len() && s[k - 1] == '\n'),
{
    if 0 < k <= s.len() {
        assert(s[k - 1] == '\n' || is_plain_char(s[k - 1]));
    }
}

proof fn lemma_newline_starts_before(s: Seq<char>, i: int, k: nat)
    requires
        lf_only(s),
        0 <= i <= s.len(),
        k <= i,
    ensures
        starts_upto(insert_char_at(s, i, '\n'), k) == starts_upto(s, k),
    decreases k,
{
    let t = insert_char_at(s, i, '\n');
    if k > 0 {
        lemma_newline_starts_before(s, i, (k - 1) as nat);
        lemma_lf_breaks(s, k as int);
        lemma_lf_keeps_insert(s, i, '\n');
        lemma_lf_breaks(t, k as int);
        assert(t[k - 1] == s[k - 1]);
    }
}

pub proof fn lemma_lf_keeps_insert(s: Seq<char>, i: int, x: char)
    requires
        lf_only(s),
        0 <= i <= s.len(),
        x == '\n' || is_plain_char(x),
    ensures
        lf_only(insert_char_at(s, i, x)),
{
    let t = insert_char_at(s, i, x);
    assert forall|k: int| 0 <= k < t.len() implies #[trigger] t[k] == '\n' || is_plain_char(t[k]) by {
        if k < i {
            assert(t[k] == s[k]);
        } else if k > i {
            assert(t[k] == s[k - 1]);
        }
    }
}

proof fn lemma_newline_count_after(s: Seq<char>, i: int, k: nat)
    requires
        lf_only(s),
        0 <= i <= k <= s.len(),
    ensures
        starts_upto(insert_char_at(s, i, '\n'), k + 1).len() == starts_upto(s, k).len() + 1,
    decreases k,
{
    let t = insert_char_at(s, i, '\n');
    lemma_lf_keeps_insert(s, i, '\n');
    if k == i {
        lemma_newline_starts_before(s, i, k);
        lemma_lf_breaks(t, (k + 1) as int);
    } else {
        lemma_newline_count_after(s, i, (k - 1) as nat);
        lemma_lf_breaks(t, (k + 1) as int);
        lemma_lf_breaks(s, k as int);
        assert(t[k as int] == s[k - 1]);
    }
}

/// Putting an LF into a text whose only line break is LF splits the line
/// of the insertion point: one line more, the lines up to that one keep
/// their starts, and the next line starts right after the LF.
pub proof fn lemma_insert_newline(s: Seq<char>, i: int)
    requires
        lf_only(s),
        0 <= i <= s.len(),
    ensures
        lf_only(insert_char_at(s, i, '\n')),
        line_count(insert_char_at(s, i, '\n')) == line_count(s) + 1,
        forall|j: int|
            0 <= j <= line_of(s, i) ==> #[trigger] line_start(insert_char_at(s, i, '\n'), j)
                == line_start(s, j),
        line_start(insert_char_at(s, i, '\n'), line_of(s, i) + 1) == i + 1,
{
    let t = insert_char_at(s, i, '\n');
    lemma_lf_keeps_insert(s, i, '\n');
    lemma_newline_count_after(s, i, s.len());
    assert(t.len() == s.len() + 1);
    lemma_newline_starts_before(s, i, i as nat);
    lemma_lf_breaks(t, i + 1);
    let p = starts_upto(t, (i + 1) as nat);
    assert(p == starts_upto(s, i as nat).push(i + 1));
    lemma_starts_prefix(t, (i + 1) as nat, t.len());
    lemma_line_of(s, i);
    let l = line_of(s, i);
    assert(line_starts(t).take(p.len() as int) == p);
    assert forall|j: int| 0 <= j <= l implies #[trigger] line_start(t, j) == line_start(s, j) by {
        assert(line_starts(t)[j] == p[j]);
        assert(line_starts(s)[j] == line_starts(s).take(l + 1)[j]);
    }
    assert(line_starts(t)[l + 1] == p[l + 1]);
}

/// No line break ends strictly inside a line.
pub proof fn lemma_no_break_inside(s: Seq<char>, j: int, k: int)
    requires
        0 <= j < line_count(s),
        line_start(s, j) < k < line_end(s, j),
    ensures
        !break_ends_at(s, k),
{
    lemma_line_starts(s);
    law_lines_start_after_breaks(s);
    if break_ends_at(s, k) {
        let i = choose|i: int| 0 <= i < line_count(s) && #[trigger] line_start(s, i) == k;
        if i <= j {
            assert(line_start(s, i) <= line_start(s, j));
        } else if i > j + 1 {
            assert(line_start(s, j + 1) < line_start(s, i));
        }
    }
}

/// A line break that ends after a line's start, with none in between, is
/// where the next line starts.
pub proof fn lemma_next_start(s: Seq<char>, j: int, e: int)
    requires
        0 <= j,
        j + 1 < line_count(s),
        line_start(s, j) < e <= s.len(),
        break_ends_at(s, e),
        forall|k: int| line_start(s, j) < k < e ==> !#[trigger] break_ends_at(s, k),
    ensures
        line_start(s, j + 1) == e,
{
    lemma_line_starts(s);
    law_lines_start_after_breaks(s);
    let i = choose|i: int| 0 <= i < line_count(s) && #[trigger] line_start(s, i) == e;
    if i <= j {
        assert(line_start(s, i) <= line_start(s, j));
    } else if i > j + 1 {
        assert(line_start(s, j + 1) < line_start(s, i));
        assert(break_ends_at(s, line_start(s, j + 1)));
    }
}

/// `s` without the chars at indices `a..b`.
pub open spec fn cut(s: Seq<char>, a: int, b: int) -> Seq<char> {
    s.take(a) + s.skip(b)
}

/// Cutting `a..b` does not bring a CR right before an LF.
pub open spec fn cut_keeps_crlf_apart(s: Seq<char>, a: int, b: int) -> bool {
    !(0 < a && s[a - 1] == '\r' && b < s.len() && s[b] == '\n')
}

proof fn lemma_cut_breaks(s: Seq<char>, a: int, b: int, k: int)
    requires
        0 <= a < b <= s.len(),
        forall|q: int| a < q < b ==> !#[trigger] break_ends_at(s, q),
        break_ends_at(s, b),
        0 < a && s[a - 1] == '\r' ==> break_ends_at(s, a),
        cut_keeps_crlf_apart(s, a, b),
    ensures
        k <= a ==> (break_ends_at(cut(s, a, b), k) == break_ends_at(s, k)),
        k > a ==> (break_ends_at(cut(s, a, b), k) == break_ends_at(s, k + (b - a))),
{
    let u = cut(s, a, b);
    let d = b - a;
    assert(u.len() == s.len() - d);
    assert(forall|q: int| 0 <= q < a ==> u[q] == s[q]);
    assert(forall|q: int| a <= q < u.len() ==> u[q] == s[q + d]);
}

proof fn lemma_cut_starts_before(s: Seq<char>, a: int, b: int, k: nat)
    requires
        0 <= a < b <= s.len(),
        forall|q: int| a < q < b ==> !#[trigger] break_ends_at(s, q),
        break_ends_at(s, b),
        0 < a && s[a - 1] == '\r' ==> break_ends_at(s, a),
        cut_keeps_crlf_apart(s, a, b),
        k <= a,
    ensures
        starts_upto(cut(s, a, b), k) == starts_upto(s, k),
    decreases k,
{
    if k > 0 {
        lemma_cut_starts_before(s, a, b, (k - 1) as nat);
        lemma_cut_breaks(s, a, b, k as int);
    }
}

proof fn lemma_cut_starts_gap(s: Seq<char>, a: int, b: int, k: nat)
    requires
        0 <= a <= k < b <= s.len(),
        forall|q: int| a < q < b ==> !#[trigger] break_ends_at(s, q),
    ensures
        starts_upto(s, k) == starts_upto(s, a as nat),
    decreases k,
{
    if k > a {
        lemma_cut_starts_gap(s, a, b, (k - 1) as nat);
    }
}

proof fn lemma_cut_count(s: Seq<char>, a: int, b: int, k: nat)
    requires
        0 <= a < b <= s.len(),
        forall|q: int| a < q < b ==> !#[trigger] break_ends_at(s, q),
        break_ends_at(s, b),
        0 < a && s[a - 1] == '\r' ==> break_ends_at(s, a),
        cut_keeps_crlf_apart(s, a, b),
        a <= k <= s.len() - (b - a),
    ensures
        starts_upto(s, (k + (b - a)) as nat).len() == starts_upto(cut(s, a, b), k).len() + 1,
    decreases k,
{
    if k == a {
        lemma_cut_starts_before(s, a, b, a as nat);
        lemma_cut_starts_gap(s, a, b, (b - 1) as nat);
    } else {
        lemma_cut_count(s, a, b, (k - 1) as nat);
        lemma_cut_breaks(s, a, b, k as int);
    }
}

/// Cutting out the line break that ends line `j`, with `n` the number of
/// chars of the line before its trailing CR and LF chars: the text has one
/// line fewer, and line `j` starts where it did and is its part before the
/// break followed by the old line `j + 1`.
pub proof fn lemma_join_lines(s: Seq<char>, j: int, n: int)
    requires
        0 <= j,
        j + 1 < line_count(s),
        is_trimmed_len(line_text(s, j), n),
        n < line_len(s, j),
        cut_keeps_crlf_apart(s, line_start(s, j) + n, line_start(s, j + 1)),
    ensures
        line_count(cut(s, line_start(s, j) + n, line_start(s, j + 1))) == line_count(s) - 1,
        line_start(cut(s, line_start(s, j) + n, line_start(s, j + 1)), j) == line_start(s, j),
        line_text(cut(s, line_start(s, j) + n, line_start(s, j + 1)), j) == line_text(s, j).take(n)
            + line_text(s, j + 1),
{
    lemma_line_starts(s);
    lemma_line_bounds(s, j);
    lemma_line_bounds(s, j + 1);
    law_lines_start_after_breaks(s);
    let t = line_text(s, j);
    let a = line_start(s, j) + n;
    let b = line_start(s, j + 1);
    let d = b - a;
    let u = cut(s, a, b);
    assert forall|q: int| a < q < b implies !#[trigger] break_ends_at(s, q) by {
        lemma_no_break_inside(s, j, q);
    }
    assert(break_ends_at(s, b));
    if 0 < a && s[a - 1] == '\r' {
        if n > 0 {
            assert(t[n - 1] == s[a - 1]);
        } else {
            assert(j > 0);
            assert(break_ends_at(s, line_start(s, j)));
        }
    }
    assert(u.len() == s.len() - d);
    lemma_cut_count(s, a, b, u.len());
    assert(line_count(u) == line_count(s) - 1);
    lemma_cut_starts_before(s, a, b, a as nat);
    lemma_line_of_unique(s, a, j);
    lemma_line_of(s, a);
    lemma_line_of(u, a);
    assert(line_starts(u).take(line_of(u, a) + 1) == line_starts(s).take(j + 1));
    assert(line_of(u, a) == j);
    assert(line_start(u, j) == line_starts(u).take(j + 1)[j]);
    assert(line_start(u, j) == line_start(s, j));
    lemma_line_starts(u);
    if j + 2 < line_count(s) {
        let e = line_start(s, j + 2) - d;
        lemma_line_bounds(s, j + 2);
        assert(break_ends_at(s, line_start(s, j + 2)));
        lemma_cut_breaks(s, a, b, e);
        assert forall|k: int| line_start(u, j) < k < e implies !#[trigger] break_ends_at(u, k) by {
            lemma_cut_breaks(s, a, b, k);
            if k <= a {
                if k < a || n < line_len(s, j) {
                    lemma_no_break_inside(s, j, k);
                }
            } else {
                lemma_no_break_inside(s, j + 1, k + d);
            }
        }
        lemma_next_start(u, j, e);
        assert(line_end(u, j) == line_end(s, j + 1) - d);
    } else {
        assert(line_end(u, j) == line_end(s, j + 1) - d);
    }
    assert(line_text(u, j) =~= t.take(n) + line_text(s, j + 1));
}

} // verus!
