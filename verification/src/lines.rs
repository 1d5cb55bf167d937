//! Lines of a byte sequence, and the whitespace at their start.
//!
//! A line runs up to and including its terminator, or to the end of the
//! text where the last line has none. Text that ends in a terminator has no
//! empty line after it.

use vstd::prelude::*;

verus! {

/// The line terminator.
pub const NEWLINE: u8 = 0x0a;

/// ASCII whitespace: space, tab, line feed, vertical tab, form feed and
/// carriage return.
pub open spec fn is_space(b: u8) -> bool {
    b == 0x20 || (0x09 <= b && b <= 0x0d)
}

/// Where the line that starts at `start` ends: just behind the first
/// terminator at or after `start`, or at the end of `s` where there is none.
pub open spec fn line_end(s: Seq<u8>, start: int) -> int
    decreases s.len() - start,
{
    if start < 0 || start >= s.len() {
        s.len() as int
    } else if s[start] == NEWLINE {
        start + 1
    } else {
        line_end(s, start + 1)
    }
}

/// The lines of `s`, in order, each with its terminator.
pub open spec fn lines(s: Seq<u8>) -> Seq<Seq<u8>>
    decreases s.len(),
    via lines_decreases
{
    if s.len() == 0 {
        Seq::empty()
    } else {
        seq![s.take(line_end(s, 0))] + lines(s.skip(line_end(s, 0)))
    }
}

#[via_fn]
proof fn lines_decreases(s: Seq<u8>) {
    if s.len() != 0 {
        lemma_line_end_bounds(s, 0);
    }
}

/// The number of whitespace bytes at the start of `l`.
pub open spec fn leading_space(l: Seq<u8>) -> nat
    decreases l.len(),
{
    if l.len() > 0 && is_space(l[0]) {
        1 + leading_space(l.drop_first())
    } else {
        0
    }
}

/// A line of whitespace only. The terminator is whitespace itself, so a
/// line is blank with it exactly when it is blank without it.
pub open spec fn is_blank(l: Seq<u8>) -> bool {
    forall|i: int| 0 <= i < l.len() ==> is_space(#[trigger] l[i])
}

/// A line that starts inside the text ends behind its start and inside the
/// text.
pub proof fn lemma_line_end_bounds(s: Seq<u8>, start: int)
    requires
        0 <= start < s.len(),
    ensures
        start < line_end(s, start) <= s.len(),
    decreases s.len() - start,
{
    if s[start] != NEWLINE {
        if start + 1 < s.len() {
            lemma_line_end_bounds(s, start + 1);
        } else {
            assert(line_end(s, start + 1) == s.len());
        }
    }
}

/// A line holds no terminator before its last byte, and stops short of the
/// end of the text only behind a terminator.
pub proof fn lemma_line_end_is(s: Seq<u8>, start: int, end: int)
    requires
        0 <= start < end <= s.len(),
        forall|j: int| start <= j < end - 1 ==> s[j] != NEWLINE,
        end == s.len() || s[end - 1] == NEWLINE,
    ensures
        line_end(s, start) == end,
    decreases end - start,
{
    if start + 1 < end {
        lemma_line_end_is(s, start + 1, end);
    } else if s[start] != NEWLINE {
        assert(line_end(s, start + 1) == s.len());
    }
}

/// A line holds no terminator before its last byte.
pub proof fn lemma_line_end_first(s: Seq<u8>, start: int)
    requires
        0 <= start < s.len(),
    ensures
        forall|j: int| start <= j < line_end(s, start) - 1 ==> s[j] != NEWLINE,
    decreases s.len() - start,
{
    if s[start] != NEWLINE {
        if start + 1 < s.len() {
            lemma_line_end_first(s, start + 1);
        } else {
            assert(line_end(s, start + 1) == s.len());
        }
    }
}

/// A line ends at the end of the text or behind a terminator.
pub proof fn lemma_line_end_last(s: Seq<u8>, start: int)
    requires
        0 <= start < s.len(),
    ensures
        line_end(s, start) == s.len() || s[line_end(s, start) - 1] == NEWLINE,
    decreases s.len() - start,
{
    if s[start] != NEWLINE {
        if start + 1 < s.len() {
            lemma_line_end_last(s, start + 1);
        } else {
            assert(line_end(s, start + 1) == s.len());
        }
    }
}

/// The line that starts at `start` is the first line of what follows
/// `start`.
pub proof fn lemma_line_end_skip(s: Seq<u8>, pos: int, start: int)
    requires
        0 <= pos <= start <= s.len(),
    ensures
        line_end(s.skip(pos), start - pos) == line_end(s, start) - pos,
    decreases s.len() - start,
{
    if start < s.len() && s[start] != NEWLINE {
        lemma_line_end_skip(s, pos, start + 1);
    }
}

/// The lines from a line's start on are that line and the lines from its end
/// on.
pub proof fn lemma_lines_step(s: Seq<u8>, pos: int)
    requires
        0 <= pos < s.len(),
    ensures
        pos < line_end(s, pos) <= s.len(),
        lines(s.skip(pos)) == seq![s.subrange(pos, line_end(s, pos))] + lines(
            s.skip(line_end(s, pos)),
        ),
{
    let end = line_end(s, pos);
    let rest = s.skip(pos);
    lemma_line_end_bounds(s, pos);
    lemma_line_end_skip(s, pos, pos);
    assert(rest.take(end - pos) =~= s.subrange(pos, end));
    assert(rest.skip(end - pos) =~= s.skip(end));
}

/// No line is empty, a line holds no terminator before its last byte, and
/// every line but the last ends in one.
pub proof fn lemma_lines_shape(s: Seq<u8>)
    ensures
        lines(s).len() <= s.len(),
        forall|i: int| 0 <= i < lines(s).len() ==> (#[trigger] lines(s)[i]).len() > 0,
        forall|i: int, j: int|
            0 <= i < lines(s).len() && 0 <= j < lines(s)[i].len() - 1 ==> (
            #[trigger] lines(s)[i][j]) != NEWLINE,
        forall|i: int| 0 <= i < lines(s).len() - 1 ==> (#[trigger] lines(s)[i]).last() == NEWLINE,
        s.len() > 0 ==> lines(s).len() > 0 && lines(s).last().last() == s.last(),
    decreases s.len(),
{
    if s.len() != 0 {
        let end = line_end(s, 0);
        let rest = lines(s.skip(end));
        lemma_line_end_bounds(s, 0);
        lemma_line_end_last(s, 0);
        lemma_line_end_first(s, 0);
        lemma_lines_shape(s.skip(end));
        assert(lines(s)[0] == s.take(end));
        assert forall|i: int| 0 < i < lines(s).len() implies #[trigger] lines(s)[i] == rest[i - 1] by {}
        assert forall|i: int, j: int|
            0 <= i < lines(s).len() && 0 <= j < lines(s)[i].len() - 1 implies (
        #[trigger] lines(s)[i][j]) != NEWLINE by {
            if i > 0 {
                assert(lines(s)[i] == rest[i - 1]);
                assert(rest[i - 1][j] != NEWLINE);
            }
        }
        assert forall|i: int| 0 <= i < lines(s).len() - 1 implies (#[trigger] lines(s)[i]).last()
            == NEWLINE by {
            if i > 0 {
                assert(lines(s)[i] == rest[i - 1]);
            } else {
                assert(rest.len() > 0);
                if end == s.len() {
                    assert(s.skip(end).len() == 0);
                }
            }
        }
        if rest.len() > 0 {
            assert(lines(s).last() == rest.last());
            assert(s.skip(end).len() > 0) by {
                if s.skip(end).len() == 0 {
                    assert(lines(s.skip(end)).len() == 0);
                }
            }
            assert(s.skip(end).last() == s.last());
        } else {
            assert(end == s.len()) by {
                if end < s.len() {
                    assert(s.skip(end).len() > 0);
                }
            }
            assert(s.take(end) =~= s);
        }
    }
}

/// Every line of a text is blank exactly when every byte of the text is
/// whitespace.
pub proof fn lemma_blank_lines(s: Seq<u8>)
    ensures
        is_blank(s) <==> forall|i: int| 0 <= i < lines(s).len() ==> is_blank(#[trigger] lines(s)[i]),
    decreases s.len(),
{
    if s.len() != 0 {
        let end = line_end(s, 0);
        let head = s.take(end);
        let tail = s.skip(end);
        let rest = lines(tail);
        lemma_line_end_bounds(s, 0);
        lemma_blank_lines(tail);
        assert(lines(s)[0] == head);
        assert forall|i: int| 0 <= i < rest.len() implies #[trigger] rest[i] == lines(s)[i + 1] by {}
        if is_blank(s) {
            assert forall|j: int| 0 <= j < tail.len() implies is_space(#[trigger] tail[j]) by {
                assert(tail[j] == s[j + end]);
            }
            assert forall|i: int| 0 <= i < lines(s).len() implies is_blank(
                #[trigger] lines(s)[i],
            ) by {
                if i == 0 {
                    assert forall|j: int| 0 <= j < head.len() implies is_space(
                        #[trigger] head[j],
                    ) by {
                        assert(head[j] == s[j]);
                    }
                } else {
                    assert(lines(s)[i] == rest[i - 1]);
                }
            }
        }
        if forall|i: int| 0 <= i < lines(s).len() ==> is_blank(#[trigger] lines(s)[i]) {
            assert(is_blank(lines(s)[0]));
            assert forall|i: int| 0 <= i < rest.len() implies is_blank(#[trigger] rest[i]) by {
                assert(is_blank(lines(s)[i + 1]));
            }
            assert forall|j: int| 0 <= j < s.len() implies is_space(#[trigger] s[j]) by {
                if j < end {
                    assert(s[j] == head[j]);
                } else {
                    assert(s[j] == tail[j - end]);
                }
            }
        }
    }
}

/// Every byte before `n` in `l` is whitespace, and the one at `n`, if there is
/// one, is not: then `l` starts with `n` whitespace bytes.
pub proof fn lemma_leading_space_is(l: Seq<u8>, n: int)
    requires
        0 <= n <= l.len(),
        forall|j: int| 0 <= j < n ==> is_space(#[trigger] l[j]),
        n == l.len() || !is_space(l[n]),
    ensures
        leading_space(l) == n,
    decreases n,
{
    if n > 0 {
        let rest = l.drop_first();
        assert forall|j: int| 0 <= j < n - 1 implies is_space(#[trigger] rest[j]) by {
            assert(rest[j] == l[j + 1]);
        }
        lemma_leading_space_is(rest, n - 1);
    }
}

/// The whitespace at the start of a line is a run of whitespace bytes that
/// stops at the line's end or before a byte that is none.
pub proof fn lemma_leading_space(l: Seq<u8>)
    ensures
        leading_space(l) <= l.len(),
        forall|j: int| 0 <= j < leading_space(l) ==> is_space(#[trigger] l[j]),
        leading_space(l) < l.len() ==> !is_space(l[leading_space(l) as int]),
        is_blank(l) <==> leading_space(l) == l.len(),
    decreases l.len(),
{
    if l.len() > 0 && is_space(l[0]) {
        let rest = l.drop_first();
        lemma_leading_space(rest);
        assert forall|j: int| 0 <= j < leading_space(l) implies is_space(#[trigger] l[j]) by {
            if j > 0 {
                assert(l[j] == rest[j - 1]);
            }
        }
        if leading_space(l) < l.len() {
            assert(l[leading_space(l) as int] == rest[leading_space(rest) as int]);
        }
    }
}

/// Whitespace at the end of a line, such as its terminator, changes neither
/// whether the line is blank nor, where it is not, the whitespace at its
/// start.
pub proof fn lemma_trailing_space(l: Seq<u8>, end: Seq<u8>)
    requires
        is_blank(end),
    ensures
        is_blank(l + end) <==> is_blank(l),
        !is_blank(l) ==> leading_space(l + end) == leading_space(l),
{
    let whole = l + end;
    if is_blank(whole) {
        assert forall|i: int| 0 <= i < l.len() implies is_space(#[trigger] l[i]) by {
            assert(l[i] == whole[i]);
        }
    }
    if is_blank(l) {
        assert forall|i: int| 0 <= i < whole.len() implies is_space(#[trigger] whole[i]) by {
            if i >= l.len() {
                assert(whole[i] == end[i - l.len()]);
            }
        }
    } else {
        let n = leading_space(l);
        lemma_leading_space(l);
        assert forall|j: int| 0 <= j < n implies is_space(#[trigger] whole[j]) by {
            assert(whole[j] == l[j]);
        }
        assert(whole[n as int] == l[n as int]);
        lemma_leading_space_is(whole, n as int);
    }
}

/// Tells whether `b` is an ASCII whitespace byte.
pub fn is_ascii_space(b: u8) -> (r: bool)
    ensures
        r == is_space(b),
{
    b == 0x20 || (0x09 <= b && b <= 0x0d)
}

/// Finds the end of the line that starts at `start`.
pub fn find_line_end(bytes: &[u8], start: usize) -> (end: usize)
    requires
        start < bytes@.len(),
    ensures
        end == line_end(bytes@, start as int),
        start < end <= bytes@.len(),
{
    let mut end: usize = start;
    while end < bytes.len() && bytes[end] != NEWLINE
        invariant
            start <= end <= bytes@.len(),
            forall|j: int| start <= j < end ==> bytes@[j] != NEWLINE,
        decreases bytes@.len() - end,
    {
        end += 1;
    }
    if end < bytes.len() {
        end += 1;
    }
    proof {
        lemma_line_end_is(bytes@, start as int, end as int);
    }
    end
}

/// Counts the whitespace bytes at the start of `bytes[start..end]`.
pub fn count_leading_space(bytes: &[u8], start: usize, end: usize) -> (n: usize)
    requires
        start <= end <= bytes@.len(),
    ensures
        n == leading_space(bytes@.subrange(start as int, end as int)),
        n <= end - start,
{
    let ghost l = bytes@.subrange(start as int, end as int);
    let mut n: usize = 0;
    while n < end - start && is_ascii_space(bytes[start + n])
        invariant
            start <= end <= bytes@.len(),
            n <= end - start,
            l == bytes@.subrange(start as int, end as int),
            forall|j: int| 0 <= j < n ==> is_space(#[trigger] l[j]),
        decreases end - start - n,
    {
        n += 1;
    }
    proof {
        lemma_leading_space_is(l, n as int);
    }
    n
}

} // verus!
