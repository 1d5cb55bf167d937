//! Deindenting what was deindented.

use crate::deindent::{deindented, render, strip};
use crate::indent::IndentInfo;
use crate::laws::lemma_deindent_minimal;
use crate::lines::{
    is_blank, is_space, leading_space, lemma_blank_lines, lemma_leading_space,
    lemma_leading_space_is, lemma_line_end_bounds, lemma_line_end_first, lemma_line_end_is,
    lemma_line_end_last, lemma_lines_shape, line_end, lines, NEWLINE,
};
use vstd::prelude::*;

verus! {

/// One line: not empty, and with no terminator before its last byte.
pub open spec fn is_line(l: Seq<u8>) -> bool {
    l.len() > 0 && forall|j: int| 0 <= j < l.len() - 1 ==> #[trigger] l[j] != NEWLINE
}

/// Text that a line can follow: empty, or ending in a terminator.
pub open spec fn is_closed(s: Seq<u8>) -> bool {
    s.len() == 0 || s.last() == NEWLINE
}

/// The lines `ls`, each without its first `k` bytes, but for those of which
/// nothing is left.
pub open spec fn stripped(ls: Seq<Seq<u8>>, k: nat) -> Seq<Seq<u8>>
    decreases ls.len(),
{
    if ls.len() == 0 {
        Seq::empty()
    } else if strip(ls.last(), k).len() == 0 {
        stripped(ls.drop_last(), k)
    } else {
        stripped(ls.drop_last(), k).push(strip(ls.last(), k))
    }
}

/// The only line of one line is that line.
pub proof fn lemma_lines_single(l: Seq<u8>)
    requires
        is_line(l),
    ensures
        lines(l) == seq![l],
{
    lemma_line_end_is(l, 0, l.len() as int);
    assert(l.take(l.len() as int) =~= l);
    assert(lines(l.skip(l.len() as int)) =~= Seq::<Seq<u8>>::empty());
    assert(lines(l) =~= seq![l]);
}

/// The lines of a text behind a closed text follow the lines of the closed
/// text.
pub proof fn lemma_lines_append(a: Seq<u8>, b: Seq<u8>)
    requires
        is_closed(a),
    ensures
        lines(a + b) == lines(a) + lines(b),
    decreases a.len(),
{
    if a.len() == 0 {
        assert(a + b =~= b);
        assert(lines(a) + lines(b) =~= lines(b));
    } else {
        let end = line_end(a, 0);
        lemma_line_end_bounds(a, 0);
        lemma_line_end_first(a, 0);
        lemma_line_end_last(a, 0);
        lemma_line_end_is(a + b, 0, end);
        assert((a + b).take(end) =~= a.take(end));
        assert((a + b).skip(end) =~= a.skip(end) + b);
        lemma_lines_append(a.skip(end), b);
        assert(lines(a + b) =~= lines(a) + lines(b));
    }
}

/// Lines as a text falls into them: each one line, and each but the last
/// with its terminator.
pub open spec fn are_lines(ls: Seq<Seq<u8>>) -> bool {
    &&& forall|i: int| 0 <= i < ls.len() ==> is_line(#[trigger] ls[i])
    &&& forall|i: int| 0 <= i < ls.len() - 1 ==> (#[trigger] ls[i]).last() == NEWLINE
}

/// What is left of a line is nothing or a line, and closed where the line
/// was.
pub proof fn lemma_strip_line(l: Seq<u8>, k: nat)
    requires
        is_line(l),
    ensures
        strip(l, k).len() == 0 || is_line(strip(l, k)),
        l.last() == NEWLINE ==> is_closed(strip(l, k)),
{
    if k < l.len() {
        let rest = l.skip(k as int);
        assert forall|j: int| 0 <= j < rest.len() - 1 implies #[trigger] rest[j] != NEWLINE by {
            assert(rest[j] == l[j + k]);
        }
        assert(rest.last() == l.last());
    }
}

/// The lines of rendered lines are what is left of each line, and the
/// rendered text is closed where the last line was.
pub proof fn lemma_render_lines(ls: Seq<Seq<u8>>, k: nat)
    requires
        are_lines(ls),
    ensures
        lines(render(ls, k)) == stripped(ls, k),
        ls.len() > 0 && ls.last().last() == NEWLINE ==> is_closed(render(ls, k)),
    decreases ls.len(),
{
    if ls.len() == 0 {
        assert(lines(render(ls, k)) =~= stripped(ls, k));
    } else {
        let front = ls.drop_last();
        let left = strip(ls.last(), k);
        assert(are_lines(front)) by {
            assert forall|i: int| 0 <= i < front.len() implies is_line(#[trigger] front[i]) by {
                assert(front[i] == ls[i]);
            }
            assert forall|i: int| 0 <= i < front.len() - 1 implies (#[trigger] front[i]).last()
                == NEWLINE by {
                assert(front[i] == ls[i]);
            }
        }
        if front.len() > 0 {
            assert(front.last() == ls[ls.len() - 2]);
        }
        lemma_render_lines(front, k);
        assert(is_closed(render(front, k)));
        assert(is_line(ls[ls.len() - 1]));
        lemma_strip_line(ls.last(), k);
        lemma_lines_append(render(front, k), left);
        if left.len() == 0 {
            assert(lines(left) =~= Seq::<Seq<u8>>::empty());
            assert(render(ls, k) =~= render(front, k));
            assert(lines(render(front, k)) + lines(left) =~= lines(render(front, k)));
        } else {
            lemma_lines_single(left);
            assert(stripped(front, k) + seq![left] =~= stripped(front, k).push(left));
        }
    }
}

/// What is left of the first line comes first.
pub proof fn lemma_stripped_first(ls: Seq<Seq<u8>>, k: nat)
    requires
        ls.len() > 0,
        strip(ls.first(), k).len() > 0,
    ensures
        stripped(ls, k).len() > 0,
        stripped(ls, k).first() == strip(ls.first(), k),
    decreases ls.len(),
{
    let front = ls.drop_last();
    if front.len() > 0 {
        assert(front.first() == ls.first());
        lemma_stripped_first(front, k);
    } else {
        assert(stripped(front, k) =~= Seq::<Seq<u8>>::empty());
    }
}

/// What is left of a line is among the stripped lines.
pub proof fn lemma_stripped_has(ls: Seq<Seq<u8>>, k: nat, i: int)
    requires
        0 <= i < ls.len(),
        strip(ls[i], k).len() > 0,
    ensures
        exists|j: int| 0 <= j < stripped(ls, k).len() && #[trigger] stripped(ls, k)[j] == strip(ls[i], k),
    decreases ls.len(),
{
    let front = ls.drop_last();
    if i == ls.len() - 1 {
        assert(stripped(ls, k)[stripped(ls, k).len() - 1] == strip(ls[i], k));
    } else {
        assert(front[i] == ls[i]);
        lemma_stripped_has(front, k, i);
        let j = choose|j: int|
            0 <= j < stripped(front, k).len() && #[trigger] stripped(front, k)[j] == strip(
                front[i],
                k,
            );
        assert(stripped(ls, k)[j] == strip(ls[i], k));
    }
}

/// Taking no more than its indent from a line with content leaves a line
/// with content, and with that much less indent.
pub proof fn lemma_strip_content(l: Seq<u8>, k: nat)
    requires
        !is_blank(l),
        k <= leading_space(l),
    ensures
        strip(l, k) == l.skip(k as int),
        strip(l, k).len() > 0,
        !is_blank(strip(l, k)),
        leading_space(strip(l, k)) == leading_space(l) - k,
{
    let n = leading_space(l);
    let rest = l.skip(k as int);
    lemma_leading_space(l);
    assert forall|j: int| 0 <= j < n - k implies is_space(#[trigger] rest[j]) by {
        assert(rest[j] == l[j + k]);
    }
    assert(rest[n - k] == l[n as int]);
    lemma_leading_space_is(rest, n - k);
    lemma_leading_space(rest);
}

/// Deindented text has content in its first and in its last line, and a
/// line with content and without indent.
pub proof fn lemma_deindented_lines(s: Seq<u8>, info: IndentInfo)
    requires
        info.describes(lines(s)),
    ensures
        lines(deindented(lines(s), info)).len() > 0,
        !is_blank(lines(deindented(lines(s), info)).first()),
        !is_blank(lines(deindented(lines(s), info)).last()),
        exists|i: int|
            0 <= i < lines(deindented(lines(s), info)).len() && !is_blank(
                #[trigger] lines(deindented(lines(s), info))[i],
            ) && leading_space(lines(deindented(lines(s), info))[i]) == 0,
{
    let ls = lines(s);
    let first = info.first_line as int;
    let shown = ls.subrange(first, info.last_line + 1);
    let k = info.leading_whitespace as nat;
    lemma_lines_shape(s);
    assert(are_lines(shown)) by {
        assert forall|i: int| 0 <= i < shown.len() implies is_line(#[trigger] shown[i]) by {
            assert(shown[i] == ls[first + i]);
        }
        assert forall|i: int| 0 <= i < shown.len() - 1 implies (#[trigger] shown[i]).last()
            == NEWLINE by {
            assert(shown[i] == ls[first + i]);
        }
    }
    lemma_render_lines(shown, k);
    let i = choose|i: int|
        0 <= i < ls.len() && !is_blank(#[trigger] ls[i]) && info.leading_whitespace
            == leading_space(ls[i]);
    assert(shown.first() == ls[first]);
    assert(shown.last() == ls[info.last_line as int]);
    assert(shown[i - first] == ls[i]);
    lemma_strip_content(shown.first(), k);
    lemma_strip_content(shown.last(), k);
    lemma_strip_content(shown[i - first], k);
    lemma_stripped_first(shown, k);
    lemma_stripped_has(shown, k, i - first);
}

/// Deindented text is not blank: it can be scanned again.
pub proof fn lemma_deindented_has_content(s: Seq<u8>, info: IndentInfo)
    requires
        info.describes(lines(s)),
    ensures
        !is_blank(deindented(lines(s), info)),
{
    let out = deindented(lines(s), info);
    lemma_deindented_lines(s, info);
    lemma_blank_lines(out);
    assert(!is_blank(lines(out)[0]));
}

/// Deindenting is idempotent: deindenting deindented text gives it back.
pub proof fn lemma_deindent_idempotent(s: Seq<u8>, info: IndentInfo, again: IndentInfo)
    requires
        info.describes(lines(s)),
        again.describes(lines(deindented(lines(s), info))),
    ensures
        deindented(lines(deindented(lines(s), info)), again) == deindented(lines(s), info),
{
    lemma_deindented_lines(s, info);
    lemma_deindent_minimal(deindented(lines(s), info), again);
}

} // verus!
