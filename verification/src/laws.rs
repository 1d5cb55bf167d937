//! What holds of lines, of indent information and of deindented text,
//! whatever the text.

use crate::deindent::{deindented, render, strip};
use crate::indent::IndentInfo;
use crate::lines::{
    is_blank, leading_space, lemma_leading_space, lemma_line_end_bounds, lemma_lines_shape,
    line_end, lines, NEWLINE,
};
use vstd::prelude::*;

verus! {

/// Rendering lines one group behind the other is rendering them all.
pub proof fn lemma_render_concat(a: Seq<Seq<u8>>, b: Seq<Seq<u8>>, k: nat)
    ensures
        render(a + b, k) == render(a, k) + render(b, k),
    decreases b.len(),
{
    if b.len() == 0 {
        assert(a + b =~= a);
        assert(render(a, k) + render(b, k) =~= render(a, k));
    } else {
        lemma_render_concat(a, b.drop_last(), k);
        assert((a + b).drop_last() =~= a + b.drop_last());
        assert((a + b).last() == b.last());
        assert(render(a + b, k) =~= render(a, k) + render(b, k));
    }
}

/// The lines of a text, one behind the other, are the text.
pub proof fn lemma_lines_join(s: Seq<u8>)
    ensures
        render(lines(s), 0) == s,
    decreases s.len(),
{
    if s.len() == 0 {
        assert(render(lines(s), 0) =~= s);
    } else {
        let end = line_end(s, 0);
        let head = seq![s.take(end)];
        lemma_line_end_bounds(s, 0);
        lemma_lines_join(s.skip(end));
        lemma_render_concat(head, lines(s.skip(end)), 0);
        assert(render(head.drop_last(), 0) =~= Seq::<u8>::empty());
        assert(strip(head.last(), 0) =~= s.take(end));
        assert(render(head, 0) =~= s.take(end));
        assert(s.take(end) + s.skip(end) =~= s);
    }
}

/// Deindenting changes nothing where there is nothing to take: in a text
/// whose first and last lines are not blank, and in which some line that is
/// not blank starts without whitespace, the deindented text is the text.
pub proof fn lemma_deindent_minimal(s: Seq<u8>, info: IndentInfo)
    requires
        info.describes(lines(s)),
        !is_blank(lines(s).first()),
        !is_blank(lines(s).last()),
        exists|i: int|
            0 <= i < lines(s).len() && !is_blank(#[trigger] lines(s)[i]) && leading_space(
                lines(s)[i],
            ) == 0,
    ensures
        info.first_line == 0,
        info.last_line == lines(s).len() - 1,
        info.leading_whitespace == 0,
        deindented(lines(s), info) == s,
{
    let ls = lines(s);
    let i = choose|i: int|
        0 <= i < ls.len() && !is_blank(#[trigger] ls[i]) && leading_space(ls[i]) == 0;
    assert(info.leading_whitespace <= leading_space(ls[i]));
    assert(!is_blank(ls[0]));
    assert(!is_blank(ls[ls.len() - 1]));
    assert(ls.subrange(0, ls.len() as int) =~= ls);
    lemma_lines_join(s);
}

/// Where every line that is not blank starts with exactly `k` whitespace
/// bytes, `k` is the common indent: deindenting takes exactly `k` bytes from
/// each such line, and leaves a blank line of fewer than `k` bytes as it is.
pub proof fn lemma_deindent_uniform(s: Seq<u8>, info: IndentInfo, k: nat)
    requires
        info.describes(lines(s)),
        forall|i: int|
            0 <= i < lines(s).len() && !is_blank(#[trigger] lines(s)[i]) ==> leading_space(
                lines(s)[i],
            ) == k,
    ensures
        info.leading_whitespace == k,
        deindented(lines(s), info) == render(
            lines(s).subrange(info.first_line as int, info.last_line + 1),
            k,
        ),
        forall|i: int|
            0 <= i < lines(s).len() && !is_blank(#[trigger] lines(s)[i]) ==> k < lines(s)[i].len()
                && strip(lines(s)[i], k) == lines(s)[i].skip(k as int),
        forall|i: int|
            0 <= i < lines(s).len() && is_blank(#[trigger] lines(s)[i]) && lines(s)[i].len() < k
                ==> strip(lines(s)[i], k) == lines(s)[i],
{
    let ls = lines(s);
    let i = choose|i: int|
        0 <= i < ls.len() && !is_blank(#[trigger] ls[i]) && info.leading_whitespace
            == leading_space(ls[i]);
    assert(leading_space(ls[i]) == k);
    assert forall|i: int| 0 <= i < ls.len() && !is_blank(#[trigger] ls[i]) implies k
        < ls[i].len() by {
        lemma_leading_space(ls[i]);
    }
}

/// Deindenting keeps the end of the last line that is not blank: the
/// deindented text ends as that line does. So where the last line of the
/// text is not blank, or the text ends in a terminator, the deindented text
/// ends in a terminator exactly when the text does.
pub proof fn lemma_deindent_keeps_end(s: Seq<u8>, info: IndentInfo)
    requires
        info.describes(lines(s)),
    ensures
        deindented(lines(s), info).len() > 0,
        deindented(lines(s), info).last() == lines(s)[info.last_line as int].last(),
        !is_blank(lines(s).last()) ==> deindented(lines(s), info).last() == s.last(),
        !is_blank(lines(s).last()) || s.last() == NEWLINE ==> (deindented(lines(s), info).last()
            == NEWLINE <==> s.last() == NEWLINE),
{
    let ls = lines(s);
    let shown = ls.subrange(info.first_line as int, info.last_line + 1);
    let l = ls[info.last_line as int];
    let k = info.leading_whitespace as nat;
    assert(shown.last() == l);
    lemma_leading_space(l);
    assert(k <= leading_space(l));
    assert(strip(l, k) == l.skip(k as int));
    assert(strip(l, k).last() == l.last());
    lemma_lines_shape(s);
    if !is_blank(ls.last()) {
        assert(!is_blank(ls[ls.len() - 1]));
    }
}

} // verus!
