//! Cutting UTF-8 text next to ASCII bytes keeps it UTF-8.

use crate::deindent::{deindented, render, strip};
use crate::indent::IndentInfo;
use crate::lines::{
    is_blank, is_space, leading_space, lemma_leading_space, lemma_line_end_bounds,
    lemma_line_end_last, line_end, lines,
};
use vstd::prelude::*;
use vstd::utf8::{
    encode_utf8, length_of_first_scalar, pop_first_scalar, valid_first_scalar, valid_utf8,
    valid_utf8_concat,
};

verus! {

/// Valid UTF-8 can be cut behind an ASCII byte: both parts are valid UTF-8.
pub proof fn lemma_cut_behind_ascii(s: Seq<u8>, at: int)
    requires
        valid_utf8(s),
        0 <= at <= s.len(),
        at == 0 || at == s.len() || s[at - 1] <= 0x7f,
    ensures
        valid_utf8(s.take(at)),
        valid_utf8(s.skip(at)),
    decreases s.len(),
{
    if at == 0 {
        assert(s.skip(0) =~= s);
        assert(s.take(0) =~= Seq::<u8>::empty());
    } else if at == s.len() {
        assert(s.take(at) =~= s);
        assert(s.skip(at) =~= Seq::<u8>::empty());
    } else {
        let n = length_of_first_scalar(s);
        let rest = pop_first_scalar(s);
        assert(valid_first_scalar(s));
        assert(rest =~= s.skip(n));
        assert(at >= n);
        assert(at - n == 0 || rest[at - n - 1] == s[at - 1]);
        lemma_cut_behind_ascii(rest, at - n);
        let head = s.take(n);
        assert(valid_utf8(head)) by {
            reveal_with_fuel(valid_utf8, 2);
            assert(valid_first_scalar(head));
            assert(pop_first_scalar(head) =~= Seq::<u8>::empty());
        }
        valid_utf8_concat(head, rest.take(at - n));
        assert(s.take(at) =~= head + rest.take(at - n));
        assert(s.skip(at) =~= rest.skip(at - n));
    }
}

/// Every line of valid UTF-8 is valid UTF-8.
pub proof fn lemma_lines_valid(s: Seq<u8>)
    requires
        valid_utf8(s),
    ensures
        forall|i: int| 0 <= i < lines(s).len() ==> valid_utf8(#[trigger] lines(s)[i]),
    decreases s.len(),
{
    if s.len() != 0 {
        let end = line_end(s, 0);
        lemma_line_end_bounds(s, 0);
        lemma_line_end_last(s, 0);
        lemma_cut_behind_ascii(s, end);
        lemma_lines_valid(s.skip(end));
        let rest = lines(s.skip(end));
        assert forall|i: int| 0 <= i < lines(s).len() implies valid_utf8(
            #[trigger] lines(s)[i],
        ) by {
            if i > 0 {
                assert(lines(s)[i] == rest[i - 1]);
            }
        }
    }
}

/// Stripping whitespace from the start of a valid UTF-8 line leaves valid
/// UTF-8.
pub proof fn lemma_strip_valid(l: Seq<u8>, k: nat)
    requires
        valid_utf8(l),
        k <= l.len() ==> forall|j: int| 0 <= j < k ==> is_space(#[trigger] l[j]),
    ensures
        valid_utf8(strip(l, k)),
{
    if 0 < k <= l.len() {
        assert(is_space(l[k - 1]));
        lemma_cut_behind_ascii(l, k as int);
    } else if k == 0 {
        assert(l.skip(0) =~= l);
    }
}

/// Lines of valid UTF-8, stripped of whitespace only, render to valid UTF-8.
pub proof fn lemma_render_valid(ls: Seq<Seq<u8>>, k: nat)
    requires
        forall|i: int| 0 <= i < ls.len() ==> valid_utf8(#[trigger] ls[i]),
        forall|i: int, j: int|
            0 <= i < ls.len() && 0 <= j < k <= ls[i].len() ==> is_space(#[trigger] ls[i][j]),
    ensures
        valid_utf8(render(ls, k)),
    decreases ls.len(),
{
    if ls.len() > 0 {
        let front = ls.drop_last();
        assert forall|i: int| 0 <= i < front.len() implies valid_utf8(#[trigger] front[i]) by {
            assert(front[i] == ls[i]);
        }
        assert forall|i: int, j: int|
            0 <= i < front.len() && 0 <= j < k <= front[i].len() implies is_space(
            #[trigger] front[i][j],
        ) by {
            assert(front[i] == ls[i]);
        }
        lemma_render_valid(front, k);
        assert(valid_utf8(ls[ls.len() - 1]));
        lemma_strip_valid(ls.last(), k);
        valid_utf8_concat(render(front, k), strip(ls.last(), k));
    }
}

/// Deindenting valid UTF-8 gives valid UTF-8: only whitespace is taken from
/// the start of a line, and whole lines from the start and the end of the
/// text.
pub proof fn lemma_deindented_valid(s: Seq<u8>, info: IndentInfo)
    requires
        valid_utf8(s),
        info.describes(lines(s)),
    ensures
        valid_utf8(deindented(lines(s), info)),
{
    let ls = lines(s);
    let k = info.leading_whitespace as nat;
    let shown = ls.subrange(info.first_line as int, info.last_line + 1);
    lemma_lines_valid(s);
    assert forall|i: int, j: int|
        0 <= i < shown.len() && 0 <= j < k <= shown[i].len() implies is_space(
        #[trigger] shown[i][j],
    ) by {
        let l = ls[info.first_line + i];
        assert(shown[i] == l);
        lemma_leading_space(l);
        if !is_blank(l) {
            assert(k <= leading_space(l));
        }
    }
    assert forall|i: int| 0 <= i < shown.len() implies valid_utf8(#[trigger] shown[i]) by {
        assert(shown[i] == ls[info.first_line + i]);
    }
    lemma_render_valid(shown, k);
}

/// Calls `String::from_utf8`. The contract is taken on trust: it says what
/// std documents of that function, that it succeeds on valid UTF-8 and on
/// nothing else, and that the string holds exactly the bytes it was given.
#[verifier::external_body]
pub(crate) fn string_from_utf8(bytes: Vec<u8>) -> (r: Option<String>)
    ensures
        r is Some <==> valid_utf8(bytes@),
        r is Some ==> encode_utf8(r.unwrap()@) == bytes@,
{
    match String::from_utf8(bytes) {
        Ok(s) => Some(s),
        Err(_) => None,
    }
}

} // verus!
