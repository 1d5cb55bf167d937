//! Writing a text out again without its common indent.

use crate::indent::IndentInfo;
use crate::lines::{find_line_end, is_blank, lemma_lines_step, lines};
use crate::utf8::{lemma_deindented_valid, string_from_utf8};
use vstd::prelude::*;
use vstd::slice::slice_subrange;
use vstd::string::StringSliceAdditionalSpecFns;
use vstd::utf8::{encode_utf8, encode_utf8_valid_utf8};

verus! {

/// The line `l` without its first `k` bytes. A line shorter than `k` is left
/// as it is.
pub open spec fn strip(l: Seq<u8>, k: nat) -> Seq<u8> {
    if k <= l.len() {
        l.skip(k as int)
    } else {
        l
    }
}

/// The lines `ls`, each without its first `k` bytes, one behind the other.
pub open spec fn render(ls: Seq<Seq<u8>>, k: nat) -> Seq<u8>
    decreases ls.len(),
{
    if ls.len() == 0 {
        Seq::empty()
    } else {
        render(ls.drop_last(), k) + strip(ls.last(), k)
    }
}

/// The text of the lines `ls` deindented as `info` says: the lines from the
/// first to the last that is not blank, each without the common indent.
pub open spec fn deindented(ls: Seq<Seq<u8>>, info: IndentInfo) -> Seq<u8> {
    render(
        ls.subrange(info.first_line as int, info.last_line + 1),
        info.leading_whitespace as nat,
    )
}

/// An [`IndentInfo`] with a reference to the scanned string, making it
/// possible to write a deindented copy.
pub struct Deindenter<'a> {
    indent_info: IndentInfo,
    input: &'a str,
}

impl<'a> Deindenter<'a> {
    /// The bytes of the scanned string.
    pub closed spec fn text(&self) -> Seq<u8> {
        self.input.spec_bytes()
    }

    /// The indent information that was found in the scanned string.
    pub closed spec fn info(&self) -> IndentInfo {
        self.indent_info
    }

    /// The deindented copy of the scanned string.
    pub open spec fn output(&self) -> Seq<u8> {
        deindented(lines(self.text()), self.info())
    }

    #[verifier::type_invariant]
    spec fn well_formed(&self) -> bool {
        self.indent_info.describes(lines(self.input.spec_bytes()))
    }

    /// Returns `None` on empty or whitespace-only input.
    pub fn new(input: &'a str) -> (r: Option<Deindenter<'a>>)
        ensures
            r is None <==> is_blank(input.spec_bytes()),
            r matches Some(d) ==> d.text() == input.spec_bytes() && d.info().describes(
                lines(d.text()),
            ),
    {
        match IndentInfo::new(input) {
            Some(indent_info) => Some(Deindenter { indent_info, input }),
            None => None,
        }
    }

    /// Writes the scanned input with leading whitespace removed to the end
    /// of `out`: the lines from the first to the last that is not blank,
    /// each from behind the common indent to behind its terminator.
    pub fn to_writer(&self, out: &mut Vec<u8>)
        ensures
            final(out)@ == old(out)@ + self.output(),
    {
        proof {
            use_type_invariant(self);
        }
        let bytes = self.input.as_bytes();
        let first_line = self.indent_info.first_line;
        let last_line = self.indent_info.last_line;
        let leading_whitespace = self.indent_info.leading_whitespace;
        let ghost s = bytes@;
        let ghost ls = lines(s);
        let ghost k = leading_whitespace as nat;
        let ghost mut seen: Seq<Seq<u8>> = Seq::empty();
        let mut index: usize = 0;
        let mut pos: usize = 0;
        assert(s.skip(0) =~= s);
        while index <= last_line
            invariant
                s == bytes@,
                ls == lines(s),
                k == leading_whitespace,
                first_line <= last_line < ls.len(),
                index <= last_line + 1,
                index <= pos <= s.len(),
                seen.len() == index,
                ls =~= seen + lines(s.skip(pos as int)),
                out@ == old(out)@ + render(
                    seen.subrange(if index < first_line { index as int } else { first_line as int }, index as int),
                    k,
                ),
            decreases last_line + 1 - index,
        {
            assert(pos < s.len()) by {
                if pos == s.len() {
                    assert(lines(s.skip(pos as int)) =~= Seq::<Seq<u8>>::empty());
                }
            }
            let end = find_line_end(bytes, pos);
            let ghost line = s.subrange(pos as int, end as int);
            let ghost before = seen;
            proof {
                lemma_lines_step(s, pos as int);
                seen = seen.push(line);
            }
            if index >= first_line {
                let skip: usize = if end - pos < leading_whitespace {
                    0
                } else {
                    leading_whitespace
                };
                let ghost written = out@;
                out.extend_from_slice(slice_subrange(bytes, pos + skip, end));
                proof {
                    let shown = seen.subrange(first_line as int, index + 1);
                    assert(shown.drop_last() =~= before.subrange(
                        first_line as int,
                        index as int,
                    ));
                    assert(shown.last() == line);
                    assert(strip(line, k) =~= s.subrange(pos + skip, end as int));
                    assert(out@ =~= written + strip(line, k));
                }
            } else {
                assert(seen.subrange(index + 1, index + 1) =~= before.subrange(
                    index as int,
                    index as int,
                ));
            }
            index += 1;
            pos = end;
        }
        assert(ls.subrange(first_line as int, last_line + 1) =~= seen.subrange(
            first_line as int,
            index as int,
        ));
    }

    /// Returns the scanned input with leading whitespace removed, as a
    /// string of its own.
    pub fn to_string(&self) -> (r: String)
        ensures
            encode_utf8(r@) == self.output(),
    {
        let mut buf: Vec<u8> = Vec::new();
        self.to_writer(&mut buf);
        proof {
            use_type_invariant(self);
            encode_utf8_valid_utf8(self.input@);
            lemma_deindented_valid(self.input.spec_bytes(), self.indent_info);
            assert(buf@ =~= self.output());
        }
        string_from_utf8(buf).unwrap()
    }

    /// Copy of the underlying [`IndentInfo`].
    pub fn indent_info(&self) -> (r: IndentInfo)
        ensures
            r == self.info(),
            r.describes(lines(self.text())),
    {
        proof {
            use_type_invariant(self);
        }
        self.indent_info
    }
}

impl<'a> From<Deindenter<'a>> for IndentInfo {
    /// Gives up the reference to the scanned string and keeps what was
    /// found in it.
    fn from(value: Deindenter<'a>) -> (r: IndentInfo) {
        value.indent_info
    }
}

impl<'a> vstd::std_specs::convert::FromSpecImpl<Deindenter<'a>> for IndentInfo {
    open spec fn obeys_from_spec() -> bool {
        true
    }

    open spec fn from_spec(v: Deindenter<'a>) -> IndentInfo {
        v.info()
    }
}

} // verus!
