//! The span of lines that hold content, and their common indent.

use crate::lines::{
    count_leading_space, find_line_end, is_blank, leading_space, lemma_blank_lines,
    lemma_leading_space, lemma_lines_step, lines,
};
use vstd::prelude::*;
use vstd::string::StringSliceAdditionalSpecFns;

verus! {

/// Indent information from a scanned string.
#[derive(Clone, Copy)]
pub struct IndentInfo {
    /// Index of the first line that is not blank.
    pub first_line: usize,
    /// Index of the last line that is not blank.
    pub last_line: usize,
    /// Least number of whitespace bytes at the start of a line that is not
    /// blank: what can be stripped from each such line.
    pub leading_whitespace: usize,
}

impl IndentInfo {
    /// `self` is the indent information of the lines `ls`: the first and the
    /// last line that are not blank, and the least indent among the lines
    /// that are not blank. At most one value describes given lines, and none
    /// where every line is blank.
    pub open spec fn describes(self, ls: Seq<Seq<u8>>) -> bool {
        &&& self.first_line <= self.last_line < ls.len()
        &&& !is_blank(ls[self.first_line as int])
        &&& !is_blank(ls[self.last_line as int])
        &&& forall|i: int|
            0 <= i < ls.len() && !is_blank(#[trigger] ls[i]) ==> self.first_line <= i
                <= self.last_line && self.leading_whitespace <= leading_space(ls[i])
        &&& exists|i: int|
            0 <= i < ls.len() && !is_blank(#[trigger] ls[i]) && self.leading_whitespace
                == leading_space(ls[i])
    }

    /// Scans `input` line by line. Returns `None` on empty or
    /// whitespace-only input.
    pub fn new(input: &str) -> (r: Option<IndentInfo>)
        ensures
            r is None <==> is_blank(input.spec_bytes()),
            r matches Some(info) ==> info.describes(lines(input.spec_bytes())),
    {
        let bytes = input.as_bytes();
        let ghost s = bytes@;
        let ghost mut seen: Seq<Seq<u8>> = Seq::empty();
        let mut found: Option<IndentInfo> = None;
        let mut index: usize = 0;
        let mut pos: usize = 0;
        assert(s.skip(0) =~= s);
        while pos < bytes.len()
            invariant
                s == bytes@,
                index <= pos <= s.len(),
                seen.len() == index,
                lines(s) =~= seen + lines(s.skip(pos as int)),
                match found {
                    Some(info) => info.describes(seen),
                    None => forall|i: int| 0 <= i < seen.len() ==> is_blank(#[trigger] seen[i]),
                },
            decreases s.len() - pos,
        {
            let end = find_line_end(bytes, pos);
            let ws = count_leading_space(bytes, pos, end);
            let ghost line = s.subrange(pos as int, end as int);
            let ghost before = seen;
            proof {
                lemma_lines_step(s, pos as int);
                lemma_leading_space(line);
                seen = seen.push(line);
                assert(forall|i: int| 0 <= i < before.len() ==> seen[i] == before[i]);
                assert(seen[index as int] == line);
            }
            proof {
                if let Some(info) = found {
                    let i = choose|i: int|
                        0 <= i < before.len() && !is_blank(#[trigger] before[i])
                            && info.leading_whitespace == leading_space(before[i]);
                    assert(!is_blank(seen[i]));
                }
            }
            if ws != end - pos {
                assert(!is_blank(seen[index as int]));
                found = Some(
                    match found {
                        None => IndentInfo {
                            first_line: index,
                            last_line: index,
                            leading_whitespace: ws,
                        },
                        Some(info) => IndentInfo {
                            first_line: info.first_line,
                            last_line: index,
                            leading_whitespace: if ws < info.leading_whitespace {
                                ws
                            } else {
                                info.leading_whitespace
                            },
                        },
                    },
                );
            }
            index += 1;
            pos = end;
        }
        assert(lines(s.skip(pos as int)) =~= Seq::<Seq<u8>>::empty());
        assert(lines(s) =~= seen);
        proof {
            lemma_blank_lines(s);
            if let Some(info) = found {
                assert(!is_blank(seen[info.first_line as int]));
            }
        }
        found
    }
}

/// Given lines have at most one indent information.
pub proof fn lemma_describes_unique(ls: Seq<Seq<u8>>, a: IndentInfo, b: IndentInfo)
    requires
        a.describes(ls),
        b.describes(ls),
    ensures
        a == b,
{
    let i = choose|i: int|
        0 <= i < ls.len() && !is_blank(#[trigger] ls[i]) && a.leading_whitespace == leading_space(
            ls[i],
        );
    let j = choose|j: int|
        0 <= j < ls.len() && !is_blank(#[trigger] ls[j]) && b.leading_whitespace == leading_space(
            ls[j],
        );
    assert(b.leading_whitespace <= leading_space(ls[i]));
    assert(a.leading_whitespace <= leading_space(ls[j]));
}

} // verus!
