//! Laws that relate the store's operations across calls, proved over the
//! same spec functions the operations' contracts use.

use vstd::prelude::*;
use crate::is_single_line;
use crate::lines::{
    lemma_split_lines_concat, lemma_split_single_line, split_lines_spec, strip_tail_cr,
};
use crate::ops::{line_exists_spec, list_spec, matches_spec, LIST_LIMIT};
use crate::text::{is_space, trim_spec};

verus! {

/// Trimming does not see a carriage return left by the line terminator:
/// the stripped and the unstripped line trim to the same text.
pub proof fn lemma_trim_strip_cr(s: Seq<char>)
    ensures
        trim_spec(strip_tail_cr(s)) == trim_spec(s),
{
    if s.len() > 0 && s.last() == '\r' {
        assert(is_space('\r'));
    }
}

/// Law: storing a single-line snippet that does not trim to nothing into
/// an empty store and then listing yields exactly one entry, the snippet
/// trimmed. The store of a new snippet appends the snippet and a
/// terminator, so the file then holds exactly that text.
pub proof fn store_then_list_law(s: Seq<char>)
    requires
        is_single_line(s),
        trim_spec(s).len() > 0,
    ensures
        list_spec(split_lines_spec(s + seq!['\n']), LIST_LIMIT as nat) == seq![trim_spec(s)],
{
    lemma_split_single_line(s);
    lemma_trim_strip_cr(s);
    let lines = seq![strip_tail_cr(s)];
    assert(lines.drop_first() =~= Seq::<Seq<char>>::empty());
    assert(seq![trim_spec(s)] + list_spec(Seq::<Seq<char>>::empty(), (LIST_LIMIT - 1) as nat)
        =~= seq![trim_spec(s)]);
}

/// Law: a stored snippet is found by the duplicate check ever after.
/// After text `s` is appended with its terminator to content that ends at
/// a line boundary, any candidate `t` with the same trimmed text — the
/// same snippet stored again, in particular — counts as already present,
/// so a second store of it never appends a second line.
pub proof fn store_twice_duplicate_law(content: Seq<char>, s: Seq<char>, t: Seq<char>)
    requires
        is_single_line(s),
        trim_spec(t) == trim_spec(s),
        content.len() == 0 || content.last() == '\n',
    ensures
        line_exists_spec(split_lines_spec(content + (s + seq!['\n'])), t),
{
    lemma_split_lines_concat(content, s + seq!['\n']);
    lemma_split_single_line(s);
    lemma_trim_strip_cr(s);
    let lines = split_lines_spec(content) + seq![strip_tail_cr(s)];
    let w = lines.len() - 1;
    assert(lines[w] == strip_tail_cr(s));
    assert(trim_spec(lines[w]) == trim_spec(t));
}

/// Law: blank lines in the store reach neither a listing nor a search
/// result. Every listed entry and every match is non-empty.
pub proof fn no_blank_results_law(lines: Seq<Seq<char>>, search: Seq<char>, max: nat)
    ensures
        forall|i: int|
            0 <= i < list_spec(lines, max).len() ==> (#[trigger] list_spec(lines, max)[i]).len()
                > 0,
        forall|i: int|
            0 <= i < matches_spec(lines, search, max).len() ==> (#[trigger] matches_spec(
                lines,
                search,
                max,
            )[i]).len() > 0,
    decreases lines.len(),
{
    if lines.len() == 0 || max == 0 {
    } else {
        no_blank_results_law(lines.drop_first(), search, (max - 1) as nat);
        no_blank_results_law(lines.drop_first(), search, max);
        let ls = list_spec(lines, max);
        assert forall|i: int| 0 <= i < ls.len() implies ls[i].len() > 0 by {
            let tr = trim_spec(lines.first());
            if tr.len() > 0 {
                if i > 0 {
                    assert(ls[i] == list_spec(lines.drop_first(), (max - 1) as nat)[i - 1]);
                }
            } else {
                assert(ls[i] == list_spec(lines.drop_first(), max)[i]);
            }
        }
        let ms = matches_spec(lines, search, max);
        assert forall|i: int| 0 <= i < ms.len() implies ms[i].len() > 0 by {
            let l = lines.first();
            if l.len() > 0 && crate::text::contains_sub(l, search) {
                if i > 0 {
                    assert(ms[i] == matches_spec(lines.drop_first(), search, (max - 1) as nat)[i
                        - 1]);
                }
            } else {
                assert(ms[i] == matches_spec(lines.drop_first(), search, max)[i]);
            }
        }
    }
}

} // verus!
