//! The store's wire format: a newline-delimited text file. `split_lines`
//! recovers the stored lines from the file's content, the way a buffered
//! line reader yields them: lines are separated by `'\n'`, a `'\r'` just
//! before the separator is dropped, and a final fragment without a
//! terminator still counts as a line.

use vstd::prelude::*;

verus! {

/// The index of the first `'\n'` in `s`, or `s.len()` if there is none.
pub open spec fn first_nl(s: Seq<char>) -> int
    decreases s.len(),
{
    if s.len() == 0 {
        0
    } else if s.first() == '\n' {
        0
    } else {
        1 + first_nl(s.drop_first())
    }
}

/// A line with one carriage return before its terminator removed.
pub open spec fn strip_tail_cr(s: Seq<char>) -> Seq<char> {
    if s.len() > 0 && s.last() == '\r' {
        s.drop_last()
    } else {
        s
    }
}

pub proof fn lemma_first_nl(s: Seq<char>)
    ensures
        0 <= first_nl(s) <= s.len(),
        forall|j: int| 0 <= j < first_nl(s) ==> s[j] != '\n',
        first_nl(s) < s.len() ==> s[first_nl(s)] == '\n',
    decreases s.len(),
{
    if s.len() > 0 && s.first() != '\n' {
        lemma_first_nl(s.drop_first());
        assert forall|j: int| 0 <= j < first_nl(s) implies s[j] != '\n' by {
            if j > 0 {
                assert(s[j] == s.drop_first()[j - 1]);
            }
        }
        if first_nl(s) < s.len() {
            assert(s[first_nl(s)] == s.drop_first()[first_nl(s.drop_first())]);
        }
    }
}

/// `first_nl` is pinned down by its characteristic facts.
pub proof fn lemma_first_nl_at(s: Seq<char>, i: int)
    requires
        0 <= i <= s.len(),
        forall|j: int| 0 <= j < i ==> s[j] != '\n',
        i < s.len() ==> s[i] == '\n',
    ensures
        first_nl(s) == i,
    decreases i,
{
    if s.len() == 0 {
    } else if s.first() == '\n' {
        if i > 0 {
            assert(s[0] != '\n');
        }
    } else {
        assert(s[0] != '\n');
        assert(i > 0) by {
            if i == 0 {
                assert(s[0] == '\n');
            }
        }
        assert forall|j: int| 0 <= j < i - 1 implies s.drop_first()[j] != '\n' by {
            assert(s.drop_first()[j] == s[j + 1]);
        }
        if i - 1 < s.drop_first().len() {
            assert(s.drop_first()[i - 1] == s[i]);
        }
        lemma_first_nl_at(s.drop_first(), i - 1);
    }
}

/// The lines of a file's content, in file order.
pub open spec fn split_lines_spec(s: Seq<char>) -> Seq<Seq<char>>
    decreases s.len(),
    via split_lines_spec_decreases
{
    if s.len() == 0 {
        Seq::empty()
    } else {
        let i = first_nl(s);
        if i == s.len() {
            seq![s]
        } else {
            seq![strip_tail_cr(s.take(i))] + split_lines_spec(s.skip(i + 1))
        }
    }
}

#[via_fn]
proof fn split_lines_spec_decreases(s: Seq<char>) {
    lemma_first_nl(s);
}

/// A single line followed by its terminator reads back as that one line,
/// with a trailing carriage return dropped.
pub proof fn lemma_split_single_line(s: Seq<char>)
    requires
        forall|i: int| 0 <= i < s.len() ==> s[i] != '\n',
    ensures
        split_lines_spec(s + seq!['\n']) == seq![strip_tail_cr(s)],
{
    let w = s + seq!['\n'];
    assert(w[s.len() as int] == '\n');
    lemma_first_nl_at(w, s.len() as int);
    assert(w.take(s.len() as int) =~= s);
    assert(w.skip(s.len() as int + 1) =~= Seq::<char>::empty());
    assert(seq![strip_tail_cr(s)] + split_lines_spec(Seq::<char>::empty()) =~= seq![
        strip_tail_cr(s),
    ]);
}

/// Splitting distributes over concatenation at a line boundary: content
/// that ends with a terminator, followed by more content, reads back as
/// the lines of the one and then the lines of the other.
pub proof fn lemma_split_lines_concat(a: Seq<char>, b: Seq<char>)
    requires
        a.len() == 0 || a.last() == '\n',
    ensures
        split_lines_spec(a + b) == split_lines_spec(a) + split_lines_spec(b),
    decreases a.len(),
{
    if a.len() == 0 {
        assert(a + b =~= b);
        assert(split_lines_spec(a) + split_lines_spec(b) =~= split_lines_spec(b));
    } else {
        lemma_first_nl(a);
        let fa = first_nl(a);
        assert(fa < a.len()) by {
            if fa == a.len() {
                assert(a[a.len() - 1] != '\n');
            }
        }
        assert forall|j: int| 0 <= j < fa implies (a + b)[j] != '\n' by {
            assert((a + b)[j] == a[j]);
        }
        assert((a + b)[fa] == a[fa]);
        lemma_first_nl_at(a + b, fa);
        assert((a + b).take(fa) =~= a.take(fa));
        assert((a + b).skip(fa + 1) =~= a.skip(fa + 1) + b);
        let a2 = a.skip(fa + 1);
        assert(a2.len() == 0 || a2.last() == '\n') by {
            if a2.len() > 0 {
                assert(a2.last() == a.last());
            }
        }
        lemma_split_lines_concat(a2, b);
        let head = seq![strip_tail_cr(a.take(fa))];
        assert(split_lines_spec(a + b) == head + (split_lines_spec(a2) + split_lines_spec(b)));
        assert(split_lines_spec(a) == head + split_lines_spec(a2));
        assert(head + (split_lines_spec(a2) + split_lines_spec(b)) =~= (head + split_lines_spec(
            a2,
        )) + split_lines_spec(b));
    }
}

/// Splits a file's content into its lines.
pub fn split_lines(content: &str) -> (r: Vec<String>)
    ensures
        r.deep_view() == split_lines_spec(content@),
{
    let n = content.unicode_len();
    let mut r: Vec<String> = Vec::new();
    let mut pos: usize = 0;
    proof {
        assert(r.deep_view() =~= Seq::<Seq<char>>::empty());
        assert(content@.skip(0) =~= content@);
    }
    while pos < n
        invariant
            0 <= pos <= n,
            n == content@.len(),
            r.deep_view() + split_lines_spec(content@.skip(pos as int)) == split_lines_spec(
                content@,
            ),
        decreases n - pos,
    {
        let ghost rest = content@.skip(pos as int);
        let mut k: usize = pos;
        while k < n && content.get_char(k) != '\n'
            invariant
                pos <= k <= n,
                n == content@.len(),
                forall|j: int| pos <= j < k ==> content@[j] != '\n',
            decreases n - k,
        {
            k = k + 1;
        }
        proof {
            assert forall|j: int| 0 <= j < k - pos implies rest[j] != '\n' by {
                assert(rest[j] == content@[pos + j]);
            }
            if k < n {
                assert(rest[k - pos] == content@[k as int]);
            }
            lemma_first_nl_at(rest, k - pos);
        }
        let ghost old_dv = r.deep_view();
        if k == n {
            let line = content.substring_char(pos, n);
            let owned = String::from_str(line);
            r.push(owned);
            proof {
                assert(rest =~= content@.subrange(pos as int, n as int));
                assert(r.deep_view() =~= old_dv.push(rest));
                assert(r.deep_view() =~= old_dv + seq![rest]);
            }
            pos = n;
            proof {
                assert(content@.skip(n as int) =~= Seq::<char>::empty());
            }
        } else {
            let line_end: usize = if k > pos && content.get_char(k - 1) == '\r' {
                k - 1
            } else {
                k
            };
            let line = content.substring_char(pos, line_end);
            let owned = String::from_str(line);
            r.push(owned);
            proof {
                let head = rest.take(k - pos);
                assert(head =~= content@.subrange(pos as int, k as int));
                if k > pos && content@[k - 1] == '\r' {
                    assert(head.last() == '\r');
                    assert(strip_tail_cr(head) =~= content@.subrange(
                        pos as int,
                        line_end as int,
                    ));
                } else {
                    if head.len() > 0 {
                        assert(head.last() == content@[k - 1]);
                    }
                    assert(strip_tail_cr(head) =~= content@.subrange(
                        pos as int,
                        line_end as int,
                    ));
                }
                assert(r.deep_view() =~= old_dv.push(strip_tail_cr(head)));
                assert(rest.skip(k - pos + 1) =~= content@.skip(k + 1));
                assert(split_lines_spec(rest) == seq![strip_tail_cr(head)] + split_lines_spec(
                    content@.skip(k + 1),
                ));
                assert(old_dv + (seq![strip_tail_cr(head)] + split_lines_spec(
                    content@.skip(k + 1),
                )) =~= (old_dv + seq![strip_tail_cr(head)]) + split_lines_spec(
                    content@.skip(k + 1),
                ));
                assert(r.deep_view() =~= old_dv + seq![strip_tail_cr(head)]);
            }
            pos = k + 1;
        }
    }
    proof {
        assert(content@.skip(n as int) =~= Seq::<char>::empty());
        assert(r.deep_view() + Seq::<Seq<char>>::empty() =~= r.deep_view());
    }
    r
}

} // verus!
