//! The store's operations: listing the first entries, searching by
//! substring, the append-if-new store decision, and parsing the
//! interactive selection. Each operation works on the store file's
//! content handed in as a string; reading and writing the file is the
//! caller's business.

use vstd::prelude::*;
use crate::lines::{split_lines, split_lines_spec};
use crate::text::{contains_str, contains_sub, parse_usize, parsed_usize, str_eq, trim, trim_spec};
use crate::is_single_line;

verus! {

/// How many entries a listing shows at most.
pub const LIST_LIMIT: usize = 10;

/// How many search matches are kept at most.
pub const MATCH_LIMIT: usize = 3;

/// The entries a listing shows: the lines in file order, each trimmed,
/// blank lines dropped, cut off after `max` entries.
pub open spec fn list_spec(lines: Seq<Seq<char>>, max: nat) -> Seq<Seq<char>>
    decreases lines.len(),
{
    if lines.len() == 0 || max == 0 {
        Seq::empty()
    } else {
        let t = trim_spec(lines.first());
        if t.len() > 0 {
            seq![t] + list_spec(lines.drop_first(), (max - 1) as nat)
        } else {
            list_spec(lines.drop_first(), max)
        }
    }
}

/// The search results: the non-empty lines that hold `search` as a
/// substring, in file order, cut off after `max` matches.
pub open spec fn matches_spec(lines: Seq<Seq<char>>, search: Seq<char>, max: nat) -> Seq<Seq<char>>
    decreases lines.len(),
{
    if lines.len() == 0 || max == 0 {
        Seq::empty()
    } else {
        let l = lines.first();
        if l.len() > 0 && contains_sub(l, search) {
            seq![l] + matches_spec(lines.drop_first(), search, (max - 1) as nat)
        } else {
            matches_spec(lines.drop_first(), search, max)
        }
    }
}

/// Some stored line equals the candidate, both taken trimmed.
pub open spec fn line_exists_spec(lines: Seq<Seq<char>>, cand: Seq<char>) -> bool {
    exists|i: int| 0 <= i < lines.len() && #[trigger] trim_spec(lines[i]) == trim_spec(cand)
}

/// What a listing found.
pub enum ListOutcome {
    /// The store file could not be read at all.
    NoStore,
    /// The store was read but no entry survived trimming and filtering.
    NoEntries,
    /// The entries to show, in file order.
    Entries(Vec<String>),
}

/// What a search found.
pub enum GetOutcome {
    /// The store file could not be read at all.
    NoStore,
    /// The store was read but no line matched.
    NoMatches,
    /// The matching lines, in file order.
    Matches(Vec<String>),
}

/// What a store request decided.
pub enum StoreOutcome {
    /// The candidate holds a line break and is rejected; the store is untouched.
    Rejected,
    /// The candidate is already present (trimmed comparison); the store is untouched.
    Duplicate,
    /// The candidate is new: the held text, candidate plus terminator, is to be
    /// appended to the store file.
    Append(String),
}

/// Collects the entries a listing of this content shows.
fn list_entries(lines: &Vec<String>) -> (r: Vec<String>)
    ensures
        r.deep_view() == list_spec(lines.deep_view(), LIST_LIMIT as nat),
{
    let ghost ldv = lines.deep_view();
    let mut r: Vec<String> = Vec::new();
    let mut i: usize = 0;
    proof {
        assert(r.deep_view() =~= Seq::<Seq<char>>::empty());
        assert(ldv.skip(0) =~= ldv);
    }
    while i < lines.len() && r.len() < LIST_LIMIT
        invariant
            0 <= i <= lines.len(),
            r.len() <= LIST_LIMIT,
            ldv == lines.deep_view(),
            r.deep_view() + list_spec(ldv.skip(i as int), (LIST_LIMIT - r.len()) as nat)
                == list_spec(ldv, LIST_LIMIT as nat),
        decreases lines.len() - i,
    {
        let ghost rest = ldv.skip(i as int);
        let ghost m = (LIST_LIMIT - r.len()) as nat;
        proof {
            assert(rest.first() == ldv[i as int]);
            assert(rest.drop_first() =~= ldv.skip(i + 1));
        }
        let t = trim(lines[i].as_str());
        if t.as_str().unicode_len() > 0 {
            let ghost old_dv = r.deep_view();
            r.push(t);
            proof {
                assert(r.deep_view() =~= old_dv + seq![trim_spec(rest.first())]);
                assert(list_spec(rest, m) == seq![trim_spec(rest.first())] + list_spec(
                    rest.drop_first(),
                    (m - 1) as nat,
                ));
                assert(old_dv + (seq![trim_spec(rest.first())] + list_spec(
                    rest.drop_first(),
                    (m - 1) as nat,
                )) =~= (old_dv + seq![trim_spec(rest.first())]) + list_spec(
                    rest.drop_first(),
                    (m - 1) as nat,
                ));
            }
        } else {
            proof {
                assert(list_spec(rest, m) == list_spec(rest.drop_first(), m));
            }
        }
        i = i + 1;
    }
    proof {
        if i == lines.len() {
            assert(ldv.skip(i as int) =~= Seq::<Seq<char>>::empty());
        }
        assert(list_spec(ldv.skip(i as int), (LIST_LIMIT - r.len()) as nat) =~= Seq::<
            Seq<char>,
        >::empty());
        assert(r.deep_view() + Seq::<Seq<char>>::empty() =~= r.deep_view());
    }
    r
}

/// Lists the store: at most `LIST_LIMIT` trimmed, non-blank lines in file
/// order. `None` stands for a store file that could not be read.
pub fn list_oneliners(content: Option<&str>) -> (r: ListOutcome)
    ensures
        match r {
            ListOutcome::NoStore => content is None,
            ListOutcome::NoEntries => content matches Some(c) && list_spec(
                split_lines_spec(c@),
                LIST_LIMIT as nat,
            ) == Seq::<Seq<char>>::empty(),
            ListOutcome::Entries(v) => content matches Some(c) && v.deep_view() == list_spec(
                split_lines_spec(c@),
                LIST_LIMIT as nat,
            ) && v.len() > 0,
        },
{
    match content {
        None => ListOutcome::NoStore,
        Some(c) => {
            let lines = split_lines(c);
            let entries = list_entries(&lines);
            if entries.len() == 0 {
                proof {
                    assert(list_spec(split_lines_spec(c@), LIST_LIMIT as nat) =~= Seq::<
                        Seq<char>,
                    >::empty());
                }
                ListOutcome::NoEntries
            } else {
                ListOutcome::Entries(entries)
            }
        },
    }
}

/// Collects the lines that match a search.
fn match_entries(lines: &Vec<String>, search: &str) -> (r: Vec<String>)
    ensures
        r.deep_view() == matches_spec(lines.deep_view(), search@, MATCH_LIMIT as nat),
{
    let ghost ldv = lines.deep_view();
    let mut r: Vec<String> = Vec::new();
    let mut i: usize = 0;
    proof {
        assert(r.deep_view() =~= Seq::<Seq<char>>::empty());
        assert(ldv.skip(0) =~= ldv);
    }
    while i < lines.len() && r.len() < MATCH_LIMIT
        invariant
            0 <= i <= lines.len(),
            r.len() <= MATCH_LIMIT,
            ldv == lines.deep_view(),
            r.deep_view() + matches_spec(ldv.skip(i as int), search@, (MATCH_LIMIT
                - r.len()) as nat) == matches_spec(ldv, search@, MATCH_LIMIT as nat),
        decreases lines.len() - i,
    {
        let ghost rest = ldv.skip(i as int);
        let ghost m = (MATCH_LIMIT - r.len()) as nat;
        proof {
            assert(rest.first() == ldv[i as int]);
            assert(rest.drop_first() =~= ldv.skip(i + 1));
        }
        let line = &lines[i];
        if !line.as_str().is_empty() && contains_str(line.as_str(), search) {
            let ghost old_dv = r.deep_view();
            r.push(line.clone());
            proof {
                assert(r.deep_view() =~= old_dv + seq![rest.first()]);
                assert(matches_spec(rest, search@, m) == seq![rest.first()] + matches_spec(
                    rest.drop_first(),
                    search@,
                    (m - 1) as nat,
                ));
                assert(old_dv + (seq![rest.first()] + matches_spec(
                    rest.drop_first(),
                    search@,
                    (m - 1) as nat,
                )) =~= (old_dv + seq![rest.first()]) + matches_spec(
                    rest.drop_first(),
                    search@,
                    (m - 1) as nat,
                ));
            }
        } else {
            proof {
                assert(matches_spec(rest, search@, m) == matches_spec(
                    rest.drop_first(),
                    search@,
                    m,
                ));
            }
        }
        i = i + 1;
    }
    proof {
        if i == lines.len() {
            assert(ldv.skip(i as int) =~= Seq::<Seq<char>>::empty());
        }
        assert(matches_spec(ldv.skip(i as int), search@, (MATCH_LIMIT - r.len()) as nat) =~= Seq::<
            Seq<char>,
        >::empty());
        assert(r.deep_view() + Seq::<Seq<char>>::empty() =~= r.deep_view());
    }
    r
}

/// Searches the store: at most `MATCH_LIMIT` non-empty lines holding
/// `search` as a substring, in file order. `None` stands for a store
/// file that could not be read.
pub fn get_oneliner(search: &str, content: Option<&str>) -> (r: GetOutcome)
    ensures
        match r {
            GetOutcome::NoStore => content is None,
            GetOutcome::NoMatches => content matches Some(c) && matches_spec(
                split_lines_spec(c@),
                search@,
                MATCH_LIMIT as nat,
            ) == Seq::<Seq<char>>::empty(),
            GetOutcome::Matches(v) => content matches Some(c) && v.deep_view() == matches_spec(
                split_lines_spec(c@),
                search@,
                MATCH_LIMIT as nat,
            ) && v.len() > 0,
        },
{
    match content {
        None => GetOutcome::NoStore,
        Some(c) => {
            let lines = split_lines(c);
            let found = match_entries(&lines, search);
            if found.len() == 0 {
                proof {
                    assert(matches_spec(split_lines_spec(c@), search@, MATCH_LIMIT as nat) =~= Seq::<
                        Seq<char>,
                    >::empty());
                }
                GetOutcome::NoMatches
            } else {
                GetOutcome::Matches(found)
            }
        },
    }
}

/// Decides whether the candidate is already stored: some line of the
/// content equals it, both taken trimmed.
pub fn line_exists_in_file(content: &str, search: &str) -> (r: bool)
    ensures
        r == line_exists_spec(split_lines_spec(content@), search@),
{
    let ghost lsp = split_lines_spec(content@);
    let lines = split_lines(content);
    let cand = trim(search);
    let mut i: usize = 0;
    while i < lines.len()
        invariant
            0 <= i <= lines.len(),
            lsp == split_lines_spec(content@),
            lines.deep_view() == lsp,
            cand@ == trim_spec(search@),
            forall|j: int| 0 <= j < i ==> #[trigger] trim_spec(lsp[j]) != trim_spec(search@),
        decreases lines.len() - i,
    {
        let t = trim(lines[i].as_str());
        if str_eq(t.as_str(), cand.as_str()) {
            proof {
                assert(trim_spec(lsp[i as int]) == trim_spec(search@));
            }
            return true;
        }
        i = i + 1;
    }
    false
}

/// Checks whether the candidate holds a line break.
fn has_line_break(s: &str) -> (r: bool)
    ensures
        r == !is_single_line(s@),
{
    let n = s.unicode_len();
    let mut i: usize = 0;
    while i < n
        invariant
            0 <= i <= n,
            n == s@.len(),
            forall|j: int| 0 <= j < i ==> s@[j] != '\n',
        decreases n - i,
    {
        if s.get_char(i) == '\n' {
            return true;
        }
        i = i + 1;
    }
    false
}

/// Decides a store request against the current content of the store file:
/// a candidate with a line break is rejected, one already present is a
/// duplicate, and a new one yields the exact text to append.
pub fn store_oneliner(oneliner: &str, content: &str) -> (r: StoreOutcome)
    ensures
        match r {
            StoreOutcome::Rejected => !is_single_line(oneliner@),
            StoreOutcome::Duplicate => is_single_line(oneliner@) && line_exists_spec(
                split_lines_spec(content@),
                oneliner@,
            ),
            StoreOutcome::Append(line) => is_single_line(oneliner@) && !line_exists_spec(
                split_lines_spec(content@),
                oneliner@,
            ) && line@ == oneliner@ + seq!['\n'],
        },
{
    if has_line_break(oneliner) {
        return StoreOutcome::Rejected;
    }
    if line_exists_in_file(content, oneliner) {
        return StoreOutcome::Duplicate;
    }
    let line = String::from_str(oneliner).concat("\n");
    proof {
        reveal_strlit("\n");
        assert(oneliner@ + "\n"@ =~= oneliner@ + seq!['\n']);
    }
    StoreOutcome::Append(line)
}

/// Parses the interactive selection: the input, trimmed, must read as an
/// unsigned number between 1 and `count`; anything else selects nothing.
pub fn parse_selection(input: &str, count: usize) -> (r: Option<usize>)
    ensures
        match r {
            Some(choice) => parsed_usize(trim_spec(input@)) == Some(choice as int) && 1 <= choice
                <= count,
            None => parsed_usize(trim_spec(input@)) matches Some(v) ==> !(1 <= v <= count),
        },
{
    let t = trim(input);
    match parse_usize(t.as_str()) {
        Some(choice) => {
            if 1 <= choice && choice <= count {
                Some(choice)
            } else {
                None
            }
        },
        None => None,
    }
}

} // verus!
