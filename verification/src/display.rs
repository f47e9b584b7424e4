//! Search results as they are shown.
use crate::encoding;
use crate::number;
use crate::search;
use crate::search::{Match, MatchView};
use crate::text;
use vstd::prelude::*;

verus! {

/// A search result that is ready to be shown.
pub struct DisplayMatch {
    pub path: String,
    pub line_number: usize,
    pub column: usize,
    pub line: String,
}

/// A search result that is ready to be shown, as mathematical values.
pub struct DisplayView {
    pub path: Seq<char>,
    pub line_number: int,
    pub column: int,
    pub line: Seq<char>,
}

impl View for DisplayMatch {
    type V = DisplayView;

    open spec fn view(&self) -> DisplayView {
        DisplayView {
            path: self.path@,
            line_number: self.line_number as int,
            column: self.column as int,
            line: self.line@,
        }
    }
}

/// The results in a list.
pub open spec fn display_views(list: Seq<DisplayMatch>) -> Seq<DisplayView> {
    list.map_values(|m: DisplayMatch| m@)
}

/// A match as it is shown: its path as text.
pub open spec fn shown(m: MatchView) -> DisplayView {
    DisplayView {
        path: encoding::lossy(m.path),
        line_number: m.line_number,
        column: m.column,
        line: m.line,
    }
}

/// Matches as they are shown.
pub open spec fn all_shown(matches: Seq<MatchView>) -> Seq<DisplayView> {
    matches.map_values(|m: MatchView| shown(m))
}

/// The row of a result: path, line number, column and line, with tabs between.
pub open spec fn row(m: DisplayView) -> Seq<char> {
    m.path + seq!['\t'] + number::decimal(m.line_number as nat) + seq!['\t'] + number::decimal(
        m.column as nat,
    ) + seq!['\t'] + m.line
}

/// The rows of the first `limit` results.
pub open spec fn rows(results: Seq<DisplayView>, limit: int) -> Seq<Seq<char>> {
    search::at_most(results, limit).map_values(|m: DisplayView| row(m))
}

proof fn lemma_digits_have_no_tab(n: nat)
    ensures
        !number::decimal(n).contains('\t'),
{
    number::law_decimal_read_back(n, n as int);
    let digits = number::decimal(n);
    assert forall|i: int| 0 <= i < digits.len() implies digits[i] != '\t' by {
        assert(number::is_digit(digits[i]));
    }
}

/// The four fields of a row can be told apart at its first three tabs, as long
/// as the path holds no tab.
pub proof fn law_row_has_four_fields(m: DisplayView)
    requires
        !m.path.contains('\t'),
    ensures
        ({
            let line = m.line;
            let column = number::decimal(m.column as nat) + seq!['\t'] + line;
            let rest = number::decimal(m.line_number as nat) + seq!['\t'] + column;
            &&& text::split_once(row(m), '\t') == Some((m.path, rest))
            &&& text::split_once(rest, '\t') == Some(
                (number::decimal(m.line_number as nat), column),
            )
            &&& text::split_once(column, '\t') == Some((number::decimal(m.column as nat), line))
        }),
{
    let column = number::decimal(m.column as nat) + seq!['\t'] + m.line;
    let rest = number::decimal(m.line_number as nat) + seq!['\t'] + column;
    lemma_digits_have_no_tab(m.line_number as nat);
    lemma_digits_have_no_tab(m.column as nat);
    assert(row(m) =~= m.path + seq!['\t'] + rest);
    text::lemma_split_once_is(m.path, '\t', rest);
    text::lemma_split_once_is(number::decimal(m.line_number as nat), '\t', column);
    text::lemma_split_once_is(number::decimal(m.column as nat), '\t', m.line);
}

/// Results that are put behind others do not change the rows of the others.
pub proof fn law_first_results_stay(
    first: Seq<DisplayView>,
    more: Seq<DisplayView>,
    limit: int,
)
    requires
        0 <= limit,
    ensures
        rows(first + more, limit).len() <= limit,
        rows(first, limit).is_prefix_of(rows(first + more, limit)),
{
    let a = rows(first, limit);
    let b = rows(first + more, limit);
    assert(a =~= b.subrange(0, a.len() as int));
}

impl DisplayMatch {
    /// A match as it is shown; see [`shown`].
    pub fn from(value: Match) -> (result: DisplayMatch)
        ensures
            result@ == shown(value@),
    {
        DisplayMatch {
            path: encoding::decode_lossy(value.path.as_slice()),
            line_number: value.line_number,
            column: value.column,
            line: value.line,
        }
    }

    /// The row that is printed for this result; see [`row`].
    pub fn to_row(&self) -> (printed: String)
        ensures
            printed@ == row(self@),
    {
        let mut out = self.path.clone();
        out.push('\t');
        number::push_decimal(&mut out, self.line_number as u64);
        out.push('\t');
        number::push_decimal(&mut out, self.column as u64);
        out.push('\t');
        out.append(self.line.as_str());
        assert(out@ =~= row(self@));
        out
    }
}

/// Puts matches behind the results that are to be shown.
pub fn extend_results(results: &mut Vec<DisplayMatch>, matches: Vec<Match>)
    ensures
        display_views(final(results)@) == display_views(old(results)@) + all_shown(
            search::match_views(matches@),
        ),
{
    let ghost start = display_views(results@);
    let ghost all = all_shown(search::match_views(matches@));
    assert(start + all.take(0) =~= start);
    for m in it: matches.into_iter()
        invariant
            all == all_shown(search::match_views(it.seq())),
            display_views(results@) == start + all.take(it.index()),
    {
        let ghost before = results@;
        let result = DisplayMatch::from(m);
        assert(result@ == all[it.index()]);
        results.push(result);
        assert(display_views(results@) =~= display_views(before).push(result@));
        assert(all.take(it.index() + 1) =~= all.take(it.index()).push(result@));
    }
    assert(all.take(all.len() as int) =~= all);
}

/// The rows to print: those of the first `limit` results.
pub fn result_rows(results: &Vec<DisplayMatch>, limit: usize) -> (printed: Vec<String>)
    ensures
        text::texts(printed@) == rows(display_views(results@), limit as int),
{
    let ghost all = rows(display_views(results@), limit as int);
    let n: usize = if limit < results.len() {
        limit
    } else {
        results.len()
    };
    let mut printed: Vec<String> = Vec::new();
    let mut i: usize = 0;
    assert(all.len() == n);
    assert(text::texts(printed@) =~= all.take(0));
    while i < n
        invariant
            i <= n <= results@.len(),
            n <= limit,
            all == rows(display_views(results@), limit as int),
            all.len() == n,
            text::texts(printed@) == all.take(i as int),
        decreases n - i,
    {
        let ghost before = printed@;
        let line = results[i].to_row();
        assert(line@ == all[i as int]);
        printed.push(line);
        assert(text::texts(printed@) =~= text::texts(before).push(line@));
        assert(all.take(i + 1) =~= all.take(i as int).push(all[i as int]));
        i += 1;
    }
    assert(all.take(i as int) =~= all);
    printed
}

/// As many results are shown as there are matches, in their order. Each has the
/// line number, the column and the line of its match, and its path as text.
pub proof fn law_every_match_is_shown(matches: Seq<MatchView>, i: int)
    ensures
        all_shown(matches).len() == matches.len(),
        0 <= i < matches.len() ==> {
            &&& all_shown(matches)[i].path == encoding::lossy(matches[i].path)
            &&& all_shown(matches)[i].line_number == matches[i].line_number
            &&& all_shown(matches)[i].column == matches[i].column
            &&& all_shown(matches)[i].line == matches[i].line
        },
{
}

/// As many rows are printed as there are results, up to the limit, and each is
/// that of the result at its place.
pub proof fn law_every_result_has_its_row(results: Seq<DisplayView>, limit: int, i: int)
    requires
        0 <= limit,
    ensures
        rows(results, limit).len() == (if results.len() < limit {
            results.len() as int
        } else {
            limit
        }),
        0 <= i < rows(results, limit).len() ==> rows(results, limit)[i] == row(results[i]),
{
}

/// A row is the path, a tab, the line number, a tab, the column, a tab and the
/// line, whatever they hold.
pub proof fn law_row_holds_all(m: DisplayView)
    ensures
        row(m) == m.path + ((seq!['\t'] + number::decimal(m.line_number as nat)) + ((seq!['\t']
            + number::decimal(m.column as nat)) + (seq!['\t'] + m.line))),
{
    assert(row(m) =~= m.path + ((seq!['\t'] + number::decimal(m.line_number as nat)) + ((seq![
        '\t',
    ] + number::decimal(m.column as nat)) + (seq!['\t'] + m.line))));
}

} // verus!
