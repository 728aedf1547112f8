//! The ranked table: the largest directories, one line each.

use vstd::prelude::*;
use vstd::string::*;
use crate::rank::{rank, ranking, lemma_ranking_is_ranking, SizeResult, SizeResultView};
use crate::size::{format_size, size_text};
use crate::text::{decimal, flush_left, push_decimal, push_flush_left};

verus! {

/// The number of directories that a report lists at most.
pub const REPORT_LIMIT: usize = 10;

/// The width of the field that holds a line's position.
pub const POSITION_WIDTH: usize = 2;

/// The width of the field that holds a line's path.
pub const PATH_WIDTH: usize = 40;

/// The line of the table for `result` in position `position`: the
/// position, a colon, the path, a dash and the size, the position and the
/// path flush left in their fields.
pub open spec fn line_text(position: nat, result: SizeResultView) -> Seq<char> {
    flush_left(decimal(position), POSITION_WIDTH as nat) + seq![':', ' '] + flush_left(
        result.path,
        PATH_WIDTH as nat,
    ) + seq![' ', '-', ' '] + size_text(result.size)
}

/// The first `limit` of `ranked`, or all of them where there are fewer.
pub open spec fn leaders(ranked: Seq<SizeResultView>, limit: nat) -> Seq<SizeResultView> {
    if ranked.len() <= limit {
        ranked
    } else {
        ranked.take(limit as int)
    }
}

/// One line for each of `listed`, positions counted from one.
pub open spec fn table(listed: Seq<SizeResultView>) -> Seq<Seq<char>> {
    Seq::new(listed.len(), |i: int| line_text((i + 1) as nat, listed[i]))
}

/// The report on the collected `results`: the table of the leaders of
/// their ranking.
pub open spec fn report_lines(results: Seq<SizeResultView>) -> Seq<Seq<char>> {
    table(leaders(ranking(results), REPORT_LIMIT as nat))
}

/// A report has a line for every result up to the limit: none is left out
/// below it, and no line is made up.
pub proof fn lemma_report_len(results: Seq<SizeResultView>)
    ensures
        report_lines(results).len() == if results.len() <= REPORT_LIMIT {
            results.len()
        } else {
            REPORT_LIMIT as nat
        },
{
    lemma_ranking_is_ranking(results);
}

/// Renders the line of the table for `result` in position `position`.
pub fn render_line(position: usize, result: &SizeResult) -> (line: String)
    ensures
        line@ == line_text(position as nat, result@),
{
    let mut numeral = String::new();
    push_decimal(&mut numeral, position as u64);
    assert(numeral@ =~= decimal(position as nat));
    let mut line = String::new();
    push_flush_left(&mut line, numeral.as_str(), POSITION_WIDTH);
    proof {
        reveal_strlit(": ");
        reveal_strlit(" - ");
        assert(": "@ =~= seq![':', ' ']);
        assert(" - "@ =~= seq![' ', '-', ' ']);
    }
    line.append(": ");
    push_flush_left(&mut line, result.path.as_str(), PATH_WIDTH);
    line.append(" - ");
    let size = format_size(result.size);
    line.append(size.as_str());
    assert(line@ =~= line_text(position as nat, result@));
    line
}

/// Renders the table of the first `limit` of `ranked`.
pub fn render_leaders(ranked: &Vec<SizeResult>, limit: usize) -> (lines: Vec<String>)
    ensures
        lines.deep_view() == table(leaders(ranked.deep_view(), limit as nat)),
{
    let count = if ranked.len() <= limit {
        ranked.len()
    } else {
        limit
    };
    let ghost listed = leaders(ranked.deep_view(), limit as nat);
    let mut lines: Vec<String> = Vec::new();
    let mut i: usize = 0;
    while i < count
        invariant
            i <= count,
            count == listed.len(),
            count <= ranked.len(),
            listed == leaders(ranked.deep_view(), limit as nat),
            lines.len() == i,
            forall|k: int| 0 <= k < i ==> lines[k]@ == line_text((k + 1) as nat, listed[k]),
        decreases count - i,
    {
        let line = render_line(i + 1, &ranked[i]);
        lines.push(line);
        i += 1;
    }
    assert(lines.deep_view() =~= table(listed));
    lines
}

/// Ranks the collected `results` and renders the table of the largest.
pub fn report(results: &Vec<SizeResult>) -> (lines: Vec<String>)
    ensures
        lines.deep_view() == report_lines(results.deep_view()),
{
    let ranked = rank(results);
    render_leaders(&ranked, REPORT_LIMIT)
}

} // verus!
