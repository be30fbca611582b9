//! What the viewer prints: the block of a commit, the report of a diff and
//! the log of the commits ahead, as lines.

use vstd::prelude::*;
use vstd::seq_lib::{to_multiset_build, to_multiset_insert};
use crate::colors::Color;
use crate::display::{
    commit_line, commit_line_runs, diff_header, diff_header_runs, format_conventional_commit,
    is_formatted, log_header, log_header_runs, regex_captures,
};
use crate::git::{short_form, short_id};
use crate::icons::{get_file_icons, is_tree_text};
use crate::style::{is_painting, on_dark, paint_line, runs, tinted, Span, Style, Theme};
use crate::text::{first_line, summary_line, views};
use crate::time::{format_time, relative_time};

verus! {

/// The lines of a commit: its line, the tree view of its changed files, where
/// it is not empty, and an empty line.
pub open spec fn commit_lines(line: Seq<char>, tree: Seq<char>) -> Seq<Seq<char>> {
    if tree.len() == 0 {
        seq![line, Seq::empty()]
    } else {
        seq![line, tree, Seq::empty()]
    }
}

/// Whether `block` may be the lines of a commit whose summary is shown as
/// `formatted`: its line, made of the short identifier, the summary and the
/// age; the tree view of its changed files, where it is not empty; and an
/// empty line.
pub open spec fn is_block_with(
    id: Seq<char>,
    formatted: Seq<char>,
    age: Seq<char>,
    changed_files: Seq<Seq<char>>,
    block: Seq<Seq<char>>,
) -> bool {
    exists|line: Seq<char>, tree: Seq<char>|
        {
            &&& is_painting(commit_line_runs(short_form(id), formatted, age), line)
            &&& is_tree_text(changed_files, tree)
            &&& block == #[trigger] commit_lines(line, tree)
        }
}

/// Whether `block` may be the lines of a commit, given what the pattern
/// captured in its summary: the lines of the commit with its summary
/// formatted.
pub open spec fn is_commit_block(
    id: Seq<char>,
    summary: Seq<char>,
    groups: Option<Seq<Option<Seq<char>>>>,
    is_dark_theme: bool,
    age: Seq<char>,
    changed_files: Seq<Seq<char>>,
    block: Seq<Seq<char>>,
) -> bool {
    exists|formatted: Seq<char>| #[trigger]
        is_formatted(summary, groups, is_dark_theme, formatted) && is_block_with(
            id,
            formatted,
            age,
            changed_files,
            block,
        )
}

/// The lines that show a commit: its line, the tree of the files it changed,
/// and an empty line. `id` is the commit's full identifier and `message` its
/// message, of which the first line is the summary; `timestamp` is its time
/// and `now` the present time, both in seconds from the same origin.
pub fn print_pretty_commit(
    id: &str,
    message: &str,
    timestamp: i64,
    now: i64,
    changed_files: &[String],
    theme: &Option<Theme>,
    regex: &regex::Regex,
) -> (block: Vec<String>)
    ensures
        is_commit_block(
            id@,
            first_line(message@),
            regex_captures(*regex, first_line(message@)),
            on_dark(*theme),
            relative_time(timestamp as int, now as int),
            views(changed_files@),
            views(block@),
        ),
{
    let summary = summary_line(message);
    let short = short_id(id);
    let age = format_time(timestamp, now);
    let file_icons = get_file_icons(changed_files, theme);
    let formatted = format_conventional_commit(summary.as_str(), regex, theme);
    let line = paint_line(&commit_line(short.as_str(), formatted.as_str(), age.as_str()));
    let ghost painted = line@;
    let ghost tree = file_icons@;
    let mut block: Vec<String> = Vec::new();
    block.push(line);
    if !file_icons.as_str().is_empty() {
        block.push(file_icons);
    }
    block.push(String::new());
    proof {
        let expected = if tree.len() == 0 {
            seq![painted, Seq::empty()]
        } else {
            seq![painted, tree, Seq::empty()]
        };
        assert(views(block@) =~= expected);
        assert(views(block@) == commit_lines(painted, tree));
        assert(is_block_with(id@, formatted@, age@, views(changed_files@), views(block@)));
    }
    block
}

/// A notice: a line of text in green.
pub open spec fn is_notice(text: Seq<char>, line: Seq<char>) -> bool {
    is_painting(seq![tinted(Color::Green, text)], line)
}

/// The spans of a notice: the text in green.
pub fn notice_spans(text: &str) -> (line: Vec<Span>)
    ensures
        runs(line@) == seq![tinted(Color::Green, text@)],
{
    let mut line: Vec<Span> = Vec::new();
    line.push(Span::new(text, Style::Foreground(Color::Green)));
    assert(runs(line@) =~= seq![tinted(Color::Green, text@)]);
    line
}

fn notice(text: &str) -> (line: String)
    ensures
        is_notice(text@, line@),
{
    paint_line(&notice_spans(text))
}

/// The lines of a diff with changed files: the first line, an empty line,
/// the tree view, where it is not empty, and an empty line.
pub open spec fn diff_lines(header: Seq<char>, tree: Seq<char>) -> Seq<Seq<char>> {
    if tree.len() == 0 {
        seq![header, Seq::empty(), Seq::empty()]
    } else {
        seq![header, Seq::empty(), tree, Seq::empty()]
    }
}

/// Whether `report` may be the lines that show a diff. Without changed files
/// there is a notice only. Else there are the first line, with the number of
/// files and the two branches, an empty line, the tree view of the files,
/// where it is not empty, and an empty line.
pub open spec fn is_diff_report(
    changed_files: Seq<Seq<char>>,
    base: Seq<char>,
    head: Seq<char>,
    report: Seq<Seq<char>>,
) -> bool {
    if changed_files.len() == 0 {
        exists|line: Seq<char>| is_notice("No changes found"@, line) && report == seq![line]
    } else {
        exists|header: Seq<char>, tree: Seq<char>|
            {
                &&& is_painting(diff_header_runs(changed_files.len(), base, head), header)
                &&& is_tree_text(changed_files, tree)
                &&& report == #[trigger] diff_lines(header, tree)
            }
    }
}

/// The lines that show the files that differ between two branches.
pub fn diff_report(changed_files: &[String], base: &str, head: &str, theme: &Option<Theme>) -> (report:
    Vec<String>)
    ensures
        is_diff_report(views(changed_files@), base@, head@, views(report@)),
{
    let mut report: Vec<String> = Vec::new();
    if changed_files.len() == 0 {
        let line = notice("No changes found");
        let ghost painted = line@;
        report.push(line);
        assert(views(report@) =~= seq![painted]);
        return report;
    }
    let header = paint_line(&diff_header(changed_files.len(), base, head));
    let file_icons = get_file_icons(changed_files, theme);
    let ghost painted = header@;
    let ghost tree = file_icons@;
    report.push(header);
    report.push(String::new());
    if !file_icons.as_str().is_empty() {
        report.push(file_icons);
    }
    report.push(String::new());
    proof {
        let expected = if tree.len() == 0 {
            seq![painted, Seq::empty(), Seq::empty()]
        } else {
            seq![painted, Seq::empty(), tree, Seq::empty()]
        };
        assert(views(report@) =~= expected);
        assert(views(changed_files@).len() == changed_files@.len());
        assert(is_painting(
            diff_header_runs(views(changed_files@).len(), base@, head@),
            painted,
        ));
        assert(is_tree_text(views(changed_files@), tree));
        assert(views(report@) == diff_lines(painted, tree));
    }
    report
}

/// Whether the commits, each an identifier with its time, are in order of
/// time, the newest first.
pub open spec fn is_newest_first(commits: Seq<(String, i64)>) -> bool {
    forall|i: int, j: int| 0 <= i < j < commits.len() ==> commits[i].1 >= commits[j].1
}

/// Puts commits, each an identifier with its time in seconds, in order of
/// time, the newest first. Commits of the same time keep the order in which
/// they came.
pub fn newest_first(commits: Vec<(String, i64)>) -> (out: Vec<(String, i64)>)
    ensures
        out@.to_multiset() == commits@.to_multiset(),
        is_newest_first(out@),
{
    let ghost all = commits@;
    let mut out: Vec<(String, i64)> = Vec::new();
    assert(all.take(0) =~= Seq::empty());
    for commit in it: commits
        invariant
            it.seq() == all,
            out@.to_multiset() == all.take(it.index()).to_multiset(),
            is_newest_first(out@),
    {
        let ghost k = it.index();
        let mut at: usize = 0;
        while at < out.len() && out[at].1 >= commit.1
            invariant
                at <= out.len(),
                forall|j: int| 0 <= j < at ==> out@[j].1 >= commit.1,
            decreases out.len() - at,
        {
            at += 1;
        }
        let ghost before = out@;
        out.insert(at, commit);
        proof {
            to_multiset_insert(before, at as int, commit);
            assert(all.take(k + 1) =~= all.take(k).push(commit));
            to_multiset_build(all.take(k), commit);
            assert forall|i: int, j: int| 0 <= i < j < out@.len() implies out@[i].1
                >= out@[j].1 by {
                if i < at && j > at {
                    assert(out@[i] == before[i]);
                    assert(out@[j] == before[j - 1]);
                } else if i > at {
                    assert(out@[i] == before[i - 1]);
                    assert(out@[j] == before[j - 1]);
                } else if j < at {
                    assert(out@[i] == before[i]);
                    assert(out@[j] == before[j]);
                } else if i == at {
                    assert(out@[j] == before[j - 1]);
                } else {
                    assert(out@[i] == before[i]);
                }
            }
        }
    }
    assert(all.take(all.len() as int) =~= all);
    out
}

/// What the log shows of a commit.
#[derive(Clone, Debug, PartialEq, Eq)]
pub struct CommitInfo {
    /// The commit's full identifier.
    pub id: String,
    /// Its message.
    pub message: String,
    /// Its time in seconds.
    pub timestamp: i64,
    /// The paths of the files it changed.
    pub changed_files: Vec<String>,
}

/// The blocks of lines, one after the other.
pub open spec fn all_lines(blocks: Seq<Seq<Seq<char>>>) -> Seq<Seq<char>>
    decreases blocks.len(),
{
    if blocks.len() == 0 {
        Seq::empty()
    } else {
        all_lines(blocks.drop_last()) + blocks.last()
    }
}

/// Whether `block` may be the lines of the commit `commit` in a log.
pub open spec fn is_block_of(
    commit: CommitInfo,
    now: int,
    is_dark_theme: bool,
    re: regex::Regex,
    block: Seq<Seq<char>>,
) -> bool {
    is_commit_block(
        commit.id@,
        first_line(commit.message@),
        regex_captures(re, first_line(commit.message@)),
        is_dark_theme,
        relative_time(commit.timestamp as int, now),
        views(commit.changed_files@),
        block,
    )
}

/// Whether `opening` may be the lines that open a log of `total` commits
/// ahead. Without commits ahead there is a notice only. Else there are the
/// first line, with the number of commits, and an empty line.
pub open spec fn is_log_opening(total: nat, opening: Seq<Seq<char>>) -> bool {
    if total == 0 {
        exists|line: Seq<char>|
            is_notice("All caught up with main"@, line) && opening == seq![line]
    } else {
        exists|header: Seq<char>|
            is_painting(log_header_runs(total), header) && opening == seq![header, Seq::empty()]
    }
}

/// The lines that open the log of `total` commits ahead of the main branch.
pub fn log_opening(total: usize) -> (opening: Vec<String>)
    ensures
        is_log_opening(total as nat, views(opening@)),
{
    let mut opening: Vec<String> = Vec::new();
    if total == 0 {
        let line = notice("All caught up with main");
        let ghost painted = line@;
        opening.push(line);
        assert(views(opening@) =~= seq![painted]);
    } else {
        let header = paint_line(&log_header(total));
        let ghost painted = header@;
        opening.push(header);
        opening.push(String::new());
        assert(views(opening@) =~= seq![painted, Seq::empty()]);
    }
    opening
}

/// Whether `report` may be the lines of a log of `total` commits ahead, of
/// which `commits` are shown. Without commits ahead there is a notice only.
/// Else there are the first line, with the number of commits, an empty line,
/// and the block of each commit shown, in order.
pub open spec fn is_log_report(
    total: nat,
    commits: Seq<CommitInfo>,
    now: int,
    is_dark_theme: bool,
    re: regex::Regex,
    report: Seq<Seq<char>>,
) -> bool {
    if total == 0 {
        exists|line: Seq<char>| is_notice("All caught up with main"@, line) && report == seq![line]
    } else {
        exists|header: Seq<char>, blocks: Seq<Seq<Seq<char>>>|
            {
                &&& is_painting(log_header_runs(total), header)
                &&& blocks.len() == commits.len()
                &&& forall|i: int|
                    0 <= i < commits.len() ==> is_block_of(
                        commits[i],
                        now,
                        is_dark_theme,
                        re,
                        #[trigger] blocks[i],
                    )
                &&& report == seq![header, Seq::empty()] + all_lines(blocks)
            }
    }
}

/// The lines that show the log: `total` commits are ahead of the main
/// branch, and `commits` are those of them to show, newest first.
pub fn log_report(
    total: usize,
    commits: &[CommitInfo],
    now: i64,
    theme: &Option<Theme>,
    regex: &regex::Regex,
) -> (report: Vec<String>)
    ensures
        is_log_report(
            total as nat,
            commits@,
            now as int,
            on_dark(*theme),
            *regex,
            views(report@),
        ),
{
    let mut report: Vec<String> = Vec::new();
    if total == 0 {
        let line = notice("All caught up with main");
        let ghost painted = line@;
        report.push(line);
        assert(views(report@) =~= seq![painted]);
        return report;
    }
    let header = paint_line(&log_header(total));
    let ghost painted = header@;
    report.push(header);
    report.push(String::new());
    let ghost mut blocks: Seq<Seq<Seq<char>>> = Seq::empty();
    assert(views(report@) =~= seq![painted, Seq::empty()] + all_lines(blocks));
    let mut i: usize = 0;
    while i < commits.len()
        invariant
            i <= commits.len(),
            blocks.len() == i,
            forall|k: int|
                0 <= k < i ==> is_block_of(
                    commits@[k],
                    now as int,
                    on_dark(*theme),
                    *regex,
                    #[trigger] blocks[k],
                ),
            views(report@) == seq![painted, Seq::empty()] + all_lines(blocks),
        decreases commits.len() - i,
    {
        let commit = &commits[i];
        let mut block = print_pretty_commit(
            commit.id.as_str(),
            commit.message.as_str(),
            commit.timestamp,
            now,
            commit.changed_files.as_slice(),
            theme,
            regex,
        );
        let ghost shown = views(report@);
        let ghost added = views(block@);
        proof {
            assert(is_block_of(commits@[i as int], now as int, on_dark(*theme), *regex, added));
            let longer = blocks.push(added);
            assert(longer.drop_last() =~= blocks);
            assert(all_lines(longer) == all_lines(blocks) + added);
            blocks = longer;
        }
        report.append(&mut block);
        assert(views(report@) =~= shown + added);
        i += 1;
    }
    report
}

} // verus!
