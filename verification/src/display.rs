//! Commit summaries: the split of a conventional summary into type, scope
//! and description, and its styled form.

use vstd::prelude::*;
use vstd::string::StringExecFns;
use crate::colors::{hash_to_background_color, label_color, Color};
use crate::style::{
    is_dark, is_painting, on_dark, paint_line, plain, runs, tinted, Run, Span, Style, Theme,
};
use crate::text::{decimal, decimal_string};

verus! {

/// A compiled regular expression of `regex`, carried through as it is.
#[verifier::external_type_specification]
#[verifier::external_body]
pub struct ExRegex(regex::Regex);

/// What `Regex::captures` of `regex` finds in a text: nothing where the
/// expression does not match; else, for each capture group from group 0 (the
/// whole match) on, the text that the group matched, or nothing for a group
/// that took no part in the match.
pub uninterp spec fn regex_captures(re: regex::Regex, text: Seq<char>) -> Option<
    Seq<Option<Seq<char>>>,
>;

/// The views of the texts of capture groups.
pub open spec fn group_views(groups: Option<Vec<Option<String>>>) -> Option<
    Seq<Option<Seq<char>>>,
> {
    match groups {
        Some(found) => Some(
            Seq::new(
                found@.len(),
                |i: int|
                    match found@[i] {
                        Some(text) => Some(text@),
                        None => None,
                    },
            ),
        ),
        None => None,
    }
}

/// The leftmost match of `re` in `text` with its capture groups, by
/// `Regex::captures` of `regex` and `Captures::iter`: the groups' texts in
/// order, group 0 first.
#[verifier::external_body]
fn capture_groups(re: &regex::Regex, text: &str) -> (groups: Option<Vec<Option<String>>>)
    ensures
        group_views(groups) == regex_captures(*re, text@),
{
    re.captures(text).map(
        |found| found.iter().map(|group| group.map(|m| m.as_str().to_string())).collect(),
    )
}

/// A commit summary taken apart.
#[derive(Clone, Debug, PartialEq, Eq)]
pub struct CommitSummary {
    pub commit_type: String,
    pub scope: Option<String>,
    pub description: String,
}

/// What a `CommitSummary` stands for.
pub struct SummaryParts {
    pub commit_type: Seq<char>,
    pub scope: Option<Seq<char>>,
    pub description: Seq<char>,
}

impl View for CommitSummary {
    type V = SummaryParts;

    open spec fn view(&self) -> SummaryParts {
        SummaryParts {
            commit_type: self.commit_type@,
            scope: match self.scope {
                Some(scope) => Some(scope@),
                None => None,
            },
            description: self.description@,
        }
    }
}

/// The parts that the capture groups of a match give: group 1 is the type,
/// group 2 the scope, group 3 the description. There are none where nothing
/// matched or where the type or the description is missing.
pub open spec fn summary_parts(groups: Option<Seq<Option<Seq<char>>>>) -> Option<SummaryParts> {
    match groups {
        Some(found) => if found.len() >= 4 && found[1] is Some && found[3] is Some {
            Some(
                SummaryParts {
                    commit_type: found[1].unwrap(),
                    scope: found[2],
                    description: found[3].unwrap(),
                },
            )
        } else {
            None
        },
        None => None,
    }
}

/// The view of a summary that may be missing.
pub open spec fn parts_view(parts: Option<CommitSummary>) -> Option<SummaryParts> {
    match parts {
        Some(parts) => Some(parts@),
        None => None,
    }
}

/// Takes the type, scope and description from the capture groups of a match.
pub fn parse_groups(groups: &Option<Vec<Option<String>>>) -> (parts: Option<CommitSummary>)
    ensures
        parts_view(parts) == summary_parts(group_views(*groups)),
{
    match groups {
        Some(found) => {
            if found.len() < 4 {
                return None;
            }
            match (&found[1], &found[3]) {
                (Some(commit_type), Some(description)) => {
                    let scope = match &found[2] {
                        Some(scope) => Some(scope.clone()),
                        None => None,
                    };
                    Some(
                        CommitSummary {
                            commit_type: commit_type.clone(),
                            scope,
                            description: description.clone(),
                        },
                    )
                },
                _ => None,
            }
        },
        None => None,
    }
}

/// The styled line of a summary: the type as a badge on the color of its
/// label; then, where there is a scope, the scope in dark grey, with nothing
/// put before it; then the description, with nothing put before it.
pub open spec fn summary_runs(parts: SummaryParts, is_dark_theme: bool) -> Seq<Run> {
    let badge = Run {
        text: parts.commit_type,
        style: Style::Badge(label_color(parts.commit_type, is_dark_theme)),
    };
    match parts.scope {
        Some(scope) => seq![badge, tinted(Color::DarkGrey, scope), plain(parts.description)],
        None => seq![badge, plain(parts.description)],
    }
}

/// The spans of a summary's styled line.
pub fn summary_spans(parts: &CommitSummary, is_dark_theme: bool) -> (line: Vec<Span>)
    ensures
        runs(line@) == summary_runs(parts@, is_dark_theme),
{
    let mut line: Vec<Span> = Vec::new();
    let color = hash_to_background_color(parts.commit_type.as_str(), is_dark_theme);
    line.push(Span { text: parts.commit_type.clone(), style: Style::Badge(color) });
    match &parts.scope {
        Some(scope) => {
            line.push(Span { text: scope.clone(), style: Style::Foreground(Color::DarkGrey) });
        },
        None => {},
    }
    line.push(Span { text: parts.description.clone(), style: Style::Plain });
    assert(runs(line@) =~= summary_runs(parts@, is_dark_theme));
    line
}

/// Whether `out` may be the formatted form of `summary`, given what the
/// pattern captured in it: where the captures give a type and a description,
/// a painting of the styled line; else the summary itself.
pub open spec fn is_formatted(
    summary: Seq<char>,
    groups: Option<Seq<Option<Seq<char>>>>,
    is_dark_theme: bool,
    out: Seq<char>,
) -> bool {
    match summary_parts(groups) {
        Some(parts) => is_painting(summary_runs(parts, is_dark_theme), out),
        None => out == summary,
    }
}

/// Formats a summary from the capture groups that the pattern found in it.
pub fn format_captures(
    summary: &str,
    groups: &Option<Vec<Option<String>>>,
    theme: &Option<Theme>,
) -> (out: String)
    ensures
        is_formatted(summary@, group_views(*groups), on_dark(*theme), out@),
{
    match parse_groups(groups) {
        Some(parts) => {
            let line = summary_spans(&parts, is_dark(theme));
            paint_line(&line)
        },
        None => summary.to_owned(),
    }
}

/// Formats a commit's summary line. Where `re` finds a type, an optional
/// scope and a description in it, the type becomes a badge in the color of
/// its label; a summary that does not match stays as it is.
pub fn format_conventional_commit(summary: &str, re: &regex::Regex, theme: &Option<Theme>) -> (out:
    String)
    ensures
        is_formatted(summary@, regex_captures(*re, summary@), on_dark(*theme), out@),
{
    let groups = capture_groups(re, summary);
    format_captures(summary, &groups, theme)
}

/// The most commits that the log shows.
pub const MAX_SHOWN: usize = 15;

/// How many of `total` commits the log shows: all of them up to the most it
/// shows.
pub open spec fn shown(total: nat) -> nat {
    if total <= 15 {
        total
    } else {
        15
    }
}

/// Tells how many of `total` commits to show.
pub fn shown_count(total: usize) -> (count: usize)
    ensures
        count == shown(total as nat),
{
    if total <= MAX_SHOWN {
        total
    } else {
        MAX_SHOWN
    }
}

/// The first line of the log: the number of commits ahead in cyan, and in
/// dark grey how many of them are left out, where any are.
pub open spec fn log_header_runs(total: nat) -> Seq<Run> {
    let lead = seq![tinted(Color::Cyan, decimal(total)), plain(" commits ahead of main"@)];
    if total > 15 {
        lead.push(
            tinted(
                Color::DarkGrey,
                " (showing first 15, "@ + decimal((total - 15) as nat) + " more hidden)"@,
            ),
        )
    } else {
        lead
    }
}

/// The spans of the log's first line.
pub fn log_header(total: usize) -> (line: Vec<Span>)
    ensures
        runs(line@) == log_header_runs(total as nat),
{
    let mut line: Vec<Span> = Vec::new();
    let count = decimal_string(total as u64);
    line.push(Span::new(count.as_str(), Style::Foreground(Color::Cyan)));
    line.push(Span::new(" commits ahead of main", Style::Plain));
    if total > MAX_SHOWN {
        let mut note = String::from_str(" (showing first 15, ");
        let hidden = decimal_string((total - MAX_SHOWN) as u64);
        note.append(hidden.as_str());
        note.append(" more hidden)");
        line.push(Span::new(note.as_str(), Style::Foreground(Color::DarkGrey)));
    }
    assert(runs(line@) =~= log_header_runs(total as nat));
    line
}

/// The first line of a diff: the number of changed files in cyan and the two
/// branches in yellow.
pub open spec fn diff_header_runs(count: nat, base: Seq<char>, head: Seq<char>) -> Seq<Run> {
    seq![
        tinted(Color::Cyan, decimal(count)),
        plain(" files changed in "@),
        tinted(Color::Yellow, base),
        plain("..."@),
        tinted(Color::Yellow, head),
    ]
}

/// The spans of a diff's first line.
pub fn diff_header(count: usize, base: &str, head: &str) -> (line: Vec<Span>)
    ensures
        runs(line@) == diff_header_runs(count as nat, base@, head@),
{
    let mut line: Vec<Span> = Vec::new();
    let number = decimal_string(count as u64);
    line.push(Span::new(number.as_str(), Style::Foreground(Color::Cyan)));
    line.push(Span::new(" files changed in ", Style::Plain));
    line.push(Span::new(base, Style::Foreground(Color::Yellow)));
    line.push(Span::new("...", Style::Plain));
    line.push(Span::new(head, Style::Foreground(Color::Yellow)));
    assert(runs(line@) =~= diff_header_runs(count as nat, base@, head@));
    line
}

/// The line of a commit: two blanks, the short identifier in yellow, the
/// formatted summary, a bullet, and the commit's age in dark grey.
pub open spec fn commit_line_runs(short_id: Seq<char>, summary: Seq<char>, age: Seq<char>) -> Seq<
    Run,
> {
    seq![
        plain("  "@),
        tinted(Color::Yellow, short_id),
        plain(" "@),
        plain(summary),
        plain(" • "@),
        tinted(Color::DarkGrey, age),
    ]
}

/// The spans of a commit's line. `summary` is the summary as it is to be
/// shown, formatted already.
pub fn commit_line(short_id: &str, summary: &str, age: &str) -> (line: Vec<Span>)
    ensures
        runs(line@) == commit_line_runs(short_id@, summary@, age@),
{
    let mut line: Vec<Span> = Vec::new();
    line.push(Span::new("  ", Style::Plain));
    line.push(Span::new(short_id, Style::Foreground(Color::Yellow)));
    line.push(Span::new(" ", Style::Plain));
    line.push(Span::new(summary, Style::Plain));
    line.push(Span::new(" • ", Style::Plain));
    line.push(Span::new(age, Style::Foreground(Color::DarkGrey)));
    assert(runs(line@) =~= commit_line_runs(short_id@, summary@, age@));
    line
}

} // verus!
