use crossterm::style::Colored;
use git_log_pretty::colors::Color;
use git_log_pretty::display::{
    commit_line, diff_header, format_conventional_commit, log_header,
};
use git_log_pretty::icons::get_file_icons;
use git_log_pretty::report::{
    diff_report, log_opening, log_report, newest_first, notice_spans, print_pretty_commit,
    CommitInfo,
};
use git_log_pretty::style::{paint_line, paint_span, Span, Style, Theme};
use regex::Regex;

const ID: &str = "0123456789abcdef0123456789abcdef01234567";

fn pattern() -> Regex {
    Regex::new(r"^([A-Za-z]+)(?:\(([^)]+)\))?:(.*)$").unwrap()
}

fn strings(items: &[&str]) -> Vec<String> {
    items.iter().map(|s| s.to_string()).collect()
}

fn green(text: &str) -> String {
    paint_span(&Span::new(text, Style::Foreground(Color::Green)))
}

fn commit(message: &str, timestamp: i64, files: &[&str]) -> CommitInfo {
    CommitInfo {
        id: ID.to_string(),
        message: message.to_string(),
        timestamp,
        changed_files: strings(files),
    }
}

#[test]
fn a_commit_is_shown_as_line_tree_and_empty_line() {
    Colored::set_ansi_color_disabled(false);
    let theme = Some(Theme::Dark);
    let files = strings(&["src/lib.rs", "readme.md"]);
    let message = "  feat(cli): add flag \r\n\nThe body of the message.\n";
    let block = print_pretty_commit(ID, message, 1_000, 1_000 + 7_200, &files, &theme, &pattern());
    let summary = format_conventional_commit("feat(cli): add flag", &pattern(), &theme);
    assert_eq!(
        block,
        vec![
            paint_line(&commit_line("0123456", &summary, "2 hours ago")),
            get_file_icons(&files, &theme),
            String::new(),
        ]
    );
    assert!(block[0].contains("0123456"));
    assert!(!block[0].contains("01234567"));
    assert!(block[0].contains("2 hours ago"));
    assert!(block[0].contains(" \u{2022} "));
}

#[test]
fn a_commit_without_files_is_shown_without_tree() {
    Colored::set_ansi_color_disabled(false);
    let block = print_pretty_commit(ID, "plain summary", 50, 60, &[], &None, &pattern());
    assert_eq!(
        block,
        vec![paint_line(&commit_line("0123456", "plain summary", "just now")), String::new()]
    );
}

#[test]
fn a_diff_without_changes_is_a_notice() {
    Colored::set_ansi_color_disabled(false);
    assert_eq!(diff_report(&[], "main", "HEAD", &None), vec![green("No changes found")]);
}

#[test]
fn a_diff_is_shown_as_header_and_tree() {
    Colored::set_ansi_color_disabled(false);
    let theme = Some(Theme::Light);
    let files = strings(&["a/b/c.txt", "d.txt"]);
    assert_eq!(
        diff_report(&files, "main", "topic", &theme),
        vec![
            paint_line(&diff_header(2, "main", "topic")),
            String::new(),
            get_file_icons(&files, &theme),
            String::new(),
        ]
    );
}

#[test]
fn a_log_without_commits_is_a_notice() {
    Colored::set_ansi_color_disabled(false);
    assert_eq!(log_report(0, &[], 0, &None, &pattern()), vec![green("All caught up with main")]);
}

#[test]
fn a_log_is_shown_as_header_and_the_commits_in_order() {
    Colored::set_ansi_color_disabled(false);
    let theme = Some(Theme::Dark);
    let now = 10 * 86400;
    let commits =
        vec![commit("fix: newest", now - 30, &["x.rs"]), commit("older", now - 3 * 86400, &[])];
    let mut expected = vec![paint_line(&log_header(2)), String::new()];
    for each in &commits {
        expected.extend(print_pretty_commit(
            &each.id,
            &each.message,
            each.timestamp,
            now,
            &each.changed_files,
            &theme,
            &pattern(),
        ));
    }
    let report = log_report(2, &commits, now, &theme, &pattern());
    assert_eq!(report, expected);
    assert_eq!(report.len(), 2 + 3 + 2);
    assert!(report[2].contains("just now"));
    assert!(report[5].contains("3 days ago"));
}

#[test]
fn a_long_log_tells_how_many_commits_are_hidden() {
    Colored::set_ansi_color_disabled(false);
    let commits = vec![commit("one", 0, &[])];
    let report = log_report(40, &commits, 0, &None, &pattern());
    assert_eq!(report[0], paint_line(&log_header(40)));
    assert!(report[0].contains("40"));
    assert!(report[0].contains(" (showing first 15, 25 more hidden)"));
    assert_eq!(report.len(), 4);
}

fn stamped(items: &[(&str, i64)]) -> Vec<(String, i64)> {
    items.iter().map(|(id, time)| (id.to_string(), *time)).collect()
}

#[test]
fn a_notice_is_its_text_in_green() {
    assert_eq!(
        notice_spans("All caught up with main"),
        vec![Span::new("All caught up with main", Style::Foreground(Color::Green))]
    );
}

#[test]
fn a_notice_is_painted_green() {
    Colored::set_ansi_color_disabled(false);
    assert_eq!(
        log_opening(0),
        vec!["\u{1b}[38;5;10mAll caught up with main\u{1b}[39m".to_string()]
    );
    assert_eq!(
        diff_report(&[], "main", "HEAD", &None),
        vec!["\u{1b}[38;5;10mNo changes found\u{1b}[39m".to_string()]
    );
}

#[test]
fn a_log_opens_with_header_and_empty_line() {
    Colored::set_ansi_color_disabled(false);
    assert_eq!(log_opening(3), vec![paint_line(&log_header(3)), String::new()]);
    assert_eq!(log_opening(3), log_report(3, &[], 0, &None, &pattern()));
    assert_eq!(log_opening(0), log_report(0, &[], 0, &None, &pattern()));
}

#[test]
fn commits_are_put_newest_first() {
    assert_eq!(
        newest_first(stamped(&[("a", 10), ("b", 30), ("c", 20), ("d", -5)])),
        stamped(&[("b", 30), ("c", 20), ("a", 10), ("d", -5)])
    );
    assert_eq!(newest_first(Vec::new()), Vec::new());
    assert_eq!(newest_first(stamped(&[("only", 1)])), stamped(&[("only", 1)]));
}

#[test]
fn commits_of_the_same_time_keep_their_order() {
    assert_eq!(
        newest_first(stamped(&[("a", 5), ("b", 9), ("c", 5), ("d", 9), ("e", 5)])),
        stamped(&[("b", 9), ("d", 9), ("a", 5), ("c", 5), ("e", 5)])
    );
}

#[test]
fn every_commit_stays_when_put_in_order() {
    let times = [7i64, 3, 9, 3, i64::MAX, i64::MIN, 0, 7];
    let commits: Vec<(String, i64)> =
        times.iter().enumerate().map(|(i, t)| (format!("c{}", i), *t)).collect();
    let mut expected = commits.clone();
    expected.sort_by(|a, b| b.1.cmp(&a.1));
    assert_eq!(newest_first(commits), expected);
}
