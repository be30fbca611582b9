use git_log_pretty::cli::{Cli, Commands, Request};
use git_log_pretty::git::{branch_ref, entry_path, head_source, short_id, HeadSource};

#[test]
fn a_branch_is_found_under_refs_heads() {
    assert_eq!(branch_ref("main"), "refs/heads/main");
    assert_eq!(branch_ref("feature/x"), "refs/heads/feature/x");
    assert_eq!(branch_ref(""), "refs/heads/");
}

#[test]
fn head_is_what_is_checked_out() {
    assert_eq!(head_source("HEAD"), HeadSource::Current);
}

#[test]
fn any_other_head_is_a_branch() {
    assert_eq!(head_source("dev"), HeadSource::Reference("refs/heads/dev".to_string()));
    assert_eq!(head_source("head"), HeadSource::Reference("refs/heads/head".to_string()));
    assert_eq!(head_source(""), HeadSource::Reference("refs/heads/".to_string()));
}

#[test]
fn a_short_identifier_has_seven_characters() {
    assert_eq!(short_id("0123456789abcdef0123456789abcdef01234567"), "0123456");
    assert_eq!(short_id("abcdefg"), "abcdefg");
    assert_eq!(short_id("abcdefgh"), "abcdefg");
}

#[test]
fn a_shorter_identifier_stays_whole() {
    assert_eq!(short_id("abc"), "abc");
    assert_eq!(short_id(""), "");
}

#[test]
fn no_command_asks_for_the_log() {
    assert_eq!(Cli { command: None }.request(), Request::Log);
}

#[test]
fn the_diff_command_asks_for_a_diff() {
    let cli = Cli {
        command: Some(Commands::Diff { base: "main".to_string(), head: "HEAD".to_string() }),
    };
    assert_eq!(
        cli.request(),
        Request::Diff { base: "main".to_string(), head: "HEAD".to_string() }
    );
}

#[test]
fn an_entry_at_the_top_has_its_name_as_path() {
    assert_eq!(entry_path("", "readme.md"), "readme.md");
}

#[test]
fn an_entry_below_has_its_directory_before_its_name() {
    assert_eq!(entry_path("src/", "lib.rs"), "src/lib.rs");
    assert_eq!(entry_path("a/b/", "c"), "a/b/c");
}
