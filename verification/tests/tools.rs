use commit_graph::copytrace::{
    count_lines, generate_candidates, get_added_and_deleted_files, limit_candidates,
    metadata_answers, read_renamed_metadata_backward, read_renamed_metadata_forward, DiffEntry,
    DiffType, Key, SearchDirection,
};
use commit_graph::edenfsctl::{
    fallback_exit_code, first_step, runs_after_fallback, step_for_command, step_for_error,
    subcommand_name, FirstStep, NextStep, PYTHON_EDENFSCTL_EX_USAGE,
};
use commit_graph::gitimport::{
    bookmark_action, bookmark_name, reads_references, BookmarkAction, RefError,
};
use commit_graph::text::{has_prefix, same_text, without_first};
use commit_graph::types::ChangesetId;

fn args(words: &[&str]) -> Vec<String> {
    words.iter().map(|w| w.to_string()).collect()
}

#[test]
fn subcommand_is_the_first_argument_that_is_no_flag() {
    assert_eq!(subcommand_name(&args(&["eden.exe", "minitop"])), Some("minitop".to_string()));
    assert_eq!(subcommand_name(&args(&["eden.exe", "debug"])), Some("debug".to_string()));
    assert_eq!(subcommand_name(&args(&["eden.exe", "--xyz", "debug"])), Some("debug".to_string()));
    assert_eq!(
        subcommand_name(&args(&["eden.exe", "-v", "--xyz", "du", "status"])),
        Some("du".to_string())
    );
    assert_eq!(subcommand_name(&args(&["eden.exe", ""])), Some(String::new()));
    assert_eq!(subcommand_name(&args(&["eden.exe", "--help"])), None);
    assert_eq!(subcommand_name(&args(&["eden.exe"])), None);
    assert_eq!(subcommand_name(&args(&[])), None);
    assert_eq!(subcommand_name(&args(&["status"])), None);
}

#[test]
fn requests_start_as_the_environment_says() {
    assert_eq!(first_step(true, false), FirstStep::ParseAndRun);
    assert_eq!(first_step(true, true), FirstStep::ParseAndRun);
    assert_eq!(first_step(false, true), FirstStep::Fallback);
    assert_eq!(first_step(false, false), FirstStep::TryParse);
}

#[test]
fn parsed_commands_run_where_they_are_enabled() {
    assert_eq!(step_for_command(true), NextStep::Run);
    assert_eq!(step_for_command(false), NextStep::FallbackThenRun);
    assert_eq!(step_for_error(true, Some(true)), NextStep::PrintHelp);
    assert_eq!(step_for_error(true, Some(false)), NextStep::Fallback);
    assert_eq!(step_for_error(true, None), NextStep::Fallback);
    assert_eq!(step_for_error(false, Some(true)), NextStep::Fallback);
    assert_eq!(PYTHON_EDENFSCTL_EX_USAGE, 64);
    assert!(runs_after_fallback(64));
    assert!(!runs_after_fallback(0));
    assert!(!runs_after_fallback(1));
    assert_eq!(fallback_exit_code(Some(3)), 3);
    assert_eq!(fallback_exit_code(None), 1);
}

#[test]
fn references_become_bookmark_names() {
    assert_eq!(bookmark_name("refs/heads/main"), Ok(Some("heads/main".to_string())));
    assert_eq!(bookmark_name("refs/tags/v1.0"), Ok(Some("tags/v1.0".to_string())));
    assert_eq!(
        bookmark_name("refs/remotes/origin/feature/x"),
        Ok(Some("heads/feature/x".to_string()))
    );
    assert_eq!(
        bookmark_name("refs/remotes/upstream/main"),
        Ok(Some("remotes/upstream/main".to_string()))
    );
    assert_eq!(
        bookmark_name("refs/heads/remotes/origin/x"),
        Ok(Some("heads/remotes/origin/x".to_string()))
    );
    assert_eq!(bookmark_name("refs/"), Ok(Some(String::new())));
}

#[test]
fn the_head_gets_no_bookmark() {
    assert_eq!(bookmark_name("refs/heads/HEAD"), Ok(None));
    assert_eq!(bookmark_name("refs/remotes/origin/HEAD"), Ok(None));
    assert_eq!(bookmark_name("refs/heads/HEAD2"), Ok(Some("heads/HEAD2".to_string())));
}

#[test]
fn references_have_to_be_under_refs() {
    assert_eq!(bookmark_name("heads/main"), Err(RefError::NotUnderRefs));
    assert_eq!(bookmark_name("HEAD"), Err(RefError::NotUnderRefs));
    assert_eq!(bookmark_name(""), Err(RefError::NotUnderRefs));
    assert_eq!(bookmark_name("refs"), Err(RefError::NotUnderRefs));
    for reference in ["refs/heads/a", "refs/remotes/origin/b", "x", "refs/tags/ü"] {
        let expected = reference.strip_prefix("refs/").map(|name| {
            if name.starts_with("remotes/origin/") {
                name.replacen("remotes/origin/", "heads/", 1)
            } else {
                name.to_string()
            }
        });
        assert_eq!(bookmark_name(reference).ok().flatten(), expected);
    }
}

fn id(n: u8) -> ChangesetId {
    ChangesetId::from_bytes([n; 32])
}

#[test]
fn bookmarks_are_created_moved_or_left() {
    assert_eq!(bookmark_action(None, id(1)), BookmarkAction::Create);
    assert_eq!(bookmark_action(Some(id(1)), id(1)), BookmarkAction::UpToDate);
    assert_eq!(bookmark_action(Some(id(2)), id(1)), BookmarkAction::Move { from: id(2) });
    assert!(reads_references(false, false));
    assert!(reads_references(true, true));
    assert!(reads_references(false, true));
    assert!(!reads_references(true, false));
}

#[test]
fn text_helpers() {
    assert!(has_prefix("refs/heads", "refs/"));
    assert!(has_prefix("refs/", "refs/"));
    assert!(has_prefix("anything", ""));
    assert!(!has_prefix("ref", "refs/"));
    assert!(!has_prefix("Refs/heads", "refs/"));
    assert_eq!(without_first("refs/heads", 5), "heads");
    assert_eq!(without_first("äbc", 1), "bc");
    assert_eq!(without_first("abc", 3), "");
    assert!(same_text("abc", "abc"));
    assert!(!same_text("abc", "abd"));
    assert!(!same_text("abc", "ab"));
}

fn key(path: &str, n: u8) -> Key {
    Key { path: path.to_string(), hgid: [n; 20] }
}

#[test]
fn differences_are_split_into_added_and_deleted() {
    let entries = vec![
        DiffEntry { path: "a".to_string(), diff_type: DiffType::RightOnly([1; 20]) },
        DiffEntry { path: "b".to_string(), diff_type: DiffType::LeftOnly([2; 20]) },
        DiffEntry { path: "c".to_string(), diff_type: DiffType::Changed([3; 20], [4; 20]) },
        DiffEntry { path: "d".to_string(), diff_type: DiffType::RightOnly([5; 20]) },
    ];
    let (added, deleted) = get_added_and_deleted_files(&entries);
    assert_eq!(added, vec![key("a", 1), key("d", 5)]);
    assert_eq!(deleted, vec![key("b", 2)]);
    assert_eq!(
        generate_candidates(added.clone(), deleted.clone(), SearchDirection::Forward),
        added
    );
    assert_eq!(generate_candidates(added, deleted.clone(), SearchDirection::Backward), deleted);
    assert_eq!(get_added_and_deleted_files(&vec![]), (vec![], vec![]));
}

#[test]
fn recorded_renames_are_read() {
    let renames = vec![
        (key("new/a", 1), None),
        (key("new/b", 2), Some(key("old/x", 3))),
        (key("new/c", 4), Some(key("old/b", 5))),
        (key("new/d", 6), Some(key("old/b", 7))),
    ];
    assert_eq!(read_renamed_metadata_forward(&renames, "old/b"), Some("new/c".to_string()));
    assert_eq!(read_renamed_metadata_forward(&renames, "old/x"), Some("new/b".to_string()));
    assert_eq!(read_renamed_metadata_forward(&renames, "old/y"), None);
    assert_eq!(read_renamed_metadata_forward(&vec![], "old/b"), None);
    assert_eq!(read_renamed_metadata_backward(&renames), None);
    assert_eq!(read_renamed_metadata_backward(&renames[1..].to_vec()), Some("old/x".to_string()));
    assert_eq!(read_renamed_metadata_backward(&vec![]), None);
    assert!(metadata_answers(true, true));
    assert!(metadata_answers(true, false));
    assert!(metadata_answers(false, false));
    assert!(!metadata_answers(false, true));
}

#[test]
fn candidates_are_limited() {
    let candidates = vec![key("a/b/c.txt", 0), key("a/d.txt", 0), key("a/b/c.md", 0), key("e", 0)];
    assert_eq!(
        limit_candidates(candidates.clone(), 2),
        vec![key("a/b/c.txt", 0), key("a/d.txt", 0)]
    );
    assert_eq!(limit_candidates(candidates.clone(), 4), candidates);
    assert_eq!(limit_candidates(candidates.clone(), 10), candidates);
    assert_eq!(limit_candidates(candidates, 0), vec![]);
}

#[test]
fn lines_are_counted() {
    assert_eq!(count_lines(&b"a\nb\nc".to_vec()), 2);
    assert_eq!(count_lines(&b"\n\n\n".to_vec()), 3);
    assert_eq!(count_lines(&b"no end".to_vec()), 0);
    assert_eq!(count_lines(&vec![]), 0);
}
