use commit_graph::bulk_unlink::{
    blobstore_key_from_capture, extract_blobstore_key_from, extract_repo_id_from_key,
    no_blobstore_had_key, parse_repo_id, plan_for_key, plan_from, repo_id_from_capture,
    sanitise_check, CommandArgs, KeyError, KeyPlan,
};

#[test]
fn repository_is_read_out_of_a_key() {
    assert_eq!(extract_repo_id_from_key("flat/repo0002.content.blake2.abcdef"), Ok(2));
    assert_eq!(extract_repo_id_from_key("repo2103.alias.sha256.12ab"), Ok(2103));
    assert_eq!(extract_repo_id_from_key("a/repo1.x/repo77.changeset.blake2.0f"), Ok(77));
    assert_eq!(extract_repo_id_from_key("myrepo12"), Ok(1));
}

#[test]
fn lines_without_a_repository_give_no_key() {
    assert_eq!(extract_repo_id_from_key("content.blake2.abcdef"), Err(KeyError::NoCapture));
    assert_eq!(extract_repo_id_from_key("repo.content"), Err(KeyError::NoCapture));
    assert_eq!(extract_repo_id_from_key("repo7"), Err(KeyError::NoCapture));
    assert_eq!(extract_repo_id_from_key(""), Err(KeyError::NoCapture));
    assert_eq!(extract_blobstore_key_from("content.blake2.abcdef"), Err(KeyError::NoCapture));
}

#[test]
fn repository_numbers_have_to_fit() {
    assert_eq!(extract_repo_id_from_key("repo2147483647.x"), Ok(2147483647));
    assert_eq!(extract_repo_id_from_key("repo2147483648.x"), Err(KeyError::InvalidRepoId));
    assert_eq!(
        extract_repo_id_from_key("repo99999999999999999999999.x"),
        Err(KeyError::InvalidRepoId)
    );
    assert_eq!(extract_repo_id_from_key("repo00000000000000000012.x"), Ok(12));
}

#[test]
fn blobstore_key_starts_at_the_last_repository() {
    assert_eq!(
        extract_blobstore_key_from("flat/repo0002.content.blake2.abcdef"),
        Ok("repo0002.content.blake2.abcdef".to_string())
    );
    assert_eq!(
        extract_blobstore_key_from("a/repo1.x/repo77.changeset.blake2.0f"),
        Ok("repo77.changeset.blake2.0f".to_string())
    );
    assert_eq!(extract_blobstore_key_from("myrepo12"), Ok("repo12".to_string()));
}

#[test]
fn numbers_are_read_with_sign_and_leading_zeros() {
    assert_eq!(parse_repo_id("0"), Some(0));
    assert_eq!(parse_repo_id("42"), Some(42));
    assert_eq!(parse_repo_id("0007"), Some(7));
    assert_eq!(parse_repo_id("+5"), Some(5));
    assert_eq!(parse_repo_id("-5"), Some(-5));
    assert_eq!(parse_repo_id("2147483647"), Some(i32::MAX));
    assert_eq!(parse_repo_id("-2147483648"), Some(i32::MIN));
    assert_eq!(parse_repo_id("2147483648"), None);
    assert_eq!(parse_repo_id("-2147483649"), None);
    assert_eq!(parse_repo_id(""), None);
    assert_eq!(parse_repo_id("-"), None);
    assert_eq!(parse_repo_id("+"), None);
    assert_eq!(parse_repo_id("12a"), None);
    assert_eq!(parse_repo_id(" 12"), None);
    assert_eq!(parse_repo_id("1-2"), None);
    for text in ["17", "-17", "+17", "007", "x", "99999999999", "٣"] {
        assert_eq!(parse_repo_id(text), text.parse::<i32>().ok());
    }
}

#[test]
fn captures_become_keys_and_repositories() {
    assert_eq!(repo_id_from_capture(None), Err(KeyError::NoCapture));
    assert_eq!(repo_id_from_capture(Some(None)), Err(KeyError::InvalidRepoId));
    assert_eq!(repo_id_from_capture(Some(Some("31".to_string()))), Ok(31));
    assert_eq!(repo_id_from_capture(Some(Some("x".to_string()))), Err(KeyError::InvalidRepoId));
    assert_eq!(blobstore_key_from_capture(None), Err(KeyError::NoCapture));
    assert_eq!(blobstore_key_from_capture(Some(None)), Ok(String::new()));
    assert_eq!(
        blobstore_key_from_capture(Some(Some("repo1.a".to_string()))),
        Ok("repo1.a".to_string())
    );
}

#[test]
fn keys_are_checked_against_the_pattern() {
    assert!(sanitise_check("^repo[0-9]+\\.content", "repo0002.content.blake2.ab"));
    assert!(!sanitise_check("^repo[0-9]+\\.content", "repo0002.alias.sha1.ab"));
    assert!(sanitise_check("blake2", "repo0002.content.blake2.ab"));
    assert!(!sanitise_check("(", "repo0002.content.blake2.ab"));
    assert!(sanitise_check("", "anything"));
}

fn args(dry_run: bool, sanitise_regex: &str) -> CommandArgs {
    CommandArgs::new("keys".to_string(), dry_run, sanitise_regex.to_string())
}

#[test]
fn each_line_gets_its_plan() {
    let line = "flat/repo0002.content.blake2.abcdef";
    assert_eq!(plan_for_key(&args(true, "content"), line), KeyPlan::Print);
    assert_eq!(
        plan_for_key(&args(false, "content"), line),
        KeyPlan::Unlink { repo_id: 2, blobstore_key: "repo0002.content.blake2.abcdef".to_string() }
    );
    assert_eq!(
        plan_for_key(&args(false, "^flat"), line),
        KeyPlan::Refuse { blobstore_key: "repo0002.content.blake2.abcdef".to_string() }
    );
    assert_eq!(
        plan_for_key(&args(true, "alias"), line),
        KeyPlan::Refuse { blobstore_key: "repo0002.content.blake2.abcdef".to_string() }
    );
    assert_eq!(plan_for_key(&args(false, "content"), "no key here"), KeyPlan::Skip);
    assert_eq!(plan_for_key(&args(false, ".*"), "repo99999999999.content"), KeyPlan::Skip);
}

#[test]
fn plans_follow_from_what_was_read() {
    let key = || Ok("repo1.a".to_string());
    assert_eq!(plan_from(Err(KeyError::NoCapture), key(), true, false), KeyPlan::Skip);
    assert_eq!(plan_from(Ok(1), Err(KeyError::NoCapture), true, false), KeyPlan::Skip);
    assert_eq!(plan_from(Ok(1), key(), true, true), KeyPlan::Print);
    assert_eq!(
        plan_from(Ok(1), key(), false, true),
        KeyPlan::Refuse { blobstore_key: "repo1.a".to_string() }
    );
    assert_eq!(
        plan_from(Ok(1), key(), true, false),
        KeyPlan::Unlink { repo_id: 1, blobstore_key: "repo1.a".to_string() }
    );
}

#[test]
fn a_key_is_missing_where_every_blobstore_failed() {
    assert!(no_blobstore_had_key(3, 3));
    assert!(no_blobstore_had_key(0, 0));
    assert!(!no_blobstore_had_key(2, 3));
}

#[test]
fn command_arguments_keep_what_they_are_given() {
    let args = CommandArgs::new("dir".to_string(), true, "^repo".to_string());
    assert_eq!(args.keys_dir, "dir");
    assert!(args.dry_run);
    assert_eq!(args.sanitise_regex, "^repo");
}
