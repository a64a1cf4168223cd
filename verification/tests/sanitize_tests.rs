use td::sanitize::sanitize_dir_name;

#[test]
fn replaces_denied_characters() {
    assert_eq!(
        sanitize_dir_name("https://example.com/my repo.git"),
        "https___example.com_my_repo.git"
    );
}

#[test]
fn replaces_every_denylist_character() {
    assert_eq!(
        sanitize_dir_name("/\\:*?\"<>| @#$%^&+=~"),
        "___________________"
    );
}

#[test]
fn trims_edge_dots_then_collapses_pairs() {
    assert_eq!(sanitize_dir_name("..a..b.."), "a_b");
}

#[test]
fn collapse_is_left_to_right() {
    assert_eq!(sanitize_dir_name("a...b"), "a_.b");
    assert_eq!(sanitize_dir_name("a....b"), "a__b");
}

#[test]
fn dots_only_becomes_empty() {
    assert_eq!(sanitize_dir_name("..."), "");
    assert_eq!(sanitize_dir_name(""), "");
}

#[test]
fn single_interior_dots_survive() {
    assert_eq!(sanitize_dir_name("git@github.com:user/repo.git"), "git_github.com_user_repo.git");
}

#[test]
fn sanitize_is_deterministic() {
    let input = "ssh://host:22/a..b.";
    assert_eq!(sanitize_dir_name(input), sanitize_dir_name(input));
}
