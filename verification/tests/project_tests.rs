use td::project::project_dir_path;

#[test]
fn no_repository_resolves_to_fallback_root() {
    assert_eq!(project_dir_path("/home/u", None), "/home/u/.td");
}

#[test]
fn remote_resolves_to_sanitized_subdirectory() {
    assert_eq!(
        project_dir_path("/home/u", Some("https://example.com/my repo.git")),
        "/home/u/.td/https___example.com_my_repo.git"
    );
}

#[test]
fn traversal_remote_cannot_escape() {
    assert_eq!(project_dir_path("/home/u", Some("../../etc")), "/home/u/.td/___etc");
}
