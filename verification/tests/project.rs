use pick::file::normalize;
use pick::project::{Id, Project};

fn id(path: &str) -> Id {
    Id::new(path)
}

#[test]
fn the_id_is_deterministic_and_named_after_the_project() {
    assert_eq!(id("/home/user/code/pick"), id("/home/user/code/pick"));

    let name = id("/home/user/code/pick");
    assert!(name.as_str().starts_with("pick-"), "{}", name.as_str());
    assert_eq!(name.as_str().len(), "pick-".len() + 8);

    assert_ne!(id("/home/user/code/pick"), id("/home/user/code/other"));
}

#[test]
fn the_id_is_pinned_for_a_known_project() {
    assert_eq!(id("/home/user/code/pick").as_str(), "pick-30941fe7");
}

#[test]
fn a_path_without_a_name_is_named_after_the_hash() {
    let name = id("/");
    assert_eq!(name.as_str().len(), 8);
    assert!(name.as_str().chars().all(|c| c.is_ascii_hexdigit()));
}

#[test]
fn a_trailing_separator_keeps_the_name() {
    assert!(id("/home/user/code/pick/").as_str().starts_with("pick-"));
}

#[test]
fn normalizes_equivalent_paths() {
    assert_eq!(normalize("./src/main.rs"), "src/main.rs");
    assert_eq!(normalize("src/../main.rs"), "main.rs");
    assert_eq!(normalize("/src/./main.rs"), "/src/main.rs");
}

#[test]
fn a_parent_above_the_root_stays_and_repeated_separators_fold() {
    assert_eq!(normalize("/.."), "/..");
    assert_eq!(normalize("a//b/"), "a/b");
    assert_eq!(normalize("../x"), "../x");
}

#[test]
fn joining_a_relative_path_follows_the_project() {
    let project = Project::new("/home/user/code/pick".to_owned());
    assert_eq!(project.join("src/main.rs"), "/home/user/code/pick/src/main.rs");
    assert_eq!(project.join("/etc/hosts"), "/etc/hosts");
    assert_eq!(project.id.as_str(), "pick-30941fe7");
}

#[test]
fn the_data_directory_is_named_after_the_id() {
    let project = Project::new("/home/user/code/pick".to_owned());
    assert!(project.data_dir().ends_with(b"/pick/pick-30941fe7"));
}

#[test]
fn a_data_directory_keeps_each_project_under_pick() {
    let project = Project::new("/home/user/code/pick".to_owned());
    assert_eq!(
        pick::project::data_dir_in(b"/home/user/.local/share", &project.id),
        b"/home/user/.local/share/pick/pick-30941fe7".to_vec()
    );
    assert_eq!(pick::project::data_dir_in(b"", &project.id), b"pick/pick-30941fe7".to_vec());
    assert_eq!(pick::project::data_dir_in(b"/data/", &project.id), b"/data/pick/pick-30941fe7".to_vec());
    // A directory whose name is not UTF-8 is kept byte for byte.
    assert_eq!(
        pick::project::data_dir_in(&[b'/', 0xff, b'x'], &project.id),
        [&[b'/', 0xff, b'x'][..], b"/pick/pick-30941fe7"].concat()
    );
}

#[test]
fn normalizing_a_normalized_path_changes_nothing() {
    for path in ["a/./b/../c", "../../x/./y/..", "/a/../../b", "a//b///c/", "./", "x/y/../../.."] {
        let once = normalize(path);
        assert_eq!(normalize(&once), once);
    }
    assert_eq!(normalize("a/./b/../c"), "a/c");
    assert_eq!(normalize("x/y/../../.."), "..");
}
