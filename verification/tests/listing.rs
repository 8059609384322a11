use rimg::executor::listing::{
    extension_listed, is_eligible, is_work_unit, list_eligible_files, list_work_units,
};
use rimg::executor::paths::path_components;
use rimg::executor::utils::{
    file_extension, have_extension, is_dir, is_file, is_hidden, is_hidden_name, is_parent,
    gen_random_path, temporary_file_name, Entry, EntryKind,
};

fn entry(name: &str, kind: EntryKind) -> Entry {
    Entry { file_name: String::from(name), kind }
}

fn extensions(list: &[&str]) -> Vec<String> {
    list.iter().map(|name| String::from(*name)).collect()
}

#[test]
fn hidden_and_other_extensions_are_not_eligible() {
    let entries = vec![
        entry(".secret.jpg", EntryKind::File),
        entry("note.txt", EntryKind::File),
        entry("page.jpg", EntryKind::File),
        entry("sub.jpg", EntryKind::Directory),
        entry("noextension", EntryKind::File),
        entry("link.jpg", EntryKind::Other),
        entry("scan.jpeg", EntryKind::File),
    ];
    assert_eq!(
        list_eligible_files(&entries, &extensions(&["jpg", "jpeg"])),
        vec!["page.jpg", "scan.jpeg"]
    );
    assert_eq!(list_eligible_files(&entries, &extensions(&["jpg"])), vec!["page.jpg"]);
    assert!(!is_eligible(&entries[0], &extensions(&["jpg"])));
    assert!(!is_eligible(&entries[1], &extensions(&["jpg"])));
    assert!(!is_eligible(&entries[4], &extensions(&["", "jpg"])));
}

#[test]
fn extension_matching_ignores_case() {
    assert!(is_eligible(&entry("IMG.JPG", EntryKind::File), &extensions(&["jpg"])));
    assert!(is_eligible(&entry("img.JpG", EntryKind::File), &extensions(&["png", "jpg"])));
    assert!(!is_eligible(&entry("IMG.JPG", EntryKind::File), &extensions(&["JPG"])));
    assert!(extension_listed(&extensions(&["a", "b"]), "b"));
    assert!(!extension_listed(&extensions(&["a", "b"]), "B"));
    assert!(!extension_listed(&extensions(&[]), "b"));
}

#[test]
fn work_units_are_visible_directories() {
    let entries = vec![
        entry("vol1", EntryKind::Directory),
        entry(".git", EntryKind::Directory),
        entry("readme.md", EntryKind::File),
        entry("vol2", EntryKind::Directory),
    ];
    assert_eq!(list_work_units(&entries), vec!["vol1", "vol2"]);
    assert!(is_work_unit(&entries[0]));
    assert!(!is_work_unit(&entries[1]));
    assert!(!is_work_unit(&entries[2]));
}

#[test]
fn entry_kinds_and_hidden_names() {
    assert!(is_file(&entry("a", EntryKind::File)));
    assert!(!is_file(&entry("a", EntryKind::Directory)));
    assert!(is_dir(&entry("a", EntryKind::Directory)));
    assert!(!is_dir(&entry("a", EntryKind::Other)));
    assert!(is_hidden(&entry(".a", EntryKind::File)));
    assert!(!is_hidden(&entry("a.", EntryKind::File)));
    assert!(is_hidden_name("."));
    assert!(!is_hidden_name(""));
}

#[test]
fn extensions_are_found_as_the_standard_library_finds_them() {
    let cases = [
        "", ".", "..", "...", "a", "a.", ".a", "a.b", "a.b.c", ".a.b", "a..b", "..a", "a.b.",
        "é.ü", "0001.jpg", ".hidden", "archive.tar.gz",
    ];
    for case in cases {
        let expected = std::path::Path::new(case)
            .extension()
            .map(|e| e.to_str().unwrap().to_string());
        assert_eq!(file_extension(case), expected, "{:?}", case);
    }
    assert!(have_extension("zip", "a.zip"));
    assert!(!have_extension("zip", "a.ZIP"));
    assert!(!have_extension("zip", "zip"));
    assert!(!have_extension("", "a"));
    assert!(have_extension("", "a."));
}

#[test]
fn same_path_is_parent() {
    assert!(is_parent("/data/in", "/data/in"));
    assert!(!is_parent("/data/in/a", "/data/in"));
    assert!(is_parent("a/b/", "a/b"));
    assert!(is_parent("a//b", "a/b"));
    assert!(is_parent("a/./b", "a/b"));
    assert!(!is_parent("./a", "a"));
    assert!(!is_parent("/a", "a"));
    assert!(!is_parent("a/b/c", "a/b"));
    assert!(!is_parent("a/../a", "a"));
}

#[test]
fn paths_are_compared_as_the_standard_library_compares_them() {
    let paths = [
        "", ".", "..", "/", "//", "/.", "./", "./.", "a", "a/", "a//", "./a", "/a", "//a", "a/b",
        "a/b/", "a//b", "a/./b", "a/b/.", "a/b/./", "./a/b", "a/..", "a/../a", ".a", "a.", "..a",
        "a/.b", "/a/b", "/a//b/", "/./a/b", "é/ü", "é//ü/", "a b", "a/b/c", ".//a", "././a",
    ];
    for left in paths {
        for right in paths {
            assert_eq!(
                is_parent(left, right),
                std::path::Path::new(left) == std::path::Path::new(right),
                "{:?} {:?}",
                left,
                right
            );
        }
    }
    assert_eq!(path_components("/a//b/./c/"), vec!["/", "a", "b", "c"]);
    assert_eq!(path_components("./a/.."), vec![".", "a", ".."]);
    assert_eq!(path_components("").len(), 0);
}

#[test]
fn random_names_have_the_extension_and_differ() {
    let first = gen_random_path("jpg");
    let second = gen_random_path("jpg");
    assert_eq!(first.chars().count(), 40);
    assert!(first.ends_with(".jpg"));
    assert_eq!(file_extension(&first), Some(String::from("jpg")));
    assert_eq!(first.matches('-').count(), 4);
    assert!(first != second);
    assert_eq!(temporary_file_name("id", "gz"), "id.gz");
    assert_eq!(temporary_file_name("id", ""), "id.");
}
