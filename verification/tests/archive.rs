use rimg::executor::compress::{
    archive_file_name, archive_format, archiver_succeeded, list_archive_entries, list_archives,
    output_directory, rar_compress_arguments, rar_validate_arguments, ArchiveFormat,
    ValidationResults, ValidationSummary,
};
use rimg::executor::numbering::Numbering;
use rimg::executor::utils::{Entry, EntryKind};
use rimg::params::compress::CompressParams;
use rimg::params::rename::RenameParams;

fn entry(name: &str, kind: EntryKind) -> Entry {
    Entry { file_name: String::from(name), kind }
}

fn params(output_dir: Option<&str>) -> CompressParams {
    CompressParams {
        input_dir: String::from("/in"),
        output_dir: output_dir.map(String::from),
        format_type: String::from("zip"),
        validate: false,
        validate_only: false,
        yes: true,
    }
}

#[test]
fn format_names() {
    assert_eq!(archive_format("rar"), Some(ArchiveFormat::Rar));
    assert_eq!(archive_format("zip"), Some(ArchiveFormat::Zip));
    assert_eq!(archive_format("RAR"), None);
    assert_eq!(archive_format(""), None);
}

#[test]
fn archive_goes_to_the_output_directory_if_given() {
    assert_eq!(output_directory(&params(None)), "/in");
    assert_eq!(output_directory(&params(Some("/out"))), "/out");
    assert_eq!(archive_file_name("vol1", "rar"), "vol1.rar");
    assert_eq!(archive_file_name("vol.1", "zip"), "vol.1.zip");
}

#[test]
fn archive_entries_and_archives() {
    let entries = vec![
        entry("a.jpg", EntryKind::File),
        entry(".thumbs", EntryKind::Directory),
        entry("sub", EntryKind::Directory),
        entry("old.rar", EntryKind::File),
        entry("old.zip", EntryKind::File),
        entry("rar", EntryKind::File),
    ];
    assert_eq!(list_archive_entries(&entries), vec!["a.jpg", "sub", "old.rar", "old.zip", "rar"]);
    assert_eq!(list_archives(&entries, "rar"), vec!["old.rar"]);
    assert_eq!(list_archives(&entries, "zip"), vec!["old.zip"]);
    assert_eq!(list_archives(&entries, "7z").len(), 0);
}

#[test]
fn rar_is_invoked_with_these_arguments() {
    assert_eq!(
        rar_compress_arguments("/out/vol1.rar", vec![String::from("a.jpg"), String::from("sub")]),
        vec!["a", "-r", "-m5", "--", "/out/vol1.rar", "a.jpg", "sub"]
    );
    assert_eq!(rar_compress_arguments("x.rar", vec![]), vec!["a", "-r", "-m5", "--", "x.rar"]);
    assert_eq!(rar_validate_arguments("vol1.rar"), vec!["t", "--", "vol1.rar"]);
    assert!(archiver_succeeded(Some(0)));
    assert!(!archiver_succeeded(Some(1)));
    assert!(!archiver_succeeded(None));
}

#[test]
fn validation_results_add_up() {
    let mut results = ValidationResults::new();
    assert!(results.is_empty());
    results.insert("a.zip", true);
    results.insert("b.zip", false);
    results.insert("c.zip", true);
    results.insert("d.zip", false);
    assert_eq!(results.summarize(), ValidationSummary { total: 4, valid: 2, invalid: 2 });
    assert_eq!(results.list_invalid(), vec!["b.zip", "d.zip"]);
    assert_eq!(results.file_names(), vec!["a.zip", "b.zip", "c.zip", "d.zip"]);
    assert_eq!(
        ValidationResults::new().summarize(),
        ValidationSummary { total: 0, valid: 0, invalid: 0 }
    );
}

#[test]
fn a_file_name_has_one_result() {
    let mut results = ValidationResults::new();
    results.insert("a.zip", false);
    results.insert("b.zip", false);
    results.insert("a.zip", true);
    assert_eq!(results.len(), 2);
    assert_eq!(results.file_names(), vec!["a.zip", "b.zip"]);
    assert_eq!(results.summarize(), ValidationSummary { total: 2, valid: 1, invalid: 1 });
    assert_eq!(results.list_invalid(), vec!["b.zip"]);
}

#[test]
fn options_give_the_numbering() {
    let options = RenameParams {
        input_dir: String::from("/in"),
        digit: 4,
        extensions: vec![String::from("jpg"), String::from("jpeg")],
        initial: 70000,
        step: 3,
        yes: false,
    };
    assert_eq!(options.numbering(), Numbering { digit: 4, initial: 70000, step: 3 });
    let options = rimg::params::RenameParams {
        input_dir: String::from("/in"),
        digit: 2,
        extensions: vec![String::from("jpg")],
        initial: 255,
        step: 1,
        yes: true,
    };
    assert_eq!(options.numbering(), Numbering { digit: 2, initial: 255, step: 1 });
}
