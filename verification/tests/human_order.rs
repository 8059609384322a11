use rimg::executor::human::{compare_human, has_readable_digit_runs};
use rimg::executor::natural::Precedence;
use rimg::executor::numbering::Numbering;
use rimg::executor::rename::{Action, RenameSession, RetryPolicy};
use rimg::executor::sorting::{sort_human, sort_in_order, SortOrder};

#[test]
fn human_order_reads_numbers() {
    assert_eq!(compare_human("item200", "item3"), Some(Precedence::After));
    assert_eq!(compare_human("item3", "item200"), Some(Precedence::Before));
    assert_eq!(compare_human("item3", "item3"), Some(Precedence::Same));
    assert_eq!(compare_human("img01", "img1"), Some(Precedence::Before));
    assert_eq!(compare_human("a123456789", "a123456788"), Some(Precedence::After));
}

#[test]
fn numbers_beyond_32_bits_are_not_compared() {
    assert_eq!(compare_human("a4294967296", "a1"), None);
    assert_eq!(compare_human("a1", "b12345678901234567890"), None);
    assert_eq!(compare_human("a4294967295", "a4294967294"), Some(Precedence::After));
    assert_eq!(compare_human("a1234567890", "a1"), Some(Precedence::After));
    assert_eq!(compare_human("x00000000000000000001", "x2"), Some(Precedence::Before));
    assert!(has_readable_digit_runs("4294967295x0004294967295"));
    assert!(!has_readable_digit_runs("x4294967296"));
    assert!(has_readable_digit_runs("x0000000000"));
    assert!(has_readable_digit_runs(""));
}

#[test]
fn human_sort_of_file_names() {
    let mut files = vec![
        String::from("file10.txt"),
        String::from("file2.txt"),
        String::from("file1.txt"),
    ];
    assert!(sort_human(&mut files));
    assert_eq!(files, vec!["file1.txt", "file2.txt", "file10.txt"]);
    let mut files = vec![String::from("b"), String::from("a12345678901"), String::from("a")];
    assert!(!sort_human(&mut files));
    assert_eq!(files, vec!["b", "a12345678901", "a"]);
    assert!(sort_in_order(&mut files, SortOrder::Natural));
    assert_eq!(files[2], "b");
}

#[test]
fn renaming_in_human_order() {
    let files = vec![String::from("page10.jpg"), String::from("page9.jpg")];
    let numbering = Numbering { digit: 3, initial: 1, step: 1 };
    let session =
        RenameSession::sorted(files, SortOrder::Human, numbering, RetryPolicy::Forever).unwrap();
    assert_eq!(session.files(), &vec![String::from("page9.jpg"), String::from("page10.jpg")]);
    assert_eq!(session.action(), Action::Probe { name: String::from("001.jpg") });
    let files = vec![String::from("page12345678901.jpg")];
    assert!(RenameSession::sorted(files, SortOrder::Human, numbering, RetryPolicy::Forever)
        .is_none());
    let files = vec![String::from("page12345678901.jpg")];
    assert!(RenameSession::sorted(files, SortOrder::Natural, numbering, RetryPolicy::Forever)
        .is_some());
}
