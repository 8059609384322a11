use rimg::executor::natural::{
    compare_natural, extract_number_positions, generate_natural_sort_key, Precedence,
};
use rimg::executor::sorting::sort_natural;

#[test]
fn natural_order_is_numeric_not_lexical() {
    let mut files = vec![
        String::from("img2.jpg"),
        String::from("img10.jpg"),
        String::from("img1.jpg"),
    ];
    sort_natural(&mut files);
    assert_eq!(files, vec!["img1.jpg", "img2.jpg", "img10.jpg"]);
}

#[test]
fn number_positions_of_mixed_name() {
    assert_eq!(extract_number_positions("ab12cd345"), vec![(2, 4), (6, 9)]);
    assert_eq!(extract_number_positions("7"), vec![(0, 1)]);
    assert_eq!(extract_number_positions("abc"), vec![]);
    assert_eq!(extract_number_positions(""), vec![]);
}

#[test]
fn key_has_trailing_text_segment() {
    let key = generate_natural_sort_key("img10.jpg");
    assert_eq!(key.len(), 2);
    assert_eq!(key[0].text, "img");
    assert_eq!(key[0].number, Some(10));
    assert_eq!(key[1].text, ".jpg");
    assert_eq!(key[1].number, None);
    let key = generate_natural_sort_key("42");
    assert_eq!(key.len(), 2);
    assert_eq!(key[0].text, "");
    assert_eq!(key[0].number, Some(42));
    assert_eq!(key[1].text, "");
    assert_eq!(key[1].number, None);
}

#[test]
fn two_sorts_before_ten() {
    assert_eq!(compare_natural("2", "10"), Precedence::Before);
    assert_eq!(compare_natural("10", "2"), Precedence::After);
    assert_eq!(compare_natural("img01", "img1"), Precedence::Same);
}

#[test]
fn number_too_large_for_a_word_counts_as_absent() {
    let key = generate_natural_sort_key("x99999999999999999999999999y");
    assert_eq!(key.len(), 2);
    assert_eq!(key[0].text, "x");
    assert_eq!(key[0].number, None);
    assert_eq!(key[1].text, "y");
    assert_eq!(compare_natural("x99999999999999999999999999", "x1"), Precedence::Before);
    assert_eq!(compare_natural("x1", "x99999999999999999999999999"), Precedence::After);
    assert_eq!(compare_natural("x", "x5"), Precedence::Before);
    let word = usize::MAX.to_string();
    let key = generate_natural_sort_key(&word);
    assert_eq!(key[0].number, Some(usize::MAX));
    let key = generate_natural_sort_key(&format!("000{}", word));
    assert_eq!(key[0].number, Some(usize::MAX));
    let key = generate_natural_sort_key(&format!("{}0", word));
    assert_eq!(key[0].number, None);
}

#[test]
fn text_is_compared_before_numbers() {
    assert_eq!(compare_natural("a10", "b2"), Precedence::Before);
    assert_eq!(compare_natural("0001.jpg", "a.jpg"), Precedence::Before);
    assert_eq!(compare_natural("a.jpg", "0001.jpg"), Precedence::After);
    assert_eq!(compare_natural("img2.jpg", "img2.png"), Precedence::Before);
    assert_eq!(compare_natural("", ""), Precedence::Same);
    assert_eq!(compare_natural("é2", "é10"), Precedence::Before);
    assert_eq!(compare_natural("z", "é"), Precedence::Before);
}

#[test]
fn positions_are_byte_offsets() {
    assert_eq!(extract_number_positions("\u{e9}1"), vec![(2, 3)]);
    assert_eq!(extract_number_positions("é12ü3"), vec![(2, 4), (6, 7)]);
    assert_eq!(extract_number_positions("日本10語2"), vec![(6, 8), (11, 12)]);
    assert_eq!(extract_number_positions("𝟙7"), vec![(4, 5)]);
    let given = ["", "a1", "é12ü3", "12", "x٣4y", "0é0", "日本10語2", "a\u{7f}9\u{80}8"];
    for s in given {
        let positions = extract_number_positions(s);
        for (start, end) in &positions {
            assert!(s[*start..*end].bytes().all(|b| b.is_ascii_digit()));
            assert!(*start == 0 || !s.as_bytes()[*start - 1].is_ascii_digit());
            assert!(*end == s.len() || !s.as_bytes()[*end].is_ascii_digit());
        }
        let covered: usize = positions.iter().map(|(start, end)| end - start).sum();
        assert_eq!(covered, s.bytes().filter(|b| b.is_ascii_digit()).count());
    }
    let key = generate_natural_sort_key("é12ü3");
    assert_eq!(key.len(), 3);
    assert_eq!(key[0].text, "é");
    assert_eq!(key[0].number, Some(12));
    assert_eq!(key[1].text, "ü");
    assert_eq!(key[1].number, Some(3));
    assert_eq!(key[2].text, "");
}

#[test]
fn sorting_keeps_equal_names_in_their_order() {
    let mut files = vec![
        String::from("b1"),
        String::from("a01"),
        String::from("a1"),
        String::from("a001"),
        String::from("a0"),
    ];
    sort_natural(&mut files);
    assert_eq!(files, vec!["a0", "a01", "a1", "a001", "b1"]);
    let mut none: Vec<String> = vec![];
    sort_natural(&mut none);
    assert_eq!(none.len(), 0);
}

#[test]
fn sorting_agrees_with_the_standard_stable_sort() {
    let given = [
        "scan12.png", "scan2.png", "Scan1.png", "scan1.png", "2.jpg", "10.jpg", "1.jpg", "a",
        "", "scan", "scan02.png", "scan2.jpg", "x1y2", "x1y10", "x01y3",
    ];
    let mut files: Vec<String> = given.iter().map(|name| name.to_string()).collect();
    let mut expected = files.clone();
    expected.sort_by(|a, b| match compare_natural(a, b) {
        Precedence::Before => std::cmp::Ordering::Less,
        Precedence::Same => std::cmp::Ordering::Equal,
        Precedence::After => std::cmp::Ordering::Greater,
    });
    sort_natural(&mut files);
    assert_eq!(files, expected);
}
