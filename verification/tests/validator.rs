use rimg::validator::{
    dir_exists, extension_check, format_type_check, is_positive_number, start_from_zero,
};

#[test]
#[should_panic]
fn validator_minus_one_should_panic() {
    is_positive_number("-1").unwrap();
}

#[test]
#[should_panic]
fn zero_should_panic() {
    is_positive_number("0").unwrap();
}

#[test]
fn validator_one_should_return_number() {
    let result = is_positive_number("1").unwrap();
    assert_eq!(1, result);
    let result = start_from_zero("1").unwrap();
    assert_eq!(1, result);
}

#[test]
#[should_panic]
fn string_should_panic() {
    is_positive_number("hello").unwrap();
}

#[test]
fn start_number_rejects_minus_one() {
    assert_eq!(
        start_from_zero("-1"),
        Err(String::from("`-1` isn't a number or starts from zero"))
    );
}

#[test]
fn zero_should_return_number() {
    let result = start_from_zero("0").unwrap();
    assert_eq!(0, result);
}

#[test]
fn validator_valid_format_type_should_return_string() {
    let result = format_type_check("rar").unwrap();
    assert_eq!("rar", result);
}

#[test]
#[should_panic]
fn validator_invalid_format_type_should_panic() {
    format_type_check("xxx").unwrap();
}

#[test]
fn valid_extension_should_return_string() {
    let result = extension_check("zip").unwrap();
    assert_eq!("zip", result);
}

#[test]
#[should_panic]
fn validator_empty_extension_should_panic() {
    extension_check("").unwrap();
}

#[test]
fn positive_number_messages() {
    assert_eq!(
        is_positive_number("0"),
        Err(String::from("`0` isn't a positive number"))
    );
    assert_eq!(
        is_positive_number("+0"),
        Err(String::from("`0` isn't a positive number"))
    );
    assert_eq!(
        is_positive_number("hello"),
        Err(String::from("`hello isn't a number or positive number"))
    );
    assert_eq!(
        is_positive_number("256"),
        Err(String::from("`256 isn't a number or positive number"))
    );
    assert_eq!(
        is_positive_number(""),
        Err(String::from("` isn't a number or positive number"))
    );
    assert_eq!(
        is_positive_number("+"),
        Err(String::from("`+ isn't a number or positive number"))
    );
}

#[test]
fn numbers_are_read_as_the_standard_parser_reads_them() {
    let cases = [
        "", "+", "-", "0", "+0", "-0", "7", "+7", "007", "255", "256", "0255", "1 ", " 1", "1_0",
        "4294967295", "4294967296", "00004294967295", "99999999999999999999999999", "١",
    ];
    for case in cases {
        assert_eq!(is_positive_number(case).ok(), case.parse::<u8>().ok().filter(|n| *n != 0));
        assert_eq!(start_from_zero(case).ok(), case.parse::<u32>().ok());
    }
}

#[test]
fn format_type_message() {
    assert_eq!(
        format_type_check("zip"),
        Err(String::from("`zip` isn't a valid format type"))
    );
}

#[test]
fn empty_extension_message() {
    assert_eq!(
        extension_check(""),
        Err(String::from("Empty extension is invalid"))
    );
    assert_eq!(extension_check("abcdefgh"), Ok(String::from("abcdefgh")));
}

#[test]
fn validator_existed_dir_should_return_path() {
    let path = ".";
    let result = dir_exists(path, std::path::Path::new(path).is_dir()).unwrap();
    assert_eq!(path, result);
}

#[test]
#[should_panic]
fn validator_non_existed_dir_should_panic() {
    let mut path = std::path::PathBuf::from(".");
    path.push("dummy");
    let is_directory = path.is_dir();
    dir_exists(String::from(path.to_string_lossy()).as_str(), is_directory).unwrap();
}
