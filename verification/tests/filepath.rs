use rimg::validation::filepath::{dir_exists, extension_check, format_type_check};

#[test]
fn filepath_valid_format_type_should_return_string() {
    let result = format_type_check("rar").unwrap();
    assert_eq!("rar", result);
}

#[test]
#[should_panic]
fn filepath_invalid_format_type_should_panic() {
    format_type_check("xxx").unwrap();
}

#[test]
#[should_panic]
fn filepath_empty_extension_should_panic() {
    extension_check("").unwrap();
}

#[test]
fn one_char_extension_should_return_string() {
    let result = extension_check("a").unwrap();
    assert_eq!("a", result);
}

#[test]
fn five_char_extension_should_return_string() {
    let result = extension_check("abcde").unwrap();
    assert_eq!("abcde", result);
}

#[test]
#[should_panic]
fn six_char_extension_should_panic() {
    extension_check("abcdef").unwrap();
}

#[test]
fn zip_is_a_format_type() {
    assert_eq!(format_type_check("zip"), Ok(String::from("zip")));
    assert_eq!(
        format_type_check("tar"),
        Err(String::from(
            "`tar` isn't supported format type\nCurrently supports `rar` and `zip`"
        ))
    );
}

#[test]
fn extension_length_counts_bytes() {
    assert_eq!(
        extension_check(""),
        Err(String::from("Empty extension is not valid"))
    );
    assert_eq!(
        extension_check("abcdef"),
        Err(String::from("`abcdef` Extension is too long\nMax length is 4"))
    );
    assert_eq!(extension_check("ééé").is_err(), true);
    assert_eq!(extension_check("éé"), Ok(String::from("éé")));
}

#[test]
fn directory_is_accepted_and_anything_else_refused() {
    assert_eq!(dir_exists("/data/in", true), Ok(String::from("/data/in")));
    assert_eq!(dir_exists("/data/in", false), Err(String::from("`/data/in` isn't a directory")));
    assert_eq!(
        rimg::validator::dir_exists("x", false),
        Err(String::from("`x` isn't a directory"))
    );
    assert_eq!(rimg::validator::dir_exists("x", true), Ok(String::from("x")));
}

#[test]
fn filepath_existed_dir_should_return_path() {
    let path = ".";
    let result = dir_exists(path, std::path::Path::new(path).is_dir()).unwrap();
    assert_eq!(path, result);
}

#[test]
#[should_panic]
fn filepath_non_existed_dir_should_panic() {
    let mut path = std::path::PathBuf::from(".");
    path.push("dummy");
    let is_directory = path.is_dir();
    dir_exists(String::from(path.to_string_lossy()).as_str(), is_directory).unwrap();
}
