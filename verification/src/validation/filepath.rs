//! Checks on the format name and the extensions given on the command line.

use crate::constants::{RAR_EXTENSION, ZIP_EXTENSION};
use crate::text::{quote_message, quoted_message, str_eq};
use vstd::prelude::*;
use vstd::string::StringSliceAdditionalSpecFns;

verus! {

/// The longest extension accepted, in bytes of UTF-8.
pub const MAX_EXTENSION_BYTES: usize = 5;

/// Accepts a path that was found to be a directory. Whether it is one is
/// for the caller to find out.
pub fn dir_exists(s: &str, is_directory: bool) -> (result: Result<String, String>)
    ensures
        match result {
            Ok(accepted) => is_directory && accepted@ == s@,
            Err(message) => !is_directory && message@ == quoted_message(
                s@,
                "` isn't a directory"@,
            ),
        },
{
    if is_directory {
        Ok(String::from_str(s))
    } else {
        Err(quote_message(s, "` isn't a directory"))
    }
}

/// Accepts the format names `rar` and `zip`.
pub fn format_type_check(s: &str) -> (result: Result<String, String>)
    ensures
        match result {
            Ok(accepted) => (s@ == RAR_EXTENSION@ || s@ == ZIP_EXTENSION@) && accepted@ == s@,
            Err(message) => s@ != RAR_EXTENSION@ && s@ != ZIP_EXTENSION@ && message@
                == quoted_message(
                s@,
                "` isn't supported format type\nCurrently supports `rar` and `zip`"@,
            ),
        },
{
    if str_eq(s, RAR_EXTENSION) || str_eq(s, ZIP_EXTENSION) {
        Ok(String::from_str(s))
    } else {
        Err(quote_message(s, "` isn't supported format type\nCurrently supports `rar` and `zip`"))
    }
}

/// Accepts an extension that is not empty and takes at most five bytes.
pub fn extension_check(s: &str) -> (result: Result<String, String>)
    ensures
        match result {
            Ok(accepted) => s@.len() > 0 && s.spec_bytes().len() <= MAX_EXTENSION_BYTES
                && accepted@ == s@,
            Err(message) => if s@.len() == 0 {
                message@ == "Empty extension is not valid"@
            } else {
                s.spec_bytes().len() > MAX_EXTENSION_BYTES && message@ == quoted_message(
                    s@,
                    "` Extension is too long\nMax length is 4"@,
                )
            },
        },
{
    if s.is_empty() {
        Err(String::from_str("Empty extension is not valid"))
    } else if s.as_bytes().len() > MAX_EXTENSION_BYTES {
        Err(quote_message(s, "` Extension is too long\nMax length is 4"))
    } else {
        Ok(String::from_str(s))
    }
}

} // verus!
