//! Checks on command-line values: counts, start numbers, format names and
//! extensions. Each returns the accepted value or a message for the user.

use crate::constants::RAR_EXTENSION;
use crate::numeral::{parse_number, parse_unsigned};
use crate::text::{quote_message, quoted_message, str_eq};
use vstd::prelude::*;

verus! {

/// Accepts a path that was found to be a directory. Whether it is one is
/// for the caller to find out.
pub fn dir_exists(s: &str, is_directory: bool) -> (result: Result<String, String>)
    ensures
        match result {
            Ok(accepted) => is_directory && accepted@ == s@,
            Err(message) => !is_directory && message@ == quoted_message(
                s@,
                "` isn't a directory"@,
            ),
        },
{
    if is_directory {
        Ok(String::from_str(s))
    } else {
        Err(quote_message(s, "` isn't a directory"))
    }
}

/// Accepts the decimal numbers from 1 to 255.
pub fn is_positive_number(s: &str) -> (result: Result<u8, String>)
    ensures
        match result {
            Ok(n) => n >= 1 && parse_unsigned(s@, u8::MAX as nat) == Some(n as nat),
            Err(message) => match parse_unsigned(s@, u8::MAX as nat) {
                Some(n) => n == 0 && message@ == "`0` isn't a positive number"@,
                None => message@ == quoted_message(s@, " isn't a number or positive number"@),
            },
        },
{
    match parse_number(s, u8::MAX as u64) {
        Some(n) => if n == 0 {
            Err(String::from_str("`0` isn't a positive number"))
        } else {
            Ok(n as u8)
        },
        None => Err(quote_message(s, " isn't a number or positive number")),
    }
}

/// Accepts the decimal numbers from 0 to 4294967295.
pub fn start_from_zero(s: &str) -> (result: Result<u32, String>)
    ensures
        match result {
            Ok(n) => parse_unsigned(s@, u32::MAX as nat) == Some(n as nat),
            Err(message) => parse_unsigned(s@, u32::MAX as nat) is None && message@
                == quoted_message(s@, "` isn't a number or starts from zero"@),
        },
{
    match parse_number(s, u32::MAX as u64) {
        Some(n) => Ok(n as u32),
        None => Err(quote_message(s, "` isn't a number or starts from zero")),
    }
}

/// Accepts the format name `rar` and no other.
pub fn format_type_check(s: &str) -> (result: Result<String, String>)
    ensures
        match result {
            Ok(accepted) => s@ == RAR_EXTENSION@ && accepted@ == s@,
            Err(message) => s@ != RAR_EXTENSION@ && message@ == quoted_message(
                s@,
                "` isn't a valid format type"@,
            ),
        },
{
    if str_eq(s, RAR_EXTENSION) {
        Ok(String::from_str(s))
    } else {
        Err(quote_message(s, "` isn't a valid format type"))
    }
}

/// Accepts every extension but the empty one.
pub fn extension_check(s: &str) -> (result: Result<String, String>)
    ensures
        match result {
            Ok(accepted) => s@.len() > 0 && accepted@ == s@,
            Err(message) => s@.len() == 0 && message@ == "Empty extension is invalid"@,
        },
{
    if s.is_empty() {
        Err(String::from_str("Empty extension is invalid"))
    } else {
        Ok(String::from_str(s))
    }
}

} // verus!
