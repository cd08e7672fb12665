//! Paths and text as messages show them, and numbers as text.
//!
//! How a path or a text is quoted is not decided here: that is the work of the
//! standard library's `Debug` formatting, reached through the three trusted
//! functions of this file. Of their results nothing is known but that equal
//! input gives equal output.

use crate::number::{digits, ZERO};
use os_str_bytes::{RawOsStr, RawOsString};
use std::path::PathBuf;
use vstd::prelude::*;
use vstd::string::StringExecFns;

verus! {

/// A path as a message shows it: between double quotes, with the bytes that
/// are not valid text written as escapes.
pub uninterp spec fn path_debug(path: Seq<u8>) -> Seq<char>;

/// The text that a byte string stands for, where each part of it that is not
/// valid UTF-8 has become the replacement character.
pub uninterp spec fn lossy_text(bytes: Seq<u8>) -> Seq<char>;

/// A text as a message shows it: between double quotes, with escapes.
pub uninterp spec fn text_debug(text: Seq<char>) -> Seq<char>;

/// Quotes a path for a message.
///
/// Trusted. The bytes become a platform string through
/// `os_str_bytes::RawOsString::assert_from_raw_vec` and `into_os_string`,
/// which on Unix-like systems take every byte string as it is, and that
/// string a `std::path::PathBuf`, which `{:?}` formats. The contract claims
/// only that the result depends on the bytes alone.
#[verifier::external_body]
pub(crate) fn quote_path(path: &[u8]) -> (r: String)
    ensures
        r@ == path_debug(path@),
{
    let name = PathBuf::from(RawOsString::assert_from_raw_vec(path.to_vec()).into_os_string());
    format!("{name:?}")
}

/// Reads a byte string as text, whatever it holds.
///
/// Trusted. Calls `os_str_bytes::RawOsStr::to_str_lossy` on the bytes, which
/// `RawOsStr::assert_cow_from_raw_bytes` wraps. The contract claims only that
/// the result depends on the bytes alone.
#[verifier::external_body]
pub(crate) fn read_lossy(bytes: &[u8]) -> (r: String)
    ensures
        r@ == lossy_text(bytes@),
{
    RawOsStr::assert_cow_from_raw_bytes(bytes).to_str_lossy().into_owned()
}

/// Quotes a text for a message.
///
/// Trusted. Formats the text with `{:?}`, that is with the standard library's
/// `Debug` for `str`. The contract claims only that the result depends on the
/// text alone.
#[verifier::external_body]
pub(crate) fn quote_text(text: &str) -> (r: String)
    ensures
        r@ == text_debug(text@),
{
    format!("{text:?}")
}

/// The characters of a string of ASCII bytes.
pub open spec fn ascii(bytes: Seq<u8>) -> Seq<char> {
    bytes.map_values(|b: u8| b as char)
}

/// The text of one decimal digit.
fn digit_text(d: usize) -> (r: &'static str)
    requires
        d < 10,
    ensures
        r@ == seq![(ZERO + d) as u8 as char],
{
    proof {
        reveal_strlit("0");
        reveal_strlit("1");
        reveal_strlit("2");
        reveal_strlit("3");
        reveal_strlit("4");
        reveal_strlit("5");
        reveal_strlit("6");
        reveal_strlit("7");
        reveal_strlit("8");
        reveal_strlit("9");
    }
    let r = match d {
        0 => "0",
        1 => "1",
        2 => "2",
        3 => "3",
        4 => "4",
        5 => "5",
        6 => "6",
        7 => "7",
        8 => "8",
        _ => "9",
    };
    proof {
        assert(r@ =~= seq![(ZERO + d) as u8 as char]);
    }
    r
}

/// Appends the decimal digits of `n` to `out`.
pub fn push_number(n: usize, out: &mut String)
    ensures
        final(out)@ == old(out)@ + ascii(digits(n as nat)),
    decreases n,
{
    if n < 10 {
        out.append(digit_text(n));
        proof {
            assert(final(out)@ =~= old(out)@ + ascii(digits(n as nat)));
        }
    } else {
        push_number(n / 10, out);
        out.append(digit_text(n % 10));
        proof {
            assert(final(out)@ =~= old(out)@ + ascii(digits(n as nat)));
        }
    }
}

} // verus!
