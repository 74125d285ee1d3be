//! Escaping strategies and line separators for the editable filename list.

use vstd::prelude::*;

use crate::bytes_order::{clone_bytes, contains_byte};
use crate::errors::RenameError;
use crate::percent::{percent_decode_bytes, percent_decoded, percent_encode_bytes, percent_encoded};
use crate::percent::lemma_percent_round_trip;
use crate::utf8::{is_utf8, is_utf8_bytes};

verus! {

/// Line separator used between entries of the editable filename list.
#[derive(Debug, Clone, Copy, PartialEq, Eq, Structural)]
pub enum LineSeparator {
    /// Line feed character (`\n`).
    LineFeed,
    /// Null character (`\0`).
    Null,
}

impl LineSeparator {
    /// The separator as a specification-level byte.
    pub open spec fn spec_byte(self) -> u8 {
        match self {
            LineSeparator::LineFeed => 10,
            LineSeparator::Null => 0,
        }
    }

    /// The separator as a specification-level character.
    pub open spec fn spec_char(self) -> char {
        match self {
            LineSeparator::LineFeed => '\n',
            LineSeparator::Null => '\0',
        }
    }

    /// Returns the line separator character.
    pub fn to_char(self) -> (r: char)
        ensures
            r == self.spec_char(),
    {
        match self {
            LineSeparator::LineFeed => '\n',
            LineSeparator::Null => '\0',
        }
    }

    /// Returns the line separator character as an ASCII byte.
    pub fn to_byte(self) -> (r: u8)
        ensures
            r == self.spec_byte(),
    {
        match self {
            LineSeparator::LineFeed => 10,
            LineSeparator::Null => 0,
        }
    }
}

/// Escape method used to turn a filename into one editable line of text.
#[derive(Debug, Clone, Copy, PartialEq, Eq, Structural)]
pub enum Escape {
    /// No escape: names must be valid text without the line separator.
    NoEscape,
    /// Percent encoding: any byte string can be written and read back.
    PercentEncoding,
}

/// What escaping a name yields: the line's bytes, or nothing when the method
/// cannot represent the name.
pub open spec fn encoded_name(e: Escape, name: Seq<u8>, sep: LineSeparator) -> Option<Seq<u8>> {
    match e {
        Escape::NoEscape => if is_utf8(name) && !name.contains(sep.spec_byte()) {
            Some(name)
        } else {
            None
        },
        Escape::PercentEncoding => Some(percent_encoded(name)),
    }
}

/// What unescaping one line of the edited list yields.
pub open spec fn decoded_line(e: Escape, line: Seq<u8>) -> Seq<u8> {
    match e {
        Escape::NoEscape => line,
        Escape::PercentEncoding => percent_decoded(line),
    }
}

impl Escape {
    /// Escapes one filename into the bytes of one line.
    ///
    /// Fails exactly when the method cannot represent the name: under no
    /// escape, for names that are not valid text or that hold the separator.
    pub fn escape(self, name: &Vec<u8>, line_sep: LineSeparator) -> (r: Result<
        Vec<u8>,
        RenameError,
    >)
        ensures
            match r {
                Ok(t) => encoded_name(self, name@, line_sep) == Some(t@),
                Err(e) => encoded_name(self, name@, line_sep) is None && match e {
                    RenameError::InvalidText { name: n } => n@ == name@ && !is_utf8(name@),
                    RenameError::SeparatorInName { name: n } => n@ == name@ && is_utf8(name@)
                        && name@.contains(line_sep.spec_byte()),
                    _ => false,
                },
            },
    {
        match self {
            Escape::NoEscape => {
                if !is_utf8_bytes(name) {
                    Err(RenameError::InvalidText { name: clone_bytes(name) })
                } else if contains_byte(name, line_sep.to_byte()) {
                    Err(RenameError::SeparatorInName { name: clone_bytes(name) })
                } else {
                    Ok(clone_bytes(name))
                }
            },
            Escape::PercentEncoding => Ok(percent_encode_bytes(name)),
        }
    }

    /// Unescapes the bytes of one edited line back into a filename.
    pub fn unescape_line(self, line: &Vec<u8>) -> (r: Vec<u8>)
        ensures
            r@ == decoded_line(self, line@),
    {
        match self {
            Escape::NoEscape => clone_bytes(line),
            Escape::PercentEncoding => percent_decode_bytes(line),
        }
    }

    /// Creates an escape method value from the given string.
    ///
    /// This is intended for use with a CLI parser.
    pub fn try_from_cli_str(s: &str) -> (r: Result<Escape, RenameError>)
        ensures
            s@ == "none"@ ==> r == Ok::<Escape, RenameError>(Escape::NoEscape),
            s@ == "percent"@ || s@ == "percent-encoding"@ ==> r == Ok::<Escape, RenameError>(
                Escape::PercentEncoding,
            ),
            match r {
                Ok(_) => s@ == "none"@ || s@ == "percent"@ || s@ == "percent-encoding"@,
                Err(e) => s@ != "none"@ && s@ != "percent"@ && s@ != "percent-encoding"@ && (
                e matches RenameError::UnknownEscape { value } && value@ == s@),
            },
    {
        proof {
            reveal_strlit("none");
            reveal_strlit("percent");
            reveal_strlit("percent-encoding");
            // The three accepted method names have distinct lengths.
            assert("none"@.len() == 4);
            assert("percent"@.len() == 7);
            assert("percent-encoding"@.len() == 16);
        }
        let owned = s.to_owned();
        if owned == "none".to_owned() {
            Ok(Escape::NoEscape)
        } else if owned == "percent".to_owned() {
            Ok(Escape::PercentEncoding)
        } else if owned == "percent-encoding".to_owned() {
            Ok(Escape::PercentEncoding)
        } else {
            Err(RenameError::UnknownEscape { value: owned })
        }
    }

    /// Returns the possible CLI string representations of the `Escape`
    /// variants.
    pub fn cli_possible_values() -> (r: Vec<&'static str>)
        ensures
            r@.len() == 3,
            r@[0]@ == "none"@,
            r@[1]@ == "percent"@,
            r@[2]@ == "percent-encoding"@,
    {
        let mut v: Vec<&'static str> = Vec::new();
        v.push("none");
        v.push("percent");
        v.push("percent-encoding");
        v
    }
}

/// A successfully escaped name never contains the active line separator, so
/// every entry of the rendered list occupies exactly one line.
pub proof fn lemma_encoded_line_has_no_separator(e: Escape, name: Seq<u8>, sep: LineSeparator)
    requires
        encoded_name(e, name, sep) is Some,
    ensures
        !encoded_name(e, name, sep).unwrap().contains(sep.spec_byte()),
{
    match e {
        Escape::NoEscape => {
        },
        Escape::PercentEncoding => {
            crate::percent::lemma_percent_encoded_no_escaped(name, sep.spec_byte());
        },
    }
}

/// Unescaping a successfully escaped name restores it exactly, under either
/// strategy; with percent encoding this needs only that the raw name has no
/// literal `%` byte.
pub proof fn lemma_escape_round_trip(e: Escape, name: Seq<u8>, sep: LineSeparator)
    requires
        e is PercentEncoding ==> !name.contains(0x25u8),
        encoded_name(e, name, sep) is Some,
    ensures
        decoded_line(e, encoded_name(e, name, sep).unwrap()) == name,
{
    match e {
        Escape::NoEscape => {
        },
        Escape::PercentEncoding => {
            lemma_percent_round_trip(name);
        },
    }
}

/// Creates a `LineSeparator` from a `null-data` flag.
pub fn line_separator_from_null_data_flag(null_data: bool) -> (r: LineSeparator)
    ensures
        r == (if null_data {
            LineSeparator::Null
        } else {
            LineSeparator::LineFeed
        }),
{
    if null_data {
        LineSeparator::Null
    } else {
        LineSeparator::LineFeed
    }
}

} // verus!
