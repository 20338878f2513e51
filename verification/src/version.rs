//! Release versions: the three numbers of a semantic version, the text
//! they are parsed from, and the strings they are written as.

use vstd::prelude::*;
use crate::file_manager::StoreError;
use crate::outline::{split_lines, split_text};
use crate::text::{rows, string_of};

verus! {

/// The error of `semver::Version::parse`, taken as it comes: nothing is
/// known of what it holds.
#[verifier::external_type_specification]
#[verifier::external_body]
pub struct ExSemverError(semver::Error);

/// The major, minor and patch number of the semantic version that `text`
/// is, as `semver::Version::parse` reads it; `None` where it rejects `text`.
pub uninterp spec fn semver_numbers(text: Seq<char>) -> Option<(u64, u64, u64)>;

/// Calls `semver::Version::parse` on `text` and hands out the three numbers
/// of the version it gives. The parse reads nothing but `text`, so its
/// outcome is the one that `semver_numbers` names.
#[verifier::external_body]
fn semver_parse(text: &str) -> (r: Result<(u64, u64, u64), semver::Error>)
    ensures
        r is Ok <==> semver_numbers(text@) is Some,
        r matches Ok(numbers) ==> semver_numbers(text@) == Some(numbers),
{
    semver::Version::parse(text).map(|v| (v.major, v.minor, v.patch))
}

/// A release version. Two versions are equal if their three numbers are.
#[derive(Debug, Clone, Copy, PartialEq, Eq, Structural)]
pub struct Version {
    pub major: u64,
    pub minor: u64,
    pub patch: u64,
}

/// The character of a decimal digit.
pub open spec fn digit(d: int) -> char {
    if d == 0 {
        '0'
    } else if d == 1 {
        '1'
    } else if d == 2 {
        '2'
    } else if d == 3 {
        '3'
    } else if d == 4 {
        '4'
    } else if d == 5 {
        '5'
    } else if d == 6 {
        '6'
    } else if d == 7 {
        '7'
    } else if d == 8 {
        '8'
    } else {
        '9'
    }
}

/// The decimal digits of `n`, the most significant first, without leading
/// zeros.
pub open spec fn decimal(n: nat) -> Seq<char>
    decreases n,
{
    if n < 10 {
        seq![digit(n as int)]
    } else {
        decimal(n / 10).push(digit((n % 10) as int))
    }
}

/// The three numbers, written in decimal, with dots between them.
pub open spec fn dotted(version: Version) -> Seq<char> {
    decimal(version.major as nat) + seq!['.'] + decimal(version.minor as nat) + seq!['.'] + decimal(
        version.patch as nat,
    )
}

/// The string that a version is written as: `v` and the dotted numbers.
pub open spec fn rendered(version: Version) -> Seq<char> {
    seq!['v'] + dotted(version)
}

/// The version that a parse gave, and a parse error where it gave none.
pub open spec fn version_from(parsed: Option<(u64, u64, u64)>) -> Result<Version, StoreError> {
    match parsed {
        Some(numbers) => Ok(Version { major: numbers.0, minor: numbers.1, patch: numbers.2 }),
        None => Err(StoreError::ParseError),
    }
}

/// The version that the text of a version file gives: the one on its first
/// line. A text without a line gives none.
pub open spec fn version_in(text: Seq<char>) -> Result<Version, StoreError> {
    let lines = split_lines(text);
    if lines.len() == 0 {
        Err(StoreError::ParseError)
    } else {
        version_from(semver_numbers(lines[0]))
    }
}

fn digit_char(d: u64) -> (c: char)
    requires
        d < 10,
    ensures
        c == digit(d as int),
{
    if d == 0 {
        '0'
    } else if d == 1 {
        '1'
    } else if d == 2 {
        '2'
    } else if d == 3 {
        '3'
    } else if d == 4 {
        '4'
    } else if d == 5 {
        '5'
    } else if d == 6 {
        '6'
    } else if d == 7 {
        '7'
    } else if d == 8 {
        '8'
    } else {
        '9'
    }
}

/// Appends the decimal digits of `n` to `out`.
pub fn push_decimal(out: &mut String, n: u64)
    ensures
        final(out)@ == old(out)@ + decimal(n as nat),
{
    let ghost before = out@;
    let mut low: Vec<char> = Vec::new();
    let ghost mut tail: Seq<char> = Seq::empty();
    let mut m: u64 = n;
    proof {
        assert(decimal(m as nat) + tail =~= decimal(n as nat));
    }
    while m >= 10
        invariant
            decimal(n as nat) == decimal(m as nat) + tail,
            low.len() == tail.len(),
            forall|i: int| 0 <= i < low.len() ==> low@[i] == tail[tail.len() - 1 - i],
        decreases m,
    {
        let c = digit_char(m % 10);
        proof {
            assert(decimal((m / 10) as nat).push(c) + tail =~= decimal((m / 10) as nat) + (seq![c]
                + tail));
            tail = seq![c] + tail;
        }
        low.push(c);
        m = m / 10;
    }
    out.push(digit_char(m));
    let mut k: usize = low.len();
    while k > 0
        invariant
            k <= low.len(),
            low.len() == tail.len(),
            forall|i: int| 0 <= i < low.len() ==> low@[i] == tail[tail.len() - 1 - i],
            out@ == before + decimal(m as nat) + tail.take(low.len() - k),
        decreases k,
    {
        let ghost sofar = out@;
        k -= 1;
        out.push(low[k]);
        proof {
            assert(tail.take(low.len() - k) =~= tail.take(low.len() - k - 1).push(
                tail[low.len() - k - 1],
            ));
            assert(out@ =~= before + decimal(m as nat) + tail.take(low.len() - k));
        }
    }
    proof {
        assert(tail.take(low.len() as int) =~= tail);
        assert(out@ =~= before + (decimal(m as nat) + tail));
    }
}

/// The version that a parse gave, and a parse error where it gave none.
pub fn version_from_numbers(parsed: Option<(u64, u64, u64)>) -> (r: Result<Version, StoreError>)
    ensures
        r == version_from(parsed),
{
    match parsed {
        Some(numbers) => Ok(Version { major: numbers.0, minor: numbers.1, patch: numbers.2 }),
        None => Err(StoreError::ParseError),
    }
}

/// Reads the version file: `stored` is its text, and `None` where there is
/// no such file. The version stands on the first line.
pub fn read_version(stored: Option<&str>) -> (r: Result<Version, StoreError>)
    ensures
        r == match stored {
            None => Err(StoreError::NotFound),
            Some(text) => version_in(text@),
        },
{
    match stored {
        None => Err(StoreError::NotFound),
        Some(text) => {
            let lines = split_text(text);
            if lines.len() == 0 {
                return Err(StoreError::ParseError);
            }
            let first = string_of(&lines[0], 0, lines[0].len());
            proof {
                assert(rows(lines@)[0] == lines@[0]@);
                assert(lines@[0]@.subrange(0, lines@[0]@.len() as int) =~= lines@[0]@);
            }
            match semver_parse(first.as_str()) {
                Ok(numbers) => version_from_numbers(Some(numbers)),
                Err(_) => version_from_numbers(None),
            }
        },
    }
}

impl Version {
    /// The title of the page of this version: the dotted numbers.
    pub fn page_title(&self) -> (title: String)
        ensures
            title@ == dotted(*self),
    {
        let mut title = String::new();
        push_decimal(&mut title, self.major);
        title.push('.');
        push_decimal(&mut title, self.minor);
        title.push('.');
        push_decimal(&mut title, self.patch);
        proof {
            assert(title@ =~= dotted(*self));
        }
        title
    }

    /// The string that this version is written as in a heading.
    pub fn render(&self) -> (text: String)
        ensures
            text@ == rendered(*self),
    {
        let mut text = String::new();
        text.push('v');
        push_decimal(&mut text, self.major);
        text.push('.');
        push_decimal(&mut text, self.minor);
        text.push('.');
        push_decimal(&mut text, self.patch);
        proof {
            assert(text@ =~= rendered(*self));
        }
        text
    }
}

} // verus!
