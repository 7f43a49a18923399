//! Suspicious indicators in EXIF fields.

use vstd::prelude::*;
use vstd::string::StringExecFns;
use crate::text::texts;

verus! {

/// The lower-case form of a string, as `str::to_lowercase` gives it.
pub uninterp spec fn lowercased(s: Seq<char>) -> Seq<char>;

/// Calls `str::to_lowercase`, which maps each character by the Unicode
/// lower-case tables; the result is named, not written out.
#[verifier::external_body]
fn to_lowercase(s: &str) -> (r: String)
    ensures
        r@ == lowercased(s@),
{
    s.to_lowercase()
}

/// `needle` occurs in `haystack` as a run of consecutive characters.
pub open spec fn has_substring(haystack: Seq<char>, needle: Seq<char>) -> bool {
    exists|i: int|
        0 <= i <= haystack.len() - needle.len() && #[trigger] haystack.subrange(
            i,
            i + needle.len(),
        ) == needle
}

/// Calls `str::contains` with a string pattern, which says whether the
/// pattern occurs as a substring.
#[verifier::external_body]
fn contains_str(haystack: &str, needle: &str) -> (r: bool)
    ensures
        r == has_substring(haystack@, needle@),
{
    haystack.contains(needle)
}

/// The name of the software, in lower case, names an image editor.
pub open spec fn names_editor(software: Seq<char>) -> bool {
    let lower = lowercased(software);
    has_substring(lower, "photoshop"@) || has_substring(lower, "paint"@) || has_substring(
        lower,
        "gimp"@,
    )
}

/// The indicators that the given fields give rise to, in order: the editing
/// software, a date without the original date, and an original date that
/// differs from the date of digitizing.
pub open spec fn indicators_of(
    software: Option<String>,
    date_time: Option<String>,
    date_time_original: Option<String>,
    date_time_digitized: Option<String>,
) -> Seq<Seq<char>> {
    let edited = match software {
        Some(sw) => if names_editor(sw@) {
            seq!["Edited with: "@ + sw@]
        } else {
            Seq::<Seq<char>>::empty()
        },
        None => Seq::<Seq<char>>::empty(),
    };
    let stripped = if date_time_original is None && date_time is Some {
        seq!["Original datetime missing (may be stripped)"@]
    } else {
        Seq::<Seq<char>>::empty()
    };
    let inconsistent = match (date_time_original, date_time_digitized) {
        (Some(orig), Some(digi)) => if orig@ != digi@ {
            seq!["Inconsistent date time values"@]
        } else {
            Seq::<Seq<char>>::empty()
        },
        _ => Seq::<Seq<char>>::empty(),
    };
    edited + stripped + inconsistent
}

/// Reads suspicious indicators off the EXIF fields of an image.
#[derive(Debug, Clone, Copy)]
pub struct ExifExtractor;

impl ExifExtractor {
    /// The suspicious indicators of the given fields.
    pub fn suspicious_indicators(
        software: &Option<String>,
        date_time: &Option<String>,
        date_time_original: &Option<String>,
        date_time_digitized: &Option<String>,
    ) -> (indicators: Vec<String>)
        ensures
            texts(indicators@) == indicators_of(
                *software,
                *date_time,
                *date_time_original,
                *date_time_digitized,
            ),
    {
        let mut indicators: Vec<String> = Vec::new();
        match software {
            Some(sw) => {
                let lower = to_lowercase(sw.as_str());
                if contains_str(lower.as_str(), "photoshop") || contains_str(
                    lower.as_str(),
                    "paint",
                ) || contains_str(lower.as_str(), "gimp") {
                    let text = String::from_str("Edited with: ").concat(sw.as_str());
                    indicators.push(text);
                }
            },
            None => {},
        }
        let ghost edited = texts(indicators@);
        if date_time_original.is_none() && date_time.is_some() {
            indicators.push(String::from_str("Original datetime missing (may be stripped)"));
        }
        let ghost stripped = texts(indicators@);
        match (date_time_original, date_time_digitized) {
            (Some(orig), Some(digi)) => {
                if !orig.eq(digi) {
                    indicators.push(String::from_str("Inconsistent date time values"));
                }
            },
            _ => {},
        }
        proof {
            assert(texts(indicators@) =~= indicators_of(
                *software,
                *date_time,
                *date_time_original,
                *date_time_digitized,
            ));
        }
        indicators
    }
}

} // verus!
