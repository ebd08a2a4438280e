//! The date resolver: finding the snapshot date inside a source identifier.

use crate::date::{chrono_ymd, is_date_shape, parse_date, shaped_ymd, Date};
use crate::error::IngestError;
use vstd::prelude::*;

verus! {

/// Whether every character of `text` is an ASCII character.
pub open spec fn is_ascii_text(text: Seq<char>) -> bool {
    forall|i: int| 0 <= i < text.len() ==> (#[trigger] text[i]) as u32 <= 0x7f
}

/// Whether the ten characters of `path` from index `i` on have the date shape.
pub open spec fn date_at(path: Seq<char>, i: int) -> bool {
    &&& 0 <= i
    &&& i + 10 <= path.len()
    &&& is_date_shape(path.subrange(i, i + 10))
}

/// Whether `i` is the first index of `path` at which the date shape occurs.
pub open spec fn first_date_at(path: Seq<char>, i: int) -> bool {
    &&& date_at(path, i)
    &&& forall|j: int| 0 <= j < i ==> !date_at(path, j)
}

/// The first stretch of `path` that the pattern `(\d{4})-(\d{2})-(\d{2})`
/// matches, or `None` where it matches nowhere.
pub uninterp spec fn date_pattern_match(path: Seq<char>) -> Option<Seq<char>>;

/// The date of the `Date` that holds year, month and day of `ymd`.
pub open spec fn date_of(ymd: (int, int, int)) -> Date {
    Date { year: ymd.0 as i32, month: ymd.1 as u32, day: ymd.2 as u32 }
}

/// The date that a matched text resolves to: the text must be there, and it
/// must read as a date.
pub open spec fn resolved_date(found: Option<Seq<char>>) -> Result<Date, IngestError> {
    match found {
        None => Err(IngestError::DateExtractionFailure),
        Some(text) => match chrono_ymd(text) {
            Some(ymd) => Ok(date_of(ymd)),
            None => Err(IngestError::DateExtractionFailure),
        },
    }
}

/// The date that an ASCII source identifier resolves to: the first stretch of
/// the date shape in it, read as year, month and day.
pub open spec fn ascii_resolved_date(path: Seq<char>) -> Result<Date, IngestError> {
    if exists|i: int| first_date_at(path, i) {
        let i = choose|i: int| first_date_at(path, i);
        match shaped_ymd(path.subrange(i, i + 10)) {
            Some(ymd) => Ok(date_of(ymd)),
            None => Err(IngestError::DateExtractionFailure),
        }
    } else {
        Err(IngestError::DateExtractionFailure)
    }
}

/// Finds the first date-like stretch of `path`.
///
/// Compiles the pattern `(\d{4})-(\d{2})-(\d{2})` with `regex::Regex::new`
/// and hands back the text of the whole match that `Regex::captures` finds.
/// Trusted: the outcome is the one named by [`date_pattern_match`]; and on
/// an ASCII `path`, where the pattern's digits are the ten ASCII digits, the
/// match is the leftmost stretch of the date shape, and there is none only
/// where no such stretch exists.
#[verifier::external_body]
fn find_date_text(path: &str) -> (r: Option<String>)
    ensures
        r matches Some(s) ==> date_pattern_match(path@) == Some(s@),
        r is None ==> date_pattern_match(path@) is None,
        is_ascii_text(path@) ==> (match r {
            Some(s) => exists|i: int| first_date_at(path@, i) && s@ == path@.subrange(i, i + 10),
            None => forall|i: int| !date_at(path@, i),
        }),
{
    let re = regex::Regex::new(r"(\d{4})-(\d{2})-(\d{2})").unwrap();
    re.captures(path).map(|found| found[0].to_string())
}

/// The question that asks for the extracted date to be confirmed.
pub fn confirm_text(date: &Date) -> (r: String)
    ensures
        r@ == date.text() + " correct?"@,
{
    let mut question: String = date.to_text();
    question.append(" correct?");
    question
}

/// Turns the outcome of reading a date into the resolver's outcome.
pub fn date_from_parsed(parsed: Result<Date, chrono::ParseError>) -> (r: Result<Date, IngestError>)
    ensures
        r == (match parsed {
            Ok(d) => Ok::<Date, IngestError>(d),
            Err(_) => Err(IngestError::DateExtractionFailure),
        }),
{
    match parsed {
        Ok(d) => Ok(d),
        Err(_) => Err(IngestError::DateExtractionFailure),
    }
}

/// Resolves the text that was found in a source identifier, if any, to a date.
pub fn date_from_match(found: Option<String>) -> (r: Result<Date, IngestError>)
    ensures
        r == resolved_date(
            match found {
                Some(s) => Some(s@),
                None => None,
            },
        ),
        r matches Ok(d) ==> d.wf(),
        found matches Some(s) ==> (is_date_shape(s@) ==> r == (match shaped_ymd(s@) {
            Some(ymd) => Ok::<Date, IngestError>(date_of(ymd)),
            None => Err(IngestError::DateExtractionFailure),
        })),
{
    match found {
        None => Err(IngestError::DateExtractionFailure),
        Some(s) => date_from_parsed(parse_date(s.as_str())),
    }
}

/// Extracts the snapshot date from a source identifier such as a file name.
/// The date may stand anywhere in it, written as `YYYY-MM-DD`. Where the
/// identifier holds no date, or the first date-like stretch names no day of
/// the calendar, the run fails with `DateExtractionFailure`.
pub fn date_from_filename(path: &str) -> (r: Result<Date, IngestError>)
    ensures
        r == resolved_date(date_pattern_match(path@)),
        r matches Ok(d) ==> d.wf(),
        is_ascii_text(path@) ==> r == ascii_resolved_date(path@),
{
    let found = find_date_text(path);
    proof {
        if is_ascii_text(path@) {
            if found is Some {
                let text: Seq<char> = found->0@;
                let i = choose|i: int| first_date_at(path@, i) && text == path@.subrange(i, i + 10);
                let k = choose|k: int| first_date_at(path@, k);
                assert(k == i) by {
                    if k < i {
                        assert(!date_at(path@, k));
                    }
                    if i < k {
                        assert(!date_at(path@, i));
                    }
                }
            } else {
                assert forall|i: int| !first_date_at(path@, i) by {
                    assert(!date_at(path@, i));
                }
            }
        }
    }
    date_from_match(found)
}

} // verus!
