//! The record normalizer: from delimited text to item names and exact values.

use crate::amount::{decimal_parts, parse_decimal, Amount};
use crate::error::IngestError;
use crate::text::{lines_view, remove_all, strip_marker};
use vstd::prelude::*;

verus! {

/// The records that the `csv` reader yields from `data` before its first
/// failure, field by field, and whether a failure ended the reading.
pub uninterp spec fn csv_records(data: Seq<char>) -> (Seq<Seq<Seq<char>>>, bool);

/// The error with which the `csv` reader rejects a record.
#[verifier::external_type_specification]
#[verifier::external_body]
pub struct ExCsvError(csv::Error);

/// The fields of a sequence of records, as texts.
pub open spec fn records_view(rows: Seq<Vec<String>>) -> Seq<Seq<Seq<char>>> {
    rows.map_values(|row: Vec<String>| lines_view(row@))
}

/// The text of the canonical zero amount.
pub open spec fn canonical_zero() -> Seq<char> {
    seq!['0', '.', '0', '0']
}

/// The field of `record` at the 1-based position `col`, where there is one.
pub open spec fn field_at(record: Seq<Seq<char>>, col: nat) -> Option<Seq<char>> {
    if 1 <= col <= record.len() {
        Some(record[col - 1])
    } else {
        None
    }
}

/// A value field without its currency marker and its thousands separators.
pub open spec fn normalized_text(field: Seq<char>, currency: Seq<char>) -> Seq<char> {
    remove_all(remove_all(field, currency), seq![','])
}

/// A normalized record: the item's name, the stripped text of its value and
/// the exact amount that the text reads as.
#[derive(Debug, PartialEq, Eq)]
pub struct Candidate {
    pub item: String,
    pub value_text: String,
    pub value: Amount,
}

/// The mathematical content of a [`Candidate`].
pub struct CandidateView {
    pub item: Seq<char>,
    pub value_text: Seq<char>,
    pub value: Amount,
}

impl View for Candidate {
    type V = CandidateView;

    open spec fn view(&self) -> CandidateView {
        CandidateView { item: self.item@, value_text: self.value_text@, value: self.value }
    }
}

/// What a stripped value text and the outcome of reading it as a decimal
/// number make of a record.
pub open spec fn candidate_of(
    item: Seq<char>,
    value_text: Seq<char>,
    parts: Option<(int, nat)>,
) -> Result<CandidateView, IngestError> {
    match parts {
        Some((mantissa, scale)) => Ok(
            CandidateView {
                item,
                value_text,
                value: Amount { mantissa: mantissa as i128, scale: scale as u32 },
            },
        ),
        None => Err(IngestError::NumericParseFailure),
    }
}

/// The normalized form of `record`: its item and value fields are picked by
/// their 1-based positions, the value is stripped of the currency marker and
/// of thousands separators, and what remains is read as a decimal number. A
/// missing column is a `RowParseFailure`, an unreadable number a
/// `NumericParseFailure`.
pub open spec fn normalized(
    record: Seq<Seq<char>>,
    currency: Seq<char>,
    item_col: nat,
    value_col: nat,
) -> Result<CandidateView, IngestError> {
    match (field_at(record, item_col), field_at(record, value_col)) {
        (Some(item), Some(field)) => {
            let value_text = normalized_text(field, currency);
            candidate_of(item, value_text, decimal_parts(value_text))
        },
        _ => Err(IngestError::RowParseFailure),
    }
}

/// Splits delimited text into records of fields.
///
/// Builds a `csv::Reader` without a header row over the bytes of `data`
/// (`ReaderBuilder::has_headers`, `ReaderBuilder::from_reader`) and walks
/// `Reader::records` up to its first failure, copying the fields of each
/// record. Trusted: the records and the failure, if any, are those named by
/// [`csv_records`].
#[verifier::external_body]
fn read_records(data: &str) -> (r: (Vec<Vec<String>>, Option<csv::Error>))
    ensures
        records_view(r.0@) == csv_records(data@).0,
        r.1 is Some == csv_records(data@).1,
{
    let mut reader = csv::ReaderBuilder::new().has_headers(false).from_reader(data.as_bytes());
    let mut rows: Vec<Vec<String>> = Vec::new();
    for record in reader.records() {
        match record {
            Ok(fields) => rows.push(fields.iter().map(|field| field.to_string()).collect()),
            Err(failure) => return (rows, Some(failure)),
        }
    }
    (rows, None)
}

/// Splits delimited text into records of fields and says whether the reading
/// broke off at a malformed record.
pub fn parse_records(data: &str) -> (r: (Vec<Vec<String>>, bool))
    ensures
        records_view(r.0@) == csv_records(data@).0,
        r.1 == csv_records(data@).1,
{
    let (rows, failure) = read_records(data);
    (rows, failure.is_some())
}

/// Strips a value field of the currency marker and of thousands separators.
pub fn normalize_value(field: &str, currency: &str) -> (r: String)
    ensures
        r@ == normalized_text(field@, currency@),
{
    let without_marker = strip_marker(field, currency);
    proof {
        reveal_strlit(",");
        assert(","@ =~= seq![',']);
    }
    strip_marker(without_marker.as_str(), ",")
}

/// Tests whether a stripped value text is the canonical zero, `0.00`.
pub fn is_canonical_zero(value_text: &str) -> (r: bool)
    ensures
        r == (value_text@ == canonical_zero()),
{
    if value_text.unicode_len() != 4 {
        return false;
    }
    let r = value_text.get_char(0) == '0' && value_text.get_char(1) == '.' && value_text.get_char(2)
        == '0' && value_text.get_char(3) == '0';
    proof {
        if r {
            assert(value_text@ =~= canonical_zero());
        }
    }
    r
}

/// Makes a candidate of an item, its stripped value text and the outcome of
/// reading that text as a decimal number.
pub fn candidate_from_parsed(
    item: String,
    value_text: String,
    parsed: Result<Amount, rust_decimal::Error>,
) -> (r: Result<Candidate, IngestError>)
    ensures
        match parsed {
            Ok(value) => r matches Ok(c) && c@ == (CandidateView {
                item: item@,
                value_text: value_text@,
                value,
            }),
            Err(_) => r matches Err(e) && e == IngestError::NumericParseFailure,
        },
{
    match parsed {
        Ok(value) => Ok(Candidate { item, value_text, value }),
        Err(_) => Err(IngestError::NumericParseFailure),
    }
}

/// Normalizes one record.
pub fn normalize_record(record: &Vec<String>, currency: &str, item_col: usize, value_col: usize) -> (r:
    Result<Candidate, IngestError>)
    ensures
        match normalized(lines_view(record@), currency@, item_col as nat, value_col as nat) {
            Ok(c) => r matches Ok(found) && found@ == c,
            Err(e) => r matches Err(failure) && failure == e,
        },
        r matches Ok(found) ==> found.value.wf(),
{
    let n: usize = record.len();
    if item_col < 1 || item_col > n || value_col < 1 || value_col > n {
        return Err(IngestError::RowParseFailure);
    }
    let item: String = record[item_col - 1].clone();
    let value_text: String = normalize_value(record[value_col - 1].as_str(), currency);
    let parsed = parse_decimal(value_text.as_str());
    candidate_from_parsed(item, value_text, parsed)
}

} // verus!
