//! The ingestion writer: what becomes of each normalized record, and the run
//! over the records of one source.

use crate::amount::{pow10, Amount};
use crate::date::Date;
use crate::error::IngestError;
use crate::record::{
    canonical_zero, csv_records, is_canonical_zero, normalize_record, normalized, parse_records,
    records_view, Candidate, CandidateView,
};
use crate::store::{
    check_portfolio, holds, insert_portfolio, new_entry, next_id, same_observation, EntryView,
    Portfolio,
};
use crate::text::{join_lines, join_rows, lines_view};
use crate::window::{remove_first_last_rows, window};
use vstd::prelude::*;

verus! {

/// What became of one record.
#[derive(Clone, Copy, Debug, PartialEq, Eq, Structural)]
pub enum Outcome {
    /// The store already held the observation; nothing was written.
    AlreadyExists,
    /// The value is the canonical zero; nothing was written.
    SkippedZero,
    /// A new entry was appended.
    Added,
}

/// One line of the run's trace: the record's item and value and what became
/// of it.
#[derive(Debug, PartialEq, Eq)]
pub struct RecordReport {
    pub item: String,
    pub value: Amount,
    pub outcome: Outcome,
}

/// The mathematical content of a [`RecordReport`].
pub struct ReportView {
    pub item: Seq<char>,
    pub value: Amount,
    pub outcome: Outcome,
}

impl View for RecordReport {
    type V = ReportView;

    open spec fn view(&self) -> ReportView {
        ReportView { item: self.item@, value: self.value, outcome: self.outcome }
    }
}

/// The trace of a run and the failure that ended it, if one did.
#[derive(Debug, PartialEq, Eq)]
pub struct IngestReport {
    pub records: Vec<RecordReport>,
    pub failure: Option<IngestError>,
}

impl IngestReport {
    /// The outcome of the run as a whole: the failure that ended it, if one
    /// did.
    pub fn result(&self) -> (r: Result<(), IngestError>)
        ensures
            r == (match self.failure {
                Some(e) => Err::<(), IngestError>(e),
                None => Ok(()),
            }),
    {
        match self.failure {
            Some(e) => Err(e),
            None => Ok(()),
        }
    }
}

/// A run as a mathematical value: the store after it, its trace and the
/// failure that ended it, if one did.
pub struct RunView {
    pub entries: Seq<EntryView>,
    pub reports: Seq<ReportView>,
    pub failure: Option<IngestError>,
}

/// The trace lines of a sequence of reports, one by one.
pub open spec fn reports_view(reports: Seq<RecordReport>) -> Seq<ReportView> {
    reports.map_values(|r: RecordReport| r@)
}

/// The branch a record takes: a stored observation is reported as existing;
/// otherwise the canonical zero is skipped; anything else is added.
pub open spec fn decide(exists: bool, value_text: Seq<char>) -> Outcome {
    if exists {
        Outcome::AlreadyExists
    } else if value_text == canonical_zero() {
        Outcome::SkippedZero
    } else {
        Outcome::Added
    }
}

/// What one record reports: its branch, or `StoreFailure` where it is to be
/// added and the store cannot take it.
pub open spec fn step_result(entries: Seq<EntryView>, date: Date, c: CandidateView) -> Result<
    Outcome,
    IngestError,
> {
    let outcome = decide(holds(entries, date, c.item, c.value), c.value_text);
    if outcome == Outcome::Added && next_id(entries) > i32::MAX {
        Err(IngestError::StoreFailure)
    } else {
        Ok(outcome)
    }
}

/// The store after one record: one entry longer where the record is added,
/// unchanged otherwise.
pub open spec fn step_entries(entries: Seq<EntryView>, date: Date, c: CandidateView) -> Seq<
    EntryView,
> {
    if step_result(entries, date, c) == Ok::<Outcome, IngestError>(Outcome::Added) {
        entries.push(new_entry(entries, date, c.item, c.value))
    } else {
        entries
    }
}

/// The run over normalized records, in their order: each record sees what
/// the records before it stored, and the first failure ends the run, leaving
/// what was stored before it.
pub open spec fn run(
    entries: Seq<EntryView>,
    date: Date,
    prepared: Seq<Result<CandidateView, IngestError>>,
) -> RunView
    decreases prepared.len(),
{
    if prepared.len() == 0 {
        RunView { entries, reports: Seq::empty(), failure: None }
    } else {
        let before = run(entries, date, prepared.drop_last());
        if before.failure is Some {
            before
        } else {
            match prepared.last() {
                Err(e) => RunView { failure: Some(e), ..before },
                Ok(c) => match step_result(before.entries, date, c) {
                    Err(e) => RunView { failure: Some(e), ..before },
                    Ok(outcome) => RunView {
                        entries: step_entries(before.entries, date, c),
                        reports: before.reports.push(
                            ReportView { item: c.item, value: c.value, outcome },
                        ),
                        failure: None,
                    },
                },
            }
        }
    }
}

/// The records of a source in normalized form, one by one.
pub open spec fn prepared(
    records: Seq<Seq<Seq<char>>>,
    currency: Seq<char>,
    item_col: nat,
    value_col: nat,
) -> Seq<Result<CandidateView, IngestError>> {
    records.map_values(|record: Seq<Seq<char>>| normalized(record, currency, item_col, value_col))
}

/// The run over the records that were read from a source. Where the reading
/// broke off at a malformed record, the records before it are ingested and
/// the run then fails with `RowParseFailure`.
pub open spec fn ingest_run(
    entries: Seq<EntryView>,
    date: Date,
    records: Seq<Seq<Seq<char>>>,
    broken: bool,
    currency: Seq<char>,
    item_col: nat,
    value_col: nat,
) -> RunView {
    let done = run(entries, date, prepared(records, currency, item_col, value_col));
    if done.failure is None && broken {
        RunView { failure: Some(IngestError::RowParseFailure), ..done }
    } else {
        done
    }
}

/// The text that the reader is given: the windowed lines, joined.
pub open spec fn windowed_text(lines: Seq<Seq<char>>, skiprows: nat, stoprows: nat) -> Seq<char> {
    join_lines(window(lines, skiprows, stoprows))
}

/// Decides the branch of a record from the dedup filter's answer and the
/// stripped text of its value.
pub fn decide_record(exists: bool, value_text: &str) -> (r: Outcome)
    ensures
        r == decide(exists, value_text@),
{
    if exists {
        Outcome::AlreadyExists
    } else if is_canonical_zero(value_text) {
        Outcome::SkippedZero
    } else {
        Outcome::Added
    }
}

/// Ingests one normalized record: looks it up, and appends it unless it is
/// stored already or its value is the canonical zero.
pub fn ingest_candidate(store: &mut Portfolio, date: &Date, c: &Candidate) -> (r: Result<
    Outcome,
    IngestError,
>)
    ensures
        r == step_result(old(store)@, *date, c@),
        final(store)@ == step_entries(old(store)@, *date, c@),
        c@.value_text == canonical_zero() ==> final(store)@ == old(store)@,
{
    let exists: bool = check_portfolio(store, date, c.item.as_str(), &c.value);
    let outcome = decide_record(exists, c.value_text.as_str());
    match outcome {
        Outcome::Added => match insert_portfolio(store, date, c.item.as_str(), &c.value) {
            Ok(()) => Ok(Outcome::Added),
            Err(e) => Err(e),
        },
        _ => Ok(outcome),
    }
}

/// A run that has failed on some of its records is not changed by the records
/// that follow.
pub proof fn lemma_failure_ends_run(
    entries: Seq<EntryView>,
    date: Date,
    prepared: Seq<Result<CandidateView, IngestError>>,
    k: int,
)
    requires
        0 <= k <= prepared.len(),
        run(entries, date, prepared.take(k)).failure is Some,
    ensures
        run(entries, date, prepared) == run(entries, date, prepared.take(k)),
    decreases prepared.len(),
{
    if k == prepared.len() {
        assert(prepared.take(k) =~= prepared);
    } else {
        assert(prepared.drop_last().take(k) =~= prepared.take(k));
        lemma_failure_ends_run(entries, date, prepared.drop_last(), k);
    }
}

/// Windowing commutes with taking the texts of the lines.
proof fn lemma_window_view(rows: Seq<String>, skiprows: nat, stoprows: nat)
    ensures
        lines_view(window(rows, skiprows, stoprows)) == window(lines_view(rows), skiprows, stoprows),
{
    assert(lines_view(window(rows, skiprows, stoprows)) =~= window(
        lines_view(rows),
        skiprows,
        stoprows,
    ));
}

/// Ingests the records that were read from a source, in their order, and
/// reports what became of each. `broken` says that the reading broke off at
/// a malformed record after these.
pub fn ingest_records(
    store: &mut Portfolio,
    date: &Date,
    records: &Vec<Vec<String>>,
    broken: bool,
    currency: &str,
    item_col: usize,
    value_col: usize,
) -> (report: IngestReport)
    ensures
        ({
            let done = ingest_run(
                old(store)@,
                *date,
                records_view(records@),
                broken,
                currency@,
                item_col as nat,
                value_col as nat,
            );
            &&& final(store)@ == done.entries
            &&& reports_view(report.records@) == done.reports
            &&& report.failure == done.failure
        }),
{
    let ghost start = store@;
    let ghost all = prepared(records_view(records@), currency@, item_col as nat, value_col as nat);
    let mut reports: Vec<RecordReport> = Vec::new();
    let mut i: usize = 0;
    proof {
        assert(reports_view(reports@) =~= Seq::<ReportView>::empty());
    }
    while i < records.len()
        invariant
            i <= records.len(),
            start == old(store)@,
            all == prepared(records_view(records@), currency@, item_col as nat, value_col as nat),
            run(start, *date, all.take(i as int)) == (RunView {
                entries: store@,
                reports: reports_view(reports@),
                failure: None,
            }),
        decreases records.len() - i,
    {
        let ghost before = run(start, *date, all.take(i as int));
        proof {
            assert(all.take(i + 1).drop_last() =~= all.take(i as int));
            assert(all.take(i + 1).last() == normalized(
                lines_view(records@[i as int]@),
                currency@,
                item_col as nat,
                value_col as nat,
            ));
        }
        let candidate = match normalize_record(&records[i], currency, item_col, value_col) {
            Ok(c) => c,
            Err(e) => {
                proof {
                    assert(run(start, *date, all.take(i + 1)) == (RunView {
                        failure: Some(e),
                        ..before
                    }));
                    lemma_failure_ends_run(start, *date, all, i + 1);
                }
                return IngestReport { records: reports, failure: Some(e) };
            },
        };
        let outcome = match ingest_candidate(store, date, &candidate) {
            Ok(o) => o,
            Err(e) => {
                proof {
                    assert(run(start, *date, all.take(i + 1)) == (RunView {
                        failure: Some(e),
                        ..before
                    }));
                    lemma_failure_ends_run(start, *date, all, i + 1);
                }
                return IngestReport { records: reports, failure: Some(e) };
            },
        };
        let ghost earlier = reports_view(reports@);
        let report = RecordReport { item: candidate.item, value: candidate.value, outcome };
        reports.push(report);
        proof {
            assert(reports_view(reports@) =~= earlier.push(report@));
        }
        i = i + 1;
    }
    proof {
        assert(all.take(records.len() as int) =~= all);
    }
    IngestReport {
        records: reports,
        failure: if broken {
            Some(IngestError::RowParseFailure)
        } else {
            None
        },
    }
}

/// Ingests the lines of one source into the store under the snapshot date
/// `date`: drops `skiprows` leading and `stoprows` trailing lines, reads the
/// rest as delimited records, normalizes each and appends those that are
/// neither stored already nor zero. The first failure ends the run; what was
/// appended before it stays.
pub fn read_csv(
    store: &mut Portfolio,
    date: &Date,
    lines: Vec<String>,
    currency: &str,
    skiprows: usize,
    stoprows: usize,
    item_col: usize,
    value_col: usize,
) -> (report: IngestReport)
    ensures
        ({
            let parsed = csv_records(
                windowed_text(lines_view(lines@), skiprows as nat, stoprows as nat),
            );
            let done = ingest_run(
                old(store)@,
                *date,
                parsed.0,
                parsed.1,
                currency@,
                item_col as nat,
                value_col as nat,
            );
            &&& final(store)@ == done.entries
            &&& reports_view(report.records@) == done.reports
            &&& report.failure == done.failure
        }),
{
    proof {
        lemma_window_view(lines@, skiprows as nat, stoprows as nat);
    }
    let rows = remove_first_last_rows(lines, skiprows, stoprows);
    let data = join_rows(&rows);
    let (records, broken) = parse_records(data.as_str());
    ingest_records(store, date, &records, broken, currency, item_col, value_col)
}

/// Whether the report at index `i` is the report of the record at index `i`:
/// the record was normalized, the report echoes its item and value, and a
/// canonical zero was not added.
pub open spec fn report_of_record(
    prepared: Seq<Result<CandidateView, IngestError>>,
    reports: Seq<ReportView>,
    i: int,
) -> bool {
    &&& prepared[i] matches Ok(c)
    &&& reports[i].item == c.item
    &&& reports[i].value == c.value
    &&& c.value_text == canonical_zero() ==> reports[i].outcome != Outcome::Added
}

/// Whether `entry` is what the run appended for the record at index `i`: a
/// record that was reported as added, whose value is not the canonical zero.
pub open spec fn appended_for(
    prepared: Seq<Result<CandidateView, IngestError>>,
    reports: Seq<ReportView>,
    date: Date,
    entry: EntryView,
    i: int,
) -> bool {
    &&& 0 <= i < reports.len()
    &&& i < prepared.len()
    &&& prepared[i] matches Ok(c)
    &&& c.value_text != canonical_zero()
    &&& reports[i].outcome == Outcome::Added
    &&& entry.date == date
    &&& entry.item == c.item
    &&& entry.value == c.value
}

/// Whether `entry` is what the run appended for one of its records.
pub open spec fn appended(
    prepared: Seq<Result<CandidateView, IngestError>>,
    reports: Seq<ReportView>,
    date: Date,
    entry: EntryView,
) -> bool {
    exists|i: int| appended_for(prepared, reports, date, entry, i)
}

/// Whether the record at index `i` was normalized and is either the canonical
/// zero or an observation that `entries` holds.
pub open spec fn stored_or_zero(
    prepared: Seq<Result<CandidateView, IngestError>>,
    entries: Seq<EntryView>,
    date: Date,
    i: int,
) -> bool {
    &&& prepared[i] matches Ok(c)
    &&& c.value_text != canonical_zero() ==> holds(entries, date, c.item, c.value)
}

/// An observation that a store holds is held by every store that extends it.
proof fn lemma_holds_in_extension(
    entries: Seq<EntryView>,
    longer: Seq<EntryView>,
    date: Date,
    item: Seq<char>,
    value: Amount,
)
    requires
        holds(entries, date, item, value),
        entries.len() <= longer.len(),
        forall|k: int| 0 <= k < entries.len() ==> longer[k] == entries[k],
    ensures
        holds(longer, date, item, value),
{
    let i = choose|i: int|
        0 <= i < entries.len() && same_observation(
            #[trigger] entries[i],
            date,
            item,
            value,
        );
    assert(same_observation(longer[i], date, item, value));
}

/// What holds of every run: the trace reports the records in order, the old
/// entries stay in place, each new entry stems from a record that was added,
/// and each reported record is the canonical zero or stored.
proof fn lemma_run(
    entries: Seq<EntryView>,
    date: Date,
    prepared: Seq<Result<CandidateView, IngestError>>,
)
    ensures
        ({
            let done = run(entries, date, prepared);
            &&& done.reports.len() <= prepared.len()
            &&& done.failure is None ==> done.reports.len() == prepared.len()
            &&& forall|i: int|
                0 <= i < done.reports.len() ==> #[trigger] report_of_record(
                    prepared,
                    done.reports,
                    i,
                )
            &&& entries.len() <= done.entries.len()
            &&& forall|k: int| 0 <= k < entries.len() ==> done.entries[k] == entries[k]
            &&& forall|k: int|
                entries.len() <= k < done.entries.len() ==> #[trigger] appended(
                    prepared,
                    done.reports,
                    date,
                    done.entries[k],
                )
            &&& forall|i: int|
                0 <= i < done.reports.len() ==> #[trigger] stored_or_zero(
                    prepared,
                    done.entries,
                    date,
                    i,
                )
        }),
    decreases prepared.len(),
{
    if prepared.len() > 0 {
        let shorter = prepared.drop_last();
        let before = run(entries, date, shorter);
        let done = run(entries, date, prepared);
        lemma_run(entries, date, shorter);
        let last = prepared.len() - 1;
        assert forall|i: int| 0 <= i < before.reports.len() implies report_of_record(
            prepared,
            before.reports,
            i,
        ) by {
            assert(report_of_record(shorter, before.reports, i));
        }
        assert forall|i: int| 0 <= i < before.reports.len() implies stored_or_zero(
            prepared,
            before.entries,
            date,
            i,
        ) by {
            assert(stored_or_zero(shorter, before.entries, date, i));
        }
        assert forall|k: int| entries.len() <= k < before.entries.len() implies #[trigger] appended(
            prepared,
            before.reports,
            date,
            before.entries[k],
        ) by {
            assert(appended(shorter, before.reports, date, before.entries[k]));
            let i = choose|i: int| appended_for(shorter, before.reports, date, before.entries[k], i);
            assert(appended_for(prepared, before.reports, date, before.entries[k], i));
        }
        if before.failure is None && prepared.last() is Ok && step_result(
            before.entries,
            date,
            prepared.last()->Ok_0,
        ) is Ok {
            let c = prepared.last()->Ok_0;
            let outcome = step_result(before.entries, date, c)->Ok_0;
            assert(done.reports == before.reports.push(
                ReportView { item: c.item, value: c.value, outcome },
            ));
            assert(done.entries == step_entries(before.entries, date, c));
            assert forall|i: int| 0 <= i < done.reports.len() implies report_of_record(
                prepared,
                done.reports,
                i,
            ) by {
                if i < last {
                    assert(report_of_record(prepared, before.reports, i));
                }
            }
            assert forall|k: int| entries.len() <= k < done.entries.len() implies #[trigger] appended(
                prepared,
                done.reports,
                date,
                done.entries[k],
            ) by {
                if k < before.entries.len() {
                    assert(appended(prepared, before.reports, date, before.entries[k]));
                    let i = choose|i: int|
                        appended_for(prepared, before.reports, date, before.entries[k], i);
                    assert(appended_for(prepared, done.reports, date, done.entries[k], i));
                } else {
                    assert(appended_for(prepared, done.reports, date, done.entries[k], last));
                }
            }
            assert forall|i: int| 0 <= i < done.reports.len() implies stored_or_zero(
                prepared,
                done.entries,
                date,
                i,
            ) by {
                if i < last {
                    assert(stored_or_zero(prepared, before.entries, date, i));
                    let ci = prepared[i]->Ok_0;
                    if ci.value_text != canonical_zero() {
                        lemma_holds_in_extension(
                            before.entries,
                            done.entries,
                            date,
                            ci.item,
                            ci.value,
                        );
                    }
                } else if outcome == Outcome::Added {
                    let fresh = new_entry(before.entries, date, c.item, c.value);
                    assert(done.entries[before.entries.len() as int] == fresh);
                    assert(c.value.mantissa * pow10(0) == c.value.mantissa);
                    assert(same_observation(fresh, date, c.item, c.value));
                }
            }
        }
    }
}

/// A run over records that are all stored already, or zero, adds nothing and
/// reports none of them as added.
proof fn lemma_rerun(
    entries: Seq<EntryView>,
    date: Date,
    prepared: Seq<Result<CandidateView, IngestError>>,
)
    requires
        forall|i: int|
            0 <= i < prepared.len() ==> #[trigger] stored_or_zero(prepared, entries, date, i),
    ensures
        ({
            let again = run(entries, date, prepared);
            &&& again.failure is None
            &&& again.entries == entries
            &&& again.reports.len() == prepared.len()
            &&& forall|i: int|
                0 <= i < prepared.len() ==> (#[trigger] again.reports[i]).outcome
                    != Outcome::Added
            &&& forall|i: int|
                0 <= i < prepared.len() && prepared[i]->Ok_0.value_text != canonical_zero() ==> (
                #[trigger] again.reports[i]).outcome == Outcome::AlreadyExists
        }),
    decreases prepared.len(),
{
    if prepared.len() > 0 {
        let shorter = prepared.drop_last();
        assert forall|i: int| 0 <= i < shorter.len() implies #[trigger] stored_or_zero(
            shorter,
            entries,
            date,
            i,
        ) by {
            assert(stored_or_zero(prepared, entries, date, i));
        }
        lemma_rerun(entries, date, shorter);
        assert(stored_or_zero(prepared, entries, date, prepared.len() - 1));
    }
}

/// Zero-skip: whatever the store held and wherever the run ends, no record
/// whose stripped value is the canonical zero is reported as added, the
/// entries that were stored before the run stay as they were, and every entry
/// that the run appended stems from a record that is not the canonical zero.
pub proof fn lemma_zero_is_never_stored(
    entries: Seq<EntryView>,
    date: Date,
    records: Seq<Seq<Seq<char>>>,
    broken: bool,
    currency: Seq<char>,
    item_col: nat,
    value_col: nat,
)
    ensures
        ({
            let all = prepared(records, currency, item_col, value_col);
            let done = ingest_run(entries, date, records, broken, currency, item_col, value_col);
            &&& done.reports.len() <= records.len()
            &&& forall|i: int|
                0 <= i < done.reports.len() ==> #[trigger] report_of_record(all, done.reports, i)
            &&& entries.len() <= done.entries.len()
            &&& forall|k: int| 0 <= k < entries.len() ==> done.entries[k] == entries[k]
            &&& forall|k: int|
                entries.len() <= k < done.entries.len() ==> #[trigger] appended(
                    all,
                    done.reports,
                    date,
                    done.entries[k],
                )
        }),
{
    lemma_run(entries, date, prepared(records, currency, item_col, value_col));
}

/// Idempotence: after a run that succeeded, a second run over the same
/// records and configuration succeeds, leaves the store exactly as the first
/// run left it, and reports no record as added. Every record that is not the
/// canonical zero is reported as already existing.
pub proof fn lemma_second_run_adds_nothing(
    entries: Seq<EntryView>,
    date: Date,
    records: Seq<Seq<Seq<char>>>,
    broken: bool,
    currency: Seq<char>,
    item_col: nat,
    value_col: nat,
)
    requires
        ingest_run(entries, date, records, broken, currency, item_col, value_col).failure is None,
    ensures
        ({
            let all = prepared(records, currency, item_col, value_col);
            let first = ingest_run(entries, date, records, broken, currency, item_col, value_col);
            let second = ingest_run(
                first.entries,
                date,
                records,
                broken,
                currency,
                item_col,
                value_col,
            );
            &&& second.failure is None
            &&& second.entries == first.entries
            &&& second.reports.len() == records.len()
            &&& forall|i: int|
                0 <= i < records.len() ==> (#[trigger] second.reports[i]).outcome != Outcome::Added
            &&& forall|i: int|
                0 <= i < records.len() && all[i] is Ok && all[i]->Ok_0.value_text
                    != canonical_zero() ==> (#[trigger] second.reports[i]).outcome
                    == Outcome::AlreadyExists
        }),
{
    let all = prepared(records, currency, item_col, value_col);
    lemma_run(entries, date, all);
    let first = run(entries, date, all);
    lemma_rerun(first.entries, date, all);
}

/// Whether no entry repeats the observation of an entry before it.
pub open spec fn observations_distinct(entries: Seq<EntryView>) -> bool {
    forall|i: int, j: int|
        0 <= i < j < entries.len() ==> !same_observation(
            #[trigger] entries[i],
            (#[trigger] entries[j]).date,
            entries[j].item,
            entries[j].value,
        )
}

/// A run appends no observation that the store holds at that moment.
proof fn lemma_run_distinct(
    entries: Seq<EntryView>,
    date: Date,
    prepared: Seq<Result<CandidateView, IngestError>>,
)
    requires
        observations_distinct(entries),
    ensures
        observations_distinct(run(entries, date, prepared).entries),
    decreases prepared.len(),
{
    if prepared.len() > 0 {
        let before = run(entries, date, prepared.drop_last());
        let done = run(entries, date, prepared);
        lemma_run_distinct(entries, date, prepared.drop_last());
        if done.entries != before.entries {
            let c = prepared.last()->Ok_0;
            assert(done.entries == before.entries.push(
                new_entry(before.entries, date, c.item, c.value),
            ));
            assert(!holds(before.entries, date, c.item, c.value));
            assert forall|i: int, j: int| 0 <= i < j < done.entries.len() implies
                !same_observation(
                #[trigger] done.entries[i],
                (#[trigger] done.entries[j]).date,
                done.entries[j].item,
                done.entries[j].value,
            ) by {
                if j < before.entries.len() {
                    assert(!same_observation(
                        before.entries[i],
                        before.entries[j].date,
                        before.entries[j].item,
                        before.entries[j].value,
                    ));
                } else {
                    assert(!same_observation(
                        before.entries[i],
                        date,
                        c.item,
                        c.value,
                    ));
                }
            }
        }
    }
}

/// Duplicates: a store in which no entry repeats the observation of an
/// earlier one is still such a store after a run, wherever the run ends. A
/// run that follows a failed one therefore stores nothing twice.
pub proof fn lemma_run_stores_nothing_twice(
    entries: Seq<EntryView>,
    date: Date,
    records: Seq<Seq<Seq<char>>>,
    broken: bool,
    currency: Seq<char>,
    item_col: nat,
    value_col: nat,
)
    requires
        observations_distinct(entries),
    ensures
        observations_distinct(
            ingest_run(entries, date, records, broken, currency, item_col, value_col).entries,
        ),
{
    lemma_run_distinct(entries, date, prepared(records, currency, item_col, value_col));
}

/// The trace of one record as it is shown: a record that was added or
/// skipped is echoed with the date, and every record is followed by what
/// became of it.
pub open spec fn trace_text(date: Date, report: ReportView) -> Seq<Seq<char>> {
    let echo = date.text() + seq![' '] + report.item + seq![' '] + report.value.text();
    match report.outcome {
        Outcome::AlreadyExists => seq!["Already Exists"@],
        Outcome::SkippedZero => seq![echo, "Skipping 0"@],
        Outcome::Added => seq![echo, "Added"@],
    }
}

/// Writes the trace lines of one record.
pub fn trace_lines(date: &Date, report: &RecordReport) -> (r: Vec<String>)
    ensures
        lines_view(r@) == trace_text(*date, report@),
{
    let mut lines: Vec<String> = Vec::new();
    match report.outcome {
        Outcome::AlreadyExists => {
            lines.push(String::from_str("Already Exists"));
        },
        _ => {
            proof {
                reveal_strlit(" ");
                assert(" "@ =~= seq![' ']);
            }
            let mut echo: String = date.to_text();
            echo.append(" ");
            echo.append(report.item.as_str());
            echo.append(" ");
            echo.append(report.value.to_text().as_str());
            lines.push(echo);
            match report.outcome {
                Outcome::Added => {
                    lines.push(String::from_str("Added"));
                },
                _ => {
                    lines.push(String::from_str("Skipping 0"));
                },
            }
        },
    }
    proof {
        assert(lines_view(lines@) =~= trace_text(*date, report@));
    }
    lines
}

} // verus!
