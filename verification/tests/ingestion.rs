use haibun::amount::Amount;
use haibun::date::Date;
use haibun::error::IngestError;
use haibun::ingest::{
    decide_record, ingest_candidate, ingest_records, read_csv, trace_lines, IngestReport, Outcome,
    RecordReport,
};
use haibun::record::Candidate;
use haibun::resolver::date_from_filename;
use haibun::store::{check_portfolio, insert_portfolio, Portfolio, PortfolioEntry};

fn lines(items: &[&str]) -> Vec<String> {
    items.iter().map(|s| s.to_string()).collect()
}

fn day(year: i32, month: u32, day: u32) -> Date {
    Date { year, month, day }
}

fn cents(mantissa: i128) -> Amount {
    Amount { mantissa, scale: 2 }
}

fn report(item: &str, value: Amount, outcome: Outcome) -> RecordReport {
    RecordReport { item: item.to_string(), value, outcome }
}

fn outcomes(r: &IngestReport) -> Vec<Outcome> {
    r.records.iter().map(|x| x.outcome).collect()
}

#[test]
fn scenario_export_with_banner_and_footer() {
    let date = date_from_filename("Data_2015-03-14_List.csv").unwrap();
    let raw = lines(&["Holdings report", "AAPL,$100.00", "Cash,$0.00", "End of report"]);
    let mut store = Portfolio::new();
    let r = read_csv(&mut store, &date, raw, "$", 1, 1, 1, 2);
    assert_eq!(None, r.failure);
    assert_eq!(
        vec![
            report("AAPL", cents(10000), Outcome::Added),
            report("Cash", cents(0), Outcome::SkippedZero),
        ],
        r.records
    );
    assert_eq!(
        &vec![PortfolioEntry {
            id: 1,
            date: day(2015, 3, 14),
            item: "AAPL".to_string(),
            value: cents(10000),
        }],
        store.entries()
    );
}

#[test]
fn second_run_adds_nothing() {
    let date = day(2015, 3, 14);
    let raw = lines(&["banner", "AAPL,$100.00", "Cash,$0.00", "MSFT,\"$2,500.10\"", "footer"]);
    let mut store = Portfolio::new();
    let first = read_csv(&mut store, &date, raw.clone(), "$", 1, 1, 1, 2);
    assert_eq!(None, first.failure);
    assert_eq!(vec![Outcome::Added, Outcome::SkippedZero, Outcome::Added], outcomes(&first));
    let after_first = store.entries().clone();
    assert_eq!(2, after_first.len());
    let second = read_csv(&mut store, &date, raw, "$", 1, 1, 1, 2);
    assert_eq!(None, second.failure);
    assert_eq!(
        vec![Outcome::AlreadyExists, Outcome::SkippedZero, Outcome::AlreadyExists],
        outcomes(&second)
    );
    assert_eq!(&after_first, store.entries());
}

#[test]
fn zero_is_never_stored() {
    let date = day(2020, 1, 1);
    let raw = lines(&["Cash,0.00", "Cash,$0.00", "Cash,\"0.00\"", "Gold,1.00", "Cash,0.00"]);
    let mut store = Portfolio::new();
    let r = read_csv(&mut store, &date, raw, "$", 0, 0, 1, 2);
    assert_eq!(None, r.failure);
    assert_eq!(
        vec![
            Outcome::SkippedZero,
            Outcome::SkippedZero,
            Outcome::SkippedZero,
            Outcome::Added,
            Outcome::SkippedZero,
        ],
        outcomes(&r)
    );
    assert_eq!(1, store.len());
    assert_eq!("Gold", store.entries()[0].item);
}

#[test]
fn stored_zero_is_reported_as_existing() {
    let date = day(2020, 1, 1);
    let mut store = Portfolio::new();
    insert_portfolio(&mut store, &date, "Cash", &cents(0)).unwrap();
    let r = read_csv(&mut store, &date, lines(&["Cash,0.00"]), "", 0, 0, 1, 2);
    assert_eq!(vec![Outcome::AlreadyExists], outcomes(&r));
    assert_eq!(1, store.len());
}

#[test]
fn only_the_canonical_text_is_skipped() {
    let date = day(2020, 1, 1);
    let mut store = Portfolio::new();
    let r = read_csv(&mut store, &date, lines(&["A,0.0", "B,0", "C,0.000"]), "", 0, 0, 1, 2);
    assert_eq!(vec![Outcome::Added, Outcome::Added, Outcome::Added], outcomes(&r));
    assert_eq!(3, store.len());
}

#[test]
fn later_records_see_earlier_ones() {
    let date = day(2020, 1, 1);
    let mut store = Portfolio::new();
    let r = read_csv(&mut store, &date, lines(&["A,5.00", "A,5.00", "A,5.0", "A,5.01"]), "", 0, 0, 1, 2);
    assert_eq!(
        vec![Outcome::Added, Outcome::AlreadyExists, Outcome::AlreadyExists, Outcome::Added],
        outcomes(&r)
    );
    assert_eq!(2, store.len());
}

#[test]
fn dedup_key_is_date_item_and_value() {
    let mut store = Portfolio::new();
    insert_portfolio(&mut store, &day(2024, 1, 1), "AAPL", &cents(10000)).unwrap();
    assert!(check_portfolio(&store, &day(2024, 1, 1), "AAPL", &cents(10000)));
    assert!(check_portfolio(&store, &day(2024, 1, 1), "AAPL", &Amount { mantissa: 100, scale: 0 }));
    assert!(!check_portfolio(&store, &day(2024, 1, 2), "AAPL", &cents(10000)));
    assert!(!check_portfolio(&store, &day(2024, 1, 1), "aapl", &cents(10000)));
    assert!(!check_portfolio(&store, &day(2024, 1, 1), "AAPL ", &cents(10000)));
    assert!(!check_portfolio(&store, &day(2024, 1, 1), "AAPL", &cents(10001)));
    assert!(!check_portfolio(&Portfolio::new(), &day(2024, 1, 1), "AAPL", &cents(10000)));
}

#[test]
fn identical_sub_lots_are_taken_for_one() {
    let date = day(2024, 1, 1);
    let mut store = Portfolio::new();
    let r = read_csv(&mut store, &date, lines(&["Lot,10.00", "Lot,10.00"]), "", 0, 0, 1, 2);
    assert_eq!(vec![Outcome::Added, Outcome::AlreadyExists], outcomes(&r));
    assert_eq!(1, store.len());
}

#[test]
fn identifiers_are_given_in_order() {
    let mut store = Portfolio::new();
    for (i, item) in ["a", "b", "c"].iter().enumerate() {
        insert_portfolio(&mut store, &day(2024, 1, 1), item, &cents(i as i128 + 1)).unwrap();
    }
    let ids: Vec<i32> = store.entries().iter().map(|e| e.id).collect();
    assert_eq!(vec![1, 2, 3], ids);
}

#[test]
fn used_up_identifiers_are_a_store_failure() {
    let last = PortfolioEntry {
        id: i32::MAX,
        date: day(2024, 1, 1),
        item: "a".to_string(),
        value: cents(1),
    };
    let mut store = Portfolio::from_entries(vec![last.clone()]).unwrap();
    assert_eq!(
        Err(IngestError::StoreFailure),
        insert_portfolio(&mut store, &day(2024, 1, 1), "b", &cents(2))
    );
    assert_eq!(&vec![last], store.entries());
    let r = read_csv(
        &mut store,
        &day(2024, 1, 1),
        lines(&["a,0.01", "z,0.00", "b,0.02", "c,0.03"]),
        "",
        0,
        0,
        1,
        2,
    );
    assert_eq!(Some(IngestError::StoreFailure), r.failure);
    assert_eq!(vec![Outcome::AlreadyExists, Outcome::SkippedZero], outcomes(&r));
    assert_eq!(1, store.len());
}

#[test]
fn stores_are_built_from_ascending_identifiers_only() {
    let e = |id: i32| PortfolioEntry {
        id,
        date: day(2024, 1, 1),
        item: "a".to_string(),
        value: cents(1),
    };
    assert!(Portfolio::from_entries(vec![]).is_some());
    assert!(Portfolio::from_entries(vec![e(1), e(2), e(10)]).is_some());
    assert!(Portfolio::from_entries(vec![e(5)]).is_some());
    assert!(Portfolio::from_entries(vec![e(0)]).is_none());
    assert!(Portfolio::from_entries(vec![e(-1), e(2)]).is_none());
    assert!(Portfolio::from_entries(vec![e(1), e(1)]).is_none());
    assert!(Portfolio::from_entries(vec![e(2), e(1)]).is_none());
    let store = Portfolio::from_entries(vec![e(3), e(7)]).unwrap();
    assert_eq!(2, store.len());
    assert_eq!(&vec![e(3), e(7)], store.entries());
}

#[test]
fn bad_number_ends_the_run_and_keeps_what_was_stored() {
    let date = day(2024, 1, 1);
    let mut store = Portfolio::new();
    let r = read_csv(&mut store, &date, lines(&["A,1.00", "B,n/a", "C,3.00"]), "", 0, 0, 1, 2);
    assert_eq!(Some(IngestError::NumericParseFailure), r.failure);
    assert_eq!(vec![report("A", cents(100), Outcome::Added)], r.records);
    assert_eq!(1, store.len());
    let again = read_csv(&mut store, &date, lines(&["A,1.00", "B,2.00", "C,3.00"]), "", 0, 0, 1, 2);
    assert_eq!(None, again.failure);
    assert_eq!(vec![Outcome::AlreadyExists, Outcome::Added, Outcome::Added], outcomes(&again));
    assert_eq!(3, store.len());
}

#[test]
fn malformed_record_ends_the_run_after_the_records_before_it() {
    let date = day(2024, 1, 1);
    let mut store = Portfolio::new();
    let r = read_csv(&mut store, &date, lines(&["A,1.00", "B,2.00,x", "C,3.00"]), "", 0, 0, 1, 2);
    assert_eq!(Some(IngestError::RowParseFailure), r.failure);
    assert_eq!(vec![Outcome::Added], outcomes(&r));
    assert_eq!(1, store.len());
}

#[test]
fn missing_column_ends_the_run() {
    let date = day(2024, 1, 1);
    let mut store = Portfolio::new();
    let r = read_csv(&mut store, &date, lines(&["A,1.00", "B,2.00"]), "", 0, 0, 1, 3);
    assert_eq!(Some(IngestError::RowParseFailure), r.failure);
    assert!(r.records.is_empty());
    assert_eq!(0, store.len());
}

#[test]
fn window_that_leaves_nothing_ingests_nothing() {
    let date = day(2024, 1, 1);
    let mut store = Portfolio::new();
    let r = read_csv(&mut store, &date, lines(&["A,1.00", "B,2.00"]), "", 1, 1, 1, 2);
    assert_eq!(IngestReport { records: vec![], failure: None }, r);
    let r = read_csv(&mut store, &date, lines(&["A,1.00", "B,2.00"]), "", 5, 5, 1, 2);
    assert_eq!(IngestReport { records: vec![], failure: None }, r);
    assert_eq!(0, store.len());
}

#[test]
fn one_date_serves_every_record_of_a_run() {
    let date = day(2015, 3, 14);
    let mut store = Portfolio::new();
    read_csv(&mut store, &date, lines(&["A,1.00", "B,2.00", "C,3.00"]), "", 0, 0, 1, 2);
    assert!(store.entries().iter().all(|e| e.date == date));
}

#[test]
fn branches_follow_lookup_then_zero() {
    assert_eq!(Outcome::AlreadyExists, decide_record(true, "5.00"));
    assert_eq!(Outcome::AlreadyExists, decide_record(true, "0.00"));
    assert_eq!(Outcome::SkippedZero, decide_record(false, "0.00"));
    assert_eq!(Outcome::Added, decide_record(false, "5.00"));
    assert_eq!(Outcome::Added, decide_record(false, "0.0"));
}

#[test]
fn candidates_are_ingested_one_by_one() {
    let date = day(2024, 1, 1);
    let mut store = Portfolio::new();
    let c = Candidate { item: "A".to_string(), value_text: "1.50".to_string(), value: cents(150) };
    assert_eq!(Ok(Outcome::Added), ingest_candidate(&mut store, &date, &c));
    assert_eq!(Ok(Outcome::AlreadyExists), ingest_candidate(&mut store, &date, &c));
    let z = Candidate { item: "Z".to_string(), value_text: "0.00".to_string(), value: cents(0) };
    assert_eq!(Ok(Outcome::SkippedZero), ingest_candidate(&mut store, &date, &z));
    assert_eq!(1, store.len());
}

#[test]
fn records_are_ingested_from_fields() {
    let date = day(2024, 1, 1);
    let mut store = Portfolio::new();
    let records = vec![lines(&["x", "A", "$1.00"]), lines(&["y", "B", "$0.00"])];
    let r = ingest_records(&mut store, &date, &records, false, "$", 2, 3);
    assert_eq!(None, r.failure);
    assert_eq!(vec![Outcome::Added, Outcome::SkippedZero], outcomes(&r));
    let broken = ingest_records(&mut store, &date, &records, true, "$", 2, 3);
    assert_eq!(Some(IngestError::RowParseFailure), broken.failure);
    assert_eq!(vec![Outcome::AlreadyExists, Outcome::SkippedZero], outcomes(&broken));
}

#[test]
fn trace_echoes_added_and_skipped_records() {
    let date = day(2015, 3, 14);
    assert_eq!(
        lines(&["2015-03-14 AAPL 100.00", "Added"]),
        trace_lines(&date, &report("AAPL", cents(10000), Outcome::Added))
    );
    assert_eq!(
        lines(&["2015-03-14 Cash 0.00", "Skipping 0"]),
        trace_lines(&date, &report("Cash", cents(0), Outcome::SkippedZero))
    );
    assert_eq!(
        lines(&["Already Exists"]),
        trace_lines(&date, &report("AAPL", cents(10000), Outcome::AlreadyExists))
    );
}
