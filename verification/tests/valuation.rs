use haibun::amount::{Amount, MAX_MANTISSA};
use haibun::date::Date;
use haibun::error::ValuationError;
use haibun::store::{insert_portfolio, Portfolio, PortfolioEntry};
use haibun::valuation::{
    get_portfolio, get_portfolio_sum, latest_snapshot, portfolio_count, PortfolioRow,
    SnapshotItem,
};

fn day(year: i32, month: u32, day: u32) -> Date {
    Date { year, month, day }
}

fn cents(mantissa: i128) -> Amount {
    Amount { mantissa, scale: 2 }
}

fn store_of(entries: &[(Date, &str, Amount)]) -> Portfolio {
    let mut store = Portfolio::new();
    for (date, item, value) in entries {
        insert_portfolio(&mut store, date, item, value).unwrap();
    }
    store
}

fn shares(store: &Portfolio) -> Vec<(String, String)> {
    latest_snapshot(store)
        .unwrap()
        .items
        .into_iter()
        .map(|i| (i.item, i.proportion))
        .collect()
}

fn pair(a: &str, b: &str) -> (String, String) {
    (a.to_string(), b.to_string())
}

#[test]
fn scenario_only_the_latest_date_is_valued() {
    let store = store_of(&[
        (day(2024, 1, 1), "AAPL", cents(10000)),
        (day(2024, 2, 1), "AAPL", cents(15000)),
    ]);
    let v = latest_snapshot(&store).unwrap();
    assert_eq!(day(2024, 2, 1), v.date);
    assert_eq!(
        vec![SnapshotItem {
            id: 2,
            item: "AAPL".to_string(),
            value: cents(15000),
            share: 10000,
            proportion: "100.00%".to_string(),
        }],
        v.items
    );
    assert_eq!(cents(15000), v.total);
    assert_eq!("150.00", v.total.to_text());
}

#[test]
fn empty_store_has_no_snapshot() {
    let store = Portfolio::new();
    assert_eq!(Err(ValuationError::EmptySnapshot), latest_snapshot(&store));
    assert_eq!(Err(ValuationError::EmptySnapshot), get_portfolio(&store));
    assert_eq!(Err(ValuationError::EmptySnapshot), get_portfolio_sum(&store));
}

#[test]
fn latest_is_the_greatest_date_not_the_last_stored() {
    let store = store_of(&[
        (day(2024, 3, 1), "New", cents(100)),
        (day(2023, 12, 31), "Old", cents(900)),
        (day(2024, 2, 29), "Older", cents(500)),
    ]);
    let v = latest_snapshot(&store).unwrap();
    assert_eq!(day(2024, 3, 1), v.date);
    assert_eq!(vec![pair("New", "100.00%")], shares(&store));
    assert_eq!(cents(100), v.total);
}

#[test]
fn items_are_ranked_by_value_descending() {
    let d = day(2024, 1, 1);
    let store = store_of(&[
        (d, "Small", cents(1000)),
        (d, "Large", cents(6000)),
        (d, "Medium", cents(3000)),
    ]);
    assert_eq!(
        vec![pair("Large", "60.00%"), pair("Medium", "30.00%"), pair("Small", "10.00%")],
        shares(&store)
    );
    let ids: Vec<i32> = latest_snapshot(&store).unwrap().items.iter().map(|i| i.id).collect();
    assert_eq!(vec![2, 3, 1], ids);
}

#[test]
fn equal_values_keep_their_stored_order() {
    let d = day(2024, 1, 1);
    let store = store_of(&[
        (d, "B", cents(500)),
        (d, "A", cents(500)),
        (d, "Top", cents(1000)),
        (d, "C", Amount { mantissa: 5, scale: 0 }),
    ]);
    let items: Vec<String> = latest_snapshot(&store).unwrap().items.into_iter().map(|i| i.item).collect();
    assert_eq!(vec!["Top", "B", "A", "C"], items);
}

#[test]
fn thirds_are_rounded_to_two_places() {
    let d = day(2024, 1, 1);
    let store = store_of(&[(d, "A", cents(100)), (d, "B", cents(100)), (d, "C", cents(100))]);
    assert_eq!(
        vec![pair("A", "33.33%"), pair("B", "33.33%"), pair("C", "33.33%")],
        shares(&store)
    );
    let sum: i128 = latest_snapshot(&store).unwrap().items.iter().map(|i| i.share).sum();
    assert_eq!(9999, sum);
}

#[test]
fn halves_are_rounded_away_from_zero() {
    let d = day(2024, 1, 1);
    // 1 of 800 is 0.125 percent, 799 of 800 is 99.875 percent
    let store = store_of(&[(d, "Dust", cents(1)), (d, "Rest", cents(799))]);
    assert_eq!(vec![pair("Rest", "99.88%"), pair("Dust", "0.13%")], shares(&store));
    // 1 of 3 is 33.333 percent, 2 of 3 is 66.667 percent
    let store = store_of(&[(d, "One", cents(1)), (d, "Two", cents(2))]);
    assert_eq!(vec![pair("Two", "66.67%"), pair("One", "33.33%")], shares(&store));
}

#[test]
fn shares_add_up_to_a_hundred_within_rounding() {
    let d = day(2024, 1, 1);
    let values = [1i128, 3, 7, 11, 13, 17, 19, 23, 29, 31, 37];
    let mut store = Portfolio::new();
    for (i, v) in values.iter().enumerate() {
        insert_portfolio(&mut store, &d, &format!("item{}", i), &cents(*v)).unwrap();
    }
    let v = latest_snapshot(&store).unwrap();
    let sum: i128 = v.items.iter().map(|i| i.share).sum();
    assert!(2 * (sum - 10000).abs() <= values.len() as i128, "{}", sum);
    assert_eq!(cents(191), v.total);
    for item in &v.items {
        let exact_num = 10000 * item.value.mantissa;
        assert!(2 * (item.share * 191 - exact_num).abs() <= 191);
    }
}

#[test]
fn values_of_different_scales_are_added_at_the_widest() {
    let d = day(2024, 1, 1);
    let store = store_of(&[
        (d, "Whole", Amount { mantissa: 100, scale: 0 }),
        (d, "Cents", cents(5050)),
        (d, "Mills", Amount { mantissa: 49500, scale: 3 }),
    ]);
    let v = latest_snapshot(&store).unwrap();
    assert_eq!(Amount { mantissa: 200000, scale: 3 }, v.total);
    assert_eq!("200.000", v.total.to_text());
    assert_eq!(
        vec![pair("Whole", "50.00%"), pair("Cents", "25.25%"), pair("Mills", "24.75%")],
        shares(&store)
    );
    assert_eq!(Amount { mantissa: 100, scale: 0 }, v.items[0].value);
}

#[test]
fn negative_values_have_negative_shares() {
    let d = day(2024, 1, 1);
    let store = store_of(&[(d, "Loan", cents(-5000)), (d, "House", cents(25000))]);
    assert_eq!(vec![pair("House", "125.00%"), pair("Loan", "-25.00%")], shares(&store));
    let store = store_of(&[(d, "Loan", cents(-30000)), (d, "Cash", cents(10000))]);
    assert_eq!(vec![pair("Cash", "-50.00%"), pair("Loan", "150.00%")], shares(&store));
    assert_eq!(cents(-20000), latest_snapshot(&store).unwrap().total);
}

#[test]
fn zero_total_has_no_shares() {
    let d = day(2024, 1, 1);
    let store = store_of(&[(d, "Up", cents(500)), (d, "Down", cents(-500))]);
    assert_eq!(Err(ValuationError::ZeroTotal), latest_snapshot(&store));
    assert_eq!(Err(ValuationError::ZeroTotal), get_portfolio(&store));
    assert_eq!(cents(0), get_portfolio_sum(&store).unwrap().value);
    let store = store_of(&[(d, "Nil", cents(0))]);
    assert_eq!(Err(ValuationError::ZeroTotal), latest_snapshot(&store));
}

#[test]
fn values_beyond_the_range_are_an_overflow() {
    let d = day(2024, 1, 1);
    let store = store_of(&[
        (d, "Huge", Amount { mantissa: MAX_MANTISSA, scale: 0 }),
        (d, "Tiny", Amount { mantissa: 1, scale: 28 }),
    ]);
    assert_eq!(Err(ValuationError::Overflow), latest_snapshot(&store));
    assert_eq!(Err(ValuationError::Overflow), get_portfolio_sum(&store));
    let limit = i128::MAX / 10000;
    let store = store_of(&[(d, "Edge", Amount { mantissa: limit, scale: 0 })]);
    assert_eq!(vec![pair("Edge", "100.00%")], shares(&store));
    let store = store_of(&[(d, "Edge", Amount { mantissa: limit + 1, scale: 0 })]);
    assert_eq!(Err(ValuationError::Overflow), latest_snapshot(&store));
    let store = store_of(&[
        (d, "Half", Amount { mantissa: limit, scale: 0 }),
        (d, "Other", Amount { mantissa: -1, scale: 0 }),
    ]);
    assert_eq!(Err(ValuationError::Overflow), latest_snapshot(&store));
}

#[test]
fn older_snapshots_do_not_count_towards_the_range() {
    let store = store_of(&[
        (day(2023, 1, 1), "Huge", Amount { mantissa: MAX_MANTISSA, scale: 0 }),
        (day(2023, 1, 1), "Tiny", Amount { mantissa: 1, scale: 28 }),
        (day(2024, 1, 1), "Now", cents(100)),
    ]);
    assert_eq!(vec![pair("Now", "100.00%")], shares(&store));
}

#[test]
fn table_rows_end_with_the_total() {
    let d = day(2024, 1, 1);
    let store = store_of(&[(d, "A", cents(2500)), (d, "B", cents(7500))]);
    let v = latest_snapshot(&store).unwrap();
    let row = |id: i32, item: &str, value: Amount, proportion: &str| PortfolioRow {
        id,
        item: item.to_string(),
        value,
        proportion: proportion.to_string(),
    };
    assert_eq!(
        vec![
            row(2, "B", cents(7500), "75.00%"),
            row(1, "A", cents(2500), "25.00%"),
            row(0, "Total", cents(10000), ""),
        ],
        v.rows()
    );
    assert_eq!(row(0, "Total", cents(10000), ""), v.total_row());
    assert_eq!(v.item_rows(), get_portfolio(&store).unwrap());
    assert_eq!(row(0, "Total", cents(10000), ""), get_portfolio_sum(&store).unwrap());
}

#[test]
fn count_is_of_the_latest_snapshot() {
    assert_eq!("Count: 0", portfolio_count(&Portfolio::new()));
    let store = store_of(&[
        (day(2024, 1, 1), "A", cents(1)),
        (day(2024, 2, 1), "A", cents(2)),
        (day(2024, 2, 1), "B", cents(3)),
        (day(2024, 1, 15), "C", cents(4)),
    ]);
    assert_eq!("Count: 2", portfolio_count(&store));
    let mut many = Portfolio::new();
    for i in 0..12 {
        insert_portfolio(&mut many, &day(2024, 1, 1), &format!("i{}", i), &cents(i + 1)).unwrap();
    }
    assert_eq!("Count: 12", portfolio_count(&many));
}

#[test]
fn loaded_entries_are_valued_with_their_identifiers() {
    let e = |id: i32, d: Date, item: &str, v: i128| PortfolioEntry {
        id,
        date: d,
        item: item.to_string(),
        value: cents(v),
    };
    let store = Portfolio::from_entries(vec![
        e(4, day(2024, 5, 1), "X", 100),
        e(9, day(2024, 5, 1), "Y", 100),
        e(12, day(2024, 4, 1), "Z", 999),
    ])
    .unwrap();
    let ids: Vec<i32> = latest_snapshot(&store).unwrap().items.iter().map(|i| i.id).collect();
    assert_eq!(vec![4, 9], ids);
}
