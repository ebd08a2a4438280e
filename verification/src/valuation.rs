//! The valuation aggregator: the latest snapshot, each item's share of its
//! total, and the ranking of its items.

use crate::amount::{scale_up, Amount};
use crate::date::Date;
use crate::error::ValuationError;
use crate::store::{entries_view, ids_ascending, EntryView, Portfolio, PortfolioEntry};
use crate::text::{digits, fixed_text, fixed_to_text, push_digits};
use vstd::prelude::*;

verus! {

/// The test that picks the entries of one date.
pub open spec fn on_date(date: Date) -> spec_fn(EntryView) -> bool {
    |e: EntryView| e.date == date
}

/// Whether `date` is the date of some entry and no entry has a later one.
pub open spec fn is_latest(entries: Seq<EntryView>, date: Date) -> bool {
    &&& exists|i: int| 0 <= i < entries.len() && (#[trigger] entries[i]).date == date
    &&& forall|i: int| 0 <= i < entries.len() ==> !date.before((#[trigger] entries[i]).date)
}

/// The latest date that any entry has. It is the greatest stored date, not
/// the date of the entry that was stored last.
pub open spec fn latest_date(entries: Seq<EntryView>) -> Date {
    choose|date: Date| is_latest(entries, date)
}

/// The latest snapshot: the entries of the latest date, in stored order.
pub open spec fn snapshot(entries: Seq<EntryView>) -> Seq<EntryView> {
    entries.filter(on_date(latest_date(entries)))
}

/// The largest scale among the values of `snap`; 0 where there is none.
pub open spec fn common_scale(snap: Seq<EntryView>) -> nat
    decreases snap.len(),
{
    if snap.len() == 0 {
        0
    } else {
        let rest = common_scale(snap.drop_last());
        if rest >= snap.last().value.scale {
            rest
        } else {
            snap.last().value.scale as nat
        }
    }
}

/// The absolute value of `x`.
pub open spec fn magnitude_of(x: int) -> int {
    if x < 0 {
        -x
    } else {
        x
    }
}

/// The sum of the values of `snap`, each as a mantissa at `scale`.
pub open spec fn total_units(snap: Seq<EntryView>, scale: nat) -> int
    decreases snap.len(),
{
    if snap.len() == 0 {
        0
    } else {
        total_units(snap.drop_last(), scale) + snap.last().value.mantissa_at(scale)
    }
}

/// The sum of the absolute values of `snap`, each as a mantissa at `scale`.
pub open spec fn magnitude(snap: Seq<EntryView>, scale: nat) -> int
    decreases snap.len(),
{
    if snap.len() == 0 {
        0
    } else {
        magnitude(snap.drop_last(), scale) + magnitude_of(snap.last().value.mantissa_at(scale))
    }
}

/// The quotient `n / d`, rounded to the nearest integer; a quotient halfway
/// between two integers is rounded away from zero.
pub open spec fn round_div(n: int, d: int) -> int
    recommends
        d != 0,
{
    let q = magnitude_of(n) / magnitude_of(d);
    let r = magnitude_of(n) % magnitude_of(d);
    let nearest = if 2 * r >= magnitude_of(d) {
        q + 1
    } else {
        q
    };
    if (n < 0) != (d < 0) {
        -nearest
    } else {
        nearest
    }
}

/// The share of `units` in `total`, in hundredths of a percent.
pub open spec fn share(units: int, total: int) -> int
    recommends
        total != 0,
{
    round_div(10000 * units, total)
}

/// Two dates of which neither is before the other are the same date.
proof fn lemma_latest_unique(entries: Seq<EntryView>, a: Date, b: Date)
    requires
        is_latest(entries, a),
        is_latest(entries, b),
    ensures
        a == b,
{
    let i = choose|i: int| 0 <= i < entries.len() && (#[trigger] entries[i]).date == a;
    let j = choose|j: int| 0 <= j < entries.len() && (#[trigger] entries[j]).date == b;
    assert(!b.before(entries[i].date));
    assert(!a.before(entries[j].date));
}

/// Finds the latest date among the entries.
fn latest_of(entries: &Vec<PortfolioEntry>) -> (r: Date)
    requires
        entries@.len() > 0,
    ensures
        is_latest(entries_view(entries@), r),
        r == latest_date(entries_view(entries@)),
{
    let ghost view = entries_view(entries@);
    let mut best: Date = entries[0].date;
    let mut i: usize = 1;
    assert(view[0].date == best);
    while i < entries.len()
        invariant
            1 <= i <= entries.len(),
            view == entries_view(entries@),
            exists|k: int| 0 <= k < i && (#[trigger] view[k]).date == best,
            forall|k: int| 0 <= k < i ==> !best.before((#[trigger] view[k]).date),
        decreases entries.len() - i,
    {
        let date: Date = entries[i].date;
        assert(view[i as int].date == date);
        if best.is_before(&date) {
            best = date;
        }
        i = i + 1;
    }
    proof {
        lemma_latest_unique(view, best, latest_date(view));
    }
    best
}

/// Copies the entries of `date`, in their order.
fn entries_on(entries: &Vec<PortfolioEntry>, date: &Date) -> (r: Vec<PortfolioEntry>)
    requires
        ids_ascending(entries_view(entries@)),
    ensures
        entries_view(r@) == entries_view(entries@).filter(on_date(*date)),
        ids_ascending(entries_view(r@)),
{
    let ghost view = entries_view(entries@);
    let mut picked: Vec<PortfolioEntry> = Vec::new();
    let mut i: usize = 0;
    proof {
        reveal(Seq::filter);
        assert(view.take(0).filter(on_date(*date)) =~= Seq::<EntryView>::empty());
        assert(entries_view(picked@) =~= Seq::<EntryView>::empty());
    }
    while i < entries.len()
        invariant
            i <= entries.len(),
            view == entries_view(entries@),
            entries_view(picked@) == view.take(i as int).filter(on_date(*date)),
            ids_ascending(view),
            ids_ascending(entries_view(picked@)),
            forall|j: int, k: int|
                0 <= j < picked@.len() && i <= k < view.len() ==> (#[trigger] entries_view(
                    picked@,
                )[j]).id < (#[trigger] view[k]).id,
        decreases entries.len() - i,
    {
        let entry = &entries[i];
        proof {
            assert(view.take(i + 1) =~= view.take(i as int).push(view[i as int]));
            view.take(i as int).lemma_filter_push(view[i as int], on_date(*date));
            assert(view[i as int] == entry@);
        }
        if entry.date == *date {
            let ghost before = entries_view(picked@);
            let copy = PortfolioEntry {
                id: entry.id,
                date: entry.date,
                item: entry.item.clone(),
                value: entry.value,
            };
            picked.push(copy);
            proof {
                let after = entries_view(picked@);
                assert(after =~= before.push(entry@));
                assert forall|a: int, b: int| 0 <= a < b < after.len() implies (#[trigger] after[a]).id
                    < (#[trigger] after[b]).id by {
                    if b < before.len() {
                        assert(before[a].id < before[b].id);
                    } else {
                        assert(before[a].id < view[i as int].id);
                    }
                }
                assert forall|a: int| 0 <= a < after.len() implies (#[trigger] after[a]).id >= 1 by {
                    if a < before.len() {
                        assert(before[a].id >= 1);
                    } else {
                        assert(view[i as int].id >= 1);
                    }
                }
                assert forall|j: int, k: int|
                    0 <= j < picked@.len() && i + 1 <= k < view.len() implies (#[trigger] after[j]).id
                    < (#[trigger] view[k]).id by {
                    if j < before.len() {
                        assert(before[j].id < view[k].id);
                    } else {
                        assert(view[i as int].id < view[k].id);
                    }
                }
            }
        }
        i = i + 1;
    }
    proof {
        assert(view.take(entries.len() as int) =~= view);
    }
    picked
}

/// Every value of `snap` has at most the common scale.
pub proof fn lemma_common_scale_bounds(snap: Seq<EntryView>, i: int)
    requires
        0 <= i < snap.len(),
    ensures
        snap[i].value.scale <= common_scale(snap),
    decreases snap.len(),
{
    if i < snap.len() - 1 {
        lemma_common_scale_bounds(snap.drop_last(), i);
    }
}

/// Finds the largest scale among the values of `snap`.
fn widest_scale(snap: &Vec<PortfolioEntry>) -> (r: u32)
    ensures
        r == common_scale(entries_view(snap@)),
{
    let ghost view = entries_view(snap@);
    let mut widest: u32 = 0;
    let mut i: usize = 0;
    while i < snap.len()
        invariant
            i <= snap.len(),
            view == entries_view(snap@),
            widest == common_scale(view.take(i as int)),
        decreases snap.len() - i,
    {
        proof {
            assert(view.take(i + 1).drop_last() =~= view.take(i as int));
            assert(view.take(i + 1).last() == snap@[i as int]@);
        }
        if snap[i].value.scale > widest {
            widest = snap[i].value.scale;
        }
        i = i + 1;
    }
    proof {
        assert(view.take(snap.len() as int) =~= view);
    }
    widest
}

/// The magnitude of a prefix of a snapshot is at most that of the snapshot.
proof fn lemma_magnitude_prefix(snap: Seq<EntryView>, scale: nat, k: int)
    requires
        0 <= k <= snap.len(),
    ensures
        0 <= magnitude(snap.take(k), scale) <= magnitude(snap, scale),
    decreases snap.len(),
{
    if k == snap.len() {
        assert(snap.take(k) =~= snap);
        lemma_magnitude_nonnegative(snap, scale);
    } else {
        assert(snap.drop_last().take(k) =~= snap.take(k));
        lemma_magnitude_prefix(snap.drop_last(), scale, k);
    }
}

proof fn lemma_magnitude_nonnegative(snap: Seq<EntryView>, scale: nat)
    ensures
        0 <= magnitude(snap, scale),
    decreases snap.len(),
{
    if snap.len() > 0 {
        lemma_magnitude_nonnegative(snap.drop_last(), scale);
    }
}

/// No value of a snapshot is larger in absolute value than the magnitude of
/// the snapshot, and neither is their sum.
pub proof fn lemma_magnitude_bounds(snap: Seq<EntryView>, scale: nat)
    ensures
        magnitude_of(total_units(snap, scale)) <= magnitude(snap, scale),
        forall|i: int|
            0 <= i < snap.len() ==> magnitude_of((#[trigger] snap[i]).value.mantissa_at(scale))
                <= magnitude(snap, scale),
    decreases snap.len(),
{
    if snap.len() > 0 {
        let shorter = snap.drop_last();
        lemma_magnitude_bounds(shorter, scale);
        lemma_magnitude_nonnegative(shorter, scale);
        assert forall|i: int| 0 <= i < snap.len() implies magnitude_of(
            (#[trigger] snap[i]).value.mantissa_at(scale),
        ) <= magnitude(snap, scale) by {
            if i < snap.len() - 1 {
                assert(shorter[i] == snap[i]);
            }
        }
    }
}

/// Brings every value of `snap` to the scale `scale` and adds them up.
/// Gives nothing where the values are too large to be valued.
fn scaled_units(snap: &Vec<PortfolioEntry>, scale: u32) -> (r: Option<(Vec<i128>, i128)>)
    requires
        forall|i: int| 0 <= i < snap@.len() ==> (#[trigger] snap@[i]).value.scale <= scale,
    ensures
        r is None <==> 10000 * magnitude(entries_view(snap@), scale as nat) > i128::MAX,
        r matches Some((units, total)) ==> {
            &&& units@.len() == snap@.len()
            &&& forall|i: int|
                0 <= i < snap@.len() ==> (#[trigger] units@[i]) == snap@[i].value.mantissa_at(
                    scale as nat,
                )
            &&& total == total_units(entries_view(snap@), scale as nat)
        },
{
    let ghost view = entries_view(snap@);
    let mut units: Vec<i128> = Vec::new();
    let mut total: i128 = 0;
    let mut sum: i128 = 0;
    let mut i: usize = 0;
    while i < snap.len()
        invariant
            i <= snap.len(),
            view == entries_view(snap@),
            forall|k: int| 0 <= k < snap@.len() ==> (#[trigger] snap@[k]).value.scale <= scale,
            units@.len() == i,
            forall|k: int|
                0 <= k < i ==> (#[trigger] units@[k]) == snap@[k].value.mantissa_at(scale as nat),
            total == total_units(view.take(i as int), scale as nat),
            sum == magnitude(view.take(i as int), scale as nat),
            -sum <= total <= sum,
        decreases snap.len() - i,
    {
        let value: Amount = snap[i].value;
        proof {
            assert(view.take(i + 1).drop_last() =~= view.take(i as int));
            assert(view.take(i + 1).last() == snap@[i as int]@);
            assert(snap@[i as int].value.scale <= scale);
            lemma_magnitude_prefix(view, scale as nat, i + 1);
        }
        let unit: i128 = match scale_up(value.mantissa, scale - value.scale) {
            Some(v) => v,
            None => {
                return None;
            },
        };
        if unit == i128::MIN {
            return None;
        }
        let size: i128 = if unit < 0 {
            -unit
        } else {
            unit
        };
        let larger: i128 = match sum.checked_add(size) {
            Some(v) => v,
            None => {
                return None;
            },
        };
        sum = larger;
        total = total + unit;
        units.push(unit);
        i = i + 1;
    }
    proof {
        assert(view.take(snap.len() as int) =~= view);
    }
    match sum.checked_mul(10000) {
        Some(_) => Some((units, total)),
        None => None,
    }
}

/// Divides `n` by `d` and rounds to the nearest integer, away from zero where
/// the quotient lies halfway between two.
fn rounded_quotient(n: i128, d: i128) -> (q: i128)
    requires
        d != 0,
        d > i128::MIN,
        n > i128::MIN,
    ensures
        q == round_div(n as int, d as int),
{
    let size: u128 = if n < 0 {
        (-n) as u128
    } else {
        n as u128
    };
    let by: u128 = if d < 0 {
        (-d) as u128
    } else {
        d as u128
    };
    let whole: u128 = size / by;
    let rest: u128 = size % by;
    proof {
        assert(whole * by <= size) by (nonlinear_arith)
            requires
                whole == size / by,
                by > 0,
        ;
        if rest >= by - rest {
            assert(by >= 2);
            assert(whole * 2 <= whole * by) by (nonlinear_arith)
                requires
                    by >= 2,
                    whole >= 0,
            ;
        }
    }
    let nearest: u128 = if rest >= by - rest {
        whole + 1
    } else {
        whole
    };
    if (n < 0) != (d < 0) {
        -(nearest as i128)
    } else {
        nearest as i128
    }
}

/// One item of the valued snapshot: the entry's identifier, name and value,
/// its share of the total in hundredths of a percent, and that share as it
/// is shown.
#[derive(Debug, PartialEq, Eq)]
pub struct SnapshotItem {
    pub id: i32,
    pub item: String,
    pub value: Amount,
    pub share: i128,
    pub proportion: String,
}

/// The mathematical content of a [`SnapshotItem`].
pub struct ItemView {
    pub id: int,
    pub item: Seq<char>,
    pub value: Amount,
    pub share: int,
    pub proportion: Seq<char>,
}

impl View for SnapshotItem {
    type V = ItemView;

    open spec fn view(&self) -> ItemView {
        ItemView {
            id: self.id as int,
            item: self.item@,
            value: self.value,
            share: self.share as int,
            proportion: self.proportion@,
        }
    }
}

/// The contents of a sequence of items, one by one.
pub open spec fn items_view(items: Seq<SnapshotItem>) -> Seq<ItemView> {
    items.map_values(|item: SnapshotItem| item@)
}

/// A share as it is shown: as a percentage with two digits after the decimal
/// point and a percent sign.
pub open spec fn proportion_text(share: int) -> Seq<char> {
    fixed_text(share, 2) + seq!['%']
}

/// The item that the valuation makes of an entry of the snapshot.
pub open spec fn item_of(entry: EntryView, scale: nat, total: int) -> ItemView {
    let part = share(entry.value.mantissa_at(scale), total);
    ItemView {
        id: entry.id,
        item: entry.item,
        value: entry.value,
        share: part,
        proportion: proportion_text(part),
    }
}

/// The items of a snapshot, in stored order.
pub open spec fn snapshot_items(snap: Seq<EntryView>, scale: nat, total: int) -> Seq<ItemView> {
    snap.map_values(|entry: EntryView| item_of(entry, scale, total))
}

/// Whether `a` stands before `b` in the ranking: the larger value first, and
/// of two equal values the one that was stored first.
pub open spec fn ranks_before(a: ItemView, b: ItemView, scale: nat) -> bool {
    ||| a.value.mantissa_at(scale) > b.value.mantissa_at(scale)
    ||| a.value.mantissa_at(scale) == b.value.mantissa_at(scale) && a.id < b.id
}

/// Whether the items stand in the order of the ranking.
pub open spec fn ranked(items: Seq<ItemView>, scale: nat) -> bool {
    forall|i: int, j: int|
        0 <= i < j < items.len() ==> ranks_before(#[trigger] items[i], #[trigger] items[j], scale)
}

/// Inserting an element into a sequence adds it to the elements the sequence
/// holds, wherever it is inserted.
proof fn lemma_insert_multiset<A>(s: Seq<A>, pos: int, x: A)
    requires
        0 <= pos <= s.len(),
    ensures
        s.insert(pos, x).to_multiset() =~= s.to_multiset().insert(x),
{
    let t = s.insert(pos, x);
    s.insert_ensures(pos, x);
    assert(t.remove(pos) =~= s);
    vstd::seq_lib::to_multiset_remove(t, pos);
    t.to_multiset_ensures();
    assert(t[pos] == x);
    assert(t.contains(x));
    assert(t.to_multiset() =~= s.to_multiset().insert(x));
}

/// Makes the item of one entry of the snapshot.
fn make_item(entry: &PortfolioEntry, unit: i128, total: i128, scale: u32) -> (r: SnapshotItem)
    requires
        unit == entry@.value.mantissa_at(scale as nat),
        total != 0,
        total > i128::MIN,
        i128::MIN < 10000 * unit <= i128::MAX,
    ensures
        r@ == item_of(entry@, scale as nat, total as int),
{
    let part: i128 = rounded_quotient(10000 * unit, total);
    let mut proportion: String = fixed_to_text(part, 2);
    proof {
        reveal_strlit("%");
        assert("%"@ =~= seq!['%']);
    }
    proportion.append("%");
    SnapshotItem {
        id: entry.id,
        item: entry.item.clone(),
        value: entry.value,
        share: part,
        proportion,
    }
}

/// Values the entries of a snapshot and ranks them.
fn ranked_items(snap: &Vec<PortfolioEntry>, units: &Vec<i128>, total: i128, scale: u32) -> (r: Vec<
    SnapshotItem,
>)
    requires
        ids_ascending(entries_view(snap@)),
        units@.len() == snap@.len(),
        forall|i: int|
            0 <= i < snap@.len() ==> (#[trigger] units@[i]) == snap@[i].value.mantissa_at(
                scale as nat,
            ),
        forall|i: int| 0 <= i < snap@.len() ==> i128::MIN < 10000 * (#[trigger] units@[i]) <= i128::MAX,
        total != 0,
        total > i128::MIN,
    ensures
        items_view(r@).to_multiset() == snapshot_items(
            entries_view(snap@),
            scale as nat,
            total as int,
        ).to_multiset(),
        ranked(items_view(r@), scale as nat),
{
    let ghost view = entries_view(snap@);
    let ghost expected = snapshot_items(view, scale as nat, total as int);
    let mut items: Vec<SnapshotItem> = Vec::new();
    let mut keys: Vec<i128> = Vec::new();
    let mut i: usize = 0;
    proof {
        assert(items_view(items@) =~= Seq::<ItemView>::empty());
        assert(expected.take(0) =~= Seq::<ItemView>::empty());
    }
    while i < snap.len()
        invariant
            i <= snap.len(),
            view == entries_view(snap@),
            expected == snapshot_items(view, scale as nat, total as int),
            ids_ascending(view),
            units@.len() == snap@.len(),
            forall|k: int|
                0 <= k < snap@.len() ==> (#[trigger] units@[k]) == snap@[k].value.mantissa_at(
                    scale as nat,
                ),
            forall|k: int|
                0 <= k < snap@.len() ==> i128::MIN < 10000 * (#[trigger] units@[k]) <= i128::MAX,
            total != 0,
            total > i128::MIN,
            keys@.len() == items@.len(),
            forall|j: int|
                0 <= j < items@.len() ==> (#[trigger] keys@[j]) == items@[j].value.mantissa_at(
                    scale as nat,
                ),
            ranked(items_view(items@), scale as nat),
            items_view(items@).to_multiset() == expected.take(i as int).to_multiset(),
            forall|j: int, k: int|
                0 <= j < items@.len() && i <= k < view.len() ==> (#[trigger] items_view(
                    items@,
                )[j]).id < (#[trigger] view[k]).id,
        decreases snap.len() - i,
    {
        let entry = &snap[i];
        let unit: i128 = units[i];
        let mut pos: usize = 0;
        while pos < keys.len() && keys[pos] >= unit
            invariant
                pos <= keys@.len(),
                forall|m: int| 0 <= m < pos ==> (#[trigger] keys@[m]) >= unit,
            decreases keys@.len() - pos,
        {
            pos = pos + 1;
        }
        let item = make_item(entry, unit, total, scale);
        let ghost before = items_view(items@);
        let ghost old_keys = keys@;
        let ghost fresh = item@;
        proof {
            assert(view[i as int] == entry@);
            assert(fresh == expected[i as int]);
            assert(fresh.value.mantissa_at(scale as nat) == unit);
            assert forall|j: int| 0 <= j < before.len() implies old_keys[j] == (
            #[trigger] before[j]).value.mantissa_at(scale as nat) by {
                assert(keys@[j] == items@[j].value.mantissa_at(scale as nat));
            }
        }
        items.insert(pos, item);
        keys.insert(pos, unit);
        proof {
            let after = items_view(items@);
            before.insert_ensures(pos as int, fresh);
            assert(after =~= before.insert(pos as int, fresh));
            lemma_insert_multiset(before, pos as int, fresh);
            assert(expected.take(i + 1) =~= expected.take(i as int).push(fresh));
            vstd::seq_lib::to_multiset_build(expected.take(i as int), fresh);
            assert forall|a: int, b: int| 0 <= a < b < after.len() implies ranks_before(
                #[trigger] after[a],
                #[trigger] after[b],
                scale as nat,
            ) by {
                if b < pos {
                    assert(ranks_before(before[a], before[b], scale as nat));
                } else if b == pos {
                    assert(after[b] == fresh);
                    assert(after[a] == before[a]);
                    assert(old_keys[a] >= unit);
                    assert(before[a].id < view[i as int].id);
                } else if a < pos {
                    assert(after[a] == before[a]);
                    assert(after[b] == before[b - 1]);
                    assert(ranks_before(before[a], before[b - 1], scale as nat));
                } else if a == pos {
                    assert(after[a] == fresh);
                    assert(after[b] == before[b - 1]);
                    assert(old_keys[pos as int] < unit);
                    assert(old_keys[pos as int] == before[pos as int].value.mantissa_at(
                        scale as nat,
                    ));
                    if pos < b - 1 {
                        assert(ranks_before(before[pos as int], before[b - 1], scale as nat));
                    }
                } else {
                    assert(after[a] == before[a - 1]);
                    assert(after[b] == before[b - 1]);
                    assert(ranks_before(before[a - 1], before[b - 1], scale as nat));
                }
            }
            assert forall|j: int, k: int|
                0 <= j < items@.len() && i + 1 <= k < view.len() implies (#[trigger] after[j]).id < (
            #[trigger] view[k]).id by {
                if j < pos {
                    assert(before[j].id < view[k].id);
                } else if j == pos {
                    assert(view[i as int].id < view[k].id);
                } else {
                    assert(before[j - 1].id < view[k].id);
                }
            }
            assert forall|j: int| 0 <= j < items@.len() implies (#[trigger] keys@[j])
                == items@[j].value.mantissa_at(scale as nat) by {
                if j < pos {
                    assert(after[j] == before[j]);
                } else if j > pos {
                    assert(after[j] == before[j - 1]);
                }
            }
        }
        i = i + 1;
    }
    proof {
        assert(expected.take(snap.len() as int) =~= expected);
    }
    items
}

/// The latest snapshot, valued: its date, its items in the order of the
/// ranking, and the total of their values.
#[derive(Debug, PartialEq, Eq)]
pub struct SnapshotView {
    pub date: Date,
    pub items: Vec<SnapshotItem>,
    pub total: Amount,
}

/// The mathematical content of a [`SnapshotView`].
pub struct SnapshotModel {
    pub date: Date,
    pub items: Seq<ItemView>,
    pub total: Amount,
}

impl View for SnapshotView {
    type V = SnapshotModel;

    open spec fn view(&self) -> SnapshotModel {
        SnapshotModel { date: self.date, items: items_view(self.items@), total: self.total }
    }
}

/// One row of the portfolio table.
#[derive(Debug, PartialEq, Eq)]
pub struct PortfolioRow {
    pub id: i32,
    pub item: String,
    pub value: Amount,
    pub proportion: String,
}

/// The mathematical content of a [`PortfolioRow`].
pub struct RowView {
    pub id: int,
    pub item: Seq<char>,
    pub value: Amount,
    pub proportion: Seq<char>,
}

impl View for PortfolioRow {
    type V = RowView;

    open spec fn view(&self) -> RowView {
        RowView {
            id: self.id as int,
            item: self.item@,
            value: self.value,
            proportion: self.proportion@,
        }
    }
}

/// The contents of a sequence of rows, one by one.
pub open spec fn rows_view(rows: Seq<PortfolioRow>) -> Seq<RowView> {
    rows.map_values(|row: PortfolioRow| row@)
}

/// The row that shows an item.
pub open spec fn row_of(item: ItemView) -> RowView {
    RowView { id: item.id, item: item.item, value: item.value, proportion: item.proportion }
}

/// The row that shows the total: identifier 0, the label `Total`, and no
/// proportion.
pub open spec fn total_row(total: Amount) -> RowView {
    RowView { id: 0, item: "Total"@, value: total, proportion: Seq::empty() }
}

/// The rows of the items, in their order.
pub open spec fn item_rows(items: Seq<ItemView>) -> Seq<RowView> {
    items.map_values(|item: ItemView| row_of(item))
}

/// The total of the latest snapshot as an amount at the common scale.
pub open spec fn snapshot_total(entries: Seq<EntryView>) -> Amount {
    let snap = snapshot(entries);
    let scale = common_scale(snap);
    Amount { mantissa: total_units(snap, scale) as i128, scale: scale as u32 }
}

/// Whether the values of the latest snapshot are too large to be valued:
/// brought to their common scale, their absolute values must add up to at
/// most a ten-thousandth of the largest 128-bit integer.
pub open spec fn exceeds_range(entries: Seq<EntryView>) -> bool {
    let snap = snapshot(entries);
    10000 * magnitude(snap, common_scale(snap)) > i128::MAX
}

/// Why the total of the latest snapshot cannot be given, if it cannot.
pub open spec fn total_failure(entries: Seq<EntryView>) -> Option<ValuationError> {
    if entries.len() == 0 {
        Some(ValuationError::EmptySnapshot)
    } else if exceeds_range(entries) {
        Some(ValuationError::Overflow)
    } else {
        None
    }
}

/// Why the latest snapshot cannot be valued, if it cannot.
pub open spec fn valuation_failure(entries: Seq<EntryView>) -> Option<ValuationError> {
    if total_failure(entries) is Some {
        total_failure(entries)
    } else if snapshot_total(entries).mantissa == 0 {
        Some(ValuationError::ZeroTotal)
    } else {
        None
    }
}

/// Whether `valued` is the valuation of the latest snapshot of `entries`: it
/// bears the latest date, holds exactly the items of the snapshot, each with
/// its share of the total, in the order of the ranking, and its total is the
/// sum of their values.
pub open spec fn is_valuation(entries: Seq<EntryView>, valued: SnapshotModel) -> bool {
    let snap = snapshot(entries);
    let scale = common_scale(snap);
    &&& valued.date == latest_date(entries)
    &&& valued.total == snapshot_total(entries)
    &&& valued.items.to_multiset() == snapshot_items(
        snap,
        scale,
        total_units(snap, scale),
    ).to_multiset()
    &&& ranked(valued.items, scale)
}

/// What the valuation works on: the snapshot, its date, its common scale,
/// its values at that scale, and their sum.
struct Parts {
    date: Date,
    snap: Vec<PortfolioEntry>,
    scale: u32,
    units: Vec<i128>,
    total: i128,
}

/// Picks the latest snapshot and adds up its values.
fn snapshot_parts(store: &Portfolio) -> (r: Result<Parts, ValuationError>)
    ensures
        match total_failure(store@) {
            Some(e) => r matches Err(f) && f == e,
            None => r matches Ok(parts) && {
                &&& parts.date == latest_date(store@)
                &&& entries_view(parts.snap@) == snapshot(store@)
                &&& ids_ascending(entries_view(parts.snap@))
                &&& parts.scale == common_scale(snapshot(store@))
                &&& parts.units@.len() == parts.snap@.len()
                &&& forall|i: int|
                    0 <= i < parts.snap@.len() ==> (#[trigger] parts.units@[i])
                        == parts.snap@[i].value.mantissa_at(parts.scale as nat)
                &&& forall|i: int|
                    0 <= i < parts.snap@.len() ==> i128::MIN < 10000 * (#[trigger] parts.units@[i])
                        <= i128::MAX
                &&& parts.total == total_units(snapshot(store@), parts.scale as nat)
                &&& i128::MIN < parts.total
            },
        },
{
    let entries = store.entries();
    if entries.len() == 0 {
        return Err(ValuationError::EmptySnapshot);
    }
    let date: Date = latest_of(entries);
    let snap: Vec<PortfolioEntry> = entries_on(entries, &date);
    let scale: u32 = widest_scale(&snap);
    let ghost view = entries_view(snap@);
    proof {
        assert forall|i: int| 0 <= i < snap@.len() implies (#[trigger] snap@[i]).value.scale
            <= scale by {
            lemma_common_scale_bounds(view, i);
            assert(view[i] == snap@[i]@);
        }
    }
    match scaled_units(&snap, scale) {
        None => Err(ValuationError::Overflow),
        Some((units, total)) => {
            proof {
                lemma_magnitude_bounds(view, scale as nat);
                assert forall|i: int| 0 <= i < snap@.len() implies i128::MIN < 10000 * (
                #[trigger] units@[i]) <= i128::MAX by {
                    assert(view[i] == snap@[i]@);
                    assert(magnitude_of(view[i].value.mantissa_at(scale as nat)) <= magnitude(
                        view,
                        scale as nat,
                    ));
                }
            }
            Ok(Parts { date, snap, scale, units, total })
        },
    }
}

/// Values the latest snapshot of the store: the entries of the greatest
/// stored date, each with its share of their total, ranked by value, and the
/// total. Fails with `EmptySnapshot` where nothing is stored.
pub fn latest_snapshot(store: &Portfolio) -> (r: Result<SnapshotView, ValuationError>)
    ensures
        match valuation_failure(store@) {
            Some(e) => r matches Err(f) && f == e,
            None => r matches Ok(valued) && is_valuation(store@, valued@),
        },
{
    let parts = match snapshot_parts(store) {
        Ok(parts) => parts,
        Err(e) => {
            return Err(e);
        },
    };
    if parts.total == 0 {
        return Err(ValuationError::ZeroTotal);
    }
    let items = ranked_items(&parts.snap, &parts.units, parts.total, parts.scale);
    Ok(SnapshotView {
        date: parts.date,
        items,
        total: Amount { mantissa: parts.total, scale: parts.scale },
    })
}

impl SnapshotView {
    /// The rows of the ranked items.
    pub fn item_rows(&self) -> (r: Vec<PortfolioRow>)
        ensures
            rows_view(r@) == item_rows(self@.items),
    {
        let mut rows: Vec<PortfolioRow> = Vec::new();
        let mut i: usize = 0;
        proof {
            assert(rows_view(rows@) =~= item_rows(self@.items).take(0));
        }
        while i < self.items.len()
            invariant
                i <= self.items.len(),
                rows_view(rows@) == item_rows(self@.items).take(i as int),
            decreases self.items.len() - i,
        {
            let item = &self.items[i];
            let ghost before = rows_view(rows@);
            let row = PortfolioRow {
                id: item.id,
                item: item.item.clone(),
                value: item.value,
                proportion: item.proportion.clone(),
            };
            proof {
                assert(row@ == item_rows(self@.items)[i as int]);
            }
            rows.push(row);
            proof {
                assert(rows_view(rows@) =~= before.push(item_rows(self@.items)[i as int]));
                assert(item_rows(self@.items).take(i + 1) =~= item_rows(self@.items).take(
                    i as int,
                ).push(item_rows(self@.items)[i as int]));
            }
            i = i + 1;
        }
        proof {
            assert(item_rows(self@.items).take(self.items.len() as int) =~= item_rows(
                self@.items,
            ));
        }
        rows
    }

    /// The row of the total.
    pub fn total_row(&self) -> (r: PortfolioRow)
        ensures
            r@ == total_row(self@.total),
    {
        PortfolioRow {
            id: 0,
            item: String::from_str("Total"),
            value: self.total,
            proportion: String::new(),
        }
    }

    /// The rows of the table: the ranked items, and after them the total.
    pub fn rows(&self) -> (r: Vec<PortfolioRow>)
        ensures
            rows_view(r@) == item_rows(self@.items).push(total_row(self@.total)),
    {
        let mut rows = self.item_rows();
        let ghost before = rows_view(rows@);
        let last = self.total_row();
        rows.push(last);
        proof {
            assert(rows_view(rows@) =~= before.push(total_row(self@.total)));
        }
        rows
    }
}

/// The rows of the latest snapshot: its items with their shares, ranked by
/// value.
pub fn get_portfolio(store: &Portfolio) -> (r: Result<Vec<PortfolioRow>, ValuationError>)
    ensures
        match valuation_failure(store@) {
            Some(e) => r matches Err(f) && f == e,
            None => r matches Ok(rows) && exists|valued: SnapshotModel|
                #[trigger] is_valuation(store@, valued) && rows_view(rows@) == item_rows(
                    valued.items,
                ),
        },
{
    match latest_snapshot(store) {
        Ok(valued) => {
            let rows = valued.item_rows();
            proof {
                assert(is_valuation(store@, valued@));
            }
            Ok(rows)
        },
        Err(e) => Err(e),
    }
}

/// The row of the total of the latest snapshot. A total of zero is given as
/// any other.
pub fn get_portfolio_sum(store: &Portfolio) -> (r: Result<PortfolioRow, ValuationError>)
    ensures
        match total_failure(store@) {
            Some(e) => r matches Err(f) && f == e,
            None => r matches Ok(row) && row@ == total_row(snapshot_total(store@)),
        },
{
    match snapshot_parts(store) {
        Ok(parts) => Ok(
            PortfolioRow {
                id: 0,
                item: String::from_str("Total"),
                value: Amount { mantissa: parts.total, scale: parts.scale },
                proportion: String::new(),
            },
        ),
        Err(e) => Err(e),
    }
}

/// The number of entries in the latest snapshot, as the line `Count: N`.
pub fn portfolio_count(store: &Portfolio) -> (r: String)
    ensures
        r@ == "Count: "@ + digits(snapshot(store@).len()),
{
    let entries = store.entries();
    let mut out: String = String::from_str("Count: ");
    if entries.len() == 0 {
        proof {
            reveal(Seq::filter);
            assert(snapshot(store@).len() == 0);
        }
        push_digits(&mut out, 0);
    } else {
        let date = latest_of(entries);
        let snap = entries_on(entries, &date);
        assert(entries_view(snap@).len() == snap@.len());
        push_digits(&mut out, snap.len() as u128);
    }
    out
}

/// The sum of the shares of `items`, in hundredths of a percent.
pub open spec fn share_total(items: Seq<ItemView>) -> int
    decreases items.len(),
{
    if items.len() == 0 {
        0
    } else {
        share_total(items.drop_last()) + items.last().share
    }
}

/// A rounded quotient, multiplied back, misses the dividend by at most half
/// the divisor.
pub proof fn lemma_round_div_error(n: int, d: int)
    requires
        d != 0,
    ensures
        -magnitude_of(d) <= 2 * (round_div(n, d) * d - n) <= magnitude_of(d),
{
    let size = magnitude_of(n);
    let by = magnitude_of(d);
    let whole = size / by;
    let rest = size % by;
    let nearest = if 2 * rest >= by {
        whole + 1
    } else {
        whole
    };
    assert(size == whole * by + rest && 0 <= rest < by) by (nonlinear_arith)
        requires
            whole == size / by,
            rest == size % by,
            by > 0,
    ;
    assert(nearest * by == whole * by + (nearest - whole) * by) by (nonlinear_arith);
    assert((nearest - whole) * by == if 2 * rest >= by {
        by
    } else {
        0
    }) by (nonlinear_arith)
        requires
            nearest - whole == (if 2 * rest >= by {
                1int
            } else {
                0int
            }),
    ;
    let gap = nearest * by - size;
    assert(-by <= 2 * gap <= by);
    let q = round_div(n, d);
    if (n < 0) != (d < 0) {
        assert(q == -nearest);
        if d < 0 {
            assert(q * d == nearest * by) by (nonlinear_arith)
                requires
                    q == -nearest,
                    d == -by,
            ;
        } else {
            assert(q * d == -(nearest * by)) by (nonlinear_arith)
                requires
                    q == -nearest,
                    d == by,
            ;
        }
    } else {
        assert(q == nearest);
        if d < 0 {
            assert(q * d == -(nearest * by)) by (nonlinear_arith)
                requires
                    q == nearest,
                    d == -by,
            ;
        } else {
            assert(q * d == nearest * by) by (nonlinear_arith)
                requires
                    q == nearest,
                    d == by,
            ;
        }
    }
}

/// The shares of a snapshot in any nonzero `total`, multiplied back, miss ten
/// thousand times the sum of the values by at most half of `total` for each
/// item.
proof fn lemma_share_errors(snap: Seq<EntryView>, scale: nat, total: int)
    requires
        total != 0,
    ensures
        -snap.len() * magnitude_of(total) <= 2 * (share_total(snapshot_items(snap, scale, total))
            * total - 10000 * total_units(snap, scale)) <= snap.len() * magnitude_of(total),
    decreases snap.len(),
{
    let items = snapshot_items(snap, scale, total);
    if snap.len() > 0 {
        let shorter = snap.drop_last();
        lemma_share_errors(shorter, scale, total);
        assert(items.drop_last() =~= snapshot_items(shorter, scale, total));
        let unit = snap.last().value.mantissa_at(scale);
        let part = share(unit, total);
        assert(items.last().share == part);
        lemma_round_div_error(10000 * unit, total);
        let before = share_total(items.drop_last());
        let sum_before = total_units(shorter, scale);
        let size = magnitude_of(total);
        let n = snap.len() as int;
        assert(shorter.len() == n - 1);
        assert(share_total(items) == before + part);
        assert(total_units(snap, scale) == sum_before + unit);
        assert((before + part) * total == before * total + part * total) by (nonlinear_arith);
        assert(shorter.len() * size + size == snap.len() * size) by (nonlinear_arith)
            requires
                shorter.len() == snap.len() - 1,
        ;
        assert(-shorter.len() * size == -(shorter.len() * size)) by (nonlinear_arith);
        assert(-snap.len() * size == -(snap.len() * size)) by (nonlinear_arith);
    } else {
        assert(0 * total == 0);
        assert(0 * magnitude_of(total) == 0);
    }
}

/// Proportion sum: the shares of the items of a snapshot whose total is not
/// zero add up to 100 percent, give or take half a hundredth of a percent for
/// each item, which is what rounding each share to two decimal places can
/// cost.
pub proof fn lemma_shares_add_up(snap: Seq<EntryView>, scale: nat)
    requires
        total_units(snap, scale) != 0,
    ensures
        magnitude_of(
            2 * (share_total(snapshot_items(snap, scale, total_units(snap, scale))) - 10000),
        ) <= snap.len(),
{
    let total = total_units(snap, scale);
    let sum = share_total(snapshot_items(snap, scale, total));
    lemma_share_errors(snap, scale, total);
    let size = magnitude_of(total);
    let off = 2 * (sum - 10000);
    assert(2 * (sum * total - 10000 * total) == off * total) by (nonlinear_arith)
        requires
            off == 2 * (sum - 10000),
    ;
    let n = snap.len() as int;
    assert(magnitude_of(off) <= n) by (nonlinear_arith)
        requires
            -n * size <= off * total <= n * size,
            size == magnitude_of(total),
            total != 0,
            n >= 0,
    ;
}

/// Taking one item out lowers the sum of the shares by that item's share.
proof fn lemma_share_total_remove(items: Seq<ItemView>, j: int)
    requires
        0 <= j < items.len(),
    ensures
        share_total(items) == share_total(items.remove(j)) + items[j].share,
    decreases items.len(),
{
    let last = items.len() - 1;
    if j == last {
        assert(items.remove(j) =~= items.drop_last());
    } else {
        assert(items.remove(j).drop_last() =~= items.drop_last().remove(j));
        assert(items.remove(j).last() == items.last());
        lemma_share_total_remove(items.drop_last(), j);
    }
}

/// The sum of the shares does not depend on the order of the items.
proof fn lemma_share_total_any_order(a: Seq<ItemView>, b: Seq<ItemView>)
    requires
        a.to_multiset() == b.to_multiset(),
    ensures
        share_total(a) == share_total(b),
        a.len() == b.len(),
    decreases a.len(),
{
    a.to_multiset_ensures();
    b.to_multiset_ensures();
    if a.len() > 0 {
        let x = a.last();
        assert(a[a.len() - 1] == x);
        assert(a.contains(x));
        assert(a.to_multiset().count(x) > 0);
        assert(b.to_multiset().count(x) > 0);
        assert(b.contains(x));
        let j = choose|j: int| 0 <= j < b.len() && b[j] == x;
        assert(a.remove(a.len() - 1) =~= a.drop_last());
        vstd::seq_lib::to_multiset_remove(a, a.len() - 1);
        vstd::seq_lib::to_multiset_remove(b, j);
        lemma_share_total_any_order(a.drop_last(), b.remove(j));
        lemma_share_total_remove(b, j);
        b.remove_ensures(j);
    }
}

/// Proportion sum, of a valuation: the shares that a valuation of the latest
/// snapshot reports add up to 100 percent, give or take half a hundredth of
/// a percent for each item.
pub proof fn lemma_valuation_shares_add_up(entries: Seq<EntryView>, valued: SnapshotModel)
    requires
        is_valuation(entries, valued),
        total_units(snapshot(entries), common_scale(snapshot(entries))) != 0,
    ensures
        magnitude_of(2 * (share_total(valued.items) - 10000)) <= valued.items.len(),
{
    let snap = snapshot(entries);
    let scale = common_scale(snap);
    let total = total_units(snap, scale);
    lemma_share_total_any_order(valued.items, snapshot_items(snap, scale, total));
    lemma_shares_add_up(snap, scale);
}

} // verus!
