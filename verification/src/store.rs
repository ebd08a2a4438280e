//! The portfolio store: an append-only sequence of dated entries, the lookup
//! that tells whether an observation is already stored, and the append.

use crate::amount::Amount;
use crate::date::Date;
use crate::error::IngestError;
use vstd::prelude::*;

verus! {

/// One stored observation: an item and its value on a date, under the
/// identifier that the store gave it.
#[derive(Clone, Debug, PartialEq, Eq)]
pub struct PortfolioEntry {
    pub id: i32,
    pub date: Date,
    pub item: String,
    pub value: Amount,
}

/// The mathematical content of a [`PortfolioEntry`].
pub struct EntryView {
    pub id: int,
    pub date: Date,
    pub item: Seq<char>,
    pub value: Amount,
}

impl View for PortfolioEntry {
    type V = EntryView;

    open spec fn view(&self) -> EntryView {
        EntryView { id: self.id as int, date: self.date, item: self.item@, value: self.value }
    }
}

/// The contents of a sequence of entries, one by one.
pub open spec fn entries_view(entries: Seq<PortfolioEntry>) -> Seq<EntryView> {
    entries.map_values(|e: PortfolioEntry| e@)
}

/// Whether the identifiers are positive and grow strictly along the sequence,
/// so that none occurs twice.
pub open spec fn ids_ascending(entries: Seq<EntryView>) -> bool {
    &&& forall|i: int| 0 <= i < entries.len() ==> (#[trigger] entries[i]).id >= 1
    &&& forall|i: int, j: int|
        0 <= i < j < entries.len() ==> (#[trigger] entries[i]).id < (#[trigger] entries[j]).id
}

/// The identifier that the next entry gets.
pub open spec fn next_id(entries: Seq<EntryView>) -> int {
    if entries.len() == 0 {
        1
    } else {
        entries.last().id + 1
    }
}

/// Whether `entry` is the observation of `item` at `value` on `date`: the
/// same date, the same name and the same number.
pub open spec fn same_observation(entry: EntryView, date: Date, item: Seq<char>, value: Amount) -> bool {
    &&& entry.date == date
    &&& entry.item == item
    &&& entry.value.same_value(value)
}

/// Whether some entry is the observation of `item` at `value` on `date`.
pub open spec fn holds(entries: Seq<EntryView>, date: Date, item: Seq<char>, value: Amount) -> bool {
    exists|i: int| 0 <= i < entries.len() && same_observation(#[trigger] entries[i], date, item, value)
}

/// The entry that an append makes of an observation.
pub open spec fn new_entry(entries: Seq<EntryView>, date: Date, item: Seq<char>, value: Amount) -> EntryView {
    EntryView { id: next_id(entries), date, item, value }
}

/// The stored entries in the order in which they were appended. Entries are
/// never changed or removed.
pub struct Portfolio {
    entries: Vec<PortfolioEntry>,
}

impl View for Portfolio {
    type V = Seq<EntryView>;

    closed spec fn view(&self) -> Seq<EntryView> {
        entries_view(self.entries@)
    }
}

impl Portfolio {
    #[verifier::type_invariant]
    spec fn inv(&self) -> bool {
        ids_ascending(entries_view(self.entries@))
    }

    /// An empty store.
    pub fn new() -> (r: Portfolio)
        ensures
            r@ == Seq::<EntryView>::empty(),
    {
        let r = Portfolio { entries: Vec::new() };
        assert(r@ =~= Seq::<EntryView>::empty());
        r
    }

    /// A store of the given entries, where their identifiers are positive and
    /// strictly ascending.
    pub fn from_entries(entries: Vec<PortfolioEntry>) -> (r: Option<Portfolio>)
        ensures
            r is Some == ids_ascending(entries_view(entries@)),
            r matches Some(store) ==> store@ == entries_view(entries@),
    {
        let ghost view = entries_view(entries@);
        let mut i: usize = 0;
        let mut last: i32 = 0;
        while i < entries.len()
            invariant
                i <= entries.len(),
                view == entries_view(entries@),
                i == 0 ==> last == 0,
                i > 0 ==> last == view[i - 1].id,
                ids_ascending(view.take(i as int)),
            decreases entries.len() - i,
        {
            let id: i32 = entries[i].id;
            if id <= last {
                proof {
                    assert(view[i as int].id == id);
                    if i > 0 {
                        assert(!(view[i - 1].id < view[i as int].id));
                    } else {
                        assert(!(view[0].id >= 1));
                    }
                    assert(!ids_ascending(view));
                }
                return None;
            }
            proof {
                let before = view.take(i as int);
                let after = view.take(i + 1);
                assert(after[i as int].id == id);
                assert forall|a: int, b: int| 0 <= a < b < after.len() implies (#[trigger] after[a]).id
                    < (#[trigger] after[b]).id by {
                    if b < i {
                        assert(before[a].id < before[b].id);
                    } else if a < i {
                        assert(i > 0);
                        if a < i - 1 {
                            assert(before[a].id < before[i - 1].id);
                        }
                    }
                }
                assert forall|a: int| 0 <= a < after.len() implies (#[trigger] after[a]).id >= 1 by {
                    if a < i {
                        assert(before[a].id >= 1);
                    }
                }
            }
            last = id;
            i = i + 1;
        }
        proof {
            assert(view.take(entries.len() as int) =~= view);
        }
        Some(Portfolio { entries })
    }

    /// The stored entries, oldest first.
    pub fn entries(&self) -> (r: &Vec<PortfolioEntry>)
        ensures
            entries_view(r@) == self@,
            ids_ascending(self@),
    {
        proof {
            use_type_invariant(self);
        }
        &self.entries
    }

    /// The number of stored entries.
    pub fn len(&self) -> (r: usize)
        ensures
            r == self@.len(),
    {
        self.entries.len()
    }
}

/// The dedup filter: tells whether the store holds the observation of `item`
/// at `value` on `date`. All three must match; amounts match as numbers.
pub fn check_portfolio(store: &Portfolio, date: &Date, item: &str, value: &Amount) -> (r: bool)
    ensures
        r == holds(store@, *date, item@, *value),
        ids_ascending(store@),
{
    proof {
        use_type_invariant(store);
    }
    let wanted: String = String::from_str(item);
    let ghost view = store@;
    let mut i: usize = 0;
    while i < store.entries.len()
        invariant
            i <= store.entries.len(),
            view == entries_view(store.entries@),
            view == store@,
            ids_ascending(view),
            wanted@ == item@,
            forall|k: int| 0 <= k < i ==> !same_observation(#[trigger] view[k], *date, item@, *value),
        decreases store.entries.len() - i,
    {
        let entry = &store.entries[i];
        assert(view[i as int] == entry@);
        if entry.date == *date && entry.item == wanted && entry.value.eq_value(value) {
            return true;
        }
        i = i + 1;
    }
    false
}

/// Appends the observation of `item` at `value` on `date` under the next
/// identifier. Fails, and stores nothing, only where the identifiers are used
/// up.
pub fn insert_portfolio(store: &mut Portfolio, date: &Date, item: &str, value: &Amount) -> (r: Result<
    (),
    IngestError,
>)
    ensures
        ids_ascending(final(store)@),
        next_id(old(store)@) <= i32::MAX ==> r is Ok && final(store)@ == old(store)@.push(
            new_entry(old(store)@, *date, item@, *value),
        ),
        next_id(old(store)@) > i32::MAX ==> r == Err::<(), IngestError>(IngestError::StoreFailure)
            && final(store)@ == old(store)@,
{
    proof {
        use_type_invariant(&*store);
    }
    let n: usize = store.entries.len();
    let ghost before = store@;
    let id: i32 = if n == 0 {
        1
    } else {
        let last: i32 = store.entries[n - 1].id;
        assert(before.last().id == last);
        if last == i32::MAX {
            return Err(IngestError::StoreFailure);
        }
        last + 1
    };
    let entry = PortfolioEntry { id, date: *date, item: String::from_str(item), value: *value };
    assert(entry@ == new_entry(before, *date, item@, *value));
    let mut entries: Vec<PortfolioEntry> = Vec::new();
    assert(entries_view(entries@) =~= Seq::<EntryView>::empty());
    core::mem::swap(&mut store.entries, &mut entries);
    entries.push(entry);
    proof {
        let after = entries_view(entries@);
        assert(after =~= before.push(new_entry(before, *date, item@, *value)));
        assert forall|a: int, b: int| 0 <= a < b < after.len() implies (#[trigger] after[a]).id < (
        #[trigger] after[b]).id by {
            if b < n {
                assert(before[a].id < before[b].id);
            } else if a < n - 1 {
                assert(before[a].id < before[n - 1].id);
            }
        }
        assert forall|a: int| 0 <= a < after.len() implies (#[trigger] after[a]).id >= 1 by {
            if a < n {
                assert(before[a].id >= 1);
            }
        }
    }
    store.entries = entries;
    Ok(())
}

} // verus!
