//! A table of amounts of hours, each held for one project under one date,
//! with at most one amount for a project and a date.

use crate::calendar::CalendarDate;
use vstd::prelude::*;

verus! {

/// An amount of hours held for a project under a date.
#[derive(Clone, Copy, Debug, PartialEq, Eq, Structural)]
pub struct Amount {
    pub project_id: i64,
    pub date: CalendarDate,
    pub amount: i64,
}

/// What a table holds: for a project and a date, the amount.
pub type Amounts = Map<(i64, CalendarDate), i64>;

/// The amounts without those of one project.
pub open spec fn without_project(amounts: Amounts, project_id: i64) -> Amounts {
    Map::new(
        |key: (i64, CalendarDate)| amounts.contains_key(key) && key.0 != project_id,
        |key: (i64, CalendarDate)| amounts[key],
    )
}

/// The amount held for a project under a date, and 0 where none is held.
pub open spec fn amount_or_zero(amounts: Amounts, project_id: i64, date: CalendarDate) -> int {
    if amounts.contains_key((project_id, date)) {
        amounts[(project_id, date)] as int
    } else {
        0
    }
}

/// The rows are what is held for the project, the latest date first.
pub open spec fn is_listing(rows: Seq<Amount>, amounts: Amounts, project_id: i64) -> bool {
    &&& forall|i: int|
        0 <= i < rows.len() ==> {
            &&& (#[trigger] rows[i]).project_id == project_id
            &&& amounts.contains_key(key_of(rows[i]))
            &&& amounts[key_of(rows[i])] == rows[i].amount
        }
    &&& forall|i: int, j: int|
        0 <= i < j < rows.len() ==> (#[trigger] rows[j]).date.precedes((#[trigger] rows[i]).date)
    &&& forall|date: CalendarDate| #[trigger]
        amounts.contains_key((project_id, date)) ==> exists|i: int|
            0 <= i < rows.len() && (#[trigger] rows[i]).date == date
}

/// The project and date a row is held under.
pub open spec fn key_of(row: Amount) -> (i64, CalendarDate) {
    (row.project_id, row.date)
}

/// No two rows are held under the same project and date.
pub open spec fn keys_distinct(rows: Seq<Amount>) -> bool {
    forall|i: int, j: int| 0 <= i < j < rows.len() ==> key_of(rows[i]) != key_of(rows[j])
}

/// Some row is held under the key.
pub open spec fn holds_key(rows: Seq<Amount>, key: (i64, CalendarDate)) -> bool {
    exists|i: int| 0 <= i < rows.len() && key_of(#[trigger] rows[i]) == key
}

/// The place of a row held under the key.
pub open spec fn place_of(rows: Seq<Amount>, key: (i64, CalendarDate)) -> int {
    choose|i: int| 0 <= i < rows.len() && key_of(#[trigger] rows[i]) == key
}

/// The amounts that a sequence of rows holds.
pub open spec fn amounts_of(rows: Seq<Amount>) -> Amounts {
    Map::new(
        |key: (i64, CalendarDate)| holds_key(rows, key),
        |key: (i64, CalendarDate)| rows[place_of(rows, key)].amount,
    )
}

/// With distinct keys, each row's amount is the one held under its key.
pub proof fn lemma_amounts_of_row(rows: Seq<Amount>, i: int)
    requires
        keys_distinct(rows),
        0 <= i < rows.len(),
    ensures
        amounts_of(rows).contains_key(key_of(rows[i])),
        amounts_of(rows)[key_of(rows[i])] == rows[i].amount,
{
    let key = key_of(rows[i]);
    assert(holds_key(rows, key));
    let j = place_of(rows, key);
    assert(i == j);
}

/// A table of amounts.
pub struct AmountTable {
    rows: Vec<Amount>,
}

impl View for AmountTable {
    type V = Amounts;

    closed spec fn view(&self) -> Amounts {
        amounts_of(self.rows@)
    }
}

impl AmountTable {
    /// The table holds no two amounts for the same project and date.
    pub closed spec fn wf(&self) -> bool {
        keys_distinct(self.rows@)
    }

    /// An empty table.
    pub fn new() -> (r: AmountTable)
        ensures
            r.wf(),
            r@ == Amounts::empty(),
    {
        let r = AmountTable { rows: Vec::new() };
        assert(r@ =~= Amounts::empty());
        r
    }

    /// The amount held for the project under the date, if there is one.
    pub fn get(&self, project_id: i64, date: CalendarDate) -> (r: Option<i64>)
        requires
            self.wf(),
        ensures
            r == (if self@.contains_key((project_id, date)) {
                Some(self@[(project_id, date)])
            } else {
                None
            }),
    {
        let mut i: usize = 0;
        while i < self.rows.len()
            invariant
                self.wf(),
                i <= self.rows.len(),
                forall|k: int| 0 <= k < i ==> key_of(#[trigger] self.rows@[k]) != (project_id, date),
            decreases self.rows.len() - i,
        {
            let row = self.rows[i];
            if row.project_id == project_id && row.date == date {
                proof {
                    lemma_amounts_of_row(self.rows@, i as int);
                }
                return Some(row.amount);
            }
            i += 1;
        }
        None
    }

    /// Holds `amount` for the project under the date, in place of the
    /// amount held there before, if there was one.
    pub fn set(&mut self, project_id: i64, date: CalendarDate, amount: i64)
        requires
            old(self).wf(),
        ensures
            final(self).wf(),
            final(self)@ == old(self)@.insert((project_id, date), amount),
    {
        let row = Amount { project_id, date, amount };
        let ghost before = self.rows@;
        let mut i: usize = 0;
        while i < self.rows.len()
            invariant
                self.rows@ == before,
                before == old(self).rows@,
                keys_distinct(before),
                key_of(row) == (project_id, date),
                row.amount == amount,
                i <= self.rows.len(),
                forall|k: int| 0 <= k < i ==> key_of(#[trigger] before[k]) != (project_id, date),
            decreases self.rows.len() - i,
        {
            let found = self.rows[i];
            if found.project_id == project_id && found.date == date {
                self.rows.set(i, row);
                proof {
                    lemma_row_replaced(before, i as int, row);
                }
                return ;
            }
            i += 1;
        }
        self.rows.push(row);
        proof {
            lemma_row_added(before, row);
        }
    }

    /// What is held for the project, the latest date first.
    pub fn of_project(&self, project_id: i64) -> (r: Vec<Amount>)
        requires
            self.wf(),
        ensures
            is_listing(r@, self@, project_id),
    {
        let mut listed: Vec<Amount> = Vec::new();
        let mut i: usize = 0;
        while i < self.rows.len()
            invariant
                self.wf(),
                i <= self.rows@.len(),
                is_drawn_from(listed@, self.rows@, i as int, project_id),
                latest_first(listed@),
            decreases self.rows@.len() - i,
        {
            let row = self.rows[i];
            if row.project_id == project_id {
                proof {
                    lemma_date_not_listed(listed@, self.rows@, i as int, project_id);
                }
                let ghost before = listed@;
                let at = insert_latest_first(&mut listed, row);
                proof {
                    lemma_drawn_one_more(before, self.rows@, i as int, project_id, at as int);
                }
            } else {
                proof {
                    lemma_drawn_passes_by(listed@, self.rows@, i as int, project_id);
                }
            }
            i += 1;
        }
        proof {
            lemma_drawn_is_listing(listed@, self.rows@, project_id);
        }
        listed
    }

    /// Drops every amount held for the project.
    pub fn remove_project(&mut self, project_id: i64)
        requires
            old(self).wf(),
        ensures
            final(self).wf(),
            final(self)@ == without_project(old(self)@, project_id),
    {
        let ghost before = self.rows@;
        let mut kept: Vec<Amount> = Vec::new();
        let ghost mut from: Seq<int> = Seq::empty();
        let mut i: usize = 0;
        while i < self.rows.len()
            invariant
                self.rows@ == before,
                keys_distinct(before),
                i <= before.len(),
                from.len() == kept.len(),
                forall|k: int|
                    0 <= k < kept.len() ==> 0 <= #[trigger] from[k] < i && kept@[k] == before[from[k]]
                        && kept@[k].project_id != project_id,
                forall|k: int, l: int| 0 <= k < l < kept.len() ==> from[k] < from[l],
                forall|k: int|
                    0 <= k < i && (#[trigger] before[k]).project_id != project_id ==> exists|l: int|
                        0 <= l < kept.len() && from[l] == k,
            decreases before.len() - i,
        {
            let row = self.rows[i];
            if row.project_id != project_id {
                proof {
                    let ghost earlier = from;
                    from = from.push(i as int);
                    assert forall|k: int|
                        0 <= k < i + 1 && (#[trigger] before[k]).project_id
                            != project_id implies exists|l: int|
                        0 <= l < kept.len() + 1 && from[l] == k by {
                        if k < i {
                            let l = choose|l: int| 0 <= l < kept.len() && earlier[l] == k;
                            assert(from[l] == k);
                        } else {
                            assert(from[kept.len() as int] == k);
                        }
                    }
                }
                kept.push(row);
            }
            i += 1;
        }
        proof {
            lemma_rows_kept(before, kept@, from, project_id);
        }
        self.rows = kept;
    }
}

/// Each row comes after the rows with later dates.
pub open spec fn latest_first(rows: Seq<Amount>) -> bool {
    forall|i: int, j: int|
        0 <= i < j < rows.len() ==> (#[trigger] rows[j]).date.precedes((#[trigger] rows[i]).date)
}

/// The listed rows are those of the project among the first `n` rows.
pub open spec fn is_drawn_from(
    listed: Seq<Amount>,
    rows: Seq<Amount>,
    n: int,
    project_id: i64,
) -> bool {
    &&& forall|t: int|
        0 <= t < listed.len() ==> (#[trigger] listed[t]).project_id == project_id && exists|k: int|
            0 <= k < n && #[trigger] rows[k] == listed[t]
    &&& forall|k: int|
        0 <= k < n && (#[trigger] rows[k]).project_id == project_id ==> exists|t: int|
            0 <= t < listed.len() && #[trigger] listed[t] == rows[k]
}

/// Puts the row where it belongs among rows that stand latest first.
fn insert_latest_first(listed: &mut Vec<Amount>, row: Amount) -> (at: usize)
    requires
        latest_first(old(listed)@),
        forall|t: int| 0 <= t < old(listed)@.len() ==> (#[trigger] old(listed)@[t]).date != row.date,
    ensures
        at <= old(listed)@.len(),
        final(listed)@ == old(listed)@.insert(at as int, row),
        latest_first(final(listed)@),
{
    let ghost before = listed@;
    let mut at: usize = 0;
    while at < listed.len() && !listed[at].date.is_before(&row.date)
        invariant
            listed@ == before,
            at <= listed@.len(),
            forall|t: int| 0 <= t < at ==> !(#[trigger] listed@[t]).date.precedes(row.date),
        decreases listed@.len() - at,
    {
        at += 1;
    }
    listed.insert(at, row);
    proof {
        let after = listed@;
        assert forall|s: int, t: int| 0 <= s < t < after.len() implies (
        #[trigger] after[t]).date.precedes((#[trigger] after[s]).date) by {
            let a = if s < at {
                s
            } else {
                s - 1
            };
            let b = if t < at {
                t
            } else {
                t - 1
            };
            if s != at && t != at {
                assert(before[b].date.precedes(before[a].date));
            } else if s == at {
                assert(before[b].date.precedes(row.date)) by {
                    if b > at {
                        assert(before[b].date.precedes(before[at as int].date));
                    }
                }
            } else {
                assert(!before[a].date.precedes(row.date));
                assert(before[a].date != row.date);
            }
        }
    }
    at
}

/// With distinct keys, the next row of the project bears a date that no
/// listed row bears.
proof fn lemma_date_not_listed(listed: Seq<Amount>, rows: Seq<Amount>, n: int, project_id: i64)
    requires
        keys_distinct(rows),
        0 <= n < rows.len(),
        rows[n].project_id == project_id,
        is_drawn_from(listed, rows, n, project_id),
    ensures
        forall|t: int| 0 <= t < listed.len() ==> (#[trigger] listed[t]).date != rows[n].date,
{
    assert forall|t: int| 0 <= t < listed.len() implies (#[trigger] listed[t]).date
        != rows[n].date by {
        let k = choose|k: int| 0 <= k < n && #[trigger] rows[k] == listed[t];
        assert(key_of(rows[k]) != key_of(rows[n]));
    }
}

/// A row of another project leaves the listing as it is.
proof fn lemma_drawn_passes_by(listed: Seq<Amount>, rows: Seq<Amount>, n: int, project_id: i64)
    requires
        0 <= n < rows.len(),
        rows[n].project_id != project_id,
        is_drawn_from(listed, rows, n, project_id),
    ensures
        is_drawn_from(listed, rows, n + 1, project_id),
{
    assert forall|t: int| 0 <= t < listed.len() implies (#[trigger] listed[t]).project_id
        == project_id && exists|k: int| 0 <= k < n + 1 && #[trigger] rows[k] == listed[t] by {
        let k = choose|k: int| 0 <= k < n && #[trigger] rows[k] == listed[t];
        assert(rows[k] == listed[t]);
    }
}

/// Listing the next row of the project keeps the listing in step.
proof fn lemma_drawn_one_more(
    listed: Seq<Amount>,
    rows: Seq<Amount>,
    n: int,
    project_id: i64,
    at: int,
)
    requires
        0 <= n < rows.len(),
        0 <= at <= listed.len(),
        rows[n].project_id == project_id,
        is_drawn_from(listed, rows, n, project_id),
    ensures
        is_drawn_from(listed.insert(at, rows[n]), rows, n + 1, project_id),
{
    let after = listed.insert(at, rows[n]);
    assert forall|t: int| 0 <= t < after.len() implies (#[trigger] after[t]).project_id
        == project_id && exists|k: int| 0 <= k < n + 1 && #[trigger] rows[k] == after[t] by {
        if t == at {
            assert(rows[n] == after[t]);
        } else {
            let u = if t < at {
                t
            } else {
                t - 1
            };
            assert(after[t] == listed[u]);
            let k = choose|k: int| 0 <= k < n && #[trigger] rows[k] == listed[u];
            assert(rows[k] == after[t]);
        }
    }
    assert forall|k: int|
        0 <= k < n + 1 && (#[trigger] rows[k]).project_id == project_id implies exists|t: int|
        0 <= t < after.len() && #[trigger] after[t] == rows[k] by {
        if k < n {
            let t = choose|t: int| 0 <= t < listed.len() && #[trigger] listed[t] == rows[k];
            if t < at {
                assert(after[t] == rows[k]);
            } else {
                assert(after[t + 1] == rows[k]);
            }
        } else {
            assert(after[at] == rows[k]);
        }
    }
}

/// Rows drawn from all the rows of a table, latest first, are the listing
/// of what the table holds for the project.
proof fn lemma_drawn_is_listing(listed: Seq<Amount>, rows: Seq<Amount>, project_id: i64)
    requires
        keys_distinct(rows),
        is_drawn_from(listed, rows, rows.len() as int, project_id),
        latest_first(listed),
    ensures
        is_listing(listed, amounts_of(rows), project_id),
{
    let amounts = amounts_of(rows);
    assert forall|t: int| 0 <= t < listed.len() implies amounts.contains_key(
        key_of(#[trigger] listed[t]),
    ) && amounts[key_of(listed[t])] == listed[t].amount by {
        let k = choose|k: int| 0 <= k < rows.len() && #[trigger] rows[k] == listed[t];
        lemma_amounts_of_row(rows, k);
    }
    assert forall|date: CalendarDate| #[trigger]
        amounts.contains_key((project_id, date)) implies exists|t: int|
        0 <= t < listed.len() && (#[trigger] listed[t]).date == date by {
        let k = place_of(rows, (project_id, date));
        assert(rows[k].project_id == project_id);
        let t = choose|t: int| 0 <= t < listed.len() && #[trigger] listed[t] == rows[k];
        assert(listed[t].date == date);
    }
}

/// Replacing a row by one with the same key replaces the amount held there.
proof fn lemma_row_replaced(rows: Seq<Amount>, i: int, row: Amount)
    requires
        keys_distinct(rows),
        0 <= i < rows.len(),
        key_of(rows[i]) == key_of(row),
    ensures
        keys_distinct(rows.update(i, row)),
        amounts_of(rows.update(i, row)) == amounts_of(rows).insert(key_of(row), row.amount),
{
    let after = rows.update(i, row);
    assert(keys_distinct(after)) by {
        assert forall|a: int, b: int| 0 <= a < b < after.len() implies key_of(after[a]) != key_of(
            after[b],
        ) by {
            assert(key_of(after[a]) == key_of(rows[a]));
            assert(key_of(after[b]) == key_of(rows[b]));
        }
    }
    let left = amounts_of(after);
    let right = amounts_of(rows).insert(key_of(row), row.amount);
    assert forall|key: (i64, CalendarDate)| left.contains_key(key) <==> right.contains_key(
        key,
    ) by {
        if holds_key(after, key) {
            let j = place_of(after, key);
            assert(key_of(rows[j]) == key);
        }
        if holds_key(rows, key) {
            let j = place_of(rows, key);
            assert(key_of(after[j]) == key);
        }
        if key == key_of(row) {
            assert(key_of(after[i]) == key);
        }
    }
    assert forall|key: (i64, CalendarDate)| left.contains_key(key) implies left[key]
        == right[key] by {
        let j = place_of(after, key);
        lemma_amounts_of_row(after, j);
        if j != i {
            assert(after[j] == rows[j]);
            lemma_amounts_of_row(rows, j);
        }
    }
    assert(left =~= right);
}

/// Adding a row under a key that no row is held under adds its amount.
proof fn lemma_row_added(rows: Seq<Amount>, row: Amount)
    requires
        keys_distinct(rows),
        forall|k: int| 0 <= k < rows.len() ==> key_of(#[trigger] rows[k]) != key_of(row),
    ensures
        keys_distinct(rows.push(row)),
        amounts_of(rows.push(row)) == amounts_of(rows).insert(key_of(row), row.amount),
{
    let after = rows.push(row);
    let n = rows.len() as int;
    assert(keys_distinct(after)) by {
        assert forall|a: int, b: int| 0 <= a < b < after.len() implies key_of(after[a]) != key_of(
            after[b],
        ) by {
            assert(after[a] == rows[a]);
            if b < n {
                assert(after[b] == rows[b]);
            }
        }
    }
    let left = amounts_of(after);
    let right = amounts_of(rows).insert(key_of(row), row.amount);
    assert forall|key: (i64, CalendarDate)| left.contains_key(key) <==> right.contains_key(
        key,
    ) by {
        if holds_key(after, key) {
            let j = place_of(after, key);
            if j < n {
                assert(key_of(rows[j]) == key);
            }
        }
        if holds_key(rows, key) {
            let j = place_of(rows, key);
            assert(key_of(after[j]) == key);
        }
        if key == key_of(row) {
            assert(key_of(after[n]) == key);
        }
    }
    assert forall|key: (i64, CalendarDate)| left.contains_key(key) implies left[key]
        == right[key] by {
        let j = place_of(after, key);
        lemma_amounts_of_row(after, j);
        if j < n {
            assert(after[j] == rows[j]);
            lemma_amounts_of_row(rows, j);
        }
    }
    assert(left =~= right);
}

/// The rows that are left of a table once those of a project are dropped.
proof fn lemma_rows_kept(rows: Seq<Amount>, kept: Seq<Amount>, from: Seq<int>, project_id: i64)
    requires
        keys_distinct(rows),
        from.len() == kept.len(),
        forall|k: int|
            0 <= k < kept.len() ==> 0 <= #[trigger] from[k] < rows.len() && kept[k] == rows[from[k]]
                && kept[k].project_id != project_id,
        forall|k: int, l: int| 0 <= k < l < kept.len() ==> from[k] < from[l],
        forall|k: int|
            0 <= k < rows.len() && (#[trigger] rows[k]).project_id != project_id ==> exists|l: int|
                0 <= l < kept.len() && from[l] == k,
    ensures
        keys_distinct(kept),
        amounts_of(kept) == without_project(amounts_of(rows), project_id),
{
    assert(keys_distinct(kept)) by {
        assert forall|a: int, b: int| 0 <= a < b < kept.len() implies key_of(kept[a]) != key_of(
            kept[b],
        ) by {
            assert(from[a] < from[b]);
        }
    }
    let left = amounts_of(kept);
    let right = without_project(amounts_of(rows), project_id);
    assert forall|key: (i64, CalendarDate)| left.contains_key(key) <==> right.contains_key(
        key,
    ) by {
        if holds_key(kept, key) {
            let l = place_of(kept, key);
            assert(key_of(rows[from[l]]) == key);
        }
        if holds_key(rows, key) && key.0 != project_id {
            let k = place_of(rows, key);
            let l = choose|l: int| 0 <= l < kept.len() && from[l] == k;
            assert(key_of(kept[l]) == key);
        }
    }
    assert forall|key: (i64, CalendarDate)| left.contains_key(key) implies left[key]
        == right[key] by {
        let l = place_of(kept, key);
        lemma_amounts_of_row(kept, l);
        lemma_amounts_of_row(rows, from[l]);
    }
    assert(left =~= right);
}

} // verus!
