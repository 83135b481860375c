//! The whole run over decoded rows: keep the entries that the row rules
//! accept, order them, and total them.
use vstd::prelude::*;
use crate::entry::{row_entry, Entry, EntryView};
use crate::order::{is_sorted, sort_entries, views};
use crate::record::record_fields;
use crate::totals::{
    category_totals, lemma_totals_ignore_order, year_totals, CategoryTotals, YearTotals,
};

verus! {

pub open spec fn rows_fields(records: Seq<csv::StringRecord>) -> Seq<Seq<Seq<char>>> {
    records.map_values(|r: csv::StringRecord| record_fields(r))
}

/// The entries that the rows give, in row order.
pub open spec fn accepted(rows: Seq<Seq<Seq<char>>>, target: Seq<char>) -> Seq<EntryView>
    decreases rows.len(),
{
    if rows.len() == 0 {
        Seq::empty()
    } else {
        let prev = accepted(rows.drop_last(), target);
        match row_entry(rows.last(), target) {
            Some(e) => prev.push(e),
            None => prev,
        }
    }
}

/// Parses every row with `target` as the wanted category and keeps the
/// entries, in row order.
pub fn collect_entries(records: &Vec<csv::StringRecord>, target: &str) -> (r: Vec<Entry>)
    ensures
        views(r@) == accepted(rows_fields(records@), target@),
{
    let mut out: Vec<Entry> = Vec::new();
    let n = records.len();
    let mut i: usize = 0;
    while i < n
        invariant
            n == records.len(),
            i <= n,
            views(out@) == accepted(rows_fields(records@).take(i as int), target@),
        decreases n - i,
    {
        let ghost rows = rows_fields(records@);
        assert(rows.take(i + 1).drop_last() =~= rows.take(i as int));
        assert(rows.take(i + 1).last() == record_fields(records@[i as int]));
        match Entry::parse(&records[i], target) {
            Some(e) => {
                let ghost before = views(out@);
                out.push(e);
                assert(views(out@) =~= before.push(e@));
            },
            None => {},
        }
        i = i + 1;
    }
    assert(rows_fields(records@).take(n as int) =~= rows_fields(records@));
    out
}

/// The sorted entries of a run and their totals.
pub struct Report {
    pub entries: Vec<Entry>,
    pub category_totals: CategoryTotals,
    pub year_totals: YearTotals,
}

impl Report {
    /// Runs the whole pipeline over the rows.
    pub fn build(records: &Vec<csv::StringRecord>, target: &str) -> (r: Report)
        ensures
            is_sorted(views(r.entries@)),
            views(r.entries@).to_multiset() == accepted(
                rows_fields(records@),
                target@,
            ).to_multiset(),
            r.category_totals.wf(),
            r.year_totals.wf(),
            r.category_totals@ == category_totals(accepted(rows_fields(records@), target@)),
            r.year_totals@ == year_totals(accepted(rows_fields(records@), target@)),
    {
        let collected = collect_entries(records, target);
        let ghost all = views(collected@);
        let entries = sort_entries(collected);
        let category_totals = CategoryTotals::from_entries(&entries);
        let year_totals = YearTotals::from_category_totals(&category_totals);
        proof {
            lemma_totals_ignore_order(views(entries@), all);
        }
        Report { entries, category_totals, year_totals }
    }
}

} // verus!
