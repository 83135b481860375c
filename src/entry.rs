//! One validated expense entry, and the rules that turn a decoded row into
//! one.
use vstd::prelude::*;
use vstd::string::*;
use crate::amount::{amount_units, parse_amount};
use crate::record::{record_fields, trim, trimmed};

verus! {

/// The category that rows must carry in their filter column.
pub const TARGET_CATEGORY: &'static str = "health";

/// The category given to rows whose category column is blank.
pub const UNKNOWN_CATEGORY: &'static str = "Unknown";

pub const FILTER_COLUMN: usize = 1;

pub const CATEGORY_COLUMN: usize = 2;

pub const COST_COLUMN: usize = 4;

pub const DATE_COLUMN: usize = 7;

pub const NOTE_COLUMN: usize = 10;

/// A validated entry. `cost` is in millionths of a unit of currency.
pub struct Entry {
    pub year: String,
    pub category: String,
    pub cost: i64,
    pub note: Option<String>,
}

pub ghost struct EntryView {
    pub year: Seq<char>,
    pub category: Seq<char>,
    pub cost: int,
    pub note: Option<Seq<char>>,
}

impl View for Entry {
    type V = EntryView;

    open spec fn view(&self) -> EntryView {
        EntryView {
            year: self.year@,
            category: self.category@,
            cost: self.cost as int,
            note: match self.note {
                Some(n) => Some(n@),
                None => None,
            },
        }
    }
}

/// What the filter column of a row says about it.
pub enum FilterOutcome {
    /// The row has no filter column: no constraint.
    Absent,
    Match,
    Mismatch,
}

/// A character's code with ASCII capitals folded to lower case.
pub open spec fn ascii_folded(c: char) -> int {
    if 'A' <= c && c <= 'Z' {
        c as int + 32
    } else {
        c as int
    }
}

/// Equality up to ASCII letter case.
pub open spec fn eq_ignore_ascii_case(a: Seq<char>, b: Seq<char>) -> bool {
    &&& a.len() == b.len()
    &&& forall|i: int| 0 <= i < a.len() ==> ascii_folded(#[trigger] a[i]) == ascii_folded(b[i])
}

pub open spec fn filter_outcome(fields: Seq<Seq<char>>, target: Seq<char>) -> FilterOutcome {
    if fields.len() <= FILTER_COLUMN {
        FilterOutcome::Absent
    } else if eq_ignore_ascii_case(fields[FILTER_COLUMN as int], target) {
        FilterOutcome::Match
    } else {
        FilterOutcome::Mismatch
    }
}

/// `k` ends the first `-`-separated component of `d`.
pub open spec fn ends_first_component(d: Seq<char>, k: int) -> bool {
    &&& 0 <= k <= d.len()
    &&& k == d.len() || d[k] == '-'
    &&& forall|j: int| 0 <= j < k ==> d[j] != '-'
}

/// The year of a date: its text before the first `-`.
pub open spec fn year_of(d: Seq<char>) -> Seq<char> {
    d.take(choose|k: int| ends_first_component(d, k))
}

/// The category that a trimmed category text gives.
pub open spec fn category_label(t: Seq<char>) -> Seq<char> {
    if t.len() == 0 {
        UNKNOWN_CATEGORY@
    } else {
        t
    }
}

/// The note that a trimmed note text gives.
pub open spec fn note_label(t: Seq<char>) -> Option<Seq<char>> {
    if t.len() == 0 {
        None
    } else {
        Some(t)
    }
}

pub open spec fn category_of(raw: Seq<char>) -> Seq<char> {
    category_label(trimmed(raw))
}

pub open spec fn note_of(fields: Seq<Seq<char>>) -> Option<Seq<char>> {
    if fields.len() > NOTE_COLUMN {
        note_label(trimmed(fields[NOTE_COLUMN as int]))
    } else {
        None
    }
}

/// The entry that a row gives by its category, cost, note and date
/// columns, the filter column aside.
pub open spec fn fields_entry(fields: Seq<Seq<char>>) -> Option<EntryView> {
    if fields.len() <= CATEGORY_COLUMN {
        None
    } else if fields.len() <= COST_COLUMN || amount_units(fields[COST_COLUMN as int]) is None {
        None
    } else if fields.len() <= DATE_COLUMN || year_of(fields[DATE_COLUMN as int]).len() == 0 {
        None
    } else {
        Some(
            EntryView {
                year: year_of(fields[DATE_COLUMN as int]),
                category: category_of(fields[CATEGORY_COLUMN as int]),
                cost: amount_units(fields[COST_COLUMN as int])->0,
                note: note_of(fields),
            },
        )
    }
}

/// The entry that a row gives, if any.
pub open spec fn row_entry(fields: Seq<Seq<char>>, target: Seq<char>) -> Option<EntryView> {
    match filter_outcome(fields, target) {
        FilterOutcome::Mismatch => None,
        _ => fields_entry(fields),
    }
}

fn fold_ascii(c: char) -> (r: u32)
    ensures
        r as int == ascii_folded(c),
{
    if 'A' <= c && c <= 'Z' {
        c as u32 + 32
    } else {
        c as u32
    }
}

/// Compares two texts up to ASCII letter case.
pub fn equals_ignore_ascii_case(a: &str, b: &str) -> (r: bool)
    ensures
        r == eq_ignore_ascii_case(a@, b@),
{
    let n = a.unicode_len();
    if n != b.unicode_len() {
        return false;
    }
    let mut i: usize = 0;
    while i < n
        invariant
            n == a@.len() == b@.len(),
            i <= n,
            forall|j: int| 0 <= j < i ==> ascii_folded(#[trigger] a@[j]) == ascii_folded(b@[j]),
        decreases n - i,
    {
        if fold_ascii(a.get_char(i)) != fold_ascii(b.get_char(i)) {
            return false;
        }
        i = i + 1;
    }
    true
}

/// The year of a date: its text before the first `-`.
pub fn date_year(d: &str) -> (r: String)
    ensures
        r@ == year_of(d@),
{
    let n = d.unicode_len();
    let mut k: usize = 0;
    while k < n && d.get_char(k) != '-'
        invariant
            n == d@.len(),
            k <= n,
            forall|j: int| 0 <= j < k ==> d@[j] != '-',
        decreases n - k,
    {
        k = k + 1;
    }
    assert(ends_first_component(d@, k as int));
    assert forall|k2: int| ends_first_component(d@, k2) implies k2 == k by {
        if k2 < k {
            assert(d@[k2] != '-');
        } else if k2 > k {
            assert(d@[k as int] == '-');
        }
    }
    d.substring_char(0, k).to_owned()
}

/// The category for an already trimmed category text: the text, or
/// `UNKNOWN_CATEGORY` where it is empty.
pub fn category_from_trimmed(t: String) -> (r: String)
    ensures
        r@ == category_label(t@),
        r@.len() > 0,
{
    proof {
        reveal_strlit("Unknown");
    }
    if t.as_str().unicode_len() == 0 {
        UNKNOWN_CATEGORY.to_owned()
    } else {
        t
    }
}

/// The note for an already trimmed note text: `None` where it is empty.
pub fn note_from_trimmed(t: String) -> (r: Option<String>)
    ensures
        match r {
            Some(n) => note_label(t@) == Some(n@),
            None => note_label(t@) is None,
        },
{
    if t.as_str().unicode_len() > 0 {
        Some(t)
    } else {
        None
    }
}

/// Classifies a row by its filter column.
pub fn check_filter(record: &csv::StringRecord, target: &str) -> (r: FilterOutcome)
    ensures
        r == filter_outcome(record_fields(*record), target@),
{
    match record.get(FILTER_COLUMN) {
        None => FilterOutcome::Absent,
        Some(f) => if equals_ignore_ascii_case(f, target) {
            FilterOutcome::Match
        } else {
            FilterOutcome::Mismatch
        },
    }
}

impl Entry {
    /// The entry that a row gives with `target` as the wanted category, or
    /// `None` where a rule rejects the row.
    pub fn parse(record: &csv::StringRecord, target: &str) -> (r: Option<Entry>)
        ensures
            match r {
                Some(e) => row_entry(record_fields(*record), target@) == Some(e@),
                None => row_entry(record_fields(*record), target@) is None,
            },
            filter_outcome(record_fields(*record), target@) is Mismatch ==> r is None,
            !(filter_outcome(record_fields(*record), target@) is Mismatch) ==> match r {
                Some(e) => fields_entry(record_fields(*record)) == Some(e@),
                None => fields_entry(record_fields(*record)) is None,
            },
            r is Some ==> r->0.category@.len() > 0,
            r is Some ==> amount_units(record_fields(*record)[COST_COLUMN as int]) == Some(
                r->0.cost as int,
            ),
            record_fields(*record).len() <= DATE_COLUMN ==> r is None,
    {
        let ghost fields = record_fields(*record);
        if let FilterOutcome::Mismatch = check_filter(record, target) {
            return None;
        }
        let raw_category = match record.get(CATEGORY_COLUMN) {
            Some(c) => c,
            None => return None,
        };
        let category = category_from_trimmed(trim(raw_category));
        let cost = match record.get(COST_COLUMN) {
            Some(c) => match parse_amount(c) {
                Some(v) => v,
                None => return None,
            },
            None => return None,
        };
        let note = match record.get(NOTE_COLUMN) {
            Some(n) => note_from_trimmed(trim(n)),
            None => None,
        };
        let year = match record.get(DATE_COLUMN) {
            Some(d) => date_year(d),
            None => return None,
        };
        if year.as_str().unicode_len() == 0 {
            return None;
        }
        let e = Entry { year, category, cost, note };
        assert(e@.note == note_of(fields));
        Some(e)
    }

    /// The entry that a row gives with `TARGET_CATEGORY` as the wanted
    /// category.
    pub fn new(record: &csv::StringRecord) -> (r: Option<Entry>)
        ensures
            match r {
                Some(e) => row_entry(record_fields(*record), TARGET_CATEGORY@) == Some(e@),
                None => row_entry(record_fields(*record), TARGET_CATEGORY@) is None,
            },
    {
        Entry::parse(record, TARGET_CATEGORY)
    }
}

} // verus!
