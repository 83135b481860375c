//! The order of entries: by year, then category, then cost.
use vstd::prelude::*;
use vstd::multiset::Multiset;
use vstd::string::*;
use crate::entry::{Entry, EntryView};

verus! {

broadcast use vstd::seq_lib::group_to_multiset_ensures;

/// Lexicographic comparison of texts by code point: -1, 0 or 1.
pub open spec fn text_cmp(a: Seq<char>, b: Seq<char>) -> int
    decreases a.len(),
{
    if a.len() == 0 {
        if b.len() == 0 {
            0
        } else {
            -1
        }
    } else if b.len() == 0 {
        1
    } else if (a[0] as int) < (b[0] as int) {
        -1
    } else if (a[0] as int) > (b[0] as int) {
        1
    } else {
        text_cmp(a.drop_first(), b.drop_first())
    }
}

pub open spec fn int_cmp(a: int, b: int) -> int {
    if a < b {
        -1
    } else if a > b {
        1
    } else {
        0
    }
}

/// Comparison of entries by year, then category, then cost: -1, 0 or 1.
pub open spec fn entry_cmp(a: EntryView, b: EntryView) -> int {
    if text_cmp(a.year, b.year) != 0 {
        text_cmp(a.year, b.year)
    } else if text_cmp(a.category, b.category) != 0 {
        text_cmp(a.category, b.category)
    } else {
        int_cmp(a.cost, b.cost)
    }
}

pub open spec fn views(s: Seq<Entry>) -> Seq<EntryView> {
    s.map_values(|e: Entry| e@)
}

pub open spec fn is_sorted(s: Seq<EntryView>) -> bool {
    forall|i: int, j: int| 0 <= i < j < s.len() ==> entry_cmp(#[trigger] s[i], #[trigger] s[j]) <= 0
}

proof fn lemma_text_cmp_flip(a: Seq<char>, b: Seq<char>)
    ensures
        text_cmp(a, b) == -text_cmp(b, a),
        text_cmp(a, b) == 0 <==> a == b,
        -1 <= text_cmp(a, b) <= 1,
    decreases a.len(),
{
    if a.len() > 0 && b.len() > 0 {
        lemma_text_cmp_flip(a.drop_first(), b.drop_first());
        if (a[0] as int) == (b[0] as int) {
            assert(a[0] == b[0]);
        }
        if a[0] == b[0] && a.drop_first() == b.drop_first() {
            assert(a =~= seq![a[0]] + a.drop_first());
            assert(b =~= seq![b[0]] + b.drop_first());
        }
    } else if a.len() == 0 && b.len() == 0 {
        assert(a =~= b);
    }
}

proof fn lemma_text_cmp_trans(a: Seq<char>, b: Seq<char>, c: Seq<char>)
    requires
        text_cmp(a, b) <= 0,
        text_cmp(b, c) <= 0,
    ensures
        text_cmp(a, c) <= 0,
        text_cmp(a, b) < 0 || text_cmp(b, c) < 0 ==> text_cmp(a, c) < 0,
    decreases a.len(),
{
    if a.len() > 0 && b.len() > 0 && c.len() > 0 && (a[0] as int) == (b[0] as int) && (b[0] as int)
        == (c[0] as int) {
        lemma_text_cmp_trans(a.drop_first(), b.drop_first(), c.drop_first());
    }
}

/// The entry order is total: any two entries compare as exactly one of
/// less, equal or greater, the two directions agree, equality is equality
/// of year, category and cost, and the order is transitive.
pub proof fn lemma_entry_order_total(a: EntryView, b: EntryView, c: EntryView)
    ensures
        entry_cmp(a, b) == -1 || entry_cmp(a, b) == 0 || entry_cmp(a, b) == 1,
        entry_cmp(a, b) == -entry_cmp(b, a),
        entry_cmp(a, b) == 0 <==> (a.year, a.category, a.cost) == (b.year, b.category, b.cost),
        entry_cmp(a, b) <= 0 && entry_cmp(b, c) <= 0 ==> entry_cmp(a, c) <= 0,
{
    lemma_text_cmp_flip(a.year, b.year);
    lemma_text_cmp_flip(a.category, b.category);
    lemma_text_cmp_flip(b.year, c.year);
    lemma_text_cmp_flip(b.category, c.category);
    lemma_text_cmp_flip(a.year, c.year);
    lemma_text_cmp_flip(a.category, c.category);
    if entry_cmp(a, b) <= 0 && entry_cmp(b, c) <= 0 {
        lemma_text_cmp_trans(a.year, b.year, c.year);
        if a.year == b.year && b.year == c.year {
            lemma_text_cmp_trans(a.category, b.category, c.category);
        }
    }
}

/// Compares two texts lexicographically by code point.
pub fn compare_text(a: &str, b: &str) -> (r: i8)
    ensures
        r as int == text_cmp(a@, b@),
{
    let n = a.unicode_len();
    let m = b.unicode_len();
    let mut i: usize = 0;
    assert(a@.skip(0) =~= a@);
    assert(b@.skip(0) =~= b@);
    while i < n && i < m && a.get_char(i) == b.get_char(i)
        invariant
            n == a@.len(),
            m == b@.len(),
            i <= n,
            i <= m,
            text_cmp(a@, b@) == text_cmp(a@.skip(i as int), b@.skip(i as int)),
        decreases n - i,
    {
        assert(a@.skip(i as int).drop_first() =~= a@.skip(i + 1));
        assert(b@.skip(i as int).drop_first() =~= b@.skip(i + 1));
        i = i + 1;
    }
    if i == n {
        if i == m {
            0
        } else {
            -1
        }
    } else if i == m {
        1
    } else if (a.get_char(i) as u32) < (b.get_char(i) as u32) {
        -1
    } else {
        1
    }
}

/// Whether two texts are equal.
pub fn texts_equal(a: &str, b: &str) -> (r: bool)
    ensures
        r == (a@ == b@),
{
    proof {
        lemma_text_cmp_flip(a@, b@);
    }
    compare_text(a, b) == 0
}

/// Compares two entries by year, then category, then cost.
pub fn compare_entries(a: &Entry, b: &Entry) -> (r: i8)
    ensures
        r as int == entry_cmp(a@, b@),
{
    let y = compare_text(a.year.as_str(), b.year.as_str());
    if y != 0 {
        return y;
    }
    let c = compare_text(a.category.as_str(), b.category.as_str());
    if c != 0 {
        return c;
    }
    if a.cost < b.cost {
        -1
    } else if a.cost > b.cost {
        1
    } else {
        0
    }
}

/// Orders entries by year, then category, then cost.
pub fn sort_entries(entries: Vec<Entry>) -> (r: Vec<Entry>)
    ensures
        is_sorted(views(r@)),
        views(r@).to_multiset() == views(entries@).to_multiset(),
{
    let mut rest = entries;
    let mut out: Vec<Entry> = Vec::new();
    while rest.len() > 0
        invariant
            is_sorted(views(out@)),
            views(out@).to_multiset().add(views(rest@).to_multiset()) == views(
                entries@,
            ).to_multiset(),
        decreases rest.len(),
    {
        let ghost before = rest@;
        let x = rest.pop().unwrap();
        assert(views(before) =~= views(rest@).push(x@));
        let mut p: usize = 0;
        while p < out.len() && compare_entries(&x, &out[p]) > 0
            invariant
                p <= out.len(),
                forall|j: int| 0 <= j < p ==> entry_cmp(x@, #[trigger] views(out@)[j]) > 0,
            decreases out.len() - p,
        {
            p = p + 1;
        }
        let ghost old_out = views(out@);
        out.insert(p, x);
        assert(views(out@) =~= old_out.insert(p as int, x@));
        assert forall|i: int, j: int| 0 <= i < j < views(out@).len() implies entry_cmp(
            #[trigger] views(out@)[i],
            #[trigger] views(out@)[j],
        ) <= 0 by {
            let s = views(out@);
            if i < p && j == p {
                lemma_entry_order_total(x@, s[i], s[i]);
            } else if i == p && j > p {
                lemma_entry_order_total(x@, old_out[p as int], s[j]);
                if j > p + 1 {
                    assert(entry_cmp(old_out[p as int], old_out[j - 1]) <= 0);
                }
            } else if i < p && j > p {
                lemma_entry_order_total(s[i], x@, s[j]);
                lemma_entry_order_total(x@, s[i], s[i]);
                lemma_entry_order_total(x@, old_out[p as int], s[j]);
                if j > p + 1 {
                    assert(entry_cmp(old_out[p as int], old_out[j - 1]) <= 0);
                }
            }
        }
        assert(views(out@).remove(p as int) =~= old_out);
    }
    assert(views(rest@).to_multiset() =~= Multiset::empty());
    out
}

} // verus!
