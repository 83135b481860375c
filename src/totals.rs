//! Totals of entry costs per year and category, and per year.
use vstd::prelude::*;
use crate::entry::{Entry, EntryView};
use crate::order::views;

verus! {

broadcast use vstd::seq_lib::group_to_multiset_ensures;

/// Sum of `f` over the entries of `s`.
pub open spec fn sum_of(s: Seq<EntryView>, f: spec_fn(EntryView) -> int) -> int
    decreases s.len(),
{
    if s.len() == 0 {
        0
    } else {
        sum_of(s.drop_last(), f) + f(s.last())
    }
}

/// Summed cost of the entries of year `y` and category `c`.
pub open spec fn pair_total(s: Seq<EntryView>, y: Seq<char>, c: Seq<char>) -> int {
    sum_of(
        s,
        |e: EntryView|
            if e.year == y && e.category == c {
                e.cost
            } else {
                0
            },
    )
}

/// Summed cost of the entries of year `y`.
pub open spec fn year_total(s: Seq<EntryView>, y: Seq<char>) -> int {
    sum_of(
        s,
        |e: EntryView|
            if e.year == y {
                e.cost
            } else {
                0
            },
    )
}

/// Summed cost of the entries of year `y` whose (year, category) pair is
/// among `ps`.
pub open spec fn covered_total(
    s: Seq<EntryView>,
    y: Seq<char>,
    ps: Seq<(Seq<char>, Seq<char>)>,
) -> int {
    sum_of(
        s,
        |e: EntryView|
            if e.year == y && ps.contains((e.year, e.category)) {
                e.cost
            } else {
                0
            },
    )
}

pub open spec fn has_year(s: Seq<EntryView>, y: Seq<char>) -> bool {
    exists|i: int| 0 <= i < s.len() && (#[trigger] s[i]).year == y
}

pub open spec fn has_pair(s: Seq<EntryView>, y: Seq<char>, c: Seq<char>) -> bool {
    exists|i: int| 0 <= i < s.len() && (#[trigger] s[i]).year == y && s[i].category == c
}

/// Year -> category -> summed cost, over the years and categories that
/// occur in `s`.
pub open spec fn category_totals(s: Seq<EntryView>) -> Map<Seq<char>, Map<Seq<char>, int>> {
    Map::new(
        |y: Seq<char>| has_year(s, y),
        |y: Seq<char>| Map::new(|c: Seq<char>| has_pair(s, y, c), |c: Seq<char>| pair_total(s, y, c)),
    )
}

/// Year -> summed cost, over the years that occur in `s`.
pub open spec fn year_totals(s: Seq<EntryView>) -> Map<Seq<char>, int> {
    Map::new(|y: Seq<char>| has_year(s, y), |y: Seq<char>| year_total(s, y))
}

/// Sum over the pairs of `ps` of year `y` of their totals in `s`.
pub open spec fn pairs_sum(ps: Seq<(Seq<char>, Seq<char>)>, s: Seq<EntryView>, y: Seq<char>) -> int
    decreases ps.len(),
{
    if ps.len() == 0 {
        0
    } else {
        pairs_sum(ps.drop_last(), s, y) + if ps.last().0 == y {
            pair_total(s, ps.last().0, ps.last().1)
        } else {
            0
        }
    }
}

/// Sum of the values of `m` at the keys `keys`.
pub open spec fn sum_at(m: Map<Seq<char>, int>, keys: Seq<Seq<char>>) -> int
    decreases keys.len(),
{
    if keys.len() == 0 {
        0
    } else {
        sum_at(m, keys.drop_last()) + m[keys.last()]
    }
}

pub open spec fn cost_fits(s: Seq<EntryView>) -> bool {
    forall|i: int| 0 <= i < s.len() ==> -0x8000_0000_0000_0000 <= #[trigger] s[i].cost
        <= 0x8000_0000_0000_0000
}

proof fn lemma_sum_push(s: Seq<EntryView>, f: spec_fn(EntryView) -> int, e: EntryView)
    ensures
        sum_of(s.push(e), f) == sum_of(s, f) + f(e),
{
    assert(s.push(e).drop_last() =~= s);
}

proof fn lemma_sum_remove(s: Seq<EntryView>, f: spec_fn(EntryView) -> int, k: int)
    requires
        0 <= k < s.len(),
    ensures
        sum_of(s, f) == sum_of(s.remove(k), f) + f(s[k]),
    decreases s.len(),
{
    if k < s.len() - 1 {
        lemma_sum_remove(s.drop_last(), f, k);
        assert(s.remove(k) =~= s.drop_last().remove(k).push(s.last()));
        lemma_sum_push(s.drop_last().remove(k), f, s.last());
    } else {
        assert(s.remove(k) =~= s.drop_last());
    }
}

proof fn lemma_sum_perm(a: Seq<EntryView>, b: Seq<EntryView>, f: spec_fn(EntryView) -> int)
    requires
        a.to_multiset() == b.to_multiset(),
    ensures
        sum_of(a, f) == sum_of(b, f),
    decreases a.len(),
{
    if a.len() > 0 {
        let x = a.last();
        assert(a =~= a.drop_last().push(x));
        assert(a.to_multiset().count(x) > 0);
        assert(b.contains(x));
        let k = choose|k: int| 0 <= k < b.len() && b[k] == x;
        assert(b.remove(k).to_multiset() =~= a.drop_last().to_multiset());
        lemma_sum_perm(a.drop_last(), b.remove(k), f);
        lemma_sum_remove(b, f, k);
    } else {
        assert(b.to_multiset().len() == 0);
    }
}

proof fn lemma_sum_bound(s: Seq<EntryView>, f: spec_fn(EntryView) -> int)
    requires
        forall|i: int| 0 <= i < s.len() ==> -0x8000_0000_0000_0000 <= #[trigger] f(s[i])
            <= 0x8000_0000_0000_0000,
    ensures
        -(s.len() * 0x8000_0000_0000_0000) <= sum_of(s, f) <= s.len() * 0x8000_0000_0000_0000,
    decreases s.len(),
{
    if s.len() > 0 {
        lemma_sum_bound(s.drop_last(), f);
        assert(f(s.last()) == f(s[s.len() - 1]));
    }
}

proof fn lemma_covered_bound(s: Seq<EntryView>, y: Seq<char>, ps: Seq<(Seq<char>, Seq<char>)>)
    requires
        cost_fits(s),
    ensures
        -(s.len() * 0x8000_0000_0000_0000) <= covered_total(s, y, ps) <= s.len()
            * 0x8000_0000_0000_0000,
{
    let f = |e: EntryView|
        if e.year == y && ps.contains((e.year, e.category)) {
            e.cost
        } else {
            0
        };
    assert forall|i: int| 0 <= i < s.len() implies -0x8000_0000_0000_0000 <= #[trigger] f(s[i])
        <= 0x8000_0000_0000_0000 by {
        assert(-0x8000_0000_0000_0000 <= s[i].cost <= 0x8000_0000_0000_0000);
    }
    lemma_sum_bound(s, f);
}

proof fn lemma_pair_bound(s: Seq<EntryView>, y: Seq<char>, c: Seq<char>)
    requires
        cost_fits(s),
    ensures
        -(s.len() * 0x8000_0000_0000_0000) <= pair_total(s, y, c) <= s.len()
            * 0x8000_0000_0000_0000,
{
    let f = |e: EntryView|
        if e.year == y && e.category == c {
            e.cost
        } else {
            0
        };
    assert forall|i: int| 0 <= i < s.len() implies -0x8000_0000_0000_0000 <= #[trigger] f(s[i])
        <= 0x8000_0000_0000_0000 by {
        assert(-0x8000_0000_0000_0000 <= s[i].cost <= 0x8000_0000_0000_0000);
    }
    lemma_sum_bound(s, f);
}

proof fn lemma_pairs_sum_empty(ps: Seq<(Seq<char>, Seq<char>)>, y: Seq<char>)
    ensures
        pairs_sum(ps, Seq::empty(), y) == 0,
    decreases ps.len(),
{
    if ps.len() > 0 {
        lemma_pairs_sum_empty(ps.drop_last(), y);
    }
}

proof fn lemma_pairs_sum_push(
    ps: Seq<(Seq<char>, Seq<char>)>,
    s: Seq<EntryView>,
    y: Seq<char>,
    e: EntryView,
)
    requires
        ps.no_duplicates(),
    ensures
        pairs_sum(ps, s.push(e), y) == pairs_sum(ps, s, y) + if e.year == y && ps.contains(
            (e.year, e.category),
        ) {
            e.cost
        } else {
            0
        },
    decreases ps.len(),
{
    if ps.len() > 0 {
        let q = ps.last();
        let rest = ps.drop_last();
        assert(rest.no_duplicates());
        lemma_pairs_sum_push(rest, s, y, e);
        assert(s.push(e).drop_last() =~= s);
        assert(ps =~= rest.push(q));
        if q == (e.year, e.category) {
            assert(!rest.contains(q));
        } else {
            assert(ps.contains((e.year, e.category)) == rest.contains((e.year, e.category)));
        }
    }
}

proof fn lemma_pairs_sum_covered(
    ps: Seq<(Seq<char>, Seq<char>)>,
    s: Seq<EntryView>,
    y: Seq<char>,
)
    requires
        ps.no_duplicates(),
    ensures
        pairs_sum(ps, s, y) == covered_total(s, y, ps),
    decreases s.len(),
{
    if s.len() == 0 {
        assert(s =~= Seq::empty());
        lemma_pairs_sum_empty(ps, y);
    } else {
        let e = s.last();
        lemma_pairs_sum_covered(ps, s.drop_last(), y);
        assert(s =~= s.drop_last().push(e));
        lemma_pairs_sum_push(ps, s.drop_last(), y, e);
    }
}

proof fn lemma_covered_all(s: Seq<EntryView>, y: Seq<char>, ps: Seq<(Seq<char>, Seq<char>)>)
    requires
        forall|i: int| 0 <= i < s.len() && (#[trigger] s[i]).year == y ==> ps.contains(
            (s[i].year, s[i].category),
        ),
    ensures
        covered_total(s, y, ps) == year_total(s, y),
    decreases s.len(),
{
    if s.len() > 0 {
        let e = s.last();
        assert(s[s.len() - 1] == e);
        lemma_covered_all(s.drop_last(), y, ps);
    }
}

/// The totals of one year, summed over its categories, give the year's
/// total: for any list of that year's categories without repeats, the sum
/// of their category totals equals the year total.
pub proof fn lemma_year_total_sums_categories(
    s: Seq<EntryView>,
    y: Seq<char>,
    cats: Seq<Seq<char>>,
)
    requires
        category_totals(s).contains_key(y),
        cats.no_duplicates(),
        forall|c: Seq<char>| cats.contains(c) <==> category_totals(s)[y].contains_key(c),
    ensures
        year_totals(s).contains_key(y),
        sum_at(category_totals(s)[y], cats) == year_totals(s)[y],
{
    let ps = cats.map_values(|c: Seq<char>| (y, c));
    assert(ps.no_duplicates()) by {
        assert forall|i: int, j: int| 0 <= i < j < ps.len() implies ps[i] != ps[j] by {
            assert(cats[i] != cats[j]);
        }
    }
    assert forall|i: int| 0 <= i < s.len() && (#[trigger] s[i]).year == y implies ps.contains(
        (s[i].year, s[i].category),
    ) by {
        assert(has_pair(s, y, s[i].category));
        assert(cats.contains(s[i].category));
        let j = choose|j: int| 0 <= j < cats.len() && cats[j] == s[i].category;
        assert(ps[j] == (s[i].year, s[i].category));
    }
    lemma_pairs_sum_covered(ps, s, y);
    lemma_covered_all(s, y, ps);
    lemma_sum_at_pairs(s, y, cats);
}

proof fn lemma_sum_at_pairs(s: Seq<EntryView>, y: Seq<char>, cats: Seq<Seq<char>>)
    requires
        category_totals(s).contains_key(y),
        forall|c: Seq<char>| cats.contains(c) ==> category_totals(s)[y].contains_key(c),
    ensures
        sum_at(category_totals(s)[y], cats) == pairs_sum(
            cats.map_values(|c: Seq<char>| (y, c)),
            s,
            y,
        ),
    decreases cats.len(),
{
    if cats.len() > 0 {
        let rest = cats.drop_last();
        assert forall|c: Seq<char>| rest.contains(c) implies category_totals(s)[y].contains_key(
            c,
        ) by {
            let j = choose|j: int| 0 <= j < rest.len() && rest[j] == c;
            assert(cats[j] == c);
            assert(cats.contains(c));
        }
        lemma_sum_at_pairs(s, y, rest);
        assert(cats.map_values(|c: Seq<char>| (y, c)).drop_last() =~= rest.map_values(
            |c: Seq<char>| (y, c),
        ));
        assert(cats.contains(cats.last()));
    }
}

/// The totals depend only on which entries there are, not on their order:
/// two entry sequences that are permutations of each other give the same
/// category totals and the same year totals.
pub proof fn lemma_totals_ignore_order(a: Seq<EntryView>, b: Seq<EntryView>)
    requires
        a.to_multiset() == b.to_multiset(),
    ensures
        category_totals(a) == category_totals(b),
        year_totals(a) == year_totals(b),
{
    assert forall|x: EntryView| a.contains(x) <==> b.contains(x) by {
        assert(a.contains(x) <==> a.to_multiset().count(x) > 0);
        assert(b.contains(x) <==> b.to_multiset().count(x) > 0);
    }
    assert forall|y: Seq<char>| has_year(a, y) <==> has_year(b, y) by {
        if has_year(a, y) {
            let i = choose|i: int| 0 <= i < a.len() && (#[trigger] a[i]).year == y;
            assert(a.contains(a[i]));
            let j = choose|j: int| 0 <= j < b.len() && b[j] == a[i];
            assert(b[j].year == y);
        }
        if has_year(b, y) {
            let i = choose|i: int| 0 <= i < b.len() && (#[trigger] b[i]).year == y;
            assert(b.contains(b[i]));
            let j = choose|j: int| 0 <= j < a.len() && a[j] == b[i];
            assert(a[j].year == y);
        }
    }
    assert forall|y: Seq<char>, c: Seq<char>| has_pair(a, y, c) <==> has_pair(b, y, c) by {
        if has_pair(a, y, c) {
            let i = choose|i: int| 0 <= i < a.len() && (#[trigger] a[i]).year == y && a[i].category == c;
            assert(a.contains(a[i]));
            let j = choose|j: int| 0 <= j < b.len() && b[j] == a[i];
            assert(b[j].year == y && b[j].category == c);
        }
        if has_pair(b, y, c) {
            let i = choose|i: int| 0 <= i < b.len() && (#[trigger] b[i]).year == y && b[i].category == c;
            assert(b.contains(b[i]));
            let j = choose|j: int| 0 <= j < a.len() && a[j] == b[i];
            assert(a[j].year == y && a[j].category == c);
        }
    }
    assert forall|y: Seq<char>, c: Seq<char>| pair_total(a, y, c) == pair_total(b, y, c) by {
        lemma_sum_perm(
            a,
            b,
            |e: EntryView|
                if e.year == y && e.category == c {
                    e.cost
                } else {
                    0
                },
        );
    }
    assert forall|y: Seq<char>| year_total(a, y) == year_total(b, y) by {
        lemma_sum_perm(
            a,
            b,
            |e: EntryView|
                if e.year == y {
                    e.cost
                } else {
                    0
                },
        );
    }
    assert forall|y: Seq<char>| #[trigger] category_totals(a).contains_key(y) implies category_totals(a)[y]
        == category_totals(b)[y] by {
        assert(category_totals(a)[y] =~= category_totals(b)[y]);
    }
    assert(category_totals(a) =~= category_totals(b));
    assert(year_totals(a) =~= year_totals(b));
}

} // verus!

verus! {

/// Summed cost per (year, category) pair, over the pairs that occur in the
/// entries it was built from.
pub struct CategoryTotals {
    years: Vec<String>,
    categories: Vec<String>,
    totals: Vec<i128>,
    source: Ghost<Seq<EntryView>>,
}

/// Summed cost per year, over the years that occur in the entries.
pub struct YearTotals {
    years: Vec<String>,
    totals: Vec<i128>,
    source: Ghost<Seq<EntryView>>,
}

pub open spec fn pair_seq(years: Seq<String>, categories: Seq<String>) -> Seq<
    (Seq<char>, Seq<char>),
> {
    Seq::new(years.len(), |j: int| (years[j]@, categories[j]@))
}

pub open spec fn text_seq(texts: Seq<String>) -> Seq<Seq<char>> {
    Seq::new(texts.len(), |j: int| texts[j]@)
}

/// The cells of a table of pair totals describe `s` exactly.
pub open spec fn pair_cells_of(
    ps: Seq<(Seq<char>, Seq<char>)>,
    totals: Seq<i128>,
    s: Seq<EntryView>,
) -> bool {
    &&& ps.len() == totals.len()
    &&& ps.no_duplicates()
    &&& forall|j: int|
        0 <= j < ps.len() ==> totals[j] == pair_total(s, (#[trigger] ps[j]).0, ps[j].1) && has_pair(
            s,
            ps[j].0,
            ps[j].1,
        )
    &&& forall|i: int| 0 <= i < s.len() ==> ps.contains(((#[trigger] s[i]).year, s[i].category))
}

proof fn lemma_pair_total_push(s: Seq<EntryView>, e: EntryView, y: Seq<char>, c: Seq<char>)
    ensures
        pair_total(s.push(e), y, c) == pair_total(s, y, c) + if e.year == y && e.category == c {
            e.cost
        } else {
            0
        },
{
    lemma_sum_push(
        s,
        |x: EntryView|
            if x.year == y && x.category == c {
                x.cost
            } else {
                0
            },
        e,
    );
}

/// Some pair among the first `j` of `ps` has year `y`.
pub open spec fn year_among(ps: Seq<(Seq<char>, Seq<char>)>, j: int, y: Seq<char>) -> bool {
    exists|q: int| 0 <= q < j && (#[trigger] ps[q]).0 == y
}

proof fn lemma_pair_total_zero(s: Seq<EntryView>, y: Seq<char>, c: Seq<char>)
    requires
        !has_pair(s, y, c),
    ensures
        pair_total(s, y, c) == 0,
    decreases s.len(),
{
    if s.len() > 0 {
        let e = s.last();
        assert(s[s.len() - 1] == e);
        assert(!has_pair(s.drop_last(), y, c)) by {
            if has_pair(s.drop_last(), y, c) {
                let k = choose|k: int| 0 <= k < s.len() - 1 && (#[trigger] s.drop_last()[k]).year == y && s.drop_last()[k].category == c;
                assert(s[k] == s.drop_last()[k]);
            }
        }
        lemma_pair_total_zero(s.drop_last(), y, c);
        assert(s =~= s.drop_last().push(e));
        lemma_pair_total_push(s.drop_last(), e, y, c);
    }
}

proof fn lemma_pairs_sum_absent(ps: Seq<(Seq<char>, Seq<char>)>, s: Seq<EntryView>, y: Seq<char>)
    requires
        forall|i: int| 0 <= i < ps.len() ==> (#[trigger] ps[i]).0 != y,
    ensures
        pairs_sum(ps, s, y) == 0,
    decreases ps.len(),
{
    if ps.len() > 0 {
        assert(ps.last() == ps[ps.len() - 1]);
        lemma_pairs_sum_absent(ps.drop_last(), s, y);
    }
}

impl View for CategoryTotals {
    type V = Map<Seq<char>, Map<Seq<char>, int>>;

    open spec fn view(&self) -> Map<Seq<char>, Map<Seq<char>, int>> {
        category_totals(self.source())
    }
}

impl CategoryTotals {
    /// The entries that the totals were built from.
    pub closed spec fn source(&self) -> Seq<EntryView> {
        self.source@
    }

    pub closed spec fn pairs(&self) -> Seq<(Seq<char>, Seq<char>)> {
        pair_seq(self.years@, self.categories@)
    }

    pub closed spec fn wf(&self) -> bool {
        &&& self.years.len() == self.categories.len()
        &&& pair_cells_of(self.pairs(), self.totals@, self.source@)
        &&& cost_fits(self.source@)
        &&& self.source@.len() <= usize::MAX
    }

    /// Folds every entry's cost into the bucket of its year and category.
    pub fn from_entries(entries: &Vec<Entry>) -> (r: CategoryTotals)
        ensures
            r.wf(),
            r.source() == views(entries@),
            r@ == category_totals(views(entries@)),
    {
        let ghost all = views(entries@);
        let mut years: Vec<String> = Vec::new();
        let mut categories: Vec<String> = Vec::new();
        let mut totals: Vec<i128> = Vec::new();
        let n = entries.len();
        let mut i: usize = 0;
        assert(cost_fits(all));
        while i < n
            invariant
                n == entries.len(),
                all == views(entries@),
                cost_fits(all),
                i <= n,
                years.len() == categories.len(),
                pair_cells_of(pair_seq(years@, categories@), totals@, all.take(i as int)),
            decreases n - i,
        {
            let e = &entries[i];
            let ghost s = all.take(i as int);
            let ghost s2 = all.take(i + 1);
            let ghost ps = pair_seq(years@, categories@);
            assert(s2 =~= s.push(e@));
            assert(cost_fits(s2));
            let m = years.len();
            let mut j: usize = 0;
            while j < m && !(crate::order::texts_equal(years[j].as_str(), e.year.as_str())
                && crate::order::texts_equal(categories[j].as_str(), e.category.as_str()))
                invariant
                    m == years.len() == categories.len(),
                    ps == pair_seq(years@, categories@),
                    j <= m,
                    forall|k: int| 0 <= k < j ==> #[trigger] ps[k] != (e@.year, e@.category),
                decreases m - j,
            {
                j = j + 1;
            }
            proof {
                assert forall|y: Seq<char>, c: Seq<char>| true implies pair_total(s2, y, c)
                    == pair_total(s, y, c) + if e@.year == y && e@.category == c {
                    e@.cost
                } else {
                    0
                } by {
                    lemma_pair_total_push(s, e@, y, c);
                }
                lemma_pair_bound(s2, e@.year, e@.category);
                assert(has_pair(s2, e@.year, e@.category)) by {
                    assert(s2[i as int] == e@);
                }
                assert forall|y: Seq<char>, c: Seq<char>| has_pair(s, y, c) implies has_pair(
                    s2,
                    y,
                    c,
                ) by {
                    let k = choose|k: int| 0 <= k < s.len() && (#[trigger] s[k]).year == y && s[k].category == c;
                    assert(s2[k] == s[k]);
                }
            }
            if j < m {
                assert(ps[j as int] == (e@.year, e@.category));
                let t = totals[j] + e.cost as i128;
                totals.set(j, t);
                proof {
                    let ps2 = pair_seq(years@, categories@);
                    assert(ps2 == ps);
                    assert forall|k: int| 0 <= k < i + 1 implies ps.contains(
                        ((#[trigger] s2[k]).year, s2[k].category),
                    ) by {
                        if k < i {
                            assert(s2[k] == s[k]);
                        } else {
                            assert(ps[j as int] == (s2[k].year, s2[k].category));
                        }
                    }
                }
            } else {
                years.push(e.year.clone());
                categories.push(e.category.clone());
                totals.push(e.cost as i128);
                proof {
                    let ps2 = pair_seq(years@, categories@);
                    assert(ps2 =~= ps.push((e@.year, e@.category)));
                    assert(!ps.contains((e@.year, e@.category)));
                    assert(!has_pair(s, e@.year, e@.category)) by {
                        if has_pair(s, e@.year, e@.category) {
                            let k = choose|k: int| 0 <= k < s.len() && (#[trigger] s[k]).year == e@.year && s[k].category == e@.category;
                            assert(ps.contains((s[k].year, s[k].category)));
                        }
                    }
                    lemma_pair_total_zero(s, e@.year, e@.category);
                    assert forall|k: int| 0 <= k < i + 1 implies ps2.contains(
                        ((#[trigger] s2[k]).year, s2[k].category),
                    ) by {
                        if k < i {
                            assert(s2[k] == s[k]);
                            let q = choose|q: int| 0 <= q < ps.len() && ps[q] == (s[k].year, s[k].category);
                            assert(ps2[q] == ps[q]);
                        } else {
                            assert(ps2[m as int] == (s2[k].year, s2[k].category));
                        }
                    }
                }
            }
            i = i + 1;
        }
        assert(all.take(n as int) =~= all);
        CategoryTotals { years, categories, totals, source: Ghost(all) }
    }

    /// The summed cost of `year` and `category`, if any entry has both.
    pub fn get(&self, year: &str, category: &str) -> (r: Option<i128>)
        requires
            self.wf(),
        ensures
            match r {
                Some(v) => self@.contains_key(year@) && self@[year@].contains_key(category@) && v
                    == self@[year@][category@],
                None => !(self@.contains_key(year@) && self@[year@].contains_key(category@)),
            },
    {
        let ghost ps = self.pairs();
        let ghost s = self.source@;
        let m = self.years.len();
        let mut j: usize = 0;
        while j < m
            invariant
                self.wf(),
                s == self.source@,
                m == self.years.len() == self.categories.len(),
                ps == self.pairs(),
                j <= m,
                forall|k: int| 0 <= k < j ==> #[trigger] ps[k] != (year@, category@),
            decreases m - j,
        {
            if crate::order::texts_equal(self.years[j].as_str(), year)
                && crate::order::texts_equal(self.categories[j].as_str(), category) {
                proof {
                    assert(ps[j as int] == (year@, category@));
                    assert(has_pair(s, year@, category@));
                    let k = choose|k: int| 0 <= k < s.len() && (#[trigger] s[k]).year == year@ && s[k].category == category@;
                    assert(has_year(s, year@));
                }
                return Some(self.totals[j]);
            }
            assert(ps[j as int] != (year@, category@));
            j = j + 1;
        }
        proof {
            if has_pair(s, year@, category@) {
                let k = choose|k: int| 0 <= k < s.len() && (#[trigger] s[k]).year == year@ && s[k].category == category@;
                assert(ps.contains((s[k].year, s[k].category)));
            }
        }
        None
    }

    /// The number of (year, category) pairs.
    pub fn len(&self) -> (r: usize)
        requires
            self.wf(),
        ensures
            r == self.pairs().len(),
            self.pairs().no_duplicates(),
            forall|y: Seq<char>, c: Seq<char>|
                #[trigger] self.pairs().contains((y, c)) <==> (self@.contains_key(y)
                    && self@[y].contains_key(c)),
    {
        proof {
            let s = self.source@;
            let ps = self.pairs();
            assert forall|y: Seq<char>, c: Seq<char>|
                #[trigger] ps.contains((y, c)) <==> (self@.contains_key(y)
                    && self@[y].contains_key(c)) by {
                if ps.contains((y, c)) {
                    let j = choose|j: int| 0 <= j < ps.len() && ps[j] == (y, c);
                    assert(has_pair(s, ps[j].0, ps[j].1));
                    let k = choose|k: int| 0 <= k < s.len() && (#[trigger] s[k]).year == y && s[k].category == c;
                    assert(has_year(s, y));
                }
                if self@.contains_key(y) && self@[y].contains_key(c) {
                    assert(has_pair(s, y, c));
                    let k = choose|k: int| 0 <= k < s.len() && (#[trigger] s[k]).year == y && s[k].category == c;
                    assert(ps.contains((s[k].year, s[k].category)));
                }
            }
        }
        self.years.len()
    }

    /// The year, category and summed cost of the pair at `j`.
    pub fn cell(&self, j: usize) -> (r: (&String, &String, i128))
        requires
            self.wf(),
            j < self.pairs().len(),
        ensures
            (r.0@, r.1@) == self.pairs()[j as int],
            self@.contains_key(r.0@),
            self@[r.0@].contains_key(r.1@),
            r.2 == self@[r.0@][r.1@],
    {
        proof {
            let s = self.source@;
            let ps = self.pairs();
            assert(has_pair(s, ps[j as int].0, ps[j as int].1));
            let k = choose|k: int| 0 <= k < s.len() && (#[trigger] s[k]).year == ps[j as int].0 && s[k].category == ps[j as int].1;
            assert(has_year(s, ps[j as int].0));
        }
        (&self.years[j], &self.categories[j], self.totals[j])
    }
}

impl View for YearTotals {
    type V = Map<Seq<char>, int>;

    open spec fn view(&self) -> Map<Seq<char>, int> {
        year_totals(self.source())
    }
}

impl YearTotals {
    /// The entries that the totals were built from.
    pub closed spec fn source(&self) -> Seq<EntryView> {
        self.source@
    }

    pub closed spec fn year_list(&self) -> Seq<Seq<char>> {
        text_seq(self.years@)
    }

    pub closed spec fn wf(&self) -> bool {
        let s = self.source@;
        let ys = text_seq(self.years@);
        &&& ys.len() == self.totals.len()
        &&& ys.no_duplicates()
        &&& forall|k: int|
            0 <= k < ys.len() ==> self.totals@[k] == year_total(s, #[trigger] ys[k]) && has_year(
                s,
                ys[k],
            )
        &&& forall|i: int| 0 <= i < s.len() ==> ys.contains((#[trigger] s[i]).year)
    }

    /// Sums, for each year, the totals of its categories.
    pub fn from_category_totals(ct: &CategoryTotals) -> (r: YearTotals)
        requires
            ct.wf(),
        ensures
            r.wf(),
            r.source() == ct.source(),
            r@ == year_totals(ct.source()),
    {
        let ghost s = ct.source@;
        let ghost ps = ct.pairs();
        let mut years: Vec<String> = Vec::new();
        let mut totals: Vec<i128> = Vec::new();
        let m = ct.years.len();
        let mut j: usize = 0;
        while j < m
            invariant
                ct.wf(),
                s == ct.source@,
                ps == ct.pairs(),
                m == ps.len(),
                j <= m,
                text_seq(years@).len() == totals.len(),
                text_seq(years@).no_duplicates(),
                forall|k: int|
                    0 <= k < totals.len() ==> totals@[k] == pairs_sum(
                        ps.take(j as int),
                        s,
                        #[trigger] text_seq(years@)[k],
                    ),
                forall|k: int|
                    0 <= k < totals.len() ==> year_among(ps, j as int, #[trigger] text_seq(years@)[k]),
                forall|q: int| 0 <= q < j ==> text_seq(years@).contains((#[trigger] ps[q]).0),
            decreases m - j,
        {
            let y = &ct.years[j];
            let ghost ys = text_seq(years@);
            let ghost p = ps[j as int];
            assert(p.0 == y@);
            let ghost pre = ps.take(j as int);
            let ghost pre2 = ps.take(j + 1);
            assert(pre2.drop_last() =~= pre);
            assert(pre2.last() == p);
            assert(forall|yy: Seq<char>| pairs_sum(pre2, s, yy) == pairs_sum(pre, s, yy) + if p.0 == yy {
                pair_total(s, p.0, p.1)
            } else {
                0
            });
            assert(pre2.no_duplicates()) by {
                assert forall|a: int, b: int| 0 <= a < b < pre2.len() implies pre2[a] != pre2[b] by {
                    assert(pre2[a] == ps[a] && pre2[b] == ps[b]);
                }
            }
            proof {
                lemma_pairs_sum_covered(pre2, s, y@);
                lemma_covered_bound(s, y@, pre2);
            }
            let n = years.len();
            let mut k: usize = 0;
            while k < n && !crate::order::texts_equal(years[k].as_str(), y.as_str())
                invariant
                    n == years.len(),
                    ys == text_seq(years@),
                    k <= n,
                    forall|q: int| 0 <= q < k ==> #[trigger] ys[q] != y@,
                decreases n - k,
            {
                k = k + 1;
            }
            if k < n {
                assert(ys[k as int] == y@);
                let t = totals[k] + ct.totals[j];
                totals.set(k, t);
                proof {
                    assert forall|q: int| 0 <= q < j + 1 implies text_seq(years@).contains(
                        (#[trigger] ps[q]).0,
                    ) by {
                        if q == j {
                            assert(ys[k as int] == ps[q].0);
                        }
                    }
                }
            } else {
                proof {
                    assert forall|q: int| 0 <= q < pre.len() implies (#[trigger] pre[q]).0 != y@ by {
                        assert(pre[q] == ps[q]);
                        if ps[q].0 == y@ {
                            let w = choose|w: int| 0 <= w < ys.len() && ys[w] == ps[q].0;
                        }
                    }
                    lemma_pairs_sum_absent(pre, s, y@);
                }
                years.push(y.clone());
                totals.push(ct.totals[j]);
                proof {
                    let ys2 = text_seq(years@);
                    assert(ys2 =~= ys.push(y@));
                    assert(!ys.contains(y@));
                    assert forall|q: int| 0 <= q < j + 1 implies ys2.contains(
                        (#[trigger] ps[q]).0,
                    ) by {
                        if q == j {
                            assert(ys2[n as int] == ps[q].0);
                        } else {
                            let w = choose|w: int| 0 <= w < ys.len() && ys[w] == ps[q].0;
                            assert(ys2[w] == ys[w]);
                        }
                    }
                    assert forall|kk: int| 0 <= kk < totals.len() implies year_among(ps, j + 1, #[trigger] ys2[kk]) by {
                        if kk < n {
                            assert(ys2[kk] == ys[kk]);
                            let q = choose|q: int| 0 <= q < j && (#[trigger] ps[q]).0 == ys[kk];
                            assert(ps[q].0 == ys2[kk]);
                        } else {
                            assert(ps[j as int].0 == ys2[kk]);
                        }
                    }
                }
            }
            j = j + 1;
        }
        let ghost ys = text_seq(years@);
        assert(ps.take(m as int) =~= ps);
        proof {
            assert forall|k: int| 0 <= k < ys.len() implies totals@[k] == year_total(s, #[trigger] ys[k]) && has_year(s, ys[k]) by {
                lemma_pairs_sum_covered(ps, s, ys[k]);
                lemma_covered_all(s, ys[k], ps);
                let q = choose|q: int| 0 <= q < m && (#[trigger] ps[q]).0 == ys[k];
                assert(has_pair(s, ps[q].0, ps[q].1));
                let w = choose|w: int| 0 <= w < s.len() && (#[trigger] s[w]).year == ps[q].0 && s[w].category == ps[q].1;
            }
            assert forall|i: int| 0 <= i < s.len() implies ys.contains((#[trigger] s[i]).year) by {
                assert(ps.contains((s[i].year, s[i].category)));
                let q = choose|q: int| 0 <= q < ps.len() && ps[q] == (s[i].year, s[i].category);
            }
        }
        YearTotals { years, totals, source: Ghost(s) }
    }

    /// The summed cost of `year`, if any entry has it.
    pub fn get(&self, year: &str) -> (r: Option<i128>)
        requires
            self.wf(),
        ensures
            match r {
                Some(v) => self@.contains_key(year@) && v == self@[year@],
                None => !self@.contains_key(year@),
            },
    {
        let ghost ys = self.year_list();
        let n = self.years.len();
        let mut k: usize = 0;
        while k < n
            invariant
                self.wf(),
                n == self.years.len(),
                ys == self.year_list(),
                k <= n,
                forall|q: int| 0 <= q < k ==> #[trigger] ys[q] != year@,
            decreases n - k,
        {
            if crate::order::texts_equal(self.years[k].as_str(), year) {
                assert(ys[k as int] == year@);
                return Some(self.totals[k]);
            }
            assert(ys[k as int] != year@);
            k = k + 1;
        }
        proof {
            let s = self.source@;
            if has_year(s, year@) {
                let i = choose|i: int| 0 <= i < s.len() && (#[trigger] s[i]).year == year@;
                assert(ys.contains(s[i].year));
            }
        }
        None
    }

    /// The number of years.
    pub fn len(&self) -> (r: usize)
        requires
            self.wf(),
        ensures
            r == self.year_list().len(),
            self.year_list().no_duplicates(),
            forall|y: Seq<char>| #[trigger] self.year_list().contains(y) <==> self@.contains_key(y),
    {
        proof {
            let s = self.source@;
            let ys = self.year_list();
            assert forall|y: Seq<char>| #[trigger] ys.contains(y) <==> self@.contains_key(y) by {
                if ys.contains(y) {
                    let j = choose|j: int| 0 <= j < ys.len() && ys[j] == y;
                    assert(has_year(s, ys[j]));
                }
                if self@.contains_key(y) {
                    let k = choose|k: int| 0 <= k < s.len() && (#[trigger] s[k]).year == y;
                    assert(ys.contains(s[k].year));
                }
            }
        }
        self.years.len()
    }

    /// The year at `k` and its summed cost.
    pub fn year_at(&self, k: usize) -> (r: (&String, i128))
        requires
            self.wf(),
            k < self.year_list().len(),
        ensures
            r.0@ == self.year_list()[k as int],
            self@.contains_key(r.0@),
            r.1 == self@[r.0@],
    {
        assert(self.year_list()[k as int] == self.years@[k as int]@);
        (&self.years[k], self.totals[k])
    }
}

} // verus!
