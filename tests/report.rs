use csv::StringRecord;
use expense_report::amount::parse_amount;
use expense_report::entry::{category_from_trimmed, check_filter, note_from_trimmed, date_year, equals_ignore_ascii_case, Entry, FilterOutcome};
use expense_report::order::{compare_entries, compare_text, sort_entries};
use expense_report::pipeline::{collect_entries, Report};
use expense_report::record::trim;
use expense_report::render::{decimal_text, format_amount};
use expense_report::totals::{CategoryTotals, YearTotals};

fn row(fields: &[&str]) -> StringRecord {
    StringRecord::from(fields.to_vec())
}

fn health_row(category: &str, cost: &str, date: &str, note: &str) -> StringRecord {
    row(&["id", "health", category, "_", cost, "_", "_", date, "_", "_", note])
}

fn entry(year: &str, category: &str, cost: i64) -> Entry {
    Entry { year: year.to_string(), category: category.to_string(), cost, note: None }
}

#[test]
fn end_to_end_example() {
    let records = vec![
        row(&["id", "health", "Dental", "_", "120.50", "_", "_", "2021-03-01", "_", "_", "cleaning"]),
        row(&["id", "health", "Dental", "_", "80", "_", "_", "2021-07-10", "_", "_", ""]),
        row(&["id", "other", "X", "_", "50", "_", "_", "2021-01-01", "_", "_", "_"]),
    ];
    let report = Report::build(&records, "health");
    assert_eq!(report.entries.len(), 2);
    assert_eq!(report.entries[0].cost, 80_000_000);
    assert_eq!(report.entries[1].cost, 120_500_000);
    assert_eq!(report.entries[0].year, "2021");
    assert_eq!(report.entries[0].category, "Dental");
    assert_eq!(report.entries[0].note, None);
    assert_eq!(report.entries[1].note, Some("cleaning".to_string()));
    assert_eq!(report.entries[0].render(), "[2021] Dental: $80.00");
    assert_eq!(report.entries[1].render(), "[2021] Dental: $120.50 (cleaning)");
    assert_eq!(report.category_totals.get("2021", "Dental"), Some(200_500_000));
    assert_eq!(report.category_totals.get("2021", "X"), None);
    assert_eq!(report.year_totals.get("2021"), Some(200_500_000));
    assert_eq!(report.year_totals.len(), 1);
    assert_eq!(format_amount(200_500_000), "200.50");
}

#[test]
fn mismatched_filter_rejects_row() {
    let r = row(&["id", "other", "Dental", "_", "10", "_", "_", "2021-01-01"]);
    assert!(Entry::new(&r).is_none());
    assert!(matches!(check_filter(&r, "health"), FilterOutcome::Mismatch));
}

#[test]
fn filter_match_ignores_ascii_case() {
    let r = row(&["id", "HeAlTh", "Dental", "_", "10", "_", "_", "2021-01-01"]);
    assert!(matches!(check_filter(&r, "health"), FilterOutcome::Match));
    let e = Entry::new(&r).unwrap();
    assert_eq!(e.cost, 10_000_000);
    assert_eq!(e.note, None);
    assert!(equals_ignore_ascii_case("Health", "hEALTH"));
    assert!(!equals_ignore_ascii_case("health", "healt"));
    assert!(!equals_ignore_ascii_case("health", "wealth"));
}

#[test]
fn absent_filter_column_is_no_rejection() {
    let only_id = row(&["id"]);
    assert!(matches!(check_filter(&only_id, "health"), FilterOutcome::Absent));
    // without a filter column there is no category column either
    assert!(Entry::new(&only_id).is_none());
    let empty = row(&[]);
    assert!(matches!(check_filter(&empty, "health"), FilterOutcome::Absent));
    assert!(Entry::new(&empty).is_none());
}

#[test]
fn blank_category_becomes_unknown() {
    let e = Entry::new(&health_row("   ", "5", "2020-01-01", "")).unwrap();
    assert_eq!(e.category, "Unknown");
    let e = Entry::new(&health_row("", "5", "2020-01-01", "")).unwrap();
    assert_eq!(e.category, "Unknown");
}

#[test]
fn category_and_note_are_trimmed() {
    let e = Entry::new(&health_row("  Dental ", "5", "2020-01-01", "  checkup ")).unwrap();
    assert_eq!(e.category, "Dental");
    assert_eq!(e.note, Some("checkup".to_string()));
    let e = Entry::new(&health_row("Dental", "5", "2020-01-01", "   ")).unwrap();
    assert_eq!(e.note, None);
}

#[test]
fn missing_note_column_is_no_error() {
    let r = row(&["id", "health", "Eye", "_", "7.25", "_", "_", "2019-05-05"]);
    let e = Entry::new(&r).unwrap();
    assert_eq!(e.note, None);
    assert_eq!(e.year, "2019");
    assert_eq!(e.cost, 7_250_000);
}

#[test]
fn missing_category_column_rejects_row() {
    assert!(Entry::new(&row(&["id", "health"])).is_none());
}

#[test]
fn missing_date_rejects_row() {
    let r = row(&["id", "health", "Dental", "_", "10", "_", "_"]);
    assert!(Entry::new(&r).is_none());
}

#[test]
fn empty_year_rejects_row() {
    assert!(Entry::new(&health_row("Dental", "10", "", "")).is_none());
    assert!(Entry::new(&health_row("Dental", "10", "-03-01", "")).is_none());
}

#[test]
fn unparseable_cost_rejects_row() {
    assert!(Entry::new(&health_row("Dental", "N/A", "2021-01-01", "")).is_none());
    let r = row(&["id", "health", "Dental", "_"]);
    assert!(Entry::new(&r).is_none());
}

#[test]
fn configured_target_category() {
    let r = row(&["id", "travel", "Train", "_", "12", "_", "_", "2022-02-02"]);
    assert!(Entry::new(&r).is_none());
    let e = Entry::parse(&r, "Travel").unwrap();
    assert_eq!(e.category, "Train");
    assert_eq!(e.year, "2022");
}

#[test]
fn amounts_parse_exactly() {
    assert_eq!(parse_amount("120.50"), Some(120_500_000));
    assert_eq!(parse_amount("80"), Some(80_000_000));
    assert_eq!(parse_amount("-3.5"), Some(-3_500_000));
    assert_eq!(parse_amount("+2"), Some(2_000_000));
    assert_eq!(parse_amount(".5"), Some(500_000));
    assert_eq!(parse_amount("5."), Some(5_000_000));
    assert_eq!(parse_amount("0"), Some(0));
    assert_eq!(parse_amount("1.23456789"), Some(1_234_567));
    assert_eq!(parse_amount("1000000000000"), Some(1_000_000_000_000_000_000));
    assert_eq!(parse_amount("-1000000000000"), Some(-1_000_000_000_000_000_000));
}

#[test]
fn amounts_that_are_rejected() {
    for text in ["1e", "e5", "1e+", "1e-", "1e3.5", "1ee3", "1e3e1", ".e1", "1E--3", "infinity", "", ".", "-", "+", "N/A", "1.2.3", " 80", "80 ", "inf", "NaN", "--1", "1-"] {
        assert_eq!(parse_amount(text), None, "{}", text);
    }
    assert_eq!(parse_amount("1000000000000.000001"), None);
    assert_eq!(parse_amount("99999999999999999999999999"), None);
    assert_eq!(parse_amount("1e13"), None);
    assert_eq!(parse_amount("1e99999999999999999999999"), None);
}

#[test]
fn amounts_with_exponent() {
    assert_eq!(parse_amount("1e3"), Some(1_000_000_000));
    assert_eq!(parse_amount("2.5E2"), Some(250_000_000));
    assert_eq!(parse_amount("1e-2"), Some(10_000));
    assert_eq!(parse_amount("1e+3"), Some(1_000_000_000));
    assert_eq!(parse_amount("-2e0"), Some(-2_000_000));
    assert_eq!(parse_amount("1.5e-1"), Some(150_000));
    assert_eq!(parse_amount("1.e1"), Some(10_000_000));
    assert_eq!(parse_amount(".5e1"), Some(5_000_000));
    assert_eq!(parse_amount("123456789e-9"), Some(123_456));
    assert_eq!(parse_amount("1e-7"), Some(0));
    assert_eq!(parse_amount("1e-99999999999999999999999"), Some(0));
    assert_eq!(parse_amount("0e99999999999999999999999"), Some(0));
    assert_eq!(parse_amount("1e12"), Some(1_000_000_000_000_000_000));
    assert_eq!(parse_amount("0.001e15"), Some(1_000_000_000_000_000_000));
}

#[test]
fn exponent_cost_row_is_accepted() {
    let e = Entry::new(&health_row("Dental", "1e3", "2021-01-01", "")).unwrap();
    assert_eq!(e.cost, 1_000_000_000);
    assert_eq!(e.render(), "[2021] Dental: $1000.00");
}

#[test]
fn trimmed_texts_become_category_and_note() {
    assert_eq!(category_from_trimmed(String::new()), "Unknown");
    assert_eq!(category_from_trimmed("Dental".to_string()), "Dental");
    assert_eq!(note_from_trimmed(String::new()), None);
    assert_eq!(note_from_trimmed("x".to_string()), Some("x".to_string()));
}

#[test]
fn year_is_text_before_first_dash() {
    assert_eq!(date_year("2021-03-01"), "2021");
    assert_eq!(date_year("2021"), "2021");
    assert_eq!(date_year("-5"), "");
    assert_eq!(date_year(""), "");
}

#[test]
fn text_order_is_lexicographic() {
    assert_eq!(compare_text("2020", "2021"), -1);
    assert_eq!(compare_text("b", "a"), 1);
    assert_eq!(compare_text("ab", "ab"), 0);
    assert_eq!(compare_text("ab", "abc"), -1);
    assert_eq!(compare_text("Z", "a"), -1);
}

#[test]
fn entry_order_is_total_and_sort_is_ordered() {
    let a = entry("2021", "Dental", 5);
    let b = entry("2021", "Dental", 7);
    let c = entry("2020", "Zoo", 100);
    let d = entry("2021", "Animal", 100);
    assert_eq!(compare_entries(&a, &b), -1);
    assert_eq!(compare_entries(&b, &a), 1);
    assert_eq!(compare_entries(&a, &entry("2021", "Dental", 5)), 0);
    assert_eq!(compare_entries(&c, &a), -1);
    assert_eq!(compare_entries(&d, &a), -1);
    let sorted = sort_entries(vec![b, a, d, c]);
    let keys: Vec<(String, String, i64)> =
        sorted.iter().map(|e| (e.year.clone(), e.category.clone(), e.cost)).collect();
    assert_eq!(
        keys,
        vec![
            ("2020".to_string(), "Zoo".to_string(), 100),
            ("2021".to_string(), "Animal".to_string(), 100),
            ("2021".to_string(), "Dental".to_string(), 5),
            ("2021".to_string(), "Dental".to_string(), 7),
        ]
    );
    for w in sorted.windows(2) {
        assert!(compare_entries(&w[0], &w[1]) <= 0);
    }
}

#[test]
fn negative_costs_sort_before_positive() {
    let sorted = sort_entries(vec![entry("2021", "A", 3), entry("2021", "A", -4), entry("2021", "A", 0)]);
    let costs: Vec<i64> = sorted.iter().map(|e| e.cost).collect();
    assert_eq!(costs, vec![-4, 0, 3]);
    assert!(sort_entries(vec![]).is_empty());
}

#[test]
fn totals_ignore_entry_order() {
    let forward = vec![
        entry("2020", "A", 1_000_000),
        entry("2021", "B", 2_500_000),
        entry("2020", "A", 3_000_000),
        entry("2020", "C", -500_000),
    ];
    let backward: Vec<Entry> = forward
        .iter()
        .rev()
        .map(|e| entry(&e.year, &e.category, e.cost))
        .collect();
    let ct1 = CategoryTotals::from_entries(&forward);
    let ct2 = CategoryTotals::from_entries(&backward);
    let yt1 = YearTotals::from_category_totals(&ct1);
    let yt2 = YearTotals::from_category_totals(&ct2);
    for (y, c) in [("2020", "A"), ("2021", "B"), ("2020", "C"), ("2021", "A"), ("2019", "A")] {
        assert_eq!(ct1.get(y, c), ct2.get(y, c));
    }
    for y in ["2020", "2021", "2019"] {
        assert_eq!(yt1.get(y), yt2.get(y));
    }
    assert_eq!(ct1.get("2020", "A"), Some(4_000_000));
    assert_eq!(ct1.get("2021", "A"), None);
    assert_eq!(yt1.get("2020"), Some(3_500_000));
    assert_eq!(yt1.get("2021"), Some(2_500_000));
    assert_eq!(yt1.get("2019"), None);
    assert_eq!(ct1.len(), 3);
}

#[test]
fn year_total_is_sum_of_its_categories() {
    let entries = vec![
        entry("2020", "A", 1_000_000),
        entry("2020", "B", 2_000_000),
        entry("2021", "A", 4_000_000),
        entry("2020", "A", 8_000_000),
        entry("2020", "C", 16_000_000),
    ];
    let ct = CategoryTotals::from_entries(&entries);
    let yt = YearTotals::from_category_totals(&ct);
    for k in 0..yt.len() {
        let (year, total) = yt.year_at(k);
        let mut sum: i128 = 0;
        for j in 0..ct.len() {
            let (y, _, t) = ct.cell(j);
            if y == year {
                sum += t;
            }
        }
        assert_eq!(sum, total);
    }
    assert_eq!(yt.get("2020"), Some(27_000_000));
}

#[test]
fn empty_input_gives_empty_totals() {
    let report = Report::build(&vec![], "health");
    assert!(report.entries.is_empty());
    assert_eq!(report.category_totals.len(), 0);
    assert_eq!(report.year_totals.len(), 0);
}

#[test]
fn collect_keeps_row_order_and_skips_rejections() {
    let records = vec![
        health_row("B", "2", "2022-01-01", ""),
        health_row("A", "N/A", "2022-01-01", ""),
        health_row("A", "1", "2021-01-01", "x"),
    ];
    let entries = collect_entries(&records, "health");
    assert_eq!(entries.len(), 2);
    assert_eq!(entries[0].category, "B");
    assert_eq!(entries[1].category, "A");
}

#[test]
fn amounts_render_with_two_places() {
    assert_eq!(format_amount(120_500_000), "120.50");
    assert_eq!(format_amount(80_000_000), "80.00");
    assert_eq!(format_amount(0), "0.00");
    assert_eq!(format_amount(1_234_567), "1.23");
    assert_eq!(format_amount(1_235_000), "1.24");
    assert_eq!(format_amount(-3_500_000), "-3.50");
    assert_eq!(format_amount(-4_999), "0.00");
    assert_eq!(format_amount(-5_000), "-0.01");
    assert_eq!(format_amount(i128::MIN), "-170141183460469231731687303715884.11");
    assert_eq!(decimal_text(0), "0");
    assert_eq!(decimal_text(1234567890), "1234567890");
}

#[test]
fn entry_line_with_note() {
    let e = Entry {
        year: "2023".to_string(),
        category: "Vision".to_string(),
        cost: 9_999_000,
        note: Some("glasses".to_string()),
    };
    assert_eq!(e.render(), "[2023] Vision: $10.00 (glasses)");
}

#[test]
fn trim_strips_white_space_at_both_ends() {
    assert_eq!(trim("  a b  "), "a b");
    assert_eq!(trim("\u{3000}x\t\n"), "x");
    assert_eq!(trim("\u{a0}\u{2009} "), "");
    assert_eq!(trim(""), "");
    assert_eq!(trim("plain"), "plain");
    assert_eq!(trim("\u{200b}z"), "\u{200b}z");
}
