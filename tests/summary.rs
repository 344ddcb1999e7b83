use csv_summary::aggregator::{
    check_permutation, ColumnAggregator, ColumnKind, ColumnSummary, NumberTally, Phase, Step,
    SummaryError,
};
use csv_summary::date::{parse_date_from_text, CalendarDate, PossibleDate};
use csv_summary::encapsulators::{ColumnType, DateColumn, TextColumn};
use csv_summary::median::{median_positions, total_count};
use csv_summary::pipeline::{classify_cell, classify_row, RowError};

fn ymd(year: i32, month: u32, day: u32) -> CalendarDate {
    CalendarDate { year, month, day }
}

fn number_text(cell: &str) -> Option<String> {
    cell.parse::<f64>().ok().map(|v| v.to_string())
}

fn cell(text: &str) -> ColumnType {
    classify_cell(text, number_text(text))
}

#[test]
fn parses_year_first_date() {
    assert_eq!(parse_date_from_text("2021-05-01"), Some(ymd(2021, 5, 1)));
    assert_eq!(parse_date_from_text("2021/5/1"), Some(ymd(2021, 5, 1)));
}

#[test]
fn parses_day_first_date() {
    assert_eq!(parse_date_from_text("01-12-2021"), Some(ymd(2021, 12, 1)));
    assert_eq!(parse_date_from_text("1-2-2021"), Some(ymd(2021, 2, 1)));
    assert_eq!(parse_date_from_text("31.12.1999"), Some(ymd(1999, 12, 31)));
}

#[test]
fn two_runs_are_no_date() {
    assert_eq!(parse_date_from_text("2021-05"), None);
    assert_eq!(parse_date_from_text("05-2021"), None);
    assert_eq!(parse_date_from_text("12"), None);
    assert_eq!(parse_date_from_text(""), None);
}

#[test]
fn invalid_parts_are_no_date() {
    assert_eq!(parse_date_from_text("2021-13-01"), None);
    assert_eq!(parse_date_from_text("2021-02-29"), None);
    assert_eq!(parse_date_from_text("2020-02-29"), Some(ymd(2020, 2, 29)));
    assert_eq!(parse_date_from_text("2021-00-10"), None);
    assert_eq!(parse_date_from_text("99999999999-1-2021"), None);
    assert_eq!(parse_date_from_text("hello"), None);
    assert_eq!(parse_date_from_text("a2021-05-01"), None);
}

#[test]
fn only_first_three_runs_count() {
    assert_eq!(parse_date_from_text("2021-05-01-99"), Some(ymd(2021, 5, 1)));
    assert_eq!(parse_date_from_text("2021-05-01T10:30"), Some(ymd(2021, 5, 1)));
}

#[test]
fn second_four_digit_run_is_ignored() {
    assert_eq!(parse_date_from_text("2021-2022-05"), None);
    assert_eq!(parse_date_from_text("5-2021-3"), Some(ymd(2021, 3, 5)));
}

#[test]
fn calendar_date_validity() {
    assert_eq!(CalendarDate::from_ymd(2000, 2, 29), Some(ymd(2000, 2, 29)));
    assert_eq!(CalendarDate::from_ymd(1900, 2, 29), None);
    assert_eq!(CalendarDate::from_ymd(2021, 4, 31), None);
    assert_eq!(CalendarDate::from_ymd(262143, 1, 1), None);
    assert!(ymd(2021, 1, 1).is_before(&ymd(2021, 1, 2)));
    assert!(!ymd(2021, 1, 2).is_before(&ymd(2021, 1, 2)));
    assert!(ymd(2020, 12, 31).is_before(&ymd(2021, 1, 1)));
}

#[test]
fn possible_date_setters() {
    let mut p = PossibleDate::new();
    assert_eq!(p.get_year(), None);
    p.set_year(2021);
    p.set_month(5);
    p.set_day(1);
    assert_eq!(p.get_year(), Some(2021));
    assert_eq!(p.get_month(), Some(5));
    assert_eq!(p.get_day(), Some(1));
}

#[test]
fn text_column_counts_distinct() {
    let mut col = TextColumn::new();
    for t in ["b", "a", "b", "c", "a"] {
        col.add_to_categories(t.to_string());
    }
    assert_eq!(col.get_category_count(), 3);
    assert_eq!(col.get_categories(), vec!["b".to_string(), "a".to_string(), "c".to_string()]);
    let copy = col.build_summary();
    assert_eq!(copy.get_category_count(), 3);
    assert!(copy.contains(&"c".to_string()));
    assert!(!copy.contains(&"d".to_string()));
}

#[test]
fn text_count_ignores_order() {
    let mut one = TextColumn::new();
    let mut two = TextColumn::new();
    for t in ["x", "y", "x", "z"] {
        one.add_to_categories(t.to_string());
    }
    for t in ["z", "z", "y", "x"] {
        two.add_to_categories(t.to_string());
    }
    assert_eq!(one.get_category_count(), 3);
    assert_eq!(two.get_category_count(), 3);
}

#[test]
fn date_column_range() {
    let mut col = DateColumn::new();
    assert_eq!(col.get_earliest(), None);
    col.add_date(ymd(2021, 5, 1));
    col.add_date(ymd(2021, 1, 1));
    col.add_date(ymd(2021, 12, 1));
    assert_eq!(col.get_earliest(), Some(ymd(2021, 1, 1)));
    assert_eq!(col.get_latest(), Some(ymd(2021, 12, 1)));
    let copy = col.build_summary();
    assert_eq!(copy.get_latest(), Some(ymd(2021, 12, 1)));
}

#[test]
fn classify_prefers_number_then_date() {
    match cell("10") {
        ColumnType::Number(k) => assert_eq!(k, "10"),
        _ => panic!("expected a number"),
    }
    match cell("2021-05-01") {
        ColumnType::Date(d) => assert_eq!(d, ymd(2021, 5, 1)),
        _ => panic!("expected a date"),
    }
    match cell("hello") {
        ColumnType::Text(t) => assert_eq!(t, "hello"),
        _ => panic!("expected text"),
    }
    match classify_cell("2021", Some("2021".to_string())) {
        ColumnType::Number(k) => assert_eq!(k, "2021"),
        _ => panic!("expected a number"),
    }
}

#[test]
fn short_row_is_refused() {
    let row = vec!["1".to_string()];
    let nums = vec![number_text("1")];
    assert!(matches!(classify_row(&row, &nums, 2), Err(RowError::ShortRow)));
    let out = classify_row(&row, &nums, 1).unwrap();
    assert_eq!(out.len(), 1);
    assert!(matches!(&out[0], ColumnType::Number(k) if k == "1"));
}

#[test]
fn median_odd_even_and_repeated() {
    // values 1, 2, 3
    assert_eq!(median_positions(&vec![1, 1, 1]), (1, 1));
    // values 1, 2, 3, 4
    assert_eq!(median_positions(&vec![1, 1, 1, 1]), (1, 2));
    // values 5, 5, 5
    assert_eq!(median_positions(&vec![3]), (0, 0));
    // values a, a, b, c: middle entries a and b
    assert_eq!(median_positions(&vec![2, 1, 1]), (0, 1));
    // values a, b, b, b
    assert_eq!(median_positions(&vec![1, 3]), (1, 1));
    // values a, a, a, b
    assert_eq!(median_positions(&vec![3, 1]), (0, 0));
    assert_eq!(total_count(&vec![2, 1, 1]), Some(4));
    assert_eq!(total_count(&vec![u64::MAX, 1]), None);
}

#[test]
fn median_matches_sorted_list() {
    let values: Vec<f64> = vec![7.0, 1.0, 3.0, 3.0, 9.0, 1.0, 3.0, 8.0];
    let mut distinct: Vec<f64> = values.clone();
    distinct.sort_by(|a, b| a.partial_cmp(b).unwrap());
    distinct.dedup();
    let counts: Vec<u64> = distinct
        .iter()
        .map(|d| values.iter().filter(|v| *v == d).count() as u64)
        .collect();
    let (lo, hi) = median_positions(&counts);
    let median = (distinct[lo] + distinct[hi]) / 2.0;
    let mut sorted = values.clone();
    sorted.sort_by(|a, b| a.partial_cmp(b).unwrap());
    let direct = (sorted[3] + sorted[4]) / 2.0;
    assert_eq!(median, direct);
}

#[test]
fn aggregator_commits_to_first_non_text_kind() {
    let mut agg = ColumnAggregator::new();
    assert_eq!(agg.receive(cell("n/a")), Step::Accepted);
    assert_eq!(agg.kind, ColumnKind::Text);
    assert_eq!(agg.receive(cell("4")), Step::Accepted);
    assert_eq!(agg.kind, ColumnKind::Number);
    assert_eq!(agg.receive(cell("2021-05-01")), Step::Accepted);
    assert_eq!(agg.kind, ColumnKind::Number);
    assert_eq!(agg.receive(cell("4")), Step::Accepted);
    assert_eq!(agg.numbers.row_count, 2);
    assert_eq!(agg.numbers.keys, vec!["4".to_string()]);
    assert_eq!(agg.numbers.counts, vec![2]);
    assert_eq!(agg.receive(ColumnType::FileEnd), Step::Finished);
    assert_eq!(agg.phase, Phase::Finalized);
    assert_eq!(agg.receive(cell("5")), Step::Dropped);
    match agg.finish() {
        Ok(ColumnSummary::Number(t)) => assert_eq!(t.row_count, 2),
        _ => panic!("expected a numeric summary"),
    }
}

#[test]
fn end_of_stream_on_empty_column_does_not_crash() {
    let mut agg = ColumnAggregator::new();
    assert_eq!(agg.receive(ColumnType::FileEnd), Step::Finished);
    match agg.finish() {
        Ok(ColumnSummary::Text(t)) => assert_eq!(t.get_category_count(), 0),
        _ => panic!("expected an empty text summary"),
    }
    let mut numeric = ColumnAggregator::new();
    numeric.kind = ColumnKind::Number;
    assert_eq!(numeric.receive(ColumnType::FileEnd), Step::Finished);
    assert!(matches!(numeric.finish(), Err(SummaryError::EmptyColumn)));
}

#[test]
fn end_to_end_scenario() {
    let headers = ["id", "score", "seen"];
    let rows = [["1", "10", "2021-05-01"], ["2", "20", "2021-01-01"], ["3", "10", "01-12-2021"]];
    let mut aggs: Vec<ColumnAggregator> = headers.iter().map(|_| ColumnAggregator::new()).collect();
    for row in rows.iter() {
        let cells: Vec<String> = row.iter().map(|c| c.to_string()).collect();
        let nums: Vec<Option<String>> = row.iter().map(|c| number_text(c)).collect();
        let values = classify_row(&cells, &nums, headers.len()).unwrap();
        for (agg, v) in aggs.iter_mut().zip(values) {
            assert_eq!(agg.receive(v), Step::Accepted);
        }
    }
    let mut summaries = Vec::new();
    for mut agg in aggs {
        assert_eq!(agg.receive(ColumnType::FileEnd), Step::Finished);
        summaries.push(agg.finish());
    }
    // id: every value is a number, so the column is numeric with three keys
    match &summaries[0] {
        Ok(ColumnSummary::Number(t)) => assert_eq!(t.row_count, 3),
        _ => panic!("expected a numeric id column"),
    }
    match &summaries[1] {
        Ok(ColumnSummary::Number(t)) => {
            assert_eq!(t.row_count, 3);
            assert_eq!(t.keys, vec!["10".to_string(), "20".to_string()]);
            assert_eq!(t.counts, vec![2, 1]);
            let keys: Vec<f64> = t.keys.iter().map(|k| k.parse::<f64>().unwrap()).collect();
            let sum: f64 = keys.iter().zip(t.counts.iter()).map(|(k, c)| k * *c as f64).sum();
            assert_eq!(sum, 40.0);
            assert!((sum / t.row_count as f64 - 13.3333).abs() < 1e-4);
            let (lo, hi) = median_positions(&t.counts);
            assert_eq!((keys[lo] + keys[hi]) / 2.0, 10.0);
        }
        _ => panic!("expected a numeric score column"),
    }
    match &summaries[2] {
        Ok(ColumnSummary::Date(d)) => {
            assert_eq!(d.get_earliest(), Some(ymd(2021, 1, 1)));
            assert_eq!(d.get_latest(), Some(ymd(2021, 12, 1)));
        }
        _ => panic!("expected a date column"),
    }
}

#[test]
fn text_only_column_summary() {
    let mut agg = ColumnAggregator::new();
    for t in ["red", "blue", "red", "green", "blue"] {
        assert_eq!(agg.receive(cell(t)), Step::Accepted);
    }
    agg.receive(ColumnType::FileEnd);
    match agg.finish() {
        Ok(ColumnSummary::Text(t)) => {
            assert_eq!(t.get_category_count(), 3);
            assert_eq!(t.get_categories().len(), 3);
        }
        _ => panic!("expected a text summary"),
    }
}

#[test]
fn permutation_check() {
    assert!(check_permutation(&vec![2, 0, 1], 3));
    assert!(check_permutation(&vec![], 0));
    assert!(!check_permutation(&vec![0, 0, 1], 3));
    assert!(!check_permutation(&vec![0, 3, 1], 3));
    assert!(!check_permutation(&vec![0, 1], 3));
}

#[test]
fn tally_median_keys() {
    let mut tally = NumberTally::new();
    for k in ["30", "10", "20", "10", "30", "30"] {
        tally.add(k.to_string());
    }
    assert_eq!(tally.row_count, 6);
    assert_eq!(tally.keys, vec!["30".to_string(), "10".to_string(), "20".to_string()]);
    assert_eq!(tally.counts, vec![3, 2, 1]);
    // ascending: 10 10 20 30 30 30; middle entries 20 and 30
    assert_eq!(tally.median_keys(&vec![1, 2, 0]), Some((2, 0)));
    assert_eq!(tally.median_keys(&vec![1, 1, 0]), None);
    assert_eq!(NumberTally::new().median_keys(&vec![]), None);
}
