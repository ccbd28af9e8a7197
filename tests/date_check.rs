use date_check::date::Date;
use date_check::extract::collect_dates_from_file;
use date_check::extract::parse_year;
use date_check::extract::DATE_PATTERN;
use date_check::report::render_report;
use date_check::triage::collect_dates;
use date_check::triage::filter_dates;
use date_check::triage::path_less;
use regex::Regex;

fn d(year: u32, month: u32) -> Date {
    Date { year, month }
}

#[test]
fn test_months_since() {
    let date1 = Date {
        year: 2020,
        month: 3,
    };
    let date2 = Date {
        year: 2021,
        month: 1,
    };
    assert_eq!(date2.months_since(date1), Some(10));
}

#[test]
fn test_date_regex() {
    let regex = Regex::new(DATE_PATTERN).unwrap();
    assert!(regex.is_match("As of July 2022"));
    assert!(regex.is_match("As of Jul 2022"));
    assert!(regex.is_match("As of july 2022"));
    assert!(regex.is_match("As of jul 2022"));
    assert!(regex.is_match("as of jul 2022"));
}

#[test]
fn test_collect_dates_from_file() {
    let text = "Test1\nAs of Jan 2021\nTest2\nAs of Feb 2021 \
                \nTest3\nTest4\nAs of march 2021Bar\nas of apr 2021 \
                \nTest5\nTest6\nTest7\n\n\nas of may 2021\nTest8
    ";
    assert_eq!(
        collect_dates_from_file(text),
        vec![
            (
                2,
                Date {
                    year: 2021,
                    month: 1,
                }
            ),
            (
                4,
                Date {
                    year: 2021,
                    month: 2,
                }
            ),
            (
                7,
                Date {
                    year: 2021,
                    month: 3,
                }
            ),
            (
                8,
                Date {
                    year: 2021,
                    month: 4,
                }
            ),
            (
                14,
                Date {
                    year: 2021,
                    month: 5,
                }
            ),
        ]
    );
}

#[test]
fn phrases_in_every_spelling_are_found() {
    for phrase in [
        "As of July 2022",
        "As of Jul 2022",
        "As of july 2022",
        "As of jul 2022",
        "as of jul 2022",
        "AS OF JULY 2022",
        "As Of\tsep   2022",
    ] {
        let month = if phrase.contains("sep") { 9 } else { 7 };
        assert_eq!(collect_dates_from_file(phrase), vec![(1, d(2022, month))], "{}", phrase);
    }
}

#[test]
fn unreadable_month_words_are_skipped() {
    let text = "as of implementation 2021\nas of Sept 2020\nas of September 2020";
    assert_eq!(collect_dates_from_file(text), vec![(3, d(2020, 9))]);
}

#[test]
fn lines_count_newlines_after_wide_characters() {
    let text = "héllo → wörld\n\nnote: as of\nDecember 1999";
    assert_eq!(collect_dates_from_file(text), vec![(4, d(1999, 12))]);
}

#[test]
fn empty_text_has_no_annotations() {
    assert_eq!(collect_dates_from_file(""), vec![]);
}

#[test]
fn years_need_four_ascii_digits() {
    assert_eq!(parse_year("2021"), Some(2021));
    assert_eq!(parse_year("0007"), Some(7));
    assert_eq!(parse_year("202"), None);
    assert_eq!(parse_year("20x1"), None);
    assert_eq!(parse_year("２０２１"), None);
}

#[test]
fn months_since_counts_thirty_day_periods() {
    assert_eq!(d(2021, 7).months_since(d(2021, 1)), Some(6));
    assert_eq!(d(2021, 7).months_since(d(2021, 2)), Some(5));
    assert_eq!(d(2021, 7).months_since(d(2021, 7)), Some(0));
    assert_eq!(d(2021, 3).months_since(d(2021, 2)), Some(0));
    assert_eq!(d(2021, 1).months_since(d(2020, 1)), Some(12));
    assert_eq!(d(2001, 1).months_since(d(2000, 1)), Some(12));
    assert_eq!(d(2025, 1).months_since(d(2000, 1)), Some(304));
    assert_eq!(d(2100, 12).months_since(d(2100, 1)), Some(11));
    assert_eq!(d(2101, 1).months_since(d(2100, 1)), Some(12));
    assert_eq!(d(1, 1).months_since(d(0, 1)), Some(12));
}

#[test]
fn months_since_a_later_month_is_refused() {
    assert_eq!(d(2021, 1).months_since(d(2021, 2)), None);
    assert_eq!(d(2021, 2).months_since(d(2021, 3)), None);
    assert_eq!(d(2020, 12).months_since(d(2021, 1)), None);
}

#[test]
fn dates_need_a_calendar_month() {
    assert_eq!(Date::new(2021, 0), None);
    assert_eq!(Date::new(2021, 13), None);
    assert_eq!(Date::new(2021, 12), Some(d(2021, 12)));
}

#[test]
fn dates_render_zero_padded() {
    assert_eq!(d(2021, 7).to_text(), "2021-07");
    assert_eq!(d(5, 11).to_text(), "0005-11");
    assert_eq!(d(12345, 1).to_text(), "12345-01");
}

#[test]
fn filter_keeps_annotations_at_the_threshold() {
    let files = vec![(
        "a.md".to_string(),
        vec![(1, d(2021, 1)), (2, d(2021, 2)), (3, d(2020, 6))],
    )];
    let kept = filter_dates(d(2021, 7), 6, files);
    assert_eq!(
        kept,
        vec![("a.md".to_string(), vec![(1, d(2021, 1)), (3, d(2020, 6))])]
    );
}

#[test]
fn filter_drops_documents_left_empty() {
    let files = vec![
        ("a.md".to_string(), vec![(1, d(2021, 6))]),
        ("b.md".to_string(), vec![(4, d(2019, 6))]),
    ];
    let kept = filter_dates(d(2021, 7), 6, files);
    assert_eq!(kept, vec![("b.md".to_string(), vec![(4, d(2019, 6))])]);
}

fn run(files: Vec<(String, String)>, now: Date) -> String {
    let collected = collect_dates(&files);
    let stale = filter_dates(now, 6, collected);
    render_report(now, &stale)
}

#[test]
fn report_lists_only_the_stale_annotation() {
    let files = vec![
        ("plain.md".to_string(), "no notes here\n".to_string()),
        ("fresh.md".to_string(), "As of June 2021 all is well.\n".to_string()),
        (
            "mixed.md".to_string(),
            "intro\nAs of Jan 2021 this held.\nAs of July 2021 this holds.\n".to_string(),
        ),
    ];
    let report = run(files, d(2021, 7));
    assert!(report.starts_with("Date Reference Triage for 2021-07\n## Procedure\n\n"));
    assert!(report.contains("use the current month (2021-07), or removed"));
    assert!(report.ends_with("## Dates\n\n- [ ] mixed.md\n  - [ ] line 2: 2021-01\n\n"));
    assert!(!report.contains("plain.md"));
    assert!(!report.contains("fresh.md"));
    assert_eq!(report.matches("- [ ] ").count(), 2);
}

#[test]
fn report_without_stale_annotations_is_empty() {
    let files = vec![
        ("a.md".to_string(), "nothing".to_string()),
        ("b.md".to_string(), "as of May 2021".to_string()),
    ];
    assert_eq!(run(files, d(2021, 7)), "empty\n");
    assert_eq!(run(vec![], d(2021, 7)), "empty\n");
}

#[test]
fn report_orders_documents_by_path() {
    let one = vec![
        ("b/x.md".to_string(), "as of Jan 2000".to_string()),
        ("a.md".to_string(), "as of Feb 2000".to_string()),
        ("b.md".to_string(), "\nas of Mar 2000".to_string()),
    ];
    let mut two = one.clone();
    two.reverse();
    let first = run(one, d(2021, 7));
    let second = run(two, d(2021, 7));
    assert_eq!(first, second);
    assert!(first.ends_with(
        "- [ ] a.md\n  - [ ] line 1: 2000-02\n- [ ] b.md\n  - [ ] line 2: 2000-03\n- [ ] b/x.md\n  - [ ] line 1: 2000-01\n\n"
    ));
}

#[test]
fn paths_compare_by_bytes() {
    assert!(path_less("a.md", "b.md"));
    assert!(path_less("a", "a.md"));
    assert!(!path_less("a.md", "a.md"));
    assert!(!path_less("b", "a.md"));
}
