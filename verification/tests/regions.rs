use fixedfile_highlighter::diagnostics::Diagnostic;
use fixedfile_highlighter::regions::{
    column_region, field_bounds, field_region, generate_highlight_regions_from_records,
    HighlightRegion, ResolveError,
};
use fixedfile_highlighter::rules::{
    DelimiterHighlightRecord, FixedWidthHighlightRecord, RecordList,
};
use fixedfile_highlighter::search::{find_nth, find_nth_char};
use fixedfile_highlighter::syntax::parse_syntax_file;
use fixedfile_highlighter::text::chars_of;

fn region(start: usize, end: usize, name: &str) -> HighlightRegion {
    HighlightRegion { start, end, name: name.to_string(), applied: false }
}

fn column_rule(
    start: Option<usize>,
    length: Option<usize>,
    name: &str,
    condition: Option<&str>,
) -> FixedWidthHighlightRecord {
    FixedWidthHighlightRecord {
        start,
        length,
        name: name.to_string(),
        condition: condition.map(|c| c.to_string()),
    }
}

fn field_rule(
    field: Option<usize>,
    name: &str,
    condition: Option<&str>,
) -> DelimiterHighlightRecord {
    DelimiterHighlightRecord {
        field,
        name: name.to_string(),
        condition: condition.map(|c| c.to_string()),
    }
}

#[test]
fn find_nth_counts_from_one() {
    let line = "a,bb,ccc".to_string();
    assert_eq!(find_nth(&',', 1, &line), Some(1));
    assert_eq!(find_nth(&',', 2, &line), Some(4));
    assert_eq!(find_nth(&',', 3, &line), None);
    assert_eq!(find_nth(&',', 0, &line), None);
    assert_eq!(find_nth(&';', 1, &line), None);
    assert_eq!(find_nth(&',', 1, &String::new()), None);
    assert_eq!(find_nth(&',', 2, &",,".to_string()), Some(1));
}

#[test]
fn find_nth_counts_characters_not_bytes() {
    let line = "\u{e9}t\u{e9},\u{1f600},z".to_string();
    assert_eq!(find_nth(&',', 1, &line), Some(3));
    assert_eq!(find_nth(&',', 2, &line), Some(5));
    assert_eq!(find_nth(&'\u{1f600}', 1, &line), Some(4));
    assert_eq!(find_nth_char(&chars_of(&line), ',', 2), Some(5));
}

#[test]
fn characters_are_taken_in_order() {
    assert_eq!(chars_of("a\u{e9}\u{1f600}"), vec!['a', '\u{e9}', '\u{1f600}']);
    assert_eq!(chars_of(""), Vec::<char>::new());
}

#[test]
fn field_bounds_follow_the_delimiters() {
    let line = chars_of("a,bb,ccc");
    assert_eq!(field_bounds(&line, ',', 1), (0, 1));
    assert_eq!(field_bounds(&line, ',', 2), (2, 4));
    assert_eq!(field_bounds(&line, ',', 3), (5, 8));
    assert_eq!(field_bounds(&line, ',', 4), (0, 8));
    assert_eq!(field_bounds(&line, ',', 5), (0, 8));
    assert_eq!(field_bounds(&chars_of(",x,,"), ',', 1), (0, 0));
    assert_eq!(field_bounds(&chars_of(",x,,"), ',', 3), (3, 3));
    assert_eq!(field_bounds(&chars_of(",x,,"), ',', 4), (4, 4));
    assert_eq!(field_bounds(&chars_of(""), ',', 1), (0, 0));
}

#[test]
fn first_field_starts_at_the_origin_wherever_the_delimiters_stand() {
    for line in ["a,b", ",a,b", "aaaa,b,,", ",", "no delimiter"] {
        let records = RecordList::Delimiter(',', vec![field_rule(Some(1), "First", None)]);
        let resolution = generate_highlight_regions_from_records(&records, line).unwrap();
        assert_eq!(resolution.regions.len(), 1);
        assert_eq!(resolution.regions[0].start, 0);
    }
}

#[test]
fn field_beyond_the_delimiters_ends_with_the_line() {
    let line = "a,bb,ccc";
    for field in 3..6 {
        let records = RecordList::Delimiter(',', vec![field_rule(Some(field), "Far", None)]);
        let resolution = generate_highlight_regions_from_records(&records, line).unwrap();
        assert_eq!(resolution.regions.len(), 1);
        assert_eq!(resolution.regions[0].end, 8);
        assert!(resolution.diagnostics.is_empty());
    }
    let records = RecordList::Delimiter(',', vec![field_rule(Some(2), "Second", None)]);
    let line = "\u{e9}\u{e9},\u{e9}\u{e9}\u{e9}";
    let resolution = generate_highlight_regions_from_records(&records, line).unwrap();
    assert_eq!(resolution.regions, vec![region(3, 6, "Second")]);
}

#[test]
fn second_field_covers_its_characters() {
    let records = parse_syntax_file("field,name,condition\n2,\"Second\",\n", Some(',')).unwrap();
    let resolution = generate_highlight_regions_from_records(&records, "a,bb,ccc").unwrap();
    assert_eq!(resolution.regions, vec![region(2, 4, "Second")]);
    assert!(resolution.diagnostics.is_empty());
}

#[test]
fn column_rule_covers_start_minus_one_to_start_minus_one_plus_length() {
    let records = RecordList::FixedWidth(vec![
        column_rule(Some(1), Some(3), "ID", None),
        column_rule(Some(5), Some(2), "Code", None),
        column_rule(Some(40), Some(10), "Far", None),
    ]);
    let resolution = generate_highlight_regions_from_records(&records, "ABC DE").unwrap();
    assert_eq!(
        resolution.regions,
        vec![region(0, 3, "ID"), region(4, 6, "Code"), region(39, 49, "Far")]
    );
    assert!(resolution.diagnostics.is_empty());
}

#[test]
fn regions_follow_rule_order_not_position() {
    let records = RecordList::FixedWidth(vec![
        column_rule(Some(5), Some(2), "Late", None),
        column_rule(Some(1), Some(3), "Early", None),
    ]);
    let resolution = generate_highlight_regions_from_records(&records, "ABC DE").unwrap();
    assert_eq!(resolution.regions, vec![region(4, 6, "Late"), region(0, 3, "Early")]);
}

#[test]
fn condition_decides_whether_a_rule_applies() {
    let records = RecordList::FixedWidth(vec![
        column_rule(Some(1), Some(1), "Header", Some("^H")),
        column_rule(Some(1), Some(1), "Detail", Some("^D")),
        column_rule(Some(2), Some(3), "Any", None),
        column_rule(Some(2), Some(2), "Digits", Some("[0-9]{2}$")),
    ]);
    let resolution = generate_highlight_regions_from_records(&records, "H123").unwrap();
    assert_eq!(
        resolution.regions,
        vec![region(0, 1, "Header"), region(1, 4, "Any"), region(1, 3, "Digits")]
    );
    let resolution = generate_highlight_regions_from_records(&records, "Dabc").unwrap();
    assert_eq!(resolution.regions, vec![region(0, 1, "Detail"), region(1, 4, "Any")]);
    let records = RecordList::Delimiter(
        ';',
        vec![field_rule(Some(2), "Value", Some("^k;")), field_rule(Some(1), "Key", Some("^k;"))],
    );
    let resolution = generate_highlight_regions_from_records(&records, "k;v").unwrap();
    assert_eq!(resolution.regions, vec![region(2, 3, "Value"), region(0, 1, "Key")]);
    let resolution = generate_highlight_regions_from_records(&records, "x;v").unwrap();
    assert!(resolution.regions.is_empty());
    assert!(resolution.diagnostics.is_empty());
}

#[test]
fn rule_without_a_required_field_is_skipped_with_a_diagnostic() {
    let records = RecordList::FixedWidth(vec![
        column_rule(None, Some(3), "NoStart", None),
        column_rule(Some(1), Some(3), "ID", None),
        column_rule(Some(2), None, "NoLength", Some("^A")),
        column_rule(None, None, "Unmatched", Some("^Z")),
    ]);
    let resolution = generate_highlight_regions_from_records(&records, "ABC DE").unwrap();
    assert_eq!(resolution.regions, vec![region(0, 3, "ID")]);
    assert_eq!(
        resolution.diagnostics,
        vec![
            Diagnostic::SkippedInvalidRule { rule: 0 },
            Diagnostic::SkippedInvalidRule { rule: 2 },
        ]
    );
    let records = RecordList::Delimiter(',', vec![field_rule(None, "NoField", None)]);
    let resolution = generate_highlight_regions_from_records(&records, "a,b").unwrap();
    assert!(resolution.regions.is_empty());
    assert_eq!(resolution.diagnostics, vec![Diagnostic::SkippedInvalidRule { rule: 0 }]);
}

#[test]
fn condition_that_does_not_compile_is_fatal() {
    let records = RecordList::FixedWidth(vec![
        column_rule(Some(1), Some(3), "ID", None),
        column_rule(Some(1), Some(1), "Broken", Some("(")),
        column_rule(Some(1), Some(1), "AlsoBroken", Some("[")),
    ]);
    assert_eq!(
        generate_highlight_regions_from_records(&records, "ABC DE"),
        Err(ResolveError::InvalidCondition { rule: 1 })
    );
    let records = RecordList::Delimiter(',', vec![field_rule(None, "Broken", Some("a{2,1}"))]);
    assert_eq!(
        generate_highlight_regions_from_records(&records, ""),
        Err(ResolveError::InvalidCondition { rule: 0 })
    );
}

#[test]
fn resolving_twice_gives_the_same_regions() {
    let records = parse_syntax_file(
        "start,length,name,condition\n1,3,ID,\n,2,Open,\n5,2,Code,E$\n",
        None,
    )
    .unwrap();
    let first = generate_highlight_regions_from_records(&records, "ABC DE");
    let second = generate_highlight_regions_from_records(&records, "ABC DE");
    assert_eq!(first, second);
    assert_eq!(first.unwrap().regions, vec![region(0, 3, "ID"), region(4, 6, "Code")]);
}

#[test]
fn column_region_needs_start_and_length() {
    assert_eq!(
        column_region(&column_rule(Some(5), Some(2), "Code", Some("ignored("))),
        Some(region(4, 6, "Code"))
    );
    assert_eq!(
        column_region(&column_rule(Some(1), Some(usize::MAX), "All", None)),
        Some(region(0, usize::MAX, "All"))
    );
    assert_eq!(column_region(&column_rule(None, Some(2), "NoStart", None)), None);
    assert_eq!(column_region(&column_rule(Some(5), None, "NoLength", None)), None);
    assert_eq!(column_region(&column_rule(None, None, "Neither", None)), None);
}

#[test]
fn field_region_needs_a_field_index() {
    let line = chars_of("k=v=w");
    assert_eq!(
        field_region(&field_rule(Some(2), "Value", None), '=', &line),
        Some(region(2, 3, "Value"))
    );
    assert_eq!(
        field_region(&field_rule(Some(3), "Last", None), '=', &line),
        Some(region(4, 5, "Last"))
    );
    assert_eq!(
        field_region(&field_rule(Some(2), "Whole", None), ';', &line),
        Some(region(0, 5, "Whole"))
    );
    assert_eq!(field_region(&field_rule(None, "NoField", None), '=', &line), None);
}
