use fixedfile_highlighter::diagnostics::Diagnostic;
use fixedfile_highlighter::html::escape;
use fixedfile_highlighter::palette::{
    colors_named, greyscale, rainbow, select_colors, split_colors,
};
use fixedfile_highlighter::pipeline::highlight_line;
use fixedfile_highlighter::regions::{HighlightRegion, ResolveError};
use fixedfile_highlighter::syntax::parse_syntax_file;

fn strings(list: &[&str]) -> Vec<String> {
    list.iter().map(|c| c.to_string()).collect()
}

#[test]
fn presets_hold_their_colors() {
    assert_eq!(greyscale(), strings(&["fff", "ccc"]));
    assert_eq!(
        rainbow(),
        strings(&["fff", "f88", "ffc088", "a2ff88", "88f9ff", "a288ff", "ff88ba"])
    );
}

#[test]
fn colors_are_split_at_commas() {
    assert_eq!(split_colors("f00,0f0,00f"), strings(&["f00", "0f0", "00f"]));
    assert_eq!(split_colors("abc"), strings(&["abc"]));
    assert_eq!(split_colors(""), strings(&[""]));
    assert_eq!(split_colors(","), strings(&["", ""]));
    assert_eq!(split_colors("a,,b,"), strings(&["a", "", "b", ""]));
    assert_eq!(split_colors("\u{e9},x"), strings(&["\u{e9}", "x"]));
}

#[test]
fn choice_of_colors_names_a_preset_or_lists_colors() {
    assert_eq!(select_colors(None), greyscale());
    assert_eq!(select_colors(Some("greyscale")), greyscale());
    assert_eq!(select_colors(Some("GrayScale")), greyscale());
    assert_eq!(select_colors(Some("RAINBOW")), rainbow());
    assert_eq!(select_colors(Some("rainbow")), rainbow());
    assert_eq!(select_colors(Some("Rainbows")), strings(&["Rainbows"]));
    assert_eq!(select_colors(Some("F00,0F0")), strings(&["F00", "0F0"]));
    assert_eq!(select_colors(Some("")), strings(&[""]));
}

#[test]
fn line_goes_from_rules_to_html() {
    let records = parse_syntax_file(
        "start,length,name,condition\n1,3,\"ID\",\n,1,\"Broken\",\n5,2,\"Code\",\n5,9,\"Wide\",D\n",
        None,
    )
    .unwrap();
    let out = highlight_line(&records, 12, "ABC DE", &greyscale()).unwrap();
    assert_eq!(
        out.html,
        "<abbr title=\"ID\" style=\"background: #fff; color: #020202;\">ABC</abbr> \
         <abbr title=\"Code\" style=\"background: #ccc; color: #020202;\">\
         <abbr title=\"Wide\" style=\"background: #fff; color: #020202;\">DE</abbr></abbr>\n"
    );
    assert_eq!(
        out.regions,
        vec![
            HighlightRegion { start: 0, end: 3, name: "ID".to_string(), applied: true },
            HighlightRegion { start: 4, end: 6, name: "Code".to_string(), applied: true },
            HighlightRegion { start: 4, end: 13, name: "Wide".to_string(), applied: false },
        ]
    );
    assert_eq!(
        out.diagnostics,
        vec![
            Diagnostic::SkippedInvalidRule { rule: 1 },
            Diagnostic::LineTooShort { line: 12 },
            Diagnostic::RegionNotApplied { name: "Wide".to_string(), line: 12 },
        ]
    );
}

#[test]
fn delimited_line_goes_from_rules_to_html() {
    let records =
        parse_syntax_file("field,name,condition\n2,\"Second\",\n", Some(',')).unwrap();
    let out = highlight_line(&records, 0, "a,bb,ccc", &strings(&["123456"])).unwrap();
    assert_eq!(
        out.html,
        "a,<abbr title=\"Second\" style=\"background: #123456; color: #020202;\">bb</abbr>,ccc\n"
    );
    assert_eq!(
        out.regions,
        vec![HighlightRegion { start: 2, end: 4, name: "Second".to_string(), applied: true }]
    );
    assert!(out.diagnostics.is_empty());
}

#[test]
fn line_without_applicable_rule_is_kept() {
    let records = parse_syntax_file(
        "start,length,name,condition\n1,3,ID,^Z\n,,Open,^Y\n",
        None,
    )
    .unwrap();
    let out = highlight_line(&records, 0, "ABC DE", &rainbow()).unwrap();
    assert_eq!(out.html, "ABC DE\n");
    assert!(out.regions.is_empty());
    assert!(out.diagnostics.is_empty());
    let out = highlight_line(&records, 1, "a < b", &rainbow()).unwrap();
    assert_eq!(out.html, "a &lt; b\n");
}

#[test]
fn broken_condition_stops_the_line() {
    let records = parse_syntax_file(
        "start,length,name,condition\n1,3,ID,\n2,2,Broken,(unclosed\n",
        None,
    )
    .unwrap();
    assert_eq!(
        highlight_line(&records, 0, "ABC DE", &greyscale()),
        Err(ResolveError::InvalidCondition { rule: 1 })
    );
}

#[test]
fn highlighting_twice_gives_the_same_line() {
    let records = parse_syntax_file(
        "start,length,name,condition\n1,3,ID,\n3,10,Long,\n,,Open,\n9,1,Far,\n",
        None,
    )
    .unwrap();
    let first = highlight_line(&records, 3, "ABC DE", &rainbow());
    let second = highlight_line(&records, 3, "ABC DE", &rainbow());
    assert_eq!(first, second);
    let first = first.unwrap();
    assert_eq!(
        first.regions.iter().map(|r| r.applied).collect::<Vec<bool>>(),
        vec![true, false, false]
    );
    assert_eq!(
        first.diagnostics,
        vec![
            Diagnostic::SkippedInvalidRule { rule: 2 },
            Diagnostic::LineTooShort { line: 3 },
            Diagnostic::RegionNotApplied { name: "Long".to_string(), line: 3 },
            Diagnostic::RegionNotApplied { name: "Far".to_string(), line: 3 },
        ]
    );
}

#[test]
fn named_colors_go_by_the_lowercase_name() {
    assert_eq!(colors_named("greyscale", "GREYSCALE"), greyscale());
    assert_eq!(colors_named("grayscale", "Grayscale"), greyscale());
    assert_eq!(colors_named("rainbow", "rainbow"), rainbow());
    assert_eq!(colors_named("f00,0f0", "F00,0F0"), strings(&["F00", "0F0"]));
    assert_eq!(colors_named("grey", "grey"), strings(&["grey"]));
}

#[test]
fn escape_replaces_the_characters_of_markup() {
    assert_eq!(escape("a<b>&\"c\"'d'"), "a&lt;b&gt;&amp;&quot;c&quot;&#39;d&#39;");
    assert_eq!(escape("plain text \u{e9}"), "plain text \u{e9}");
    assert_eq!(escape(""), "");
}
