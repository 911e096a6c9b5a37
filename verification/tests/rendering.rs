use fixedfile_highlighter::diagnostics::Diagnostic;
use fixedfile_highlighter::html::{fragments_to_html, produce_html_for_line};
use fixedfile_highlighter::markup::{render_line, Fragment};
use fixedfile_highlighter::regions::{generate_highlight_regions_from_records, HighlightRegion};
use fixedfile_highlighter::syntax::parse_syntax_file;

fn region(start: usize, end: usize, name: &str) -> HighlightRegion {
    HighlightRegion { start, end, name: name.to_string(), applied: false }
}

fn open(name: &str, color: usize) -> Fragment {
    Fragment::Open { name: name.to_string(), color }
}

fn text(s: &str) -> Vec<Fragment> {
    s.chars().map(Fragment::Text).collect()
}

fn join(parts: Vec<Vec<Fragment>>) -> Vec<Fragment> {
    parts.into_iter().flatten().collect()
}

fn colors(list: &[&str]) -> Vec<String> {
    list.iter().map(|c| c.to_string()).collect()
}

fn opening_colors(fragments: &[Fragment]) -> Vec<usize> {
    fragments
        .iter()
        .filter_map(|f| match f {
            Fragment::Open { color, .. } => Some(*color),
            _ => None,
        })
        .collect()
}

fn letters(fragments: &[Fragment]) -> String {
    fragments
        .iter()
        .filter_map(|f| match f {
            Fragment::Text(c) => Some(*c),
            _ => None,
        })
        .collect()
}

#[test]
fn region_within_the_line_is_wrapped_once() {
    let mut regions = vec![region(2, 5, "Part")];
    let rendering = render_line(0, "abcdefg", &mut regions, 3);
    assert_eq!(
        rendering.fragments,
        join(vec![
            text("ab"),
            vec![open("Part", 0)],
            text("cde"),
            vec![Fragment::Close],
            text("fg"),
            vec![Fragment::LineBreak],
        ])
    );
    assert!(regions[0].applied);
    assert!(rendering.diagnostics.is_empty());
}

#[test]
fn region_may_cover_the_whole_line() {
    let mut regions = vec![region(0, 3, "All")];
    let rendering = render_line(4, "abc", &mut regions, 1);
    assert_eq!(
        rendering.fragments,
        join(vec![vec![open("All", 0)], text("abc"), vec![Fragment::Close, Fragment::LineBreak]])
    );
    assert!(regions[0].applied);
    assert!(rendering.diagnostics.is_empty());
}

#[test]
fn line_without_regions_is_its_own_text() {
    let mut regions = vec![];
    let rendering = render_line(0, "a<b> & \"c\" \u{e9}", &mut regions, 2);
    assert_eq!(
        rendering.fragments,
        join(vec![text("a<b> & \"c\" \u{e9}"), vec![Fragment::LineBreak]])
    );
    assert!(rendering.diagnostics.is_empty());
    let rendering = render_line(0, "", &mut regions, 2);
    assert_eq!(rendering.fragments, vec![Fragment::LineBreak]);
    assert!(rendering.diagnostics.is_empty());
}

#[test]
fn rules_that_do_not_apply_leave_the_line_unchanged() {
    let records = parse_syntax_file(
        "start,length,name,condition\n1,3,ID,^Z\n2,2,Code,^[0-9]+$\n",
        None,
    )
    .unwrap();
    let resolution = generate_highlight_regions_from_records(&records, "ABC DE").unwrap();
    assert!(resolution.regions.is_empty());
    let mut regions = resolution.regions;
    let out = produce_html_for_line(0, "ABC DE", &mut regions, &colors(&["fff", "ccc"]));
    assert_eq!(out.html, "ABC DE\n");
    assert!(out.diagnostics.is_empty());
}

#[test]
fn region_beyond_the_line_is_closed_by_force() {
    let mut regions = vec![region(4, 10, "Long")];
    let rendering = render_line(7, "ABC DE", &mut regions, 2);
    assert_eq!(
        rendering.fragments,
        join(vec![
            text("ABC "),
            vec![open("Long", 0)],
            text("DE"),
            vec![Fragment::Close, Fragment::LineBreak],
        ])
    );
    assert!(!regions[0].applied);
    assert_eq!(
        rendering.diagnostics,
        vec![
            Diagnostic::LineTooShort { line: 7 },
            Diagnostic::RegionNotApplied { name: "Long".to_string(), line: 7 },
        ]
    );
}

#[test]
fn open_boundaries_are_all_closed_at_the_end_of_the_line() {
    let mut regions = vec![region(0, 9, "A"), region(1, 2, "B"), region(2, 9, "C")];
    let rendering = render_line(1, "xyz", &mut regions, 5);
    assert_eq!(
        rendering.fragments,
        vec![
            open("A", 0),
            Fragment::Text('x'),
            open("B", 1),
            Fragment::Text('y'),
            Fragment::Close,
            open("C", 2),
            Fragment::Text('z'),
            Fragment::Close,
            Fragment::Close,
            Fragment::LineBreak,
        ]
    );
    assert_eq!(
        regions.iter().map(|r| r.applied).collect::<Vec<bool>>(),
        vec![false, true, false]
    );
    assert_eq!(
        rendering.diagnostics,
        vec![
            Diagnostic::LineTooShort { line: 1 },
            Diagnostic::RegionNotApplied { name: "A".to_string(), line: 1 },
            Diagnostic::RegionNotApplied { name: "C".to_string(), line: 1 },
        ]
    );
}

#[test]
fn region_that_starts_after_the_line_is_never_opened() {
    let mut regions = vec![region(6, 8, "Far"), region(3, 4, "Near")];
    let rendering = render_line(2, "ABC DE", &mut regions, 2);
    assert_eq!(
        rendering.fragments,
        join(vec![
            text("ABC"),
            vec![open("Near", 0)],
            text(" "),
            vec![Fragment::Close],
            text("DE"),
            vec![Fragment::LineBreak],
        ])
    );
    assert!(!regions[0].applied);
    assert!(regions[1].applied);
    assert_eq!(
        rendering.diagnostics,
        vec![Diagnostic::RegionNotApplied { name: "Far".to_string(), line: 2 }]
    );
}

#[test]
fn empty_line_opens_nothing() {
    let mut regions = vec![region(0, 3, "ID")];
    let rendering = render_line(9, "", &mut regions, 2);
    assert_eq!(rendering.fragments, vec![Fragment::LineBreak]);
    assert!(!regions[0].applied);
    assert_eq!(
        rendering.diagnostics,
        vec![Diagnostic::RegionNotApplied { name: "ID".to_string(), line: 9 }]
    );
}

#[test]
fn colors_cycle_through_the_palette() {
    let mut regions = vec![
        region(0, 3, "a"),
        region(0, 3, "b"),
        region(0, 3, "c"),
        region(0, 3, "d"),
        region(0, 3, "e"),
    ];
    let rendering = render_line(0, "xyz", &mut regions, 2);
    assert_eq!(opening_colors(&rendering.fragments), vec![0, 1, 0, 1, 0]);
    assert_eq!(
        rendering.fragments,
        join(vec![
            vec![open("a", 0), open("b", 1), open("c", 0), open("d", 1), open("e", 0)],
            text("xyz"),
            vec![Fragment::Close; 5],
            vec![Fragment::LineBreak],
        ])
    );
    assert!(regions.iter().all(|r| r.applied));
    assert!(rendering.diagnostics.is_empty());
}

#[test]
fn colors_follow_the_order_of_opening() {
    let mut regions =
        vec![region(4, 6, "late"), region(0, 2, "early"), region(4, 5, "also late")];
    let rendering = render_line(0, "abcdefgh", &mut regions, 3);
    assert_eq!(
        rendering.fragments,
        join(vec![
            vec![open("early", 0)],
            text("ab"),
            vec![Fragment::Close],
            text("cd"),
            vec![open("late", 1), open("also late", 2)],
            text("e"),
            vec![Fragment::Close],
            text("f"),
            vec![Fragment::Close],
            text("gh"),
            vec![Fragment::LineBreak],
        ])
    );
    let mut regions =
        vec![region(0, 1, "a"), region(1, 2, "b"), region(2, 3, "c"), region(3, 4, "d")];
    let rendering = render_line(0, "wxyz", &mut regions, 3);
    assert_eq!(opening_colors(&rendering.fragments), vec![0, 1, 2, 0]);
    let mut regions = vec![region(0, 1, "a"), region(1, 2, "b")];
    let rendering = render_line(0, "wx", &mut regions, 1);
    assert_eq!(opening_colors(&rendering.fragments), vec![0, 0]);
}

#[test]
fn rendering_keeps_every_character_of_the_line() {
    let line = "k\u{e9}y=<v>&\u{1f600}";
    let mut regions =
        vec![region(1, 3, "a"), region(0, 20, "b"), region(5, 5, "c"), region(12, 14, "d")];
    let rendering = render_line(0, line, &mut regions, 2);
    assert_eq!(letters(&rendering.fragments), line);
    assert_eq!(rendering.fragments.last(), Some(&Fragment::LineBreak));
}

#[test]
fn regions_are_addressed_by_character() {
    let mut regions = vec![region(1, 3, "Mid")];
    let rendering = render_line(0, "\u{e9}\u{e8}\u{ea}\u{eb}", &mut regions, 1);
    assert_eq!(
        rendering.fragments,
        join(vec![
            text("\u{e9}"),
            vec![open("Mid", 0)],
            text("\u{e8}\u{ea}"),
            vec![Fragment::Close],
            text("\u{eb}"),
            vec![Fragment::LineBreak],
        ])
    );
    assert!(regions[0].applied);
}

#[test]
fn empty_region_is_closed_where_it_ends() {
    let mut regions = vec![region(2, 2, "Empty")];
    let rendering = render_line(3, "a,,b", &mut regions, 1);
    assert_eq!(
        rendering.fragments,
        join(vec![
            text("a,"),
            vec![Fragment::Close, open("Empty", 0)],
            text(",b"),
            vec![Fragment::LineBreak],
        ])
    );
    assert!(regions[0].applied);
    assert!(rendering.diagnostics.is_empty());
}

#[test]
fn rendering_again_changes_nothing() {
    let mut regions = vec![region(0, 2, "a"), region(1, 9, "b"), region(7, 8, "c")];
    let first = render_line(5, "abcd", &mut regions, 2);
    let after_first = regions.iter().map(|r| r.applied).collect::<Vec<bool>>();
    let second = render_line(5, "abcd", &mut regions, 2);
    let after_second = regions.iter().map(|r| r.applied).collect::<Vec<bool>>();
    assert_eq!(first, second);
    assert_eq!(after_first, vec![true, false, false]);
    assert_eq!(after_first, after_second);
}

#[test]
fn two_column_rules_wrap_their_own_characters() {
    let records = parse_syntax_file(
        "start,length,name,condition\n1,3,\"ID\",\n5,2,\"Code\",\n",
        None,
    )
    .unwrap();
    let resolution = generate_highlight_regions_from_records(&records, "ABC DE").unwrap();
    let mut regions = resolution.regions;
    assert_eq!(regions, vec![region(0, 3, "ID"), region(4, 6, "Code")]);
    let rendering = render_line(0, "ABC DE", &mut regions, 2);
    assert_eq!(
        rendering.fragments,
        join(vec![
            vec![open("ID", 0)],
            text("ABC"),
            vec![Fragment::Close],
            text(" "),
            vec![open("Code", 1)],
            text("DE"),
            vec![Fragment::Close, Fragment::LineBreak],
        ])
    );
    assert!(regions[0].applied);
    assert!(regions[1].applied);
    assert!(rendering.diagnostics.is_empty());

    let mut regions = vec![region(0, 3, "ID"), region(4, 6, "Code")];
    let out = produce_html_for_line(0, "ABC DE", &mut regions, &colors(&["fff", "ccc"]));
    assert_eq!(
        out.html,
        "<abbr title=\"ID\" style=\"background: #fff; color: #020202;\">ABC</abbr> \
         <abbr title=\"Code\" style=\"background: #ccc; color: #020202;\">DE</abbr>\n"
    );
    assert!(regions[0].applied && regions[1].applied);
    assert!(out.diagnostics.is_empty());
}

#[test]
fn html_escapes_text_names_and_colors() {
    let fragments = vec![
        open("a<b> & \"c\" 'd'", 1),
        Fragment::Text('<'),
        Fragment::Text('&'),
        Fragment::Text('>'),
        Fragment::Text('"'),
        Fragment::Text('\''),
        Fragment::Text('x'),
        Fragment::Text('\u{e9}'),
        Fragment::Close,
        Fragment::LineBreak,
    ];
    assert_eq!(
        fragments_to_html(&fragments, &colors(&["fff", "\"><i>"])),
        "<abbr title=\"a&lt;b&gt; &amp; &quot;c&quot; &#39;d&#39;\" \
         style=\"background: #&quot;&gt;&lt;i&gt;; color: #020202;\">\
         &lt;&amp;&gt;&quot;&#39;x\u{e9}</abbr>\n"
    );
    assert_eq!(fragments_to_html(&vec![], &colors(&["fff"])), "");
}

#[test]
fn html_reports_what_rendering_reports() {
    let mut regions = vec![region(1, 9, "Tail"), region(7, 8, "Far")];
    let out = produce_html_for_line(3, "a<b", &mut regions, &colors(&["abc"]));
    assert_eq!(
        out.html,
        "a<abbr title=\"Tail\" style=\"background: #abc; color: #020202;\">&lt;b</abbr>\n"
    );
    assert_eq!(
        out.diagnostics,
        vec![
            Diagnostic::LineTooShort { line: 3 },
            Diagnostic::RegionNotApplied { name: "Tail".to_string(), line: 3 },
            Diagnostic::RegionNotApplied { name: "Far".to_string(), line: 3 },
        ]
    );
    assert!(!regions[0].applied && !regions[1].applied);
}
