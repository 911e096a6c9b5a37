//! What holds of resolving and rendering, stated over the functions that the
//! contracts of the library use.

use vstd::prelude::*;
use crate::diagnostics::Anomaly;
use crate::html::{escaped, escaped_char, html_of, open_tag};
use crate::markup::{
    closes, column_marks, ends_at, ends_within, forced_closes, lemma_counts_at_origin,
    lemma_counts_ignore_applied, lemma_counts_split, lemma_counts_step,
    lemma_scanned_ignores_applied, opening_mark, opening_rank, opens_at, rendered_anomalies,
    rendered_marks, rendered_regions, same_ranges, scanned, starts_at, starts_below, text_mark,
    unapplied, Mark,
};
use crate::regions::{
    candidates, column_candidate, condition_compiles, condition_holds, field_candidate, field_end,
    field_start, first_uncompilable, resolve, resolved_regions, skipped_rules, Region, Resolved,
};
use crate::pipeline::{highlighted, Highlighted};
use crate::rules::{ColumnRule, FieldRule, RuleSet};
use crate::search::{lemma_nth_occurrence_absent, occurrences};

verus! {

/// The marks of a text that no boundary interrupts.
pub open spec fn plain(text: Seq<char>) -> Seq<Mark> {
    Seq::new(text.len(), |i: int| text_mark(text[i]))
}

/// The first field of a line starts at offset 0, wherever the delimiters
/// stand.
pub proof fn lemma_first_field_starts_at_origin(rule: FieldRule, delimiter: char, line: Seq<char>)
    requires
        rule.field == Some(1nat),
    ensures
        field_candidate(rule, delimiter, line).span matches Some(span) && span.0 == 0,
{
}

/// A field whose closing delimiter the line does not hold extends to the end
/// of the line.
pub proof fn lemma_field_without_delimiter_ends_with_line(
    rule: FieldRule,
    delimiter: char,
    line: Seq<char>,
)
    requires
        rule.field matches Some(k) && occurrences(line, delimiter) < k,
    ensures
        field_candidate(rule, delimiter, line).span matches Some(span) && span.1 == line.len(),
{
    lemma_nth_occurrence_absent(line, delimiter, rule.field->0);
}

/// A lone column rule that applies to a line yields the one region
/// `[start - 1, start - 1 + length)`, not yet applied, and no diagnostic.
pub proof fn lemma_column_rule_resolves_to_its_range(rule: ColumnRule, line: Seq<char>)
    requires
        rule.start is Some,
        rule.length is Some,
        rule.start->0 >= 1,
        condition_compiles(rule.condition),
        condition_holds(rule.condition, line),
    ensures
        resolve(RuleSet::Columns(seq![rule]), line) == Ok::<Resolved, nat>(
            Resolved {
                regions: seq![
                    Region {
                        start: (rule.start->0 - 1) as nat,
                        end: (rule.start->0 - 1 + rule.length->0) as nat,
                        name: rule.name,
                        applied: false,
                    },
                ],
                anomalies: Seq::empty(),
            },
        ),
{
    let cands = candidates(RuleSet::Columns(seq![rule]), line);
    assert(cands =~= seq![column_candidate(rule)]);
    assert(cands.drop_last() =~= Seq::empty());
    assert(first_uncompilable(cands.drop_last()) is None);
    assert(resolved_regions(cands.drop_last(), line) =~= Seq::empty());
    assert(skipped_rules(cands.drop_last(), line) =~= Seq::empty());
    assert(resolved_regions(cands, line) =~= seq![
        Region {
            start: (rule.start->0 - 1) as nat,
            end: (rule.start->0 - 1 + rule.length->0) as nat,
            name: rule.name,
            applied: false,
        },
    ]);
}

/// Rules none of which applies to a line yield no region and no diagnostic.
pub proof fn lemma_no_applicable_rule_no_region(rules: RuleSet, line: Seq<char>)
    requires
        forall|i: int|
            0 <= i < candidates(rules, line).len() ==> {
                let c = #[trigger] candidates(rules, line)[i];
                condition_compiles(c.condition) && !condition_holds(c.condition, line)
            },
    ensures
        resolve(rules, line) == Ok::<Resolved, nat>(
            Resolved { regions: Seq::empty(), anomalies: Seq::empty() },
        ),
{
    let cands = candidates(rules, line);
    lemma_inapplicable_prefix(cands, line, cands.len() as int);
    assert(cands.take(cands.len() as int) =~= cands);
}

/// The first `k` of candidates none of which applies yield nothing.
proof fn lemma_inapplicable_prefix(cands: Seq<crate::regions::Candidate>, line: Seq<char>, k: int)
    requires
        0 <= k <= cands.len(),
        forall|i: int|
            0 <= i < cands.len() ==> condition_compiles((#[trigger] cands[i]).condition)
                && !condition_holds(cands[i].condition, line),
    ensures
        first_uncompilable(cands.take(k)) is None,
        resolved_regions(cands.take(k), line) == Seq::<Region>::empty(),
        skipped_rules(cands.take(k), line) == Seq::<Anomaly>::empty(),
    decreases k,
{
    if k > 0 {
        lemma_inapplicable_prefix(cands, line, k - 1);
        assert(cands.take(k).drop_last() =~= cands.take(k - 1));
        assert(cands.take(k).last() == cands[k - 1]);
    }
}

/// Without regions the columns of a line are its characters.
proof fn lemma_scanned_without_regions(line: Seq<char>, palette: nat, cols: int)
    requires
        0 <= cols <= line.len(),
    ensures
        scanned(line, Seq::empty(), palette, cols) == plain(line.take(cols)),
    decreases cols,
{
    if cols > 0 {
        lemma_scanned_without_regions(line, palette, cols - 1);
        let regions = Seq::<Region>::empty();
        assert(opens_at(regions, palette, cols - 1, 0) =~= Seq::empty());
        assert(closes(ends_at(regions, cols)) =~= Seq::empty());
        assert(column_marks(line, regions, palette, cols - 1) =~= seq![text_mark(line[cols - 1])]);
        assert(scanned(line, regions, palette, cols) =~= plain(line.take(cols)));
    } else {
        assert(scanned(line, Seq::empty(), palette, cols) =~= plain(line.take(cols)));
    }
}

/// A line without regions is rendered as its own characters, unchanged and in
/// order, followed by the line break, and without a diagnostic.
pub proof fn lemma_no_region_plain_line(line: Seq<char>, palette: nat, line_index: nat)
    ensures
        rendered_marks(line, Seq::empty(), palette) == plain(line).push(Mark::LineBreak),
        rendered_regions(Seq::empty(), line.len() as int) == Seq::<Region>::empty(),
        rendered_anomalies(Seq::empty(), line.len() as int, line_index) == Seq::<Anomaly>::empty(),
{
    let regions = Seq::<Region>::empty();
    lemma_scanned_without_regions(line, palette, line.len() as int);
    assert(line.take(line.len() as int) =~= line);
    assert(closes(forced_closes(regions, line.len() as int)) =~= Seq::empty());
    assert(rendered_marks(line, regions, palette) =~= plain(line).push(Mark::LineBreak));
    assert(rendered_regions(regions, line.len() as int) =~= regions);
    assert(rendered_anomalies(regions, line.len() as int, line_index) =~= Seq::empty());
}

/// The marks of the first `cols` columns of a line with the one region
/// `[start, end)`, where `start < end`: the characters before the region, then
/// its opening boundary in the first colour, the characters inside it, its
/// closing boundary, and the characters after it, as far as the columns reach.
pub open spec fn scanned_around(line: Seq<char>, region: Region, cols: int) -> Seq<Mark> {
    let start = region.start as int;
    let end = region.end as int;
    let opening = Mark::Open { name: region.name, color: 0 };
    if cols <= start {
        plain(line.take(cols))
    } else if cols < end {
        plain(line.take(start)).push(opening) + plain(line.subrange(start, cols))
    } else {
        plain(line.take(start)).push(opening) + plain(line.subrange(start, end)).push(Mark::Close)
            + plain(line.subrange(end, cols))
    }
}

/// What one region opens and closes at a column.
proof fn lemma_single_region_column(line: Seq<char>, region: Region, palette: nat, col: int)
    requires
        palette > 0,
        0 <= col < line.len(),
    ensures
        column_marks(line, seq![region], palette, col) == if region.start == col {
            seq![Mark::Open { name: region.name, color: 0 }]
        } else {
            Seq::<Mark>::empty()
        }.push(text_mark(line[col])) + if region.end == col + 1 {
            seq![Mark::Close]
        } else {
            Seq::<Mark>::empty()
        },
{
    let regions = seq![region];
    lemma_single_region_counts(region, region.start as int, 0);
    lemma_single_region_counts(region, col + 1, 0);
    assert(regions.take(0) =~= Seq::empty());
    assert(opens_at(regions, palette, col, 0) =~= Seq::empty());
    assert(starts_at(regions.take(0), region.start as int) == 0);
    assert(opening_rank(regions, 0) == 0);
    assert(opening_mark(regions, palette, 0) == Mark::Open { name: region.name, color: 0 });
    assert(opens_at(regions, palette, col, 1) =~= if region.start == col {
        seq![Mark::Open { name: region.name, color: 0 }]
    } else {
        Seq::<Mark>::empty()
    });
    assert(closes(ends_at(regions, col + 1)) =~= if region.end == col + 1 {
        seq![Mark::Close]
    } else {
        Seq::<Mark>::empty()
    });
}

/// The columns of a line with one region are the line's characters around the
/// region's two boundaries.
proof fn lemma_scanned_single_region(line: Seq<char>, region: Region, palette: nat, cols: int)
    requires
        palette > 0,
        region.start < region.end,
        0 <= cols <= line.len(),
    ensures
        scanned(line, seq![region], palette, cols) == scanned_around(line, region, cols),
    decreases cols,
{
    if cols > 0 {
        lemma_scanned_single_region(line, region, palette, cols - 1);
        lemma_single_region_column(line, region, palette, cols - 1);
        assert(scanned(line, seq![region], palette, cols) =~= scanned_around(line, region, cols));
    } else {
        assert(scanned(line, seq![region], palette, cols) =~= scanned_around(line, region, cols));
    }
}

/// What one region counts for on a line of `len` characters.
proof fn lemma_single_region_counts(region: Region, len: int, line_index: nat)
    ensures
        starts_below(seq![region], len) == if region.start < len {
            1nat
        } else {
            0nat
        },
        ends_at(seq![region], len) == if region.end == len {
            1nat
        } else {
            0nat
        },
        ends_within(seq![region], len) == if 1 <= region.end <= len {
            1nat
        } else {
            0nat
        },
        unapplied(seq![region], line_index) == if region.applied {
            Seq::<Anomaly>::empty()
        } else {
            seq![Anomaly::RegionNotApplied { name: region.name, line: line_index }]
        },
{
    let none = Seq::<Region>::empty();
    assert(seq![region].drop_last() =~= none);
    assert(starts_below(none, len) == 0);
    assert(ends_at(none, len) == 0);
    assert(ends_within(none, len) == 0);
    assert(unapplied(none, line_index) =~= Seq::empty());
    assert(unapplied(seq![region], line_index) =~= if region.applied {
        Seq::<Anomaly>::empty()
    } else {
        seq![Anomaly::RegionNotApplied { name: region.name, line: line_index }]
    });
}

/// A region that lies within the line is wrapped in exactly one pair of
/// boundaries, which stand around the characters `[start, end)`, and is
/// applied; nothing is reported.
pub proof fn lemma_region_within_line_is_wrapped(
    line: Seq<char>,
    region: Region,
    palette: nat,
    line_index: nat,
)
    requires
        palette > 0,
        region.start < region.end <= line.len(),
    ensures
        rendered_marks(line, seq![region], palette) == (plain(line.take(region.start as int)).push(
            Mark::Open { name: region.name, color: 0 },
        ) + plain(line.subrange(region.start as int, region.end as int)).push(Mark::Close) + plain(
            line.subrange(region.end as int, line.len() as int),
        )).push(Mark::LineBreak),
        rendered_regions(seq![region], line.len() as int) == seq![
            Region { start: region.start, end: region.end, name: region.name, applied: true },
        ],
        rendered_anomalies(seq![region], line.len() as int, line_index) == Seq::<Anomaly>::empty(),
{
    let len = line.len() as int;
    let regions = seq![region];
    lemma_scanned_single_region(line, region, palette, len);
    lemma_single_region_counts(region, len, line_index);
    assert(closes(forced_closes(regions, len)) =~= Seq::empty());
    assert(rendered_marks(line, regions, palette) =~= scanned_around(line, region, len).push(
        Mark::LineBreak,
    ));
    let after = Region { start: region.start, end: region.end, name: region.name, applied: true };
    assert(rendered_regions(regions, len) =~= seq![after]);
    lemma_single_region_counts(after, len, line_index);
    assert(rendered_anomalies(regions, len, line_index) =~= Seq::empty());
}

/// A region that starts within the line and ends beyond it is opened at its
/// start and closed by force at the end of the line, so that the characters
/// from its start to the end of the line are wrapped. The region is not
/// applied; the line is reported as too short, and the region as not applied.
pub proof fn lemma_region_beyond_line_is_closed_by_force(
    line: Seq<char>,
    region: Region,
    palette: nat,
    line_index: nat,
)
    requires
        palette > 0,
        region.start < line.len() < region.end,
        !region.applied,
    ensures
        rendered_marks(line, seq![region], palette) == (plain(line.take(region.start as int)).push(
            Mark::Open { name: region.name, color: 0 },
        ) + plain(line.subrange(region.start as int, line.len() as int)).push(Mark::Close)).push(
            Mark::LineBreak,
        ),
        rendered_regions(seq![region], line.len() as int) == seq![region],
        rendered_anomalies(seq![region], line.len() as int, line_index) == seq![
            Anomaly::LineTooShort { line: line_index },
            Anomaly::RegionNotApplied { name: region.name, line: line_index },
        ],
{
    let len = line.len() as int;
    let regions = seq![region];
    lemma_scanned_single_region(line, region, palette, len);
    lemma_single_region_counts(region, len, line_index);
    assert(closes(forced_closes(regions, len)) =~= seq![Mark::Close]);
    assert(rendered_marks(line, regions, palette) =~= (plain(line.take(region.start as int)).push(
        Mark::Open { name: region.name, color: 0 },
    ) + plain(line.subrange(region.start as int, len)).push(Mark::Close)).push(Mark::LineBreak));
    assert(rendered_regions(regions, len) =~= regions);
    assert(rendered_anomalies(regions, len, line_index) =~= seq![
        Anomaly::LineTooShort { line: line_index },
        Anomaly::RegionNotApplied { name: region.name, line: line_index },
    ]);
}

/// A region that lies beyond the line leaves the line as it is: no boundary
/// is opened, and the region is reported as not applied.
pub proof fn lemma_region_after_line_is_not_opened(
    line: Seq<char>,
    region: Region,
    palette: nat,
    line_index: nat,
)
    requires
        palette > 0,
        line.len() <= region.start < region.end,
        !region.applied,
    ensures
        rendered_marks(line, seq![region], palette) == plain(line).push(Mark::LineBreak),
        rendered_regions(seq![region], line.len() as int) == seq![region],
        rendered_anomalies(seq![region], line.len() as int, line_index) == seq![
            Anomaly::RegionNotApplied { name: region.name, line: line_index },
        ],
{
    let len = line.len() as int;
    let regions = seq![region];
    lemma_scanned_single_region(line, region, palette, len);
    lemma_single_region_counts(region, len, line_index);
    assert(line.take(len) =~= line);
    assert(closes(forced_closes(regions, len)) =~= Seq::empty());
    assert(rendered_marks(line, regions, palette) =~= plain(line).push(Mark::LineBreak));
    assert(rendered_regions(regions, len) =~= regions);
    assert(rendered_anomalies(regions, len, line_index) =~= seq![
        Anomaly::RegionNotApplied { name: region.name, line: line_index },
    ]);
}

/// The characters among `marks`, in order.
pub open spec fn letters(marks: Seq<Mark>) -> Seq<char>
    decreases marks.len(),
{
    if marks.len() == 0 {
        Seq::empty()
    } else {
        match marks.last() {
            Mark::Text(c) => letters(marks.drop_last()).push(c),
            _ => letters(marks.drop_last()),
        }
    }
}

/// The colours of the opening boundaries among `marks`, in order.
pub open spec fn opening_colors(marks: Seq<Mark>) -> Seq<nat>
    decreases marks.len(),
{
    if marks.len() == 0 {
        Seq::empty()
    } else {
        match marks.last() {
            Mark::Open { color, .. } => opening_colors(marks.drop_last()).push(color),
            _ => opening_colors(marks.drop_last()),
        }
    }
}

/// The first `count` colours of a palette of `palette` colours that is walked
/// cyclically from index 0.
pub open spec fn cycle(palette: nat, count: nat) -> Seq<nat> {
    Seq::new(count, |i: int| (i % palette as int) as nat)
}

/// The characters and the colours of two runs of marks follow one another.
proof fn lemma_marks_concat(a: Seq<Mark>, b: Seq<Mark>)
    ensures
        letters(a + b) == letters(a) + letters(b),
        opening_colors(a + b) == opening_colors(a) + opening_colors(b),
    decreases b.len(),
{
    if b.len() == 0 {
        assert(a + b =~= a);
        assert(letters(a) + letters(b) =~= letters(a));
        assert(opening_colors(a) + opening_colors(b) =~= opening_colors(a));
    } else {
        lemma_marks_concat(a, b.drop_last());
        assert((a + b).drop_last() =~= a + b.drop_last());
        assert((a + b).last() == b.last());
        assert(letters(a + b) =~= letters(a) + letters(b));
        assert(opening_colors(a + b) =~= opening_colors(a) + opening_colors(b));
    }
}

/// Closing boundaries hold no character and no colour.
proof fn lemma_closes_hold_nothing(count: nat)
    ensures
        letters(closes(count)) == Seq::<char>::empty(),
        opening_colors(closes(count)) == Seq::<nat>::empty(),
    decreases count,
{
    if count > 0 {
        lemma_closes_hold_nothing((count - 1) as nat);
        assert(closes(count).drop_last() =~= closes((count - 1) as nat));
    }
}

/// The boundaries opened before a column hold no character, and their
/// colours go on from where the earlier columns left the palette.
proof fn lemma_opens_hold_colors(regions: Seq<Region>, palette: nat, col: int, k: int)
    requires
        palette > 0,
        0 <= k <= regions.len(),
    ensures
        letters(opens_at(regions, palette, col, k)) == Seq::<char>::empty(),
        opening_colors(opens_at(regions, palette, col, k)) == Seq::new(
            starts_at(regions.take(k), col),
            |i: int| ((starts_below(regions, col) + i) % palette as int) as nat,
        ),
    decreases k,
{
    let expected = Seq::new(
        starts_at(regions.take(k), col),
        |i: int| ((starts_below(regions, col) + i) % palette as int) as nat,
    );
    if k > 0 {
        lemma_opens_hold_colors(regions, palette, col, k - 1);
        lemma_counts_step(regions, k - 1, col);
        if regions[k - 1].start == col {
            assert(opens_at(regions, palette, col, k).drop_last() =~= opens_at(
                regions,
                palette,
                col,
                k - 1,
            ));
        }
        assert(opening_colors(opens_at(regions, palette, col, k)) =~= expected);
    } else {
        assert(regions.take(0) =~= Seq::empty());
        assert(opening_colors(opens_at(regions, palette, col, k)) =~= expected);
    }
}

/// The first columns of a rendered line hold the first characters of the
/// line, and their opening boundaries walk the palette cyclically.
proof fn lemma_scanned_holds(line: Seq<char>, regions: Seq<Region>, palette: nat, cols: int)
    requires
        palette > 0,
        0 <= cols <= line.len(),
    ensures
        letters(scanned(line, regions, palette, cols)) == line.take(cols),
        opening_colors(scanned(line, regions, palette, cols)) == cycle(
            palette,
            starts_below(regions, cols),
        ),
    decreases cols,
{
    if cols > 0 {
        let col = cols - 1;
        lemma_scanned_holds(line, regions, palette, col);
        let before = scanned(line, regions, palette, col);
        let opening = opens_at(regions, palette, col, regions.len() as int);
        let closing = closes(ends_at(regions, col + 1));
        lemma_opens_hold_colors(regions, palette, col, regions.len() as int);
        lemma_closes_hold_nothing(ends_at(regions, col + 1));
        lemma_counts_split(regions, col);
        assert(regions.take(regions.len() as int) =~= regions);
        let text = opening.push(text_mark(line[col]));
        assert(text.drop_last() =~= opening);
        assert(letters(text) =~= seq![line[col]]);
        assert(opening_colors(text) == opening_colors(opening));
        lemma_marks_concat(text, closing);
        lemma_marks_concat(before, text + closing);
        assert(letters(scanned(line, regions, palette, cols)) =~= line.take(cols));
        assert(opening_colors(scanned(line, regions, palette, cols)) =~= cycle(
            palette,
            starts_below(regions, cols),
        ));
    } else {
        lemma_counts_at_origin(regions);
        assert(letters(scanned(line, regions, palette, cols)) =~= line.take(cols));
        assert(opening_colors(scanned(line, regions, palette, cols)) =~= cycle(
            palette,
            starts_below(regions, cols),
        ));
    }
}

/// Whatever the regions, a rendered line holds the characters of the line,
/// all of them, unchanged and in order.
pub proof fn lemma_rendering_keeps_the_text(line: Seq<char>, regions: Seq<Region>, palette: nat)
    requires
        palette > 0,
    ensures
        letters(rendered_marks(line, regions, palette)) == line,
{
    let len = line.len() as int;
    let body = scanned(line, regions, palette, len);
    let forced = closes(forced_closes(regions, len));
    lemma_scanned_holds(line, regions, palette, len);
    lemma_closes_hold_nothing(forced_closes(regions, len));
    lemma_marks_concat(body, forced);
    assert(line.take(len) =~= line);
    assert(rendered_marks(line, regions, palette).drop_last() =~= body + forced);
    assert(letters(rendered_marks(line, regions, palette)) =~= line);
}

/// The opening boundaries of a rendered line take the colours of the palette
/// in turn, from index 0 and around again: the `i`-th boundary opened on the
/// line, counted from 0, has the colour `i % palette`. One boundary is opened
/// for each region that starts within the line.
pub proof fn lemma_colors_cycle(line: Seq<char>, regions: Seq<Region>, palette: nat)
    requires
        palette > 0,
    ensures
        opening_colors(rendered_marks(line, regions, palette)) == cycle(
            palette,
            starts_below(regions, line.len() as int),
        ),
{
    let len = line.len() as int;
    let body = scanned(line, regions, palette, len);
    let forced = closes(forced_closes(regions, len));
    lemma_scanned_holds(line, regions, palette, len);
    lemma_closes_hold_nothing(forced_closes(regions, len));
    lemma_marks_concat(body, forced);
    assert(rendered_marks(line, regions, palette).drop_last() =~= body + forced);
    assert(opening_colors(rendered_marks(line, regions, palette)) =~= cycle(
        palette,
        starts_below(regions, len),
    ));
}

/// Rendering a line once more with the regions that a first rendering left
/// gives the same marks, leaves the regions as they are, and reports what
/// the first rendering reported.
pub proof fn lemma_rendering_again_changes_nothing(
    line: Seq<char>,
    regions: Seq<Region>,
    palette: nat,
    line_index: nat,
)
    ensures
        ({
            let len = line.len() as int;
            let once = rendered_regions(regions, len);
            &&& rendered_marks(line, once, palette) == rendered_marks(line, regions, palette)
            &&& rendered_regions(once, len) == once
            &&& rendered_anomalies(once, len, line_index) == rendered_anomalies(
                regions,
                len,
                line_index,
            )
        }),
{
    let len = line.len() as int;
    let once = rendered_regions(regions, len);
    assert(same_ranges(regions, once));
    lemma_scanned_ignores_applied(line, regions, once, palette, len);
    lemma_counts_ignore_applied(regions, once, len);
    assert(rendered_regions(once, len) =~= once);
}

/// Whether `text` holds none of the characters that HTML gives a meaning to.
pub open spec fn is_literal(text: Seq<char>) -> bool {
    forall|i: int|
        0 <= i < text.len() ==> {
            let c = #[trigger] text[i];
            c != '&' && c != '<' && c != '>' && c != '"' && c != '\''
        }
}

/// Text without characters that carry meaning in HTML is written as it is.
pub proof fn lemma_literal_text_is_unchanged(text: Seq<char>)
    requires
        is_literal(text),
    ensures
        escaped(text) == text,
    decreases text.len(),
{
    if text.len() > 0 {
        assert(is_literal(text.drop_last())) by {
            assert forall|i: int| 0 <= i < text.drop_last().len() implies {
                let c = #[trigger] text.drop_last()[i];
                c != '&' && c != '<' && c != '>' && c != '"' && c != '\''
            } by {
                assert(text.drop_last()[i] == text[i]);
            }
        }
        lemma_literal_text_is_unchanged(text.drop_last());
        let c = text.last();
        assert(c == text[text.len() - 1]);
        assert(escaped_char(c) =~= seq![c]);
        assert(escaped(text) =~= text);
    }
}

/// Marks without boundaries are written as the escaped text that they hold.
pub proof fn lemma_plain_marks_are_escaped_text(text: Seq<char>, colors: Seq<Seq<char>>)
    ensures
        html_of(plain(text), colors) == escaped(text),
    decreases text.len(),
{
    if text.len() > 0 {
        lemma_plain_marks_are_escaped_text(text.drop_last(), colors);
        assert(plain(text).drop_last() =~= plain(text.drop_last()));
        assert(plain(text).last() == text_mark(text.last()));
    }
}

/// Where no rule applies to a line, the line is put out as its own text,
/// escaped for HTML and followed by the line break; it has no region, and
/// nothing is reported. Text that holds no character with a meaning in HTML
/// is put out unchanged.
pub proof fn lemma_line_without_applicable_rule_is_kept(
    rules: RuleSet,
    line_index: nat,
    line: Seq<char>,
    colors: Seq<Seq<char>>,
)
    requires
        forall|i: int|
            0 <= i < candidates(rules, line).len() ==> {
                let c = #[trigger] candidates(rules, line)[i];
                condition_compiles(c.condition) && !condition_holds(c.condition, line)
            },
    ensures
        highlighted(rules, line_index, line, colors) == Ok::<Highlighted, nat>(
            Highlighted {
                html: escaped(line) + "\n"@,
                regions: Seq::empty(),
                anomalies: Seq::empty(),
            },
        ),
        is_literal(line) ==> escaped(line) == line,
{
    lemma_no_applicable_rule_no_region(rules, line);
    lemma_no_region_plain_line(line, colors.len(), line_index);
    lemma_plain_marks_are_escaped_text(line, colors);
    let marks = plain(line).push(Mark::LineBreak);
    assert(marks.drop_last() =~= plain(line));
    assert(html_of(marks, colors) == escaped(line) + "\n"@);
    assert(Seq::<Anomaly>::empty() + Seq::<Anomaly>::empty() =~= Seq::<Anomaly>::empty());
    if is_literal(line) {
        lemma_literal_text_is_unchanged(line);
    }
}

/// The HTML of two runs of marks follows one another.
pub proof fn lemma_html_concat(a: Seq<Mark>, b: Seq<Mark>, colors: Seq<Seq<char>>)
    ensures
        html_of(a + b, colors) == html_of(a, colors) + html_of(b, colors),
    decreases b.len(),
{
    if b.len() == 0 {
        assert(a + b =~= a);
        assert(html_of(a, colors) + html_of(b, colors) =~= html_of(a, colors));
    } else {
        lemma_html_concat(a, b.drop_last(), colors);
        assert((a + b).drop_last() =~= a + b.drop_last());
        assert((a + b).last() == b.last());
        assert(html_of(a + b, colors) =~= html_of(a, colors) + html_of(b, colors));
    }
}

/// A lone delimiter rule that applies to a line yields the one region of its
/// field, and no diagnostic.
pub proof fn lemma_field_rule_resolves_to_its_field(
    rule: FieldRule,
    delimiter: char,
    line: Seq<char>,
)
    requires
        rule.field is Some,
        condition_compiles(rule.condition),
        condition_holds(rule.condition, line),
    ensures
        resolve(RuleSet::Fields(delimiter, seq![rule]), line) == Ok::<Resolved, nat>(
            Resolved {
                regions: seq![
                    Region {
                        start: field_start(line, delimiter, rule.field->0),
                        end: field_end(line, delimiter, rule.field->0),
                        name: rule.name,
                        applied: false,
                    },
                ],
                anomalies: Seq::empty(),
            },
        ),
{
    let cands = candidates(RuleSet::Fields(delimiter, seq![rule]), line);
    assert(cands =~= seq![field_candidate(rule, delimiter, line)]);
    assert(cands.drop_last() =~= Seq::empty());
    assert(first_uncompilable(cands.drop_last()) is None);
    assert(resolved_regions(cands.drop_last(), line) =~= Seq::empty());
    assert(skipped_rules(cands.drop_last(), line) =~= Seq::empty());
    assert(resolved_regions(cands, line) =~= seq![
        Region {
            start: field_start(line, delimiter, rule.field->0),
            end: field_end(line, delimiter, rule.field->0),
            name: rule.name,
            applied: false,
        },
    ]);
}

/// A lone column rule that applies to a line at least as long as the rule
/// reaches puts the line out with exactly one element, which stands around
/// the characters `[start - 1, start - 1 + length)` and has the first colour
/// of the palette. The rule's region is applied, and nothing is reported.
pub proof fn lemma_column_rule_wraps_its_columns(
    rule: ColumnRule,
    line_index: nat,
    line: Seq<char>,
    colors: Seq<Seq<char>>,
)
    requires
        colors.len() > 0,
        rule.start is Some,
        rule.length is Some,
        rule.start->0 >= 1,
        rule.length->0 >= 1,
        rule.start->0 - 1 + rule.length->0 <= line.len(),
        condition_compiles(rule.condition),
        condition_holds(rule.condition, line),
    ensures
        ({
            let start = rule.start->0 - 1;
            let end = rule.start->0 - 1 + rule.length->0;
            highlighted(RuleSet::Columns(seq![rule]), line_index, line, colors) == Ok::<
                Highlighted,
                nat,
            >(
                Highlighted {
                    html: escaped(line.take(start)) + open_tag(rule.name, colors[0]) + escaped(
                        line.subrange(start, end),
                    ) + "</abbr>"@ + escaped(line.subrange(end, line.len() as int)) + "\n"@,
                    regions: seq![
                        Region {
                            start: start as nat,
                            end: end as nat,
                            name: rule.name,
                            applied: true,
                        },
                    ],
                    anomalies: Seq::empty(),
                },
            )
        }),
{
    let start = rule.start->0 - 1;
    let end = rule.start->0 - 1 + rule.length->0;
    let len = line.len() as int;
    let region = Region { start: start as nat, end: end as nat, name: rule.name, applied: false };
    lemma_column_rule_resolves_to_its_range(rule, line);
    lemma_region_within_line_is_wrapped(line, region, colors.len(), line_index);
    let opening = Mark::Open { name: rule.name, color: 0 };
    let before = plain(line.take(start)).push(opening);
    let inside = plain(line.subrange(start, end)).push(Mark::Close);
    let after = plain(line.subrange(end, len));
    let all = (before + inside + after).push(Mark::LineBreak);
    lemma_plain_marks_are_escaped_text(line.take(start), colors);
    lemma_plain_marks_are_escaped_text(line.subrange(start, end), colors);
    lemma_plain_marks_are_escaped_text(line.subrange(end, len), colors);
    assert(before.drop_last() =~= plain(line.take(start)));
    assert(inside.drop_last() =~= plain(line.subrange(start, end)));
    assert(all.drop_last() =~= before + inside + after);
    lemma_html_concat(before, inside, colors);
    lemma_html_concat(before + inside, after, colors);
    assert(html_of(all, colors) =~= escaped(line.take(start)) + open_tag(rule.name, colors[0])
        + escaped(line.subrange(start, end)) + "</abbr>"@ + escaped(line.subrange(end, len))
        + "\n"@);
    assert(Seq::<Anomaly>::empty() + Seq::<Anomaly>::empty() =~= Seq::<Anomaly>::empty());
}

/// A lone column rule that applies to a line which ends inside the rule's
/// range puts the line out with one element, which stands around the
/// characters from `start - 1` to the end of the line and is closed there. The
/// rule's region is not applied; the line is reported as too short, and the
/// region as not applied.
pub proof fn lemma_column_rule_beyond_line_is_closed_by_force(
    rule: ColumnRule,
    line_index: nat,
    line: Seq<char>,
    colors: Seq<Seq<char>>,
)
    requires
        colors.len() > 0,
        rule.start is Some,
        rule.length is Some,
        rule.start->0 >= 1,
        rule.start->0 - 1 < line.len() < rule.start->0 - 1 + rule.length->0,
        condition_compiles(rule.condition),
        condition_holds(rule.condition, line),
    ensures
        ({
            let start = rule.start->0 - 1;
            let end = rule.start->0 - 1 + rule.length->0;
            highlighted(RuleSet::Columns(seq![rule]), line_index, line, colors) == Ok::<
                Highlighted,
                nat,
            >(
                Highlighted {
                    html: escaped(line.take(start)) + open_tag(rule.name, colors[0]) + escaped(
                        line.subrange(start, line.len() as int),
                    ) + "</abbr>"@ + "\n"@,
                    regions: seq![
                        Region {
                            start: start as nat,
                            end: end as nat,
                            name: rule.name,
                            applied: false,
                        },
                    ],
                    anomalies: seq![
                        Anomaly::LineTooShort { line: line_index },
                        Anomaly::RegionNotApplied { name: rule.name, line: line_index },
                    ],
                },
            )
        }),
{
    let start = rule.start->0 - 1;
    let end = rule.start->0 - 1 + rule.length->0;
    let len = line.len() as int;
    let region = Region { start: start as nat, end: end as nat, name: rule.name, applied: false };
    lemma_column_rule_resolves_to_its_range(rule, line);
    lemma_region_beyond_line_is_closed_by_force(line, region, colors.len(), line_index);
    let opening = Mark::Open { name: rule.name, color: 0 };
    let before = plain(line.take(start)).push(opening);
    let inside = plain(line.subrange(start, len)).push(Mark::Close);
    let all = (before + inside).push(Mark::LineBreak);
    lemma_plain_marks_are_escaped_text(line.take(start), colors);
    lemma_plain_marks_are_escaped_text(line.subrange(start, len), colors);
    assert(before.drop_last() =~= plain(line.take(start)));
    assert(inside.drop_last() =~= plain(line.subrange(start, len)));
    assert(all.drop_last() =~= before + inside);
    lemma_html_concat(before, inside, colors);
    assert(html_of(all, colors) =~= escaped(line.take(start)) + open_tag(rule.name, colors[0])
        + escaped(line.subrange(start, len)) + "</abbr>"@ + "\n"@);
    let reported = seq![
        Anomaly::LineTooShort { line: line_index },
        Anomaly::RegionNotApplied { name: rule.name, line: line_index },
    ];
    assert(Seq::<Anomaly>::empty() + reported =~= reported);
}

} // verus!
