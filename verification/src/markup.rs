//! The line renderer: walks the characters of a line and opens and closes
//! annotation boundaries where its regions start and end.

use vstd::prelude::*;
use crate::diagnostics::{anomalies, Anomaly, Diagnostic};
use crate::regions::{region_views, HighlightRegion, Region};
use crate::text::chars_of;

verus! {

/// One piece of a rendered line.
#[derive(Debug, Clone, PartialEq, Eq)]
pub enum Fragment {
    /// The opening boundary of the region called `name`, styled with the
    /// palette colour at index `color`.
    Open { name: String, color: usize },
    /// One character of the line, as it stands in the line.
    Text(char),
    /// A closing boundary.
    Close,
    /// The end of the line.
    LineBreak,
}

/// The mathematical content of a fragment.
pub enum Mark {
    Open { name: Seq<char>, color: nat },
    Text(char),
    Close,
    LineBreak,
}

impl View for Fragment {
    type V = Mark;

    open spec fn view(&self) -> Mark {
        match self {
            Fragment::Open { name, color } => Mark::Open { name: name@, color: *color as nat },
            Fragment::Text(c) => Mark::Text(*c),
            Fragment::Close => Mark::Close,
            Fragment::LineBreak => Mark::LineBreak,
        }
    }
}

/// The marks that `fragments` stand for, in order.
pub open spec fn marks(fragments: Seq<Fragment>) -> Seq<Mark> {
    fragments.map_values(|f: Fragment| f@)
}

/// A rendered line with the diagnostics met while rendering it.
#[derive(Debug, Clone, PartialEq, Eq)]
pub struct Rendering {
    pub fragments: Vec<Fragment>,
    pub diagnostics: Vec<Diagnostic>,
}

/// How many of `regions` start before column `col`.
pub open spec fn starts_below(regions: Seq<Region>, col: int) -> nat
    decreases regions.len(),
{
    if regions.len() == 0 {
        0
    } else {
        starts_below(regions.drop_last(), col) + if regions.last().start < col {
            1nat
        } else {
            0nat
        }
    }
}

/// How many of `regions` start at column `col`.
pub open spec fn starts_at(regions: Seq<Region>, col: int) -> nat
    decreases regions.len(),
{
    if regions.len() == 0 {
        0
    } else {
        starts_at(regions.drop_last(), col) + if regions.last().start == col {
            1nat
        } else {
            0nat
        }
    }
}

/// How many of `regions` end with column `end` as the first one outside.
pub open spec fn ends_at(regions: Seq<Region>, end: int) -> nat
    decreases regions.len(),
{
    if regions.len() == 0 {
        0
    } else {
        ends_at(regions.drop_last(), end) + if regions.last().end == end {
            1nat
        } else {
            0nat
        }
    }
}

/// How many of `regions` meet their closing boundary within the first `len`
/// columns: those whose end is at least 1 and at most `len`.
pub open spec fn ends_within(regions: Seq<Region>, len: int) -> nat
    decreases regions.len(),
{
    if regions.len() == 0 {
        0
    } else {
        ends_within(regions.drop_last(), len) + if 1 <= regions.last().end <= len {
            1nat
        } else {
            0nat
        }
    }
}

/// The number of boundaries that are opened before region `k`'s own: those of
/// the regions that start at an earlier column, and of the regions before `k`
/// that start at the same column.
pub open spec fn opening_rank(regions: Seq<Region>, k: int) -> nat {
    starts_below(regions, regions[k].start as int) + starts_at(
        regions.take(k),
        regions[k].start as int,
    )
}

/// The opening boundary of region `k`: the palette is walked cyclically, one
/// step for every boundary opened on the line.
pub open spec fn opening_mark(regions: Seq<Region>, palette: nat, k: int) -> Mark {
    Mark::Open { name: regions[k].name, color: opening_rank(regions, k) % palette }
}

/// The boundaries that the first `k` regions open before column `col`, in
/// region order.
pub open spec fn opens_at(regions: Seq<Region>, palette: nat, col: int, k: int) -> Seq<Mark>
    decreases k,
{
    if k <= 0 {
        Seq::empty()
    } else {
        let before = opens_at(regions, palette, col, k - 1);
        if regions[k - 1].start == col {
            before.push(opening_mark(regions, palette, k - 1))
        } else {
            before
        }
    }
}

/// The mark of one character of the line.
pub open spec fn text_mark(c: char) -> Mark {
    Mark::Text(c)
}

/// `count` closing boundaries.
pub open spec fn closes(count: nat) -> Seq<Mark> {
    Seq::new(count, |i: int| Mark::Close)
}

/// The marks of column `col`: the boundaries that open before the character,
/// the character, and one closing boundary for each region that ends after it.
pub open spec fn column_marks(
    line: Seq<char>,
    regions: Seq<Region>,
    palette: nat,
    col: int,
) -> Seq<Mark> {
    let opening = opens_at(regions, palette, col, regions.len() as int);
    let closing = closes(ends_at(regions, col + 1));
    opening.push(text_mark(line[col])) + closing
}

/// The marks of the first `cols` columns of `line`.
pub open spec fn scanned(line: Seq<char>, regions: Seq<Region>, palette: nat, cols: int) -> Seq<
    Mark,
>
    decreases cols,
{
    if cols <= 0 {
        Seq::empty()
    } else {
        scanned(line, regions, palette, cols - 1) + column_marks(line, regions, palette, cols - 1)
    }
}

/// The boundaries opened on a line of `len` characters less those closed on it.
pub open spec fn unclosed(regions: Seq<Region>, len: int) -> int {
    starts_below(regions, len) - ends_within(regions, len)
}

/// The number of boundaries that are closed by force at the end of a line of
/// `len` characters.
pub open spec fn forced_closes(regions: Seq<Region>, len: int) -> nat {
    if unclosed(regions, len) > 0 {
        unclosed(regions, len) as nat
    } else {
        0
    }
}

/// The rendered line: the marks of every column, the boundaries closed by
/// force, and the line break.
pub open spec fn rendered_marks(line: Seq<char>, regions: Seq<Region>, palette: nat) -> Seq<Mark> {
    (scanned(line, regions, palette, line.len() as int) + closes(
        forced_closes(regions, line.len() as int),
    )).push(Mark::LineBreak)
}

/// The region once a line of `len` characters has been rendered: it is
/// applied if it was so before, or if its closing boundary was met, which
/// stands after the character at offset `end - 1`.
pub open spec fn rendered_region(region: Region, len: int) -> Region {
    Region {
        start: region.start,
        end: region.end,
        name: region.name,
        applied: region.applied || 1 <= region.end <= len,
    }
}

/// The regions after rendering a line of `len` characters.
pub open spec fn rendered_regions(regions: Seq<Region>, len: int) -> Seq<Region> {
    Seq::new(regions.len(), |j: int| rendered_region(regions[j], len))
}

/// One diagnostic for each of `regions` that is not applied, in region order.
pub open spec fn unapplied(regions: Seq<Region>, line_index: nat) -> Seq<Anomaly>
    decreases regions.len(),
{
    if regions.len() == 0 {
        Seq::empty()
    } else {
        let before = unapplied(regions.drop_last(), line_index);
        if regions.last().applied {
            before
        } else {
            before.push(Anomaly::RegionNotApplied { name: regions.last().name, line: line_index })
        }
    }
}

/// The diagnostics of rendering a line of `len` characters: that the line was
/// too short, where the boundaries opened and closed do not balance, then the
/// regions that were not applied.
pub open spec fn rendered_anomalies(regions: Seq<Region>, len: int, line_index: nat) -> Seq<
    Anomaly,
> {
    let too_short = if unclosed(regions, len) != 0 {
        seq![Anomaly::LineTooShort { line: line_index }]
    } else {
        Seq::empty()
    };
    too_short + unapplied(rendered_regions(regions, len), line_index)
}

/// Counting over one more region adds that region's share.
pub proof fn lemma_counts_step(regions: Seq<Region>, k: int, col: int)
    requires
        0 <= k < regions.len(),
    ensures
        starts_below(regions.take(k + 1), col) == starts_below(regions.take(k), col)
            + if regions[k].start < col {
            1nat
        } else {
            0nat
        },
        starts_at(regions.take(k + 1), col) == starts_at(regions.take(k), col) + if regions[k].start
            == col {
            1nat
        } else {
            0nat
        },
        ends_at(regions.take(k + 1), col) == ends_at(regions.take(k), col) + if regions[k].end
            == col {
            1nat
        } else {
            0nat
        },
        ends_within(regions.take(k + 1), col) == ends_within(regions.take(k), col) + if 1
            <= regions[k].end <= col {
            1nat
        } else {
            0nat
        },
{
    assert(regions.take(k + 1).drop_last() =~= regions.take(k));
}

/// The regions that start before column `col + 1` are those that start before
/// `col` and those that start at `col`; likewise for the ends. No count exceeds
/// the number of regions.
pub proof fn lemma_counts_split(regions: Seq<Region>, col: int)
    requires
        0 <= col,
    ensures
        starts_below(regions, col + 1) == starts_below(regions, col) + starts_at(regions, col),
        ends_within(regions, col + 1) == ends_within(regions, col) + ends_at(regions, col + 1),
        starts_below(regions, col) + starts_at(regions, col) <= regions.len(),
        ends_within(regions, col) + ends_at(regions, col + 1) <= regions.len(),
    decreases regions.len(),
{
    if regions.len() > 0 {
        lemma_counts_split(regions.drop_last(), col);
    }
}

/// Before the first column nothing has started, and nothing has ended.
pub proof fn lemma_counts_at_origin(regions: Seq<Region>)
    ensures
        starts_below(regions, 0) == 0,
        ends_within(regions, 0) == 0,
    decreases regions.len(),
{
    if regions.len() > 0 {
        lemma_counts_at_origin(regions.drop_last());
    }
}

/// A prefix of the regions holds no more starts and ends than all of them.
pub proof fn lemma_counts_prefix(regions: Seq<Region>, k: int, col: int)
    requires
        0 <= k <= regions.len(),
    ensures
        starts_at(regions.take(k), col) <= starts_at(regions, col),
        ends_at(regions.take(k), col) <= ends_at(regions, col),
    decreases regions.len() - k,
{
    if k < regions.len() {
        lemma_counts_step(regions, k, col);
        lemma_counts_prefix(regions, k + 1, col);
    } else {
        assert(regions.take(k) =~= regions);
    }
}

/// Every opening boundary among `marks` names a colour of a palette of
/// `palette` colours.
pub open spec fn colors_fit(marks: Seq<Mark>, palette: nat) -> bool {
    forall|i: int| 0 <= i < marks.len() ==> ((#[trigger] marks[i]) matches Mark::Open { color, .. }
        ==> color < palette)
}

/// The boundaries opened before a column name colours of the palette.
proof fn lemma_opens_fit(regions: Seq<Region>, palette: nat, col: int, k: int)
    requires
        palette > 0,
        0 <= k <= regions.len(),
    ensures
        colors_fit(opens_at(regions, palette, col, k), palette),
    decreases k,
{
    if k > 0 {
        lemma_opens_fit(regions, palette, col, k - 1);
    }
}

/// The marks of the first columns name colours of the palette.
proof fn lemma_scanned_colors_fit(line: Seq<char>, regions: Seq<Region>, palette: nat, cols: int)
    requires
        palette > 0,
    ensures
        colors_fit(scanned(line, regions, palette, cols), palette),
    decreases cols,
{
    if cols > 0 {
        lemma_scanned_colors_fit(line, regions, palette, cols - 1);
        lemma_opens_fit(regions, palette, cols - 1, regions.len() as int);
    }
}

/// Every opening boundary of a rendered line names a colour of the palette.
pub proof fn lemma_rendered_colors_fit(line: Seq<char>, regions: Seq<Region>, palette: nat)
    requires
        palette > 0,
    ensures
        colors_fit(rendered_marks(line, regions, palette), palette),
{
    lemma_scanned_colors_fit(line, regions, palette, line.len() as int);
}

/// Two lists of regions that differ at most in what is applied.
pub open spec fn same_ranges(a: Seq<Region>, b: Seq<Region>) -> bool {
    &&& a.len() == b.len()
    &&& forall|i: int|
        0 <= i < a.len() ==> (#[trigger] a[i]).start == b[i].start && a[i].end == b[i].end
            && a[i].name == b[i].name
}

/// Regions that differ at most in what is applied still do so when the last
/// is left out, or only the first are taken.
proof fn lemma_same_ranges_prefix(a: Seq<Region>, b: Seq<Region>, k: int)
    requires
        same_ranges(a, b),
        0 <= k <= a.len(),
    ensures
        same_ranges(a.take(k), b.take(k)),
{
    assert forall|i: int| 0 <= i < k implies (#[trigger] a.take(k)[i]).start == b.take(k)[i].start
        && a.take(k)[i].end == b.take(k)[i].end && a.take(k)[i].name == b.take(k)[i].name by {
        assert(a[i].start == b[i].start);
    }
}

/// What is applied has no part in counting starts and ends.
pub proof fn lemma_counts_ignore_applied(a: Seq<Region>, b: Seq<Region>, col: int)
    requires
        same_ranges(a, b),
    ensures
        starts_below(a, col) == starts_below(b, col),
        starts_at(a, col) == starts_at(b, col),
        ends_at(a, col) == ends_at(b, col),
        ends_within(a, col) == ends_within(b, col),
    decreases a.len(),
{
    if a.len() > 0 {
        assert(a.last().start == b.last().start && a.last().end == b.last().end);
        lemma_same_ranges_prefix(a, b, a.len() - 1);
        assert(a.take(a.len() - 1) =~= a.drop_last());
        assert(b.take(a.len() - 1) =~= b.drop_last());
        lemma_counts_ignore_applied(a.drop_last(), b.drop_last(), col);
    }
}

/// What is applied has no part in the boundaries opened before a column.
pub proof fn lemma_opens_ignore_applied(
    a: Seq<Region>,
    b: Seq<Region>,
    palette: nat,
    col: int,
    k: int,
)
    requires
        same_ranges(a, b),
        0 <= k <= a.len(),
    ensures
        opens_at(a, palette, col, k) == opens_at(b, palette, col, k),
    decreases k,
{
    if k > 0 {
        lemma_opens_ignore_applied(a, b, palette, col, k - 1);
        assert(a[k - 1].start == b[k - 1].start);
        lemma_counts_ignore_applied(a, b, a[k - 1].start as int);
        lemma_same_ranges_prefix(a, b, k - 1);
        lemma_counts_ignore_applied(a.take(k - 1), b.take(k - 1), a[k - 1].start as int);
    }
}

/// What is applied has no part in the marks of the columns.
pub proof fn lemma_scanned_ignores_applied(
    line: Seq<char>,
    a: Seq<Region>,
    b: Seq<Region>,
    palette: nat,
    cols: int,
)
    requires
        same_ranges(a, b),
    ensures
        scanned(line, a, palette, cols) == scanned(line, b, palette, cols),
    decreases cols,
{
    if cols > 0 {
        lemma_scanned_ignores_applied(line, a, b, palette, cols - 1);
        lemma_opens_ignore_applied(a, b, palette, cols - 1, a.len() as int);
        lemma_counts_ignore_applied(a, b, cols);
    }
}

/// Appends one fragment.
fn emit(fragments: &mut Vec<Fragment>, fragment: Fragment)
    ensures
        marks(final(fragments)@) == marks(old(fragments)@).push(fragment@),
{
    fragments.push(fragment);
    assert(marks(fragments@) =~= marks(old(fragments)@).push(fragment@));
}

/// Appends one diagnostic.
fn report(diagnostics: &mut Vec<Diagnostic>, diagnostic: Diagnostic)
    ensures
        anomalies(final(diagnostics)@) == anomalies(old(diagnostics)@).push(diagnostic@),
{
    diagnostics.push(diagnostic);
    assert(anomalies(diagnostics@) =~= anomalies(old(diagnostics)@).push(diagnostic@));
}

/// Opens the boundaries of the regions that start at column `col`, in region
/// order, where `opened` boundaries were opened before. Returns the number of
/// boundaries opened so far.
fn open_boundaries(
    regions: &Vec<HighlightRegion>,
    col: usize,
    palette: usize,
    opened: usize,
    fragments: &mut Vec<Fragment>,
) -> (now_opened: usize)
    requires
        palette > 0,
        opened == starts_below(region_views(regions@), col as int),
    ensures
        marks(final(fragments)@) == marks(old(fragments)@) + opens_at(
            region_views(regions@),
            palette as nat,
            col as int,
            regions@.len() as int,
        ),
        now_opened == starts_below(region_views(regions@), col + 1),
{
    let ghost views = region_views(regions@);
    let ghost before = marks(fragments@);
    let mut now_opened = opened;
    proof {
        lemma_counts_split(views, col as int);
        assert(views.take(0) =~= Seq::empty());
        assert(before =~= before + opens_at(views, palette as nat, col as int, 0));
    }
    let mut k: usize = 0;
    while k < regions.len()
        invariant
            k <= regions.len(),
            palette > 0,
            views == region_views(regions@),
            marks(fragments@) == before + opens_at(views, palette as nat, col as int, k as int),
            now_opened == starts_below(views, col as int) + starts_at(
                views.take(k as int),
                col as int,
            ),
            starts_below(views, col as int) + starts_at(views, col as int) <= regions.len(),
        decreases regions.len() - k,
    {
        proof {
            lemma_counts_step(views, k as int, col as int);
            lemma_counts_prefix(views, k + 1, col as int);
        }
        if regions[k].start == col {
            let boundary = Fragment::Open {
                name: regions[k].name.clone(),
                color: now_opened % palette,
            };
            assert(boundary@ == opening_mark(views, palette as nat, k as int));
            emit(fragments, boundary);
            now_opened = now_opened + 1;
        }
        assert(marks(fragments@) =~= before + opens_at(views, palette as nat, col as int, k + 1));
        k = k + 1;
    }
    assert(views.take(regions.len() as int) =~= views);
    now_opened
}

/// The regions once the boundaries that stand after the character at offset
/// `col` are closed for the first `k` of them.
spec fn closed_after(regions: Seq<Region>, col: int, k: int) -> Seq<Region> {
    Seq::new(
        regions.len(),
        |j: int|
            Region {
                start: regions[j].start,
                end: regions[j].end,
                name: regions[j].name,
                applied: regions[j].applied || (j < k && regions[j].end == col + 1),
            },
    )
}

/// Closes the boundaries of the regions whose end is `col + 1`, and marks
/// those regions as applied, where `closed` boundaries were closed before.
/// Returns the number of boundaries closed so far.
fn close_boundaries(
    regions: &mut Vec<HighlightRegion>,
    col: usize,
    closed: usize,
    fragments: &mut Vec<Fragment>,
) -> (now_closed: usize)
    requires
        col < usize::MAX,
        closed == ends_within(region_views(old(regions)@), col as int),
    ensures
        marks(final(fragments)@) == marks(old(fragments)@) + closes(
            ends_at(region_views(old(regions)@), col + 1),
        ),
        now_closed == ends_within(region_views(old(regions)@), col + 1),
        region_views(final(regions)@) == closed_after(
            region_views(old(regions)@),
            col as int,
            old(regions)@.len() as int,
        ),
{
    let ghost views = region_views(regions@);
    let ghost before = marks(fragments@);
    let count = regions.len();
    let mut now_closed = closed;
    proof {
        lemma_counts_split(views, col as int);
        assert(views.take(0) =~= Seq::empty());
        assert(before =~= before + closes(0));
        assert(views =~= closed_after(views, col as int, 0));
    }
    let mut k: usize = 0;
    while k < count
        invariant
            k <= count,
            col < usize::MAX,
            views.len() == count,
            regions@.len() == count,
            region_views(regions@) == closed_after(views, col as int, k as int),
            marks(fragments@) == before + closes(ends_at(views.take(k as int), col + 1)),
            now_closed == ends_within(views, col as int) + ends_at(views.take(k as int), col + 1),
            ends_within(views, col as int) + ends_at(views, col + 1) <= count,
        decreases count - k,
    {
        let ghost prior = regions@;
        proof {
            lemma_counts_step(views, k as int, col + 1);
            lemma_counts_prefix(views, k + 1, col + 1);
            assert(region_views(prior)[k as int] == closed_after(views, col as int, k as int)[k as
                int]);
        }
        if regions[k].end == col + 1 {
            emit(fragments, Fragment::Close);
            now_closed = now_closed + 1;
            regions[k].applied = true;
        }
        proof {
            assert(marks(fragments@) =~= before + closes(ends_at(views.take(k + 1), col + 1)));
            assert forall|j: int| 0 <= j < count implies region_views(regions@)[j] == closed_after(
                views,
                col as int,
                k + 1,
            )[j] by {
                assert(region_views(prior)[j] == closed_after(views, col as int, k as int)[j]);
            }
            assert(region_views(regions@) =~= closed_after(views, col as int, k + 1));
        }
        k = k + 1;
    }
    assert(views.take(count as int) =~= views);
    now_closed
}

/// Closes `count` boundaries.
fn close_by_force(count: usize, fragments: &mut Vec<Fragment>)
    ensures
        marks(final(fragments)@) == marks(old(fragments)@) + closes(count as nat),
{
    let ghost before = marks(fragments@);
    assert(before =~= before + closes(0));
    let mut forced: usize = 0;
    while forced < count
        invariant
            forced <= count,
            marks(fragments@) == before + closes(forced as nat),
        decreases count - forced,
    {
        emit(fragments, Fragment::Close);
        forced = forced + 1;
        assert(marks(fragments@) =~= before + closes(forced as nat));
    }
}

/// Reports every region that is not applied, in region order.
fn report_unapplied(
    regions: &Vec<HighlightRegion>,
    line_index: usize,
    diagnostics: &mut Vec<Diagnostic>,
)
    ensures
        anomalies(final(diagnostics)@) == anomalies(old(diagnostics)@) + unapplied(
            region_views(regions@),
            line_index as nat,
        ),
{
    let ghost views = region_views(regions@);
    let ghost before = anomalies(diagnostics@);
    assert(views.take(0) =~= Seq::empty());
    assert(before =~= before + unapplied(views.take(0), line_index as nat));
    let mut k: usize = 0;
    while k < regions.len()
        invariant
            k <= regions.len(),
            views == region_views(regions@),
            anomalies(diagnostics@) == before + unapplied(views.take(k as int), line_index as nat),
        decreases regions.len() - k,
    {
        proof {
            assert(views.take(k + 1).drop_last() =~= views.take(k as int));
            assert(views.take(k + 1).last() == regions@[k as int]@);
        }
        if !regions[k].applied {
            report(
                diagnostics,
                Diagnostic::RegionNotApplied { name: regions[k].name.clone(), line: line_index },
            );
        }
        assert(anomalies(diagnostics@) =~= before + unapplied(
            views.take(k + 1),
            line_index as nat,
        ));
        k = k + 1;
    }
    assert(views.take(regions.len() as int) =~= views);
}

/// Renders one line.
///
/// The characters of `line` are emitted in order. Before the character at
/// offset `col`, every region that starts at `col` opens a boundary, in region
/// order, each with the next colour of a palette of `palette` colours, which is
/// walked cyclically from index 0. After the character, every region whose end
/// is `col + 1` closes a boundary and becomes applied. At the end of the line
/// the boundaries still open are closed, and a line break follows. The
/// diagnostics report a line that ended with the boundaries out of balance,
/// and every region that is not applied.
pub fn render_line(
    line_index: usize,
    line: &str,
    regions: &mut Vec<HighlightRegion>,
    palette: usize,
) -> (out: Rendering)
    requires
        palette > 0,
    ensures
        marks(out.fragments@) == rendered_marks(
            line@,
            region_views(old(regions)@),
            palette as nat,
        ),
        region_views(final(regions)@) == rendered_regions(
            region_views(old(regions)@),
            line@.len() as int,
        ),
        anomalies(out.diagnostics@) == rendered_anomalies(
            region_views(old(regions)@),
            line@.len() as int,
            line_index as nat,
        ),
{
    let chars = chars_of(line);
    let len = chars.len();
    let ghost initial = region_views(regions@);
    let mut fragments: Vec<Fragment> = Vec::new();
    let mut diagnostics: Vec<Diagnostic> = Vec::new();
    let mut opened: usize = 0;
    let mut closed: usize = 0;

    proof {
        lemma_counts_at_origin(initial);
        assert(initial =~= rendered_regions(initial, 0));
    }
    let mut col: usize = 0;
    while col < len
        invariant
            col <= len,
            len == chars@.len(),
            chars@ == line@,
            palette > 0,
            region_views(regions@) == rendered_regions(initial, col as int),
            marks(fragments@) == scanned(line@, initial, palette as nat, col as int),
            opened == starts_below(initial, col as int),
            closed == ends_within(initial, col as int),
        decreases len - col,
    {
        let ghost current = region_views(regions@);
        let ghost done = marks(fragments@);
        proof {
            assert(same_ranges(initial, current));
            lemma_counts_ignore_applied(initial, current, col as int);
            lemma_counts_ignore_applied(initial, current, col + 1);
            lemma_opens_ignore_applied(
                initial,
                current,
                palette as nat,
                col as int,
                initial.len() as int,
            );
        }
        opened = open_boundaries(regions, col, palette, opened, &mut fragments);
        emit(&mut fragments, Fragment::Text(chars[col]));
        closed = close_boundaries(regions, col, closed, &mut fragments);
        proof {
            assert(marks(fragments@) =~= done + column_marks(
                line@,
                initial,
                palette as nat,
                col as int,
            ));
            assert(region_views(regions@) =~= rendered_regions(initial, col + 1));
        }
        col = col + 1;
    }

    if opened != closed {
        report(&mut diagnostics, Diagnostic::LineTooShort { line: line_index });
    }
    let excess = if opened > closed {
        opened - closed
    } else {
        0
    };
    close_by_force(excess, &mut fragments);
    emit(&mut fragments, Fragment::LineBreak);
    report_unapplied(regions, line_index, &mut diagnostics);

    Rendering { fragments, diagnostics }
}

} // verus!
