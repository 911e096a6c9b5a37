//! Why a rendered line is well formed: as long as every region covers at
//! least one character, no boundary is closed before one is open, and every
//! boundary that is opened is closed before the line ends.

use vstd::prelude::*;
use crate::markup::{
    closes, column_marks, ends_at, ends_within, forced_closes, lemma_counts_at_origin,
    lemma_counts_split, lemma_counts_step, opens_at, rendered_marks, scanned, starts_at,
    starts_below, text_mark, unclosed, Mark,
};
use crate::regions::{candidates, resolve, resolved_regions, Candidate, Region};
use crate::rules::{all_columns_valid, ColumnRule, RuleSet};

verus! {

/// The number of boundaries that `marks` leave open: those they open, less
/// those they close.
pub open spec fn depth(marks: Seq<Mark>) -> int
    decreases marks.len(),
{
    if marks.len() == 0 {
        0
    } else {
        depth(marks.drop_last()) + match marks.last() {
            Mark::Open { .. } => 1int,
            Mark::Close => -1int,
            _ => 0int,
        }
    }
}

/// At no point have `marks` closed more boundaries than they have opened.
pub open spec fn never_overclosed(marks: Seq<Mark>) -> bool {
    forall|k: int| 0 <= k <= marks.len() ==> depth(#[trigger] marks.take(k)) >= 0
}

/// Every closing boundary among `marks` closes a boundary that is open, and
/// at the end none is left open.
pub open spec fn well_nested(marks: Seq<Mark>) -> bool {
    never_overclosed(marks) && depth(marks) == 0
}

/// Every region covers at least one character.
pub open spec fn all_cover(regions: Seq<Region>) -> bool {
    forall|i: int| 0 <= i < regions.len() ==> (#[trigger] regions[i]).start < regions[i].end
}

/// There is no closing boundary among `marks`.
pub open spec fn none_closes(marks: Seq<Mark>) -> bool {
    forall|i: int| 0 <= i < marks.len() ==> !((#[trigger] marks[i]) is Close)
}

/// The boundaries left open by two runs of marks add up.
proof fn lemma_depth_concat(a: Seq<Mark>, b: Seq<Mark>)
    ensures
        depth(a + b) == depth(a) + depth(b),
    decreases b.len(),
{
    if b.len() == 0 {
        assert(a + b =~= a);
    } else {
        lemma_depth_concat(a, b.drop_last());
        assert((a + b).drop_last() =~= a + b.drop_last());
        assert((a + b).last() == b.last());
    }
}

/// Marks without a closing boundary leave no fewer boundaries open than none,
/// at the end and at every point before.
proof fn lemma_depth_without_closes(marks: Seq<Mark>, k: int)
    requires
        none_closes(marks),
        0 <= k <= marks.len(),
    ensures
        depth(marks.take(k)) >= 0,
    decreases k,
{
    if k > 0 {
        lemma_depth_without_closes(marks, k - 1);
        assert(marks.take(k).drop_last() =~= marks.take(k - 1));
        assert(marks.take(k).last() == marks[k - 1]);
    }
}

/// `count` closing boundaries close `count` boundaries.
proof fn lemma_depth_of_closes(count: nat)
    ensures
        depth(closes(count)) == -count,
    decreases count,
{
    if count > 0 {
        lemma_depth_of_closes((count - 1) as nat);
        assert(closes(count).drop_last() =~= closes((count - 1) as nat));
    }
}

/// Marks that never close too much stay so when marks without a closing
/// boundary follow, and then no more closing boundaries than are open.
proof fn lemma_extend(a: Seq<Mark>, x: Seq<Mark>, count: nat)
    requires
        never_overclosed(a),
        none_closes(x),
        depth(a) + depth(x) >= count,
    ensures
        never_overclosed(a + x + closes(count)),
        depth(a + x + closes(count)) == depth(a) + depth(x) - count,
{
    let all = a + x + closes(count);
    lemma_depth_concat(a, x);
    lemma_depth_concat(a + x, closes(count));
    lemma_depth_of_closes(count);
    assert(a.take(a.len() as int) =~= a);
    assert forall|k: int| 0 <= k <= all.len() implies depth(#[trigger] all.take(k)) >= 0 by {
        if k <= a.len() {
            assert(all.take(k) =~= a.take(k));
        } else if k <= a.len() + x.len() {
            let j = k - a.len();
            assert(all.take(k) =~= a + x.take(j));
            lemma_depth_concat(a, x.take(j));
            lemma_depth_without_closes(x, j);
        } else {
            let j = (k - a.len() - x.len()) as nat;
            assert(all.take(k) =~= a + x + closes(j));
            lemma_depth_concat(a + x, closes(j));
            lemma_depth_of_closes(j);
        }
    }
}

/// The boundaries opened before a column leave as many boundaries open as
/// they are, and close none.
proof fn lemma_depth_of_opens(regions: Seq<Region>, palette: nat, col: int, k: int)
    requires
        0 <= k <= regions.len(),
    ensures
        none_closes(opens_at(regions, palette, col, k)),
        depth(opens_at(regions, palette, col, k)) == starts_at(regions.take(k), col),
    decreases k,
{
    if k > 0 {
        lemma_depth_of_opens(regions, palette, col, k - 1);
        lemma_counts_step(regions, k - 1, col);
        if regions[k - 1].start == col {
            assert(opens_at(regions, palette, col, k).drop_last() =~= opens_at(
                regions,
                palette,
                col,
                k - 1,
            ));
        }
    } else {
        assert(regions.take(0) =~= Seq::empty());
    }
}

/// Where every region covers a character, a region that has met its end has
/// started before: at no column have more regions ended than have started.
proof fn lemma_ends_follow_starts(regions: Seq<Region>, col: int)
    requires
        all_cover(regions),
    ensures
        ends_within(regions, col) <= starts_below(regions, col),
    decreases regions.len(),
{
    if regions.len() > 0 {
        assert(regions.last() == regions[regions.len() - 1]);
        assert(all_cover(regions.drop_last())) by {
            assert forall|i: int| 0 <= i < regions.drop_last().len() implies (
            #[trigger] regions.drop_last()[i]).start < regions.drop_last()[i].end by {
                assert(regions.drop_last()[i] == regions[i]);
            }
        }
        lemma_ends_follow_starts(regions.drop_last(), col);
    }
}

/// The first columns of a rendered line never close a boundary that is not
/// open, and leave open the boundaries opened and not yet closed.
proof fn lemma_scanned_nesting(line: Seq<char>, regions: Seq<Region>, palette: nat, cols: int)
    requires
        all_cover(regions),
        0 <= cols <= line.len(),
    ensures
        never_overclosed(scanned(line, regions, palette, cols)),
        depth(scanned(line, regions, palette, cols)) == unclosed(regions, cols),
    decreases cols,
{
    if cols > 0 {
        let col = cols - 1;
        let before = scanned(line, regions, palette, col);
        lemma_scanned_nesting(line, regions, palette, col);
        let opening = opens_at(regions, palette, col, regions.len() as int);
        let text = opening.push(text_mark(line[col]));
        let count = ends_at(regions, col + 1);
        lemma_depth_of_opens(regions, palette, col, regions.len() as int);
        assert(regions.take(regions.len() as int) =~= regions);
        assert(text.drop_last() =~= opening);
        assert(depth(text) == starts_at(regions, col));
        lemma_counts_split(regions, col);
        lemma_ends_follow_starts(regions, col + 1);
        lemma_extend(before, text, count);
        assert(scanned(line, regions, palette, cols) =~= before + text + closes(count));
    } else {
        lemma_counts_at_origin(regions);
        let none = scanned(line, regions, palette, cols);
        assert forall|k: int| 0 <= k <= none.len() implies depth(#[trigger] none.take(k)) >= 0 by {
            assert(none.take(k) =~= Seq::empty());
        }
    }
}

/// Where every region covers at least one character, a rendered line is well
/// nested: each closing boundary closes a boundary that is open, and every
/// boundary that is opened is closed before the line break, whether the line
/// is long enough for its regions or not.
pub proof fn lemma_rendered_line_is_well_nested(
    line: Seq<char>,
    regions: Seq<Region>,
    palette: nat,
)
    requires
        all_cover(regions),
    ensures
        well_nested(rendered_marks(line, regions, palette)),
{
    let len = line.len() as int;
    let body = scanned(line, regions, palette, len);
    let forced = forced_closes(regions, len);
    lemma_scanned_nesting(line, regions, palette, len);
    lemma_ends_follow_starts(regions, len);
    let nothing = Seq::<Mark>::empty();
    lemma_extend(body, nothing, forced);
    assert(body + nothing + closes(forced) =~= body + closes(forced));
    let closed = body + closes(forced);
    let all = rendered_marks(line, regions, palette);
    assert(all =~= closed.push(Mark::LineBreak));
    assert(all.drop_last() =~= closed);
    assert forall|k: int| 0 <= k <= all.len() implies depth(#[trigger] all.take(k)) >= 0 by {
        if k <= closed.len() {
            assert(all.take(k) =~= closed.take(k));
        } else {
            assert(all.take(k) =~= all);
        }
    }
}

/// Candidates whose ranges all cover a character resolve to regions that all
/// cover a character.
proof fn lemma_resolved_regions_cover(cands: Seq<Candidate>, line: Seq<char>)
    requires
        forall|i: int|
            0 <= i < cands.len() ==> ((#[trigger] cands[i]).span matches Some(span) ==> span.0
                < span.1),
    ensures
        all_cover(resolved_regions(cands, line)),
    decreases cands.len(),
{
    if cands.len() > 0 {
        assert(cands.last() == cands[cands.len() - 1]);
        assert forall|i: int| 0 <= i < cands.drop_last().len() implies ((
        #[trigger] cands.drop_last()[i]).span matches Some(span) ==> span.0 < span.1) by {
            assert(cands.drop_last()[i] == cands[i]);
        }
        lemma_resolved_regions_cover(cands.drop_last(), line);
    }
}

/// Whatever the line, valid column rules are rendered well nested: their
/// regions cover at least one character each, so that each closing boundary
/// closes a boundary that is open, and none is left open at the line break.
pub proof fn lemma_column_rules_render_well_nested(
    rules: Seq<ColumnRule>,
    line: Seq<char>,
    palette: nat,
)
    requires
        all_columns_valid(rules),
    ensures
        resolve(RuleSet::Columns(rules), line) matches Ok(resolved) ==> well_nested(
            rendered_marks(line, resolved.regions, palette),
        ),
{
    let cands = candidates(RuleSet::Columns(rules), line);
    assert forall|i: int| 0 <= i < cands.len() implies ((#[trigger] cands[i]).span matches Some(
        span,
    ) ==> span.0 < span.1) by {
        assert(rules[i].valid());
    }
    lemma_resolved_regions_cover(cands, line);
    lemma_rendered_line_is_well_nested(line, resolved_regions(cands, line), palette);
}

} // verus!
