//! One line from rules to HTML: the regions of the line are resolved, the
//! line is rendered with them, and the rendering is written as HTML.

use vstd::prelude::*;
use crate::diagnostics::{anomalies, Anomaly, Diagnostic};
use crate::html::{html_of, produce_html_for_line};
use crate::markup::{rendered_anomalies, rendered_marks, rendered_regions};
use crate::regions::{
    generate_highlight_regions_from_records, region_views, resolve, HighlightRegion, Region,
    ResolveError,
};
use crate::rules::{RecordList, RuleSet};

verus! {

/// One line of the output.
#[derive(Debug, Clone, PartialEq, Eq)]
pub struct HighlightedLine {
    /// The line as HTML, line break included.
    pub html: String,
    /// The regions of the line, as rendering left them.
    pub regions: Vec<HighlightRegion>,
    /// What was met while resolving the regions, then what was met while
    /// rendering them.
    pub diagnostics: Vec<Diagnostic>,
}

/// The mathematical content of a highlighted line.
pub struct Highlighted {
    pub html: Seq<char>,
    pub regions: Seq<Region>,
    pub anomalies: Seq<Anomaly>,
}

impl View for HighlightedLine {
    type V = Highlighted;

    open spec fn view(&self) -> Highlighted {
        Highlighted {
            html: self.html@,
            regions: region_views(self.regions@),
            anomalies: anomalies(self.diagnostics@),
        }
    }
}

/// What the line with index `line_index` becomes under `rules` and the
/// palette `colors`: the index of the first rule whose condition does not
/// compile, or the rendering of the line with its resolved regions.
pub open spec fn highlighted(
    rules: RuleSet,
    line_index: nat,
    line: Seq<char>,
    colors: Seq<Seq<char>>,
) -> Result<Highlighted, nat> {
    match resolve(rules, line) {
        Ok(resolved) => Ok(
            Highlighted {
                html: html_of(rendered_marks(line, resolved.regions, colors.len()), colors),
                regions: rendered_regions(resolved.regions, line.len() as int),
                anomalies: resolved.anomalies + rendered_anomalies(
                    resolved.regions,
                    line.len() as int,
                    line_index,
                ),
            },
        ),
        Err(rule) => Err(rule),
    }
}

/// Resolves the regions of one line, renders the line and writes it as HTML.
pub fn highlight_line(
    records: &RecordList,
    line_index: usize,
    line: &str,
    colors: &Vec<String>,
) -> (r: Result<HighlightedLine, ResolveError>)
    requires
        records@.valid(),
        colors.len() > 0,
    ensures
        match r {
            Ok(out) => highlighted(records@, line_index as nat, line@, colors.deep_view()) == Ok::<
                Highlighted,
                nat,
            >(out@),
            Err(ResolveError::InvalidCondition { rule }) => highlighted(
                records@,
                line_index as nat,
                line@,
                colors.deep_view(),
            ) == Err::<Highlighted, nat>(rule as nat),
        },
{
    let resolution = match generate_highlight_regions_from_records(records, line) {
        Ok(resolution) => resolution,
        Err(e) => {
            return Err(e);
        },
    };
    let mut regions = resolution.regions;
    let mut diagnostics = resolution.diagnostics;
    let ghost skipped = diagnostics@;
    let rendered = produce_html_for_line(line_index, line, &mut regions, colors);
    let mut met = rendered.diagnostics;
    let ghost reported = met@;
    diagnostics.append(&mut met);
    assert(anomalies(diagnostics@) =~= anomalies(skipped) + anomalies(reported));
    Ok(HighlightedLine { html: rendered.html, regions, diagnostics })
}

/// The same rules, line and palette give the same line of output, the same
/// applied regions and the same diagnostics, however often they are run.
pub proof fn lemma_highlighting_is_repeatable(
    rules: RuleSet,
    line_index: nat,
    line: Seq<char>,
    colors: Seq<Seq<char>>,
    first: Result<Highlighted, nat>,
    second: Result<Highlighted, nat>,
)
    requires
        first == highlighted(rules, line_index, line, colors),
        second == highlighted(rules, line_index, line, colors),
    ensures
        first == second,
{
}

} // verus!
