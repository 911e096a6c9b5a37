//! The region resolver: from the rule set and one line of text to the ordered
//! highlight regions that apply to that line.

use vstd::prelude::*;
use crate::condition::{match_condition, pattern_compiles, pattern_matches};
use crate::diagnostics::{anomalies, Anomaly, Diagnostic};
use crate::rules::{
    all_columns_valid, all_fields_valid, column_rules, field_rules, option_text, ColumnRule,
    DelimiterHighlightRecord, FieldRule, FixedWidthHighlightRecord, RecordList, RuleSet,
};
use crate::search::{find_nth_char, nth_occurrence};
use crate::text::chars_of;

verus! {

/// A half-open range of character offsets of one line that is to be annotated.
#[derive(Debug, Clone, PartialEq, Eq)]
pub struct HighlightRegion {
    /// The 0-based offset of the first character inside the region.
    pub start: usize,
    /// The 0-based offset of the first character after the region.
    pub end: usize,
    /// The label of the rule that the region comes from.
    pub name: String,
    /// Whether rendering has met the region's closing boundary.
    pub applied: bool,
}

/// The mathematical content of a highlight region.
pub struct Region {
    pub start: nat,
    pub end: nat,
    pub name: Seq<char>,
    pub applied: bool,
}

impl View for HighlightRegion {
    type V = Region;

    open spec fn view(&self) -> Region {
        Region {
            start: self.start as nat,
            end: self.end as nat,
            name: self.name@,
            applied: self.applied,
        }
    }
}

/// The regions that `regions` stand for, in order.
pub open spec fn region_views(regions: Seq<HighlightRegion>) -> Seq<Region> {
    regions.map_values(|r: HighlightRegion| r@)
}

/// What a rule asks for on a given line, whatever its mode: the condition under
/// which it applies, the range it covers (`None` where the rule lacks a
/// required field), and its label.
pub struct Candidate {
    pub condition: Option<Seq<char>>,
    pub span: Option<(nat, nat)>,
    pub name: Seq<char>,
}

/// A column rule covers `length` characters from the 0-based offset `start - 1`.
pub open spec fn column_candidate(rule: ColumnRule) -> Candidate {
    Candidate {
        condition: rule.condition,
        span: match (rule.start, rule.length) {
            (Some(s), Some(l)) => Some(((s - 1) as nat, (s - 1 + l) as nat)),
            _ => None,
        },
        name: rule.name,
    }
}

/// Where field `field` (counted from 1) of `line` starts: right after the
/// delimiter that ends the field before it; at 0 for the first field, and
/// where the line has no such delimiter.
pub open spec fn field_start(line: Seq<char>, delimiter: char, field: nat) -> nat {
    if field <= 1 {
        0
    } else {
        match nth_occurrence(line, delimiter, (field - 1) as nat) {
            Some(i) => (i + 1) as nat,
            None => 0,
        }
    }
}

/// Where field `field` (counted from 1) of `line` ends: at the delimiter that
/// ends it, or at the end of the line where there is no such delimiter.
pub open spec fn field_end(line: Seq<char>, delimiter: char, field: nat) -> nat {
    match nth_occurrence(line, delimiter, field) {
        Some(j) => j as nat,
        None => line.len(),
    }
}

/// A delimiter rule covers one field of the line.
pub open spec fn field_candidate(rule: FieldRule, delimiter: char, line: Seq<char>) -> Candidate {
    Candidate {
        condition: rule.condition,
        span: match rule.field {
            Some(k) => Some((field_start(line, delimiter, k), field_end(line, delimiter, k))),
            None => None,
        },
        name: rule.name,
    }
}

/// What each rule of `rules` asks for on `line`, in rule order.
pub open spec fn candidates(rules: RuleSet, line: Seq<char>) -> Seq<Candidate> {
    match rules {
        RuleSet::Columns(rs) => rs.map_values(|r: ColumnRule| column_candidate(r)),
        RuleSet::Fields(delimiter, rs) => rs.map_values(
            |r: FieldRule| field_candidate(r, delimiter, line),
        ),
    }
}

/// A rule without a condition can always be evaluated; one with a condition
/// only if its pattern compiles.
pub open spec fn condition_compiles(condition: Option<Seq<char>>) -> bool {
    match condition {
        Some(pattern) => pattern_compiles(pattern),
        None => true,
    }
}

/// A rule without a condition applies to every line; one with a condition to
/// the lines that its pattern matches.
pub open spec fn condition_holds(condition: Option<Seq<char>>, line: Seq<char>) -> bool {
    match condition {
        Some(pattern) => pattern_matches(pattern, line),
        None => true,
    }
}

/// The index of the first candidate whose condition does not compile.
pub open spec fn first_uncompilable(cands: Seq<Candidate>) -> Option<nat>
    decreases cands.len(),
{
    if cands.len() == 0 {
        None
    } else {
        match first_uncompilable(cands.drop_last()) {
            Some(i) => Some(i),
            None => if condition_compiles(cands.last().condition) {
                None
            } else {
                Some((cands.len() - 1) as nat)
            },
        }
    }
}

/// The region that a candidate yields where it applies: its range under its
/// name, not applied yet; none where it has no range.
pub open spec fn candidate_region(c: Candidate) -> Option<Region> {
    match c.span {
        Some((start, end)) => Some(Region { start, end, name: c.name, applied: false }),
        None => None,
    }
}

/// The regions of the candidates that apply to `line` and have a range, in
/// candidate order.
pub open spec fn resolved_regions(cands: Seq<Candidate>, line: Seq<char>) -> Seq<Region>
    decreases cands.len(),
{
    if cands.len() == 0 {
        Seq::empty()
    } else {
        let before = resolved_regions(cands.drop_last(), line);
        let c = cands.last();
        match candidate_region(c) {
            Some(region) if condition_holds(c.condition, line) => before.push(region),
            _ => before,
        }
    }
}

/// The indices of the candidates that apply to `line` but have no range, in
/// candidate order: each is skipped, with a diagnostic.
pub open spec fn skipped_rules(cands: Seq<Candidate>, line: Seq<char>) -> Seq<Anomaly>
    decreases cands.len(),
{
    if cands.len() == 0 {
        Seq::empty()
    } else {
        let before = skipped_rules(cands.drop_last(), line);
        let c = cands.last();
        if c.span is None && condition_holds(c.condition, line) {
            before.push(Anomaly::SkippedInvalidRule { rule: (cands.len() - 1) as nat })
        } else {
            before
        }
    }
}

/// Why a line could not be resolved.
#[derive(Debug, Clone, Copy, PartialEq, Eq, Structural)]
pub enum ResolveError {
    /// The condition of the rule at index `rule` is not a regular expression
    /// that compiles.
    InvalidCondition { rule: usize },
}

/// The regions of one line, with the diagnostics met while resolving them.
#[derive(Debug, Clone, PartialEq, Eq)]
pub struct Resolution {
    pub regions: Vec<HighlightRegion>,
    pub diagnostics: Vec<Diagnostic>,
}

/// The mathematical content of a resolution.
pub struct Resolved {
    pub regions: Seq<Region>,
    pub anomalies: Seq<Anomaly>,
}

impl View for Resolution {
    type V = Resolved;

    open spec fn view(&self) -> Resolved {
        Resolved { regions: region_views(self.regions@), anomalies: anomalies(self.diagnostics@) }
    }
}

/// What resolving `line` against `rules` yields: the index of the first rule
/// whose condition does not compile, or else the regions and the diagnostics.
pub open spec fn resolve(rules: RuleSet, line: Seq<char>) -> Result<Resolved, nat> {
    let cands = candidates(rules, line);
    match first_uncompilable(cands) {
        Some(rule) => Err(rule),
        None => Ok(
            Resolved {
                regions: resolved_regions(cands, line),
                anomalies: skipped_rules(cands, line),
            },
        ),
    }
}

/// Whether the rule's condition lets it apply to `line`; the error of `regex`
/// where the condition does not compile.
fn evaluate_condition(condition: &Option<String>, line: &str) -> (r: Result<bool, regex::Error>)
    ensures
        r is Ok <==> condition_compiles(option_text(*condition)),
        r matches Ok(holds) ==> holds == condition_holds(
            option_text(*condition),
            line@,
        ),
{
    match condition {
        Some(pattern) => match_condition(pattern.as_str(), line),
        None => Ok(true),
    }
}

/// The range of characters that field `field` of `chars` covers.
pub fn field_bounds(chars: &Vec<char>, delimiter: char, field: usize) -> (span: (usize, usize))
    requires
        field >= 1,
    ensures
        span.0 == field_start(chars@, delimiter, field as nat),
        span.1 == field_end(chars@, delimiter, field as nat),
{
    let len = chars.len();
    let start = if field == 1 {
        0
    } else {
        match find_nth_char(chars, delimiter, field - 1) {
            Some(i) => i + 1,
            None => 0,
        }
    };
    let end = match find_nth_char(chars, delimiter, field) {
        Some(j) => j,
        None => len,
    };
    (start, end)
}

/// The region that a column rule asks for: `length` characters from the
/// 0-based offset `start - 1`. `None` where the rule lacks its start or its
/// length.
pub fn column_region(record: &FixedWidthHighlightRecord) -> (region: Option<HighlightRegion>)
    requires
        record@.valid(),
    ensures
        match region {
            Some(r) => candidate_region(column_candidate(record@)) == Some(r@),
            None => candidate_region(column_candidate(record@)) is None,
        },
{
    match (record.start, record.length) {
        (Some(start), Some(length)) => Some(
            HighlightRegion {
                start: start - 1,
                end: start - 1 + length,
                name: record.name.clone(),
                applied: false,
            },
        ),
        _ => None,
    }
}

/// The region that a delimiter rule asks for on the line that holds `chars`:
/// the characters of its field. `None` where the rule lacks its field index.
pub fn field_region(
    record: &DelimiterHighlightRecord,
    delimiter: char,
    chars: &Vec<char>,
) -> (region: Option<HighlightRegion>)
    requires
        record@.valid(),
    ensures
        match region {
            Some(r) => candidate_region(field_candidate(record@, delimiter, chars@)) == Some(r@),
            None => candidate_region(field_candidate(record@, delimiter, chars@)) is None,
        },
{
    match record.field {
        Some(field) => {
            let (start, end) = field_bounds(chars, delimiter, field);
            Some(HighlightRegion { start, end, name: record.name.clone(), applied: false })
        },
        None => None,
    }
}

/// Appends one region.
fn keep(regions: &mut Vec<HighlightRegion>, region: HighlightRegion)
    ensures
        region_views(final(regions)@) == region_views(old(regions)@).push(region@),
{
    regions.push(region);
    assert(region_views(regions@) =~= region_views(old(regions)@).push(region@));
}

/// Reports that the rule at index `rule` was skipped.
fn skip(diagnostics: &mut Vec<Diagnostic>, rule: usize)
    ensures
        anomalies(final(diagnostics)@) == anomalies(old(diagnostics)@).push(
            Anomaly::SkippedInvalidRule { rule: rule as nat },
        ),
{
    diagnostics.push(Diagnostic::SkippedInvalidRule { rule });
    assert(anomalies(diagnostics@) =~= anomalies(old(diagnostics)@).push(
        Anomaly::SkippedInvalidRule { rule: rule as nat },
    ));
}

/// The first `i + 1` candidates are the first `i` and the candidate at `i`.
proof fn lemma_one_more_candidate(cands: Seq<Candidate>, i: int)
    requires
        0 <= i < cands.len(),
    ensures
        cands.take(i + 1).drop_last() == cands.take(i),
        cands.take(i + 1).last() == cands[i],
        cands.take(i + 1).len() == i + 1,
{
    assert(cands.take(i + 1).drop_last() =~= cands.take(i));
}

/// Produces the ordered highlight regions of `line`.
///
/// Each rule is taken in turn. A rule whose condition does not match the line
/// yields nothing. A rule that lacks a field that its mode requires is skipped
/// with a diagnostic. Any other yields one region: for a column rule the
/// characters `[start - 1, start - 1 + length)`, for a delimiter rule the
/// characters of its field. A condition that does not compile ends the
/// resolution with an error that names the rule.
pub fn generate_highlight_regions_from_records(records: &RecordList, line: &str) -> (r: Result<
    Resolution,
    ResolveError,
>)
    requires
        records@.valid(),
    ensures
        match r {
            Ok(resolution) => resolve(records@, line@) == Ok::<Resolved, nat>(resolution@),
            Err(ResolveError::InvalidCondition { rule }) => resolve(records@, line@) == Err::<
                Resolved,
                nat,
            >(rule as nat),
        },
{
    let mut regions: Vec<HighlightRegion> = Vec::new();
    let mut diagnostics: Vec<Diagnostic> = Vec::new();
    let ghost cands = candidates(records@, line@);

    match records {
        RecordList::FixedWidth(fw_records) => {
            let mut i: usize = 0;
            while i < fw_records.len()
                invariant
                    i <= fw_records.len(),
                    all_columns_valid(column_rules(fw_records@)),
                    cands == candidates(records@, line@),
                    cands == column_rules(fw_records@).map_values(
                        |r: ColumnRule| column_candidate(r),
                    ),
                    first_uncompilable(cands.take(i as int)) is None,
                    region_views(regions@) == resolved_regions(cands.take(i as int), line@),
                    anomalies(diagnostics@) == skipped_rules(cands.take(i as int), line@),
                decreases fw_records.len() - i,
            {
                let record = &fw_records[i];
                proof {
                    lemma_one_more_candidate(cands, i as int);
                    assert(cands[i as int] == column_candidate(record@));
                    assert(column_rules(fw_records@)[i as int].valid());
                }
                let holds = match evaluate_condition(&record.condition, line) {
                    Ok(holds) => holds,
                    Err(_) => {
                        proof {
                            lemma_first_uncompilable_stays(cands, i as int);
                        }
                        return Err(ResolveError::InvalidCondition { rule: i });
                    },
                };
                if holds {
                    match column_region(record) {
                        Some(region) => keep(&mut regions, region),
                        None => skip(&mut diagnostics, i),
                    }
                }
                i = i + 1;
            }
            assert(cands.take(i as int) =~= cands);
        },
        RecordList::Delimiter(delimiter, d_records) => {
            let chars = chars_of(line);
            let mut i: usize = 0;
            while i < d_records.len()
                invariant
                    i <= d_records.len(),
                    chars@ == line@,
                    all_fields_valid(field_rules(d_records@)),
                    cands == candidates(records@, line@),
                    cands == field_rules(d_records@).map_values(
                        |r: FieldRule| field_candidate(r, *delimiter, line@),
                    ),
                    first_uncompilable(cands.take(i as int)) is None,
                    region_views(regions@) == resolved_regions(cands.take(i as int), line@),
                    anomalies(diagnostics@) == skipped_rules(cands.take(i as int), line@),
                decreases d_records.len() - i,
            {
                let record = &d_records[i];
                proof {
                    lemma_one_more_candidate(cands, i as int);
                    assert(cands[i as int] == field_candidate(record@, *delimiter, line@));
                    assert(field_rules(d_records@)[i as int].valid());
                }
                let holds = match evaluate_condition(&record.condition, line) {
                    Ok(holds) => holds,
                    Err(_) => {
                        proof {
                            lemma_first_uncompilable_stays(cands, i as int);
                        }
                        return Err(ResolveError::InvalidCondition { rule: i });
                    },
                };
                if holds {
                    match field_region(record, *delimiter, &chars) {
                        Some(region) => keep(&mut regions, region),
                        None => skip(&mut diagnostics, i),
                    }
                }
                i = i + 1;
            }
            assert(cands.take(i as int) =~= cands);
        },
    }

    Ok(Resolution { regions, diagnostics })
}

/// A failure found among the first candidates is the failure of the whole list.
proof fn lemma_first_uncompilable_stays(cands: Seq<Candidate>, i: int)
    requires
        0 <= i < cands.len(),
        first_uncompilable(cands.take(i)) is None,
        !condition_compiles(cands[i].condition),
    ensures
        first_uncompilable(cands) == Some(i as nat),
{
    lemma_one_more_candidate(cands, i);
    assert(first_uncompilable(cands.take(i + 1)) == Some(i as nat));
    lemma_first_uncompilable_extends(cands, i + 1, i as nat);
}

/// A failure found in a prefix is still the first failure of the whole list.
proof fn lemma_first_uncompilable_extends(cands: Seq<Candidate>, k: int, rule: nat)
    requires
        0 <= k <= cands.len(),
        first_uncompilable(cands.take(k)) == Some(rule),
    ensures
        first_uncompilable(cands) == Some(rule),
    decreases cands.len() - k,
{
    if k == cands.len() {
        assert(cands.take(k) =~= cands);
    } else {
        lemma_one_more_candidate(cands, k);
        lemma_first_uncompilable_extends(cands, k + 1, rule);
    }
}

} // verus!
