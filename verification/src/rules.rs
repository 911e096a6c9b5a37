//! The rule model: what a user declares about the columns or fields of a line.

use vstd::prelude::*;

verus! {

/// A rule that highlights a run of columns.
#[derive(Debug, Clone, PartialEq, Eq)]
pub struct FixedWidthHighlightRecord {
    /// The 1-based column at which the region starts; `None` where the rule does not say.
    pub start: Option<usize>,
    /// The number of columns the region spans; `None` where the rule does not say.
    pub length: Option<usize>,
    /// The label shown for the region.
    pub name: String,
    /// A regular expression that a line has to match for the rule to apply to it.
    pub condition: Option<String>,
}

/// A rule that highlights one delimiter-separated field.
#[derive(Debug, Clone, PartialEq, Eq)]
pub struct DelimiterHighlightRecord {
    /// The 1-based index of the field; `None` where the rule does not say.
    pub field: Option<usize>,
    /// The label shown for the region.
    pub name: String,
    /// A regular expression that a line has to match for the rule to apply to it.
    pub condition: Option<String>,
}

/// The rules of one run, in the order in which they are evaluated and rendered,
/// tagged by the mode they are written for.
#[derive(Debug, Clone, PartialEq, Eq)]
pub enum RecordList {
    FixedWidth(Vec<FixedWidthHighlightRecord>),
    Delimiter(char, Vec<DelimiterHighlightRecord>),
}

/// The mathematical content of a column rule.
pub struct ColumnRule {
    pub start: Option<nat>,
    pub length: Option<nat>,
    pub name: Seq<char>,
    pub condition: Option<Seq<char>>,
}

/// The mathematical content of a delimiter rule.
pub struct FieldRule {
    pub field: Option<nat>,
    pub name: Seq<char>,
    pub condition: Option<Seq<char>>,
}

/// The mathematical content of a rule set.
pub enum RuleSet {
    Columns(Seq<ColumnRule>),
    Fields(char, Seq<FieldRule>),
}

/// The characters of an optional string.
pub open spec fn option_text(s: Option<String>) -> Option<Seq<char>> {
    match s {
        Some(t) => Some(t@),
        None => None,
    }
}

/// An optional machine number as a natural number.
pub open spec fn option_nat(n: Option<usize>) -> Option<nat> {
    match n {
        Some(v) => Some(v as nat),
        None => None,
    }
}

impl View for FixedWidthHighlightRecord {
    type V = ColumnRule;

    open spec fn view(&self) -> ColumnRule {
        ColumnRule {
            start: option_nat(self.start),
            length: option_nat(self.length),
            name: self.name@,
            condition: option_text(self.condition),
        }
    }
}

impl View for DelimiterHighlightRecord {
    type V = FieldRule;

    open spec fn view(&self) -> FieldRule {
        FieldRule {
            field: option_nat(self.field),
            name: self.name@,
            condition: option_text(self.condition),
        }
    }
}

/// The column rules that `records` stand for, in order.
pub open spec fn column_rules(records: Seq<FixedWidthHighlightRecord>) -> Seq<ColumnRule> {
    records.map_values(|r: FixedWidthHighlightRecord| r@)
}

/// The delimiter rules that `records` stand for, in order.
pub open spec fn field_rules(records: Seq<DelimiterHighlightRecord>) -> Seq<FieldRule> {
    records.map_values(|r: DelimiterHighlightRecord| r@)
}

impl View for RecordList {
    type V = RuleSet;

    open spec fn view(&self) -> RuleSet {
        match self {
            RecordList::FixedWidth(records) => RuleSet::Columns(column_rules(records@)),
            RecordList::Delimiter(delimiter, records) => RuleSet::Fields(
                *delimiter,
                field_rules(records@),
            ),
        }
    }
}

impl ColumnRule {
    /// Columns and lengths are positive, and the column after the region's last
    /// is one that a machine number can name.
    pub open spec fn valid(self) -> bool {
        &&& self.start matches Some(s) ==> s >= 1
        &&& self.length matches Some(l) ==> l >= 1
        &&& match (self.start, self.length) {
            (Some(s), Some(l)) => s - 1 + l <= usize::MAX,
            _ => true,
        }
    }
}

impl FieldRule {
    /// Field indices are positive.
    pub open spec fn valid(self) -> bool {
        self.field matches Some(k) ==> k >= 1
    }
}

/// Every one of `rules` is valid.
pub open spec fn all_columns_valid(rules: Seq<ColumnRule>) -> bool {
    forall|i: int| 0 <= i < rules.len() ==> (#[trigger] rules[i]).valid()
}

/// Every one of `rules` is valid.
pub open spec fn all_fields_valid(rules: Seq<FieldRule>) -> bool {
    forall|i: int| 0 <= i < rules.len() ==> (#[trigger] rules[i]).valid()
}

impl RuleSet {
    /// Every rule of the set is valid.
    pub open spec fn valid(self) -> bool {
        match self {
            RuleSet::Columns(rules) => all_columns_valid(rules),
            RuleSet::Fields(_, rules) => all_fields_valid(rules),
        }
    }
}

impl FixedWidthHighlightRecord {
    /// Whether the rule is valid.
    pub fn is_valid(&self) -> (b: bool)
        ensures
            b == self@.valid(),
    {
        let start_ok = match self.start {
            Some(s) => s >= 1,
            None => true,
        };
        let length_ok = match self.length {
            Some(l) => l >= 1,
            None => true,
        };
        let span_ok = match (self.start, self.length) {
            (Some(s), Some(l)) => s < 1 || l <= usize::MAX - (s - 1),
            _ => true,
        };
        start_ok && length_ok && span_ok
    }
}

impl DelimiterHighlightRecord {
    /// Whether the rule is valid.
    pub fn is_valid(&self) -> (b: bool)
        ensures
            b == self@.valid(),
    {
        match self.field {
            Some(k) => k >= 1,
            None => true,
        }
    }
}

/// Whether every one of `records` is valid.
fn columns_are_valid(records: &Vec<FixedWidthHighlightRecord>) -> (b: bool)
    ensures
        b == all_columns_valid(column_rules(records@)),
{
    let mut i: usize = 0;
    while i < records.len()
        invariant
            i <= records.len(),
            forall|j: int| 0 <= j < i ==> (#[trigger] column_rules(records@)[j]).valid(),
        decreases records.len() - i,
    {
        if !records[i].is_valid() {
            assert(!column_rules(records@)[i as int].valid());
            return false;
        }
        i = i + 1;
    }
    true
}

/// Whether every one of `records` is valid.
fn fields_are_valid(records: &Vec<DelimiterHighlightRecord>) -> (b: bool)
    ensures
        b == all_fields_valid(field_rules(records@)),
{
    let mut i: usize = 0;
    while i < records.len()
        invariant
            i <= records.len(),
            forall|j: int| 0 <= j < i ==> (#[trigger] field_rules(records@)[j]).valid(),
        decreases records.len() - i,
    {
        if !records[i].is_valid() {
            assert(!field_rules(records@)[i as int].valid());
            return false;
        }
        i = i + 1;
    }
    true
}

impl RecordList {
    /// Whether every rule of the list is valid.
    pub fn is_valid(&self) -> (b: bool)
        ensures
            b == self@.valid(),
    {
        match self {
            RecordList::FixedWidth(records) => columns_are_valid(records),
            RecordList::Delimiter(_, records) => fields_are_valid(records),
        }
    }
}

} // verus!
