//! Non-fatal anomalies met while resolving and rendering a line. None of them
//! stops the processing of later lines.

use vstd::prelude::*;

verus! {

/// One anomaly, as it is handed to whoever logs it.
#[derive(Debug, Clone, PartialEq, Eq)]
pub enum Diagnostic {
    /// The rule at index `rule` of the rule set lacks a field that its mode
    /// requires, and was skipped for this line.
    SkippedInvalidRule { rule: usize },
    /// When the line with index `line` ended, the boundaries opened on it and
    /// the boundaries closed on it did not balance: a region reaches beyond
    /// the line.
    LineTooShort { line: usize },
    /// The region called `name` never reached its closing boundary on the line
    /// with index `line`.
    RegionNotApplied { name: String, line: usize },
}

/// The mathematical content of a diagnostic.
pub enum Anomaly {
    SkippedInvalidRule { rule: nat },
    LineTooShort { line: nat },
    RegionNotApplied { name: Seq<char>, line: nat },
}

impl View for Diagnostic {
    type V = Anomaly;

    open spec fn view(&self) -> Anomaly {
        match self {
            Diagnostic::SkippedInvalidRule { rule } => Anomaly::SkippedInvalidRule {
                rule: *rule as nat,
            },
            Diagnostic::LineTooShort { line } => Anomaly::LineTooShort { line: *line as nat },
            Diagnostic::RegionNotApplied { name, line } => Anomaly::RegionNotApplied {
                name: name@,
                line: *line as nat,
            },
        }
    }
}

/// The anomalies that `diagnostics` stand for, in order.
pub open spec fn anomalies(diagnostics: Seq<Diagnostic>) -> Seq<Anomaly> {
    diagnostics.map_values(|d: Diagnostic| d@)
}

} // verus!
