//! The rule set parser: from the text of a rule definition, a table with a
//! header row and one row per rule, to the rule set it describes.

use vstd::prelude::*;
use crate::rules::{
    all_columns_valid, all_fields_valid, column_rules, field_rules, option_nat, option_text,
    ColumnRule, DelimiterHighlightRecord, FieldRule, FixedWidthHighlightRecord, RecordList,
    RuleSet,
};

verus! {

/// The error that `csv` reports for data it cannot read.
#[verifier::external_type_specification]
#[verifier::external_body]
pub struct ExCsvError(csv::Error);

/// The records that a `csv` reader without a header row, and without a check
/// on the number of fields, reads from `text`: one sequence of fields for each
/// record, the first record included; `None` where the reader reports an error.
pub uninterp spec fn csv_table(text: Seq<char>) -> Option<Seq<Seq<Seq<char>>>>;

/// The number that `csv` reads from `field` when a record is deserialized into
/// an unsigned 64-bit integer; `None` where it reports an error.
pub uninterp spec fn csv_integer(field: Seq<char>) -> Option<u64>;

/// Reads every record of `text` with `csv::Reader::records`, from a reader
/// built with `has_headers(false)` and `flexible(true)`: the header comes as
/// the first record, and records of any number of fields are handed on, so
/// that both are checked by `records_from_rows`.
///
/// Unproved: what the reader yields depends on `text` alone; the result holds
/// the fields of every record in order, or the first error that the reader
/// reports.
#[verifier::external_body]
pub(crate) fn read_table(text: &str) -> (r: Result<Vec<Vec<String>>, csv::Error>)
    ensures
        match r {
            Ok(rows) => csv_table(text@) == Some(rows.deep_view()),
            Err(_) => csv_table(text@) is None,
        },
{
    let mut builder = csv::ReaderBuilder::new();
    let mut reader = builder.has_headers(false).flexible(true).from_reader(text.as_bytes());
    let mut rows = Vec::new();
    for record in reader.records() {
        rows.push(record?.iter().map(String::from).collect());
    }
    Ok(rows)
}

/// Reads `field` as a number with `csv::StringRecord::deserialize`, on a
/// record that holds `field` alone.
///
/// Unproved: the outcome depends on `field` alone.
#[verifier::external_body]
pub(crate) fn read_integer(field: &str) -> (r: Result<u64, csv::Error>)
    ensures
        match r {
            Ok(value) => csv_integer(field@) == Some(value),
            Err(_) => csv_integer(field@) is None,
        },
{
    csv::StringRecord::from(vec![field]).deserialize::<u64>(None)
}

/// Why a rule definition could not be parsed. Rows are counted from 0, the
/// header row included.
#[derive(Debug, Clone, Copy, PartialEq, Eq, Structural)]
pub enum SyntaxParseError {
    /// The text is not a table that can be read.
    Unreadable,
    /// The table has no row at all.
    MissingHeader,
    /// The first row does not name the columns that the mode expects.
    UnexpectedHeader,
    /// Row `row` does not have as many fields as the header.
    ColumnCount { row: usize },
    /// A numeric field of row `row` is not a positive number that fits the machine.
    InvalidNumber { row: usize },
    /// The region that row `row` describes ends beyond the largest column
    /// that the machine can name.
    RegionOutOfRange { row: usize },
}

/// The header of a rule definition in column mode.
pub open spec fn column_header() -> Seq<Seq<char>> {
    seq!["start"@, "length"@, "name"@, "condition"@]
}

/// The header of a rule definition in delimiter mode.
pub open spec fn field_header() -> Seq<Seq<char>> {
    seq!["field"@, "name"@, "condition"@]
}

/// What a numeric field says: nothing where it is empty, a positive number
/// that fits the machine where it holds one. `None` stands for a field that
/// holds anything else.
pub open spec fn number_of(field: Seq<char>) -> Option<Option<nat>> {
    if field.len() == 0 {
        Some(None)
    } else {
        match csv_integer(field) {
            Some(value) if 1 <= value <= usize::MAX => Some(Some(value as nat)),
            _ => None,
        }
    }
}

/// What an optional text field says: nothing where it is empty.
pub open spec fn text_of(field: Seq<char>) -> Option<Seq<char>> {
    if field.len() == 0 {
        None
    } else {
        Some(field)
    }
}

/// The column rule that the row with index `index` describes.
pub open spec fn column_rule_of(row: Seq<Seq<char>>, index: int) -> Result<
    ColumnRule,
    SyntaxParseError,
> {
    if row.len() != 4 {
        Err(SyntaxParseError::ColumnCount { row: index as usize })
    } else {
        match (number_of(row[0]), number_of(row[1])) {
            (Some(start), Some(length)) => {
                let rule = ColumnRule {
                    start,
                    length,
                    name: row[2],
                    condition: text_of(row[3]),
                };
                if rule.valid() {
                    Ok(rule)
                } else {
                    Err(SyntaxParseError::RegionOutOfRange { row: index as usize })
                }
            },
            _ => Err(SyntaxParseError::InvalidNumber { row: index as usize }),
        }
    }
}

/// The delimiter rule that the row with index `index` describes.
pub open spec fn field_rule_of(row: Seq<Seq<char>>, index: int) -> Result<
    FieldRule,
    SyntaxParseError,
> {
    if row.len() != 3 {
        Err(SyntaxParseError::ColumnCount { row: index as usize })
    } else {
        match number_of(row[0]) {
            Some(field) => Ok(FieldRule { field, name: row[1], condition: text_of(row[2]) }),
            None => Err(SyntaxParseError::InvalidNumber { row: index as usize }),
        }
    }
}

/// The column rules of the rows after the header and before row `upto`, or
/// the error of the first row among them that describes none.
pub open spec fn column_rules_of(rows: Seq<Seq<Seq<char>>>, upto: int) -> Result<
    Seq<ColumnRule>,
    SyntaxParseError,
>
    decreases upto,
{
    if upto <= 1 {
        Ok(Seq::empty())
    } else {
        match column_rules_of(rows, upto - 1) {
            Ok(rules) => match column_rule_of(rows[upto - 1], upto - 1) {
                Ok(rule) => Ok(rules.push(rule)),
                Err(e) => Err(e),
            },
            Err(e) => Err(e),
        }
    }
}

/// The delimiter rules of the rows after the header and before row `upto`, or
/// the error of the first row among them that describes none.
pub open spec fn field_rules_of(rows: Seq<Seq<Seq<char>>>, upto: int) -> Result<
    Seq<FieldRule>,
    SyntaxParseError,
>
    decreases upto,
{
    if upto <= 1 {
        Ok(Seq::empty())
    } else {
        match field_rules_of(rows, upto - 1) {
            Ok(rules) => match field_rule_of(rows[upto - 1], upto - 1) {
                Ok(rule) => Ok(rules.push(rule)),
                Err(e) => Err(e),
            },
            Err(e) => Err(e),
        }
    }
}

/// The rule set that a table describes: its first row has to be the header of
/// the mode, which is delimiter mode exactly when a delimiter is given, and
/// every later row has to describe a rule.
pub open spec fn rules_of_table(rows: Seq<Seq<Seq<char>>>, delimiter: Option<char>) -> Result<
    RuleSet,
    SyntaxParseError,
> {
    if rows.len() == 0 {
        Err(SyntaxParseError::MissingHeader)
    } else {
        match delimiter {
            None => if rows[0] != column_header() {
                Err(SyntaxParseError::UnexpectedHeader)
            } else {
                match column_rules_of(rows, rows.len() as int) {
                    Ok(rules) => Ok(RuleSet::Columns(rules)),
                    Err(e) => Err(e),
                }
            },
            Some(d) => if rows[0] != field_header() {
                Err(SyntaxParseError::UnexpectedHeader)
            } else {
                match field_rules_of(rows, rows.len() as int) {
                    Ok(rules) => Ok(RuleSet::Fields(d, rules)),
                    Err(e) => Err(e),
                }
            },
        }
    }
}

/// The rule set that the text of a rule definition describes.
pub open spec fn rules_of_text(text: Seq<char>, delimiter: Option<char>) -> Result<
    RuleSet,
    SyntaxParseError,
> {
    match csv_table(text) {
        Some(rows) => rules_of_table(rows, delimiter),
        None => Err(SyntaxParseError::Unreadable),
    }
}

/// Whether `field` reads `expected`.
fn reads(field: &String, expected: &str) -> (b: bool)
    ensures
        b == (field@ == expected@),
{
    *field == expected.to_owned()
}

/// Whether `row` names exactly the columns `names`, in order.
fn is_header(row: &Vec<String>, names: &Vec<&str>) -> (b: bool)
    ensures
        b == (row.deep_view() == names.deep_view()),
{
    if row.len() != names.len() {
        assert(row.deep_view().len() != names.deep_view().len());
        return false;
    }
    let mut i: usize = 0;
    while i < row.len()
        invariant
            i <= row.len(),
            row.len() == names.len(),
            forall|j: int| 0 <= j < i ==> row.deep_view()[j] == names.deep_view()[j],
        decreases row.len() - i,
    {
        if !reads(&row[i], names[i]) {
            assert(row.deep_view()[i as int] != names.deep_view()[i as int]);
            return false;
        }
        i = i + 1;
    }
    assert(row.deep_view() =~= names.deep_view());
    true
}

/// The machine number that stands for `value` in a rule: `value` itself where
/// it is positive and fits, none otherwise.
pub fn positive_number(value: u64) -> (number: Option<usize>)
    ensures
        number == if 1 <= value <= usize::MAX {
            Some(value as usize)
        } else {
            None
        },
{
    if value >= 1 && value <= usize::MAX as u64 {
        Some(value as usize)
    } else {
        None
    }
}

/// Reads a numeric field.
fn parse_number(field: &String) -> (r: Option<Option<usize>>)
    ensures
        match r {
            Some(number) => number_of(field@) == Some(option_nat(number)),
            None => number_of(field@) is None,
        },
{
    if field.as_str().is_empty() {
        return Some(None);
    }
    match read_integer(field.as_str()) {
        Ok(value) => match positive_number(value) {
            Some(number) => Some(Some(number)),
            None => None,
        },
        Err(_) => None,
    }
}

/// Reads an optional text field.
fn parse_text(field: &String) -> (r: Option<String>)
    ensures
        option_text(r) == text_of(field@),
{
    if field.as_str().is_empty() {
        None
    } else {
        Some(field.clone())
    }
}

/// Reads the row with index `index` as a column rule.
fn parse_column_rule(row: &Vec<String>, index: usize) -> (r: Result<
    FixedWidthHighlightRecord,
    SyntaxParseError,
>)
    ensures
        match r {
            Ok(record) => column_rule_of(row.deep_view(), index as int) == Ok::<
                ColumnRule,
                SyntaxParseError,
            >(record@),
            Err(e) => column_rule_of(row.deep_view(), index as int) == Err::<
                ColumnRule,
                SyntaxParseError,
            >(e),
        },
{
    if row.len() != 4 {
        return Err(SyntaxParseError::ColumnCount { row: index });
    }
    let start = match parse_number(&row[0]) {
        Some(start) => start,
        None => {
            return Err(SyntaxParseError::InvalidNumber { row: index });
        },
    };
    let length = match parse_number(&row[1]) {
        Some(length) => length,
        None => {
            return Err(SyntaxParseError::InvalidNumber { row: index });
        },
    };
    let record = FixedWidthHighlightRecord {
        start,
        length,
        name: row[2].clone(),
        condition: parse_text(&row[3]),
    };
    if record.is_valid() {
        Ok(record)
    } else {
        Err(SyntaxParseError::RegionOutOfRange { row: index })
    }
}

/// Reads the row with index `index` as a delimiter rule.
fn parse_field_rule(row: &Vec<String>, index: usize) -> (r: Result<
    DelimiterHighlightRecord,
    SyntaxParseError,
>)
    ensures
        match r {
            Ok(record) => field_rule_of(row.deep_view(), index as int) == Ok::<
                FieldRule,
                SyntaxParseError,
            >(record@),
            Err(e) => field_rule_of(row.deep_view(), index as int) == Err::<
                FieldRule,
                SyntaxParseError,
            >(e),
        },
{
    if row.len() != 3 {
        return Err(SyntaxParseError::ColumnCount { row: index });
    }
    match parse_number(&row[0]) {
        Some(field) => Ok(
            DelimiterHighlightRecord {
                field,
                name: row[1].clone(),
                condition: parse_text(&row[2]),
            },
        ),
        None => Err(SyntaxParseError::InvalidNumber { row: index }),
    }
}

/// Reads the rows after the header as column rules.
fn parse_column_rules(rows: &Vec<Vec<String>>) -> (r: Result<
    Vec<FixedWidthHighlightRecord>,
    SyntaxParseError,
>)
    requires
        rows.len() >= 1,
    ensures
        match r {
            Ok(records) => column_rules_of(rows.deep_view(), rows.len() as int) == Ok::<
                Seq<ColumnRule>,
                SyntaxParseError,
            >(column_rules(records@)) && all_columns_valid(column_rules(records@)),
            Err(e) => column_rules_of(rows.deep_view(), rows.len() as int) == Err::<
                Seq<ColumnRule>,
                SyntaxParseError,
            >(e),
        },
{
    let mut records: Vec<FixedWidthHighlightRecord> = Vec::new();
    assert(column_rules(records@) =~= Seq::empty());
    let mut i: usize = 1;
    while i < rows.len()
        invariant
            1 <= i <= rows.len(),
            column_rules_of(rows.deep_view(), i as int) == Ok::<Seq<ColumnRule>, SyntaxParseError>(
                column_rules(records@),
            ),
            all_columns_valid(column_rules(records@)),
        decreases rows.len() - i,
    {
        assert(rows.deep_view()[i as int] == rows@[i as int].deep_view());
        match parse_column_rule(&rows[i], i) {
            Ok(record) => {
                let ghost before = records@;
                records.push(record);
                assert(column_rules(records@) =~= column_rules(before).push(record@));
            },
            Err(e) => {
                proof {
                    lemma_column_error_stays(rows.deep_view(), i as int + 1, rows.len() as int, e);
                }
                return Err(e);
            },
        }
        i = i + 1;
    }
    Ok(records)
}

/// Reads the rows after the header as delimiter rules.
fn parse_field_rules(rows: &Vec<Vec<String>>) -> (r: Result<
    Vec<DelimiterHighlightRecord>,
    SyntaxParseError,
>)
    requires
        rows.len() >= 1,
    ensures
        match r {
            Ok(records) => field_rules_of(rows.deep_view(), rows.len() as int) == Ok::<
                Seq<FieldRule>,
                SyntaxParseError,
            >(field_rules(records@)) && all_fields_valid(field_rules(records@)),
            Err(e) => field_rules_of(rows.deep_view(), rows.len() as int) == Err::<
                Seq<FieldRule>,
                SyntaxParseError,
            >(e),
        },
{
    let mut records: Vec<DelimiterHighlightRecord> = Vec::new();
    assert(field_rules(records@) =~= Seq::empty());
    let mut i: usize = 1;
    while i < rows.len()
        invariant
            1 <= i <= rows.len(),
            field_rules_of(rows.deep_view(), i as int) == Ok::<Seq<FieldRule>, SyntaxParseError>(
                field_rules(records@),
            ),
            all_fields_valid(field_rules(records@)),
        decreases rows.len() - i,
    {
        assert(rows.deep_view()[i as int] == rows@[i as int].deep_view());
        match parse_field_rule(&rows[i], i) {
            Ok(record) => {
                let ghost before = records@;
                records.push(record);
                assert(field_rules(records@) =~= field_rules(before).push(record@));
            },
            Err(e) => {
                proof {
                    lemma_field_error_stays(rows.deep_view(), i as int + 1, rows.len() as int, e);
                }
                return Err(e);
            },
        }
        i = i + 1;
    }
    Ok(records)
}

/// An error met among the first rows is the error of all the rows.
proof fn lemma_column_error_stays(
    rows: Seq<Seq<Seq<char>>>,
    upto: int,
    len: int,
    e: SyntaxParseError,
)
    requires
        upto <= len,
        column_rules_of(rows, upto) == Err::<Seq<ColumnRule>, SyntaxParseError>(e),
    ensures
        column_rules_of(rows, len) == Err::<Seq<ColumnRule>, SyntaxParseError>(e),
    decreases len - upto,
{
    if upto < len {
        lemma_column_error_stays(rows, upto + 1, len, e);
    }
}

/// An error met among the first rows is the error of all the rows.
proof fn lemma_field_error_stays(
    rows: Seq<Seq<Seq<char>>>,
    upto: int,
    len: int,
    e: SyntaxParseError,
)
    requires
        upto <= len,
        field_rules_of(rows, upto) == Err::<Seq<FieldRule>, SyntaxParseError>(e),
    ensures
        field_rules_of(rows, len) == Err::<Seq<FieldRule>, SyntaxParseError>(e),
    decreases len - upto,
{
    if upto < len {
        lemma_field_error_stays(rows, upto + 1, len, e);
    }
}

/// Builds the rule set that the rows of a rule definition describe.
///
/// The first row has to be the header of the mode: `start,length,name,condition`
/// without a delimiter, `field,name,condition` with one. Every later row has to
/// hold as many fields as the header. A numeric field is either empty, which
/// leaves the rule without it, or a positive number. The condition is optional.
/// The first row that breaks one of these rules fails the whole operation, with
/// an error that names the row.
pub fn records_from_rows(rows: &Vec<Vec<String>>, delimiter: Option<char>) -> (r: Result<
    RecordList,
    SyntaxParseError,
>)
    ensures
        match r {
            Ok(records) => rules_of_table(rows.deep_view(), delimiter) == Ok::<
                RuleSet,
                SyntaxParseError,
            >(records@) && records@.valid(),
            Err(e) => rules_of_table(rows.deep_view(), delimiter) == Err::<
                RuleSet,
                SyntaxParseError,
            >(e),
        },
{
    if rows.len() == 0 {
        return Err(SyntaxParseError::MissingHeader);
    }
    assert(rows.deep_view()[0] == rows@[0].deep_view());
    match delimiter {
        None => {
            let names = vec!["start", "length", "name", "condition"];
            assert(names.deep_view() =~= column_header());
            if !is_header(&rows[0], &names) {
                return Err(SyntaxParseError::UnexpectedHeader);
            }
            match parse_column_rules(rows) {
                Ok(records) => Ok(RecordList::FixedWidth(records)),
                Err(e) => Err(e),
            }
        },
        Some(d) => {
            let names = vec!["field", "name", "condition"];
            assert(names.deep_view() =~= field_header());
            if !is_header(&rows[0], &names) {
                return Err(SyntaxParseError::UnexpectedHeader);
            }
            match parse_field_rules(rows) {
                Ok(records) => Ok(RecordList::Delimiter(d, records)),
                Err(e) => Err(e),
            }
        },
    }
}

/// Parses the text of a rule definition: a table in CSV form, read by `csv`,
/// whose rows are then taken as `records_from_rows` describes.
pub fn parse_syntax_file(syntax_file: &str, delimiter: Option<char>) -> (r: Result<
    RecordList,
    SyntaxParseError,
>)
    ensures
        match r {
            Ok(records) => rules_of_text(syntax_file@, delimiter) == Ok::<
                RuleSet,
                SyntaxParseError,
            >(records@) && records@.valid(),
            Err(e) => rules_of_text(syntax_file@, delimiter) == Err::<RuleSet, SyntaxParseError>(
                e,
            ),
        },
{
    match read_table(syntax_file) {
        Ok(rows) => records_from_rows(&rows, delimiter),
        Err(_) => Err(SyntaxParseError::Unreadable),
    }
}

} // verus!
