//! The filter algebra: predicates evaluated per row against the keyed
//! column view of a table.

use vstd::prelude::*;

use crate::common::{
    spec_convert_field, spec_value_cmp, ColumnType, DataType, FieldValue, RawRow, TableInfoMap,
};
use crate::common::convert_row_field;

verus! {

use core::cmp::Ordering;

/// One filter of the closed algebra.  A list of filters matches a row when
/// every member does.
pub enum FilterType {
    GreaterThanEqualTo(String, DataType),
    GreaterThan(String, DataType),
    LessThanEqualTo(String, DataType),
    LessThan(String, DataType),
    EqualTo(String, DataType),
    Between(String, DataType, DataType),
    In(String, Vec<DataType>),
    All,
}

/// The typed field of a row named by `column`, if the column exists and the
/// row is wide enough.
pub open spec fn spec_field_from_row(
    row: Seq<u64>,
    column: Seq<char>,
    schema: Map<Seq<char>, (ColumnType, u64)>,
) -> Option<FieldValue> {
    if schema.contains_key(column) {
        let (ty, off) = schema[column];
        if off < row.len() {
            Some(spec_convert_field(row[off as int], ty))
        } else {
            None
        }
    } else {
        None
    }
}

/// Whether a present field compares to `value` with the given outcome; an
/// absent field never compares.
pub open spec fn spec_has_ordering(
    value: FieldValue,
    field: Option<FieldValue>,
    order: Ordering,
) -> bool {
    match field {
        Some(f) => spec_value_cmp(value, f) == Some(order),
        None => false,
    }
}

/// What one filter says of one row.
pub open spec fn spec_apply_filter(
    row: Seq<u64>,
    filter: FilterType,
    schema: Map<Seq<char>, (ColumnType, u64)>,
) -> bool {
    match filter {
        FilterType::GreaterThanEqualTo(column, value) => {
            ||| spec_has_ordering(value@, spec_field_from_row(row, column@, schema), Ordering::Equal)
            ||| spec_has_ordering(value@, spec_field_from_row(row, column@, schema), Ordering::Less)
        },
        FilterType::GreaterThan(column, value) => spec_has_ordering(
            value@,
            spec_field_from_row(row, column@, schema),
            Ordering::Less,
        ),
        FilterType::LessThanEqualTo(column, value) => {
            ||| spec_has_ordering(value@, spec_field_from_row(row, column@, schema), Ordering::Equal)
            ||| spec_has_ordering(
                value@,
                spec_field_from_row(row, column@, schema),
                Ordering::Greater,
            )
        },
        FilterType::LessThan(column, value) => spec_has_ordering(
            value@,
            spec_field_from_row(row, column@, schema),
            Ordering::Greater,
        ),
        FilterType::EqualTo(column, value) => spec_has_ordering(
            value@,
            spec_field_from_row(row, column@, schema),
            Ordering::Equal,
        ),
        FilterType::Between(column, lower, upper) => {
            &&& spec_has_ordering(lower@, spec_field_from_row(row, column@, schema), Ordering::Less)
            &&& spec_has_ordering(
                upper@,
                spec_field_from_row(row, column@, schema),
                Ordering::Greater,
            )
        },
        FilterType::In(column, values) => exists|k: int|
            0 <= k < values@.len() && spec_has_ordering(
                (#[trigger] values@[k])@,
                spec_field_from_row(row, column@, schema),
                Ordering::Equal,
            ),
        FilterType::All => true,
    }
}

/// What a filter list says of one row: the conjunction of its members.
pub open spec fn spec_apply_filters(
    row: Seq<u64>,
    filters: Seq<FilterType>,
    schema: Map<Seq<char>, (ColumnType, u64)>,
) -> bool {
    forall|i: int| 0 <= i < filters.len() ==> spec_apply_filter(row, #[trigger] filters[i], schema)
}

/// The column a filter reads, if it reads one.
pub open spec fn spec_filter_column(filter: FilterType) -> Option<Seq<char>> {
    match filter {
        FilterType::GreaterThanEqualTo(column, _) => Some(column@),
        FilterType::GreaterThan(column, _) => Some(column@),
        FilterType::LessThanEqualTo(column, _) => Some(column@),
        FilterType::LessThan(column, _) => Some(column@),
        FilterType::EqualTo(column, _) => Some(column@),
        FilterType::Between(column, _, _) => Some(column@),
        FilterType::In(column, _) => Some(column@),
        FilterType::All => None,
    }
}

/// Looks the named field up in a row and converts it.
pub fn field_from_row(
    raw_row: &RawRow,
    column_name: &String,
    table_schema: &TableInfoMap,
) -> (r: Option<DataType>)
    ensures
        match r {
            Some(d) => spec_field_from_row(raw_row@, column_name@, table_schema@) == Some(d@),
            None => spec_field_from_row(raw_row@, column_name@, table_schema@) is None,
        },
{
    match table_schema.get(column_name) {
        Some((to_type, offset)) => convert_row_field(raw_row, &to_type, offset),
        None => None,
    }
}

fn ordering_is(a: Ordering, b: Ordering) -> (r: bool)
    ensures
        r == (a == b),
{
    match (a, b) {
        (Ordering::Less, Ordering::Less) => true,
        (Ordering::Equal, Ordering::Equal) => true,
        (Ordering::Greater, Ordering::Greater) => true,
        _ => false,
    }
}

/// The view of an optional typed field.
pub open spec fn spec_opt_field_view(o: Option<DataType>) -> Option<FieldValue> {
    match o {
        Some(d) => Some(d@),
        None => None,
    }
}

/// Whether `right` is present and `left` compares to it with the given
/// outcome.
pub fn has_ordering(left: &DataType, right: Option<DataType>, order: Ordering) -> (r: bool)
    ensures
        r == spec_has_ordering(left@, spec_opt_field_view(right), order),
{
    match right {
        Some(right_value) => {
            match left.partial_cmp(&right_value) {
                Some(o) => ordering_is(o, order),
                None => false,
            }
        },
        None => false,
    }
}

/// Evaluates one filter against one row.
pub fn apply_filter(raw_row: &RawRow, filter: &FilterType, table_schema: &TableInfoMap) -> (r:
    bool)
    ensures
        r == spec_apply_filter(raw_row@, *filter, table_schema@),
{
    match filter {
        FilterType::GreaterThanEqualTo(column, value) => {
            has_ordering(value, field_from_row(raw_row, column, table_schema), Ordering::Equal)
                || has_ordering(
                value,
                field_from_row(raw_row, column, table_schema),
                Ordering::Less,
            )
        },
        FilterType::GreaterThan(column, value) => has_ordering(
            value,
            field_from_row(raw_row, column, table_schema),
            Ordering::Less,
        ),
        FilterType::LessThanEqualTo(column, value) => {
            has_ordering(value, field_from_row(raw_row, column, table_schema), Ordering::Equal)
                || has_ordering(
                value,
                field_from_row(raw_row, column, table_schema),
                Ordering::Greater,
            )
        },
        FilterType::LessThan(column, value) => has_ordering(
            value,
            field_from_row(raw_row, column, table_schema),
            Ordering::Greater,
        ),
        FilterType::EqualTo(column, value) => has_ordering(
            value,
            field_from_row(raw_row, column, table_schema),
            Ordering::Equal,
        ),
        FilterType::Between(column, lower, upper) => {
            has_ordering(lower, field_from_row(raw_row, column, table_schema), Ordering::Less)
                && has_ordering(
                upper,
                field_from_row(raw_row, column, table_schema),
                Ordering::Greater,
            )
        },
        FilterType::In(column, values) => {
            let field = field_from_row(raw_row, column, table_schema);
            let mut k: usize = 0;
            while k < values.len()
                invariant
                    k <= values@.len(),
                    spec_opt_field_view(field) == spec_field_from_row(
                        raw_row@,
                        column@,
                        table_schema@,
                    ),
                    forall|t: int|
                        0 <= t < k ==> !spec_has_ordering(
                            (#[trigger] values@[t])@,
                            spec_field_from_row(raw_row@, column@, table_schema@),
                            Ordering::Equal,
                        ),
                decreases values@.len() - k,
            {
                if has_ordering(&values[k], field, Ordering::Equal) {
                    return true;
                }
                k = k + 1;
            }
            false
        },
        FilterType::All => true,
    }
}

/// `All` accepts every row.
pub proof fn lemma_all_accepts(row: Seq<u64>, schema: Map<Seq<char>, (ColumnType, u64)>)
    ensures
        spec_apply_filter(row, FilterType::All, schema),
{
}

/// `EqualTo(c, v)` is the conjunction of `GreaterThanEqualTo(c, v)` and
/// `LessThanEqualTo(c, v)`.
pub proof fn lemma_equal_is_meet_of_bounds(
    row: Seq<u64>,
    column: String,
    value: DataType,
    schema: Map<Seq<char>, (ColumnType, u64)>,
)
    ensures
        spec_apply_filter(row, FilterType::EqualTo(column, value), schema) == (spec_apply_filter(
            row,
            FilterType::GreaterThanEqualTo(column, value),
            schema,
        ) && spec_apply_filter(row, FilterType::LessThanEqualTo(column, value), schema)),
{
}

/// `Between(c, lo, hi)` accepts a row exactly when `GreaterThan(c, lo)` and
/// `LessThan(c, hi)` both accept it.
pub proof fn lemma_between_is_strict_bounds(
    row: Seq<u64>,
    column: String,
    lower: DataType,
    upper: DataType,
    schema: Map<Seq<char>, (ColumnType, u64)>,
)
    ensures
        spec_apply_filter(row, FilterType::Between(column, lower, upper), schema) == (
        spec_apply_filter(row, FilterType::GreaterThan(column, lower), schema) && spec_apply_filter(
            row,
            FilterType::LessThan(column, upper),
            schema,
        )),
{
}

/// Two typed values compare at all exactly when they carry the same type tag.
pub proof fn lemma_cmp_defined_same_kind(a: FieldValue, b: FieldValue)
    ensures
        spec_value_cmp(a, b) is Some <==> crate::common::spec_same_kind(a, b),
{
}

/// Whether every literal that a filter would compare against the field
/// shares the field's type tag.
pub open spec fn spec_filter_kinds_match(filter: FilterType, f: FieldValue) -> bool {
    match filter {
        FilterType::GreaterThanEqualTo(_, v) => crate::common::spec_same_kind(v@, f),
        FilterType::GreaterThan(_, v) => crate::common::spec_same_kind(v@, f),
        FilterType::LessThanEqualTo(_, v) => crate::common::spec_same_kind(v@, f),
        FilterType::LessThan(_, v) => crate::common::spec_same_kind(v@, f),
        FilterType::EqualTo(_, v) => crate::common::spec_same_kind(v@, f),
        FilterType::Between(_, lower, upper) => crate::common::spec_same_kind(lower@, f)
            && crate::common::spec_same_kind(upper@, f),
        FilterType::In(_, values) => exists|k: int|
            0 <= k < values@.len() && crate::common::spec_same_kind((#[trigger] values@[k])@, f),
        FilterType::All => true,
    }
}

/// A comparison against literals of another type never matches.
pub proof fn lemma_cross_type_never_matches(
    row: Seq<u64>,
    filter: FilterType,
    schema: Map<Seq<char>, (ColumnType, u64)>,
    column: Seq<char>,
    f: FieldValue,
)
    requires
        spec_filter_column(filter) == Some(column),
        spec_field_from_row(row, column, schema) == Some(f),
        !spec_filter_kinds_match(filter, f),
    ensures
        !spec_apply_filter(row, filter, schema),
{
    assert forall|a: FieldValue| !crate::common::spec_same_kind(a, f) implies spec_value_cmp(a, f)
        is None by {
        lemma_cmp_defined_same_kind(a, f);
    }
}

/// A filter on a column name absent from the schema never matches.
pub proof fn lemma_absent_column_never_matches(
    row: Seq<u64>,
    filter: FilterType,
    schema: Map<Seq<char>, (ColumnType, u64)>,
    column: Seq<char>,
)
    requires
        spec_filter_column(filter) == Some(column),
        !schema.contains_key(column),
    ensures
        !spec_apply_filter(row, filter, schema),
{
}

/// Evaluates a filter list against one row; an empty list matches.
pub fn apply_filters(
    raw_row: &RawRow,
    filters: &Vec<FilterType>,
    table_schema: &TableInfoMap,
) -> (r: bool)
    ensures
        r == spec_apply_filters(raw_row@, filters@, table_schema@),
{
    let mut i: usize = 0;
    while i < filters.len()
        invariant
            i <= filters@.len(),
            forall|t: int|
                0 <= t < i ==> spec_apply_filter(raw_row@, #[trigger] filters@[t], table_schema@),
        decreases filters@.len() - i,
    {
        if !apply_filter(raw_row, &filters[i], table_schema) {
            return false;
        }
        i = i + 1;
    }
    true
}

} // verus!
