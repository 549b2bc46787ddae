//! Reading the values of a field, which must be of the right kind.

use vstd::prelude::*;
use vstd::string::*;

use crate::error::LuceneError;
use crate::search::leaf_reader::{DocValuesType, LeafReader};

verus! {

/// The name of a kind of values.
pub open spec fn kind_name(kind: DocValuesType) -> Seq<char> {
    match kind {
        DocValuesType::NONE => "NONE"@,
        DocValuesType::NUMERIC => "NUMERIC"@,
        DocValuesType::BINARY => "BINARY"@,
        DocValuesType::SORTED => "SORTED"@,
        DocValuesType::SORTED_NUMERIC => "SORTED_NUMERIC"@,
        DocValuesType::SORTED_SET => "SORTED_SET"@,
    }
}

fn name_of(kind: DocValuesType) -> (r: &'static str)
    ensures
        r@ == kind_name(kind),
{
    match kind {
        DocValuesType::NONE => "NONE",
        DocValuesType::NUMERIC => "NUMERIC",
        DocValuesType::BINARY => "BINARY",
        DocValuesType::SORTED => "SORTED",
        DocValuesType::SORTED_NUMERIC => "SORTED_NUMERIC",
        DocValuesType::SORTED_SET => "SORTED_SET",
    }
}

/// What is said of the kinds of values that are expected.
pub open spec fn expectation(first: DocValuesType, second: Option<DocValuesType>) -> Seq<char> {
    match second {
        None => "(expected="@ + kind_name(first),
        Some(other) => "(expected one of ["@ + kind_name(first) + ", "@ + kind_name(other) + "]"@,
    }
}

/// What is said of a field that has values of another kind.
pub open spec fn unexpected_kind(
    actual: DocValuesType,
    field: Seq<char>,
    first: DocValuesType,
    second: Option<DocValuesType>,
) -> Seq<char> {
    "unexpected docvalues type "@ + kind_name(actual) + " for field '"@ + field + "' "@
        + expectation(first, second) + "). Re-index with correct docvalues type."@
}

/// Whether the leaf does not have the field, or its values are of an expected kind.
pub open spec fn expected_kind<R: LeafReader>(
    reader: R,
    field: Seq<char>,
    first: DocValuesType,
    second: Option<DocValuesType>,
) -> bool {
    match reader.info(field) {
        None => true,
        Some(info) => info.doc_values_type == first || second == Some(info.doc_values_type),
    }
}

/// Reports a field that exists, though its values are not of the expected kinds.
///
/// # Errors
///
/// [`LuceneError::IllegalState`] if the field exists, and its values are of another kind.
fn check_field<R: LeafReader>(
    reader: &R,
    field: &str,
    first: DocValuesType,
    second: Option<DocValuesType>,
) -> (r: Result<(), LuceneError>)
    ensures
        r is Ok <==> expected_kind(*reader, field@, first, second),
        r matches Err(e) ==> e.is_illegal_state(
            unexpected_kind(reader.info(field@)->0.doc_values_type, field@, first, second),
        ),
{
    match reader.field_info(field) {
        None => Ok(()),
        Some(info) => {
            if info.doc_values_type == first {
                return Ok(());
            }
            if let Some(other) = second {
                if info.doc_values_type == other {
                    return Ok(());
                }
            }
            let mut expected = String::new();
            match second {
                None => {
                    expected.append("(expected=");
                    expected.append(name_of(first));
                },
                Some(other) => {
                    expected.append("(expected one of [");
                    expected.append(name_of(first));
                    expected.append(", ");
                    expected.append(name_of(other));
                    expected.append("]");
                },
            }
            assert(expected@ =~= expectation(first, second));
            let mut message = "unexpected docvalues type ".to_owned();
            message.append(name_of(info.doc_values_type));
            message.append(" for field '");
            message.append(field);
            message.append("' ");
            message.append(expected.as_str());
            message.append("). Re-index with correct docvalues type.");
            Err(LuceneError::IllegalState(message))
        },
    }
}

/// The values of a field.
pub enum FoundValues<I> {
    /// Values of the kind that was asked for.
    Values(I),
    /// Values of which each document has one.
    Singleton(I),
    /// No document has a value.
    Empty,
}

/// Whether a read of values of a kind ends as it should: with the values, with none when the
/// field has none, or with an error when it has values of another kind.
pub open spec fn is_read<R: LeafReader>(
    reader: R,
    field: Seq<char>,
    kind: DocValuesType,
    r: Result<FoundValues<R::I>, LuceneError>,
) -> bool {
    match reader.values(field, kind) {
        Err(e) => r == Err::<FoundValues<R::I>, LuceneError>(e),
        Ok(Some(values)) => r == Ok::<FoundValues<R::I>, LuceneError>(FoundValues::Values(values)),
        Ok(None) => if expected_kind(reader, field, kind, None) {
            r == Ok::<FoundValues<R::I>, LuceneError>(FoundValues::Empty)
        } else {
            r matches Err(e) && e.is_illegal_state(
                unexpected_kind(reader.info(field)->0.doc_values_type, field, kind, None),
            )
        },
    }
}

/// Whether a read of several values for each document ends as it should: like a read of one
/// kind, but one value for each document will do.
pub open spec fn is_multi_read<R: LeafReader>(
    reader: R,
    field: Seq<char>,
    many: DocValuesType,
    one: DocValuesType,
    expected: (DocValuesType, DocValuesType),
    r: Result<FoundValues<R::I>, LuceneError>,
) -> bool {
    match reader.values(field, many) {
        Err(e) => r == Err::<FoundValues<R::I>, LuceneError>(e),
        Ok(Some(values)) => r == Ok::<FoundValues<R::I>, LuceneError>(FoundValues::Values(values)),
        Ok(None) => match reader.values(field, one) {
            Err(e) => r == Err::<FoundValues<R::I>, LuceneError>(e),
            Ok(Some(values)) => r == Ok::<FoundValues<R::I>, LuceneError>(
                FoundValues::Singleton(values),
            ),
            Ok(None) => if expected_kind(reader, field, expected.0, Some(expected.1)) {
                r == Ok::<FoundValues<R::I>, LuceneError>(FoundValues::Empty)
            } else {
                r matches Err(e) && e.is_illegal_state(
                    unexpected_kind(
                        reader.info(field)->0.doc_values_type,
                        field,
                        expected.0,
                        Some(expected.1),
                    ),
                )
            },
        },
    }
}

fn read<R: LeafReader>(reader: &R, field: &str, kind: DocValuesType) -> (r: Result<
    FoundValues<R::I>,
    LuceneError,
>)
    ensures
        is_read(*reader, field@, kind, r),
{
    match reader.get_doc_values(field, kind) {
        Err(e) => Err(e),
        Ok(Some(values)) => Ok(FoundValues::Values(values)),
        Ok(None) => match check_field(reader, field, kind, None) {
            Ok(()) => Ok(FoundValues::Empty),
            Err(e) => Err(e),
        },
    }
}

fn read_multi<R: LeafReader>(
    reader: &R,
    field: &str,
    many: DocValuesType,
    one: DocValuesType,
    first: DocValuesType,
    second: DocValuesType,
) -> (r: Result<FoundValues<R::I>, LuceneError>)
    ensures
        is_multi_read(*reader, field@, many, one, (first, second), r),
{
    match reader.get_doc_values(field, many) {
        Err(e) => {
            return Err(e);
        },
        Ok(Some(values)) => {
            return Ok(FoundValues::Values(values));
        },
        Ok(None) => {},
    }
    match reader.get_doc_values(field, one) {
        Err(e) => Err(e),
        Ok(Some(values)) => Ok(FoundValues::Singleton(values)),
        Ok(None) => match check_field(reader, field, first, Some(second)) {
            Ok(()) => Ok(FoundValues::Empty),
            Err(e) => Err(e),
        },
    }
}

/// Returns the numbers of a field.
///
/// # Errors
///
/// [`LuceneError::IllegalState`] if the field has other values; whatever reading the leaf
/// fails with.
pub fn get_numeric<R: LeafReader>(reader: &R, field: &str) -> (r: Result<
    FoundValues<R::I>,
    LuceneError,
>)
    ensures
        is_read(*reader, field@, DocValuesType::NUMERIC, r),
{
    read(reader, field, DocValuesType::NUMERIC)
}

/// Returns the byte strings of a field.
///
/// # Errors
///
/// [`LuceneError::IllegalState`] if the field has other values; whatever reading the leaf
/// fails with.
pub fn get_binary<R: LeafReader>(reader: &R, field: &str) -> (r: Result<
    FoundValues<R::I>,
    LuceneError,
>)
    ensures
        is_read(*reader, field@, DocValuesType::BINARY, r),
{
    read(reader, field, DocValuesType::BINARY)
}

/// Returns the terms of a field.
///
/// # Errors
///
/// [`LuceneError::IllegalState`] if the field has other values; whatever reading the leaf fails
/// with.
pub fn get_sorted<R: LeafReader>(reader: &R, field: &str) -> (r: Result<
    FoundValues<R::I>,
    LuceneError,
>)
    ensures
        is_read(*reader, field@, DocValuesType::SORTED, r),
{
    read(reader, field, DocValuesType::SORTED)
}

/// Returns the numbers of a field, several for each document or one.
///
/// # Errors
///
/// [`LuceneError::IllegalState`] if the field has other values; whatever reading the leaf
/// fails with.
pub fn get_sorted_numeric<R: LeafReader>(reader: &R, field: &str) -> (r: Result<
    FoundValues<R::I>,
    LuceneError,
>)
    ensures
        is_multi_read(
            *reader,
            field@,
            DocValuesType::SORTED_NUMERIC,
            DocValuesType::NUMERIC,
            (DocValuesType::SORTED_NUMERIC, DocValuesType::NUMERIC),
            r,
        ),
{
    read_multi(
        reader,
        field,
        DocValuesType::SORTED_NUMERIC,
        DocValuesType::NUMERIC,
        DocValuesType::SORTED_NUMERIC,
        DocValuesType::NUMERIC,
    )
}

/// Returns the terms of a field, several for each document or one.
///
/// # Errors
///
/// [`LuceneError::IllegalState`] if the field has other values; whatever reading the leaf fails
/// with.
pub fn get_sorted_set<R: LeafReader>(reader: &R, field: &str) -> (r: Result<
    FoundValues<R::I>,
    LuceneError,
>)
    ensures
        is_multi_read(
            *reader,
            field@,
            DocValuesType::SORTED_SET,
            DocValuesType::SORTED,
            (DocValuesType::SORTED, DocValuesType::SORTED_SET),
            r,
        ),
{
    read_multi(
        reader,
        field,
        DocValuesType::SORTED_SET,
        DocValuesType::SORTED,
        DocValuesType::SORTED,
        DocValuesType::SORTED_SET,
    )
}

} // verus!
