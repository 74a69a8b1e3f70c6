//! Rows of a comma-delimited log file and the fields read from them.

use vstd::prelude::*;

verus! {

/// The fields of a row as texts.
pub open spec fn fields_view(fields: Seq<String>) -> Seq<Seq<char>> {
    Seq::new(fields.len(), |i: int| fields[i]@)
}

/// A row as texts: its fields, or the reason why it could not be read.
pub open spec fn row_view(row: Result<Vec<String>, String>) -> Result<Seq<Seq<char>>, Seq<char>> {
    match row {
        Ok(fields) => Ok(fields_view(fields@)),
        Err(reason) => Err(reason@),
    }
}

/// Rows as texts, in order.
pub open spec fn rows_view(rows: Seq<Result<Vec<String>, String>>) -> Seq<
    Result<Seq<Seq<char>>, Seq<char>>,
> {
    Seq::new(rows.len(), |i: int| row_view(rows[i]))
}

/// The field at `index`, or the empty text where the row is too short.
pub open spec fn field_text(fields: Seq<Seq<char>>, index: int) -> Seq<char> {
    if 0 <= index < fields.len() {
        fields[index]
    } else {
        Seq::empty()
    }
}

/// What the `csv` crate reads from `data` with its default settings, the
/// first row taken as a header and left out: for each following row its
/// fields, or the message of the error that the row gave.
pub uninterp spec fn csv_records(data: Seq<u8>) -> Seq<Result<Seq<Seq<char>>, Seq<char>>>;

/// Runs `csv::ReaderBuilder::new().from_reader(data).records()` to its end
/// and copies each item: a record's fields as strings, an error as its
/// message.
///
/// Believed, not proved: the items are a function of the bytes alone, and
/// reading from memory ends after finitely many of them.
#[verifier::external_body]
pub(crate) fn read_records(data: &[u8]) -> (rows: Vec<Result<Vec<String>, String>>)
    ensures
        rows_view(rows@) == csv_records(data@),
{
    let mut reader = csv::ReaderBuilder::new().from_reader(data);
    reader.records().map(
        |item| match item {
            Ok(record) => Ok(record.iter().map(|field| field.to_string()).collect()),
            Err(error) => Err(error.to_string()),
        },
    ).collect()
}

/// The field at `index` of a row; a row with too few fields gives the
/// empty text.
pub fn field(fields: &Vec<String>, index: usize) -> (r: &str)
    ensures
        r@ == field_text(fields_view(fields@), index as int),
{
    if index < fields.len() {
        fields[index].as_str()
    } else {
        let empty = "";
        proof {
            reveal_strlit("");
            assert(empty@ =~= Seq::<char>::empty());
        }
        empty
    }
}

} // verus!
