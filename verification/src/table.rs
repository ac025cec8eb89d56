//! CSV text: how the `csv` crate writes a record, and the wrapper that asks it to.

use vstd::prelude::*;

verus! {

/// Whether a field must be quoted: it holds a delimiter, a quote or a line break.
pub open spec fn csv_needs_quotes(field: Seq<char>) -> bool {
    exists|i: int| 0 <= i < field.len() && (#[trigger] field[i] == ',' || field[i] == '"' || field[i] == '\r' || field[i] == '\n')
}

/// A field with every quote doubled.
pub open spec fn csv_escape(field: Seq<char>) -> Seq<char>
    decreases field.len(),
{
    if field.len() == 0 {
        seq![]
    } else {
        let rest = csv_escape(field.drop_last());
        if field.last() == '"' {
            rest.push('"').push('"')
        } else {
            rest.push(field.last())
        }
    }
}

/// A field as written in a record.
pub open spec fn csv_field(field: Seq<char>) -> Seq<char> {
    if csv_needs_quotes(field) {
        seq!['"'] + csv_escape(field) + seq!['"']
    } else {
        field
    }
}

/// Written fields joined by commas.
pub open spec fn csv_join(fields: Seq<Seq<char>>) -> Seq<char>
    decreases fields.len(),
{
    if fields.len() == 0 {
        seq![]
    } else if fields.len() == 1 {
        csv_field(fields[0])
    } else {
        csv_join(fields.drop_last()) + seq![','] + csv_field(fields.last())
    }
}

/// A record as the `csv` crate writes it with its default settings: fields
/// quoted where necessary and joined by commas, then a newline; a record
/// with no text at all (no field, or one empty field) is written as `""`.
pub open spec fn csv_record(fields: Seq<Seq<char>>) -> Seq<char> {
    if fields.len() == 0 || (fields.len() == 1 && fields[0].len() == 0) {
        seq!['"', '"', '\n']
    } else {
        csv_join(fields) + seq!['\n']
    }
}

/// Records one after the other.
pub open spec fn csv_records(records: Seq<Seq<Seq<char>>>) -> Seq<char>
    decreases records.len(),
{
    if records.len() == 0 {
        seq![]
    } else {
        csv_records(records.drop_last()) + csv_record(records.last())
    }
}

/// The texts of a list of strings.
pub open spec fn string_texts(v: Seq<String>) -> Seq<Seq<char>> {
    v.map_values(|s: String| s@)
}

/// Writes one record with a fresh `csv::Writer` (default `WriterBuilder`)
/// into a byte vector and returns the bytes as a string.
///
/// Claimed of the `csv` crate: the bytes are those of `csv_record`
/// (csv-core's `Writer::field`, `delimiter` and `terminator` with the
/// default `QuoteStyle::Necessary`, quote `"`, doubled quotes and
/// terminator `\n`), and the result is always `Some`: a first record never
/// has an unequal length, writing into a `Vec<u8>` cannot fail, and the
/// output is the fields' UTF-8 with ASCII bytes added, so it is UTF-8.
#[verifier::external_body]
fn csv_encode_record(fields: &Vec<String>) -> (res: Option<String>)
    ensures
        res is Some,
        res.unwrap()@ == csv_record(string_texts(fields@)),
{
    let mut wtr = csv::WriterBuilder::new().from_writer(Vec::new());
    if wtr.write_record(fields).is_err() {
        return None;
    }
    match wtr.into_inner() {
        Ok(bytes) => String::from_utf8(bytes).ok(),
        Err(_) => None,
    }
}

/// The CSV text could not be produced.
#[derive(Debug, Clone, Copy, PartialEq, Eq, Structural)]
pub struct CsvWriteError;

/// Appends the CSV record of `fields` to `out`.
pub fn push_record(out: &mut String, fields: &Vec<String>) -> (r: Result<(), CsvWriteError>)
    ensures
        r is Ok,
        final(out)@ == old(out)@ + csv_record(string_texts(fields@)),
{
    match csv_encode_record(fields) {
        Some(line) => {
            out.append(line.as_str());
            Ok(())
        }
        None => Err(CsvWriteError),
    }
}

} // verus!
