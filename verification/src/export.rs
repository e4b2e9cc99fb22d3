//! Writing a table out as delimited text.

use crate::error::DictionaryError;
use crate::ordered::OrderedMap;
use crate::rank::{ranked, ranked_entries};
use crate::record::{Counted, Entries};
use crate::text::texts;
use std::string::FromUtf8Error;
use vstd::prelude::*;
use vstd::utf8::{decode_utf8, valid_utf8};

verus! {

/// The failure of `csv`.
#[verifier::external_type_specification]
#[verifier::external_body]
pub struct ExCsvError(csv::Error);

/// A writer of `csv` that writes into memory.
#[verifier::external_body]
pub struct RowWriter {
    inner: csv::Writer<Vec<u8>>,
}

/// The failure of `String::from_utf8`.
#[verifier::external_type_specification]
#[verifier::external_body]
pub struct ExFromUtf8Error(FromUtf8Error);

/// A table in specifications: rows of fields.
pub type Table = Seq<Seq<Seq<char>>>;

/// The views of the rows.
pub open spec fn table_of(rows: Seq<Vec<String>>) -> Table {
    rows.map_values(|row: Vec<String>| texts(row@))
}

/// The rows that a writer has taken so far.
pub uninterp spec fn rows_taken(writer: RowWriter) -> Table;

/// The bytes that `csv` writes for a table: its rows one after the other,
/// the fields of a row divided by commas and quoted where they must be.
pub uninterp spec fn csv_bytes(table: Table) -> Seq<u8>;

/// `row` has not as many fields as the first of the rows `taken`.
pub open spec fn uneven(taken: Table, row: Seq<Seq<char>>) -> bool {
    taken.len() > 0 && row.len() != taken[0].len()
}

/// Some row of the table has not as many fields as the first.
pub open spec fn ragged(table: Table) -> bool {
    exists|i: int| 0 <= i < table.len() && (#[trigger] table[i]).len() != table[0].len()
}

/// `csv::Writer::from_writer` over an empty byte vector: a writer that has
/// taken no row.
#[verifier::external_body]
fn new_writer() -> (writer: RowWriter)
    ensures
        rows_taken(writer) == Seq::<Seq<Seq<char>>>::empty(),
{
    RowWriter { inner: csv::Writer::from_writer(Vec::new()) }
}

/// `csv::Writer::write_record` takes one more row or refuses it. A writer
/// made by `from_writer` is not flexible: it refuses a row that has not as
/// many fields as the first row it took. It does not refuse for any other
/// reason here, since what it writes goes into a byte vector, which takes
/// whatever is appended to it. A writer that has refused is given up.
#[verifier::external_body]
fn write_row(writer: RowWriter, row: &Vec<String>) -> (done: Result<RowWriter, csv::Error>)
    ensures
        done is Err <==> uneven(rows_taken(writer), texts(row@)),
        done matches Ok(next) ==> rows_taken(next) == rows_taken(writer).push(texts(row@)),
{
    let mut writer = writer;
    match writer.inner.write_record(row) {
        Ok(_) => Ok(writer),
        Err(failure) => Err(failure),
    }
}

/// `csv::Writer::into_inner` flushes the writer and hands out the bytes
/// written for the rows it has taken. Which bytes is a matter of those rows
/// and has its name. The flush goes into a byte vector and does not fail.
#[verifier::external_body]
fn into_bytes(writer: RowWriter) -> (done: Result<Vec<u8>, csv::Error>)
    ensures
        done is Ok,
        done matches Ok(bytes) ==> bytes@ == csv_bytes(rows_taken(writer)),
{
    writer.inner.into_inner().map_err(|failure| csv::Error::from(failure.into_error()))
}

/// `csv::Error` in words.
#[verifier::external_body]
fn csv_error_text(failure: &csv::Error) -> (text: String) {
    failure.to_string()
}

/// `String::from_utf8` turns bytes into the text they encode, and fails
/// where they are no UTF-8.
#[verifier::external_body]
fn text_from_utf8(bytes: Vec<u8>) -> (done: Result<String, FromUtf8Error>)
    ensures
        done is Ok <==> valid_utf8(bytes@),
        done matches Ok(text) ==> text@ == decode_utf8(bytes@),
{
    String::from_utf8(bytes)
}

/// `FromUtf8Error` in words.
#[verifier::external_body]
fn utf8_error_text(failure: &FromUtf8Error) -> (text: String) {
    failure.to_string()
}

/// What an export comes to, given what the writer handed back: the text that
/// the bytes encode; a failure to serialize, with the writer's cause, where
/// the writer failed; a failure of UTF-8 where the bytes are no text.
pub fn read_written(written: Result<Vec<u8>, String>) -> (out: Result<String, DictionaryError>)
    ensures
        match written {
            Ok(bytes) => if valid_utf8(bytes@) {
                out matches Ok(text) && text@ == decode_utf8(bytes@)
            } else {
                out matches Err(DictionaryError::Utf8(_))
            },
            Err(cause) => out matches Err(DictionaryError::Serialize(c)) && c@ == cause@,
        },
{
    match written {
        Ok(bytes) => match text_from_utf8(bytes) {
            Ok(text) => Ok(text),
            Err(failure) => Err(DictionaryError::Utf8(utf8_error_text(&failure))),
        },
        Err(cause) => Err(DictionaryError::Serialize(cause)),
    }
}

/// Hands the rows to a writer of `csv`, one after the other, and gives back
/// the bytes written for them. It fails, with the writer's cause, exactly
/// where the rows differ in their number of fields.
pub fn write_rows(rows: &Vec<Vec<String>>) -> (written: Result<Vec<u8>, String>)
    ensures
        match written {
            Ok(bytes) => !ragged(table_of(rows@)) && bytes@ == csv_bytes(table_of(rows@)),
            Err(_) => ragged(table_of(rows@)),
        },
{
    let ghost table = table_of(rows@);
    let mut writer = new_writer();
    let mut i: usize = 0;
    assert(table.subrange(0, 0) =~= Seq::<Seq<Seq<char>>>::empty());
    while i < rows.len()
        invariant
            i <= rows.len(),
            table == table_of(rows@),
            rows_taken(writer) == table.subrange(0, i as int),
            forall|j: int| 0 <= j < i ==> (#[trigger] table[j]).len() == table[0].len(),
        decreases rows.len() - i,
    {
        assert(table[i as int] == texts(rows@[i as int]@));
        if i > 0 {
            assert(table.subrange(0, i as int)[0] == table[0]);
        }
        let ghost taken = rows_taken(writer);
        writer = match write_row(writer, &rows[i]) {
            Ok(next) => next,
            Err(failure) => {
                assert(table[i as int].len() != table[0].len());
                return Err(csv_error_text(&failure));
            },
        };
        assert(rows_taken(writer) =~= table.subrange(0, i + 1)) by {
            assert(taken.push(table[i as int]) =~= table.subrange(0, i + 1));
        }
        i += 1;
    }
    assert(table.subrange(0, rows@.len() as int) =~= table);
    match into_bytes(writer) {
        Ok(bytes) => Ok(bytes),
        Err(failure) => Err(csv_error_text(&failure)),
    }
}

/// What an export of a table comes to: a failure to serialize where its rows
/// differ in their number of fields; else the text that `csv` writes for
/// it, or a failure of UTF-8 where the bytes written are no text.
pub open spec fn is_export_of(out: Result<String, DictionaryError>, table: Table) -> bool {
    if ragged(table) {
        out matches Err(DictionaryError::Serialize(_))
    } else if valid_utf8(csv_bytes(table)) {
        out matches Ok(text) && text@ == decode_utf8(csv_bytes(table))
    } else {
        out matches Err(DictionaryError::Utf8(_))
    }
}

/// Writes the rows out as delimited text: the text that `csv` writes for the
/// rows, or the failure that kept it from being written.
pub fn export_to_csv(rows: &Vec<Vec<String>>) -> (out: Result<String, DictionaryError>)
    ensures
        is_export_of(out, table_of(rows@)),
{
    read_written(write_rows(rows))
}

/// What can be written out as a table.
pub trait Export {
    /// Whether the value is fit to be written out.
    spec fn exportable(&self) -> bool;

    /// The table: a row of column names, then one row for each item.
    spec fn table(&self) -> Table;

    /// Builds the table.
    fn rows(&self) -> (rows: Vec<Vec<String>>)
        requires
            self.exportable(),
        ensures
            table_of(rows@) == self.table(),
    ;

    /// The table as delimited text: one line for the column names, then one
    /// for each item; or the failure that kept it from being written.
    fn to_csv(&self) -> (out: Result<String, DictionaryError>)
        requires
            self.exportable(),
        ensures
            is_export_of(out, self.table()),
    {
        let rows = self.rows();
        export_to_csv(&rows)
    }
}

/// A record that fills one row of a table.
pub trait Tabular: Counted {
    /// The names of the columns.
    spec fn columns() -> Seq<Seq<char>>;

    /// The fields of the row of a record.
    spec fn fields(view: Self::V) -> Seq<Seq<char>>;

    /// A row has as many fields as there are columns.
    proof fn lemma_width(view: Self::V)
        ensures
            Self::fields(view).len() == Self::columns().len(),
    ;

    /// The row of column names.
    fn header() -> (row: Vec<String>)
        ensures
            texts(row@) == Self::columns(),
    ;

    /// The row of the record.
    fn row(&self) -> (row: Vec<String>)
        ensures
            texts(row@) == Self::fields(self@),
    ;
}

/// The table of a map of records: nothing for an empty map, else the row of
/// column names and then the row of each record, the most frequent first.
pub open spec fn table_of_entries<V: Tabular>(entries: Entries<V>) -> Table {
    if entries.len() == 0 {
        Seq::empty()
    } else {
        seq![V::columns()] + ranked_entries::<V>(entries).map_values(
            |e: (Seq<char>, V::V)| V::fields(e.1),
        )
    }
}

/// All rows of the table of a map have as many fields as its first, so that
/// the table never fails to serialize.
pub proof fn lemma_table_is_even<V: Tabular>(entries: Entries<V>)
    ensures
        !ragged(table_of_entries::<V>(entries)),
{
    let table = table_of_entries::<V>(entries);
    assert forall|i: int| 0 <= i < table.len() implies (#[trigger] table[i]).len()
        == V::columns().len() by {
        if i > 0 {
            let ranked = ranked_entries::<V>(entries);
            assert(table[i] == V::fields(ranked[i - 1].1));
            V::lemma_width(ranked[i - 1].1);
        }
    }
    if table.len() > 0 {
        assert(table[0].len() == V::columns().len());
    }
}

impl<V: Tabular> Export for OrderedMap<V> {
    open spec fn exportable(&self) -> bool {
        self.wf()
    }

    open spec fn table(&self) -> Table {
        table_of_entries::<V>(self@)
    }

    fn rows(&self) -> (rows: Vec<Vec<String>>) {
        let mut rows: Vec<Vec<String>> = Vec::new();
        if self.len() == 0 {
            assert(table_of(rows@) =~= self.table());
            return rows;
        }
        let sorted = ranked(self);
        let ghost wanted = self.table();
        rows.push(V::header());
        assert(table_of(rows@) =~= wanted.subrange(0, 1));
        let mut i: usize = 0;
        while i < sorted.len()
            invariant
                i <= sorted@.len(),
                sorted@ == ranked_entries::<V>(self@),
                self@.len() > 0,
                wanted == self.table(),
                rows@.len() == i + 1,
                table_of(rows@) == wanted.subrange(0, i + 1),
            decreases sorted@.len() - i,
        {
            let ghost before = rows@;
            rows.push(sorted.value_at(i).row());
            proof {
                let target = wanted.subrange(0, i + 2);
                assert(table_of(rows@).len() == target.len());
                assert forall|j: int| 0 <= j < target.len() implies table_of(rows@)[j]
                    == target[j] by {
                    if j <= i {
                        assert(rows@[j] == before[j]);
                        assert(table_of(before)[j] == wanted.subrange(0, i + 1)[j]);
                    }
                }
                assert(table_of(rows@) =~= target);
            }
            i += 1;
        }
        assert(wanted.subrange(0, sorted@.len() as int + 1) =~= wanted);
        rows
    }
}

} // verus!
