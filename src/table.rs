use vstd::prelude::*;

use crate::assemble::{assemble, assemble_doc, pairs, table, texts};
use crate::node::Node;
use crate::path::{BuildError, Fault};

verus! {

/// The header and the rows that CSV text holds, read with rows of any width;
/// `None` where the text does not read.
pub uninterp spec fn csv_table(data: Seq<u8>) -> Option<(Seq<Seq<char>>, Seq<Seq<Seq<char>>>)>;

/// Relies on `csv::ReaderBuilder` with `flexible(true)` and its `Reader`'s
/// `headers` and `records`: the header fields and each row's fields, or the
/// reader's error message.
#[verifier::external_body]
fn read_csv(data: &[u8]) -> (r: Result<(Vec<String>, Vec<Vec<String>>), String>)
    ensures
        match csv_table(data@) {
            Some(t) => r is Ok && (texts(r->Ok_0.0@), table(r->Ok_0.1@)) == t,
            None => r is Err,
        },
{
    let mut rdr = csv::ReaderBuilder::new().flexible(true).from_reader(data);
    let headers = rdr.headers().map_err(|e| e.to_string())?.iter().map(|h| h.to_string()).collect();
    let mut rows = Vec::new();
    for record in rdr.records() {
        rows.push(record.map_err(|e| e.to_string())?.iter().map(|f| f.to_string()).collect());
    }
    Ok((headers, rows))
}

/// Reads CSV text and folds all of its rows into one document through the
/// mapping. Text that does not read gives a source-format error; text that
/// does is assembled exactly as [`assemble`] does.
pub fn csv_to_doc(data: &[u8], mapping: &Vec<(String, String)>) -> (r: Result<Node, BuildError>)
    ensures
        match csv_table(data@) {
            None => r is Err && r->Err_0@ == Fault::SourceFormat,
            Some(t) => match assemble_doc(t.0, t.1, pairs(mapping@)) {
                Ok(d) => r is Ok && r->Ok_0@ == d,
                Err(f) => r is Err && r->Err_0@ == f,
            },
        },
{
    match read_csv(data) {
        Ok((headers, rows)) => assemble(&headers, &rows, mapping),
        Err(msg) => Err(BuildError::SourceFormat(msg)),
    }
}

} // verus!
