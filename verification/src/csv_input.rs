//! Reading one file's bytes into an aggregate.
//!
//! The raw bytes of one input file are split into rows by the `csv`
//! crate, the header row discarded, and the data rows aggregated. The
//! split itself is trusted: its outcome is named `csv_rows_of`, a
//! function of the bytes alone, and everything after the split is
//! verified against that name.

use crate::aggregate::{
    aggregate_rows, k_kills, kw_count, rk_kills, rkw_count, rows_ok, rw_dist, rw_kills, w_dist,
    w_kills, wf_aggregate, Aggregate,
};
use crate::PipelineError;
use vstd::prelude::*;

verus! {

/// What the `csv` reader yields on an in-memory buffer: the data rows
/// with their cells, the header row already discarded; nothing when the
/// buffer is not well-formed CSV. The outcome depends on the bytes alone.
pub uninterp spec fn csv_rows_of(bytes: Seq<u8>) -> Option<Seq<Seq<Seq<char>>>>;

/// Relies on csv::ReaderBuilder and csv::Reader::records: reading from an
/// in-memory buffer skips the first row as the header, splits every
/// further record into its text fields, and fails on a record with a
/// different field count or invalid text. On a plain byte buffer no read
/// can fail, so the outcome is a function of the bytes alone.
#[verifier::external_body]
fn split_csv(bytes: &Vec<u8>) -> (r: Result<Vec<Vec<String>>, PipelineError>)
    ensures
        match r {
            Ok(rows) => csv_rows_of(bytes@) == Some(rows.deep_view()),
            Err(e) => csv_rows_of(bytes@) is None && e == PipelineError::Parse,
        },
{
    let mut rdr = csv::ReaderBuilder::new().from_reader(bytes.as_slice());
    let mut rows: Vec<Vec<String>> = Vec::new();
    for record in rdr.records() {
        match record {
            Ok(record) => rows.push(record.iter().map(|field| field.to_string()).collect()),
            Err(_) => return Err(PipelineError::Parse),
        }
    }
    Ok(rows)
}

/// Aggregates one file given as raw bytes: the CSV split must succeed and
/// every data row must hold its required fields; the aggregate then holds
/// exactly the rows' sums. Any malformed input is the parse error.
pub fn aggregate_file(bytes: &Vec<u8>) -> (r: Result<Aggregate, PipelineError>)
    ensures
        r is Ok <==> (csv_rows_of(bytes@) matches Some(rows) && rows_ok(rows)),
        r matches Ok(a) ==> {
            let rows = csv_rows_of(bytes@).unwrap();
            &&& wf_aggregate(a)
            &&& a.record_count == rows.len()
            &&& forall|n: Seq<char>| #[trigger] w_kills(a.weapons@, n) == rw_kills(rows, n)
            &&& forall|n: Seq<char>| #[trigger] w_dist(a.weapons@, n) == rw_dist(rows, n)
            &&& forall|n: Seq<char>| #[trigger] k_kills(a.killers@, n) == rk_kills(rows, n)
            &&& forall|kn: Seq<char>, wn: Seq<char>|
                #[trigger] kw_count(a.killers@, kn, wn) == rkw_count(rows, kn, wn)
        },
        r matches Err(e) ==> e == PipelineError::Parse,
{
    let rows = match split_csv(bytes) {
        Ok(rows) => rows,
        Err(e) => {
            return Err(e);
        },
    };
    aggregate_rows(&rows)
}

} // verus!
