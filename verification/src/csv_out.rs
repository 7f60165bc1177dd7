//! CSV encoding of records, through the `csv` crate.

use vstd::prelude::*;

verus! {

/// The bytes `csv::Writer` (default settings) writes for one record with
/// these fields, its line terminator included.
pub uninterp spec fn csv_record(fields: Seq<Seq<char>>) -> Seq<u8>;

/// The bytes of several records, one after the other.
pub open spec fn csv_records(rows: Seq<Seq<Seq<char>>>) -> Seq<u8>
    decreases rows.len(),
{
    if rows.len() == 0 {
        seq![]
    } else {
        csv_records(rows.drop_last()) + csv_record(rows.last())
    }
}

#[verifier::external_type_specification]
#[verifier::external_body]
pub struct ExCsvError(csv::Error);

/// `csv::Writer::write_record` on a fresh writer over a `Vec<u8>`, then
/// `into_inner`: the encoded record. The writer reports errors only from
/// the underlying `io::Write`, which for a `Vec<u8>` always succeeds, and
/// from records of unequal lengths, which needs a second record; so this
/// call succeeds.
#[verifier::external_body]
fn encode_csv_record(fields: &Vec<String>) -> (res: Result<Vec<u8>, csv::Error>)
    ensures
        res is Ok,
        res matches Ok(b) ==> b@ == csv_record(fields.deep_view()),
{
    let mut w = csv::Writer::from_writer(Vec::new());
    w.write_record(fields)?;
    match w.into_inner() {
        Ok(b) => Ok(b),
        Err(e) => Err(csv::Error::from(e.into_error())),
    }
}

/// The CSV encoding of `rows`, each row encoded on its own.
pub fn encode_csv(rows: &Vec<Vec<String>>) -> (res: Option<Vec<u8>>)
    ensures
        res matches Some(b) && b@ == csv_records(rows.deep_view()),
{
    let mut out: Vec<u8> = Vec::new();
    let mut i: usize = 0;
    while i < rows.len()
        invariant
            0 <= i <= rows@.len(),
            out@ == csv_records(rows.deep_view().subrange(0, i as int)),
        decreases rows@.len() - i,
    {
        match encode_csv_record(&rows[i]) {
            Ok(mut b) => {
                let ghost before = out@;
                out.append(&mut b);
                proof {
                    let d = rows.deep_view();
                    assert(d.subrange(0, i + 1).drop_last() =~= d.subrange(0, i as int));
                    assert(d.subrange(0, i + 1).last() == rows@[i as int].deep_view());
                }
            },
            Err(_) => {
                return None;
            },
        }
        i = i + 1;
    }
    assert(rows.deep_view().subrange(0, rows@.len() as int) =~= rows.deep_view());
    Some(out)
}

} // verus!
