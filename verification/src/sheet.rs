//! Reading spreadsheet containers: the first sheet of the older binary
//! format and of the newer zipped-XML format, every cell rendered as
//! its display text.

use vstd::prelude::*;

use calamine::Reader;

verus! {

/// The first sheet's rows of a zipped-XML spreadsheet, every cell as
/// display text; `None` when the container cannot be opened.
pub uninterp spec fn xlsx_rows_of(b: Seq<u8>) -> Option<Seq<Seq<Seq<char>>>>;

/// The first sheet's rows of a binary spreadsheet, every cell as
/// display text; `None` when the container cannot be opened.
pub uninterp spec fn xls_rows_of(b: Seq<u8>) -> Option<Seq<Seq<Seq<char>>>>;

/// Relies on calamine's `Xlsx` reader (`open_workbook_from_rs`,
/// `sheet_names`, `worksheet_range`) and `Data`'s display text: the
/// parse is a function of the bytes alone; `None` when the container
/// cannot be opened, and a workbook without a readable first sheet
/// yields no rows.
#[verifier::external_body]
pub(crate) fn read_xlsx(bytes: &Vec<u8>) -> (r: Option<Vec<Vec<String>>>)
    ensures
        (r is Some) == (xlsx_rows_of(bytes@) is Some),
        r matches Option::Some(rows) ==> xlsx_rows_of(bytes@) == Option::Some(rows.deep_view()),
{
    let cursor = std::io::Cursor::new(bytes.as_slice());
    let mut wb: calamine::Xlsx<_> = match calamine::open_workbook_from_rs(cursor) {
        Ok(wb) => wb,
        Err(_) => return None,
    };
    let Some(name) = wb.sheet_names().first().cloned() else {
        return Some(Vec::new());
    };
    let Ok(range) = wb.worksheet_range(&name) else {
        return Some(Vec::new());
    };
    Some(range.rows().map(|r| r.iter().map(|c| c.to_string()).collect()).collect())
}

/// Relies on calamine's `Xls` reader (`open_workbook_from_rs`,
/// `sheet_names`, `worksheet_range`) and `Data`'s display text: the
/// parse is a function of the bytes alone; `None` when the container
/// cannot be opened, and a workbook without a readable first sheet
/// yields no rows.
#[verifier::external_body]
pub(crate) fn read_xls(bytes: &Vec<u8>) -> (r: Option<Vec<Vec<String>>>)
    ensures
        (r is Some) == (xls_rows_of(bytes@) is Some),
        r matches Option::Some(rows) ==> xls_rows_of(bytes@) == Option::Some(rows.deep_view()),
{
    let cursor = std::io::Cursor::new(bytes.as_slice());
    let mut wb: calamine::Xls<_> = match calamine::open_workbook_from_rs(cursor) {
        Ok(wb) => wb,
        Err(_) => return None,
    };
    let Some(name) = wb.sheet_names().first().cloned() else {
        return Some(Vec::new());
    };
    let Ok(range) = wb.worksheet_range(&name) else {
        return Some(Vec::new());
    };
    Some(range.rows().map(|r| r.iter().map(|c| c.to_string()).collect()).collect())
}

} // verus!
