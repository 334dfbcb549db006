//! Selecting the boxes of a class from an annotation CSV, and planning a
//! download job.

use vstd::prelude::*;
use crate::models::{BBoxRow, BBoxRowView, ImageFilters, rows_view};
use crate::numbers::{float_text_ok, i8_value, is_float_text, parse_i8};
use crate::order::{Lex, text_order};
use crate::text::{strings_view, trim, trimmed};

verus! {

/// A CSV table as read: the header record (or the message of the error
/// that reading it gave), the data records in order up to the first one
/// that could not be read, and the message of that error.
pub struct CsvTable {
    pub headers: Result<Vec<String>, String>,
    pub records: Vec<Vec<String>>,
    pub error: Option<String>,
}

/// A `CsvTable` as plain values.
pub type CsvTableView = (Result<Seq<Seq<char>>, Seq<char>>, Seq<Seq<Seq<char>>>, Option<Seq<char>>);

impl View for CsvTable {
    type V = CsvTableView;

    open spec fn view(&self) -> CsvTableView {
        (
            match self.headers {
                Ok(h) => Ok(strings_view(h@)),
                Err(e) => Err(e@),
            },
            self.records@.map_values(|r: Vec<String>| strings_view(r@)),
            match self.error {
                Some(e) => Some(e@),
                None => None,
            },
        )
    }
}

/// What the `csv` crate reads from `data` with a header row and records of
/// varying length (`ReaderBuilder::has_headers(true).flexible(true)`): the
/// header record, the records up to the first one it fails on, and the
/// message (`Display`) of that failure.
pub uninterp spec fn csv_table(data: Seq<u8>) -> CsvTableView;

/// Reads a whole CSV table with the `csv` crate: a header row, records of
/// varying length. The result is named by `csv_table`; the CSV grammar and
/// the error messages are the crate's and are not stated here.
#[verifier::external_body]
pub(crate) fn read_csv_table(data: &[u8]) -> (r: CsvTable)
    ensures
        r@ == csv_table(data@),
{
    let mut rdr = csv::ReaderBuilder::new().has_headers(true).flexible(true).from_reader(data);
    let headers: Vec<String> = match rdr.headers() {
        Ok(h) => h.iter().map(String::from).collect(),
        Err(e) => return CsvTable { headers: Err(e.to_string()), records: Vec::new(), error: None },
    };
    let mut records: Vec<Vec<String>> = Vec::new();
    for rec in rdr.records() {
        match rec {
            Ok(r) => records.push(r.iter().map(String::from).collect()),
            Err(e) => return CsvTable { headers: Ok(headers), records, error: Some(e.to_string()) },
        }
    }
    CsvTable { headers: Ok(headers), records, error: None }
}

/// The positions of the columns that boxes are read from.
#[derive(Clone, Copy, Debug, PartialEq, Eq, Structural)]
pub struct Columns {
    pub image_id: usize,
    pub label_name: usize,
    pub x_min: usize,
    pub x_max: usize,
    pub y_min: usize,
    pub y_max: usize,
    pub is_occluded: Option<usize>,
    pub is_truncated: Option<usize>,
    pub is_group_of: Option<usize>,
    pub is_depiction: Option<usize>,
    pub is_inside: Option<usize>,
}

/// `k` is the first column named `name`.
pub open spec fn is_first_column(headers: Seq<Seq<char>>, name: Seq<char>, k: int) -> bool {
    &&& 0 <= k < headers.len()
    &&& headers[k] == name
    &&& forall|i: int| 0 <= i < k ==> headers[i] != name
}

/// The first column named `name`, if there is one.
pub open spec fn column_of(headers: Seq<Seq<char>>, name: Seq<char>) -> Option<usize> {
    if exists|k: int| is_first_column(headers, name, k) {
        Some((choose|k: int| is_first_column(headers, name, k)) as usize)
    } else {
        None
    }
}

/// The columns of a header record: the six required ones (an error naming
/// the first one that is missing, in the order ImageID, LabelName, XMin,
/// XMax, YMin, YMax) and the five optional flag columns.
pub open spec fn columns_of(h: Seq<Seq<char>>) -> Result<Columns, Seq<char>> {
    if column_of(h, "ImageID"@) is None {
        Err("Missing ImageID column"@)
    } else if column_of(h, "LabelName"@) is None {
        Err("Missing LabelName column"@)
    } else if column_of(h, "XMin"@) is None {
        Err("Missing XMin column"@)
    } else if column_of(h, "XMax"@) is None {
        Err("Missing XMax column"@)
    } else if column_of(h, "YMin"@) is None {
        Err("Missing YMin column"@)
    } else if column_of(h, "YMax"@) is None {
        Err("Missing YMax column"@)
    } else {
        Ok(
            Columns {
                image_id: column_of(h, "ImageID"@)->0,
                label_name: column_of(h, "LabelName"@)->0,
                x_min: column_of(h, "XMin"@)->0,
                x_max: column_of(h, "XMax"@)->0,
                y_min: column_of(h, "YMin"@)->0,
                y_max: column_of(h, "YMax"@)->0,
                is_occluded: column_of(h, "IsOccluded"@),
                is_truncated: column_of(h, "IsTruncated"@),
                is_group_of: column_of(h, "IsGroupOf"@),
                is_depiction: column_of(h, "IsDepiction"@),
                is_inside: column_of(h, "IsInside"@),
            },
        )
    }
}

/// The first column of `headers` named `name`.
fn find_column(headers: &Vec<String>, name: &str) -> (r: Option<usize>)
    ensures
        r == column_of(strings_view(headers@), name@),
{
    let ghost h = strings_view(headers@);
    let mut i: usize = 0;
    while i < headers.len()
        invariant
            h == strings_view(headers@),
            i <= headers@.len(),
            forall|j: int| 0 <= j < i ==> h[j] != name@,
        decreases headers@.len() - i,
    {
        assert(h[i as int] == headers@[i as int]@);
        if text_order(headers[i].as_str(), name) == Lex::Same {
            assert(is_first_column(h, name@, i as int));
            proof {
                let k = choose|k: int| is_first_column(h, name@, k);
                if k < i {
                    assert(h[k] != name@);
                } else if i < k {
                    assert(h[i as int] != name@);
                }
            }
            return Some(i);
        }
        i += 1;
    }
    proof {
        if exists|k: int| is_first_column(h, name@, k) {
            let k = choose|k: int| is_first_column(h, name@, k);
            assert(h[k] != name@);
        }
    }
    None
}

/// The columns of a header record, or the error for the first missing one.
pub fn find_columns(headers: &Vec<String>) -> (r: Result<Columns, String>)
    ensures
        match r {
            Ok(c) => columns_of(strings_view(headers@)) == Ok::<Columns, Seq<char>>(c),
            Err(e) => columns_of(strings_view(headers@)) == Err::<Columns, Seq<char>>(e@),
        },
        r matches Ok(c) ==> {
            let h = strings_view(headers@);
            &&& is_first_column(h, "ImageID"@, c.image_id as int)
            &&& is_first_column(h, "LabelName"@, c.label_name as int)
            &&& is_first_column(h, "XMin"@, c.x_min as int)
            &&& is_first_column(h, "XMax"@, c.x_max as int)
            &&& is_first_column(h, "YMin"@, c.y_min as int)
            &&& is_first_column(h, "YMax"@, c.y_max as int)
            &&& is_flag_column(h, "IsOccluded"@, c.is_occluded)
            &&& is_flag_column(h, "IsTruncated"@, c.is_truncated)
            &&& is_flag_column(h, "IsGroupOf"@, c.is_group_of)
            &&& is_flag_column(h, "IsDepiction"@, c.is_depiction)
            &&& is_flag_column(h, "IsInside"@, c.is_inside)
        },
{
    let count = headers.len();
    proof {
        assert(strings_view(headers@).len() == count);
        lemma_columns_by_name(strings_view(headers@));
    }
    let image_id = match find_column(headers, "ImageID") {
        Some(c) => c,
        None => return Err(String::from_str("Missing ImageID column")),
    };
    let label_name = match find_column(headers, "LabelName") {
        Some(c) => c,
        None => return Err(String::from_str("Missing LabelName column")),
    };
    let x_min = match find_column(headers, "XMin") {
        Some(c) => c,
        None => return Err(String::from_str("Missing XMin column")),
    };
    let x_max = match find_column(headers, "XMax") {
        Some(c) => c,
        None => return Err(String::from_str("Missing XMax column")),
    };
    let y_min = match find_column(headers, "YMin") {
        Some(c) => c,
        None => return Err(String::from_str("Missing YMin column")),
    };
    let y_max = match find_column(headers, "YMax") {
        Some(c) => c,
        None => return Err(String::from_str("Missing YMax column")),
    };
    Ok(
        Columns {
            image_id,
            label_name,
            x_min,
            x_max,
            y_min,
            y_max,
            is_occluded: find_column(headers, "IsOccluded"),
            is_truncated: find_column(headers, "IsTruncated"),
            is_group_of: find_column(headers, "IsGroupOf"),
            is_depiction: find_column(headers, "IsDepiction"),
            is_inside: find_column(headers, "IsInside"),
        },
    )
}

/// The text of field `i` of a record; empty where the record is shorter.
pub open spec fn field_text(rec: Seq<Seq<char>>, i: usize) -> Seq<char> {
    if i < rec.len() {
        rec[i as int]
    } else {
        Seq::<char>::empty()
    }
}

/// The value of a flag column of a record: its field read as an `i8` (not
/// trimmed); none where the column or the field is missing or not a number.
pub open spec fn flag_value(rec: Seq<Seq<char>>, col: Option<usize>) -> Option<i8> {
    match col {
        Some(i) => if i < rec.len() {
            match i8_value(rec[i as int]) {
                Some(v) => Some(v as i8),
                None => None,
            }
        } else {
            None
        },
        None => None,
    }
}

/// A flag passes a filter: no requirement, or the flag is `1` where `true`
/// is asked and `0` where `false` is.
pub open spec fn flag_passes(want: Option<bool>, got: Option<i8>) -> bool {
    match want {
        Some(w) => got == Some(if w { 1i8 } else { 0i8 }),
        None => true,
    }
}

/// The box a record holds for the class `code`: none where its label (trimmed)
/// is another class, where a flag fails its filter, or where a coordinate
/// (trimmed) is not a float text; else the trimmed image id, the label,
/// the trimmed coordinate texts and the flags.
pub open spec fn row_of_record(
    cols: Columns,
    rec: Seq<Seq<char>>,
    code: Seq<char>,
    f: ImageFilters,
) -> Option<BBoxRowView> {
    let occluded = flag_value(rec, cols.is_occluded);
    let truncated = flag_value(rec, cols.is_truncated);
    let group_of = flag_value(rec, cols.is_group_of);
    let depiction = flag_value(rec, cols.is_depiction);
    let inside = flag_value(rec, cols.is_inside);
    let x_min = trim(field_text(rec, cols.x_min));
    let x_max = trim(field_text(rec, cols.x_max));
    let y_min = trim(field_text(rec, cols.y_min));
    let y_max = trim(field_text(rec, cols.y_max));
    if trim(field_text(rec, cols.label_name)) != code {
        None
    } else if !(flag_passes(f.is_occluded, occluded) && flag_passes(f.is_truncated, truncated)
        && flag_passes(f.is_group_of, group_of) && flag_passes(f.is_depiction, depiction)
        && flag_passes(f.is_inside, inside)) {
        None
    } else if !(float_text_ok(x_min) && float_text_ok(x_max) && float_text_ok(y_min)
        && float_text_ok(y_max)) {
        None
    } else {
        Some(
            BBoxRowView {
                image_id: trim(field_text(rec, cols.image_id)),
                label_name: code,
                x_min,
                x_max,
                y_min,
                y_max,
                is_occluded: occluded,
                is_truncated: truncated,
                is_group_of: group_of,
                is_depiction: depiction,
                is_inside: inside,
            },
        )
    }
}

/// The boxes of class `code` in an annotation table that pass the filters,
/// in record order; the error of reading the header, of a missing column or
/// of reading a record.
pub open spec fn rows_of_table(t: CsvTableView, code: Seq<char>, f: ImageFilters) -> Result<
    Seq<BBoxRowView>,
    Seq<char>,
> {
    match t.0 {
        Err(e) => Err(e),
        Ok(h) => match columns_of(h) {
            Err(e) => Err(e),
            Ok(cols) => match t.2 {
                Some(e) => Err(e),
                None => Ok(t.1.filter_map(|rec: Seq<Seq<char>>| row_of_record(cols, rec, code, f))),
            },
        },
    }
}

fn field_of(rec: &Vec<String>, i: usize) -> (r: &str)
    ensures
        r@ == field_text(strings_view(rec@), i),
{
    proof {
        reveal_strlit("");
    }
    if i < rec.len() {
        rec[i].as_str()
    } else {
        ""
    }
}

fn flag_of(rec: &Vec<String>, col: Option<usize>) -> (r: Option<i8>)
    ensures
        r == flag_value(strings_view(rec@), col),
{
    match col {
        Some(i) => if i < rec.len() {
            parse_i8(rec[i].as_str())
        } else {
            None
        },
        None => None,
    }
}

fn passes(want: Option<bool>, got: Option<i8>) -> (r: bool)
    ensures
        r == flag_passes(want, got),
{
    match want {
        Some(w) => {
            let expected: i8 = if w { 1 } else { 0 };
            match got {
                Some(g) => g == expected,
                None => false,
            }
        },
        None => true,
    }
}

/// The box a record holds for class `code`, if it is one that passes.
pub fn row_from_record(cols: &Columns, rec: &Vec<String>, code: &str, f: &ImageFilters) -> (r:
    Option<BBoxRow>)
    ensures
        match r {
            Some(row) => row_of_record(*cols, strings_view(rec@), code@, *f) == Some(row@),
            None => row_of_record(*cols, strings_view(rec@), code@, *f) is None,
        },
{
    let label = trimmed(field_of(rec, cols.label_name));
    if text_order(label.as_str(), code) != Lex::Same {
        return None;
    }
    let occluded = flag_of(rec, cols.is_occluded);
    let truncated = flag_of(rec, cols.is_truncated);
    let group_of = flag_of(rec, cols.is_group_of);
    let depiction = flag_of(rec, cols.is_depiction);
    let inside = flag_of(rec, cols.is_inside);
    if !(passes(f.is_occluded, occluded) && passes(f.is_truncated, truncated) && passes(
        f.is_group_of,
        group_of,
    ) && passes(f.is_depiction, depiction) && passes(f.is_inside, inside)) {
        return None;
    }
    let x_min = trimmed(field_of(rec, cols.x_min));
    let x_max = trimmed(field_of(rec, cols.x_max));
    let y_min = trimmed(field_of(rec, cols.y_min));
    let y_max = trimmed(field_of(rec, cols.y_max));
    if !(is_float_text(x_min.as_str()) && is_float_text(x_max.as_str()) && is_float_text(
        y_min.as_str(),
    ) && is_float_text(y_max.as_str())) {
        return None;
    }
    let image_id = trimmed(field_of(rec, cols.image_id));
    Some(
        BBoxRow {
            image_id,
            label_name: String::from_str(code),
            x_min,
            x_max,
            y_min,
            y_max,
            is_occluded: occluded,
            is_truncated: truncated,
            is_group_of: group_of,
            is_depiction: depiction,
            is_inside: inside,
        },
    )
}

/// The boxes of class `code` in a table read from an annotation CSV that
/// pass the filters, in record order; the error of the header, of the first
/// missing column, or of a record that could not be read.
pub fn select_bbox_rows(table: &CsvTable, code: &str, f: &ImageFilters) -> (r: Result<
    Vec<BBoxRow>,
    String,
>)
    ensures
        match r {
            Ok(rows) => rows_of_table(table@, code@, *f) == Ok::<Seq<BBoxRowView>, Seq<char>>(
                rows_view(rows@),
            ),
            Err(e) => rows_of_table(table@, code@, *f) == Err::<Seq<BBoxRowView>, Seq<char>>(e@),
        },
{
    let headers = match &table.headers {
        Ok(h) => h,
        Err(e) => return Err(e.clone()),
    };
    let cols = match find_columns(headers) {
        Ok(c) => c,
        Err(e) => return Err(e),
    };
    if let Some(e) = &table.error {
        return Err(e.clone());
    }
    let ghost recs = table@.1;
    let mut out: Vec<BBoxRow> = Vec::new();
    let mut i: usize = 0;
    assert(recs.take(0) =~= Seq::<Seq<Seq<char>>>::empty());
    while i < table.records.len()
        invariant
            recs == table@.1,
            recs.len() == table.records@.len(),
            i <= table.records@.len(),
            rows_view(out@) == recs.take(i as int).filter_map(
                |rec: Seq<Seq<char>>| row_of_record(cols, rec, code@, *f),
            ),
        decreases table.records@.len() - i,
    {
        let ghost before = out@;
        proof {
            recs.lemma_filter_map_take_succ(
                |rec: Seq<Seq<char>>| row_of_record(cols, rec, code@, *f),
                i as int,
            );
            assert(recs[i as int] == strings_view(table.records@[i as int]@));
        }
        match row_from_record(&cols, &table.records[i], code, f) {
            Some(row) => {
                out.push(row);
                assert(rows_view(out@) =~= rows_view(before).push(row@));
            },
            None => {},
        }
        i += 1;
    }
    assert(recs.take(recs.len() as int) =~= recs);
    Ok(out)
}

/// The boxes of class `code` in annotation CSV data that pass the filters.
pub fn load_bbox_rows(csv_data: &[u8], code: &str, f: &ImageFilters) -> (r: Result<
    Vec<BBoxRow>,
    String,
>)
    ensures
        match r {
            Ok(rows) => rows_of_table(csv_table(csv_data@), code@, *f) == Ok::<
                Seq<BBoxRowView>,
                Seq<char>,
            >(rows_view(rows@)),
            Err(e) => rows_of_table(csv_table(csv_data@), code@, *f) == Err::<
                Seq<BBoxRowView>,
                Seq<char>,
            >(e@),
        },
{
    let table = read_csv_table(csv_data);
    select_bbox_rows(&table, code, f)
}

/// A box a row keeps for class `code` under filters `f`: it carries the
/// code, each flag meets its filter, and its four coordinates are valid
/// float texts.
pub open spec fn row_fits(r: BBoxRowView, code: Seq<char>, f: ImageFilters) -> bool {
    &&& r.label_name == code
    &&& flag_passes(f.is_occluded, r.is_occluded)
    &&& flag_passes(f.is_truncated, r.is_truncated)
    &&& flag_passes(f.is_group_of, r.is_group_of)
    &&& flag_passes(f.is_depiction, r.is_depiction)
    &&& flag_passes(f.is_inside, r.is_inside)
    &&& float_text_ok(r.x_min)
    &&& float_text_ok(r.x_max)
    &&& float_text_ok(r.y_min)
    &&& float_text_ok(r.y_max)
}

/// Every box selected from an annotation table for class `code` carries that
/// code, meets every filter, and has valid coordinates.
pub proof fn lemma_selected_rows_fit(t: CsvTableView, code: Seq<char>, f: ImageFilters)
    ensures
        rows_of_table(t, code, f) matches Ok(rows) ==> forall|i: int|
            0 <= i < rows.len() ==> row_fits(#[trigger] rows[i], code, f),
{
    if let Ok(rows) = rows_of_table(t, code, f) {
        let h = t.0->Ok_0;
        let cols = columns_of(h)->Ok_0;
        let g = |rec: Seq<Seq<char>>| row_of_record(cols, rec, code, f);
        assert(rows == t.1.filter_map(g));
        assert forall|i: int| 0 <= i < rows.len() implies row_fits(#[trigger] rows[i], code, f) by {
            assert(rows.contains(rows[i]));
            t.1.lemma_filter_map_contains(g, rows[i]);
            let rec = choose|rec: Seq<Seq<char>>| #[trigger] t.1.contains(rec) && g(rec) == Some(rows[i]);
            assert(row_of_record(cols, rec, code, f) == Some(rows[i]));
        }
    }
}

/// Where column `col` of a header holds the flag `name`: at the first column
/// carrying that name, or nowhere where no column carries it.
pub open spec fn is_flag_column(h: Seq<Seq<char>>, name: Seq<char>, col: Option<usize>) -> bool {
    match col {
        Some(k) => is_first_column(h, name, k as int),
        None => forall|k: int| 0 <= k < h.len() ==> h[k] != name,
    }
}

proof fn lemma_first_column_exists(h: Seq<Seq<char>>, name: Seq<char>, k: int)
    requires
        0 <= k < h.len(),
        h[k] == name,
    ensures
        exists|j: int| is_first_column(h, name, j),
    decreases k,
{
    if exists|i: int| 0 <= i < k && h[i] == name {
        let i = choose|i: int| 0 <= i < k && h[i] == name;
        lemma_first_column_exists(h, name, i);
    } else {
        assert(is_first_column(h, name, k));
    }
}

proof fn lemma_column_of_named(h: Seq<Seq<char>>, name: Seq<char>)
    requires
        h.len() <= usize::MAX,
    ensures
        is_flag_column(h, name, column_of(h, name)),
{
    if exists|j: int| is_first_column(h, name, j) {
        let j = choose|j: int| is_first_column(h, name, j);
        assert(column_of(h, name) == Some(j as usize));
    } else {
        assert forall|k: int| 0 <= k < h.len() implies h[k] != name by {
            if h[k] == name {
                lemma_first_column_exists(h, name, k);
            }
        }
    }
}

/// The columns of a header are found by name: each required column is the
/// first column carrying its own name, and each flag column is the first
/// column carrying that flag's own name, or none where no column does.
pub proof fn lemma_columns_by_name(h: Seq<Seq<char>>)
    requires
        h.len() <= usize::MAX,
    ensures
        columns_of(h) matches Ok(c) ==> {
            &&& is_first_column(h, "ImageID"@, c.image_id as int)
            &&& is_first_column(h, "LabelName"@, c.label_name as int)
            &&& is_first_column(h, "XMin"@, c.x_min as int)
            &&& is_first_column(h, "XMax"@, c.x_max as int)
            &&& is_first_column(h, "YMin"@, c.y_min as int)
            &&& is_first_column(h, "YMax"@, c.y_max as int)
            &&& is_flag_column(h, "IsOccluded"@, c.is_occluded)
            &&& is_flag_column(h, "IsTruncated"@, c.is_truncated)
            &&& is_flag_column(h, "IsGroupOf"@, c.is_group_of)
            &&& is_flag_column(h, "IsDepiction"@, c.is_depiction)
            &&& is_flag_column(h, "IsInside"@, c.is_inside)
        },
{
    lemma_column_of_named(h, "ImageID"@);
    lemma_column_of_named(h, "LabelName"@);
    lemma_column_of_named(h, "XMin"@);
    lemma_column_of_named(h, "XMax"@);
    lemma_column_of_named(h, "YMin"@);
    lemma_column_of_named(h, "YMax"@);
    lemma_column_of_named(h, "IsOccluded"@);
    lemma_column_of_named(h, "IsTruncated"@);
    lemma_column_of_named(h, "IsGroupOf"@);
    lemma_column_of_named(h, "IsDepiction"@);
    lemma_column_of_named(h, "IsInside"@);
}

/// The text of a record in the first column named `name` (empty where there
/// is no such column or the record is shorter).
pub open spec fn field_named(h: Seq<Seq<char>>, rec: Seq<Seq<char>>, name: Seq<char>) -> Seq<char> {
    if exists|k: int| is_first_column(h, name, k) {
        field_text(rec, (choose|k: int| is_first_column(h, name, k)) as usize)
    } else {
        Seq::empty()
    }
}

/// The flag a record holds in the first column named `name`, read as an
/// `i8`; none where there is no such column, the record is shorter, or the
/// field is not a number.
pub open spec fn flag_named(h: Seq<Seq<char>>, rec: Seq<Seq<char>>, name: Seq<char>) -> Option<i8> {
    if exists|k: int| is_first_column(h, name, k) {
        let k = choose|k: int| is_first_column(h, name, k);
        if k < rec.len() {
            match i8_value(rec[k]) {
                Some(v) => Some(v as i8),
                None => None,
            }
        } else {
            None
        }
    } else {
        None
    }
}

/// A selected box was read from a record of the table by column name: its
/// label field is the class code, its image id and coordinates are the
/// trimmed fields of their columns, and each flag is the value of the field
/// of that flag's own column.
pub open spec fn read_by_name(h: Seq<Seq<char>>, rec: Seq<Seq<char>>, r: BBoxRowView, code: Seq<char>) -> bool {
    &&& trim(field_named(h, rec, "LabelName"@)) == code
    &&& r.image_id == trim(field_named(h, rec, "ImageID"@))
    &&& r.x_min == trim(field_named(h, rec, "XMin"@))
    &&& r.x_max == trim(field_named(h, rec, "XMax"@))
    &&& r.y_min == trim(field_named(h, rec, "YMin"@))
    &&& r.y_max == trim(field_named(h, rec, "YMax"@))
    &&& r.is_occluded == flag_named(h, rec, "IsOccluded"@)
    &&& r.is_truncated == flag_named(h, rec, "IsTruncated"@)
    &&& r.is_group_of == flag_named(h, rec, "IsGroupOf"@)
    &&& r.is_depiction == flag_named(h, rec, "IsDepiction"@)
    &&& r.is_inside == flag_named(h, rec, "IsInside"@)
}

proof fn lemma_first_column_unique(h: Seq<Seq<char>>, name: Seq<char>, k: int)
    requires
        is_first_column(h, name, k),
    ensures
        (choose|j: int| is_first_column(h, name, j)) == k,
{
    let j = choose|j: int| is_first_column(h, name, j);
    if j < k {
        assert(h[j] != name);
    } else if k < j {
        assert(h[k] != name);
    }
}

/// `r` was read by column name from one of the records of `t`.
pub open spec fn read_from_table(t: CsvTableView, r: BBoxRowView, code: Seq<char>) -> bool {
    exists|rec: Seq<Seq<char>>| #[trigger] t.1.contains(rec) && read_by_name(t.0->Ok_0, rec, r, code)
}

/// Every box selected from a table comes from one of its records, read by
/// column name: the record's `LabelName` field is the class code, and the
/// box's id, coordinates and flags are the fields of the columns named
/// `ImageID`, `XMin`, `XMax`, `YMin`, `YMax`, `IsOccluded`, `IsTruncated`,
/// `IsGroupOf`, `IsDepiction` and `IsInside`.
pub proof fn lemma_selected_rows_read_by_name(t: CsvTableView, code: Seq<char>, f: ImageFilters)
    requires
        t.0 matches Ok(h) ==> h.len() <= usize::MAX,
    ensures
        rows_of_table(t, code, f) matches Ok(rows) ==> forall|i: int|
            0 <= i < rows.len() ==> read_from_table(t, #[trigger] rows[i], code),
{
    if let Ok(rows) = rows_of_table(t, code, f) {
        let h = t.0->Ok_0;
        let cols = columns_of(h)->Ok_0;
        lemma_columns_by_name(h);
        lemma_first_column_unique(h, "ImageID"@, cols.image_id as int);
        lemma_first_column_unique(h, "LabelName"@, cols.label_name as int);
        lemma_first_column_unique(h, "XMin"@, cols.x_min as int);
        lemma_first_column_unique(h, "XMax"@, cols.x_max as int);
        lemma_first_column_unique(h, "YMin"@, cols.y_min as int);
        lemma_first_column_unique(h, "YMax"@, cols.y_max as int);
        let g = |rec: Seq<Seq<char>>| row_of_record(cols, rec, code, f);
        assert forall|i: int| 0 <= i < rows.len() implies read_from_table(t, #[trigger] rows[i], code) by {
            assert(rows.contains(rows[i]));
            t.1.lemma_filter_map_contains(g, rows[i]);
            let rec = choose|rec: Seq<Seq<char>>| #[trigger] t.1.contains(rec) && g(rec) == Some(rows[i]);
            assert(row_of_record(cols, rec, code, f) == Some(rows[i]));
            lemma_flag_named(h, rec, "IsOccluded"@, cols.is_occluded);
            lemma_flag_named(h, rec, "IsTruncated"@, cols.is_truncated);
            lemma_flag_named(h, rec, "IsGroupOf"@, cols.is_group_of);
            lemma_flag_named(h, rec, "IsDepiction"@, cols.is_depiction);
            lemma_flag_named(h, rec, "IsInside"@, cols.is_inside);
            assert(read_by_name(h, rec, rows[i], code));
        }
    }
}

proof fn lemma_flag_named(h: Seq<Seq<char>>, rec: Seq<Seq<char>>, name: Seq<char>, col: Option<usize>)
    requires
        is_flag_column(h, name, col),
    ensures
        flag_named(h, rec, name) == flag_value(rec, col),
{
    match col {
        Some(k) => {
            lemma_first_column_unique(h, name, k as int);
        },
        None => {
            if exists|k: int| is_first_column(h, name, k) {
                let k = choose|k: int| is_first_column(h, name, k);
                assert(h[k] == name);
            }
        },
    }
}

} // verus!
