//! Tab-delimited records: reading them through the `csv` crate, and taking a
//! (key, text) pair out of each.
use vstd::prelude::*;

verus! {

#[verifier::external_type_specification]
#[verifier::external_body]
pub struct ExCsvError(csv::Error);

/// A record's fields, in mathematical terms.
pub open spec fn row_view(row: Vec<String>) -> Seq<Seq<char>> {
    row@.map_values(|f: String| f@)
}

/// A sequence of records, in mathematical terms.
pub open spec fn rows_view(rows: Seq<Vec<String>>) -> Seq<Seq<Seq<char>>> {
    rows.map_values(|r: Vec<String>| row_view(r))
}

/// What the `csv` crate reads from `text` as tab-delimited records without a
/// header row: the fields of each record, or `None` when it refuses the text.
pub uninterp spec fn tsv_records(text: Seq<char>) -> Option<Seq<Seq<Seq<char>>>>;

/// Relies on `csv::Reader::records`, with a tab delimiter and no header row:
/// it reads the records of `text` in order, each as its fields, or fails.
/// The result depends on the text alone.
#[verifier::external_body]
pub(crate) fn read_records(text: &str) -> (r: Result<Vec<Vec<String>>, csv::Error>)
    ensures
        match r {
            Ok(rows) => tsv_records(text@) == Some(rows_view(rows@)),
            Err(_) => tsv_records(text@) is None,
        },
{
    let mut reader = csv::ReaderBuilder::new().delimiter(b'\t').has_headers(false).from_reader(
        text.as_bytes(),
    );
    let mut rows = Vec::new();
    for record in reader.records() {
        rows.push(record?.iter().map(String::from).collect());
    }
    Ok(rows)
}

/// Takes a (key, text) pair out of a record of `key_columns + 1` fields: the
/// key is the first `key_columns` fields, the text the last one.
#[derive(Clone, Copy, Debug, PartialEq, Eq)]
pub struct Extractor {
    pub key_columns: usize,
}

/// The pair that an extractor with `key_columns` key fields takes out of `row`,
/// or `None` when the row does not have `key_columns + 1` fields.
pub open spec fn extract(key_columns: usize, row: Seq<Seq<char>>) -> Option<(Seq<Seq<char>>, Seq<char>)> {
    if row.len() == key_columns + 1 {
        Some((row.take(key_columns as int), row[key_columns as int]))
    } else {
        None
    }
}

impl Extractor {
    /// An extractor whose key is the first `key_columns` fields.
    pub fn new(key_columns: usize) -> (r: Extractor)
        ensures
            r.key_columns == key_columns,
    {
        Extractor { key_columns }
    }

    /// The layout of a source file: component type, component name and
    /// reference number form the key, the fourth field is the text.
    pub fn source_rows() -> (r: Extractor)
        ensures
            r.key_columns == 3,
    {
        Extractor { key_columns: 3 }
    }

    /// The (key, text) pair of `row`, as [`extract`] gives it.
    pub fn extract(&self, row: &Vec<String>) -> (r: Option<(Vec<String>, String)>)
        ensures
            match r {
                Some((k, t)) => extract(self.key_columns, row_view(*row)) == Some((row_view(k), t@)),
                None => extract(self.key_columns, row_view(*row)) is None,
            },
    {
        if row.len() == 0 || row.len() - 1 != self.key_columns {
            return None;
        }
        let mut key: Vec<String> = Vec::new();
        let mut i: usize = 0;
        while i < self.key_columns
            invariant
                i <= self.key_columns < row.len(),
                key@.len() == i,
                forall|q: int| 0 <= q < i ==> (#[trigger] key@[q])@ == row@[q]@,
            decreases self.key_columns - i,
        {
            key.push(row[i].clone());
            i = i + 1;
        }
        assert(row_view(key) =~= row_view(*row).take(self.key_columns as int));
        let text = row[self.key_columns].clone();
        Some((key, text))
    }
}

/// Whether two keys hold the same fields.
pub fn same_key(a: &Vec<String>, b: &Vec<String>) -> (r: bool)
    ensures
        r == (row_view(*a) == row_view(*b)),
{
    if a.len() != b.len() {
        assert(row_view(*a).len() != row_view(*b).len());
        return false;
    }
    let mut i: usize = 0;
    while i < a.len()
        invariant
            i <= a.len() == b.len(),
            forall|k: int| 0 <= k < i ==> a@[k]@ == b@[k]@,
        decreases a.len() - i,
    {
        if !a[i].eq(&b[i]) {
            assert(row_view(*a)[i as int] != row_view(*b)[i as int]);
            return false;
        }
        i = i + 1;
    }
    assert(row_view(*a) =~= row_view(*b));
    true
}

} // verus!
