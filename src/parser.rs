//! The parser: a document held in memory, its delimiter and header flag, and
//! the three ways of reading it.
use vstd::prelude::*;
use vstd::string::StringExecFns;
use crate::fields::views;
use crate::record::{NamedRecord, zip_fields};
use crate::table::{join_fields, join_row, rows_of, table_of, table_views};

verus! {

/// The document could not be opened.
#[derive(Debug, Clone, Copy, PartialEq, Eq, Structural)]
pub struct FileAccessError;

impl FileAccessError {
    pub fn message(&self) -> (r: String)
        ensures
            r@ == "Cannot access file. Are you sure this file exists?"@,
    {
        let mut s = String::new();
        s.append("Cannot access file. Are you sure this file exists?");
        s
    }
}

/// A data row has fewer fields than the header row.
#[derive(Debug, Clone, Copy, PartialEq, Eq, Structural)]
pub struct RowWidthError {
    /// The position of the short row in the table; the header row is at 0.
    pub row: usize,
    /// The number of fields of the header row.
    pub expected: usize,
    /// The number of fields of the short row.
    pub found: usize,
}

/// Whether the data row at `i` of table `t` has fewer fields than its header row.
pub open spec fn is_short(t: Seq<Seq<Seq<char>>>, i: int) -> bool {
    t[i].len() < t[0].len()
}

/// Whether `out` is what `func` returns on some string that holds `line`.
pub open spec fn transformed<F: Fn(String) -> String>(func: F, line: Seq<char>, out: String) -> bool {
    exists|s: String| s@ == line && func.ensures((s,), out)
}

/// A delimited-text document held in memory.
#[derive(Debug, Clone)]
pub struct CSVParser {
    file: String,
    has_headers: bool,
    delimiter: String,
}

impl CSVParser {
    /// The text of the document.
    pub closed spec fn text(&self) -> Seq<char> {
        self.file@
    }

    /// The string that separates fields.
    pub closed spec fn delim(&self) -> Seq<char> {
        self.delimiter@
    }

    pub closed spec fn headers_flag(&self) -> bool {
        self.has_headers
    }

    /// The rows of the document.
    pub open spec fn table(&self) -> Seq<Seq<Seq<char>>> {
        table_of(self.text(), self.delim())
    }

    /// A parser over the document `text`, whose fields are separated by the
    /// delimiter string `delimiter`.
    pub fn new(text: String, has_headers: bool, delimiter: &str) -> (r: CSVParser)
        ensures
            r.text() == text@,
            r.delim() == delimiter@,
            r.headers_flag() == has_headers,
    {
        let mut d = String::new();
        d.append(delimiter);
        CSVParser { file: text, has_headers, delimiter: d }
    }

    pub fn has_headers(&self) -> (r: bool)
        ensures
            r == self.headers_flag(),
    {
        self.has_headers
    }

    pub fn delimiter(&self) -> (r: &str)
        ensures
            r@ == self.delim(),
    {
        self.delimiter.as_str()
    }

    /// The rows of the document, in line order: the fields of each non-empty
    /// line, left to right.
    pub fn read_all(&self) -> (r: Vec<Vec<String>>)
        ensures
            table_views(r@) == self.table(),
    {
        rows_of(self.file.as_str(), self.delimiter.as_str())
    }

    /// Each row joined with the delimiter and handed to `func`, in row order;
    /// the results, one per row.
    pub fn each_line<F: Fn(String) -> String>(&mut self, func: F) -> (r: Vec<String>)
        requires
            forall|s: String| func.requires((s,)),
        ensures
            *final(self) == *old(self),
            r@.len() == old(self).table().len(),
            forall|i: int|
                0 <= i < r@.len() ==> transformed(
                    func,
                    join_fields(old(self).table()[i], old(self).delim()),
                    #[trigger] r@[i],
                ),
    {
        let rows = self.read_all();
        let mut out: Vec<String> = Vec::new();
        let ghost mut args: Seq<String> = Seq::empty();
        let mut i: usize = 0;
        while i < rows.len()
            invariant
                i <= rows@.len(),
                table_views(rows@) == self.table(),
                out@.len() == i,
                args.len() == i,
                forall|s: String| func.requires((s,)),
                forall|j: int|
                    0 <= j < i ==> args[j]@ == join_fields(self.table()[j], self.delim())
                        && func.ensures((args[j],), out@[j]),
            decreases rows.len() - i,
        {
            let line = join_row(&rows[i], self.delimiter.as_str());
            assert(views(rows@[i as int]@) == self.table()[i as int]);
            proof {
                args = args.push(line);
            }
            let t = func(line);
            out.push(t);
            i = i + 1;
        }
        assert forall|i: int| 0 <= i < out@.len() implies transformed(
            func,
            join_fields(self.table()[i], self.delim()),
            #[trigger] out@[i],
        ) by {
            assert(args[i]@ == join_fields(self.table()[i], self.delim()) && func.ensures(
                (args[i],),
                out@[i],
            ));
        }
        out
    }

    /// The data rows bound to the column names of the header row, the first
    /// row. Fails on the first data row with fewer fields than the header row;
    /// a row with more has its extra fields left out.
    pub fn with_headers(&mut self) -> (r: Result<Vec<NamedRecord>, RowWidthError>)
        ensures
            *final(self) == *old(self),
            ({
                let t = old(self).table();
                match r {
                    Ok(v) => {
                        &&& forall|i: int| 1 <= i < t.len() ==> !is_short(t, i)
                        &&& t.len() == 0 ==> v@.len() == 0
                        &&& t.len() > 0 ==> v@.len() == t.len() - 1
                        &&& forall|k: int|
                            0 <= k < v@.len() ==> (#[trigger] v@[k]).pairs() == zip_fields(
                                t[0],
                                t[k + 1],
                            )
                    },
                    Err(e) => {
                        &&& 1 <= e.row < t.len()
                        &&& is_short(t, e.row as int)
                        &&& forall|i: int| 1 <= i < e.row ==> !is_short(t, i)
                        &&& e.expected == t[0].len()
                        &&& e.found == t[e.row as int].len()
                    },
                }
            }),
    {
        let rows = self.read_all();
        let ghost t = self.table();
        let mut out: Vec<NamedRecord> = Vec::new();
        if rows.len() == 0 {
            return Ok(out);
        }
        let headers = &rows[0];
        assert(views(headers@) == t[0]);
        let mut i: usize = 1;
        while i < rows.len()
            invariant
                1 <= i <= rows@.len(),
                table_views(rows@) == t,
                t == self.table(),
                headers == &rows@[0],
                out@.len() == i - 1,
                forall|j: int| 1 <= j < i ==> !is_short(t, j),
                forall|k: int|
                    0 <= k < out@.len() ==> (#[trigger] out@[k]).pairs() == zip_fields(
                        t[0],
                        t[k + 1],
                    ),
            decreases rows.len() - i,
        {
            let row = &rows[i];
            assert(views(row@) == t[i as int]);
            if row.len() < headers.len() {
                return Err(RowWidthError { row: i, expected: headers.len(), found: row.len() });
            }
            let rec = NamedRecord::bind(headers, row);
            out.push(rec);
            i = i + 1;
        }
        Ok(out)
    }
}

} // verus!
