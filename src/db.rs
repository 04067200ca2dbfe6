//! Loading the case database: a zip archive whose first entry is a CSV table
//! of case records, grouped by the term (year) in which each case was heard.
use crate::bridge::{
    csv_header, csv_header_of, csv_records, csv_records_of, first_entry_of, new_year_index,
    utf8_lossy, utf8_lossy_of, year_index_get, year_index_insert, year_slots, zip_first_entry,
};
use crate::model::{
    all_digits, cases_in, decimal_u32, digits_value, first_seen, grouped, is_digit,
    lemma_cases_in_absent, lemma_digits_value_prefix, lemma_first_seen_contains,
    lemma_first_seen_distinct, lemma_push_contains, unsigned_digits, years_of, CaseModel, TermModel,
};
use linked_hash_map::LinkedHashMap;
use vstd::prelude::*;
use vstd::string::{StrSliceExecFns, StringExecFns};

verus! {

/// Where the case table is published.
pub const DEFAULT_CASES_URL: &'static str =
    "http://scdb.wustl.edu/_brickFiles/2021_01/SCDB_2021_01_justiceCentered_Citation.csv.zip";

/// The name of the cached archive inside the data directory.
pub const CASES_FILE_NAME: &'static str = "SCDB_justiceCentered_Citation.csv.zip";

/// Why loading the case table failed.
#[derive(Debug)]
pub enum DbError {
    /// The archive is not a zip archive, has no entry, or its first entry
    /// cannot be read.
    Archive(zip::result::ZipError),
    /// The CSV table is malformed.
    Csv(csv::Error),
    /// The header row lacks a required column, named here.
    MissingColumn(String),
    /// A row's term field is not an unsigned decimal year; the field's text.
    InvalidTerm(String),
}

/// One case record.
#[derive(Debug)]
pub struct Case {
    pub id: String,
    pub name: String,
    pub majority_votes: u8,
    pub minority_votes: u8,
}

/// One term: its year and the cases heard in it, in table order.
#[derive(Debug)]
pub struct Term {
    pub year: u32,
    pub cases: Vec<Case>,
}

/// Positions of the columns that the loader reads.
#[derive(Debug, Clone, Copy)]
pub struct Fields {
    pub term: usize,
    pub case_id: Option<usize>,
}

impl View for Case {
    type V = CaseModel;

    open spec fn view(&self) -> CaseModel {
        CaseModel {
            id: self.id@,
            name: self.name@,
            majority_votes: self.majority_votes,
            minority_votes: self.minority_votes,
        }
    }
}

impl View for Term {
    type V = TermModel;

    open spec fn view(&self) -> TermModel {
        TermModel { year: self.year, cases: self.cases@.map_values(|c: Case| c@) }
    }
}

pub open spec fn terms_view(ts: Seq<Term>) -> Seq<TermModel> {
    ts.map_values(|t: Term| t@)
}

/// The position of the last column called `name`, if any.
pub open spec fn column_of(header: Seq<Seq<char>>, name: Seq<char>) -> Option<int>
    decreases header.len(),
{
    if header.len() == 0 {
        None
    } else if header.last() == name {
        Some(header.len() - 1)
    } else {
        column_of(header.drop_last(), name)
    }
}

/// The column positions that a header row resolves to, when it has a term column.
pub open spec fn fields_of(header: Seq<Seq<char>>) -> Fields {
    Fields {
        term: column_of(header, "term"@).unwrap() as usize,
        case_id: match column_of(header, "caseId"@) {
            Some(i) => Some(i as usize),
            None => None,
        },
    }
}

/// The text of field `col` of a record, or nothing where the record is shorter.
pub open spec fn field_text(rec: Seq<Seq<u8>>, col: int) -> Seq<char> {
    if 0 <= col < rec.len() {
        utf8_lossy_of(rec[col])
    } else {
        Seq::empty()
    }
}

/// The year that a record's term field holds, if it holds one.
pub open spec fn record_year(rec: Seq<Seq<u8>>, col: int) -> Option<u32> {
    if 0 <= col < rec.len() {
        decimal_u32(utf8_lossy_of(rec[col]))
    } else {
        None
    }
}

/// The case that a record describes.
pub open spec fn record_case(rec: Seq<Seq<u8>>, f: Fields) -> CaseModel {
    CaseModel {
        id: match f.case_id {
            Some(c) => field_text(rec, c as int),
            None => Seq::empty(),
        },
        name: Seq::empty(),
        majority_votes: 0,
        minority_votes: 0,
    }
}

/// The first `n` records all hold a year.
pub open spec fn years_valid(recs: Seq<Seq<Seq<u8>>>, col: int, n: int) -> bool {
    forall|i: int| 0 <= i < n ==> (#[trigger] record_year(recs[i], col)) is Some
}

/// Each record as its year and its case.
pub open spec fn rows_of(recs: Seq<Seq<Seq<u8>>>, f: Fields) -> Seq<(u32, CaseModel)> {
    recs.map_values(|rec: Seq<Seq<u8>>| (record_year(rec, f.term as int).unwrap(), record_case(rec, f)))
}

/// Every year that the index holds points at the term of that year.
pub open spec fn index_ok(slots: Map<u32, usize>, ts: Seq<Term>) -> bool {
    forall|y: u32|
        #[trigger] slots.contains_key(y) ==> slots[y] < ts.len() && ts[slots[y] as int].year == y
}

/// Reads an unsigned decimal year: an optional `+` and one or more ASCII
/// digits, at most `u32::MAX`.
pub fn parse_year(text: &String) -> (r: Option<u32>)
    ensures
        r == decimal_u32(text@),
{
    let s = text.as_str();
    let n = s.unicode_len();
    let mut start: usize = 0;
    if n > 0 && s.get_char(0) == '+' {
        start = 1;
    }
    let ghost d = unsigned_digits(text@);
    assert(d =~= text@.subrange(start as int, n as int));
    if start >= n {
        return None;
    }
    let mut acc: u64 = 0;
    let mut j: usize = start;
    while j < n
        invariant
            s@ == text@,
            n == text@.len(),
            start <= j <= n,
            d == text@.subrange(start as int, n as int),
            d == unsigned_digits(text@),
            all_digits(d.take(j - start)),
            acc == digits_value(d.take(j - start)),
            acc <= u32::MAX,
        decreases n - j,
    {
        let c = s.get_char(j);
        assert(d[j - start] == c);
        if c < '0' || c > '9' {
            assert(!all_digits(d));
            assert(decimal_u32(text@) is None);
            return None;
        }
        let v: u64 = acc * 10 + ((c as u32) - ('0' as u32)) as u64;
        assert(d.take(j - start + 1).drop_last() =~= d.take(j - start));
        assert(d.take(j - start + 1).last() == c);
        assert(all_digits(d.take(j - start + 1))) by {
            assert forall|i: int| 0 <= i < j - start + 1 implies is_digit(
                #[trigger] d.take(j - start + 1)[i],
            ) by {
                if i < j - start {
                    assert(d.take(j - start + 1)[i] == d.take(j - start)[i]);
                }
            }
        }
        assert(v == digits_value(d.take(j - start + 1)));
        if v > u32::MAX as u64 {
            proof {
                if all_digits(d) {
                    lemma_digits_value_prefix(d, j - start + 1);
                }
            }
            assert(decimal_u32(text@) is None);
            return None;
        }
        acc = v;
        j = j + 1;
    }
    assert(d.take(j - start) =~= d);
    Some(acc as u32)
}

impl Fields {
    /// Resolves the column positions from the header row. The term column is
    /// required; the case id column is optional. Where a name occurs twice,
    /// the later column is taken.
    pub fn from_headers(headers: &Vec<String>) -> (r: Result<Fields, DbError>)
        ensures
            column_of(headers.deep_view(), "term"@) is None <==> r is Err,
            r matches Err(e) ==> (e matches DbError::MissingColumn(n) && n@ == "term"@),
            r matches Ok(f) ==> f == fields_of(headers.deep_view()),
    {
        let term_name = "term".to_owned();
        let id_name = "caseId".to_owned();
        let ghost h = headers.deep_view();
        let mut term: Option<usize> = None;
        let mut case_id: Option<usize> = None;
        let mut i: usize = 0;
        while i < headers.len()
            invariant
                i <= headers.len(),
                h == headers.deep_view(),
                h.len() == headers.len(),
                term_name@ == "term"@,
                id_name@ == "caseId"@,
                term == (match column_of(h.take(i as int), "term"@) {
                    Some(k) => Some(k as usize),
                    None => None::<usize>,
                }),
                case_id == (match column_of(h.take(i as int), "caseId"@) {
                    Some(k) => Some(k as usize),
                    None => None::<usize>,
                }),
            decreases headers.len() - i,
        {
            assert(h.take(i + 1).drop_last() =~= h.take(i as int));
            assert(h.take(i + 1).last() == headers[i as int]@);
            if headers[i] == term_name {
                term = Some(i);
            }
            if headers[i] == id_name {
                case_id = Some(i);
            }
            i = i + 1;
        }
        assert(h.take(i as int) =~= h);
        match term {
            Some(t) => Ok(Fields { term: t, case_id }),
            None => Err(DbError::MissingColumn(term_name)),
        }
    }
}

impl Case {
    /// The case that a record describes: its id from the case id column when
    /// the table has one, the other fields left empty.
    pub fn from_byte_record(fields: &Fields, record: &Vec<Vec<u8>>) -> (r: Case)
        ensures
            r@ == record_case(record.deep_view(), *fields),
    {
        let id = match fields.case_id {
            Some(c) => if c < record.len() {
                assert(record.deep_view()[c as int] == record[c as int]@);
                utf8_lossy(&record[c])
            } else {
                String::new()
            },
            None => String::new(),
        };
        Case { id, name: String::new(), majority_votes: 0, minority_votes: 0 }
    }
}

impl Term {
    /// A term of the given year with no cases yet.
    pub fn from_year(year: u32) -> (r: Term)
        ensures
            r@ == (TermModel { year, cases: Seq::empty() }),
    {
        let cases: Vec<Case> = Vec::new();
        assert(cases@.map_values(|c: Case| c@) =~= Seq::<CaseModel>::empty());
        Term { year, cases }
    }
}

impl Term {
    /// Finds the term of the record's year, adding an empty one at the end
    /// when the year is new, and returns its position. A record too short to
    /// have a term field holds no year: it is refused with `InvalidTerm` and
    /// empty text, as a non-numeric field is, rather than trusted to be
    /// impossible.
    pub fn from_byte_record(
        fields: &Fields,
        index: &mut LinkedHashMap<u32, usize>,
        terms: &mut Vec<Term>,
        record: &Vec<Vec<u8>>,
    ) -> (r: Result<usize, DbError>)
        requires
            index_ok(year_slots(*old(index)), old(terms)@),
        ensures
            r is Err <==> record_year(record.deep_view(), fields.term as int) is None,
            r matches Err(e) ==> (e matches DbError::InvalidTerm(v) && v@ == field_text(
                record.deep_view(),
                fields.term as int,
            )),
            r is Err ==> *final(index) == *old(index) && final(terms)@ == old(terms)@,
            r matches Ok(k) ==> ({
                let y = record_year(record.deep_view(), fields.term as int).unwrap();
                &&& index_ok(year_slots(*final(index)), final(terms)@)
                &&& k < final(terms)@.len()
                &&& final(terms)@[k as int].year == y
                &&& year_slots(*old(index)).contains_key(y) ==> {
                    &&& *final(index) == *old(index)
                    &&& final(terms)@ == old(terms)@
                    &&& k == year_slots(*old(index))[y]
                }
                &&& !year_slots(*old(index)).contains_key(y) ==> {
                    &&& year_slots(*final(index)) == year_slots(*old(index)).insert(y, k)
                    &&& k == old(terms)@.len()
                    &&& final(terms)@.drop_last() == old(terms)@
                    &&& final(terms)@.last()@ == (TermModel { year: y, cases: Seq::empty() })
                }
            }),
    {
        let ghost rec = record.deep_view();
        let col = fields.term;
        if col >= record.len() {
            return Err(DbError::InvalidTerm(String::new()));
        }
        assert(rec[col as int] == record[col as int]@);
        let text = utf8_lossy(&record[col]);
        let year = match parse_year(&text) {
            Some(y) => y,
            None => {
                return Err(DbError::InvalidTerm(text));
            },
        };
        match year_index_get(index, year) {
            Some(k) => Ok(k),
            None => {
                let k = terms.len();
                terms.push(Term::from_year(year));
                year_index_insert(index, year, k);
                assert(terms@.drop_last() =~= old(terms)@);
                assert forall|y: u32| #[trigger]
                    year_slots(*index).contains_key(y) implies year_slots(*index)[y] < terms.len()
                    && terms@[year_slots(*index)[y] as int].year == y by {
                    if y != year {
                        assert(year_slots(*old(index)).contains_key(y));
                    }
                }
                Ok(k)
            },
        }
    }
}

/// Groups the data rows of a case table by term: one term per distinct year,
/// in order of first appearance, each holding the cases of its rows in table
/// order. The first row whose term field holds no year fails the whole table.
#[verifier::rlimit(50)]
pub fn group_records(fields: &Fields, records: &Vec<Vec<Vec<u8>>>) -> (r: Result<Vec<Term>, DbError>)
    ensures
        r is Ok <==> years_valid(records.deep_view(), fields.term as int, records.len() as int),
        r matches Err(e) ==> exists|i: int|
            0 <= i < records.len() && years_valid(records.deep_view(), fields.term as int, i)
                && (#[trigger] record_year(records.deep_view()[i], fields.term as int)) is None
                && (e matches DbError::InvalidTerm(v) && v@ == field_text(
                records.deep_view()[i],
                fields.term as int,
            )),
        r matches Ok(ts) ==> terms_view(ts@) == grouped(rows_of(records.deep_view(), *fields)),
{
    let ghost recs = records.deep_view();
    let ghost col = fields.term as int;
    let ghost all_rows = rows_of(recs, *fields);
    let mut index = new_year_index();
    let mut terms: Vec<Term> = Vec::new();
    let mut i: usize = 0;
    assert(terms_view(terms@) =~= grouped(all_rows.take(0)));
    while i < records.len()
        invariant
            i <= records.len(),
            recs == records.deep_view(),
            recs.len() == records.len(),
            all_rows == rows_of(recs, *fields),
            col == fields.term as int,
            years_valid(recs, col, i as int),
            terms_view(terms@) == grouped(all_rows.take(i as int)),
            index_ok(year_slots(index), terms@),
            forall|y: u32|
                #[trigger] year_slots(index).contains_key(y) <==> years_of(
                    all_rows.take(i as int),
                ).contains(y),
        decreases records.len() - i,
    {
        assert(recs[i as int] == records[i as int].deep_view());
        let ghost old_terms = terms@;
        let ghost old_slots = year_slots(index);
        let k = match Term::from_byte_record(fields, &mut index, &mut terms, &records[i]) {
            Ok(k) => k,
            Err(e) => {
                return Err(e);
            },
        };
        let case = Case::from_byte_record(fields, &records[i]);
        let ghost mid_terms = terms@;
        terms[k].cases.push(case);
        proof {
            let y = record_year(recs[i as int], col).unwrap();
            let row = all_rows[i as int];
            let r0 = all_rows.take(i as int);
            let r1 = all_rows.take(i + 1);
            assert(row == (y, case@));
            assert(r1.drop_last() =~= r0);
            assert(r1.last() == row);
            assert(years_of(r1).drop_last() =~= years_of(r0));
            assert(years_of(r1) =~= years_of(r0).push(y));
            let fs0 = first_seen(years_of(r0));
            let fs1 = first_seen(years_of(r1));
            lemma_first_seen_contains(years_of(r0), y);
            lemma_first_seen_distinct(years_of(r0));
            assert forall|y2: u32| #[trigger] year_slots(index).contains_key(y2) <==> years_of(r1).contains(y2) by {
                lemma_push_contains(years_of(r0), y, y2);
            }
            assert(grouped(r0).len() == fs0.len());
            assert(old_terms.len() == fs0.len()) by {
                assert(terms_view(old_terms).len() == old_terms.len());
            }
            assert forall|j: int| 0 <= j < old_terms.len() implies (#[trigger] old_terms[j]).year == fs0[j] by {
                assert(terms_view(old_terms)[j] == old_terms[j]@);
                assert(grouped(r0)[j].year == fs0[j]);
            }
            assert forall|j: int| 0 <= j < fs0.len() && fs0[j] == y implies fs0.contains(y) by {}
            if old_slots.contains_key(y) {
                assert(fs1 == fs0);
                assert(k == old_slots[y]);
                assert(old_terms[k as int].year == y);
                assert(fs0[k as int] == y);
                assert(terms@.len() == old_terms.len());
                assert forall|j: int| 0 <= j < terms@.len() implies (#[trigger] terms_view(terms@)[j])
                    == grouped(r1)[j] by {
                    assert(terms_view(terms@)[j] == terms@[j]@);
                    assert(grouped(r1)[j] == (TermModel { year: fs1[j], cases: cases_in(r1, fs1[j]) }));
                    assert(grouped(r0)[j] == (TermModel { year: fs0[j], cases: cases_in(r0, fs0[j]) }));
                    assert(terms_view(old_terms)[j] == old_terms[j]@);
                    if j != k {
                        assert(fs0[j] != y);
                        assert(cases_in(r1, fs0[j]) == cases_in(r0, fs0[j]));
                        assert(terms@[j] == old_terms[j]);
                    } else {
                        assert(mid_terms[j] == old_terms[j]);
                        assert(cases_in(r1, y) == cases_in(r0, y).push(case@));
                        assert(terms@[j].cases@.map_values(|c: Case| c@) =~= mid_terms[j].cases@.map_values(|c: Case| c@).push(case@));
                    }
                }
            } else {
                assert(fs1 == fs0.push(y));
                lemma_cases_in_absent(r0, y);
                assert forall|j: int| 0 <= j < terms@.len() implies (#[trigger] terms_view(terms@)[j])
                    == grouped(r1)[j] by {
                    assert(terms_view(terms@)[j] == terms@[j]@);
                    assert(grouped(r1)[j] == (TermModel { year: fs1[j], cases: cases_in(r1, fs1[j]) }));
                    if j < old_terms.len() {
                        assert(grouped(r0)[j] == (TermModel { year: fs0[j], cases: cases_in(r0, fs0[j]) }));
                        assert(fs0[j] != y);
                        assert(cases_in(r1, fs0[j]) == cases_in(r0, fs0[j]));
                        assert(terms@[j] == mid_terms[j]);
                        assert(mid_terms.drop_last()[j] == old_terms[j]);
                        assert(terms@[j] == old_terms[j]);
                        assert(terms_view(old_terms)[j] == old_terms[j]@);
                    } else {
                        assert(cases_in(r1, y) == cases_in(r0, y).push(case@));
                        assert(mid_terms[j]@.cases == Seq::<CaseModel>::empty());
                        assert(terms@[j].cases@.map_values(|c: Case| c@) =~= mid_terms[j].cases@.map_values(|c: Case| c@).push(case@));
                    }
                }
            }
            assert(terms_view(terms@) =~= grouped(r1));
            assert(years_valid(recs, col, i + 1));
        }
        i = i + 1;
    }
    assert(all_rows.take(i as int) =~= all_rows);
    Ok(terms)
}

/// The header row of the table in an archive's first entry, where the entry
/// and the header can be read.
pub open spec fn header_in(archive: Seq<u8>) -> Option<Seq<Seq<char>>> {
    match first_entry_of(archive) {
        Some(d) => csv_header_of(d),
        None => None,
    }
}

/// The data rows of the table in an archive's first entry, where the entry and
/// the rows can be read.
pub open spec fn records_in(archive: Seq<u8>) -> Option<Seq<Seq<Seq<u8>>>> {
    match first_entry_of(archive) {
        Some(d) => csv_records_of(d),
        None => None,
    }
}

/// The archive's table has a header with a term column and rows that parse.
pub open spec fn table_readable(archive: Seq<u8>) -> bool {
    &&& header_in(archive) matches Some(h)
    &&& column_of(h, "term"@) is Some
    &&& records_in(archive) is Some
}

/// Reads the case table from a zip archive whose first entry is a CSV table
/// with a `term` column, and groups its rows by term. The header is checked
/// before any data row is read. Each step that fails gives its own error:
/// the archive, the header, the term column, the rows, a row's year.
pub fn read_terms(archive: &Vec<u8>) -> (r: Result<Vec<Term>, DbError>)
    ensures
        r is Ok <==> table_readable(archive@) && years_valid(
            records_in(archive@).unwrap(),
            fields_of(header_in(archive@).unwrap()).term as int,
            records_in(archive@).unwrap().len() as int,
        ),
        r matches Ok(ts) ==> terms_view(ts@) == grouped(
            rows_of(records_in(archive@).unwrap(), fields_of(header_in(archive@).unwrap())),
        ),
        r is Err && r->Err_0 is Archive <==> first_entry_of(archive@) is None,
        r is Err && r->Err_0 is Csv <==> first_entry_of(archive@) is Some && (header_in(archive@)
            is None || (column_of(header_in(archive@).unwrap(), "term"@) is Some && records_in(
            archive@,
        ) is None)),
        r is Err && r->Err_0 is MissingColumn <==> (header_in(archive@) matches Some(h)
            && column_of(h, "term"@) is None),
        r matches Err(DbError::MissingColumn(n)) ==> n@ == "term"@,
        r is Err && r->Err_0 is InvalidTerm <==> table_readable(archive@) && !years_valid(
            records_in(archive@).unwrap(),
            fields_of(header_in(archive@).unwrap()).term as int,
            records_in(archive@).unwrap().len() as int,
        ),
        r matches Err(DbError::InvalidTerm(v)) ==> ({
            let recs = records_in(archive@).unwrap();
            let col = fields_of(header_in(archive@).unwrap()).term as int;
            exists|i: int|
                0 <= i < recs.len() && years_valid(recs, col, i) && (#[trigger] record_year(
                    recs[i],
                    col,
                )) is None && v@ == field_text(recs[i], col)
        }),
{
    let data = match zip_first_entry(archive) {
        Ok(d) => d,
        Err(e) => {
            return Err(DbError::Archive(e));
        },
    };
    let header = match csv_header(&data) {
        Ok(h) => h,
        Err(e) => {
            return Err(DbError::Csv(e));
        },
    };
    let fields = match Fields::from_headers(&header) {
        Ok(f) => f,
        Err(e) => {
            return Err(e);
        },
    };
    let records = match csv_records(&data) {
        Ok(rs) => rs,
        Err(e) => {
            return Err(DbError::Csv(e));
        },
    };
    group_records(&fields, &records)
}

/// Where the archive is cached: the file name joined to the data directory.
pub open spec fn cache_path_of(dir: Seq<char>) -> Seq<char> {
    if dir.len() == 0 {
        CASES_FILE_NAME@
    } else if dir.last() == '/' {
        dir + CASES_FILE_NAME@
    } else {
        dir + "/"@ + CASES_FILE_NAME@
    }
}

/// What to do before reading the table.
#[derive(Debug)]
pub enum FetchStep {
    /// Fetch the archive from `url` and store it at `dest`, then read it there.
    Download { url: String, dest: String },
    /// Read the archive already cached at `path`.
    ReadCache { path: String },
}

/// Where the case table comes from and where it is cached.
#[derive(Debug)]
pub struct Client {
    pub data_dir: String,
    pub cases_url: String,
}

impl Client {
    /// A client caching in `path`, fetching from the default address.
    pub fn with_data_dir(path: &str) -> (r: Client)
        ensures
            r.data_dir@ == path@,
            r.cases_url@ == DEFAULT_CASES_URL@,
    {
        Client { data_dir: String::from_str(path), cases_url: String::from_str(DEFAULT_CASES_URL) }
    }

    /// The same client, fetching from `url` instead.
    pub fn with_cases_url(self, url: &str) -> (r: Client)
        ensures
            r.data_dir@ == self.data_dir@,
            r.cases_url@ == url@,
    {
        let mut c = self;
        c.cases_url = String::from_str(url);
        c
    }

    /// The path of the cached archive.
    pub fn cache_path(&self) -> (r: String)
        ensures
            r@ == cache_path_of(self.data_dir@),
    {
        let dir = self.data_dir.as_str();
        let n = dir.unicode_len();
        if n == 0 {
            return String::from_str(CASES_FILE_NAME);
        }
        let mut p = self.data_dir.clone();
        if dir.get_char(n - 1) != '/' {
            p.append("/");
        }
        p.append(CASES_FILE_NAME);
        p
    }

    /// Decides how to get the archive: read the cached copy when there is
    /// one, and only otherwise fetch it.
    pub fn next_step(&self, cache_exists: bool) -> (r: FetchStep)
        ensures
            cache_exists <==> r is ReadCache,
            r matches FetchStep::ReadCache { path } ==> path@ == cache_path_of(self.data_dir@),
            r matches FetchStep::Download { url, dest } ==> url@ == self.cases_url@ && dest@
                == cache_path_of(self.data_dir@),
    {
        let path = self.cache_path();
        if cache_exists {
            FetchStep::ReadCache { path }
        } else {
            FetchStep::Download { url: self.cases_url.clone(), dest: path }
        }
    }
}

/// What to do with the data directory before the client runs.
#[derive(Debug, Clone, Copy, PartialEq, Eq, Structural)]
pub enum DirAction {
    /// It exists and is kept as it is.
    Keep,
    /// It does not exist: create it, with its parents.
    Create,
    /// It exists and a reset was asked for: remove it with all it holds, then
    /// create it again, empty.
    Recreate,
}

/// Decides what to do with the data directory, given whether it exists and
/// whether a reset was asked for. A reset always ends in a fresh, empty
/// directory.
pub fn data_dir_action(exists: bool, reset: bool) -> (r: DirAction)
    ensures
        !exists ==> r == DirAction::Create,
        exists && reset ==> r == DirAction::Recreate,
        exists && !reset ==> r == DirAction::Keep,
        reset ==> r != DirAction::Keep,
{
    if !exists {
        DirAction::Create
    } else if reset {
        DirAction::Recreate
    } else {
        DirAction::Keep
    }
}

} // verus!
