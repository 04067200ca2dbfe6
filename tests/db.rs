use linked_hash_map::LinkedHashMap;
use scotus::db::{
    data_dir_action, group_records, parse_year, read_terms, Case, Client, DbError, DirAction,
    FetchStep, Fields, Term, CASES_FILE_NAME, DEFAULT_CASES_URL,
};
use std::io::Write;

fn zipped(name: &str, body: &[u8]) -> Vec<u8> {
    let mut w = zip::ZipWriter::new(std::io::Cursor::new(Vec::new()));
    let opts = zip::write::FileOptions::default().compression_method(zip::CompressionMethod::Stored);
    w.start_file(name, opts).unwrap();
    w.write_all(body).unwrap();
    w.finish().unwrap().into_inner()
}

fn ids(t: &Term) -> Vec<String> {
    t.cases.iter().map(|c| c.id.clone()).collect()
}

fn rec(fields: &[&str]) -> Vec<Vec<u8>> {
    fields.iter().map(|f| f.as_bytes().to_vec()).collect()
}

#[test]
fn two_terms_in_first_seen_order() {
    let archive = zipped("cases.csv", b"term,caseId\n2020,001\n2020,002\n2019,003\n");
    let terms = read_terms(&archive).unwrap();
    assert_eq!(terms.len(), 2);
    assert_eq!(terms[0].year, 2020);
    assert_eq!(ids(&terms[0]), vec!["001", "002"]);
    assert_eq!(terms[1].year, 2019);
    assert_eq!(ids(&terms[1]), vec!["003"]);
}

#[test]
fn first_seen_order_is_not_numeric_order() {
    let archive = zipped("x.csv", b"caseId,term\na,1990\nb,1980\nc,1990\nd,2000\ne,1980\n");
    let terms = read_terms(&archive).unwrap();
    let years: Vec<u32> = terms.iter().map(|t| t.year).collect();
    assert_eq!(years, vec![1990, 1980, 2000]);
    assert_eq!(ids(&terms[0]), vec!["a", "c"]);
    assert_eq!(ids(&terms[1]), vec!["b", "e"]);
    assert_eq!(ids(&terms[2]), vec!["d"]);
}

#[test]
fn header_only_table_gives_no_terms() {
    let archive = zipped("x.csv", b"term,caseId\n");
    assert_eq!(read_terms(&archive).unwrap().len(), 0);
}

#[test]
fn missing_term_column_is_reported() {
    let archive = zipped("x.csv", b"year,caseId\nabc,001\n");
    match read_terms(&archive) {
        Err(DbError::MissingColumn(name)) => assert_eq!(name, "term"),
        other => panic!("unexpected {:?}", other),
    }
}

#[test]
fn non_numeric_term_fails_the_whole_table() {
    let archive = zipped("x.csv", b"term,caseId\n2020,001\nabc,002\n2019,003\n");
    match read_terms(&archive) {
        Err(DbError::InvalidTerm(text)) => assert_eq!(text, "abc"),
        other => panic!("unexpected {:?}", other),
    }
}

#[test]
fn not_a_zip_archive() {
    let r = read_terms(&b"term\n2020\n".to_vec());
    assert!(matches!(r, Err(DbError::Archive(_))));
}

#[test]
fn uneven_rows_are_a_csv_error() {
    let archive = zipped("x.csv", b"term,caseId\n2020,001,extra\n");
    assert!(matches!(read_terms(&archive), Err(DbError::Csv(_))));
}

#[test]
fn only_first_entry_is_read() {
    let mut w = zip::ZipWriter::new(std::io::Cursor::new(Vec::new()));
    let opts = zip::write::FileOptions::default();
    w.start_file("first.csv", opts).unwrap();
    w.write_all(b"term\n1999\n").unwrap();
    w.start_file("second.csv", opts).unwrap();
    w.write_all(b"nothing\n").unwrap();
    let archive = w.finish().unwrap().into_inner();
    let terms = read_terms(&archive).unwrap();
    assert_eq!(terms.len(), 1);
    assert_eq!(terms[0].year, 1999);
    assert_eq!(ids(&terms[0]), vec![""]);
}

#[test]
fn parse_year_values() {
    assert_eq!(parse_year(&"2020".to_string()), Some(2020));
    assert_eq!(parse_year(&"+7".to_string()), Some(7));
    assert_eq!(parse_year(&"007".to_string()), Some(7));
    assert_eq!(parse_year(&"4294967295".to_string()), Some(u32::MAX));
    assert_eq!(parse_year(&"4294967296".to_string()), None);
    assert_eq!(parse_year(&"".to_string()), None);
    assert_eq!(parse_year(&"+".to_string()), None);
    assert_eq!(parse_year(&"-1".to_string()), None);
    assert_eq!(parse_year(&" 1".to_string()), None);
    assert_eq!(parse_year(&"abc".to_string()), None);
    assert_eq!(parse_year(&"١٢".to_string()), None);
}

#[test]
fn fields_take_the_later_duplicate() {
    let h = vec!["term".to_string(), "caseId".to_string(), "term".to_string()];
    let f = Fields::from_headers(&h).unwrap();
    assert_eq!(f.term, 2);
    assert_eq!(f.case_id, Some(1));
    let g = Fields::from_headers(&vec!["term".to_string()]).unwrap();
    assert_eq!(g.term, 0);
    assert_eq!(g.case_id, None);
}

#[test]
fn fields_without_term_column() {
    let r = Fields::from_headers(&vec!["Term".to_string(), "caseId".to_string()]);
    assert!(matches!(r, Err(DbError::MissingColumn(ref n)) if n == "term"));
    assert!(matches!(Fields::from_headers(&vec![]), Err(DbError::MissingColumn(_))));
}

#[test]
fn group_records_groups_by_year() {
    let f = Fields { term: 0, case_id: Some(1) };
    let recs = vec![rec(&["2020", "001"]), rec(&["2020", "002"]), rec(&["2019", "003"])];
    let terms = group_records(&f, &recs).unwrap();
    assert_eq!(terms.len(), 2);
    assert_eq!((terms[0].year, ids(&terms[0])), (2020, vec!["001".to_string(), "002".to_string()]));
    assert_eq!((terms[1].year, ids(&terms[1])), (2019, vec!["003".to_string()]));
}

#[test]
fn group_records_short_record_fails() {
    let f = Fields { term: 2, case_id: None };
    let r = group_records(&f, &vec![rec(&["2020", "001"])]);
    assert!(matches!(r, Err(DbError::InvalidTerm(ref t)) if t.is_empty()));
}

#[test]
fn group_records_reports_first_bad_row() {
    let f = Fields { term: 0, case_id: None };
    let recs = vec![rec(&["1"]), rec(&["x1"]), rec(&["y2"])];
    assert!(matches!(group_records(&f, &recs), Err(DbError::InvalidTerm(ref t)) if t == "x1"));
}

#[test]
fn term_field_is_decoded_lossily() {
    let f = Fields { term: 0, case_id: Some(1) };
    let recs = vec![vec![b"2001".to_vec(), vec![b'a', 0xff]], vec![vec![0xff, b'1'], b"b".to_vec()]];
    match group_records(&f, &recs) {
        Err(DbError::InvalidTerm(t)) => assert_eq!(t, "\u{FFFD}1"),
        other => panic!("unexpected {:?}", other),
    }
    let terms = group_records(&f, &recs[..1].to_vec()).unwrap();
    assert_eq!(ids(&terms[0]), vec!["a\u{FFFD}"]);
}

#[test]
fn term_from_byte_record_adds_new_years_at_the_end() {
    let f = Fields { term: 0, case_id: None };
    let mut index: LinkedHashMap<u32, usize> = LinkedHashMap::new();
    let mut terms = Vec::new();
    assert_eq!(Term::from_byte_record(&f, &mut index, &mut terms, &rec(&["5"])).unwrap(), 0);
    assert_eq!(Term::from_byte_record(&f, &mut index, &mut terms, &rec(&["3"])).unwrap(), 1);
    assert_eq!(Term::from_byte_record(&f, &mut index, &mut terms, &rec(&["5"])).unwrap(), 0);
    assert_eq!(terms.len(), 2);
    assert_eq!((terms[0].year, terms[1].year), (5, 3));
    assert!(Term::from_byte_record(&f, &mut index, &mut terms, &rec(&["q"])).is_err());
    assert_eq!(terms.len(), 2);
}

#[test]
fn term_from_year_is_empty() {
    let t = Term::from_year(1801);
    assert_eq!(t.year, 1801);
    assert!(t.cases.is_empty());
}

#[test]
fn case_from_byte_record_takes_the_id() {
    let c = Case::from_byte_record(&Fields { term: 0, case_id: Some(1) }, &rec(&["2000", "1999-042"]));
    assert_eq!(c.id, "1999-042");
    assert_eq!(c.name, "");
    assert_eq!((c.majority_votes, c.minority_votes), (0, 0));
    let d = Case::from_byte_record(&Fields { term: 0, case_id: None }, &rec(&["2000", "x"]));
    assert_eq!(d.id, "");
}

#[test]
fn client_builders() {
    let c = Client::with_data_dir("cache");
    assert_eq!(c.data_dir, "cache");
    assert_eq!(c.cases_url, DEFAULT_CASES_URL);
    let c = c.with_cases_url("http://example.org/cases.zip");
    assert_eq!(c.data_dir, "cache");
    assert_eq!(c.cases_url, "http://example.org/cases.zip");
}

#[test]
fn cache_path_joins_the_file_name() {
    assert_eq!(Client::with_data_dir("data").cache_path(), format!("data/{}", CASES_FILE_NAME));
    assert_eq!(Client::with_data_dir("data/").cache_path(), format!("data/{}", CASES_FILE_NAME));
    assert_eq!(Client::with_data_dir("").cache_path(), CASES_FILE_NAME);
}

#[test]
fn cached_archive_is_not_fetched_again() {
    let c = Client::with_data_dir("d").with_cases_url("http://u");
    match c.next_step(true) {
        FetchStep::ReadCache { path } => assert_eq!(path, format!("d/{}", CASES_FILE_NAME)),
        other => panic!("unexpected {:?}", other),
    }
    match c.next_step(false) {
        FetchStep::Download { url, dest } => {
            assert_eq!(url, "http://u");
            assert_eq!(dest, format!("d/{}", CASES_FILE_NAME));
        }
        other => panic!("unexpected {:?}", other),
    }
}

#[test]
fn reset_always_recreates_the_data_dir() {
    assert_eq!(data_dir_action(true, true), DirAction::Recreate);
    assert_eq!(data_dir_action(false, true), DirAction::Create);
    assert_eq!(data_dir_action(false, false), DirAction::Create);
    assert_eq!(data_dir_action(true, false), DirAction::Keep);
}

fn le16(v: &mut Vec<u8>, x: u16) {
    v.extend_from_slice(&x.to_le_bytes());
}

fn le32(v: &mut Vec<u8>, x: u32) {
    v.extend_from_slice(&x.to_le_bytes());
}

// A one-entry stored archive with an empty entry, written byte by byte, with
// `extra` as the central directory entry's extra field.
fn hand_zip(extra: &[u8]) -> Vec<u8> {
    let name = b"t.csv";
    let mut z = Vec::new();
    le32(&mut z, 0x04034b50);
    for x in [20u16, 0, 0, 0, 0] {
        le16(&mut z, x);
    }
    for _ in 0..3 {
        le32(&mut z, 0);
    }
    le16(&mut z, name.len() as u16);
    le16(&mut z, 0);
    z.extend_from_slice(name);
    let cd_start = z.len() as u32;
    le32(&mut z, 0x02014b50);
    for x in [20u16, 20, 0, 0, 0, 0] {
        le16(&mut z, x);
    }
    for _ in 0..3 {
        le32(&mut z, 0);
    }
    le16(&mut z, name.len() as u16);
    le16(&mut z, extra.len() as u16);
    for x in [0u16, 0, 0] {
        le16(&mut z, x);
    }
    le32(&mut z, 0);
    le32(&mut z, 0);
    z.extend_from_slice(name);
    z.extend_from_slice(extra);
    let cd_size = z.len() as u32 - cd_start;
    le32(&mut z, 0x06054b50);
    for x in [0u16, 0, 1, 1] {
        le16(&mut z, x);
    }
    le32(&mut z, cd_size);
    le32(&mut z, cd_start);
    le16(&mut z, 0);
    z
}

#[test]
fn hand_written_archive_with_empty_entry_lacks_term_column() {
    let r = read_terms(&hand_zip(&[]));
    assert!(matches!(r, Err(DbError::MissingColumn(ref n)) if n == "term"));
}

#[test]
fn aes_marked_entry_without_password_is_an_archive_error() {
    let mut extra = Vec::new();
    for x in [0x9901u16, 7, 2, 0x4541] {
        le16(&mut extra, x);
    }
    extra.push(3);
    le16(&mut extra, 0);
    assert!(matches!(read_terms(&hand_zip(&extra)), Err(DbError::Archive(_))));
}

#[test]
fn archive_without_entries_is_an_archive_error() {
    let mut w = zip::ZipWriter::new(std::io::Cursor::new(Vec::new()));
    let archive = w.finish().unwrap().into_inner();
    assert!(matches!(read_terms(&archive), Err(DbError::Archive(_))));
}

#[test]
fn same_first_entry_gives_same_terms() {
    let a = zipped("a.csv", b"term,caseId\n1990,x\n1991,y\n");
    let mut w = zip::ZipWriter::new(std::io::Cursor::new(Vec::new()));
    let opts = zip::write::FileOptions::default();
    w.start_file("other-name.csv", opts).unwrap();
    w.write_all(b"term,caseId\n1990,x\n1991,y\n").unwrap();
    w.start_file("more.txt", opts).unwrap();
    w.write_all(b"ignored").unwrap();
    let b = w.finish().unwrap().into_inner();
    let ta = read_terms(&a).unwrap();
    let tb = read_terms(&b).unwrap();
    assert_eq!(format!("{:?}", ta), format!("{:?}", tb));
}
