//! Calls into the outside crates that the loader depends on. Each item here is
//! believed, not proved: its doc comment names the call it relies on.
use linked_hash_map::LinkedHashMap;
use std::io::Read;
use vstd::prelude::*;

verus! {

#[verifier::external_type_specification]
#[verifier::external_body]
#[verifier::reject_recursive_types(K)]
#[verifier::reject_recursive_types(V)]
#[verifier::reject_recursive_types(S)]
pub struct ExLinkedHashMap<K, V, S>(LinkedHashMap<K, V, S>);

#[verifier::external_type_specification]
#[verifier::external_body]
pub struct ExCsvError(csv::Error);

#[verifier::external_type_specification]
#[verifier::external_body]
pub struct ExZipError(zip::result::ZipError);

/// What an insertion-ordered year index maps each year to.
pub uninterp spec fn year_slots(m: LinkedHashMap<u32, usize>) -> Map<u32, usize>;

/// The bytes of the first entry of a zip archive, decompressed; none where
/// the archive or that entry cannot be read.
pub uninterp spec fn first_entry_of(archive: Seq<u8>) -> Option<Seq<u8>>;

/// The header row of a CSV document, one string per column; none where it
/// cannot be parsed.
pub uninterp spec fn csv_header_of(data: Seq<u8>) -> Option<Seq<Seq<char>>>;

/// The data rows of a CSV document (the header row excluded), as raw fields;
/// none where some row cannot be parsed.
pub uninterp spec fn csv_records_of(data: Seq<u8>) -> Option<Seq<Seq<Seq<u8>>>>;

/// The text that lossy UTF-8 decoding makes of some bytes.
pub uninterp spec fn utf8_lossy_of(b: Seq<u8>) -> Seq<char>;

/// Relies on `LinkedHashMap::new`: the new map is empty.
#[verifier::external_body]
pub fn new_year_index() -> (r: LinkedHashMap<u32, usize>)
    ensures
        year_slots(r).dom() == Set::<u32>::empty(),
{
    LinkedHashMap::new()
}

/// Relies on `LinkedHashMap::get`: the value stored under the key, if any.
#[verifier::external_body]
pub fn year_index_get(m: &LinkedHashMap<u32, usize>, year: u32) -> (r: Option<usize>)
    ensures
        r == (if year_slots(*m).contains_key(year) {
            Some(year_slots(*m)[year])
        } else {
            None
        }),
{
    m.get(&year).copied()
}

/// Relies on `LinkedHashMap::insert`: afterwards the key maps to the value, and
/// every other key keeps its value.
#[verifier::external_body]
pub fn year_index_insert(m: &mut LinkedHashMap<u32, usize>, year: u32, slot: usize)
    ensures
        year_slots(*final(m)) == year_slots(*old(m)).insert(year, slot),
{
    m.insert(year, slot);
}

/// Relies on `zip::ZipArchive::new`, `ZipArchive::by_index_decrypt(0, &[])`
/// and reading that entry to its end: the decompressed bytes of the first
/// entry. An entry that needs a password fails with the password-required
/// error. The result depends on the bytes alone.
#[verifier::external_body]
pub fn zip_first_entry(archive: &Vec<u8>) -> (r: Result<Vec<u8>, zip::result::ZipError>)
    ensures
        r is Ok <==> first_entry_of(archive@) is Some,
        r matches Ok(v) ==> first_entry_of(archive@) == Some(v@),
{
    let mut z = zip::ZipArchive::new(std::io::Cursor::new(archive.as_slice()))?;
    let mut entry = match z.by_index_decrypt(0, &[])? {
        Ok(e) => e,
        Err(_) => {
            return Err(zip::result::ZipError::UnsupportedArchive(
                zip::result::ZipError::PASSWORD_REQUIRED,
            ))
        },
    };
    let mut out = Vec::new();
    entry.read_to_end(&mut out)?;
    Ok(out)
}

/// Relies on `csv::Reader::headers` over a reader with default settings: the
/// fields of the first row. The result depends on the bytes alone.
#[verifier::external_body]
pub fn csv_header(data: &Vec<u8>) -> (r: Result<Vec<String>, csv::Error>)
    ensures
        r is Ok <==> csv_header_of(data@) is Some,
        r matches Ok(h) ==> csv_header_of(data@) == Some(h.deep_view()),
{
    let mut rdr = csv::Reader::from_reader(data.as_slice());
    let h = rdr.headers()?;
    Ok(h.iter().map(String::from).collect())
}

/// Relies on `csv::Reader::byte_records` over a reader with default settings:
/// every row after the header row, each as its raw fields, or the first error.
/// The result depends on the bytes alone.
#[verifier::external_body]
pub fn csv_records(data: &Vec<u8>) -> (r: Result<Vec<Vec<Vec<u8>>>, csv::Error>)
    ensures
        r is Ok <==> csv_records_of(data@) is Some,
        r matches Ok(rows) ==> csv_records_of(data@) == Some(rows.deep_view()),
{
    let mut rdr = csv::Reader::from_reader(data.as_slice());
    rdr.byte_records()
        .map(|rec| rec.map(|rec| rec.iter().map(|f| f.to_vec()).collect()))
        .collect()
}

/// Relies on `String::from_utf8_lossy`: the result depends on the bytes alone,
/// and no bytes decode to no text.
#[verifier::external_body]
pub fn utf8_lossy(b: &Vec<u8>) -> (r: String)
    ensures
        r@ == utf8_lossy_of(b@),
        b@.len() == 0 ==> r@.len() == 0,
{
    String::from_utf8_lossy(b.as_slice()).into_owned()
}

} // verus!
