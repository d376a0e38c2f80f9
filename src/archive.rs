use vstd::prelude::*;

verus! {

#[verifier::external_type_specification]
#[verifier::external_body]
pub struct ExZipError(zip::result::ZipError);

/// The text of the first entry of the zip archive `archive`, or `None` where
/// the archive cannot be read or that entry is not UTF-8 text.
pub uninterp spec fn first_entry_text(archive: Seq<u8>) -> Option<Seq<char>>;

/// The text of the entry at `path` of the zip archive `archive`, or `None`
/// where the archive cannot be read, lacks that entry, or it is not UTF-8 text.
pub uninterp spec fn entry_text(archive: Seq<u8>, path: Seq<char>) -> Option<Seq<char>>;

/// The bytes of the entry at `path` of the zip archive `archive`, or `None`
/// where the archive cannot be read or lacks that entry.
pub uninterp spec fn entry_bytes(archive: Seq<u8>, path: Seq<char>) -> Option<Seq<u8>>;

/// Relies on zip::ZipArchive::new and ZipArchive::by_name, with
/// std::io::Read::read_to_end, to decompress the entry at an exact path of an
/// archive held in memory.
#[verifier::external_body]
fn read_named_bytes(archive: &Vec<u8>, path: &Vec<char>) -> (r: Result<Vec<u8>, zip::result::ZipError>)
    ensures
        r is Ok <==> entry_bytes(archive@, path@) is Some,
        r is Ok ==> entry_bytes(archive@, path@) == Some(r->Ok_0@),
{
    let name: String = path.iter().collect();
    let mut zip = zip::ZipArchive::new(std::io::Cursor::new(archive.as_slice()))?;
    let mut entry = zip.by_name(&name)?;
    let mut data = Vec::new();
    std::io::Read::read_to_end(&mut entry, &mut data)?;
    Ok(data)
}

/// Relies on zip::ZipArchive::new and ZipArchive::by_index, with
/// std::io::Read::read_to_string, to decode the first entry of an archive
/// held in memory.
#[verifier::external_body]
fn read_first(archive: &Vec<u8>) -> (r: Result<Vec<char>, zip::result::ZipError>)
    ensures
        r is Ok <==> first_entry_text(archive@) is Some,
        r is Ok ==> first_entry_text(archive@) == Some(r->Ok_0@),
{
    let mut zip = zip::ZipArchive::new(std::io::Cursor::new(archive.as_slice()))?;
    let mut entry = zip.by_index(0)?;
    let mut text = String::new();
    std::io::Read::read_to_string(&mut entry, &mut text)?;
    Ok(text.chars().collect())
}

/// Relies on zip::ZipArchive::new and ZipArchive::by_name, with
/// std::io::Read::read_to_string, to decode the entry at an exact path of an
/// archive held in memory.
#[verifier::external_body]
fn read_named(archive: &Vec<u8>, path: &Vec<char>) -> (r: Result<Vec<char>, zip::result::ZipError>)
    ensures
        r is Ok <==> entry_text(archive@, path@) is Some,
        r is Ok ==> entry_text(archive@, path@) == Some(r->Ok_0@),
{
    let name: String = path.iter().collect();
    let mut zip = zip::ZipArchive::new(std::io::Cursor::new(archive.as_slice()))?;
    let mut entry = zip.by_name(&name)?;
    let mut text = String::new();
    std::io::Read::read_to_string(&mut entry, &mut text)?;
    Ok(text.chars().collect())
}

/// The text of the first entry of an archive.
pub fn first_entry(archive: &Vec<u8>) -> (r: Option<Vec<char>>)
    ensures
        match first_entry_text(archive@) {
            Some(t) => r is Some && r->Some_0@ == t,
            None => r is None,
        },
{
    match read_first(archive) {
        Ok(t) => Some(t),
        Err(_) => None,
    }
}

/// The text of the entry at `path` of an archive.
pub fn entry(archive: &Vec<u8>, path: &Vec<char>) -> (r: Option<Vec<char>>)
    ensures
        match entry_text(archive@, path@) {
            Some(t) => r is Some && r->Some_0@ == t,
            None => r is None,
        },
{
    match read_named(archive, path) {
        Ok(t) => Some(t),
        Err(_) => None,
    }
}

/// The bytes of the entry at `path` of an archive.
pub fn entry_data(archive: &Vec<u8>, path: &Vec<char>) -> (r: Option<Vec<u8>>)
    ensures
        match entry_bytes(archive@, path@) {
            Some(b) => r is Some && r->Some_0@ == b,
            None => r is None,
        },
{
    match read_named_bytes(archive, path) {
        Ok(b) => Some(b),
        Err(_) => None,
    }
}

} // verus!
