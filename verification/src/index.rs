//! How candidates are written to and read back from the session index: the text forms
//! of formats and statuses, and the conversion between a candidate and its table row.

use vstd::prelude::*;
use crate::domain::{clone_optional_text, CandidateStatus, ImageFormat, RecoveryCandidate};
use crate::text::str_equals;

verus! {

#[verifier::external_type_specification]
#[verifier::external_body]
pub struct ExSqliteError(rusqlite::Error);

#[verifier::external_type_specification]
#[verifier::external_body]
pub struct ExUuidError(uuid::Error);

#[verifier::external_type_specification]
#[verifier::external_body]
pub struct ExDateParseError(chrono::ParseError);

/// What can go wrong with the session index.
#[derive(Debug)]
pub enum IndexError {
    Sqlite(rusqlite::Error),
    Uuid(uuid::Error),
    Date(chrono::ParseError),
    InvalidValue(String),
}

/// The format stored as `v`: its extension, or `jpeg` for JPEG.
pub open spec fn spec_parse_format(v: Seq<char>) -> Option<ImageFormat> {
    if v == "jpg"@ || v == "jpeg"@ {
        Some(ImageFormat::Jpeg)
    } else if v == "png"@ {
        Some(ImageFormat::Png)
    } else if v == "webp"@ {
        Some(ImageFormat::Webp)
    } else if v == "heic"@ {
        Some(ImageFormat::Heic)
    } else if v == "bmp"@ {
        Some(ImageFormat::Bmp)
    } else if v == "gif"@ {
        Some(ImageFormat::Gif)
    } else {
        None
    }
}

/// The status stored as `v`.
pub open spec fn spec_parse_status(v: Seq<char>) -> Option<CandidateStatus> {
    if v == "found"@ {
        Some(CandidateStatus::Found)
    } else if v == "partial"@ {
        Some(CandidateStatus::Partial)
    } else if v == "recovered"@ {
        Some(CandidateStatus::Recovered)
    } else if v == "failed"@ {
        Some(CandidateStatus::Failed)
    } else if v == "corrupted"@ {
        Some(CandidateStatus::Corrupted)
    } else {
        None
    }
}

pub fn parse_format(value: &str) -> (r: Result<ImageFormat, IndexError>)
    ensures
        spec_parse_format(value@) matches Some(f) ==> (r matches Ok(g) && g == f),
        spec_parse_format(value@) is None ==> (r matches Err(IndexError::InvalidValue(s))
            && s@ == value@),
{
    if str_equals(value, "jpg") || str_equals(value, "jpeg") {
        Ok(ImageFormat::Jpeg)
    } else if str_equals(value, "png") {
        Ok(ImageFormat::Png)
    } else if str_equals(value, "webp") {
        Ok(ImageFormat::Webp)
    } else if str_equals(value, "heic") {
        Ok(ImageFormat::Heic)
    } else if str_equals(value, "bmp") {
        Ok(ImageFormat::Bmp)
    } else if str_equals(value, "gif") {
        Ok(ImageFormat::Gif)
    } else {
        Err(IndexError::InvalidValue(value.to_owned()))
    }
}

pub fn parse_status(value: &str) -> (r: Result<CandidateStatus, IndexError>)
    ensures
        spec_parse_status(value@) matches Some(st) ==> (r matches Ok(g) && g == st),
        spec_parse_status(value@) is None ==> (r matches Err(IndexError::InvalidValue(s))
            && s@ == value@),
{
    if str_equals(value, "found") {
        Ok(CandidateStatus::Found)
    } else if str_equals(value, "partial") {
        Ok(CandidateStatus::Partial)
    } else if str_equals(value, "recovered") {
        Ok(CandidateStatus::Recovered)
    } else if str_equals(value, "failed") {
        Ok(CandidateStatus::Failed)
    } else if str_equals(value, "corrupted") {
        Ok(CandidateStatus::Corrupted)
    } else {
        Err(IndexError::InvalidValue(value.to_owned()))
    }
}

/// Every format is read back from the text it is stored as.
pub proof fn lemma_format_text_round_trip(f: ImageFormat)
    ensures
        spec_parse_format(f.extension_text()) == Some(f),
{
    reveal_strlit("jpg");
    reveal_strlit("jpeg");
    reveal_strlit("png");
    reveal_strlit("webp");
    reveal_strlit("heic");
    reveal_strlit("bmp");
    reveal_strlit("gif");
    assert("png"@[0] != "jpg"@[0]);
    assert("webp"@[0] != "jpeg"@[0]);
    assert("webp"@[0] != "png"@[0]);
    assert("heic"@[0] != "jpeg"@[0]);
    assert("heic"@[0] != "webp"@[0]);
    assert("bmp"@[0] != "jpg"@[0]);
    assert("bmp"@[0] != "png"@[0]);
    assert("gif"@[0] != "jpg"@[0]);
    assert("gif"@[0] != "png"@[0]);
    assert("gif"@[0] != "bmp"@[0]);
}

/// Every status is read back from the text it is stored as.
pub proof fn lemma_status_text_round_trip(s: CandidateStatus)
    ensures
        spec_parse_status(s.text()) == Some(s),
{
    reveal_strlit("found");
    reveal_strlit("partial");
    reveal_strlit("recovered");
    reveal_strlit("failed");
    reveal_strlit("corrupted");
    assert("partial"@[0] != "found"@[0]);
    assert("recovered"@[0] != "found"@[0]);
    assert("recovered"@[0] != "partial"@[0]);
    assert("failed"@[1] != "found"@[1]);
    assert("failed"@[0] != "partial"@[0]);
    assert("failed"@[0] != "recovered"@[0]);
    assert("corrupted"@[0] != "found"@[0]);
    assert("corrupted"@[0] != "partial"@[0]);
    assert("corrupted"@[0] != "recovered"@[0]);
    assert("corrupted"@[0] != "failed"@[0]);
}


/// The text that `Uuid`'s `Display` writes for `u` (hyphenated, lower case): named, not
/// stated.
pub uninterp spec fn uuid_text(u: uuid::Uuid) -> Seq<char>;

/// The identifier that `Uuid::parse_str` reads from the text `s`, if it accepts it: named,
/// not stated.
pub uninterp spec fn uuid_parsed(s: Seq<char>) -> Option<uuid::Uuid>;

/// `Uuid::to_string`, through the crate's `Display`: the text is `uuid_text(u)`. The crate
/// documents that `parse_str` reads every format the crate writes, so this text parses
/// back to `u`.
#[verifier::external_body]
pub(crate) fn uuid_to_string(u: &uuid::Uuid) -> (r: String)
    ensures
        r@ == uuid_text(*u),
        uuid_parsed(r@) == Some(*u),
{
    u.to_string()
}

/// `Uuid::parse_str`: accepts what `uuid_parsed` accepts, and gives what it gives.
#[verifier::external_body]
fn parse_uuid(s: &str) -> (r: Result<uuid::Uuid, uuid::Error>)
    ensures
        r is Ok <==> uuid_parsed(s@) is Some,
        r matches Ok(u) ==> uuid_parsed(s@) == Some(u),
{
    uuid::Uuid::parse_str(s)
}

/// A candidate as one row of the `candidates` table.
#[derive(Debug, Clone)]
pub struct CandidateRow {
    pub id: String,
    pub scan_id: String,
    pub format: String,
    pub offset: i64,
    pub estimated_size: i64,
    pub confidence: i64,
    pub status: String,
    pub possible_original_name: Option<String>,
    pub recovered_path: Option<String>,
}

/// `row` stores `c`: its identifiers read back as those of `c`, and every other column
/// holds the stored form of the field.
pub open spec fn is_row_of(row: CandidateRow, c: RecoveryCandidate) -> bool {
    &&& uuid_parsed(row.id@) == Some(c.id)
    &&& uuid_parsed(row.scan_id@) == Some(c.scan_id)
    &&& row.format@ == c.format.extension_text()
    &&& row.offset == c.offset as i64
    &&& row.estimated_size == c.estimated_size as i64
    &&& row.confidence == c.confidence as i64
    &&& row.status@ == c.status.text()
    &&& row.possible_original_name == c.possible_original_name
    &&& row.recovered_path == c.recovered_path
}

/// The row under which `candidate` is saved: identifiers as text, format by extension,
/// sizes and offsets as SQLite integers, status as text.
pub fn candidate_row(candidate: &RecoveryCandidate) -> (r: CandidateRow)
    ensures
        r.id@ == uuid_text(candidate.id),
        r.scan_id@ == uuid_text(candidate.scan_id),
        is_row_of(r, *candidate),
{
    CandidateRow {
        id: uuid_to_string(&candidate.id),
        scan_id: uuid_to_string(&candidate.scan_id),
        format: candidate.format.extension().to_owned(),
        offset: candidate.offset as i64,
        estimated_size: candidate.estimated_size as i64,
        confidence: candidate.confidence as i64,
        status: candidate.status.as_str().to_owned(),
        possible_original_name: clone_optional_text(&candidate.possible_original_name),
        recovered_path: clone_optional_text(&candidate.recovered_path),
    }
}

/// Reads a candidate back from its row. Identifiers must parse, the format and status
/// must be known texts; integers are taken back as the unsigned values they were stored
/// from. A row written by `candidate_row` reads back as the same candidate.
pub fn candidate_from_row(row: &CandidateRow) -> (r: Result<RecoveryCandidate, IndexError>)
    ensures
        uuid_parsed(row.id@) is None ==> r matches Err(IndexError::Uuid(_)),
        uuid_parsed(row.id@) is Some && uuid_parsed(row.scan_id@) is None ==> r matches Err(
            IndexError::Uuid(_),
        ),
        uuid_parsed(row.id@) is Some && uuid_parsed(row.scan_id@) is Some && spec_parse_format(
            row.format@,
        ) is None ==> (r matches Err(IndexError::InvalidValue(s)) && s@ == row.format@),
        uuid_parsed(row.id@) is Some && uuid_parsed(row.scan_id@) is Some && spec_parse_format(
            row.format@,
        ) is Some && spec_parse_status(row.status@) is None ==> (r matches Err(
            IndexError::InvalidValue(s),
        ) && s@ == row.status@),
        uuid_parsed(row.id@) is Some && uuid_parsed(row.scan_id@) is Some && spec_parse_format(
            row.format@,
        ) is Some && spec_parse_status(row.status@) is Some ==> r == Ok::<
            RecoveryCandidate,
            IndexError,
        >(
            RecoveryCandidate {
                id: uuid_parsed(row.id@).unwrap(),
                scan_id: uuid_parsed(row.scan_id@).unwrap(),
                format: spec_parse_format(row.format@).unwrap(),
                offset: row.offset as u64,
                estimated_size: row.estimated_size as u64,
                confidence: row.confidence as u8,
                status: spec_parse_status(row.status@).unwrap(),
                possible_original_name: row.possible_original_name,
                recovered_path: row.recovered_path,
            },
        ),
        forall|c: RecoveryCandidate| is_row_of(*row, c) ==> r == Ok::<RecoveryCandidate, IndexError>(
            c,
        ),
{
    let id = match parse_uuid(row.id.as_str()) {
        Ok(id) => id,
        Err(e) => return Err(IndexError::Uuid(e)),
    };
    let scan_id = match parse_uuid(row.scan_id.as_str()) {
        Ok(id) => id,
        Err(e) => return Err(IndexError::Uuid(e)),
    };
    let format = match parse_format(row.format.as_str()) {
        Ok(f) => f,
        Err(e) => return Err(e),
    };
    let status = match parse_status(row.status.as_str()) {
        Ok(s) => s,
        Err(e) => return Err(e),
    };
    let candidate = RecoveryCandidate {
        id,
        scan_id,
        format,
        offset: row.offset as u64,
        estimated_size: row.estimated_size as u64,
        confidence: row.confidence as u8,
        status,
        possible_original_name: clone_optional_text(&row.possible_original_name),
        recovered_path: clone_optional_text(&row.recovered_path),
    };
    proof {
        assert forall|c: RecoveryCandidate| is_row_of(*row, c) implies candidate == c by {
            lemma_format_text_round_trip(c.format);
            lemma_status_text_round_trip(c.status);
            let o = c.offset;
            let z = c.estimated_size;
            let k = c.confidence;
            assert((o as i64) as u64 == o) by (bit_vector);
            assert((z as i64) as u64 == z) by (bit_vector);
            assert((k as i64) as u8 == k) by (bit_vector);
        }
    }
    Ok(candidate)
}

} // verus!
