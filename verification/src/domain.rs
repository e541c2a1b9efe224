//! Vocabulary shared by the scanner, the index and the recovery service.

use vstd::prelude::*;

verus! {

/// Image formats that the scanner recognises by signature.
#[derive(Debug, Clone, Copy, PartialEq, Eq, Structural)]
pub enum ImageFormat {
    Jpeg,
    Png,
    Webp,
    Heic,
    Bmp,
    Gif,
}

impl ImageFormat {
    /// File extension used when a candidate of this format is written out.
    pub open spec fn extension_text(self) -> Seq<char> {
        match self {
            ImageFormat::Jpeg => "jpg"@,
            ImageFormat::Png => "png"@,
            ImageFormat::Webp => "webp"@,
            ImageFormat::Heic => "heic"@,
            ImageFormat::Bmp => "bmp"@,
            ImageFormat::Gif => "gif"@,
        }
    }

    /// MIME type announced for previews of this format.
    pub open spec fn mime_text(self) -> Seq<char> {
        match self {
            ImageFormat::Jpeg => "image/jpeg"@,
            ImageFormat::Png => "image/png"@,
            ImageFormat::Webp => "image/webp"@,
            ImageFormat::Heic => "image/heic"@,
            ImageFormat::Bmp => "image/bmp"@,
            ImageFormat::Gif => "image/gif"@,
        }
    }

    pub fn extension(self) -> (r: &'static str)
        ensures
            r@ == self.extension_text(),
    {
        match self {
            ImageFormat::Jpeg => "jpg",
            ImageFormat::Png => "png",
            ImageFormat::Webp => "webp",
            ImageFormat::Heic => "heic",
            ImageFormat::Bmp => "bmp",
            ImageFormat::Gif => "gif",
        }
    }

    pub fn mime_type(self) -> (r: &'static str)
        ensures
            r@ == self.mime_text(),
    {
        match self {
            ImageFormat::Jpeg => "image/jpeg",
            ImageFormat::Png => "image/png",
            ImageFormat::Webp => "image/webp",
            ImageFormat::Heic => "image/heic",
            ImageFormat::Bmp => "image/bmp",
            ImageFormat::Gif => "image/gif",
        }
    }
}


/// Classification of a carved candidate, and of its later recovery.
#[derive(Debug, Clone, Copy, PartialEq, Eq, Structural)]
pub enum CandidateStatus {
    Found,
    Partial,
    Recovered,
    Failed,
    Corrupted,
}

impl CandidateStatus {
    /// The text under which a status is stored in the session index.
    pub open spec fn text(self) -> Seq<char> {
        match self {
            CandidateStatus::Found => "found"@,
            CandidateStatus::Partial => "partial"@,
            CandidateStatus::Recovered => "recovered"@,
            CandidateStatus::Failed => "failed"@,
            CandidateStatus::Corrupted => "corrupted"@,
        }
    }

    pub fn as_str(self) -> (r: &'static str)
        ensures
            r@ == self.text(),
    {
        match self {
            CandidateStatus::Found => "found",
            CandidateStatus::Partial => "partial",
            CandidateStatus::Recovered => "recovered",
            CandidateStatus::Failed => "failed",
            CandidateStatus::Corrupted => "corrupted",
        }
    }
}

/// How thoroughly a volume is scanned.
#[derive(Debug, Clone, Copy, PartialEq, Eq, Structural)]
pub enum ScanMode {
    Normal,
    Deep,
}

impl ScanMode {
    pub open spec fn text(self) -> Seq<char> {
        match self {
            ScanMode::Normal => "normal"@,
            ScanMode::Deep => "deep"@,
        }
    }

    pub fn as_str(self) -> (r: &'static str)
        ensures
            r@ == self.text(),
    {
        match self {
            ScanMode::Normal => "normal",
            ScanMode::Deep => "deep",
        }
    }
}

impl Default for ScanMode {
    fn default() -> (r: Self)
        ensures
            r == ScanMode::Normal,
    {
        ScanMode::Normal
    }
}

#[verifier::external_type_specification]
#[verifier::external_body]
pub struct ExUuid(uuid::Uuid);

/// `Uuid::clone`, which `derive(Clone, Copy)` writes in the uuid crate: the clone is
/// the same value.
pub assume_specification[ <uuid::Uuid as Clone>::clone ](u: &uuid::Uuid) -> (r: uuid::Uuid)
    ensures
        r == *u,
;

#[verifier::external_type_specification]
#[verifier::external_body]
pub struct ExIoError(std::io::Error);

/// One image found on the scanned volume, as stored in the session index.
#[derive(Debug)]
pub struct RecoveryCandidate {
    pub id: uuid::Uuid,
    pub scan_id: uuid::Uuid,
    pub format: ImageFormat,
    pub offset: u64,
    pub estimated_size: u64,
    pub confidence: u8,
    pub status: CandidateStatus,
    pub possible_original_name: Option<String>,
    pub recovered_path: Option<String>,
}

pub(crate) fn clone_optional_text(v: &Option<String>) -> (r: Option<String>)
    ensures
        r == *v,
{
    match v {
        Some(s) => Some(s.clone()),
        None => None,
    }
}

impl Clone for RecoveryCandidate {
    fn clone(&self) -> (r: Self)
        ensures
            r == *self,
    {
        RecoveryCandidate {
            id: self.id.clone(),
            scan_id: self.scan_id.clone(),
            format: self.format,
            offset: self.offset,
            estimated_size: self.estimated_size,
            confidence: self.confidence,
            status: self.status,
            possible_original_name: clone_optional_text(&self.possible_original_name),
            recovered_path: clone_optional_text(&self.recovered_path),
        }
    }
}

/// A source volume as the platform layer reports it.
#[derive(Debug)]
pub struct VolumeInfo {
    pub id: String,
    pub root_path: String,
    pub device_path: String,
    pub display_name: String,
    pub total_bytes: u64,
    pub sector_size: u32,
    pub is_removable: bool,
}

impl Clone for VolumeInfo {
    fn clone(&self) -> (r: Self)
        ensures
            r == *self,
    {
        VolumeInfo {
            id: self.id.clone(),
            root_path: self.root_path.clone(),
            device_path: self.device_path.clone(),
            display_name: self.display_name.clone(),
            total_bytes: self.total_bytes,
            sector_size: self.sector_size,
            is_removable: self.is_removable,
        }
    }
}

} // verus!
