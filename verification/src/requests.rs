//! What the desktop front end asks of the back end and what it gets back, where the
//! answer is computed rather than read or written.

use vstd::prelude::*;
use vstd::string::StringExecFns;
use crate::checksums::{base64_encode, base64_of};
use crate::domain::{ImageFormat, RecoveryCandidate, ScanMode};

verus! {

/// Request to start a scan of a source volume, keeping session files in a workspace.
#[derive(Debug, Clone)]
pub struct StartScanRequest {
    pub source_id: String,
    pub workspace_directory: String,
    pub scan_mode: ScanMode,
}

/// An in-memory preview of a candidate, as a `data:` URL.
#[derive(Debug, Clone)]
pub struct PreviewData {
    pub data_url: String,
}

/// Largest candidate previewed in memory: 20 MiB.
pub const MAX_PREVIEW_BYTES: u64 = 20971520;

/// The `data:` URL of an image of `format` whose bytes are `data`.
pub open spec fn data_url_text(format: ImageFormat, data: Seq<u8>) -> Seq<char> {
    "data:"@ + format.mime_text() + ";base64,"@ + base64_of(data)
}

/// How many bytes the preview of `candidate` reads: its estimated size, when that is at most
/// `MAX_PREVIEW_BYTES`; `None` for a candidate too large to preview in memory.
pub fn preview_length(candidate: &RecoveryCandidate) -> (r: Option<usize>)
    ensures
        r is Some <==> candidate.estimated_size <= MAX_PREVIEW_BYTES,
        r matches Some(n) ==> n == candidate.estimated_size,
{
    if candidate.estimated_size > MAX_PREVIEW_BYTES {
        None
    } else {
        Some(candidate.estimated_size as usize)
    }
}

impl PreviewData {
    /// The preview of the bytes of a candidate: its MIME type and the bytes in base64.
    pub fn for_image(format: ImageFormat, data: &[u8]) -> (r: Self)
        requires
            data@.len() <= MAX_PREVIEW_BYTES,
        ensures
            r.data_url@ == data_url_text(format, data@),
    {
        let mut url = String::from_str("data:");
        url.append(format.mime_type());
        url.append(";base64,");
        let encoded = base64_encode(data);
        url.append(encoded.as_str());
        PreviewData { data_url: url }
    }
}

/// The supported formats, by extension, comma-separated, in the order the scanner names
/// them.
pub open spec fn filters_text() -> Seq<char> {
    ImageFormat::Jpeg.extension_text() + ","@ + ImageFormat::Png.extension_text() + ","@
        + ImageFormat::Webp.extension_text() + ","@ + ImageFormat::Heic.extension_text() + ","@
        + ImageFormat::Bmp.extension_text() + ","@ + ImageFormat::Gif.extension_text()
}

pub fn supported_filters() -> (r: String)
    ensures
        r@ == filters_text(),
{
    let mut text = String::from_str(ImageFormat::Jpeg.extension());
    text.append(",");
    text.append(ImageFormat::Png.extension());
    text.append(",");
    text.append(ImageFormat::Webp.extension());
    text.append(",");
    text.append(ImageFormat::Heic.extension());
    text.append(",");
    text.append(ImageFormat::Bmp.extension());
    text.append(",");
    text.append(ImageFormat::Gif.extension());
    text
}

/// `Uuid`'s `==`, which `derive(PartialEq)` writes in the uuid crate: equal exactly when
/// the two identifiers are the same value.
#[verifier::external_body]
fn same_id(a: &uuid::Uuid, b: &uuid::Uuid) -> (r: bool)
    ensures
        r == (*a == *b),
{
    *a == *b
}

/// `ids` holds `id`.
pub open spec fn id_listed(ids: Seq<uuid::Uuid>, id: uuid::Uuid) -> bool {
    exists|i: int| 0 <= i < ids.len() && ids[i] == id
}

fn contains_id(ids: &Vec<uuid::Uuid>, id: &uuid::Uuid) -> (r: bool)
    ensures
        r == id_listed(ids@, *id),
{
    let mut i: usize = 0;
    while i < ids.len()
        invariant
            i <= ids.len(),
            forall|k: int| 0 <= k < i ==> ids@[k] != *id,
        decreases ids.len() - i,
    {
        if same_id(&ids[i], id) {
            return true;
        }
        i = i + 1;
    }
    false
}

/// The candidates of `all` whose identifiers are among `ids`, in their order.
pub fn select_candidates(all: Vec<RecoveryCandidate>, ids: &Vec<uuid::Uuid>) -> (r: Vec<
    RecoveryCandidate,
>)
    ensures
        r@ == all@.filter(|c: RecoveryCandidate| id_listed(ids@, c.id)),
{
    let mut selected: Vec<RecoveryCandidate> = Vec::new();
    let mut i: usize = 0;
    let ghost keep = |c: RecoveryCandidate| id_listed(ids@, c.id);
    while i < all.len()
        invariant
            i <= all.len(),
            keep == (|c: RecoveryCandidate| id_listed(ids@, c.id)),
            selected@ == all@.subrange(0, i as int).filter(keep),
        decreases all.len() - i,
    {
        proof {
            reveal_with_fuel(Seq::<_>::filter, 1);
            assert(all@.subrange(0, i + 1).drop_last() =~= all@.subrange(0, i as int));
        }
        if contains_id(ids, &all[i].id) {
            selected.push(all[i].clone());
        }
        i = i + 1;
    }
    assert(all@.subrange(0, all.len() as int) =~= all@);
    selected
}

/// The candidates of `all` to recover for a request naming `ids`, in their order; `None`
/// when the request selects none of them.
pub fn recovery_selection(all: Vec<RecoveryCandidate>, ids: &Vec<uuid::Uuid>) -> (r: Option<
    Vec<RecoveryCandidate>,
>)
    ensures
        r is None <==> all@.filter(|c: RecoveryCandidate| id_listed(ids@, c.id)).len() == 0,
        r matches Some(v) ==> v@ == all@.filter(|c: RecoveryCandidate| id_listed(ids@, c.id)),
{
    let selected = select_candidates(all, ids);
    if selected.len() == 0 {
        None
    } else {
        Some(selected)
    }
}

/// The first of `candidates` with identifier `candidate_id`.
pub fn find_candidate_in(candidates: Vec<RecoveryCandidate>, candidate_id: uuid::Uuid) -> (r:
    Option<RecoveryCandidate>)
    ensures
        r is None <==> forall|i: int| 0 <= i < candidates@.len() ==> candidates@[i].id
            != candidate_id,
        r matches Some(c) ==> exists|i: int|
            0 <= i < candidates@.len() && candidates@[i] == c && c.id == candidate_id && forall|
                k: int,
            | 0 <= k < i ==> candidates@[k].id != candidate_id,
{
    let mut i: usize = 0;
    while i < candidates.len()
        invariant
            i <= candidates.len(),
            forall|k: int| 0 <= k < i ==> candidates@[k].id != candidate_id,
        decreases candidates.len() - i,
    {
        if same_id(&candidates[i].id, &candidate_id) {
            return Some(candidates[i].clone());
        }
        i = i + 1;
    }
    None
}

} // verus!
