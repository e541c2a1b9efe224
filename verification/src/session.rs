//! The decisions of a scan or recovery session that the desktop shell carries out: which
//! volume a request names, where the session's files go, what each stage reports, and what
//! a recovery attempt records.

use vstd::prelude::*;
use vstd::string::StringExecFns;
use crate::domain::{CandidateStatus, VolumeInfo};
use crate::index::{uuid_text, uuid_to_string};
use crate::recovery::{RecoveredFile, RecoveryError};
use crate::scanner::{zero_counts, ScanCounts, ScanError, ScanEvent, ScanSummary};
use crate::text::{chars_eq_ignore_ascii_case, chars_of, eq_ignore_ascii_case};

verus! {

/// The first of `volumes` whose identifier is `source_id`, ignoring ASCII case.
pub fn find_volume(volumes: &Vec<VolumeInfo>, source_id: &str) -> (r: Option<VolumeInfo>)
    ensures
        r is None <==> forall|i: int|
            0 <= i < volumes@.len() ==> !eq_ignore_ascii_case(#[trigger] volumes@[i].id@, source_id@),
        r matches Some(v) ==> exists|i: int|
            0 <= i < volumes@.len() && volumes@[i] == v && eq_ignore_ascii_case(v.id@, source_id@)
                && forall|k: int| 0 <= k < i ==> !eq_ignore_ascii_case(#[trigger] volumes@[k].id@, source_id@),
{
    let wanted = chars_of(source_id);
    let mut i: usize = 0;
    while i < volumes.len()
        invariant
            i <= volumes.len(),
            wanted@ == source_id@,
            forall|k: int| 0 <= k < i ==> !eq_ignore_ascii_case(#[trigger] volumes@[k].id@, source_id@),
        decreases volumes.len() - i,
    {
        let id = chars_of(volumes[i].id.as_str());
        if chars_eq_ignore_ascii_case(&id, &wanted) {
            return Some(volumes[i].clone());
        }
        i = i + 1;
    }
    None
}

/// `scan-` and the scan identifier in its hyphenated text form.
pub open spec fn session_folder_text(scan_id: uuid::Uuid) -> Seq<char> {
    "scan-"@ + uuid_text(scan_id)
}

/// The name of the folder, under the workspace's `PhotoRescue` folder, that holds a
/// session's index and logs.
pub fn session_folder_name(scan_id: &uuid::Uuid) -> (r: String)
    ensures
        r@ == session_folder_text(*scan_id),
{
    let mut name = String::from_str("scan-");
    let id = uuid_to_string(scan_id);
    name.append(id.as_str());
    name
}

/// The stage a scan reports to the front end.
#[derive(Debug, Clone, Copy, PartialEq, Eq, Structural)]
pub enum ScanState {
    Starting,
    Scanning,
    Completed,
    Cancelled,
    Failed,
}

impl ScanState {
    pub open spec fn text(self) -> Seq<char> {
        match self {
            ScanState::Starting => "starting"@,
            ScanState::Scanning => "scanning"@,
            ScanState::Completed => "completed"@,
            ScanState::Cancelled => "cancelled"@,
            ScanState::Failed => "failed"@,
        }
    }

    pub fn as_str(self) -> (r: &'static str)
        ensures
            r@ == self.text(),
    {
        match self {
            ScanState::Starting => "starting",
            ScanState::Scanning => "scanning",
            ScanState::Completed => "completed",
            ScanState::Cancelled => "cancelled",
            ScanState::Failed => "failed",
        }
    }
}

/// What the front end is told of a scan at one moment.
#[derive(Debug, Clone, Copy)]
pub struct ScanReport {
    pub state: ScanState,
    pub bytes_scanned: u64,
    pub total_bytes: u64,
    pub counts: ScanCounts,
}

impl ScanReport {
    /// Before the volume is opened: nothing read, nothing found.
    pub fn starting(total_bytes: u64) -> (r: Self)
        ensures
            r == (ScanReport {
                state: ScanState::Starting,
                bytes_scanned: 0,
                total_bytes,
                counts: zero_counts(),
            }),
    {
        ScanReport {
            state: ScanState::Starting,
            bytes_scanned: 0,
            total_bytes,
            counts: ScanCounts::default(),
        }
    }

    /// The volume could not be opened, or the scan broke off: reported as failed, with
    /// nothing read and nothing found.
    pub fn failed(total_bytes: u64) -> (r: Self)
        ensures
            r == (ScanReport {
                state: ScanState::Failed,
                bytes_scanned: 0,
                total_bytes,
                counts: zero_counts(),
            }),
    {
        ScanReport { state: ScanState::Failed, bytes_scanned: 0, total_bytes, counts: ScanCounts::default() }
    }

    /// A progress event of the scan is shown as it is; other events are not reports.
    pub fn for_event(event: &ScanEvent) -> (r: Option<Self>)
        ensures
            match *event {
                ScanEvent::Progress { bytes_scanned, total_bytes, counts } => r == Some(
                    ScanReport { state: ScanState::Scanning, bytes_scanned, total_bytes, counts },
                ),
                _ => r is None,
            },
    {
        match event {
            ScanEvent::Progress { bytes_scanned, total_bytes, counts } => Some(
                ScanReport {
                    state: ScanState::Scanning,
                    bytes_scanned: *bytes_scanned,
                    total_bytes: *total_bytes,
                    counts: *counts,
                },
            ),
            _ => None,
        }
    }

    /// How a scan of `total_bytes` ended: cancelled or completed with what its summary
    /// says, or failed with nothing read and nothing found.
    pub fn at_end(result: &Result<ScanSummary, ScanError>, total_bytes: u64) -> (r: Self)
        ensures
            match *result {
                Ok(s) => r == (ScanReport {
                    state: if s.cancelled {
                        ScanState::Cancelled
                    } else {
                        ScanState::Completed
                    },
                    bytes_scanned: s.bytes_scanned,
                    total_bytes,
                    counts: s.counts,
                }),
                Err(_) => r == (ScanReport {
                    state: ScanState::Failed,
                    bytes_scanned: 0,
                    total_bytes,
                    counts: zero_counts(),
                }),
            },
    {
        match result {
            Ok(summary) => ScanReport {
                state: if summary.cancelled {
                    ScanState::Cancelled
                } else {
                    ScanState::Completed
                },
                bytes_scanned: summary.bytes_scanned,
                total_bytes,
                counts: summary.counts,
            },
            Err(_) => Self::failed(total_bytes),
        }
    }
}

/// What the index records of a candidate after a recovery attempt: recovered, with the
/// path written, or failed, with no path.
pub fn recorded_outcome(result: &Result<RecoveredFile, RecoveryError>) -> (r: (
    CandidateStatus,
    Option<String>,
))
    ensures
        match *result {
            Ok(f) => r == (CandidateStatus::Recovered, Some(f.path)),
            Err(_) => r == (CandidateStatus::Failed, None::<String>),
        },
{
    match result {
        Ok(file) => (CandidateStatus::Recovered, Some(file.path.clone())),
        Err(_) => (CandidateStatus::Failed, None),
    }
}

} // verus!
