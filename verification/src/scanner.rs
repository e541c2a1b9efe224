//! The signature scan: reads the volume chunk by chunk, looks for a signature at every
//! byte, carves each one it finds, and reports candidates and progress.

use vstd::prelude::*;
use crate::bytes::lemma_image_len;
use crate::carvers::{carve_at, spec_carve_at, CarveResult};
use crate::domain::{CandidateStatus, ImageFormat, RecoveryCandidate, ScanMode};
use crate::signatures::{detect, detect_format_in};

verus! {

/// Bytes at the end of a chunk that the next chunk reads again, so that a signature
/// across the boundary is still seen whole.
pub const SIGNATURE_OVERLAP: u64 = 32;

/// Settings of one scan.
#[derive(Debug, Clone, Copy)]
pub struct ScanConfig {
    pub mode: ScanMode,
    pub chunk_size: usize,
    pub max_file_size: u64,
    pub max_candidates: usize,
    pub allow_partial: bool,
    pub tolerate_read_errors: bool,
    pub skip_carved_ranges: bool,
    pub progress_interval: u64,
}

/// The settings of a normal scan: 8 MiB chunks, files up to 512 MiB, at most 100 000
/// candidates, complete images only, stop on read errors, skip what was carved, report
/// progress every 16 MiB.
pub open spec fn normal_config() -> ScanConfig {
    ScanConfig {
        mode: ScanMode::Normal,
        chunk_size: 8388608,
        max_file_size: 536870912,
        max_candidates: 100000,
        allow_partial: false,
        tolerate_read_errors: false,
        skip_carved_ranges: true,
        progress_interval: 16777216,
    }
}

/// The settings of a deep scan: 4 MiB chunks, files up to 768 MiB, at most 250 000
/// candidates, partial images kept, read errors tolerated, every byte examined, progress
/// every 8 MiB.
pub open spec fn deep_config() -> ScanConfig {
    ScanConfig {
        mode: ScanMode::Deep,
        chunk_size: 4194304,
        max_file_size: 805306368,
        max_candidates: 250000,
        allow_partial: true,
        tolerate_read_errors: true,
        skip_carved_ranges: false,
        progress_interval: 8388608,
    }
}

impl Default for ScanConfig {
    fn default() -> (r: Self)
        ensures
            r == normal_config(),
    {
        ScanConfig {
            mode: ScanMode::Normal,
            chunk_size: 8388608,
            max_file_size: 536870912,
            max_candidates: 100000,
            allow_partial: false,
            tolerate_read_errors: false,
            skip_carved_ranges: true,
            progress_interval: 16777216,
        }
    }
}

impl ScanConfig {
    pub fn for_mode(mode: ScanMode) -> (r: Self)
        ensures
            r == (match mode {
                ScanMode::Normal => normal_config(),
                ScanMode::Deep => deep_config(),
            }),
    {
        match mode {
            ScanMode::Normal => Self::default(),
            ScanMode::Deep => ScanConfig {
                mode,
                chunk_size: 4194304,
                max_file_size: 805306368,
                max_candidates: 250000,
                allow_partial: true,
                tolerate_read_errors: true,
                skip_carved_ranges: false,
                progress_interval: 8388608,
            },
        }
    }
}

/// Running tallies of a scan.
#[derive(Debug, Clone, Copy)]
pub struct ScanCounts {
    pub found_count: usize,
    pub complete_count: usize,
    pub partial_count: usize,
    pub corrupted_count: usize,
    pub read_error_count: usize,
}

pub open spec fn zero_counts() -> ScanCounts {
    ScanCounts {
        found_count: 0,
        complete_count: 0,
        partial_count: 0,
        corrupted_count: 0,
        read_error_count: 0,
    }
}

impl Default for ScanCounts {
    fn default() -> (r: Self)
        ensures
            r == zero_counts(),
    {
        ScanCounts {
            found_count: 0,
            complete_count: 0,
            partial_count: 0,
            corrupted_count: 0,
            read_error_count: 0,
        }
    }
}

/// Each status tally is at most the number found, which is at most `max`.
pub open spec fn counts_within(c: ScanCounts, max: int) -> bool {
    &&& c.found_count <= max
    &&& c.complete_count <= c.found_count
    &&& c.partial_count <= c.found_count
    &&& c.corrupted_count <= c.found_count
}

/// The tallies after one more candidate with `status`.
pub open spec fn recorded(c: ScanCounts, status: CandidateStatus) -> ScanCounts {
    ScanCounts {
        found_count: (c.found_count + 1) as usize,
        complete_count: if status == CandidateStatus::Found {
            (c.complete_count + 1) as usize
        } else {
            c.complete_count
        },
        partial_count: if status == CandidateStatus::Partial {
            (c.partial_count + 1) as usize
        } else {
            c.partial_count
        },
        corrupted_count: if status == CandidateStatus::Corrupted {
            (c.corrupted_count + 1) as usize
        } else {
            c.corrupted_count
        },
        read_error_count: c.read_error_count,
    }
}

impl ScanCounts {
    fn record_candidate(&mut self, status: CandidateStatus)
        requires
            old(self).found_count < usize::MAX,
            old(self).complete_count < usize::MAX,
            old(self).partial_count < usize::MAX,
            old(self).corrupted_count < usize::MAX,
        ensures
            *final(self) == recorded(*old(self), status),
    {
        self.found_count = self.found_count + 1;
        match status {
            CandidateStatus::Found => self.complete_count = self.complete_count + 1,
            CandidateStatus::Partial => self.partial_count = self.partial_count + 1,
            CandidateStatus::Corrupted => self.corrupted_count = self.corrupted_count + 1,
            CandidateStatus::Recovered | CandidateStatus::Failed => {},
        }
    }
}

/// The tallies after one more read error.
pub open spec fn with_read_error(c: ScanCounts) -> ScanCounts {
    ScanCounts { read_error_count: (c.read_error_count + 1) as usize, ..c }
}

/// The tallies `c` after recording, in order, the status of each candidate and each read
/// error among `events`.
pub open spec fn tally(events: Seq<ScanEvent>, c: ScanCounts) -> ScanCounts
    decreases events.len(),
{
    if events.len() == 0 {
        c
    } else {
        let next = match events[0] {
            ScanEvent::Candidate(x) => recorded(c, x.status),
            ScanEvent::ReadError { .. } => with_read_error(c),
            _ => c,
        };
        tally(events.subrange(1, events.len() as int), next)
    }
}

/// Tallying two runs of events one after the other is tallying their concatenation.
pub proof fn lemma_tally_append(a: Seq<ScanEvent>, b: Seq<ScanEvent>, c: ScanCounts)
    ensures
        tally(a + b, c) == tally(b, tally(a, c)),
    decreases a.len(),
{
    if a.len() == 0 {
        assert(a + b =~= b);
    } else {
        let next = match a[0] {
            ScanEvent::Candidate(x) => recorded(c, x.status),
            ScanEvent::ReadError { .. } => with_read_error(c),
            _ => c,
        };
        assert((a + b).subrange(1, (a + b).len() as int) =~= a.subrange(1, a.len() as int) + b);
        lemma_tally_append(a.subrange(1, a.len() as int), b, next);
    }
}

proof fn lemma_tally_push(a: Seq<ScanEvent>, e: ScanEvent, c: ScanCounts)
    ensures
        tally(a.push(e), c) == (match e {
            ScanEvent::Candidate(x) => recorded(tally(a, c), x.status),
            ScanEvent::ReadError { .. } => with_read_error(tally(a, c)),
            _ => tally(a, c),
        }),
{
    lemma_tally_append(a, seq![e], c);
    assert(a + seq![e] =~= a.push(e));
    let t = tally(a, c);
    let next = match e {
        ScanEvent::Candidate(x) => recorded(t, x.status),
        ScanEvent::ReadError { .. } => with_read_error(t),
        _ => t,
    };
    assert(seq![e].subrange(1, 1) =~= Seq::<ScanEvent>::empty());
    assert(tally(Seq::<ScanEvent>::empty(), next) == next);
    assert(tally(seq![e], t) == tally(seq![e].subrange(1, 1), next));
}

/// A reported candidate is found, partial or corrupted, and partial only when the settings
/// keep partial images; it starts inside the scanned range, and is neither longer than the
/// configured maximum nor than what is left of the range.
pub open spec fn candidate_within(cfg: ScanConfig, total: int, c: RecoveryCandidate) -> bool {
    &&& (c.status is Found || c.status is Partial || c.status is Corrupted)
    &&& (c.status is Partial ==> cfg.allow_partial)
    &&& c.offset < total
    &&& 0 < c.estimated_size <= cfg.max_file_size
    &&& c.offset + c.estimated_size <= total
}

/// Every candidate among `events` is within the bounds of the scan.
pub open spec fn candidates_within(cfg: ScanConfig, total: int, events: Seq<ScanEvent>) -> bool {
    forall|i: int|
        0 <= i < events.len() && #[trigger] events[i] is Candidate ==> candidate_within(
            cfg,
            total,
            events[i]->Candidate_0,
        )
}

/// Each progress report among `events` carries the tallies of the candidates reported
/// before it.
pub open spec fn progress_matches_tally(events: Seq<ScanEvent>) -> bool {
    forall|i: int|
        0 <= i < events.len() && #[trigger] events[i] is Progress ==> events[i]->Progress_counts
            == tally(events.take(i), zero_counts())
}

/// A position of the volume that the device fails to read, and the message of the failure.
#[derive(Debug)]
pub struct ReadFailure {
    pub offset: u64,
    pub message: String,
}

impl Clone for ReadFailure {
    fn clone(&self) -> (r: Self)
        ensures
            r == *self,
    {
        ReadFailure { offset: self.offset, message: self.message.clone() }
    }
}

/// The first of `failures`, in their order, that lies in `[from, to)`: reading that range
/// fails with its message.
pub open spec fn first_failure(failures: Seq<ReadFailure>, from: int, to: int) -> Option<
    ReadFailure,
>
    decreases failures.len(),
{
    if failures.len() == 0 {
        None
    } else if from <= failures[0].offset < to {
        Some(failures[0])
    } else {
        first_failure(failures.subrange(1, failures.len() as int), from, to)
    }
}

/// Where the data that a carve starting at `from` can read ends: at the first of `failures`
/// at or after `from`, else at `end`. A read in a carve that covers a failed position
/// fails; the carve is told when its data ends at a failure, so that its buffered reads
/// that reach it fail too instead of coming back short.
pub open spec fn failure_cut(failures: Seq<ReadFailure>, from: int, end: int) -> int
    decreases failures.len(),
{
    if failures.len() == 0 {
        end
    } else {
        let rest = failure_cut(failures.subrange(1, failures.len() as int), from, end);
        if from <= failures[0].offset < rest {
            failures[0].offset as int
        } else {
            rest
        }
    }
}

fn failure_cut_in(failures: &[ReadFailure], from: u64, end: u64) -> (r: u64)
    ensures
        r == failure_cut(failures@, from as int, end as int),
        r <= end,
{
    let mut i: usize = failures.len();
    let mut cut = end;
    proof {
        assert(failures@.subrange(i as int, failures@.len() as int) =~= Seq::<ReadFailure>::empty());
    }
    while i > 0
        invariant
            i <= failures@.len(),
            cut <= end,
            cut == failure_cut(failures@.subrange(i as int, failures@.len() as int), from as int, end as int),
        decreases i,
    {
        i = i - 1;
        let ghost rest = failures@.subrange(i as int, failures@.len() as int);
        assert(rest.subrange(1, rest.len() as int) =~= failures@.subrange(i + 1, failures@.len() as int));
        let o = failures[i].offset;
        if from <= o && o < cut {
            cut = o;
        }
    }
    assert(failures@.subrange(0, failures@.len() as int) =~= failures@);
    cut
}

/// The failure, if any, of reading `[from, to)`.
fn read_failure_in(failures: &[ReadFailure], from: u64, to: u64) -> (r: Option<ReadFailure>)
    ensures
        r == first_failure(failures@, from as int, to as int),
{
    let mut i: usize = 0;
    assert(failures@.subrange(0, failures@.len() as int) =~= failures@);
    while i < failures.len()
        invariant
            i <= failures@.len(),
            first_failure(failures@.subrange(i as int, failures@.len() as int), from as int, to as int)
                == first_failure(failures@, from as int, to as int),
        decreases failures.len() - i,
    {
        let ghost rest = failures@.subrange(i as int, failures@.len() as int);
        assert(rest.subrange(1, rest.len() as int) =~= failures@.subrange(i + 1, failures@.len() as int));
        if from <= failures[i].offset && failures[i].offset < to {
            return Some(failures[i].clone());
        }
        i = i + 1;
    }
    assert(failures@.subrange(i as int, failures@.len() as int) =~= Seq::<ReadFailure>::empty());
    None
}

/// What a scan reports while it runs.
#[derive(Debug, Clone)]
pub enum ScanEvent {
    Progress { bytes_scanned: u64, total_bytes: u64, counts: ScanCounts },
    Candidate(RecoveryCandidate),
    ReadError { offset: u64, message: String },
}

/// How a scan ended.
#[derive(Debug, Clone, Copy)]
pub struct ScanSummary {
    pub bytes_scanned: u64,
    pub counts: ScanCounts,
    pub cancelled: bool,
}

/// Why a scan stopped without a summary.
#[derive(Debug)]
pub enum ScanError {
    Read { offset: u64, message: String },
    InvalidChunkSize,
    CandidateLimit(usize),
}

/// An event with the candidate identifier left out: identifiers are drawn at random.
pub open spec fn without_id(e: ScanEvent) -> ScanEvent {
    match e {
        ScanEvent::Candidate(c) => ScanEvent::Candidate(
            RecoveryCandidate {
                id: arbitrary(),
                scan_id: c.scan_id,
                format: c.format,
                offset: c.offset,
                estimated_size: c.estimated_size,
                confidence: c.confidence,
                status: c.status,
                possible_original_name: c.possible_original_name,
                recovered_path: c.recovered_path,
            },
        ),
        _ => e,
    }
}

pub open spec fn shapes(events: Seq<ScanEvent>) -> Seq<ScanEvent> {
    events.map_values(|e: ScanEvent| without_id(e))
}

/// The candidate event for an image carved at `offset`.
pub open spec fn found_event(
    scan_id: uuid::Uuid,
    format: ImageFormat,
    offset: int,
    carved: CarveResult,
) -> ScanEvent {
    ScanEvent::Candidate(
        RecoveryCandidate {
            id: arbitrary(),
            scan_id,
            format,
            offset: offset as u64,
            estimated_size: carved.length,
            confidence: carved.confidence,
            status: carved.status,
            possible_original_name: None,
            recovered_path: None,
        },
    )
}

/// How many bytes the read of the chunk at `off` returns: at most `chunk`, never past
/// `total`, and none past the end of the image.
pub open spec fn chunk_read_len(d: Seq<u8>, total: int, off: int, chunk: int) -> int {
    let wanted = if total - off < chunk { total - off } else { chunk };
    if off >= d.len() {
        0
    } else if wanted < d.len() - off {
        wanted
    } else {
        d.len() - off
    }
}

pub open spec fn sat_add(a: int, b: int) -> int {
    if a + b > u64::MAX {
        u64::MAX as int
    } else {
        a + b
    }
}

/// The size limit handed to a carver at `abs`: the configured maximum, cut at the end of
/// the scanned range.
pub open spec fn carve_budget(cfg: ScanConfig, total: int, abs: int) -> int {
    let left = if total > abs { total - abs } else { 0 };
    if cfg.max_file_size < left {
        cfg.max_file_size as int
    } else {
        left
    }
}

/// How the pass over one chunk ended.
pub enum ChunkEnd {
    LimitReached,
    Finished { counts: ScanCounts, jump: Option<u64> },
}

/// The pass over the `n` bytes read at `off`, from position `c` of the chunk: each position
/// that starts a signature, seen up to the end of the chunk, is carved.
#[verifier::opaque]
pub open spec fn chunk_pass(
    cfg: ScanConfig,
    scan_id: uuid::Uuid,
    d: Seq<u8>,
    failures: Seq<ReadFailure>,
    total: int,
    off: int,
    n: int,
    c: int,
    counts: ScanCounts,
) -> (Seq<ScanEvent>, ChunkEnd)
    decreases n - c,
{
    if c >= n {
        (Seq::empty(), ChunkEnd::Finished { counts, jump: None })
    } else {
        let abs = off + c;
        match detect(d.subrange(abs, off + n)) {
            None => chunk_pass(cfg, scan_id, d, failures, total, off, n, c + 1, counts),
            Some(format) => match spec_carve_at(
                d.subrange(0, failure_cut(failures, abs, d.len() as int)),
                abs,
                format,
                carve_budget(cfg, total, abs),
                cfg.allow_partial,
                failure_cut(failures, abs, d.len() as int) < d.len(),
            ) {
                None => chunk_pass(cfg, scan_id, d, failures, total, off, n, c + 1, counts),
                Some(carved) => {
                    if counts.found_count >= cfg.max_candidates {
                        (Seq::empty(), ChunkEnd::LimitReached)
                    } else {
                        let counts2 = recorded(counts, carved.status);
                        let ev = found_event(scan_id, format, abs, carved);
                        if cfg.skip_carved_ranges {
                            let step = if carved.length > 1 { carved.length as int } else { 1 };
                            (
                                seq![ev],
                                ChunkEnd::Finished {
                                    counts: counts2,
                                    jump: Some(sat_add(abs, step) as u64),
                                },
                            )
                        } else {
                            let rest = chunk_pass(cfg, scan_id, d, failures, total, off, n, c + 1, counts2);
                            (seq![ev] + rest.0, rest.1)
                        }
                    }
                }
            },
        }
    }
}

pub proof fn lemma_chunk_pass_jump(
    cfg: ScanConfig,
    scan_id: uuid::Uuid,
    d: Seq<u8>,
    failures: Seq<ReadFailure>,
    total: int,
    off: int,
    n: int,
    c: int,
    counts: ScanCounts,
)
    requires
        0 <= off,
        0 <= c,
        off + n <= total <= u64::MAX,
    ensures
        chunk_pass(cfg, scan_id, d, failures, total, off, n, c, counts).1 matches ChunkEnd::Finished {
            jump: Some(j),
            ..
        } ==> off < j,
    decreases n - c,
{
    reveal(chunk_pass);
    if c < n {
        lemma_chunk_pass_jump(cfg, scan_id, d, failures, total, off, n, c + 1, counts);
        let abs = off + c;
        match detect(d.subrange(abs, off + n)) {
            None => {},
            Some(format) => match spec_carve_at(
                d.subrange(0, failure_cut(failures, abs, d.len() as int)),
                abs,
                format,
                carve_budget(cfg, total, abs),
                cfg.allow_partial,
                failure_cut(failures, abs, d.len() as int) < d.len(),
            ) {
                None => {},
                Some(carved) => {
                    if counts.found_count < cfg.max_candidates {
                        let counts2 = recorded(counts, carved.status);
                        lemma_chunk_pass_jump(cfg, scan_id, d, failures, total, off, n, c + 1, counts2);
                    }
                },
            },
        }
    }
}

pub proof fn lemma_first_failure_in(failures: Seq<ReadFailure>, from: int, to: int)
    ensures
        first_failure(failures, from, to) matches Some(f) ==> from <= f.offset < to,
    decreases failures.len(),
{
    if failures.len() > 0 {
        lemma_first_failure_in(failures.subrange(1, failures.len() as int), from, to);
    }
}

/// How many bytes the chunk read at `off` asks for: at most `chunk`, never past `total`.
pub open spec fn chunk_wanted(total: int, off: int, chunk: int) -> int {
    if total - off < chunk {
        total - off
    } else {
        chunk
    }
}

/// The scan from offset `off`, with the tallies so far and the offset last reported: the
/// events it emits and how it ends, if it is not cancelled. Reading a chunk fails when one
/// of `failures` lies in it: a scan that tolerates read errors reports the failure, skips
/// the chunk and reports its progress; any other scan stops there. A carve sees the image
/// only up to the first failure at or after the candidate's offset.
pub open spec fn scan_from(
    cfg: ScanConfig,
    scan_id: uuid::Uuid,
    d: Seq<u8>,
    failures: Seq<ReadFailure>,
    total: int,
    off: int,
    counts: ScanCounts,
    last_reported: int,
) -> (Seq<ScanEvent>, Result<ScanSummary, ScanError>)
    decreases (if off < total { total - off } else { 0 }),
{
    let done = (
        Seq::empty(),
        Ok(
            ScanSummary {
                bytes_scanned: (if off < total { off } else { total }) as u64,
                counts,
                cancelled: false,
            },
        ),
    );
    if off >= total || off < 0 || total > u64::MAX {
        done
    } else {
        let wanted = chunk_wanted(total, off, cfg.chunk_size as int);
        match first_failure(failures, off, off + wanted) {
            Some(f) => {
                if cfg.tolerate_read_errors {
                    proof {
                        lemma_first_failure_in(failures, off, off + wanted);
                    }
                    let counts2 = with_read_error(counts);
                    let skipped = sat_add(off, cfg.chunk_size as int);
                    let next = if skipped < total { skipped } else { total };
                    let reported = seq![
                        ScanEvent::ReadError { offset: off as u64, message: f.message },
                        ScanEvent::Progress {
                            bytes_scanned: next as u64,
                            total_bytes: total as u64,
                            counts: counts2,
                        },
                    ];
                    let rest = scan_from(
                        cfg,
                        scan_id,
                        d,
                        failures,
                        total,
                        next,
                        counts2,
                        last_reported,
                    );
                    (reported + rest.0, rest.1)
                } else {
                    (Seq::empty(), Err(ScanError::Read { offset: off as u64, message: f.message }))
                }
            },
            None => {
                let n = chunk_read_len(d, total, off, cfg.chunk_size as int);
                if n <= 0 {
                    done
                } else {
                    let pass = chunk_pass(cfg, scan_id, d, failures, total, off, n, 0, counts);
                    match pass.1 {
                        ChunkEnd::LimitReached => (
                            pass.0,
                            Err(ScanError::CandidateLimit(cfg.max_candidates)),
                        ),
                        ChunkEnd::Finished { counts: counts2, jump } => {
                            proof {
                                lemma_chunk_pass_jump(cfg, scan_id, d, failures, total, off, n, 0, counts);
                            }
                            let next = match jump {
                                Some(j) => j as int,
                                None => sat_add(
                                    off,
                                    if n - SIGNATURE_OVERLAP > 1 {
                                        n - SIGNATURE_OVERLAP
                                    } else {
                                        1
                                    },
                                ),
                            };
                            let since = if next > last_reported {
                                next - last_reported
                            } else {
                                0
                            };
                            let report = since >= cfg.progress_interval || next >= total;
                            let progress = if report {
                                seq![
                                    ScanEvent::Progress {
                                        bytes_scanned: (if next < total { next } else { total }) as u64,
                                        total_bytes: total as u64,
                                        counts: counts2,
                                    },
                                ]
                            } else {
                                Seq::empty()
                            };
                            let rest = scan_from(
                                cfg,
                                scan_id,
                                d,
                                failures,
                                total,
                                next,
                                counts2,
                                if report {
                                    next
                                } else {
                                    last_reported
                                },
                            );
                            (pass.0 + progress + rest.0, rest.1)
                        },
                    }
                }
            },
        }
    }
}

/// The points at which the pass over a chunk asks whether to stop, from position `c` on:
/// before each position it examines. Each point is recorded as the number of events
/// reported before it, counting from `e0`, and the offset that the scan has reached there.
#[verifier::opaque]
pub open spec fn pass_polls(
    cfg: ScanConfig,
    scan_id: uuid::Uuid,
    d: Seq<u8>,
    failures: Seq<ReadFailure>,
    total: int,
    off: int,
    n: int,
    c: int,
    counts: ScanCounts,
    e0: int,
) -> Seq<(int, int)>
    decreases n - c,
{
    if c >= n {
        Seq::empty()
    } else {
        let abs = off + c;
        seq![(e0, abs)] + match detect(d.subrange(abs, off + n)) {
            None => pass_polls(cfg, scan_id, d, failures, total, off, n, c + 1, counts, e0),
            Some(format) => match spec_carve_at(
                d.subrange(0, failure_cut(failures, abs, d.len() as int)),
                abs,
                format,
                carve_budget(cfg, total, abs),
                cfg.allow_partial,
                failure_cut(failures, abs, d.len() as int) < d.len(),
            ) {
                None => pass_polls(cfg, scan_id, d, failures, total, off, n, c + 1, counts, e0),
                Some(carved) => {
                    if counts.found_count >= cfg.max_candidates || cfg.skip_carved_ranges {
                        Seq::empty()
                    } else {
                        let counts2 = recorded(counts, carved.status);
                        pass_polls(cfg, scan_id, d, failures, total, off, n, c + 1, counts2, e0 + 1)
                    }
                }
            },
        }
    }
}

/// The points at which the scan from offset `off` asks whether to stop: before each chunk,
/// and before each position of a chunk that it examines. Each point is recorded as the
/// number of events reported before it, counting from `e0`, and the offset reached there.
pub open spec fn scan_polls(
    cfg: ScanConfig,
    scan_id: uuid::Uuid,
    d: Seq<u8>,
    failures: Seq<ReadFailure>,
    total: int,
    off: int,
    counts: ScanCounts,
    last_reported: int,
    e0: int,
) -> Seq<(int, int)>
    decreases (if off < total { total - off } else { 0 }),
{
    if off >= total || off < 0 || total > u64::MAX {
        Seq::empty()
    } else {
        let wanted = chunk_wanted(total, off, cfg.chunk_size as int);
        seq![(e0, off)] + match first_failure(failures, off, off + wanted) {
            Some(f) => {
                if cfg.tolerate_read_errors {
                    proof {
                        lemma_first_failure_in(failures, off, off + wanted);
                    }
                    let skipped = sat_add(off, cfg.chunk_size as int);
                    let next = if skipped < total { skipped } else { total };
                    scan_polls(
                        cfg,
                        scan_id,
                        d,
                        failures,
                        total,
                        next,
                        with_read_error(counts),
                        last_reported,
                        e0 + 2,
                    )
                } else {
                    Seq::empty()
                }
            },
            None => {
                let n = chunk_read_len(d, total, off, cfg.chunk_size as int);
                if n <= 0 {
                    Seq::empty()
                } else {
                    let pass = chunk_pass(cfg, scan_id, d, failures, total, off, n, 0, counts);
                    let inner = pass_polls(cfg, scan_id, d, failures, total, off, n, 0, counts, e0);
                    match pass.1 {
                        ChunkEnd::LimitReached => inner,
                        ChunkEnd::Finished { counts: counts2, jump } => {
                            proof {
                                lemma_chunk_pass_jump(cfg, scan_id, d, failures, total, off, n, 0, counts);
                            }
                            let next = match jump {
                                Some(j) => j as int,
                                None => sat_add(
                                    off,
                                    if n - SIGNATURE_OVERLAP > 1 {
                                        n - SIGNATURE_OVERLAP
                                    } else {
                                        1
                                    },
                                ),
                            };
                            let since = if next > last_reported {
                                next - last_reported
                            } else {
                                0
                            };
                            let report = since >= cfg.progress_interval || next >= total;
                            inner + scan_polls(
                                cfg,
                                scan_id,
                                d,
                                failures,
                                total,
                                next,
                                counts2,
                                if report {
                                    next
                                } else {
                                    last_reported
                                },
                                e0 + pass.0.len() + (if report { 1int } else { 0int }),
                            )
                        },
                    }
                }
            },
        }
    }
}

/// What the answers `polls` that a scan received say of how it ended, given the points
/// `trace` at which the full scan asks: a scan that reports itself cancelled stopped at the
/// first `true` answer, at the point where it asked, with the events reported before that
/// point; any other scan asked at every point and was told `false` each time.
pub open spec fn polls_outcome(
    trace: Seq<(int, int)>,
    events_len: int,
    result: Result<ScanSummary, ScanError>,
    polls: Seq<bool>,
) -> bool {
    match result {
        Ok(s) if s.cancelled => {
            &&& 0 < polls.len() <= trace.len()
            &&& polls.last()
            &&& forall|i: int| 0 <= i < polls.len() - 1 ==> !#[trigger] polls[i]
            &&& trace[polls.len() - 1] == (events_len, s.bytes_scanned as int)
        },
        _ => polls.len() == trace.len() && forall|i: int| 0 <= i < polls.len() ==> !#[trigger] polls[i],
    }
}

/// A scan whose chunks are not empty, over an image that holds every byte of the range, ends
/// either with an error or with every byte of the range scanned.
pub proof fn lemma_scan_from_reaches_end(
    cfg: ScanConfig,
    scan_id: uuid::Uuid,
    d: Seq<u8>,
    failures: Seq<ReadFailure>,
    total: int,
    off: int,
    counts: ScanCounts,
    last_reported: int,
)
    requires
        0 <= off,
        cfg.chunk_size > 0,
        0 <= total <= d.len(),
        total <= u64::MAX,
    ensures
        scan_from(cfg, scan_id, d, failures, total, off, counts, last_reported).1 matches Ok(s) ==> s.bytes_scanned
            == total && !s.cancelled,
    decreases (if off < total { total - off } else { 0 }),
{
    if off < total {
        let wanted = chunk_wanted(total, off, cfg.chunk_size as int);
        match first_failure(failures, off, off + wanted) {
            Some(f) => {
                if cfg.tolerate_read_errors {
                    let skipped = sat_add(off, cfg.chunk_size as int);
                    let next = if skipped < total { skipped } else { total };
                    lemma_scan_from_reaches_end(
                        cfg,
                        scan_id,
                        d,
                        failures,
                        total,
                        next,
                        with_read_error(counts),
                        last_reported,
                    );
                }
            },
            None => {
                let n = chunk_read_len(d, total, off, cfg.chunk_size as int);
                let pass = chunk_pass(cfg, scan_id, d, failures, total, off, n, 0, counts);
                lemma_chunk_pass_jump(cfg, scan_id, d, failures, total, off, n, 0, counts);
                if let ChunkEnd::Finished { counts: counts2, jump } = pass.1 {
                    let next = match jump {
                        Some(j) => j as int,
                        None => sat_add(
                            off,
                            if n - SIGNATURE_OVERLAP > 1 {
                                n - SIGNATURE_OVERLAP
                            } else {
                                1
                            },
                        ),
                    };
                    let since = if next > last_reported {
                        next - last_reported
                    } else {
                        0
                    };
                    let report = since >= cfg.progress_interval || next >= total;
                    let lr2 = if report {
                        next
                    } else {
                        last_reported
                    };
                    lemma_scan_from_reaches_end(cfg, scan_id, d, failures, total, next, counts2, lr2);
                }
            },
        }
    }
}

/// `a` is a prefix of `b`.
pub open spec fn is_prefix(a: Seq<ScanEvent>, b: Seq<ScanEvent>) -> bool {
    a.len() <= b.len() && b.subrange(0, a.len() as int) == a
}

/// What `scan` promises of the events `events` and the result `result` it returns, once
/// the chunk size is valid: without cancellation, exactly the scan that `scan_from`
/// describes; when cancelled, a prefix of its events, and a stop before the end.
pub open spec fn scan_outcome(
    cfg: ScanConfig,
    scan_id: uuid::Uuid,
    d: Seq<u8>,
    failures: Seq<ReadFailure>,
    total: int,
    events: Seq<ScanEvent>,
    result: Result<ScanSummary, ScanError>,
) -> bool {
    let full = scan_from(cfg, scan_id, d, failures, total, 0, zero_counts(), 0);
    match result {
        Ok(summary) => if summary.cancelled {
            is_prefix(shapes(events), full.0) && summary.bytes_scanned < total
        } else {
            shapes(events) == full.0 && result == full.1
        },
        Err(e) => shapes(events) == full.0 && result == full.1,
    }
}

proof fn lemma_shapes_len(v: Seq<ScanEvent>)
    ensures
        shapes(v).len() == v.len(),
{
}

/// The events of the scan from a chunk start with those of the pass over that chunk.
proof fn lemma_scan_from_starts_with_pass(
    cfg: ScanConfig,
    scan_id: uuid::Uuid,
    d: Seq<u8>,
    failures: Seq<ReadFailure>,
    total: int,
    off: int,
    counts: ScanCounts,
    last_reported: int,
)
    requires
        0 <= off < total <= u64::MAX,
        first_failure(failures, off, off + chunk_wanted(total, off, cfg.chunk_size as int)) is None,
        chunk_read_len(d, total, off, cfg.chunk_size as int) > 0,
    ensures
        is_prefix(
            chunk_pass(
                cfg,
                scan_id,
                d,
                failures,
                total,
                off,
                chunk_read_len(d, total, off, cfg.chunk_size as int),
                0,
                counts,
            ).0,
            scan_from(cfg, scan_id, d, failures, total, off, counts, last_reported).0,
        ),
{
    let n = chunk_read_len(d, total, off, cfg.chunk_size as int);
    let pass = chunk_pass(cfg, scan_id, d, failures, total, off, n, 0, counts);
    let r = scan_from(cfg, scan_id, d, failures, total, off, counts, last_reported);
    assert(r.0.subrange(0, pass.0.len() as int) =~= pass.0);
}

proof fn lemma_shapes_push(v: Seq<ScanEvent>, e: ScanEvent)
    ensures
        shapes(v.push(e)) == shapes(v).push(without_id(e)),
{
    assert(shapes(v.push(e)) =~= shapes(v).push(without_id(e)));
}

/// `Uuid::new_v4`: a fresh random identifier. Its value rests on chance, so nothing is
/// stated of it.
#[verifier::external_body]
fn new_candidate_id() -> uuid::Uuid {
    uuid::Uuid::new_v4()
}

/// Scans a volume image for image signatures.
pub struct SignatureScanner {
    scan_id: uuid::Uuid,
    config: ScanConfig,
}

impl SignatureScanner {
    pub closed spec fn id_view(self) -> uuid::Uuid {
        self.scan_id
    }

    pub closed spec fn config_view(self) -> ScanConfig {
        self.config
    }

    pub fn new(scan_id: uuid::Uuid, config: ScanConfig) -> (r: Self)
        ensures
            r.id_view() == scan_id,
            r.config_view() == config,
    {
        SignatureScanner { scan_id, config }
    }

    /// The pass over the `bytes_read` bytes at `scan_offset`, asking `is_cancelled` before
    /// each byte; events go to `events`, tallies to `counts`.
    fn scan_chunk<C: Fn() -> bool>(
        &self,
        data: &[u8],
        read_failures: &[ReadFailure],
        total_bytes: u64,
        scan_offset: u64,
        bytes_read: u64,
        counts: &mut ScanCounts,
        events: &mut Vec<ScanEvent>,
        polls: &mut Vec<bool>,
        is_cancelled: &C,
    ) -> (r: ChunkStop)
        requires
            is_cancelled.requires(()),
            data@.len() == data.len(),
            scan_offset < total_bytes,
            0 < bytes_read <= total_bytes - scan_offset,
            scan_offset + bytes_read <= data@.len(),
            counts_within(*old(counts), self.config.max_candidates as int),
        ensures
            counts_within(*final(counts), self.config.max_candidates as int),
            shapes(final(events)@).subrange(0, old(events)@.len() as int) == shapes(old(events)@),
            old(events)@.len() <= final(events)@.len(),
            final(events)@.subrange(0, old(events)@.len() as int) == old(events)@,
            forall|i: int|
                old(events)@.len() <= i < final(events)@.len() ==> #[trigger] final(events)@[i] is Candidate,
            candidates_within(self.config, total_bytes as int, old(events)@) ==> candidates_within(
                self.config,
                total_bytes as int,
                final(events)@,
            ),
            *final(counts) == tally(
                final(events)@.subrange(old(events)@.len() as int, final(events)@.len() as int),
                *old(counts),
            ),
            final(counts).read_error_count == old(counts).read_error_count,
            forall|i: int|
                old(events)@.len() <= i < final(events)@.len() ==> (#[trigger] final(events)@[i])->Candidate_0.offset
                    >= scan_offset,
            self.config.skip_carved_ranges ==> match r {
                ChunkStop::Done(Some(j)) => final(events)@.len() == old(events)@.len() + 1
                    && final(events)@.last()->Candidate_0.offset
                    + final(events)@.last()->Candidate_0.estimated_size == j,
                _ => final(events)@.len() == old(events)@.len(),
            },
            ({
                let pass = chunk_pass(
                    self.config,
                    self.scan_id,
                    data@,
                    read_failures@,
                    total_bytes as int,
                    scan_offset as int,
                    bytes_read as int,
                    0,
                    *old(counts),
                );
                let added = shapes(final(events)@).subrange(
                    old(events)@.len() as int,
                    final(events)@.len() as int,
                );
                let trace = pass_polls(
                    self.config,
                    self.scan_id,
                    data@,
                    read_failures@,
                    total_bytes as int,
                    scan_offset as int,
                    bytes_read as int,
                    0,
                    *old(counts),
                    old(events)@.len() as int,
                );
                let k = final(polls)@.len() - old(polls)@.len();
                &&& old(polls)@.len() <= final(polls)@.len()
                &&& final(polls)@.subrange(0, old(polls)@.len() as int) == old(polls)@
                &&& forall|i: int|
                    old(polls)@.len() <= i < final(polls)@.len() ==> is_cancelled.ensures(
                        (),
                        #[trigger] final(polls)@[i],
                    )
                &&& match r {
                    ChunkStop::Cancelled(_) => 0 < k <= trace.len() && final(polls)@.last() && (forall|i: int|
                        old(polls)@.len() <= i < final(polls)@.len() - 1 ==> !#[trigger] final(polls)@[i]),
                    _ => k == trace.len() && (forall|i: int|
                        old(polls)@.len() <= i < final(polls)@.len() ==> !#[trigger] final(polls)@[i]),
                }
                &&& match r {
                    ChunkStop::Cancelled(cursor) => trace[k - 1] == (
                        final(events)@.len() as int,
                        scan_offset + cursor,
                    ),
                    _ => true,
                }
                &&& match r {
                    ChunkStop::Cancelled(cursor) => cursor < bytes_read && is_prefix(added, pass.0)
                        && is_cancelled.ensures((), true),
                    ChunkStop::Limit => pass.1 == ChunkEnd::LimitReached && added == pass.0,
                    ChunkStop::Done(jump) => pass.1 == (ChunkEnd::Finished {
                        counts: *final(counts),
                        jump,
                    }) && added == pass.0,
                }
            }),
    {
        reveal(chunk_pass);
        let ghost cfg = self.config;
        let ghost id = self.scan_id;
        let ghost total = total_bytes as int;
        let ghost n = bytes_read as int;
        let ghost counts0 = *counts;
        let ghost events0 = events@;
        let ghost pass = chunk_pass(cfg, id, data@, read_failures@, total, scan_offset as int, n, 0, counts0);
        let ghost polls0 = polls@;
        let ghost trace = pass_polls(
            cfg,
            id,
            data@,
            read_failures@,
            total,
            scan_offset as int,
            n,
            0,
            counts0,
            events0.len() as int,
        );
        let ghost mut chunk_events: Seq<ScanEvent> = Seq::empty();
        let mut cursor: u64 = 0;
        let mut jump: Option<u64> = None;
        assert(shapes(events@) =~= shapes(events0) + chunk_events);
        while cursor < bytes_read && jump.is_none()
            invariant
                is_cancelled.requires(()),
                cfg == self.config,
                id == self.scan_id,
                total == total_bytes,
                data@.len() == data.len(),
                scan_offset < total_bytes,
                0 < bytes_read <= total_bytes - scan_offset,
                scan_offset + bytes_read <= data@.len(),
                n == bytes_read,
                cursor <= bytes_read,
                counts_within(*counts, cfg.max_candidates as int),
                pass == chunk_pass(cfg, id, data@, read_failures@, total, scan_offset as int, n, 0, counts0),
                shapes(events@) == shapes(events0) + chunk_events,
                events0 == old(events)@,
                counts0 == *old(counts),
                events0.len() <= events@.len(),
                events@.subrange(0, events0.len() as int) == events0,
                forall|i: int| events0.len() <= i < events@.len() ==> #[trigger] events@[i] is Candidate,
                candidates_within(cfg, total, events0) ==> candidates_within(cfg, total, events@),
                *counts == tally(events@.subrange(events0.len() as int, events@.len() as int), counts0),
                counts.read_error_count == counts0.read_error_count,
                jump is None ==> pass.0 == chunk_events + chunk_pass(
                    cfg,
                    id,
                    data@,
                    read_failures@,
                    total,
                    scan_offset as int,
                    n,
                    cursor as int,
                    *counts,
                ).0,
                jump is None ==> pass.1 == chunk_pass(
                    cfg,
                    id,
                    data@,
                    read_failures@,
                    total,
                    scan_offset as int,
                    n,
                    cursor as int,
                    *counts,
                ).1,
                jump is Some ==> pass.0 == chunk_events,
                jump is Some ==> pass.1 == (ChunkEnd::Finished { counts: *counts, jump }),
                forall|i: int|
                    events0.len() <= i < events@.len() ==> (#[trigger] events@[i])->Candidate_0.offset
                        >= scan_offset,
                cfg.skip_carved_ranges && jump is None ==> events@.len() == events0.len(),
                cfg.skip_carved_ranges ==> (jump matches Some(j) ==> events@.len() == events0.len() + 1
                    && events@.last()->Candidate_0.offset + events@.last()->Candidate_0.estimated_size
                    == j),
                polls0 == old(polls)@,
                trace == pass_polls(
                    cfg,
                    id,
                    data@,
                    read_failures@,
                    total,
                    scan_offset as int,
                    n,
                    0,
                    counts0,
                    events0.len() as int,
                ),
                polls0.len() <= polls@.len(),
                polls@.subrange(0, polls0.len() as int) == polls0,
                forall|i: int|
                    polls0.len() <= i < polls@.len() ==> !#[trigger] polls@[i] && is_cancelled.ensures(
                        (),
                        polls@[i],
                    ),
                polls@.len() - polls0.len() <= trace.len(),
                jump is None ==> trace.subrange(polls@.len() - polls0.len(), trace.len() as int)
                    == pass_polls(
                    cfg,
                    id,
                    data@,
                    read_failures@,
                    total,
                    scan_offset as int,
                    n,
                    cursor as int,
                    *counts,
                    events@.len() as int,
                ),
                jump is Some ==> polls@.len() - polls0.len() == trace.len(),
            decreases bytes_read - cursor + (if jump is None { 1int } else { 0int }),
        {
            reveal(pass_polls);
            let ghost polls_before = polls@;
            let stop = is_cancelled();
            polls.push(stop);
            proof {
                let k = polls_before.len() - polls0.len();
                assert(trace.subrange(k, trace.len() as int)[0] == (events@.len() as int, scan_offset + cursor));
                assert(trace[k] == (events@.len() as int, scan_offset + cursor));
                assert(polls@.subrange(0, polls0.len() as int) =~= polls0);
                assert(trace.subrange(k + 1, trace.len() as int) =~= trace.subrange(k, trace.len() as int).subrange(1, trace.len() - k));
            }
            if stop {
                proof {
                    lemma_shapes_len(events@);
                    lemma_shapes_len(events0);
                    assert(shapes(events@).subrange(0, events0.len() as int) =~= shapes(events0));
                    assert(shapes(events@).subrange(events0.len() as int, events@.len() as int)
                        =~= chunk_events);
                    assert(pass.0.subrange(0, chunk_events.len() as int) =~= chunk_events);
                    assert(jump is None);
                    assert(is_prefix(chunk_events, pass.0));
                }
                return ChunkStop::Cancelled(cursor);
            }
            reveal(chunk_pass);
            let ghost c = cursor as int;
            let absolute_offset = scan_offset + cursor;
            let chunk_end = scan_offset + bytes_read;
            let found = detect_format_in(data, absolute_offset as usize, chunk_end as usize);
            let left = total_bytes - absolute_offset;
            let budget = if self.config.max_file_size < left {
                self.config.max_file_size
            } else {
                left
            };
            let carved = match found {
                Some(format) => {
                    let cut = failure_cut_in(read_failures, absolute_offset, data.len() as u64);
                    carve_at(
                        &data[0..cut as usize],
                        absolute_offset,
                        format,
                        budget,
                        self.config.allow_partial,
                        cut < data.len() as u64,
                    )
                },
                None => None,
            };
            match (found, carved) {
                (Some(format), Some(carved)) => {
                    if counts.found_count >= self.config.max_candidates {
                        proof {
                            assert(detect(data@.subrange(absolute_offset as int, chunk_end as int)) == Some(format));
                            assert(carve_budget(cfg, total, absolute_offset as int) == budget as int);
                            assert(chunk_pass(cfg, id, data@, read_failures@, total, scan_offset as int, n, c, *counts).1 == ChunkEnd::LimitReached);
                            assert(chunk_pass(cfg, id, data@, read_failures@, total, scan_offset as int, n, c, *counts).0 =~= Seq::<ScanEvent>::empty());
                            lemma_shapes_len(events@);
                            lemma_shapes_len(events0);
                            assert(shapes(events@).subrange(0, events0.len() as int) =~= shapes(events0));
                            assert(shapes(events@).subrange(events0.len() as int, events@.len() as int)
                                =~= chunk_events);
                            assert(pass.0 =~= chunk_events);
                        }
                        return ChunkStop::Limit;
                    }
                    let ghost before = events@;
                    let ghost counts_before = *counts;
                    counts.record_candidate(carved.status);
                    let candidate = RecoveryCandidate {
                        id: new_candidate_id(),
                        scan_id: self.scan_id,
                        format,
                        offset: absolute_offset,
                        estimated_size: carved.length,
                        confidence: carved.confidence,
                        status: carved.status,
                        possible_original_name: None,
                        recovered_path: None,
                    };
                    let ghost ev = found_event(id, format, absolute_offset as int, carved);
                    proof {
                        lemma_shapes_push(events@, ScanEvent::Candidate(candidate));
                        assert(without_id(ScanEvent::Candidate(candidate)) == ev);
                        chunk_events = chunk_events.push(ev);
                    }
                    events.push(ScanEvent::Candidate(candidate));
                    proof {
                        let sub0 = before.subrange(events0.len() as int, before.len() as int);
                        assert(events@.subrange(events0.len() as int, events@.len() as int)
                            =~= sub0.push(ScanEvent::Candidate(candidate)));
                        lemma_tally_push(sub0, ScanEvent::Candidate(candidate), counts0);
                        assert(events@.subrange(0, events0.len() as int) =~= before.subrange(
                            0,
                            events0.len() as int,
                        ));
                        if candidates_within(cfg, total, events0) {
                            assert(candidate_within(cfg, total, candidate));
                            assert forall|i: int| 0 <= i < events@.len() && #[trigger] events@[i] is Candidate
                                implies candidate_within(cfg, total, events@[i]->Candidate_0) by {
                                if i < before.len() {
                                    assert(events@[i] == before[i]);
                                }
                            }
                        }
                    }
                    if self.config.skip_carved_ranges {
                        let step = if carved.length > 1 {
                            carved.length
                        } else {
                            1
                        };
                        jump = Some(absolute_offset.saturating_add(step));
                        proof {
                            assert(pass.0 =~= chunk_events);
                        }
                    } else {
                        proof {
                            assert(pass.0 =~= chunk_events + chunk_pass(
                                cfg,
                                id,
                                data@,
                                read_failures@,
                                total,
                                scan_offset as int,
                                n,
                                c + 1,
                                *counts,
                            ).0);
                        }
                        cursor = cursor + 1;
                    }
                },
                _ => {
                    cursor = cursor + 1;
                },
            }
        }
        proof {
            assert(shapes(events@).subrange(0, events0.len() as int) =~= shapes(events0));
            assert(shapes(events@).subrange(events0.len() as int, events@.len() as int)
                =~= chunk_events);
            reveal(pass_polls);
            if jump is None {
                assert(trace.subrange(polls@.len() - polls0.len(), trace.len() as int).len() == 0);
            }
        }
        ChunkStop::Done(jump)
    }

    /// Scans the first `total_bytes` bytes of `data`, the image of the volume, on which the
    /// read of a chunk fails when it covers one of `read_failures`; asks `is_cancelled`
    /// before each chunk and each position it examines. Returns the events in the order they
    /// occurred, how the scan ended, and the answers `is_cancelled` gave, in order. The
    /// scan asks at every point that `scan_polls` lists until an answer is `true`, and stops
    /// there; when no answer is `true`, the scan is exactly the walk that `scan_from`
    /// describes.
    #[verifier::rlimit(100)]
    #[verifier::spinoff_prover]
    pub fn scan<C: Fn() -> bool>(
        &self,
        data: &[u8],
        read_failures: &[ReadFailure],
        total_bytes: u64,
        is_cancelled: C,
    ) -> (r: (
        Vec<ScanEvent>,
        Result<ScanSummary, ScanError>,
        Vec<bool>,
    ))
        requires
            is_cancelled.requires(()),
        ensures
            self.config_view().chunk_size <= 2 * SIGNATURE_OVERLAP ==> r.0@.len() == 0
                && r.1 matches Err(ScanError::InvalidChunkSize),
            self.config_view().chunk_size > 2 * SIGNATURE_OVERLAP ==> scan_outcome(
                self.config_view(),
                self.id_view(),
                data@,
                read_failures@,
                total_bytes as int,
                r.0@,
                r.1,
            ),
            r.1 matches Ok(summary) ==> summary.counts == tally(r.0@, zero_counts()),
            r.1 matches Ok(summary) ==> (summary.cancelled ==> is_cancelled.ensures((), true)),
            self.config_view().chunk_size > 2 * SIGNATURE_OVERLAP && total_bytes > 0 && (forall|b: bool|
                is_cancelled.ensures((), b) ==> b) ==> r.0@.len() == 0 && r.1 == Ok::<
                ScanSummary,
                ScanError,
            >(ScanSummary { bytes_scanned: 0, counts: zero_counts(), cancelled: true }),
            self.config_view().chunk_size > 2 * SIGNATURE_OVERLAP && (forall|b: bool|
                is_cancelled.ensures((), b) ==> !b) ==> ({
                let full = scan_from(
                    self.config_view(),
                    self.id_view(),
                    data@,
                    read_failures@,
                    total_bytes as int,
                    0,
                    zero_counts(),
                    0,
                );
                shapes(r.0@) == full.0 && r.1 == full.1
            }),
            progress_matches_tally(r.0@),
            candidates_within(self.config_view(), total_bytes as int, r.0@),
            total_bytes <= data@.len() && self.config_view().chunk_size > 2 * SIGNATURE_OVERLAP ==> (
            r.1 matches Ok(s) ==> (!s.cancelled ==> s.bytes_scanned == total_bytes)),
            forall|i: int| 0 <= i < r.2@.len() ==> is_cancelled.ensures((), #[trigger] r.2@[i]),
            self.config_view().skip_carved_ranges ==> candidates_disjoint(r.0@),
            self.config_view().chunk_size > 2 * SIGNATURE_OVERLAP ==> polls_outcome(
                scan_polls(
                    self.config_view(),
                    self.id_view(),
                    data@,
                    read_failures@,
                    total_bytes as int,
                    0,
                    zero_counts(),
                    0,
                    0,
                ),
                r.0@.len() as int,
                r.1,
                r.2@,
            ),
    {
        proof {
            lemma_image_len(data);
        }
        if self.config.chunk_size as u64 <= 2 * SIGNATURE_OVERLAP {
            proof {
                lemma_no_candidates_yet(Seq::<ScanEvent>::empty(), 0, 0);
            }
            return (Vec::new(), Err(ScanError::InvalidChunkSize), Vec::new());
        }
        let ghost cfg = self.config;
        let ghost id = self.scan_id;
        let ghost total = total_bytes as int;
        let ghost full = scan_from(cfg, id, data@, read_failures@, total, 0, zero_counts(), 0);
        proof {
            if total <= data@.len() {
                lemma_scan_from_reaches_end(cfg, id, data@, read_failures@, total, 0, zero_counts(), 0);
            }
        }
        let ghost all_polls = scan_polls(cfg, id, data@, read_failures@, total, 0, zero_counts(), 0, 0);
        let mut polls: Vec<bool> = Vec::new();
        let mut events: Vec<ScanEvent> = Vec::new();
        let mut scan_offset: u64 = 0;
        let mut counts = ScanCounts::default();
        let mut last_reported: u64 = 0;
        assert(shapes(events@) =~= Seq::<ScanEvent>::empty());
        proof {
            lemma_no_candidates_yet(events@, 0, 0);
        }
        while scan_offset < total_bytes
            invariant
                is_cancelled.requires(()),
                cfg == self.config,
                id == self.scan_id,
                total == total_bytes,
                data@.len() == data.len(),
                cfg.chunk_size > 2 * SIGNATURE_OVERLAP,
                full == scan_from(cfg, id, data@, read_failures@, total, 0, zero_counts(), 0),
                counts_within(counts, cfg.max_candidates as int),
                counts == tally(events@, zero_counts()),
                counts.read_error_count <= events@.len(),
                (forall|b: bool| is_cancelled.ensures((), b) ==> b) ==> events@.len() == 0 && scan_offset
                    == 0 && counts == zero_counts(),
                progress_matches_tally(events@),
                candidates_within(cfg, total, events@),
                cfg.skip_carved_ranges ==> candidates_disjoint(events@) && candidates_end_by(
                    events@,
                    scan_offset as int,
                ),
                all_polls == scan_polls(cfg, id, data@, read_failures@, total, 0, zero_counts(), 0, 0),
                polls@.len() <= all_polls.len(),
                all_polls.subrange(polls@.len() as int, all_polls.len() as int) == scan_polls(
                    cfg,
                    id,
                    data@,
                    read_failures@,
                    total,
                    scan_offset as int,
                    counts,
                    last_reported as int,
                    events@.len() as int,
                ),
                forall|i: int|
                    0 <= i < polls@.len() ==> !#[trigger] polls@[i] && is_cancelled.ensures((), polls@[i]),
                full.0 == shapes(events@) + scan_from(
                    cfg,
                    id,
                    data@,
                    read_failures@,
                    total,
                    scan_offset as int,
                    counts,
                    last_reported as int,
                ).0,
                full.1 == scan_from(
                    cfg,
                    id,
                    data@,
                    read_failures@,
                    total,
                    scan_offset as int,
                    counts,
                    last_reported as int,
                ).1,
            decreases (if scan_offset < total_bytes { total_bytes - scan_offset } else { 0 }),
        {
            let ghost rest_here = scan_from(
                cfg,
                id,
                data@,
                read_failures@,
                total,
                scan_offset as int,
                counts,
                last_reported as int,
            );
            let ghost polls_here = scan_polls(
                cfg,
                id,
                data@,
                read_failures@,
                total,
                scan_offset as int,
                counts,
                last_reported as int,
                events@.len() as int,
            );
            let ghost p0 = polls@.len() as int;
            let stop = is_cancelled();
            polls.push(stop);
            proof {
                assert(polls_here.len() > 0);
                assert(polls_here[0] == (events@.len() as int, scan_offset as int));
                assert(all_polls.subrange(p0, all_polls.len() as int)[0] == polls_here[0]);
                assert(all_polls[p0] == (events@.len() as int, scan_offset as int));
            }
            if stop {
                proof {
                    assert(full.0.subrange(0, shapes(events@).len() as int) =~= shapes(events@));
                }
                return (
                    events,
                    Ok(ScanSummary { bytes_scanned: scan_offset, counts, cancelled: true }),
                    polls,
                );
            }
            let chunk = self.config.chunk_size as u64;
            let wanted = if total_bytes - scan_offset < chunk {
                total_bytes - scan_offset
            } else {
                chunk
            };
            let failure = read_failure_in(read_failures, scan_offset, scan_offset + wanted);
            if let Some(failure) = failure {
                if !self.config.tolerate_read_errors {
                    proof {
                        assert(full.0 =~= shapes(events@));
                    }
                    return (
                        events,
                        Err(ScanError::Read { offset: scan_offset, message: failure.message }),
                        polls,
                    );
                }
                let ghost before = events@;
                let ghost counts_before = counts;
                let ghost offset_before = scan_offset;
                let error_event = ScanEvent::ReadError { offset: scan_offset, message: failure.message };
                proof {
                    lemma_shapes_push(before, error_event);
                    lemma_tally_push(before, error_event, zero_counts());
                }
                events.push(error_event);
                let event_count = events.len();
                counts.read_error_count = counts.read_error_count + 1;
                let skipped = scan_offset.saturating_add(chunk);
                scan_offset = if skipped < total_bytes {
                    skipped
                } else {
                    total_bytes
                };
                let progress = ScanEvent::Progress { bytes_scanned: scan_offset, total_bytes, counts };
                let ghost middle = events@;
                proof {
                    lemma_shapes_push(middle, progress);
                    lemma_tally_push(middle, progress, zero_counts());
                }
                events.push(progress);
                proof {
                    lemma_push_report(cfg, total, before, error_event);
                    lemma_push_report(cfg, total, middle, progress);
                    lemma_push_other(before, error_event, offset_before as int, offset_before as int);
                    lemma_push_other(middle, progress, offset_before as int, scan_offset as int);
                    let rest = scan_from(
                        cfg,
                        id,
                        data@,
                        read_failures@,
                        total,
                        scan_offset as int,
                        counts,
                        last_reported as int,
                    );
                    assert(rest_here.1 == rest.1);
                    assert(full.0 =~= shapes(events@) + rest.0);
                    assert(all_polls.subrange(polls@.len() as int, all_polls.len() as int) =~= all_polls.subrange(
                        p0,
                        all_polls.len() as int,
                    ).subrange(1, all_polls.len() - p0));
                }
                continue;
            }
            let len = data.len() as u64;
            let bytes_read = if scan_offset >= len {
                0
            } else if wanted < len - scan_offset {
                wanted
            } else {
                len - scan_offset
            };
            if bytes_read == 0 {
                proof {
                    assert(full.0 =~= shapes(events@));
                }
                return (
                    events,
                    Ok(ScanSummary { bytes_scanned: scan_offset, counts, cancelled: false }),
                    polls,
                );
            }
            let ghost n = bytes_read as int;
            let ghost counts0 = counts;
            let ghost events0 = events@;
            let ghost scan_offset_before = scan_offset;
            let ghost last_reported_before = last_reported;
            let ghost pass = chunk_pass(cfg, id, data@, read_failures@, total, scan_offset as int, n, 0, counts0);
            proof {
                lemma_chunk_pass_jump(cfg, id, data@, read_failures@, total, scan_offset as int, n, 0, counts0);
            }
            let ghost polls_pre = polls@;
            let ghost inner = pass_polls(
                cfg,
                id,
                data@,
                read_failures@,
                total,
                scan_offset as int,
                n,
                0,
                counts0,
                events0.len() as int,
            );
            proof {
                assert(polls_pre.len() == p0 + 1);
                match pass.1 {
                    ChunkEnd::LimitReached => {
                        assert(polls_here =~= seq![(events0.len() as int, scan_offset as int)] + inner);
                    },
                    ChunkEnd::Finished { .. } => {
                        assert(polls_here.subrange(0, 1 + inner.len() as int) =~= seq![(events0.len() as int, scan_offset as int)] + inner);
                    },
                }
                assert(polls_here.subrange(1, 1 + inner.len() as int) =~= inner);
            }
            let stop = self.scan_chunk(
                data,
                read_failures,
                total_bytes,
                scan_offset,
                bytes_read,
                &mut counts,
                &mut events,
                &mut polls,
                &is_cancelled,
            );
            let ghost added = shapes(events@).subrange(events0.len() as int, events@.len() as int);
            proof {
                assert forall|i: int| 0 <= i < polls@.len() implies is_cancelled.ensures((), #[trigger] polls@[i]) by {
                    if i < polls_pre.len() {
                        assert(polls@[i] == polls_pre[i]);
                    }
                }
                assert forall|i: int| 0 <= i < polls_pre.len() implies !#[trigger] polls@[i] by {
                    assert(polls@[i] == polls_pre[i]);
                }
                let kk = polls@.len() - polls_pre.len();
                assert forall|j: int| 0 <= j < kk implies all_polls[p0 + 1 + j] == inner[j] by {
                    assert(all_polls.subrange(p0, all_polls.len() as int)[1 + j] == polls_here[1 + j]);
                    assert(polls_here.subrange(1, 1 + inner.len() as int)[j] == inner[j]);
                }
                assert(shapes(events@) =~= shapes(events0) + added);
                let raw_added = events@.subrange(events0.len() as int, events@.len() as int);
                assert(events@ =~= events0 + raw_added);
                lemma_tally_append(events0, raw_added, zero_counts());
                lemma_append_candidates(events0, events@);
            }
            match stop {
                ChunkStop::Cancelled(cursor) => {
                    proof {
                        lemma_scan_from_starts_with_pass(
                            cfg,
                            id,
                            data@,
                            read_failures@,
                            total,
                            scan_offset as int,
                            counts0,
                            last_reported as int,
                        );
                        lemma_prefix_chain(shapes(events0), added, pass.0, rest_here.0, full.0);
                    }
                    return (
                        events,
                        Ok(
                            ScanSummary {
                                bytes_scanned: scan_offset + cursor,
                                counts,
                                cancelled: true,
                            },
                        ),
                        polls,
                    );
                },
                ChunkStop::Limit => {
                    proof {
                        assert(full.0 =~= shapes(events@));
                    }
                    return (
                        events,
                        Err(ScanError::CandidateLimit(self.config.max_candidates)),
                        polls,
                    );
                },
                ChunkStop::Done(jump) => {
                    match jump {
                        Some(j) => {
                            scan_offset = j;
                        },
                        None => {
                            let advance = if bytes_read > SIGNATURE_OVERLAP && bytes_read
                                - SIGNATURE_OVERLAP > 1 {
                                bytes_read - SIGNATURE_OVERLAP
                            } else {
                                1
                            };
                            scan_offset = scan_offset.saturating_add(advance);
                        },
                    }
                    proof {
                        if cfg.skip_carved_ranges {
                            lemma_chunk_keeps_disjoint(
                                events0,
                                events@,
                                scan_offset_before as int,
                                scan_offset as int,
                                jump,
                            );
                        }
                    }
                    if scan_offset.saturating_sub(last_reported) >= self.config.progress_interval
                        || scan_offset >= total_bytes {
                        last_reported = scan_offset;
                        let shown = if scan_offset < total_bytes {
                            scan_offset
                        } else {
                            total_bytes
                        };
                        let progress = ScanEvent::Progress {
                            bytes_scanned: shown,
                            total_bytes,
                            counts,
                        };
                        let ghost before = events@;
                        proof {
                            lemma_shapes_push(events@, progress);
                            lemma_tally_push(before, progress, zero_counts());
                        }
                        events.push(progress);
                        proof {
                            lemma_push_report(cfg, total, before, progress);
                            lemma_push_other(before, progress, scan_offset as int, scan_offset as int);
                        }
                    }
                    proof {
                        let rest = scan_from(
                            cfg,
                            id,
                            data@,
                            read_failures@,
                            total,
                            scan_offset as int,
                            counts,
                            last_reported as int,
                        );
                        assert(rest_here.1 == rest.1);
                        assert(full.0 =~= shapes(events@) + rest.0);
                        lemma_shapes_len(events@);
                        lemma_shapes_len(events0);
                        let after = scan_polls(
                            cfg,
                            id,
                            data@,
                            read_failures@,
                            total,
                            scan_offset as int,
                            counts,
                            last_reported as int,
                            events@.len() as int,
                        );
                        assert(polls_here =~= seq![(events0.len() as int, scan_offset_before as int)] + inner + after);
                        assert(all_polls.subrange(polls@.len() as int, all_polls.len() as int) =~= after) by {
                            assert(all_polls.subrange(polls@.len() as int, all_polls.len() as int)
                                =~= all_polls.subrange(p0, all_polls.len() as int).subrange(
                                1 + inner.len() as int,
                                all_polls.len() - p0,
                            ));
                        }
                    }
                },
            }
        }
        proof {
            assert(full.0 =~= shapes(events@));
        }
        (
            events,
            Ok(
                ScanSummary {
                    bytes_scanned: if scan_offset < total_bytes {
                        scan_offset
                    } else {
                        total_bytes
                    },
                    counts,
                    cancelled: false,
                },
            ),
            polls,
        )
    }
}

/// Every candidate among `events` ends at or before `bound`.
#[verifier::opaque]
pub open spec fn candidates_end_by(events: Seq<ScanEvent>, bound: int) -> bool {
    forall|i: int|
        0 <= i < events.len() && #[trigger] events[i] is Candidate ==> events[i]->Candidate_0.offset
            + events[i]->Candidate_0.estimated_size <= bound
}

/// The candidates among `events` do not overlap: each starts at or after the end of every
/// candidate reported before it.
#[verifier::opaque]
pub open spec fn candidates_disjoint(events: Seq<ScanEvent>) -> bool {
    forall|i: int, j: int|
        #![trigger events[i], events[j]]
        0 <= i < j < events.len() && events[i] is Candidate && events[j] is Candidate
            ==> events[i]->Candidate_0.offset + events[i]->Candidate_0.estimated_size
            <= events[j]->Candidate_0.offset
}

proof fn lemma_push_other(events: Seq<ScanEvent>, e: ScanEvent, bound: int, bound2: int)
    requires
        !(e is Candidate),
        bound <= bound2,
    ensures
        candidates_disjoint(events) ==> candidates_disjoint(events.push(e)),
        candidates_end_by(events, bound) ==> candidates_end_by(events.push(e), bound2),
{
    reveal(candidates_disjoint);
    reveal(candidates_end_by);
    let after = events.push(e);
    assert forall|i: int| 0 <= i < events.len() implies after[i] == events[i] by {}
}

proof fn lemma_no_candidates_yet(events: Seq<ScanEvent>, bound: int, bound2: int)
    requires
        bound <= bound2,
    ensures
        events.len() == 0 ==> candidates_disjoint(events) && candidates_end_by(events, bound),
        candidates_end_by(events, bound) ==> candidates_end_by(events, bound2),
{
    reveal(candidates_disjoint);
    reveal(candidates_end_by);
}

proof fn lemma_push_candidate(events: Seq<ScanEvent>, e: ScanEvent, bound: int)
    requires
        candidates_disjoint(events),
        candidates_end_by(events, bound),
        e is Candidate,
        e->Candidate_0.offset >= bound,
    ensures
        candidates_disjoint(events.push(e)),
        candidates_end_by(events.push(e), e->Candidate_0.offset + e->Candidate_0.estimated_size),
{
    reveal(candidates_disjoint);
    reveal(candidates_end_by);
    let after = events.push(e);
    assert forall|i: int| 0 <= i < events.len() implies after[i] == events[i] by {}
    assert forall|i: int, j: int|
        #![trigger after[i], after[j]]
        0 <= i < j < after.len() && after[i] is Candidate && after[j] is Candidate
            implies after[i]->Candidate_0.offset + after[i]->Candidate_0.estimated_size
            <= after[j]->Candidate_0.offset by {
        if j < events.len() {
            assert(after[i] == events[i] && after[j] == events[j]);
        } else {
            assert(after[i] == events[i]);
        }
    }
}

proof fn lemma_chunk_keeps_disjoint(
    events0: Seq<ScanEvent>,
    events: Seq<ScanEvent>,
    bound: int,
    new_bound: int,
    jump: Option<u64>,
)
    requires
        candidates_disjoint(events0),
        candidates_end_by(events0, bound),
        events0.len() <= events.len(),
        events.subrange(0, events0.len() as int) == events0,
        forall|i: int|
            events0.len() <= i < events.len() ==> #[trigger] events[i] is Candidate
                && events[i]->Candidate_0.offset >= bound,
        match jump {
            Some(j) => events.len() == events0.len() + 1 && events.last()->Candidate_0.offset
                + events.last()->Candidate_0.estimated_size == j && j <= new_bound,
            None => events.len() == events0.len() && bound <= new_bound,
        },
    ensures
        candidates_disjoint(events),
        candidates_end_by(events, new_bound),
{
    if events.len() == events0.len() {
        assert(events =~= events0);
        lemma_no_candidates_yet(events0, bound, new_bound);
    } else {
        assert(events =~= events0.push(events.last()));
        lemma_push_candidate(events0, events.last(), bound);
        lemma_no_candidates_yet(events, events.last()->Candidate_0.offset + events.last()->Candidate_0.estimated_size, new_bound);
    }
}

proof fn lemma_push_report(cfg: ScanConfig, total: int, before: Seq<ScanEvent>, e: ScanEvent)
    requires
        progress_matches_tally(before),
        candidates_within(cfg, total, before),
        !(e is Candidate),
        e is Progress ==> e->Progress_counts == tally(before, zero_counts()),
    ensures
        progress_matches_tally(before.push(e)),
        candidates_within(cfg, total, before.push(e)),
{
    let after = before.push(e);
    assert forall|i: int| 0 <= i < after.len() && #[trigger] after[i] is Progress
        implies after[i]->Progress_counts == tally(after.take(i), zero_counts()) by {
        if i < before.len() {
            assert(after[i] == before[i]);
            assert(after.take(i) =~= before.take(i));
        } else {
            assert(after.take(i) =~= before);
        }
    }
    assert forall|i: int| 0 <= i < after.len() && #[trigger] after[i] is Candidate
        implies candidate_within(cfg, total, after[i]->Candidate_0) by {
        assert(i < before.len());
        assert(after[i] == before[i]);
    }
}

proof fn lemma_append_candidates(before: Seq<ScanEvent>, now: Seq<ScanEvent>)
    requires
        progress_matches_tally(before),
        before.len() <= now.len(),
        now.subrange(0, before.len() as int) == before,
        forall|i: int| before.len() <= i < now.len() ==> #[trigger] now[i] is Candidate,
    ensures
        progress_matches_tally(now),
{
    assert forall|i: int| 0 <= i < now.len() && #[trigger] now[i] is Progress
        implies now[i]->Progress_counts == tally(now.take(i), zero_counts()) by {
        assert(i < before.len());
        assert(now[i] == now.subrange(0, before.len() as int)[i]);
        assert(now.take(i) =~= before.take(i));
    }
}

/// How the pass over one chunk stopped.
enum ChunkStop {
    Cancelled(u64),
    Limit,
    Done(Option<u64>),
}

proof fn lemma_prefix_chain(
    before: Seq<ScanEvent>,
    added: Seq<ScanEvent>,
    pass: Seq<ScanEvent>,
    rest: Seq<ScanEvent>,
    full: Seq<ScanEvent>,
)
    requires
        is_prefix(added, pass),
        is_prefix(pass, rest),
        full == before + rest,
    ensures
        is_prefix(before + added, full),
{
    assert(full.subrange(0, (before + added).len() as int) =~= before + added);
}

} // verus!
