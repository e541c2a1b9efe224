//! Raw-volume access: errors of the platform layer, and the logic of the reader that
//! turns arbitrary logical reads into the sector-aligned reads a raw device accepts.

use vstd::prelude::*;
use vstd::string::StringExecFns;
use crate::domain::VolumeInfo;
use crate::text::{chars_of, push_char};

verus! {

/// Sector size assumed when the system does not report a volume's own.
pub const FALLBACK_SECTOR_SIZE: u32 = 4096;

/// The description of the volume at drive `letter`: identifier `X:`, root `X:\`, raw device
/// `\\.\X:`, display name `Unidade X:`, and the fallback sector size when the system gave
/// none.
pub fn volume_for_letter(letter: char, total_bytes: u64, sector_size: Option<u32>, is_removable: bool) -> (r:
    VolumeInfo)
    ensures
        r.id@ == seq![letter, ':'],
        r.root_path@ == seq![letter, ':', '\\'],
        r.device_path@ == seq!['\\', '\\', '.', '\\', letter, ':'],
        r.display_name@ == "Unidade "@ + seq![letter, ':'],
        r.total_bytes == total_bytes,
        r.sector_size == (match sector_size {
            Some(n) => n,
            None => FALLBACK_SECTOR_SIZE,
        }),
        r.is_removable == is_removable,
{
    let mut id = String::new();
    push_char(&mut id, letter);
    push_char(&mut id, ':');
    let mut root_path = String::new();
    push_char(&mut root_path, letter);
    push_char(&mut root_path, ':');
    push_char(&mut root_path, '\\');
    let mut device_path = String::from_str("\\\\.\\");
    push_char(&mut device_path, letter);
    push_char(&mut device_path, ':');
    let mut display_name = String::from_str("Unidade ");
    push_char(&mut display_name, letter);
    push_char(&mut display_name, ':');
    proof {
        reveal_strlit("\\\\.\\");
        assert(id@ =~= seq![letter, ':']);
        assert(root_path@ =~= seq![letter, ':', '\\']);
        assert(device_path@ =~= seq!['\\', '\\', '.', '\\', letter, ':']);
    }
    VolumeInfo {
        id,
        root_path,
        device_path,
        display_name,
        total_bytes,
        sector_size: match sector_size {
            Some(n) => n,
            None => FALLBACK_SECTOR_SIZE,
        },
        is_removable,
    }
}

/// The text with every `'` doubled, as a PowerShell single-quoted string needs it.
pub open spec fn quote_doubled(s: Seq<char>) -> Seq<char>
    decreases s.len(),
{
    if s.len() == 0 {
        Seq::empty()
    } else {
        let rest = quote_doubled(s.drop_last());
        if s.last() == '\'' {
            rest + seq!['\'', '\'']
        } else {
            rest.push(s.last())
        }
    }
}

/// The PowerShell command that starts `executable` again with administrator rights.
pub open spec fn elevation_script_text(executable: Seq<char>) -> Seq<char> {
    "Start-Process -FilePath '"@ + quote_doubled(executable) + "' -Verb RunAs"@
}

/// The PowerShell command that starts the program at `executable` again, elevated.
pub fn elevation_script(executable: &str) -> (r: String)
    ensures
        r@ == elevation_script_text(executable@),
{
    let chars = chars_of(executable);
    let mut script = String::from_str("Start-Process -FilePath '");
    let ghost head = script@;
    let mut i: usize = 0;
    while i < chars.len()
        invariant
            i <= chars.len(),
            chars@ == executable@,
            script@ == head + quote_doubled(chars@.subrange(0, i as int)),
        decreases chars.len() - i,
    {
        let c = chars[i];
        proof {
            assert(chars@.subrange(0, i + 1).drop_last() =~= chars@.subrange(0, i as int));
        }
        if c == '\'' {
            push_char(&mut script, '\'');
            push_char(&mut script, '\'');
        } else {
            push_char(&mut script, c);
        }
        i = i + 1;
        assert(script@ =~= head + quote_doubled(chars@.subrange(0, i as int)));
    }
    assert(chars@.subrange(0, chars.len() as int) =~= executable@);
    script.append("' -Verb RunAs");
    script
}

/// What the platform layer reports.
#[derive(Debug)]
pub enum PlatformError {
    UnsupportedPlatform,
    OpenDevice { device: String, source: std::io::Error },
    Elevation(std::io::Error),
}

/// Rounds `value` down to a multiple of `alignment`.
pub fn align_down(value: u64, alignment: u64) -> (r: u64)
    requires
        alignment >= 1,
    ensures
        r == value - value % alignment,
        r % alignment == 0,
        r <= value,
        value - r < alignment,
{
    proof {
        vstd::arithmetic::div_mod::lemma_fundamental_div_mod(value as int, alignment as int);
        vstd::arithmetic::div_mod::lemma_mod_multiples_basic((value / alignment) as int, alignment as int);
        vstd::arithmetic::mul::lemma_mul_is_commutative((value / alignment) as int, alignment as int);
    }
    value - (value % alignment)
}

/// Rounds `value` up to a multiple of `alignment`, saturating at `u64::MAX`.
pub fn align_up(value: u64, alignment: u64) -> (r: u64)
    requires
        alignment >= 1,
    ensures
        value <= r,
        value % alignment == 0 ==> r == value,
        value % alignment != 0 && value + (alignment - value % alignment) <= u64::MAX ==> r == value
            + (alignment - value % alignment) && r % alignment == 0,
        value % alignment != 0 && value + (alignment - value % alignment) > u64::MAX ==> r
            == u64::MAX,
{
    let remainder = value % alignment;
    if remainder == 0 {
        value
    } else {
        proof {
            if value + (alignment - remainder) <= u64::MAX {
                let q = value / alignment;
                vstd::arithmetic::div_mod::lemma_fundamental_div_mod(value as int, alignment as int);
                assert(value + (alignment - remainder) == (q + 1) * alignment) by (nonlinear_arith)
                    requires
                        value == alignment * q + remainder,
                ;
                vstd::arithmetic::div_mod::lemma_mod_multiples_basic(q + 1, alignment as int);
            }
        }
        value.saturating_add(alignment - remainder)
    }
}

/// Why a logical read of the volume failed.
#[derive(Debug)]
pub enum VolumeReadError {
    /// The device failed the physical read.
    Device(std::io::Error),
    /// The aligned block to read does not fit in the address space.
    BlockTooLarge,
}

/// Where a seek goes: from the start, from the end, or from the current position.
#[derive(Debug, Clone, Copy)]
pub enum SeekTarget {
    Start(u64),
    End(i64),
    Current(i64),
}

/// A volume of `length` bytes that can only be read in blocks of `alignment` bytes at
/// aligned offsets, seen as a byte stream that can be read at any position: reads go
/// through a cache filled by aligned physical reads.
pub struct AlignedVolumeReader {
    position: u64,
    length: u64,
    alignment: u64,
    cache_start: u64,
    cache_valid: usize,
    cache: Vec<u8>,
}

/// `physical`, asked for `l` bytes at `s`, returns bytes of `d` from `s`: at most `l`, and
/// fewer only when it fails to read more.
pub open spec fn faithful_to<F: Fn(u64, usize) -> Result<Vec<u8>, std::io::Error>>(
    physical: F,
    d: Seq<u8>,
) -> bool {
    forall|s: u64, l: usize, res: Result<Vec<u8>, std::io::Error>|
        #[trigger] physical.ensures((s, l), res) ==> (res matches Ok(v) ==> (v@.len() <= l && s
            + v@.len() <= d.len() && v@ == d.subrange(s as int, s + v@.len())))
}

/// `physical` never returns short: asked for `l` bytes at `s`, it returns all of them, or
/// all that `d` holds from `s` on.
pub open spec fn complete_on<F: Fn(u64, usize) -> Result<Vec<u8>, std::io::Error>>(
    physical: F,
    d: Seq<u8>,
) -> bool {
    forall|s: u64, l: usize, res: Result<Vec<u8>, std::io::Error>|
        #[trigger] physical.ensures((s, l), res) ==> (res matches Ok(v) ==> (v@.len() == l || s
            + v@.len() == d.len()))
}

impl AlignedVolumeReader {
    pub closed spec fn position_view(self) -> u64 {
        self.position
    }

    pub closed spec fn length_view(self) -> u64 {
        self.length
    }

    pub closed spec fn alignment_view(self) -> u64 {
        self.alignment
    }

    pub closed spec fn wf(self) -> bool {
        &&& self.alignment >= 1
        &&& self.position <= self.length
        &&& self.cache_valid <= self.cache@.len()
        &&& self.cache_start + self.cache_valid <= self.length
    }

    /// The cache holds the bytes of `d` that it claims to hold.
    pub closed spec fn cache_matches(self, d: Seq<u8>) -> bool {
        &&& self.cache_start + self.cache_valid <= d.len()
        &&& self.cache@.subrange(0, self.cache_valid as int) == d.subrange(
            self.cache_start as int,
            self.cache_start + self.cache_valid,
        )
    }

    /// A reader at position 0 with an empty cache; an alignment of 0 counts as 1.
    pub fn new(length: u64, alignment: u64) -> (r: Self)
        ensures
            r.wf(),
            r.position_view() == 0,
            r.length_view() == length,
            r.alignment_view() == (if alignment > 1 { alignment } else { 1 }),
            forall|d: Seq<u8>| r.cache_matches(d),
    {
        let r = AlignedVolumeReader {
            position: 0,
            length,
            alignment: if alignment > 1 {
                alignment
            } else {
                1
            },
            cache_start: 0,
            cache_valid: 0,
            cache: Vec::new(),
        };
        assert forall|d: Seq<u8>| r.cache_matches(d) by {
            assert(r.cache@.subrange(0, 0) =~= d.subrange(0, 0));
        }
        r
    }

    pub fn position(&self) -> (r: u64)
        ensures
            r == self.position_view(),
    {
        self.position
    }

    /// Moves to `target`; `None`, and no move, when the target lies before the start or
    /// past the end of the volume.
    pub fn seek(&mut self, target: SeekTarget) -> (r: Option<u64>)
        requires
            old(self).wf(),
        ensures
            final(self).wf(),
            final(self).length_view() == old(self).length_view(),
            final(self).alignment_view() == old(self).alignment_view(),
            forall|d: Seq<u8>| old(self).cache_matches(d) ==> final(self).cache_matches(d),
            ({
                let next: int = match target {
                    SeekTarget::Start(o) => o as int,
                    SeekTarget::End(delta) => old(self).length_view() + delta,
                    SeekTarget::Current(delta) => old(self).position_view() + delta,
                };
                if 0 <= next <= old(self).length_view() {
                    r == Some(next as u64) && final(self).position_view() == next
                } else {
                    r is None && final(self).position_view() == old(self).position_view()
                }
            }),
    {
        let next: i128 = match target {
            SeekTarget::Start(offset) => offset as i128,
            SeekTarget::End(delta) => self.length as i128 + delta as i128,
            SeekTarget::Current(delta) => self.position as i128 + delta as i128,
        };
        if next < 0 || next > self.length as i128 {
            return None;
        }
        self.position = next as u64;
        Some(self.position)
    }

    /// Reads up to `output_len` bytes at the position and moves past them, asking
    /// `physical` for blocks whenever the position leaves the cache. Every block asked for
    /// starts at a multiple of the alignment and is non-empty, and its length is a multiple
    /// of the alignment or reaches the end of the volume: `physical` need accept nothing
    /// else. Fewer bytes come back only at the end of the volume or when `physical` returns
    /// short.
    pub fn read<F: Fn(u64, usize) -> Result<Vec<u8>, std::io::Error>>(
        &mut self,
        output_len: usize,
        physical: F,
    ) -> (r: Result<Vec<u8>, VolumeReadError>)
        requires
            old(self).wf(),
            forall|s: u64, l: usize|
                s % old(self).alignment_view() == 0 && l > 0 && ((l as int) % (old(self).alignment_view() as int) == 0 || s
                    + l == old(self).length_view()) ==> #[trigger] physical.requires((s, l)),
        ensures
            final(self).wf(),
            final(self).length_view() == old(self).length_view(),
            final(self).alignment_view() == old(self).alignment_view(),
            r matches Ok(v) ==> v@.len() <= output_len && old(self).position_view() + v@.len()
                <= old(self).length_view() && final(self).position_view() == old(
                self,
            ).position_view() + v@.len(),
            forall|d: Seq<u8>|
                faithful_to(physical, d) && old(self).cache_matches(d) && old(self).length_view()
                    <= d.len() ==> final(self).cache_matches(
                    d,
                ) && (r matches Ok(v) ==> v@ == d.subrange(
                    old(self).position_view() as int,
                    old(self).position_view() + v@.len(),
                )),
            forall|d: Seq<u8>|
                faithful_to(physical, d) && complete_on(physical, d) && old(self).cache_matches(d)
                    && old(self).length_view() <= d.len() ==> (r matches Ok(v) ==> v@.len() == (if (
                output_len as int) < old(self).length_view() - old(self).position_view() {
                    output_len as int
                } else {
                    old(self).length_view() - old(self).position_view()
                })),
            (forall|s: u64, l: usize, res: Result<Vec<u8>, std::io::Error>|
                #[trigger] physical.ensures((s, l), res) ==> res is Ok) && old(self).length_view()
                <= usize::MAX ==> r is Ok,
    {
        let mut out: Vec<u8> = Vec::new();
        if output_len == 0 || self.position >= self.length {
            assert forall|d: Seq<u8>|
                faithful_to(physical, d) && old(self).cache_matches(d) && old(self).length_view()
                    <= d.len() implies out@ =~= d.subrange(
                self.position as int,
                self.position + out@.len(),
            ) by {}
            return Ok(out);
        }
        let left = self.length - self.position;
        let wanted: usize = if (output_len as u64) < left {
            output_len
        } else {
            left as usize
        };
        let ghost start_position = self.position;
        while out.len() < wanted
            invariant
                self.wf(),
                self.length == old(self).length,
                self.alignment == old(self).alignment,
                start_position == old(self).position,
                wanted <= output_len,
                start_position + wanted <= self.length,
                self.position == start_position + out@.len(),
                out@.len() <= wanted,
                forall|s: u64, l: usize|
                    s % self.alignment == 0 && l > 0 && ((l as int) % (self.alignment as int) == 0 || s + l == self.length)
                        ==> #[trigger] physical.requires((s, l)),
                forall|d: Seq<u8>|
                    faithful_to(physical, d) && old(self).cache_matches(d) && self.length <= d.len()
                        ==> self.cache_matches(d) && out@ == d.subrange(
                        start_position as int,
                        self.position as int,
                    ),
            decreases wanted - out@.len(),
        {
            let cache_end = self.cache_start + self.cache_valid as u64;
            if self.position < self.cache_start || self.position >= cache_end {
                let requested = wanted - out.len();
                let aligned_start = align_down(self.position, self.alignment);
                let leading = self.position - aligned_start;
                let remaining = self.length - aligned_start;
                let wished = leading.saturating_add(requested as u64);
                let desired = if wished < remaining {
                    wished
                } else {
                    remaining
                };
                let rounded = align_up(desired, self.alignment);
                let physical_length = if rounded < remaining {
                    rounded
                } else {
                    remaining
                };
                if physical_length > usize::MAX as u64 {
                    return Err(VolumeReadError::BlockTooLarge);
                }
                let block_len = physical_length as usize;
                let block = match physical(aligned_start, block_len) {
                    Ok(block) => block,
                    Err(e) => {
                        proof {
                            assert(physical.ensures((aligned_start, block_len), Err::<Vec<u8>, std::io::Error>(e)));
                        }
                        return Err(VolumeReadError::Device(e));
                    },
                };
                let filled = if block.len() < block_len {
                    block.len()
                } else {
                    block_len
                };
                self.cache = block;
                self.cache_start = aligned_start;
                self.cache_valid = filled;
                assert forall|d: Seq<u8>|
                    faithful_to(physical, d) && old(self).cache_matches(d) && self.length <= d.len()
                    implies self.cache_matches(d) by {
                    assert(self.cache@.subrange(0, self.cache_valid as int) =~= d.subrange(
                        self.cache_start as int,
                        self.cache_start + self.cache_valid,
                    ));
                }
                assert forall|d: Seq<u8>|
                    faithful_to(physical, d) && complete_on(physical, d) && self.length <= d.len()
                    implies self.position < self.cache_start + self.cache_valid by {
                    assert(physical.ensures((aligned_start, block_len), Ok::<Vec<u8>, std::io::Error>(block)));
                }
            }
            let cache_end = self.cache_start + self.cache_valid as u64;
            if self.position < self.cache_start || self.position >= cache_end {
                assert forall|d: Seq<u8>|
                    faithful_to(physical, d) && complete_on(physical, d) && old(self).cache_matches(d)
                        && self.length <= d.len() implies false by {}
                return Ok(out);
            }
            let cache_offset = (self.position - self.cache_start) as usize;
            let available = self.cache_valid - cache_offset;
            let need = wanted - out.len();
            let count = if available < need {
                available
            } else {
                need
            };
            let ghost before = out@;
            let mut k: usize = 0;
            while k < count
                invariant
                    k <= count,
                    cache_offset + count <= self.cache_valid,
                    self.cache_valid <= self.cache@.len(),
                    out@ == before + self.cache@.subrange(cache_offset as int, cache_offset + k),
                decreases count - k,
            {
                out.push(self.cache[cache_offset + k]);
                k = k + 1;
                assert(out@ =~= before + self.cache@.subrange(cache_offset as int, cache_offset + k));
            }
            self.position = self.position + count as u64;
            assert forall|d: Seq<u8>|
                faithful_to(physical, d) && old(self).cache_matches(d) && self.length <= d.len()
                implies out@ =~= d.subrange(start_position as int, self.position as int) by {
                let cs = self.cache_start as int;
                let valid = self.cache_valid as int;
                assert forall|i: int| cache_offset <= i < cache_offset + count implies self.cache@[i]
                    == d[cs + i] by {
                    assert(self.cache@.subrange(0, valid)[i] == d.subrange(cs, cs + valid)[i]);
                }
                assert(self.cache@.subrange(cache_offset as int, cache_offset + count) =~= d.subrange(
                    cs + cache_offset,
                    cs + cache_offset + count,
                ));
                assert(d.subrange(start_position as int, self.position as int) =~= d.subrange(
                    start_position as int,
                    cs + cache_offset,
                ) + d.subrange(cs + cache_offset, cs + cache_offset + count));
            }
        }
        Ok(out)
    }
}

} // verus!
