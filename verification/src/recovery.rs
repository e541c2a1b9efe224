//! Where recovered files go: the volume rule, the category folders, and the names that
//! never overwrite an existing file.

use vstd::prelude::*;
use vstd::string::StringExecFns;
use crate::checksums::{lower_hex, sha256_digest, sha256_hex};
use crate::domain::{CandidateStatus, ImageFormat, RecoveryCandidate};
use crate::text::{
    ascii_upper, chars_eq_ignore_ascii_case, chars_of, eq_ignore_ascii_case, is_ascii_alpha,
    push_char, push_str_chars, string_from_chars, to_ascii_upper,
};

verus! {

/// Why a recovery was refused or failed.
#[derive(Debug)]
pub enum RecoveryError {
    SameVolume { source_volume: String, destination_volume: String },
    UnknownVolume(String),
    CreateDestination(std::io::Error),
    ReadSource { offset: u64, source: std::io::Error },
    WriteDestination(std::io::Error),
}

// ---------------------------------------------------------------- volumes

/// The path with every `/` turned into `\`.
pub open spec fn backslashed(s: Seq<char>) -> Seq<char> {
    s.map_values(|c: char| if c == '/' { '\\' } else { c })
}

/// The path without a leading `\\.\` device prefix.
pub open spec fn without_device_prefix(s: Seq<char>) -> Seq<char> {
    if s.len() >= 4 && s[0] == '\\' && s[1] == '\\' && s[2] == '.' && s[3] == '\\' {
        s.subrange(4, s.len() as int)
    } else {
        s
    }
}

/// The first position at or after `i` that is not a `\`.
pub open spec fn skip_separators(u: Seq<char>, i: int) -> int
    decreases u.len() - i,
{
    if 0 <= i < u.len() && u[i] == '\\' {
        skip_separators(u, i + 1)
    } else {
        i
    }
}

/// The first position at or after `i` that is a `\`, or the end.
pub open spec fn segment_end(u: Seq<char>, i: int) -> int
    decreases u.len() - i,
{
    if 0 <= i < u.len() && u[i] != '\\' {
        segment_end(u, i + 1)
    } else {
        i
    }
}

/// The volume a path lies on: `X:` for a drive letter (upper case), `\\server\share` for a
/// network path; `None` when the path names neither.
pub open spec fn spec_volume_key(path: Seq<char>) -> Option<Seq<char>> {
    let t = without_device_prefix(backslashed(path));
    if t.len() >= 2 && t[1] == ':' && is_ascii_alpha(t[0]) {
        Some(seq![ascii_upper(t[0]), ':'])
    } else if t.len() >= 2 && t[0] == '\\' && t[1] == '\\' {
        let s1 = skip_separators(t, 2);
        let e1 = segment_end(t, s1);
        let s2 = skip_separators(t, e1);
        let e2 = segment_end(t, s2);
        if s1 >= t.len() || s2 >= t.len() {
            None
        } else {
            Some(seq!['\\', '\\'] + t.subrange(s1, e1) + seq!['\\'] + t.subrange(s2, e2))
        }
    } else {
        None
    }
}

proof fn lemma_skip_separators_bounds(u: Seq<char>, i: int)
    requires
        0 <= i <= u.len(),
    ensures
        i <= skip_separators(u, i) <= u.len(),
        skip_separators(u, i) < u.len() ==> u[skip_separators(u, i)] != '\\',
    decreases u.len() - i,
{
    if i < u.len() && u[i] == '\\' {
        lemma_skip_separators_bounds(u, i + 1);
    }
}

proof fn lemma_segment_end_bounds(u: Seq<char>, i: int)
    requires
        0 <= i <= u.len(),
    ensures
        i <= segment_end(u, i) <= u.len(),
    decreases u.len() - i,
{
    if i < u.len() && u[i] != '\\' {
        lemma_segment_end_bounds(u, i + 1);
    }
}

proof fn lemma_segment_has_no_separator(u: Seq<char>, i: int)
    requires
        0 <= i <= u.len(),
    ensures
        forall|j: int| i <= j < segment_end(u, i) ==> u[j] != '\\',
    decreases u.len() - i,
{
    if i < u.len() && u[i] != '\\' {
        lemma_segment_has_no_separator(u, i + 1);
    }
}

/// A volume name is a drive, one upper-case letter and `:`, or a network share,
/// `\\server\share` with a server and a share that are neither empty nor hold a `\`.
pub open spec fn volume_key_shape(k: Seq<char>) -> bool {
    ||| (k.len() == 2 && 'A' <= k[0] && k[0] <= 'Z' && k[1] == ':')
    ||| exists|server: Seq<char>, share: Seq<char>|
        server.len() > 0 && share.len() > 0 && (forall|j: int|
            0 <= j < server.len() ==> #[trigger] server[j] != '\\') && (forall|j: int|
            0 <= j < share.len() ==> #[trigger] share[j] != '\\') && k == seq!['\\', '\\'] + server
            + seq!['\\'] + share
}

/// Every volume name that `volume_key` gives has the documented shape.
pub proof fn lemma_volume_key_shape(path: Seq<char>)
    ensures
        spec_volume_key(path) matches Some(k) ==> volume_key_shape(k),
{
    let t = without_device_prefix(backslashed(path));
    if t.len() >= 2 && t[1] == ':' && is_ascii_alpha(t[0]) {
        let k = seq![ascii_upper(t[0]), ':'];
        assert('A' <= k[0] && k[0] <= 'Z');
    } else if t.len() >= 2 && t[0] == '\\' && t[1] == '\\' {
        let s1 = skip_separators(t, 2);
        lemma_skip_separators_bounds(t, 2);
        let e1 = segment_end(t, s1);
        lemma_segment_end_bounds(t, s1);
        lemma_segment_has_no_separator(t, s1);
        let s2 = skip_separators(t, e1);
        lemma_skip_separators_bounds(t, e1);
        let e2 = segment_end(t, s2);
        lemma_segment_end_bounds(t, s2);
        lemma_segment_has_no_separator(t, s2);
        if s1 < t.len() && s2 < t.len() {
            let server = t.subrange(s1, e1);
            let share = t.subrange(s2, e2);
            lemma_segment_end_bounds(t, s1 + 1);
            lemma_segment_end_bounds(t, s2 + 1);
            assert(e1 == segment_end(t, s1 + 1));
            assert(e2 == segment_end(t, s2 + 1));
            assert(forall|j: int| 0 <= j < server.len() ==> #[trigger] server[j] == t[s1 + j]);
            assert(forall|j: int| 0 <= j < share.len() ==> #[trigger] share[j] == t[s2 + j]);
            assert(volume_key_shape(seq!['\\', '\\'] + server + seq!['\\'] + share));
        }
    }
}

proof fn lemma_segment_end_extended(t: Seq<char>, x: Seq<char>, i: int)
    requires
        0 <= i <= t.len(),
        x.len() > 0,
        x[0] == '\\',
    ensures
        segment_end(t + x, i) == segment_end(t, i),
    decreases t.len() - i,
{
    let u = t + x;
    if i < t.len() {
        assert(u[i] == t[i]);
        if t[i] != '\\' {
            lemma_segment_end_extended(t, x, i + 1);
        }
    } else {
        assert(u[i] == x[0]);
    }
}

proof fn lemma_skip_separators_extended(t: Seq<char>, x: Seq<char>, i: int)
    requires
        0 <= i <= t.len(),
        skip_separators(t, i) < t.len(),
    ensures
        skip_separators(t + x, i) == skip_separators(t, i),
    decreases t.len() - i,
{
    let u = t + x;
    if i < t.len() {
        assert(u[i] == t[i]);
        if t[i] == '\\' {
            lemma_skip_separators_extended(t, x, i + 1);
        }
    }
}

/// A path inside a folder lies on the folder's volume: joining a further component to a
/// path that names a volume leaves the volume unchanged.
pub proof fn lemma_volume_key_of_joined_path(folder: Seq<char>, component: Seq<char>)
    requires
        spec_volume_key(folder) is Some,
    ensures
        spec_volume_key(folder + seq!['\\'] + component) == spec_volume_key(folder),
{
    let joined = folder + seq!['\\'] + component;
    let x = seq!['\\'] + backslashed(component);
    let ba = backslashed(folder);
    let bj = backslashed(joined);
    assert(bj =~= ba + x);
    let ta = without_device_prefix(ba);
    let tj = without_device_prefix(bj);
    if ba.len() >= 4 {
        assert(bj[0] == ba[0] && bj[1] == ba[1] && bj[2] == ba[2] && bj[3] == ba[3]);
        if ba[0] == '\\' && ba[1] == '\\' && ba[2] == '.' && ba[3] == '\\' {
            assert(tj =~= ta + x);
        } else {
            assert(tj =~= ta + x);
        }
    } else {
        assert(ta == ba);
        if !(ta.len() >= 2 && ta[1] == ':' && is_ascii_alpha(ta[0])) {
            let s1 = skip_separators(ta, 2);
            lemma_skip_separators_bounds(ta, 2);
            let e1 = segment_end(ta, s1);
            lemma_segment_end_bounds(ta, s1);
            lemma_segment_end_bounds(ta, s1 + 1);
            assert(s1 < ta.len() ==> e1 == segment_end(ta, s1 + 1));
            let s2 = skip_separators(ta, e1);
            lemma_skip_separators_bounds(ta, e1);
            assert(false);
        }
        assert(bj[0] == ba[0]);
        assert(tj =~= ta + x);
    }
    assert(tj[0] == ta[0] && tj[1] == ta[1]);
    if !(ta.len() >= 2 && ta[1] == ':' && is_ascii_alpha(ta[0])) {
        let s1 = skip_separators(ta, 2);
        lemma_skip_separators_bounds(ta, 2);
        lemma_skip_separators_extended(ta, x, 2);
        let e1 = segment_end(ta, s1);
        lemma_segment_end_bounds(ta, s1);
        lemma_segment_end_extended(ta, x, s1);
        let s2 = skip_separators(ta, e1);
        lemma_skip_separators_bounds(ta, e1);
        lemma_skip_separators_extended(ta, x, e1);
        let e2 = segment_end(ta, s2);
        lemma_segment_end_bounds(ta, s2);
        lemma_segment_end_extended(ta, x, s2);
        assert(tj.subrange(s1, e1) =~= ta.subrange(s1, e1));
        assert(tj.subrange(s2, e2) =~= ta.subrange(s2, e2));
    }
}

fn skip_separators_from(u: &Vec<char>, i: usize) -> (r: usize)
    requires
        i <= u.len(),
    ensures
        r as int == skip_separators(u@, i as int),
        i <= r <= u.len(),
{
    let mut k = i;
    while k < u.len() && u[k] == '\\'
        invariant
            i <= k <= u.len(),
            skip_separators(u@, k as int) == skip_separators(u@, i as int),
        decreases u.len() - k,
    {
        k = k + 1;
    }
    k
}

fn segment_end_from(u: &Vec<char>, i: usize) -> (r: usize)
    requires
        i <= u.len(),
    ensures
        r as int == segment_end(u@, i as int),
        i <= r <= u.len(),
{
    let mut k = i;
    while k < u.len() && u[k] != '\\'
        invariant
            i <= k <= u.len(),
            segment_end(u@, k as int) == segment_end(u@, i as int),
        decreases u.len() - k,
    {
        k = k + 1;
    }
    k
}

fn push_range(out: &mut Vec<char>, u: &Vec<char>, from: usize, to: usize)
    requires
        from <= to <= u.len(),
    ensures
        final(out)@ == old(out)@ + u@.subrange(from as int, to as int),
{
    let ghost start = out@;
    let mut k = from;
    while k < to
        invariant
            from <= k <= to <= u.len(),
            out@ == start + u@.subrange(from as int, k as int),
        decreases to - k,
    {
        out.push(u[k]);
        k = k + 1;
        assert(out@ =~= start + u@.subrange(from as int, k as int));
    }
}

/// The volume that `path` lies on, in the form `X:` or `\\server\share`.
pub fn volume_key(path: &str) -> (r: Option<String>)
    ensures
        r is Some <==> spec_volume_key(path@) is Some,
        r matches Some(k) ==> spec_volume_key(path@) == Some(k@),
        r matches Some(k) ==> volume_key_shape(k@),
{
    proof {
        lemma_volume_key_shape(path@);
    }
    let raw = chars_of(path);
    let mut normalized: Vec<char> = Vec::new();
    let mut i: usize = 0;
    while i < raw.len()
        invariant
            i <= raw.len(),
            normalized@ == backslashed(raw@).subrange(0, i as int),
        decreases raw.len() - i,
    {
        let c = raw[i];
        normalized.push(
            if c == '/' {
                '\\'
            } else {
                c
            },
        );
        i = i + 1;
        assert(normalized@ =~= backslashed(raw@).subrange(0, i as int));
    }
    assert(normalized@ =~= backslashed(path@));
    let t: Vec<char> = if normalized.len() >= 4 && normalized[0] == '\\' && normalized[1] == '\\'
        && normalized[2] == '.' && normalized[3] == '\\' {
        let mut rest: Vec<char> = Vec::new();
        push_range(&mut rest, &normalized, 4, normalized.len());
        assert(rest@ =~= normalized@.subrange(4, normalized@.len() as int));
        rest
    } else {
        normalized
    };
    assert(t@ == without_device_prefix(backslashed(path@)));
    if t.len() >= 2 && t[1] == ':' && (('a' <= t[0] && t[0] <= 'z') || ('A' <= t[0] && t[0] <= 'Z')) {
        let mut key: Vec<char> = Vec::new();
        key.push(to_ascii_upper(t[0]));
        key.push(':');
        assert(key@ =~= seq![ascii_upper(t@[0]), ':']);
        return Some(string_from_chars(&key));
    }
    if t.len() >= 2 && t[0] == '\\' && t[1] == '\\' {
        let s1 = skip_separators_from(&t, 2);
        let e1 = segment_end_from(&t, s1);
        let s2 = skip_separators_from(&t, e1);
        let e2 = segment_end_from(&t, s2);
        if s1 >= t.len() || s2 >= t.len() {
            return None;
        }
        let mut key: Vec<char> = Vec::new();
        key.push('\\');
        key.push('\\');
        push_range(&mut key, &t, s1, e1);
        key.push('\\');
        push_range(&mut key, &t, s2, e2);
        assert(key@ =~= seq!['\\', '\\'] + t@.subrange(s1 as int, e1 as int) + seq!['\\']
            + t@.subrange(s2 as int, e2 as int));
        return Some(string_from_chars(&key));
    }
    None
}

pub open spec fn is_path_separator(c: char) -> bool {
    c == '\\' || c == '/'
}

/// A Windows path that names its volume and starts at the root of it: a drive letter, `:`
/// and a separator, or two separators that begin a network or device path.
pub open spec fn spec_is_absolute_path(path: Seq<char>) -> bool {
    ||| (path.len() >= 3 && is_ascii_alpha(path[0]) && path[1] == ':' && is_path_separator(path[2]))
    ||| (path.len() >= 2 && is_path_separator(path[0]) && is_path_separator(path[1]))
}

/// Whether the workspace or destination folder `path` is absolute.
pub fn is_absolute_path(path: &str) -> (r: bool)
    ensures
        r == spec_is_absolute_path(path@),
{
    let c = chars_of(path);
    let sep = |x: char| -> (b: bool)
        ensures
            b == is_path_separator(x),
        { x == '\\' || x == '/' };
    if c.len() >= 3 && (('a' <= c[0] && c[0] <= 'z') || ('A' <= c[0] && c[0] <= 'Z')) && c[1] == ':'
        && sep(c[2]) {
        return true;
    }
    c.len() >= 2 && sep(c[0]) && sep(c[1])
}

/// A destination is accepted when both paths name a volume and the two volumes differ
/// beyond ASCII case.
pub open spec fn accepts_destination(source: Seq<char>, destination: Seq<char>) -> bool {
    match (spec_volume_key(source), spec_volume_key(destination)) {
        (Some(a), Some(b)) => !eq_ignore_ascii_case(a, b),
        _ => false,
    }
}

/// No path is an acceptable destination for a scan of itself, and which of two paths is the
/// source does not change whether the check accepts them.
pub proof fn lemma_volume_check_reflexive_symmetric(a: Seq<char>, b: Seq<char>)
    ensures
        !accepts_destination(a, a),
        accepts_destination(a, b) == accepts_destination(b, a),
{
}

/// Two paths on the same drive letter, whatever the case of the letters, are never accepted
/// as source and destination.
pub proof fn lemma_same_drive_refused(a: Seq<char>, b: Seq<char>)
    requires
        a.len() >= 2,
        b.len() >= 2,
        a[1] == ':',
        b[1] == ':',
        is_ascii_alpha(a[0]),
        is_ascii_alpha(b[0]),
        ascii_upper(a[0]) == ascii_upper(b[0]),
    ensures
        !accepts_destination(a, b),
{
    let ta = backslashed(a);
    let tb = backslashed(b);
    assert(ta[0] == a[0] && ta[1] == ':');
    assert(tb[0] == b[0] && tb[1] == ':');
    assert(without_device_prefix(ta) == ta);
    assert(without_device_prefix(tb) == tb);
    assert(spec_volume_key(a) == Some(seq![ascii_upper(a[0]), ':']));
    assert(spec_volume_key(b) == Some(seq![ascii_upper(b[0]), ':']));
}

/// Refuses a destination on the volume being scanned: recovered files must never be
/// written where deleted data may still be waiting.
pub fn ensure_different_volume(source_root: &str, destination: &str) -> (r: Result<
    (),
    RecoveryError,
>)
    ensures
        r is Ok <==> accepts_destination(source_root@, destination@),
        spec_volume_key(source_root@) is None ==> (r matches Err(RecoveryError::UnknownVolume(s))
            && s@ == source_root@),
        spec_volume_key(source_root@) is Some && spec_volume_key(destination@) is None ==> (r matches Err(
            RecoveryError::UnknownVolume(s),
        ) && s@ == destination@),
        spec_volume_key(source_root@) matches Some(a) ==> spec_volume_key(destination@) matches Some(
            b,
        ) ==> (if eq_ignore_ascii_case(a, b) {
            r matches Err(RecoveryError::SameVolume { source_volume, destination_volume })
                && source_volume@ == a && destination_volume@ == b
        } else {
            r is Ok
        }),
{
    let source = match volume_key(source_root) {
        Some(key) => key,
        None => return Err(RecoveryError::UnknownVolume(source_root.to_owned())),
    };
    let target = match volume_key(destination) {
        Some(key) => key,
        None => return Err(RecoveryError::UnknownVolume(destination.to_owned())),
    };
    let a = chars_of(source.as_str());
    let b = chars_of(target.as_str());
    if chars_eq_ignore_ascii_case(&a, &b) {
        return Err(RecoveryError::SameVolume { source_volume: source, destination_volume: target });
    }
    Ok(())
}

// ---------------------------------------------------------------- names

/// The folder that a recovered file goes to, by the status of its candidate.
pub open spec fn bucket_text(status: CandidateStatus) -> Seq<char> {
    match status {
        CandidateStatus::Found | CandidateStatus::Recovered => "Recuperados_Integralmente"@,
        CandidateStatus::Partial => "Recuperados_Parcialmente"@,
        CandidateStatus::Corrupted | CandidateStatus::Failed => "Possivelmente_Corrompidos"@,
    }
}

pub fn recovery_bucket_name(status: CandidateStatus) -> (r: &'static str)
    ensures
        r@ == bucket_text(status),
{
    match status {
        CandidateStatus::Found | CandidateStatus::Recovered => "Recuperados_Integralmente",
        CandidateStatus::Partial => "Recuperados_Parcialmente",
        CandidateStatus::Corrupted | CandidateStatus::Failed => "Possivelmente_Corrompidos",
    }
}

/// Upper-case hexadecimal digit of `v < 16`.
pub open spec fn hex_char(v: int) -> char {
    if v < 10 {
        ((48 + v) as u8) as char
    } else {
        ((55 + v) as u8) as char
    }
}

/// Decimal digit of `v < 10`.
pub open spec fn digit_char(v: int) -> char {
    ((48 + v) as u8) as char
}

/// The last `n` hexadecimal digits of `v`, most significant first, zero-padded.
pub open spec fn hex_digits(v: nat, n: nat) -> Seq<char>
    decreases n,
{
    if n == 0 {
        Seq::empty()
    } else {
        hex_digits(v / 16, (n - 1) as nat).push(hex_char((v % 16) as int))
    }
}

/// The decimal digits of `v`, most significant first.
pub open spec fn dec_digits(v: nat) -> Seq<char>
    decreases v,
{
    if v < 10 {
        seq![digit_char(v as int)]
    } else {
        dec_digits(v / 10).push(digit_char((v % 10) as int))
    }
}

/// The decimal digits of `v`, zero-padded to at least three.
pub open spec fn pad3(v: nat) -> Seq<char> {
    let d = dec_digits(v);
    if d.len() >= 3 {
        d
    } else {
        Seq::new((3 - d.len()) as nat, |i: int| '0') + d
    }
}

/// `recovered_` and the offset as sixteen upper-case hexadecimal digits.
pub open spec fn recovery_stem(offset: u64) -> Seq<char> {
    "recovered_"@ + hex_digits(offset as nat, 16)
}

/// The file name of a recovered candidate; a suffix above zero, written `_NNN`, tells apart
/// files that would otherwise share the name.
pub open spec fn recovery_name(format: ImageFormat, offset: u64, suffix: nat) -> Seq<char> {
    if suffix == 0 {
        recovery_stem(offset) + "."@ + format.extension_text()
    } else {
        recovery_stem(offset) + "_"@ + pad3(suffix) + "."@ + format.extension_text()
    }
}

/// `16` to the power `n`.
pub open spec fn pow16(n: nat) -> nat
    decreases n,
{
    if n == 0 {
        1
    } else {
        16 * pow16((n - 1) as nat)
    }
}

proof fn lemma_hex_char_injective(a: int, b: int)
    requires
        0 <= a < 16,
        0 <= b < 16,
        hex_char(a) == hex_char(b),
    ensures
        a == b,
{
}

/// Equal digit strings of the same width come from numbers equal modulo `16^n`.
proof fn lemma_hex_digits_injective(v: nat, w: nat, n: nat)
    requires
        hex_digits(v, n) == hex_digits(w, n),
    ensures
        v % pow16(n) == w % pow16(n),
    decreases n,
{
    if n > 0 {
        let m = (n - 1) as nat;
        let hv = hex_digits(v, n);
        let hw = hex_digits(w, n);
        assert(hv.drop_last() =~= hex_digits(v / 16, m));
        assert(hw.drop_last() =~= hex_digits(w / 16, m));
        assert(hv.last() == hex_char((v % 16) as int));
        assert(hw.last() == hex_char((w % 16) as int));
        lemma_hex_char_injective((v % 16) as int, (w % 16) as int);
        lemma_hex_digits_injective(v / 16, w / 16, m);
        assert(pow16(m) > 0) by {
            lemma_pow16_positive(m);
        }
        vstd::arithmetic::div_mod::lemma_mod_breakdown(v as int, 16, pow16(m) as int);
        vstd::arithmetic::div_mod::lemma_mod_breakdown(w as int, 16, pow16(m) as int);
    }
}

proof fn lemma_pow16_positive(n: nat)
    ensures
        pow16(n) > 0,
    decreases n,
{
    if n > 0 {
        lemma_pow16_positive((n - 1) as nat);
    }
}

proof fn lemma_extension_injective(f: ImageFormat, g: ImageFormat)
    requires
        f.extension_text() == g.extension_text(),
    ensures
        f == g,
{
    reveal_strlit("jpg");
    reveal_strlit("png");
    reveal_strlit("webp");
    reveal_strlit("heic");
    reveal_strlit("bmp");
    reveal_strlit("gif");
    if f != g {
        let a = f.extension_text();
        let b = g.extension_text();
        assert(a.len() != b.len() || a[0] != b[0] || a[1] != b[1] || a[2] != b[2]);
    }
}

/// Two candidates are given the same recovered-file name only when they share both their
/// format and their offset.
pub proof fn lemma_safe_recovery_name_injective(f: ImageFormat, o: u64, g: ImageFormat, p: u64)
    requires
        recovery_name(f, o, 0) == recovery_name(g, p, 0),
    ensures
        f == g,
        o == p,
{
    reveal_strlit("recovered_");
    reveal_strlit(".");
    let a = recovery_name(f, o, 0);
    let b = recovery_name(g, p, 0);
    lemma_hex_digits_len(o as nat, 16);
    lemma_hex_digits_len(p as nat, 16);
    assert(a.subrange(10, 26) =~= hex_digits(o as nat, 16));
    assert(b.subrange(10, 26) =~= hex_digits(p as nat, 16));
    lemma_hex_digits_injective(o as nat, p as nat, 16);
    assert(pow16(16) == 0x1_0000_0000_0000_0000) by {
        reveal_with_fuel(pow16, 17);
    }
    assert(a.subrange(27, a.len() as int) =~= f.extension_text());
    assert(b.subrange(27, b.len() as int) =~= g.extension_text());
    lemma_extension_injective(f, g);
}

/// A character that file names of recovered candidates may hold: an ASCII letter or digit,
/// `_` or `.`.
pub open spec fn safe_name_char(c: char) -> bool {
    is_ascii_alpha(c) || ('0' <= c && c <= '9') || c == '_' || c == '.'
}

proof fn lemma_hex_digits_safe(v: nat, n: nat)
    ensures
        forall|i: int| 0 <= i < hex_digits(v, n).len() ==> safe_name_char(#[trigger] hex_digits(v, n)[i]),
    decreases n,
{
    if n > 0 {
        lemma_hex_digits_safe(v / 16, (n - 1) as nat);
        let d = (v % 16) as int;
        assert(safe_name_char(hex_char(d)));
        let h = hex_digits(v, n);
        assert forall|i: int| 0 <= i < h.len() implies safe_name_char(#[trigger] h[i]) by {
            if i < h.len() - 1 {
                assert(h[i] == hex_digits(v / 16, (n - 1) as nat)[i]);
            }
        }
    }
}

proof fn lemma_dec_digits_safe(v: nat)
    ensures
        forall|i: int| 0 <= i < dec_digits(v).len() ==> safe_name_char(#[trigger] dec_digits(v)[i]),
    decreases v,
{
    if v >= 10 {
        lemma_dec_digits_safe(v / 10);
        let d = (v % 10) as int;
        assert(safe_name_char(digit_char(d)));
        let h = dec_digits(v);
        assert forall|i: int| 0 <= i < h.len() implies safe_name_char(#[trigger] h[i]) by {
            if i < h.len() - 1 {
                assert(h[i] == dec_digits(v / 10)[i]);
            }
        }
    } else {
        assert(safe_name_char(digit_char(v as int)));
    }
}

/// Every name given to a recovered file, with or without a suffix, is made only of ASCII
/// letters, digits, `_` and `.`: nothing in it can name another folder or device.
pub proof fn lemma_recovery_name_safe(format: ImageFormat, offset: u64, suffix: nat)
    ensures
        forall|i: int|
            0 <= i < recovery_name(format, offset, suffix).len() ==> safe_name_char(
                #[trigger] recovery_name(format, offset, suffix)[i],
            ),
{
    reveal_strlit("recovered_");
    reveal_strlit(".");
    reveal_strlit("_");
    reveal_strlit("jpg");
    reveal_strlit("png");
    reveal_strlit("webp");
    reveal_strlit("heic");
    reveal_strlit("bmp");
    reveal_strlit("gif");
    lemma_hex_digits_safe(offset as nat, 16);
    lemma_dec_digits_safe(suffix);
    let stem = recovery_stem(offset);
    let ext = format.extension_text();
    assert forall|i: int| 0 <= i < stem.len() implies safe_name_char(#[trigger] stem[i]) by {
        if i >= 10 {
            assert(stem[i] == hex_digits(offset as nat, 16)[i - 10]);
        }
    }
    assert forall|i: int| 0 <= i < ext.len() implies safe_name_char(#[trigger] ext[i]) by {}
    let p = pad3(suffix);
    let dd = dec_digits(suffix);
    assert forall|i: int| 0 <= i < p.len() implies safe_name_char(#[trigger] p[i]) by {
        if dd.len() < 3 {
            let z = Seq::new((3 - dd.len()) as nat, |k: int| '0');
            assert(p == z + dd);
            if i >= z.len() {
                assert(p[i] == dd[i - z.len()]);
            }
        }
    }
    let name = recovery_name(format, offset, suffix);
    assert forall|i: int| 0 <= i < name.len() implies safe_name_char(#[trigger] name[i]) by {
        if suffix == 0 {
            if i < stem.len() {
                assert(name[i] == stem[i]);
            } else if i > stem.len() {
                assert(name[i] == ext[i - stem.len() - 1]);
            }
        } else {
            if i < stem.len() {
                assert(name[i] == stem[i]);
            } else if stem.len() < i < stem.len() + 1 + p.len() {
                assert(name[i] == p[i - stem.len() - 1]);
            } else if i > stem.len() + 1 + p.len() {
                assert(name[i] == ext[i - stem.len() - 2 - p.len()]);
            }
        }
    }
}

proof fn lemma_hex_digits_len(v: nat, n: nat)
    ensures
        hex_digits(v, n).len() == n,
    decreases n,
{
    if n > 0 {
        lemma_hex_digits_len(v / 16, (n - 1) as nat);
    }
}

fn push_hex(s: &mut String, v: u64, n: u32)
    ensures
        final(s)@ == old(s)@ + hex_digits(v as nat, n as nat),
    decreases n,
{
    if n == 0 {
        assert(old(s)@ + hex_digits(v as nat, 0) =~= old(s)@);
        return;
    }
    push_hex(s, v / 16, n - 1);
    let d = (v % 16) as u8;
    let c = if d < 10 {
        (48u8 + d) as char
    } else {
        (55u8 + d) as char
    };
    push_char(s, c);
    assert(final(s)@ =~= old(s)@ + hex_digits(v as nat, n as nat));
}

fn decimal_chars(v: u64) -> (r: Vec<char>)
    ensures
        r@ == dec_digits(v as nat),
    decreases v,
{
    if v < 10 {
        let mut out: Vec<char> = Vec::new();
        out.push((48u8 + v as u8) as char);
        assert(out@ =~= dec_digits(v as nat));
        out
    } else {
        let mut out = decimal_chars(v / 10);
        out.push((48u8 + (v % 10) as u8) as char);
        assert(out@ =~= dec_digits(v as nat));
        out
    }
}

/// The name of a recovered file: `recovered_` and the offset in sixteen upper-case
/// hexadecimal digits, then the format's extension.
pub fn safe_recovery_name(format: ImageFormat, offset: u64) -> (r: String)
    ensures
        r@ == recovery_name(format, offset, 0),
{
    let mut name = String::from_str("recovered_");
    push_hex(&mut name, offset, 16);
    name.append(".");
    name.append(format.extension());
    name
}

/// The name with `suffix`, as `recovery_name` gives it.
pub fn suffixed_recovery_name(format: ImageFormat, offset: u64, suffix: u32) -> (r: String)
    ensures
        r@ == recovery_name(format, offset, suffix as nat),
{
    if suffix == 0 {
        return safe_recovery_name(format, offset);
    }
    let mut name = String::from_str("recovered_");
    push_hex(&mut name, offset, 16);
    name.append("_");
    let digits = decimal_chars(suffix as u64);
    let mut zeros: Vec<char> = Vec::new();
    let mut k = digits.len();
    while k < 3
        invariant
            digits.len() <= k <= 3 || (k == digits.len() && k >= 3),
            zeros@ == Seq::new((k - digits.len()) as nat, |i: int| '0'),
        decreases 3 - k,
    {
        zeros.push('0');
        k = k + 1;
        assert(zeros@ =~= Seq::new((k - digits.len()) as nat, |i: int| '0'));
    }
    push_str_chars(&mut name, &zeros);
    push_str_chars(&mut name, &digits);
    name.append(".");
    name.append(format.extension());
    proof {
        let d = dec_digits(suffix as nat);
        if d.len() >= 3 {
            assert(zeros@ =~= Seq::<char>::empty());
        }
        assert(name@ =~= recovery_name(format, offset, suffix as nat));
    }
    name
}

/// One of `names` is `name` when ASCII letters are compared without case, as the FAT, exFAT
/// and NTFS volumes that recovered files go to compare file names.
pub open spec fn name_taken(names: Seq<String>, name: Seq<char>) -> bool {
    exists|i: int| 0 <= i < names.len() && eq_ignore_ascii_case((#[trigger] names[i])@, name)
}

/// Whether one of `names` is `name`, ignoring the case of ASCII letters.
pub fn names_contain(names: &Vec<String>, name: &String) -> (r: bool)
    ensures
        r == name_taken(names@, name@),
{
    let wanted = chars_of(name.as_str());
    let mut i: usize = 0;
    while i < names.len()
        invariant
            i <= names.len(),
            wanted@ == name@,
            forall|k: int| 0 <= k < i ==> !eq_ignore_ascii_case((#[trigger] names@[k])@, name@),
        decreases names.len() - i,
    {
        let present = chars_of(names[i].as_str());
        if chars_eq_ignore_ascii_case(&present, &wanted) {
            return true;
        }
        i = i + 1;
    }
    false
}


/// The first name of the candidate's file, counting suffixes up from zero, that none of
/// `taken` uses; `None` only when every suffix a `u32` can hold is taken.
pub fn unique_recovery_name(format: ImageFormat, offset: u64, taken: &Vec<String>) -> (r: Option<
    String,
>)
    ensures
        r matches Some(name) ==> !name_taken(taken@, name@),
        r matches Some(name) ==> exists|k: nat|
            k <= u32::MAX && name@ == #[trigger] recovery_name(format, offset, k) && (forall|j: nat|
                j < k ==> name_taken(taken@, #[trigger] recovery_name(format, offset, j))),
        r is None ==> forall|j: nat|
            j <= u32::MAX ==> name_taken(taken@, #[trigger] recovery_name(format, offset, j)),
{
    let mut suffix: u32 = 0;
    loop
        invariant
            forall|j: nat| j < suffix ==> name_taken(taken@, #[trigger] recovery_name(format, offset, j)),
        decreases u32::MAX - suffix,
    {
        let name = suffixed_recovery_name(format, offset, suffix);
        if !names_contain(taken, &name) {
            assert(name@ == recovery_name(format, offset, suffix as nat));
            return Some(name);
        }
        if suffix == u32::MAX {
            assert forall|j: nat| j <= u32::MAX implies name_taken(
                taken@,
                #[trigger] recovery_name(format, offset, j),
            ) by {
                if j == suffix {
                    assert(name@ == recovery_name(format, offset, j));
                }
            }
            return None;
        }
        suffix = suffix + 1;
    }
}


// ---------------------------------------------------------------- recovered files

/// A file written by a recovery.
#[derive(Debug, Clone)]
pub struct RecoveredFile {
    pub candidate_id: uuid::Uuid,
    pub path: String,
    pub bytes_written: u64,
    pub sha256: String,
}

impl RecoveredFile {
    /// The record of a recovery that wrote `data` to `path`: its size and its SHA-256
    /// digest in lower-case hexadecimal.
    pub fn for_written_bytes(candidate_id: uuid::Uuid, path: String, data: &[u8]) -> (r: Self)
        ensures
            r.candidate_id == candidate_id,
            r.path == path,
            r.bytes_written == data@.len(),
            r.sha256@ == lower_hex(sha256_digest(data@)),
    {
        RecoveredFile {
            candidate_id,
            path,
            bytes_written: data.len() as u64,
            sha256: sha256_hex(data),
        }
    }
}

/// Where one candidate is written: a category folder and a file name in it.
#[derive(Debug, Clone)]
pub struct RecoveryTarget {
    pub bucket: &'static str,
    pub file_name: String,
}

/// Decides where recovered candidates go.
pub struct RecoveryService;

impl RecoveryService {
    /// The folder for the candidate's status, and the first free name for it there given
    /// the names `taken` in that folder; `None` when no suffix is free.
    pub fn target_for(candidate: &RecoveryCandidate, taken: &Vec<String>) -> (r: Option<
        RecoveryTarget,
    >)
        ensures
            r is None <==> forall|j: nat|
                j <= u32::MAX ==> name_taken(
                    taken@,
                    #[trigger] recovery_name(candidate.format, candidate.offset, j),
                ),
            r matches Some(t) ==> t.bucket@ == bucket_text(candidate.status) && !name_taken(
                taken@,
                t.file_name@,
            ) && exists|k: nat|
                k <= u32::MAX && t.file_name@ == #[trigger] recovery_name(
                    candidate.format,
                    candidate.offset,
                    k,
                ) && (forall|j: nat|
                    j < k ==> name_taken(
                        taken@,
                        #[trigger] recovery_name(candidate.format, candidate.offset, j),
                    )),
    {
        match unique_recovery_name(candidate.format, candidate.offset, taken) {
            Some(file_name) => Some(
                RecoveryTarget { bucket: recovery_bucket_name(candidate.status), file_name },
            ),
            None => None,
        }
    }
}

} // verus!
