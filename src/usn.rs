//! Decoding of the packed version-2 USN records that the volume returns,
//! both from MFT enumeration and from change-journal reads.

use vstd::prelude::*;

verus! {

/// Bytes of a record before its name: everything the decoder reads.
pub const RECORD_HEADER: usize = 60;

pub const FILE_ATTRIBUTE_DIRECTORY: u32 = 0x10;

/// The low 48 bits of a file reference: the MFT entry without its sequence number.
pub const REF_MASK: u64 = 0xFFFF_FFFF_FFFF;

/// What `String::from_utf16` makes of these code units: the characters, or
/// nothing when a surrogate is unpaired.
pub uninterp spec fn utf16_decoded(units: Seq<u16>) -> Option<Seq<char>>;

/// Relies on `String::from_utf16`: the string the code units encode, or an
/// error for invalid UTF-16.
#[verifier::external_body]
fn decode_utf16(units: &[u16]) -> (r: Option<String>)
    ensures
        match r {
            Some(s) => utf16_decoded(units@) == Some(s@),
            None => utf16_decoded(units@) is None,
        },
{
    String::from_utf16(units).ok()
}

pub open spec fn u16_at(b: Seq<u8>, o: int) -> u16 {
    (b[o] as int + b[o + 1] as int * 0x100) as u16
}

pub open spec fn u32_at(b: Seq<u8>, o: int) -> u32 {
    (b[o] as int + b[o + 1] as int * 0x100 + b[o + 2] as int * 0x10000 + b[o + 3] as int
        * 0x1000000) as u32
}

pub open spec fn u64_at(b: Seq<u8>, o: int) -> u64 {
    (u32_at(b, o) as int + u32_at(b, o + 4) as int * 0x1_0000_0000) as u64
}

/// The little-endian `u16` at `o`.
pub fn read_u16(b: &[u8], o: usize) -> (r: u16)
    requires
        o + 2 <= b@.len(),
    ensures
        r == u16_at(b@, o as int),
{
    (b[o] as u16) + (b[o + 1] as u16) * 0x100
}

/// The little-endian `u32` at `o`.
pub fn read_u32(b: &[u8], o: usize) -> (r: u32)
    requires
        o + 4 <= b@.len(),
    ensures
        r == u32_at(b@, o as int),
{
    (b[o] as u32) + (b[o + 1] as u32) * 0x100 + (b[o + 2] as u32) * 0x10000 + (b[o + 3] as u32)
        * 0x1000000
}

/// The little-endian `u64` at `o`.
pub fn read_u64(b: &[u8], o: usize) -> (r: u64)
    requires
        o + 8 <= b@.len(),
    ensures
        r == u64_at(b@, o as int),
{
    let n = b.len();
    assert(o + 8 <= n);
    let lo = read_u32(b, o) as u64;
    let hi = read_u32(b, o + 4) as u64;
    assert(hi * 0x1_0000_0000 <= 0xFFFF_FFFF_0000_0000) by (nonlinear_arith)
        requires hi <= 0xFFFF_FFFF;
    lo + hi * 0x1_0000_0000
}

/// The UTF-16 code units of `len` bytes at `o` (an odd last byte is ignored).
pub open spec fn units_at(b: Seq<u8>, o: int, len: int) -> Seq<u16> {
    Seq::new((len / 2) as nat, |k: int| u16_at(b, o + 2 * k))
}

/// One decoded record.
#[derive(Clone, Debug)]
pub struct RawRecord {
    pub file_ref: u64,
    pub parent_ref: u64,
    pub usn: u64,
    pub reason: u32,
    pub attributes: u32,
    pub name: String,
}

pub struct RawView {
    pub file_ref: u64,
    pub parent_ref: u64,
    pub usn: u64,
    pub reason: u32,
    pub attributes: u32,
    pub name: Seq<char>,
}

impl View for RawRecord {
    type V = RawView;

    open spec fn view(&self) -> RawView {
        RawView {
            file_ref: self.file_ref,
            parent_ref: self.parent_ref,
            usn: self.usn,
            reason: self.reason,
            attributes: self.attributes,
            name: self.name@,
        }
    }
}

pub open spec fn raw_views(s: Seq<RawRecord>) -> Seq<RawView> {
    s.map_values(|r: RawRecord| r@)
}

/// The name's code units lie inside the first `n` bytes and are not empty.
pub open spec fn name_in_bounds(b: Seq<u8>, n: int, off: int) -> bool {
    let noff = off + u16_at(b, off + 58) as int;
    let nlen = u16_at(b, off + 56) as int;
    nlen > 0 && noff + nlen <= n
}

/// The record at `off`, when its name is in bounds and valid UTF-16.
pub open spec fn record_at(b: Seq<u8>, n: int, off: int) -> Option<RawView> {
    let noff = off + u16_at(b, off + 58) as int;
    let nlen = u16_at(b, off + 56) as int;
    if !name_in_bounds(b, n, off) {
        None
    } else {
        match utf16_decoded(units_at(b, noff, nlen)) {
            Some(name) => Some(
                RawView {
                    file_ref: u64_at(b, off + 8),
                    parent_ref: u64_at(b, off + 16),
                    usn: u64_at(b, off + 24),
                    reason: u32_at(b, off + 40),
                    attributes: u32_at(b, off + 52),
                    name,
                },
            ),
            None => None,
        }
    }
}

/// The records of the first `n` bytes of `b` from `off` on. Each starts with
/// its length; the walk stops at a zero length or when a header no longer fits.
pub open spec fn records_from(b: Seq<u8>, n: int, off: int) -> Seq<RawView>
    decreases n - off,
{
    if off < 0 || off + RECORD_HEADER > n || n > b.len() {
        Seq::empty()
    } else if u32_at(b, off) == 0 {
        Seq::empty()
    } else {
        let here = match record_at(b, n, off) {
            Some(r) => seq![r],
            None => Seq::empty(),
        };
        let next = off + u32_at(b, off) as int;
        if next <= n {
            here + records_from(b, n, next)
        } else {
            here
        }
    }
}

/// The records of a buffer that the volume filled with `n` bytes: an
/// eight-byte cursor, then packed records.
pub open spec fn buffer_records(b: Seq<u8>, n: int) -> Seq<RawView> {
    records_from(b, n, 8)
}

fn record_at_exec(b: &[u8], n: usize, off: usize) -> (r: Option<RawRecord>)
    requires
        n <= b@.len(),
        off + RECORD_HEADER <= n,
    ensures
        match r {
            Some(x) => record_at(b@, n as int, off as int) == Some(x@),
            None => record_at(b@, n as int, off as int) is None,
        },
{
    let nlen = read_u16(b, off + 56) as usize;
    let rel = read_u16(b, off + 58) as usize;
    if rel > n - off {
        return None;
    }
    let noff = off + rel;
    if nlen == 0 || nlen > n - noff {
        return None;
    }
    let mut units: Vec<u16> = Vec::new();
    let mut k: usize = 0;
    while k < nlen / 2
        invariant
            noff + nlen <= n <= b@.len(),
            k <= nlen / 2,
            units@ =~= units_at(b@, noff as int, nlen as int).subrange(0, k as int),
        decreases nlen / 2 - k,
    {
        assert(2 * k + 2 <= nlen) by (nonlinear_arith)
            requires k < nlen / 2;
        units.push(read_u16(b, noff + 2 * k));
        k = k + 1;
    }
    assert(units@ =~= units_at(b@, noff as int, nlen as int));
    match decode_utf16(units.as_slice()) {
        Some(name) => Some(
            RawRecord {
                file_ref: read_u64(b, off + 8),
                parent_ref: read_u64(b, off + 16),
                usn: read_u64(b, off + 24),
                reason: read_u32(b, off + 40),
                attributes: read_u32(b, off + 52),
                name,
            },
        ),
        None => None,
    }
}

/// Decodes the records of a buffer that the volume filled with `n` bytes.
pub fn parse_records(b: &[u8], n: usize) -> (r: Vec<RawRecord>)
    requires
        n <= b@.len(),
    ensures
        raw_views(r@) == buffer_records(b@, n as int),
{
    let mut out: Vec<RawRecord> = Vec::new();
    let mut off: usize = 8;
    while off <= n && n - off >= RECORD_HEADER
        invariant
            n <= b@.len(),
            buffer_records(b@, n as int) == raw_views(out@) + records_from(b@, n as int, off as int),
        decreases n - off,
    {
        let len = read_u32(b, off) as usize;
        if len == 0 {
            assert(raw_views(out@) + records_from(b@, n as int, off as int) =~= raw_views(out@));
            return out;
        }
        let ghost prev = raw_views(out@);
        let ghost here: Seq<RawView> = match record_at(b@, n as int, off as int) {
            Some(r) => seq![r],
            None => Seq::empty(),
        };
        match record_at_exec(b, n, off) {
            Some(rec) => {
                let ghost rv = rec@;
                out.push(rec);
                assert(raw_views(out@) =~= prev.push(rv));
                assert(raw_views(out@) =~= prev + here);
            },
            None => {
                assert(raw_views(out@) =~= prev + here);
            },
        }
        if len > n - off {
            assert(raw_views(out@) =~= raw_views(out@) + Seq::<RawView>::empty());
            return out;
        }
        assert(raw_views(out@) + records_from(b@, n as int, off + len) =~= prev + (here
            + records_from(b@, n as int, off + len)));
        off = off + len;
    }
    proof {
        assert(raw_views(out@) + records_from(b@, n as int, off as int) =~= raw_views(out@));
    }
    out
}

/// The cursor at the start of a filled buffer: the next USN, or the next
/// start file reference of an enumeration.
pub fn buffer_cursor(b: &[u8], n: usize) -> (r: Option<u64>)
    requires
        n <= b@.len(),
    ensures
        n > 8 ==> r == Some(u64_at(b@, 0)),
        n <= 8 ==> r is None,
{
    if n > 8 {
        Some(read_u64(b, 0))
    } else {
        None
    }
}

} // verus!
