//! Pack index decoding: header and version validation, the cumulative
//! fanout table, the three parallel entry tables and two-tier offset
//! resolution.
//!
//! The wire layout, over one byte buffer:
//! magic and version (8 bytes), 256 cumulative big-endian 32-bit counters
//! (the fanout table, whose last value is the entry count N), N digests of
//! 20 bytes, N big-endian 32-bit checksums, N big-endian 32-bit packed
//! offsets, then one big-endian 64-bit extended offset for each packed
//! offset whose high bit is set, in entry order.

use vstd::prelude::*;

use crate::endian::{be32_at, be64_at, read_be_u32, read_be_u64};

verus! {

/// Magic value that opens every supported index stream.
pub const MAGIC: u32 = 0xFF74_4F63;

/// The only format version this decoder accepts.
pub const SUPPORTED_VERSION: u32 = 2;

/// Bytes taken by magic and version together.
pub const HEADER_BYTES: usize = 8;

/// Number of cumulative counters in the fanout table.
pub const FANOUT_ENTRIES: usize = 256;

/// First byte position after the header and the fanout table.
pub const ENTRY_START: usize = 1032;

/// Bytes in one digest.
pub const DIGEST_BYTES: usize = 20;

/// Which fixed-width run of the stream a short read happened in.
#[derive(Clone, Copy, Debug, PartialEq, Eq, Structural)]
pub enum Stage {
    Fanout,
    Digest,
    Checksum,
    RawOffset,
    Extension,
}

/// Validation failures; every one aborts the whole decode.
#[derive(Clone, Copy, Debug, PartialEq, Eq, Structural)]
pub enum FormatError {
    /// Magic mismatch, or too few bytes to hold the header.
    BadHeader,
    /// The version field holds anything but the supported version.
    UnsupportedVersion,
    /// A fanout counter is smaller than its predecessor.
    CorruptFanout,
    /// The stream ended inside the named element of the named run.
    Truncated(Stage, u32),
    /// A packed offset with the high bit set whose low 31 bits (the second
    /// field) are not the next sequential extension index (the first).
    InconsistentExtensionIndex(u32, u32),
}

/// One index entry as stored on the wire.
#[derive(Clone, Copy, Debug)]
pub struct Entry {
    pub sha1: [u8; 20],
    pub crc: u32,
    pub off: u32,
}

impl Default for Entry {
    /// The all-zero entry used to pre-fill the entry array.
    fn default() -> (r: Self)
        ensures
            r.sha1@ == Seq::new(20, |i: int| 0u8),
            r.crc == 0u32,
            r.off == 0u32,
    {
        let r = Entry { sha1: [0u8; 20], crc: 0u32, off: 0u32 };
        proof {
            assert(r.sha1@ =~= Seq::new(20, |i: int| 0u8));
        }
        r
    }
}

/// One fully decoded entry: the resolved 64-bit storage offset beside the
/// fields copied from the entry tables.
#[derive(Clone, Copy, Debug)]
pub struct IndexRecord {
    pub offset: u64,
    pub sha1: [u8; 20],
    pub crc: u32,
}

// ---------------------------------------------------------------------------
// Specification of the wire format
// ---------------------------------------------------------------------------

/// Header acceptance: enough bytes, the magic, the supported version.
pub open spec fn spec_check_header(s: Seq<u8>) -> Result<(), FormatError> {
    if s.len() < HEADER_BYTES {
        Err(FormatError::BadHeader)
    } else if be32_at(s, 0) != MAGIC {
        Err(FormatError::BadHeader)
    } else if be32_at(s, 4) != SUPPORTED_VERSION {
        Err(FormatError::UnsupportedVersion)
    } else {
        Ok(())
    }
}

/// The `j`-th cumulative fanout counter.
pub open spec fn fanout_val(s: Seq<u8>, j: int) -> u32
    recommends
        0 <= j < FANOUT_ENTRIES,
        s.len() >= HEADER_BYTES + 4 * j + 4,
{
    be32_at(s, HEADER_BYTES + 4 * j)
}

/// Reading the fanout table from counter `j` on, the previous counter being
/// `prev`: the first short element gives `Truncated`, the first decrease
/// `CorruptFanout`, and otherwise the last counter comes back.
pub open spec fn spec_fanout_from(s: Seq<u8>, j: int, prev: u32) -> Result<u32, FormatError>
    recommends
        0 <= j <= FANOUT_ENTRIES,
    decreases FANOUT_ENTRIES - j,
{
    if j < 0 || j >= FANOUT_ENTRIES {
        Ok(prev)
    } else if s.len() < HEADER_BYTES + 4 * j + 4 {
        Err(FormatError::Truncated(Stage::Fanout, j as u32))
    } else if fanout_val(s, j) < prev {
        Err(FormatError::CorruptFanout)
    } else {
        spec_fanout_from(s, j + 1, fanout_val(s, j))
    }
}

/// Reading the whole fanout table; on success the result is the entry count.
pub open spec fn spec_fanout(s: Seq<u8>) -> Result<u32, FormatError> {
    spec_fanout_from(s, 0, 0u32)
}

/// End of the digest run for entry count `n`.
pub open spec fn digests_end(n: int) -> int {
    ENTRY_START + DIGEST_BYTES * n
}

/// End of the checksum run for entry count `n`.
pub open spec fn checksums_end(n: int) -> int {
    digests_end(n) + 4 * n
}

/// End of the packed-offset run, and so of all three entry tables.
pub open spec fn entries_end(n: int) -> int {
    checksums_end(n) + 4 * n
}

/// First byte position of the extended offset table.
pub open spec fn ext_base(n: int) -> int {
    entries_end(n)
}

/// The 20 digest bytes of entry `i`.
pub open spec fn digest_seq(s: Seq<u8>, i: int) -> Seq<u8>
    recommends
        0 <= i,
        s.len() >= ENTRY_START + DIGEST_BYTES * i + DIGEST_BYTES,
{
    s.subrange(ENTRY_START + DIGEST_BYTES * i, ENTRY_START + DIGEST_BYTES * i + DIGEST_BYTES)
}

/// The checksum of entry `i`, for entry count `n`.
pub open spec fn checksum_at(s: Seq<u8>, n: int, i: int) -> u32
    recommends
        0 <= i < n,
        s.len() >= checksums_end(n),
{
    be32_at(s, digests_end(n) + 4 * i)
}

/// The packed 32-bit offset of entry `i`, for entry count `n`.
pub open spec fn raw_offset_at(s: Seq<u8>, n: int, i: int) -> u32
    recommends
        0 <= i < n,
        s.len() >= entries_end(n),
{
    be32_at(s, checksums_end(n) + 4 * i)
}

/// Whether a packed offset defers to the extended offset table.
pub open spec fn has_ext(off: u32) -> bool {
    off & 0x8000_0000 != 0
}

/// The low 31 bits of a packed offset.
pub open spec fn low31(off: u32) -> u32 {
    off & 0x7FFF_FFFF
}

/// The `k`-th extended offset, for entry count `n`.
pub open spec fn ext_val(s: Seq<u8>, n: int, k: int) -> u64
    recommends
        0 <= k,
        s.len() >= ext_base(n) + 8 * k + 8,
{
    be64_at(s, ext_base(n) + 8 * k)
}

/// Acceptance of the three entry tables: all their bytes must be present;
/// a short stream names the run and the element the end fell in.
pub open spec fn spec_entry_tables(s: Seq<u8>, n: int) -> Result<(), FormatError>
    recommends
        s.len() >= ENTRY_START,
        0 <= n,
{
    let len = s.len() as int;
    if len >= entries_end(n) {
        Ok(())
    } else if len < digests_end(n) {
        Err(FormatError::Truncated(Stage::Digest, ((len - ENTRY_START) / DIGEST_BYTES as int) as u32))
    } else if len < checksums_end(n) {
        Err(FormatError::Truncated(Stage::Checksum, ((len - digests_end(n)) / 4) as u32))
    } else {
        Err(FormatError::Truncated(Stage::RawOffset, ((len - checksums_end(n)) / 4) as u32))
    }
}

/// Resolving offsets from entry `i` on, `k` extension reads having been
/// consumed already: a direct offset widens unchanged; a high-bit offset
/// must name extension index `k` exactly and takes the next extended value.
pub open spec fn spec_resolve_from(s: Seq<u8>, n: int, i: int, k: int) -> Result<
    Seq<u64>,
    FormatError,
>
    recommends
        0 <= i <= n,
        0 <= k,
        s.len() >= entries_end(n),
    decreases n - i,
{
    if i < 0 || i >= n {
        Ok(Seq::empty())
    } else {
        let off = raw_offset_at(s, n, i);
        if !has_ext(off) {
            match spec_resolve_from(s, n, i + 1, k) {
                Ok(rest) => Ok(seq![off as u64] + rest),
                Err(e) => Err(e),
            }
        } else if low31(off) != k as u32 {
            Err(FormatError::InconsistentExtensionIndex(k as u32, off))
        } else if s.len() < ext_base(n) + 8 * k + 8 {
            Err(FormatError::Truncated(Stage::Extension, k as u32))
        } else {
            match spec_resolve_from(s, n, i + 1, k + 1) {
                Ok(rest) => Ok(seq![ext_val(s, n, k)] + rest),
                Err(e) => Err(e),
            }
        }
    }
}

/// The whole decode: header, fanout, entry tables, then offset resolution.
/// On success the result is the resolved 64-bit offset of each entry, in
/// file order.
pub open spec fn spec_decode(s: Seq<u8>) -> Result<Seq<u64>, FormatError> {
    match spec_check_header(s) {
        Err(e) => Err(e),
        Ok(u) => match spec_fanout(s) {
            Err(e) => Err(e),
            Ok(n) => match spec_entry_tables(s, n as int) {
                Err(e) => Err(e),
                Ok(v) => spec_resolve_from(s, n as int, 0, 0),
            },
        },
    }
}

/// The entry count of a stream whose header and fanout table are accepted.
pub open spec fn spec_count(s: Seq<u8>) -> int
    recommends
        spec_fanout(s) is Ok,
{
    spec_fanout(s)->Ok_0 as int
}

// ---------------------------------------------------------------------------
// Executable decoder
// ---------------------------------------------------------------------------

/// Validates magic and version.
pub fn check_header(bytes: &Vec<u8>) -> (r: Result<(), FormatError>)
    ensures
        r == spec_check_header(bytes@),
{
    if bytes.len() < HEADER_BYTES {
        return Err(FormatError::BadHeader);
    }
    let magic = read_be_u32(bytes, 0);
    if magic != MAGIC {
        return Err(FormatError::BadHeader);
    }
    let version = read_be_u32(bytes, 4);
    if version != SUPPORTED_VERSION {
        return Err(FormatError::UnsupportedVersion);
    }
    Ok(())
}

/// Reads the 256 cumulative counters, rejecting any decrease, and returns
/// the entry count: the last counter.
pub fn read_fanout(bytes: &Vec<u8>) -> (r: Result<u32, FormatError>)
    ensures
        r == spec_fanout(bytes@),
{
    let mut prev: u32 = 0;
    let mut j: usize = 0;
    while j < FANOUT_ENTRIES
        invariant
            0 <= j <= FANOUT_ENTRIES,
            spec_fanout(bytes@) == spec_fanout_from(bytes@, j as int, prev),
        decreases FANOUT_ENTRIES - j,
    {
        let pos = HEADER_BYTES + 4 * j;
        if bytes.len() < pos + 4 {
            return Err(FormatError::Truncated(Stage::Fanout, j as u32));
        }
        let v = read_be_u32(bytes, pos);
        if v < prev {
            return Err(FormatError::CorruptFanout);
        }
        prev = v;
        j = j + 1;
    }
    Ok(prev)
}

/// Reads the three entry tables in strict sequence — all digests, then all
/// checksums, then all packed offsets — and zips them into entries in file
/// order.
pub fn read_entries(bytes: &Vec<u8>, n: u32) -> (r: Result<Vec<Entry>, FormatError>)
    requires
        bytes@.len() >= ENTRY_START,
    ensures
        r is Ok <==> spec_entry_tables(bytes@, n as int) is Ok,
        r is Err ==> spec_entry_tables(bytes@, n as int) == Err::<(), FormatError>(r->Err_0),
        r is Ok ==> r->Ok_0@.len() == n && (forall|i: int|
            0 <= i < n ==> (#[trigger] r->Ok_0@[i]).sha1@ == digest_seq(bytes@, i)
                && r->Ok_0@[i].crc == checksum_at(bytes@, n as int, i) && r->Ok_0@[i].off
                == raw_offset_at(bytes@, n as int, i)),
{
    let len = bytes.len();
    let nn = n as usize;
    let mut cursor: usize = ENTRY_START;

    let mut digests: Vec<[u8; 20]> = Vec::new();
    let mut i: usize = 0;
    while i < nn
        invariant
            0 <= i <= nn,
            nn == n,
            len == bytes@.len(),
            len >= ENTRY_START,
            cursor as int == ENTRY_START + DIGEST_BYTES * i,
            cursor <= len,
            digests@.len() == i,
            forall|j: int| 0 <= j < i ==> (#[trigger] digests@[j])@ == digest_seq(bytes@, j),
        decreases nn - i,
    {
        if len - cursor < DIGEST_BYTES {
            proof {
                assert((len - ENTRY_START) / (DIGEST_BYTES as int) == i) by (nonlinear_arith)
                    requires
                        cursor as int == ENTRY_START + DIGEST_BYTES * i,
                        cursor <= len,
                        len - cursor < DIGEST_BYTES,
                        ENTRY_START == 1032,
                        DIGEST_BYTES == 20,
                ;
                assert(len < digests_end(n as int)) by (nonlinear_arith)
                    requires
                        cursor as int == ENTRY_START + DIGEST_BYTES * i,
                        len - cursor < DIGEST_BYTES,
                        i < n,
                        digests_end(n as int) == ENTRY_START + DIGEST_BYTES * (n as int),
                ;
            }
            return Err(FormatError::Truncated(Stage::Digest, i as u32));
        }
        let mut a = [0u8; 20];
        let mut t: usize = 0;
        while t < DIGEST_BYTES
            invariant
                0 <= t <= DIGEST_BYTES,
                cursor + DIGEST_BYTES <= len,
                len == bytes@.len(),
                a@.len() == 20,
                forall|u: int| 0 <= u < t ==> a@[u] == bytes@[cursor + u],
            decreases DIGEST_BYTES - t,
        {
            a[t] = bytes[cursor + t];
            t = t + 1;
        }
        proof {
            assert(a@ =~= digest_seq(bytes@, i as int));
        }
        digests.push(a);
        cursor = cursor + DIGEST_BYTES;
        i = i + 1;
    }

    let mut crcs: Vec<u32> = Vec::new();
    i = 0;
    while i < nn
        invariant
            0 <= i <= nn,
            nn == n,
            len == bytes@.len(),
            cursor as int == digests_end(n as int) + 4 * i,
            cursor <= len,
            crcs@.len() == i,
            forall|j: int| 0 <= j < i ==> #[trigger] crcs@[j] == checksum_at(bytes@, n as int, j),
        decreases nn - i,
    {
        if len - cursor < 4 {
            proof {
                assert((len - digests_end(n as int)) / 4 == i) by (nonlinear_arith)
                    requires
                        cursor as int == digests_end(n as int) + 4 * i,
                        cursor <= len,
                        len - cursor < 4,
                ;
                assert(len >= digests_end(n as int) && len < checksums_end(n as int))
                    by (nonlinear_arith)
                    requires
                        cursor as int == digests_end(n as int) + 4 * i,
                        cursor <= len,
                        len - cursor < 4,
                        0 <= i < n,
                        checksums_end(n as int) == digests_end(n as int) + 4 * (n as int),
                ;
            }
            return Err(FormatError::Truncated(Stage::Checksum, i as u32));
        }
        let c = read_be_u32(bytes, cursor);
        crcs.push(c);
        cursor = cursor + 4;
        i = i + 1;
    }

    let mut offs: Vec<u32> = Vec::new();
    i = 0;
    while i < nn
        invariant
            0 <= i <= nn,
            nn == n,
            len == bytes@.len(),
            cursor as int == checksums_end(n as int) + 4 * i,
            cursor <= len,
            offs@.len() == i,
            forall|j: int| 0 <= j < i ==> #[trigger] offs@[j] == raw_offset_at(bytes@, n as int, j),
        decreases nn - i,
    {
        if len - cursor < 4 {
            proof {
                assert((len - checksums_end(n as int)) / 4 == i) by (nonlinear_arith)
                    requires
                        cursor as int == checksums_end(n as int) + 4 * i,
                        cursor <= len,
                        len - cursor < 4,
                ;
                assert(len >= checksums_end(n as int) && len < entries_end(n as int))
                    by (nonlinear_arith)
                    requires
                        cursor as int == checksums_end(n as int) + 4 * i,
                        cursor <= len,
                        len - cursor < 4,
                        0 <= i < n,
                        entries_end(n as int) == checksums_end(n as int) + 4 * (n as int),
                ;
            }
            return Err(FormatError::Truncated(Stage::RawOffset, i as u32));
        }
        let o = read_be_u32(bytes, cursor);
        offs.push(o);
        cursor = cursor + 4;
        i = i + 1;
    }

    let mut entries: Vec<Entry> = Vec::new();
    i = 0;
    while i < nn
        invariant
            0 <= i <= nn,
            nn == n,
            digests@.len() == nn,
            crcs@.len() == nn,
            offs@.len() == nn,
            forall|j: int| 0 <= j < nn ==> (#[trigger] digests@[j])@ == digest_seq(bytes@, j),
            forall|j: int| 0 <= j < nn ==> #[trigger] crcs@[j] == checksum_at(bytes@, n as int, j),
            forall|j: int| 0 <= j < nn ==> #[trigger] offs@[j] == raw_offset_at(bytes@, n as int, j),
            entries@.len() == i,
            forall|j: int| 0 <= j < i ==> (#[trigger] entries@[j]).sha1@ == digest_seq(bytes@, j)
                && entries@[j].crc == checksum_at(bytes@, n as int, j) && entries@[j].off
                == raw_offset_at(bytes@, n as int, j),
        decreases nn - i,
    {
        entries.push(Entry { sha1: digests[i], crc: crcs[i], off: offs[i] });
        i = i + 1;
    }
    Ok(entries)
}

/// Resolves every entry's 64-bit storage offset in file order: a packed
/// offset with the high bit clear widens unchanged; one with the high bit
/// set must carry the next sequential extension index in its low 31 bits
/// and takes the next extended offset from the stream.
pub fn resolve_offsets(bytes: &Vec<u8>, n: u32, entries: &Vec<Entry>) -> (r: Result<
    Vec<u64>,
    FormatError,
>)
    requires
        bytes@.len() >= entries_end(n as int),
        entries@.len() == n,
        forall|i: int| 0 <= i < n ==> (#[trigger] entries@[i]).off == raw_offset_at(
            bytes@,
            n as int,
            i,
        ),
    ensures
        match spec_resolve_from(bytes@, n as int, 0, 0) {
            Ok(vals) => r is Ok && r->Ok_0@ == vals,
            Err(e) => r is Err && r->Err_0 == e,
        },
{
    let len = bytes.len();
    let nn = n as usize;
    proof {
        assert(ENTRY_START + 28 * (n as int) == entries_end(n as int));
        assert(28 * (n as int) == 28 * (nn as int));
    }
    let mut cursor: usize = ENTRY_START + 28 * nn;
    let mut out: Vec<u64> = Vec::new();
    let mut k: u32 = 0;
    let mut i: usize = 0;
    while i < nn
        invariant
            0 <= i <= nn,
            nn == n,
            k <= i,
            len == bytes@.len(),
            len >= entries_end(n as int),
            entries@.len() == n,
            forall|j: int| 0 <= j < n ==> (#[trigger] entries@[j]).off == raw_offset_at(
                bytes@,
                n as int,
                j,
            ),
            cursor as int == ext_base(n as int) + 8 * k,
            cursor <= len,
            out@.len() == i,
            match spec_resolve_from(bytes@, n as int, i as int, k as int) {
                Ok(rest) => spec_resolve_from(bytes@, n as int, 0, 0) == Ok::<
                    Seq<u64>,
                    FormatError,
                >(out@ + rest),
                Err(e) => spec_resolve_from(bytes@, n as int, 0, 0) == Err::<
                    Seq<u64>,
                    FormatError,
                >(e),
            },
        decreases nn - i,
    {
        let ghost prev_out = out@;
        let off = entries[i].off;
        if off & 0x8000_0000 == 0 {
            out.push(off as u64);
            proof {
                assert(!has_ext(off));
                match spec_resolve_from(bytes@, n as int, i as int + 1, k as int) {
                    Ok(rest) => {
                        assert(prev_out + (seq![off as u64] + rest) =~= out@ + rest);
                    },
                    Err(e) => {},
                }
            }
            i = i + 1;
        } else {
            proof {
                assert(has_ext(off));
            }
            if (off & 0x7FFF_FFFF) != k {
                return Err(FormatError::InconsistentExtensionIndex(k, off));
            }
            if len - cursor < 8 {
                return Err(FormatError::Truncated(Stage::Extension, k));
            }
            let v = read_be_u64(bytes, cursor);
            out.push(v);
            proof {
                assert(v == ext_val(bytes@, n as int, k as int));
                match spec_resolve_from(bytes@, n as int, i as int + 1, k as int + 1) {
                    Ok(rest) => {
                        assert(prev_out + (seq![v] + rest) =~= out@ + rest);
                    },
                    Err(e) => {},
                }
            }
            cursor = cursor + 8;
            k = k + 1;
            i = i + 1;
        }
    }
    proof {
        assert(out@ + Seq::<u64>::empty() =~= out@);
    }
    Ok(out)
}

/// The fanout table only comes back accepted from a stream long enough to
/// hold the whole of it.
proof fn lemma_fanout_from_ok_len(s: Seq<u8>, j: int, prev: u32)
    requires
        0 <= j < FANOUT_ENTRIES,
        spec_fanout_from(s, j, prev) is Ok,
    ensures
        s.len() >= ENTRY_START,
    decreases FANOUT_ENTRIES - j,
{
    if j < FANOUT_ENTRIES - 1 {
        lemma_fanout_from_ok_len(s, j + 1, fanout_val(s, j));
    }
}

/// A successful resolution yields one offset per remaining entry.
proof fn lemma_resolve_from_len(s: Seq<u8>, n: int, i: int, k: int)
    requires
        0 <= i <= n,
        spec_resolve_from(s, n, i, k) is Ok,
    ensures
        spec_resolve_from(s, n, i, k)->Ok_0.len() == n - i,
    decreases n - i,
{
    if i < n {
        let off = raw_offset_at(s, n, i);
        if !has_ext(off) {
            lemma_resolve_from_len(s, n, i + 1, k);
        } else {
            lemma_resolve_from_len(s, n, i + 1, k + 1);
        }
    }
}

/// The whole decode over one byte buffer: validates the header, reads the
/// fanout table, reads the three entry tables, resolves every offset, and
/// returns one record per entry in file order. Trailing bytes after the
/// last consumed field are ignored.
pub fn decode(bytes: &Vec<u8>) -> (r: Result<Vec<IndexRecord>, FormatError>)
    ensures
        r is Ok <==> spec_decode(bytes@) is Ok,
        r is Err ==> spec_decode(bytes@) == Err::<Seq<u64>, FormatError>(r->Err_0),
        r is Ok ==> ({
            let n = spec_count(bytes@);
            &&& r->Ok_0@.len() == n
            &&& spec_decode(bytes@)->Ok_0.len() == n
            &&& (forall|i: int| 0 <= i < n ==> (#[trigger] r->Ok_0@[i]).offset == spec_decode(
                bytes@,
            )->Ok_0[i])
            &&& (forall|i: int| 0 <= i < n ==> (#[trigger] r->Ok_0@[i]).sha1@ == digest_seq(
                bytes@,
                i,
            ))
            &&& (forall|i: int| 0 <= i < n ==> (#[trigger] r->Ok_0@[i]).crc == checksum_at(
                bytes@,
                n,
                i,
            ))
        }),
{
    match check_header(bytes) {
        Err(e) => {
            return Err(e);
        },
        Ok(u) => {},
    }
    let n = match read_fanout(bytes) {
        Ok(n) => n,
        Err(e) => {
            return Err(e);
        },
    };
    proof {
        lemma_fanout_from_ok_len(bytes@, 0, 0u32);
    }
    let entries = match read_entries(bytes, n) {
        Ok(es) => es,
        Err(e) => {
            return Err(e);
        },
    };
    let offsets = match resolve_offsets(bytes, n, &entries) {
        Ok(o) => o,
        Err(e) => {
            return Err(e);
        },
    };
    proof {
        lemma_resolve_from_len(bytes@, n as int, 0, 0);
    }
    let nn = n as usize;
    let mut recs: Vec<IndexRecord> = Vec::new();
    let mut i: usize = 0;
    while i < nn
        invariant
            0 <= i <= nn,
            entries@.len() == nn,
            offsets@.len() == nn,
            recs@.len() == i,
            forall|j: int| 0 <= j < i ==> (#[trigger] recs@[j]).offset == offsets@[j]
                && recs@[j].sha1 == entries@[j].sha1 && recs@[j].crc == entries@[j].crc,
        decreases nn - i,
    {
        recs.push(IndexRecord { offset: offsets[i], sha1: entries[i].sha1, crc: entries[i].crc });
        i = i + 1;
    }
    Ok(recs)
}

/// The lowercase hexadecimal digit for a value below 16.
pub open spec fn hex_digit(n: int) -> char
    recommends
        0 <= n < 16,
{
    if n == 0 {
        '0'
    } else if n == 1 {
        '1'
    } else if n == 2 {
        '2'
    } else if n == 3 {
        '3'
    } else if n == 4 {
        '4'
    } else if n == 5 {
        '5'
    } else if n == 6 {
        '6'
    } else if n == 7 {
        '7'
    } else if n == 8 {
        '8'
    } else if n == 9 {
        '9'
    } else if n == 10 {
        'a'
    } else if n == 11 {
        'b'
    } else if n == 12 {
        'c'
    } else if n == 13 {
        'd'
    } else if n == 14 {
        'e'
    } else {
        'f'
    }
}

/// The lowercase hexadecimal rendering of a byte run: two digits per byte,
/// high nibble first, no separators.
pub open spec fn hex_of(bytes: Seq<u8>) -> Seq<char> {
    Seq::new(
        2 * bytes.len(),
        |i: int|
            if i % 2 == 0 {
                hex_digit(bytes[i / 2] as int / 16)
            } else {
                hex_digit(bytes[i / 2] as int % 16)
            },
    )
}

/// Relies on String::push: appends the given character to the end of the
/// string.
#[verifier::external_body]
fn push_char(s: &mut String, c: char)
    ensures
        final(s)@ == old(s)@.push(c),
{
    s.push(c)
}

/// The lowercase hexadecimal digit character for a value below 16.
fn hex_digit_char(n: u8) -> (c: char)
    requires
        n < 16,
    ensures
        c == hex_digit(n as int),
{
    match n {
        0 => '0',
        1 => '1',
        2 => '2',
        3 => '3',
        4 => '4',
        5 => '5',
        6 => '6',
        7 => '7',
        8 => '8',
        9 => '9',
        10 => 'a',
        11 => 'b',
        12 => 'c',
        13 => 'd',
        14 => 'e',
        _ => 'f',
    }
}

/// Renders a digest as its 40-character lowercase hexadecimal form.
pub fn sha1_to_hex(sha1: [u8; 20]) -> (r: String)
    ensures
        r@ == hex_of(sha1@),
        r@.len() == 40,
{
    let mut r = String::new();
    let mut i: usize = 0;
    while i < 20
        invariant
            0 <= i <= 20,
            r@ =~= hex_of(sha1@.take(i as int)),
        decreases 20 - i,
    {
        let b = sha1[i];
        let hi = hex_digit_char(b / 16);
        let lo = hex_digit_char(b % 16);
        push_char(&mut r, hi);
        push_char(&mut r, lo);
        proof {
            assert(r@ =~= hex_of(sha1@.take(i as int + 1)));
        }
        i = i + 1;
    }
    proof {
        assert(sha1@.take(20) =~= sha1@);
    }
    r
}

} // verus!
