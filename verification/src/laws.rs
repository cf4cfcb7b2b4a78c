//! Proved structural properties of the index format, stated against the
//! same specification functions the decoder's contracts use.

use vstd::prelude::*;

use crate::index::{
    spec_check_header, spec_fanout, spec_fanout_from, spec_entry_tables, spec_resolve_from,
    spec_decode, spec_count, fanout_val, digests_end, checksums_end, entries_end, ext_base,
    raw_offset_at, has_ext, low31, ext_val, FormatError, Stage, ENTRY_START, FANOUT_ENTRIES,
    DIGEST_BYTES,
};

verus! {

// ---------------------------------------------------------------------------
// The fanout table: accepted exactly when non-decreasing
// ---------------------------------------------------------------------------

/// Pairwise monotonicity of the 256 cumulative counters.
pub open spec fn fanout_nondecreasing(s: Seq<u8>) -> bool {
    forall|a: int, b: int|
        0 <= a <= b < FANOUT_ENTRIES ==> #[trigger] fanout_val(s, a) <= #[trigger] fanout_val(s, b)
}

/// Adjacent monotonicity from counter `j` on.
spec fn fanout_adj_from(s: Seq<u8>, j: int) -> bool {
    forall|a: int| j <= a < FANOUT_ENTRIES - 1 ==> #[trigger] fanout_val(s, a) <= fanout_val(s, a + 1)
}

/// Characterizes reading the fanout table from counter `j` on: it succeeds
/// exactly on a stream long enough to hold the whole table whose remaining
/// counters never decrease, and a long-enough stream is only ever rejected
/// as corrupt.
proof fn lemma_fanout_from_iff(s: Seq<u8>, j: int, prev: u32)
    requires
        0 <= j < FANOUT_ENTRIES,
    ensures
        spec_fanout_from(s, j, prev) is Ok <==> (s.len() >= ENTRY_START && prev <= fanout_val(
            s,
            j,
        ) && fanout_adj_from(s, j)),
        spec_fanout_from(s, j, prev) is Ok ==> spec_fanout_from(s, j, prev)->Ok_0 == fanout_val(
            s,
            FANOUT_ENTRIES - 1,
        ),
        s.len() >= ENTRY_START && spec_fanout_from(s, j, prev) is Err ==> spec_fanout_from(
            s,
            j,
            prev,
        )->Err_0 == FormatError::CorruptFanout,
    decreases FANOUT_ENTRIES - j,
{
    if j == FANOUT_ENTRIES - 1 {
        assert(fanout_adj_from(s, j));
    } else {
        lemma_fanout_from_iff(s, j + 1, fanout_val(s, j));
        if s.len() >= ENTRY_START && prev <= fanout_val(s, j) && fanout_adj_from(s, j) {
            assert(fanout_val(s, j) <= fanout_val(s, j + 1));
            assert(fanout_adj_from(s, j + 1));
        }
        if spec_fanout_from(s, j, prev) is Ok {
            assert(fanout_adj_from(s, j + 1));
            assert(fanout_val(s, j) <= fanout_val(s, j + 1));
            assert forall|a: int| j <= a < FANOUT_ENTRIES - 1 implies #[trigger] fanout_val(s, a)
                <= fanout_val(s, a + 1) by {
                if a > j {
                    assert(fanout_val(s, a) <= fanout_val(s, a + 1));
                }
            }
        }
    }
}

/// Adjacent monotonicity gives pairwise monotonicity.
proof fn lemma_adj_implies_pairwise(s: Seq<u8>, a: int, b: int)
    requires
        fanout_adj_from(s, 0),
        0 <= a <= b < FANOUT_ENTRIES,
    ensures
        fanout_val(s, a) <= fanout_val(s, b),
    decreases b - a,
{
    if a < b {
        lemma_adj_implies_pairwise(s, a, b - 1);
        assert(fanout_val(s, b - 1) <= fanout_val(s, b));
    }
}

/// The fanout table is accepted exactly when the stream holds all 256
/// counters and they form a non-decreasing sequence — any single decrease,
/// wherever it stands, is rejected as corrupt; on success the entry count
/// is the last counter. Every stream the whole decode accepts has a
/// non-decreasing fanout table.
pub proof fn lemma_fanout_law(s: Seq<u8>)
    ensures
        spec_fanout(s) is Ok <==> (s.len() >= ENTRY_START && fanout_nondecreasing(s)),
        spec_fanout(s) is Ok ==> spec_fanout(s)->Ok_0 == fanout_val(s, FANOUT_ENTRIES - 1),
        s.len() >= ENTRY_START && !fanout_nondecreasing(s) ==> spec_fanout(s) == Err::<
            u32,
            FormatError,
        >(FormatError::CorruptFanout),
        spec_decode(s) is Ok ==> fanout_nondecreasing(s),
{
    lemma_fanout_from_iff(s, 0, 0u32);
    if s.len() >= ENTRY_START && fanout_adj_from(s, 0) {
        assert forall|a: int, b: int| 0 <= a <= b < FANOUT_ENTRIES implies fanout_val(s, a)
            <= fanout_val(s, b) by {
            lemma_adj_implies_pairwise(s, a, b);
        }
    }
    if fanout_nondecreasing(s) {
        assert forall|a: int| 0 <= a < FANOUT_ENTRIES - 1 implies #[trigger] fanout_val(s, a) <= fanout_val(
            s,
            a + 1,
        ) by {
            assert(fanout_val(s, a) <= fanout_val(s, a + 1));
        }
    }
    if spec_decode(s) is Ok {
        assert(spec_fanout(s) is Ok);
    }
}

// ---------------------------------------------------------------------------
// The entry tables precede every extension read
// ---------------------------------------------------------------------------

/// The three entry tables occupy exactly N digests, N checksums and N
/// packed offsets between the fanout table and the extended offset table:
/// the extension region begins exactly where the entry tables end, the
/// decode only reaches it once all three tables are fully present, and in
/// particular a short extension read is only ever reported on a stream
/// that holds all three tables whole.
pub proof fn lemma_entry_tables_precede_extensions(s: Seq<u8>)
    requires
        spec_fanout(s) is Ok,
    ensures
        ({
            let n = spec_count(s);
            &&& ext_base(n) == entries_end(n)
            &&& entries_end(n) == ENTRY_START + DIGEST_BYTES * n + 4 * n + 4 * n
            &&& (spec_decode(s) is Ok ==> s.len() >= entries_end(n))
            &&& (match spec_decode(s) {
                Err(FormatError::Truncated(st, k)) => st is Extension ==> s.len() >= entries_end(
                    n,
                ),
                _ => true,
            })
        }),
{
    let n = spec_count(s);
    if spec_check_header(s) is Ok {
        match spec_entry_tables(s, n) {
            Ok(u) => {
                assert(s.len() >= entries_end(n));
            },
            Err(e) => {
                assert(spec_decode(s) == Err::<Seq<u64>, FormatError>(e));
                assert(match e {
                    FormatError::Truncated(st, k) => !(st is Extension),
                    _ => false,
                });
            },
        }
    }
}

// ---------------------------------------------------------------------------
// Offset resolution: direct offsets unchanged, extension indices 0,1,2,…
// ---------------------------------------------------------------------------

/// How many of the first `j` entries defer to the extended offset table.
pub open spec fn ext_count(s: Seq<u8>, n: int, j: int) -> int
    recommends
        0 <= j <= n,
        s.len() >= entries_end(n),
    decreases j,
{
    if j <= 0 {
        0
    } else {
        ext_count(s, n, j - 1) + if has_ext(raw_offset_at(s, n, j - 1)) {
            1int
        } else {
            0int
        }
    }
}

/// The count of extension entries among the first `j` lies between 0 and `j`.
proof fn lemma_ext_count_bounds(s: Seq<u8>, n: int, j: int)
    requires
        0 <= j,
    ensures
        0 <= ext_count(s, n, j) <= j,
    decreases j,
{
    if j > 0 {
        lemma_ext_count_bounds(s, n, j - 1);
    }
}

/// The count of extension entries never decreases along the entry array.
proof fn lemma_ext_count_monotone(s: Seq<u8>, n: int, a: int, b: int)
    requires
        0 <= a <= b,
    ensures
        ext_count(s, n, a) <= ext_count(s, n, b),
    decreases b - a,
{
    if a < b {
        lemma_ext_count_monotone(s, n, a, b - 1);
    }
}

/// What a successful resolution from entry `i` on returns, element by
/// element: a direct offset is widened unchanged, and a deferring entry
/// carries in its low 31 bits exactly the number of deferring entries
/// before it and resolves to that extended offset.
proof fn lemma_resolve_values(s: Seq<u8>, n: int, i: int)
    requires
        0 <= i <= n <= u32::MAX,
        spec_resolve_from(s, n, i, ext_count(s, n, i)) is Ok,
    ensures
        ({
            let rest = spec_resolve_from(s, n, i, ext_count(s, n, i))->Ok_0;
            &&& rest.len() == n - i
            &&& (forall|j: int|
                i <= j < n && !has_ext(raw_offset_at(s, n, j)) ==> rest[j - i] == raw_offset_at(
                    s,
                    n,
                    j,
                ) as u64)
            &&& (forall|j: int|
                i <= j < n && has_ext(raw_offset_at(s, n, j)) ==> low31(raw_offset_at(s, n, j))
                    == ext_count(s, n, j) && rest[j - i] == ext_val(s, n, ext_count(s, n, j)))
        }),
    decreases n - i,
{
    if i < n {
        let k = ext_count(s, n, i);
        let off = raw_offset_at(s, n, i);
        let rest = spec_resolve_from(s, n, i, k)->Ok_0;
        lemma_ext_count_bounds(s, n, i);
        if !has_ext(off) {
            assert(ext_count(s, n, i + 1) == k);
            lemma_resolve_values(s, n, i + 1);
            let tail = spec_resolve_from(s, n, i + 1, k)->Ok_0;
            assert(rest == seq![off as u64] + tail);
            assert forall|j: int| i <= j < n && !has_ext(raw_offset_at(s, n, j)) implies rest[j
                - i] == raw_offset_at(s, n, j) as u64 by {
                if j > i {
                    assert(rest[j - i] == tail[j - (i + 1)]);
                }
            }
            assert forall|j: int| i <= j < n && has_ext(raw_offset_at(s, n, j)) implies low31(
                raw_offset_at(s, n, j),
            ) == ext_count(s, n, j) && rest[j - i] == ext_val(s, n, ext_count(s, n, j)) by {
                assert(rest[j - i] == tail[j - (i + 1)]);
            }
        } else {
            assert(low31(off) == k as u32);
            assert(low31(off) == k);
            assert(ext_count(s, n, i + 1) == k + 1);
            lemma_resolve_values(s, n, i + 1);
            let tail = spec_resolve_from(s, n, i + 1, k + 1)->Ok_0;
            assert(rest == seq![ext_val(s, n, k)] + tail);
            assert forall|j: int| i <= j < n && !has_ext(raw_offset_at(s, n, j)) implies rest[j
                - i] == raw_offset_at(s, n, j) as u64 by {
                assert(rest[j - i] == tail[j - (i + 1)]);
            }
            assert forall|j: int| i <= j < n && has_ext(raw_offset_at(s, n, j)) implies low31(
                raw_offset_at(s, n, j),
            ) == ext_count(s, n, j) && rest[j - i] == ext_val(s, n, ext_count(s, n, j)) by {
                if j > i {
                    assert(rest[j - i] == tail[j - (i + 1)]);
                }
            }
        }
    }
}

/// Every entry whose packed offset has the high bit clear resolves to that
/// very value widened to 64 bits.
pub proof fn lemma_direct_offsets_identity(s: Seq<u8>)
    requires
        spec_decode(s) is Ok,
    ensures
        ({
            let n = spec_count(s);
            forall|i: int|
                0 <= i < n && !has_ext(raw_offset_at(s, n, i)) ==> spec_decode(s)->Ok_0[i]
                    == raw_offset_at(s, n, i) as u64
        }),
{
    let n = spec_count(s);
    lemma_resolve_values(s, n, 0);
}

/// Across a stream the decode accepts, the low-31-bit values of the
/// deferring entries, taken in file order, are exactly 0, 1, 2, … — each
/// equals the number of deferring entries before it — and each such entry
/// resolves to the extended offset of that index.
pub proof fn lemma_extension_indices_sequential(s: Seq<u8>)
    requires
        spec_decode(s) is Ok,
    ensures
        ({
            let n = spec_count(s);
            forall|i: int|
                0 <= i < n && has_ext(raw_offset_at(s, n, i)) ==> low31(raw_offset_at(s, n, i))
                    == ext_count(s, n, i) && spec_decode(s)->Ok_0[i] == ext_val(
                    s,
                    n,
                    ext_count(s, n, i),
                )
        }),
{
    let n = spec_count(s);
    lemma_resolve_values(s, n, 0);
}

/// Rejection of any gap or permutation: on a stream whose header, fanout
/// table and entry tables are accepted, if the first deferring entry whose
/// low 31 bits differ from its sequential rank is reachable — every
/// extended offset before it present — the whole decode fails with
/// `InconsistentExtensionIndex` naming that rank and that packed offset.
pub proof fn lemma_extension_out_of_order_rejected(s: Seq<u8>, i0: int)
    requires
        spec_check_header(s) is Ok,
        spec_fanout(s) is Ok,
        spec_entry_tables(s, spec_count(s)) is Ok,
        0 <= i0 < spec_count(s),
        has_ext(raw_offset_at(s, spec_count(s), i0)),
        low31(raw_offset_at(s, spec_count(s), i0)) != ext_count(s, spec_count(s), i0),
        forall|j: int|
            0 <= j < i0 && has_ext(raw_offset_at(s, spec_count(s), j)) ==> low31(
                raw_offset_at(s, spec_count(s), j),
            ) == ext_count(s, spec_count(s), j),
        s.len() >= ext_base(spec_count(s)) + 8 * ext_count(s, spec_count(s), i0),
    ensures
        spec_decode(s) == Err::<Seq<u64>, FormatError>(
            FormatError::InconsistentExtensionIndex(
                ext_count(s, spec_count(s), i0) as u32,
                raw_offset_at(s, spec_count(s), i0),
            ),
        ),
{
    let n = spec_count(s);
    lemma_resolve_rejects(s, n, 0, i0);
}

/// The induction behind the rejection law.
proof fn lemma_resolve_rejects(s: Seq<u8>, n: int, i: int, i0: int)
    requires
        0 <= i <= i0 < n <= u32::MAX,
        s.len() >= entries_end(n),
        has_ext(raw_offset_at(s, n, i0)),
        low31(raw_offset_at(s, n, i0)) != ext_count(s, n, i0),
        forall|j: int|
            0 <= j < i0 && has_ext(raw_offset_at(s, n, j)) ==> low31(raw_offset_at(s, n, j))
                == ext_count(s, n, j),
        s.len() >= ext_base(n) + 8 * ext_count(s, n, i0),
    ensures
        spec_resolve_from(s, n, i, ext_count(s, n, i)) == Err::<Seq<u64>, FormatError>(
            FormatError::InconsistentExtensionIndex(
                ext_count(s, n, i0) as u32,
                raw_offset_at(s, n, i0),
            ),
        ),
    decreases i0 - i,
{
    let k = ext_count(s, n, i);
    let off = raw_offset_at(s, n, i);
    lemma_ext_count_bounds(s, n, i);
    lemma_ext_count_bounds(s, n, i0);
    if i == i0 {
        assert(low31(off) != k as u32);
    } else {
        lemma_ext_count_monotone(s, n, i + 1, i0);
        if !has_ext(off) {
            assert(ext_count(s, n, i + 1) == k);
            lemma_resolve_rejects(s, n, i + 1, i0);
        } else {
            assert(low31(off) == k);
            assert(low31(off) == k as u32);
            assert(ext_count(s, n, i + 1) == k + 1);
            assert(ext_base(n) + 8 * k + 8 <= ext_base(n) + 8 * ext_count(s, n, i0));
            lemma_resolve_rejects(s, n, i + 1, i0);
        }
    }
}

// ---------------------------------------------------------------------------
// Truncation anywhere inside the entry or extension regions is detected
// ---------------------------------------------------------------------------

/// One past the last byte the decode consumes: the end of the extension
/// region implied by the entries.
pub open spec fn stream_end(s: Seq<u8>) -> int
    recommends
        spec_fanout(s) is Ok,
{
    let n = spec_count(s);
    ext_base(n) + 8 * ext_count(s, n, n)
}

/// The run a cut at byte `m` falls in, for a stream whose fanout table
/// gives the entry count.
pub open spec fn truncation_stage(s: Seq<u8>, m: int) -> Stage
    recommends
        spec_fanout(s) is Ok,
        ENTRY_START <= m < stream_end(s),
{
    let n = spec_count(s);
    if m < digests_end(n) {
        Stage::Digest
    } else if m < checksums_end(n) {
        Stage::Checksum
    } else if m < entries_end(n) {
        Stage::RawOffset
    } else {
        Stage::Extension
    }
}

/// The element of that run the cut falls in.
pub open spec fn truncation_index(s: Seq<u8>, m: int) -> u32
    recommends
        spec_fanout(s) is Ok,
        ENTRY_START <= m < stream_end(s),
{
    let n = spec_count(s);
    if m < digests_end(n) {
        ((m - ENTRY_START) / (DIGEST_BYTES as int)) as u32
    } else if m < checksums_end(n) {
        ((m - digests_end(n)) / 4) as u32
    } else if m < entries_end(n) {
        ((m - checksums_end(n)) / 4) as u32
    } else {
        ((m - ext_base(n)) / 8) as u32
    }
}

/// Cutting a stream after the whole fanout table leaves the fanout read
/// unchanged.
proof fn lemma_fanout_prefix(s: Seq<u8>, m: int, j: int, prev: u32)
    requires
        ENTRY_START <= m <= s.len(),
        0 <= j <= FANOUT_ENTRIES,
    ensures
        spec_fanout_from(s.take(m), j, prev) == spec_fanout_from(s, j, prev),
    decreases FANOUT_ENTRIES - j,
{
    if j < FANOUT_ENTRIES {
        assert(s.take(m).len() == m);
        assert(fanout_val(s.take(m), j) == fanout_val(s, j));
        lemma_fanout_prefix(s, m, j + 1, fanout_val(s, j));
    }
}

/// Cutting a stream after the whole entry region leaves every packed
/// offset unchanged.
proof fn lemma_raw_offset_prefix(s: Seq<u8>, m: int, n: int, i: int)
    requires
        0 <= i < n,
        entries_end(n) <= m <= s.len(),
    ensures
        raw_offset_at(s.take(m), n, i) == raw_offset_at(s, n, i),
{
    assert(checksums_end(n) + 4 * i + 4 <= entries_end(n));
}

/// A successful resolution read every extended offset it implies, so the
/// stream holds bytes up to the end of the extension region.
proof fn lemma_resolve_ok_len(s: Seq<u8>, n: int, i: int)
    requires
        0 <= i <= n <= u32::MAX,
        spec_resolve_from(s, n, i, ext_count(s, n, i)) is Ok,
    ensures
        ext_count(s, n, n) > ext_count(s, n, i) ==> s.len() >= ext_base(n) + 8 * ext_count(
            s,
            n,
            n,
        ),
    decreases n - i,
{
    if i < n {
        let k = ext_count(s, n, i);
        let off = raw_offset_at(s, n, i);
        if !has_ext(off) {
            assert(ext_count(s, n, i + 1) == k);
            lemma_resolve_ok_len(s, n, i + 1);
        } else {
            assert(ext_count(s, n, i + 1) == k + 1);
            lemma_resolve_ok_len(s, n, i + 1);
            lemma_ext_count_monotone(s, n, i + 1, n);
        }
    }
}

/// The induction behind the truncation law, over the extension region.
proof fn lemma_resolve_truncated(s: Seq<u8>, m: int, n: int, i: int)
    requires
        0 <= i <= n <= u32::MAX,
        entries_end(n) <= m <= s.len(),
        forall|j: int|
            0 <= j < n && has_ext(raw_offset_at(s, n, j)) ==> low31(raw_offset_at(s, n, j))
                == ext_count(s, n, j),
        ext_count(s, n, i) <= (m - ext_base(n)) / 8,
        (m - ext_base(n)) / 8 < ext_count(s, n, n),
        ext_base(n) + 8 * ((m - ext_base(n)) / 8) <= m,
        m < ext_base(n) + 8 * ((m - ext_base(n)) / 8) + 8,
    ensures
        spec_resolve_from(s.take(m), n, i, ext_count(s, n, i)) == Err::<Seq<u64>, FormatError>(
            FormatError::Truncated(Stage::Extension, ((m - ext_base(n)) / 8) as u32),
        ),
    decreases n - i,
{
    let t = s.take(m);
    let k = ext_count(s, n, i);
    let k0 = (m - ext_base(n)) / 8;
    lemma_ext_count_bounds(s, n, i);
    if i == n {
        assert(false);
    } else {
        lemma_raw_offset_prefix(s, m, n, i);
        let off = raw_offset_at(s, n, i);
        assert(raw_offset_at(t, n, i) == off);
        if !has_ext(off) {
            assert(ext_count(s, n, i + 1) == k);
            lemma_resolve_truncated(s, m, n, i + 1);
        } else {
            assert(low31(off) == k);
            assert(low31(off) == k as u32);
            assert(ext_count(s, n, i + 1) == k + 1);
            if k == k0 {
                assert(t.len() == m < ext_base(n) + 8 * k + 8);
                assert(spec_resolve_from(t, n, i, k) == Err::<Seq<u64>, FormatError>(
                    FormatError::Truncated(Stage::Extension, k as u32),
                ));
            } else {
                assert(k < k0);
                assert(ext_base(n) + 8 * k + 8 <= ext_base(n) + 8 * k0 <= m);
                lemma_resolve_truncated(s, m, n, i + 1);
            }
        }
    }
}

/// Cutting an accepted stream at any byte boundary inside the digest,
/// checksum, packed-offset or extension regions makes the decode fail
/// with `Truncated`, naming exactly the run and the element the cut fell
/// in — never a silent short result.
pub proof fn lemma_truncation_detected(s: Seq<u8>, m: int)
    requires
        spec_decode(s) is Ok,
        ENTRY_START <= m < stream_end(s),
    ensures
        spec_decode(s.take(m)) == Err::<Seq<u64>, FormatError>(
            FormatError::Truncated(truncation_stage(s, m), truncation_index(s, m)),
        ),
{
    let n = spec_count(s);
    let t = s.take(m);
    assert(n <= u32::MAX);
    lemma_ext_count_bounds(s, n, n);

    // The accepted stream reaches past every byte the cut can fall on.
    lemma_resolve_ok_len(s, n, 0);
    if ext_count(s, n, n) == 0 {
        assert(stream_end(s) == entries_end(n));
        assert(m < entries_end(n) <= s.len());
    } else {
        assert(s.len() >= ext_base(n) + 8 * ext_count(s, n, n) == stream_end(s));
    }
    assert(m <= s.len());

    // Header and fanout table lie whole before the cut.
    assert(t.len() == m);
    assert(be32_at_prefix_eq(s, m, 0));
    assert(be32_at_prefix_eq(s, m, 4));
    assert(spec_check_header(t) == spec_check_header(s));
    lemma_fanout_prefix(s, m, 0, 0u32);
    assert(spec_fanout(t) == spec_fanout(s));
    assert(spec_count(t) == n);

    if m < entries_end(n) {
        // The cut falls inside the three entry tables; their acceptance
        // check names the run and the element by the same formulas.
        assert(spec_entry_tables(t, n) == Err::<(), FormatError>(
            FormatError::Truncated(truncation_stage(s, m), truncation_index(s, m)),
        ));
    } else {
        // The cut falls inside the extension region.
        assert(spec_entry_tables(t, n) is Ok);
        let d = m - ext_base(n);
        assert(8 * (d / 8) <= d < 8 * (d / 8) + 8) by (nonlinear_arith)
            requires
                d >= 0,
        ;
        assert(d / 8 < ext_count(s, n, n));
        lemma_resolve_values(s, n, 0);
        lemma_resolve_truncated(s, m, n, 0);
    }
}

/// The first four bytes at `pos` survive a cut at `m` unchanged.
spec fn be32_at_prefix_eq(s: Seq<u8>, m: int, pos: int) -> bool {
    crate::endian::be32_at(s.take(m), pos) == crate::endian::be32_at(s, pos)
}


} // verus!
