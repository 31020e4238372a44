//! The skip-table codec: a sorted list of half-open code-point ranges is
//! flattened into boundary deltas, packed one byte per delta, and every
//! delta too wide for a byte is recorded in a sparse run header instead.
//! Membership lookup replays the deltas, catching up from the headers.

use vstd::prelude::*;

use crate::raw_emitter::dec_rep;
use crate::raw_emitter::hex_rep;
use crate::raw_emitter::RawEmitter;
use vstd::string::StringSliceAdditionalSpecFns;

verus! {

/// Largest valid code point.
pub const MAX_CODE_POINT: u32 = 0x10FFFF;

/// Delta appended after the last boundary. It never fits in one byte, so
/// every encoding ends with a final run header, which bounds every scan.
pub const SENTINEL_DELTA: u32 = 0x110000;

/// Largest value the 11-bit `start_index` budget admits.
pub const MAX_START_INDEX: u32 = 2047;

/// Largest value the 21-bit `prefix_sum` budget admits.
pub const MAX_PREFIX_SUM: u32 = 0x1FFFFF;

/// A half-open interval `[start, end)` of code points.
#[derive(Clone, Copy, PartialEq, Eq, Structural, Debug)]
pub struct CodeRange {
    pub start: u32,
    pub end: u32,
}

/// A sparse catch-up record: the byte at index `start_index` of the coded
/// offsets is a placeholder, and the running boundary value there is
/// `prefix_sum`.
#[derive(Clone, Copy, PartialEq, Eq, Structural, Debug)]
pub struct ShortOffsetRunHeader {
    pub start_index: u16,
    pub prefix_sum: u32,
}

/// The bit budget that an encoding exceeded.
#[derive(Clone, Copy, PartialEq, Eq, Structural, Debug)]
pub enum LimitKind {
    StartIndex,
    PrefixSum,
}

/// Why an encoding was refused.
#[derive(Clone, Copy, PartialEq, Eq, Structural, Debug)]
pub enum EncodeError {
    /// A range was empty, or the list was not sorted and disjoint.
    MalformedInput,
    /// A header field would not fit its bit budget.
    EncodingOverflow(LimitKind),
}

/// The input contract of the encoder: every range is non-empty, and the
/// list is sorted with no two ranges overlapping.
pub open spec fn ranges_wf(rs: Seq<CodeRange>) -> bool {
    &&& forall|k: int| 0 <= k < rs.len() ==> (#[trigger] rs[k]).start < rs[k].end
    &&& forall|k: int| 1 <= k < rs.len() ==> (#[trigger] rs[k]).start >= rs[k - 1].end
}

/// The flattened boundary sequence `[r0.start, r0.end, r1.start, ...]`,
/// without the sentinel.
pub open spec fn boundary_points(rs: Seq<CodeRange>) -> Seq<int> {
    Seq::new(
        2 * rs.len(),
        |i: int| if i % 2 == 0 { rs[i / 2].start as int } else { rs[i / 2].end as int },
    )
}

/// The delta stream: each boundary as its difference from the previous one
/// (the first measured from 0), followed by the sentinel delta.
pub open spec fn delta_seq(rs: Seq<CodeRange>) -> Seq<int> {
    Seq::new(
        2 * rs.len() + 1,
        |i: int|
            if i == 2 * rs.len() {
                SENTINEL_DELTA as int
            } else if i == 0 {
                boundary_points(rs)[0]
            } else {
                boundary_points(rs)[i] - boundary_points(rs)[i - 1]
            },
    )
}

/// Sum of the first `i` deltas. For encoder output this is the boundary
/// value reached after consuming `i` entries of the stream.
pub open spec fn psum(ds: Seq<int>, i: int) -> int
    decreases i,
{
    if i <= 0 {
        0
    } else {
        psum(ds, i - 1) + ds[i - 1]
    }
}

/// A delta too wide for one byte: it is the deltas at these positions that
/// produce run headers.
pub open spec fn big_delta(ds: Seq<int>, i: int) -> bool {
    0 <= i < ds.len() && ds[i] > 255
}

/// Every run header's position fits the 11-bit `start_index` budget.
pub open spec fn start_index_ok(ds: Seq<int>) -> bool {
    forall|i: int| #[trigger] big_delta(ds, i) ==> i <= MAX_START_INDEX
}

/// Every run header's running sum fits the 21-bit `prefix_sum` budget.
pub open spec fn prefix_sums_ok(ds: Seq<int>) -> bool {
    forall|i: int| #[trigger] big_delta(ds, i) ==> psum(ds, i + 1) <= MAX_PREFIX_SUM
}

/// The byte stream: a delta verbatim where it fits, a 0 placeholder where
/// a run header stands in for it.
pub open spec fn coded_offsets(ds: Seq<int>) -> Seq<u8> {
    Seq::new(ds.len(), |i: int| if ds[i] <= 255 { ds[i] as u8 } else { 0u8 })
}

/// The run headers produced by the first `n` deltas, in stream order.
pub open spec fn headers_upto(ds: Seq<int>, n: int) -> Seq<ShortOffsetRunHeader>
    decreases n,
{
    if n <= 0 {
        Seq::empty()
    } else if ds[n - 1] > 255 {
        headers_upto(ds, n - 1).push(
            ShortOffsetRunHeader {
                start_index: (n - 1) as u16,
                prefix_sum: psum(ds, n) as u32,
            },
        )
    } else {
        headers_upto(ds, n - 1)
    }
}

/// All run headers of a delta stream.
pub open spec fn run_headers(ds: Seq<int>) -> Seq<ShortOffsetRunHeader> {
    headers_upto(ds, ds.len() as int)
}

/// The inputs on which encoding succeeds: well-formed ranges whose
/// encoding stays within both header bit budgets.
pub open spec fn encode_ok(rs: Seq<CodeRange>) -> bool {
    &&& ranges_wf(rs)
    &&& start_index_ok(delta_seq(rs))
    &&& prefix_sums_ok(delta_seq(rs))
}

/// The two tables are exactly the encoding of the given range list.
pub open spec fn encodes(rs: Seq<CodeRange>, h: Seq<ShortOffsetRunHeader>, o: Seq<u8>) -> bool {
    &&& h == run_headers(delta_seq(rs))
    &&& o == coded_offsets(delta_seq(rs))
}

/// Membership in the original range list, checked range by range.
pub open spec fn range_set_contains(rs: Seq<CodeRange>, c: int) -> bool {
    exists|k: int| 0 <= k < rs.len() && (#[trigger] rs[k]).start <= c < rs[k].end
}

/// The full contract of `encode`: exactly which error each rejected input
/// produces, and exactly which tables each accepted input produces.
pub open spec fn encode_result_spec(
    rs: Seq<CodeRange>,
    r: Result<(Vec<ShortOffsetRunHeader>, Vec<u8>), EncodeError>,
) -> bool {
    if !ranges_wf(rs) {
        r == Err::<(Vec<ShortOffsetRunHeader>, Vec<u8>), EncodeError>(EncodeError::MalformedInput)
    } else if !start_index_ok(delta_seq(rs)) {
        r == Err::<(Vec<ShortOffsetRunHeader>, Vec<u8>), EncodeError>(
            EncodeError::EncodingOverflow(LimitKind::StartIndex),
        )
    } else if !prefix_sums_ok(delta_seq(rs)) {
        r == Err::<(Vec<ShortOffsetRunHeader>, Vec<u8>), EncodeError>(
            EncodeError::EncodingOverflow(LimitKind::PrefixSum),
        )
    } else {
        r matches Ok(t) && encodes(rs, t.0@, t.1@)
    }
}

/// Compile a sorted, disjoint range list into the run-header table and the
/// coded byte stream. Rejects malformed input and any encoding that would
/// exceed a header bit budget, rather than truncating silently.
pub fn encode(ranges: &[CodeRange]) -> (r: Result<(Vec<ShortOffsetRunHeader>, Vec<u8>), EncodeError>)
    ensures
        encode_result_spec(ranges@, r),
        r is Ok <==> encode_ok(ranges@),
{
    let n = ranges.len();
    let mut k: usize = 0;
    while k < n
        invariant
            n == ranges@.len(),
            k <= n,
            forall|j: int| 0 <= j < k ==> (#[trigger] ranges@[j]).start < ranges@[j].end,
            forall|j: int| 1 <= j < k ==> (#[trigger] ranges@[j]).start >= ranges@[j - 1].end,
        decreases n - k,
    {
        if ranges[k].start >= ranges[k].end {
            proof {
                assert(!ranges_wf(ranges@));
            }
            return Err(EncodeError::MalformedInput);
        }
        if k > 0 && ranges[k].start < ranges[k - 1].end {
            proof {
                assert(!ranges_wf(ranges@));
            }
            return Err(EncodeError::MalformedInput);
        }
        k += 1;
    }
    proof {
        assert(ranges_wf(ranges@));
    }

    let ghost ds = delta_seq(ranges@);

    // The sentinel delta always produces the final header, so the start
    // index budget holds exactly when the whole stream fits below it.
    if n > 1023 {
        proof {
            assert(ds[2 * ranges@.len() as int] == SENTINEL_DELTA as int);
            assert(big_delta(ds, 2 * ranges@.len() as int));
            assert(!start_index_ok(ds));
        }
        return Err(EncodeError::EncodingOverflow(LimitKind::StartIndex));
    }
    proof {
        assert forall|i: int| #[trigger] big_delta(ds, i) implies i <= MAX_START_INDEX by {
            assert(i < ds.len());
            assert(ds.len() == 2 * ranges@.len() + 1);
        }
        assert(start_index_ok(ds));
    }

    // Flatten the boundaries into the delta stream.
    let mut deltas: Vec<u32> = Vec::new();
    let mut prev: u32 = 0;
    let mut k: usize = 0;
    while k < n
        invariant
            n == ranges@.len(),
            n <= 1023,
            ranges_wf(ranges@),
            ds == delta_seq(ranges@),
            k <= n,
            deltas@.len() == 2 * k,
            prev as int == if k == 0 { 0int } else { ranges@[k as int - 1].end as int },
            forall|j: int| 0 <= j < 2 * k ==> #[trigger] deltas@[j] as int == ds[j],
        decreases n - k,
    {
        let r = ranges[k];
        proof {
            assert(ranges@[k as int].start < ranges@[k as int].end);
            if k > 0 {
                assert(ranges@[k as int].start >= ranges@[k as int - 1].end);
            }
            assert(boundary_points(ranges@)[2 * k as int] == r.start as int);
            assert(boundary_points(ranges@)[2 * k as int + 1] == r.end as int);
            if k > 0 {
                assert(boundary_points(ranges@)[2 * k as int - 1]
                    == ranges@[k as int - 1].end as int);
            }
        }
        let d0 = r.start - prev;
        let d1 = r.end - r.start;
        deltas.push(d0);
        deltas.push(d1);
        proof {
            assert(ds[2 * k as int] == d0 as int);
            assert(ds[2 * k as int + 1] == d1 as int);
        }
        prev = r.end;
        k += 1;
    }
    deltas.push(SENTINEL_DELTA);
    proof {
        assert(deltas@.len() == ds.len());
        assert(deltas@[ds.len() - 1] as int == ds[ds.len() - 1]);
    }

    // Hold every header's running sum to the prefix sum budget.
    let mut sum: u64 = 0;
    let mut i: usize = 0;
    while i < deltas.len()
        invariant
            ranges_wf(ranges@),
            ds == delta_seq(ranges@),
            start_index_ok(ds),
            deltas@.len() == ds.len(),
            ds.len() <= 2047,
            forall|j: int| 0 <= j < ds.len() ==> #[trigger] deltas@[j] as int == ds[j],
            i <= deltas@.len(),
            sum as int == psum(ds, i as int),
            sum <= (i as u64) * 0x1_0000_0000u64,
            forall|j: int| 0 <= j < i && #[trigger] big_delta(ds, j) ==> psum(ds, j + 1)
                <= MAX_PREFIX_SUM,
        decreases deltas@.len() - i,
    {
        let d = deltas[i];
        sum = sum + d as u64;
        if d > 255 && sum > MAX_PREFIX_SUM as u64 {
            proof {
                assert(big_delta(ds, i as int));
                assert(psum(ds, i as int + 1) > MAX_PREFIX_SUM);
                assert(!prefix_sums_ok(ds));
            }
            return Err(EncodeError::EncodingOverflow(LimitKind::PrefixSum));
        }
        proof {
            if big_delta(ds, i as int) {
                assert(psum(ds, i as int + 1) <= MAX_PREFIX_SUM);
            }
        }
        i += 1;
    }
    proof {
        assert forall|j: int| #[trigger] big_delta(ds, j) implies psum(ds, j + 1) <= MAX_PREFIX_SUM by {}
        assert(prefix_sums_ok(ds));
    }

    // Emit the byte stream and the run headers in one pass.
    let mut coded: Vec<u8> = Vec::new();
    let mut headers: Vec<ShortOffsetRunHeader> = Vec::new();
    let mut sum2: u64 = 0;
    let mut i2: usize = 0;
    while i2 < deltas.len()
        invariant
            ranges_wf(ranges@),
            ds == delta_seq(ranges@),
            start_index_ok(ds),
            prefix_sums_ok(ds),
            deltas@.len() == ds.len(),
            ds.len() <= 2047,
            forall|j: int| 0 <= j < ds.len() ==> #[trigger] deltas@[j] as int == ds[j],
            i2 <= deltas@.len(),
            sum2 as int == psum(ds, i2 as int),
            sum2 <= (i2 as u64) * 0x1_0000_0000u64,
            coded@ == coded_offsets(ds).take(i2 as int),
            headers@ == headers_upto(ds, i2 as int),
        decreases deltas@.len() - i2,
    {
        let d = deltas[i2];
        sum2 = sum2 + d as u64;
        proof {
            assert(sum2 as int == psum(ds, i2 as int + 1));
        }
        if d <= 255 {
            coded.push(d as u8);
            proof {
                assert(coded_offsets(ds)[i2 as int] == d as u8);
            }
        } else {
            proof {
                assert(big_delta(ds, i2 as int));
                assert(psum(ds, i2 as int + 1) <= MAX_PREFIX_SUM);
                assert(sum2 <= MAX_PREFIX_SUM as u64);
            }
            headers.push(
                ShortOffsetRunHeader { start_index: i2 as u16, prefix_sum: sum2 as u32 },
            );
            coded.push(0);
            proof {
                assert(coded_offsets(ds)[i2 as int] == 0u8);
                assert(headers@ == headers_upto(ds, i2 as int + 1));
            }
        }
        proof {
            assert(coded_offsets(ds).take(i2 as int + 1)
                =~= coded_offsets(ds).take(i2 as int).push(coded_offsets(ds)[i2 as int]));
        }
        i2 += 1;
    }
    proof {
        assert(coded@ =~= coded_offsets(ds));
        assert(headers@ == run_headers(ds));
        assert(encodes(ranges@, headers@, coded@));
    }
    Ok((headers, coded))
}

/// Some run header's placeholder stands at stream index `i`.
pub open spec fn has_header_at(h: Seq<ShortOffsetRunHeader>, i: int) -> bool {
    exists|k: int| 0 <= k < h.len() && (#[trigger] h[k]).start_index as int == i
}

/// The catch-up value of the header standing at stream index `i`.
pub open spec fn header_sum_at(h: Seq<ShortOffsetRunHeader>, i: int) -> int {
    h[choose|k: int| 0 <= k < h.len() && (#[trigger] h[k]).start_index as int == i].prefix_sum
        as int
}

/// The running boundary value after consuming the first `i` entries of the
/// byte stream, with header overrides applied: at a header's position the
/// sum is set to its catch-up value, elsewhere the byte is added.
pub open spec fn effective_sum(h: Seq<ShortOffsetRunHeader>, o: Seq<u8>, i: int) -> int
    decreases i,
{
    if i <= 0 {
        0
    } else if has_header_at(h, i - 1) {
        header_sum_at(h, i - 1)
    } else if i - 1 < o.len() {
        effective_sum(h, o, i - 1) + o[i - 1]
    } else {
        effective_sum(h, o, i - 1)
    }
}

/// Headers strictly ascending in both fields.
pub open spec fn headers_sorted(h: Seq<ShortOffsetRunHeader>) -> bool {
    forall|k1: int, k2: int|
        0 <= k1 < k2 < h.len() ==> (#[trigger] h[k1]).start_index < (#[trigger] h[k2]).start_index
            && h[k1].prefix_sum < h[k2].prefix_sum
}

/// The effective running sum does not decrease across position `i`.
pub open spec fn eff_step_up(h: Seq<ShortOffsetRunHeader>, o: Seq<u8>, i: int) -> bool {
    effective_sum(h, o, i) <= effective_sum(h, o, i + 1)
}

/// What lookup relies on of its two tables; exactly the shape the encoder
/// leaves behind. The final header caps every scan, and the running sum
/// never decreases.
pub open spec fn table_wf(h: Seq<ShortOffsetRunHeader>, o: Seq<u8>) -> bool {
    &&& h.len() >= 1
    &&& forall|k: int| 0 <= k < h.len() ==> (#[trigger] h[k]).start_index < o.len()
    &&& headers_sorted(h)
    &&& h[h.len() - 1].start_index as int == o.len() - 1
    &&& h[h.len() - 1].prefix_sum > MAX_CODE_POINT
    &&& forall|i: int| 0 <= i < o.len() ==> #[trigger] eff_step_up(h, o, i)
}

/// The first stream position at or after `i` whose effective running sum
/// exceeds `q`.
pub open spec fn stop_from(h: Seq<ShortOffsetRunHeader>, o: Seq<u8>, q: int, i: int) -> int
    decreases o.len() - i when 0 <= i <= o.len()
{
    if i >= o.len() {
        i
    } else if effective_sum(h, o, i + 1) > q {
        i
    } else {
        stop_from(h, o, q, i + 1)
    }
}

/// The position where a scan for `q` stops.
pub open spec fn stop_index(h: Seq<ShortOffsetRunHeader>, o: Seq<u8>, q: int) -> int {
    stop_from(h, o, q, 0)
}

/// The lookup answer: boundaries alternate start, end, start, end, so the
/// scan stops at an odd position exactly when the query lies inside a range.
pub open spec fn lookup_result(h: Seq<ShortOffsetRunHeader>, o: Seq<u8>, q: int) -> bool {
    stop_index(h, o, q) % 2 == 1
}

/// With strictly sorted headers the header standing at a given index is
/// unique, so the catch-up value there is that header's `prefix_sum`.
pub(crate) proof fn lemma_header_sum_unique(h: Seq<ShortOffsetRunHeader>, k: int)
    requires
        headers_sorted(h),
        0 <= k < h.len(),
    ensures
        has_header_at(h, h[k].start_index as int),
        header_sum_at(h, h[k].start_index as int) == h[k].prefix_sum as int,
{
    let i = h[k].start_index as int;
    assert(has_header_at(h, i));
    let k2 = choose|k2: int| 0 <= k2 < h.len() && (#[trigger] h[k2]).start_index as int == i;
    if k2 < k {
        assert(h[k2].start_index < h[k].start_index);
        assert(false);
    }
    if k < k2 {
        assert(h[k].start_index < h[k2].start_index);
        assert(false);
    }
}

/// If every header before the cursor stands left of `i` and the cursor's
/// header stands right of `i`, then no header stands at `i`.
pub(crate) proof fn lemma_no_header_at(h: Seq<ShortOffsetRunHeader>, i: int, j: int)
    requires
        headers_sorted(h),
        0 <= j <= h.len(),
        forall|m: int| 0 <= m < j ==> (#[trigger] h[m]).start_index < i,
        j < h.len() ==> h[j].start_index > i,
    ensures
        !has_header_at(h, i),
{
    if has_header_at(h, i) {
        let k = choose|k: int| 0 <= k < h.len() && (#[trigger] h[k]).start_index as int == i;
        if k < j {
            assert(false);
        } else {
            assert(j < h.len());
            if j < k {
                assert(h[j].start_index < h[k].start_index);
            }
            assert(false);
        }
    }
}

/// A never-decreasing effective sum is monotone over any span.
pub(crate) proof fn lemma_eff_mono(h: Seq<ShortOffsetRunHeader>, o: Seq<u8>, a: int, b: int)
    requires
        forall|i: int| 0 <= i < o.len() ==> #[trigger] eff_step_up(h, o, i),
        0 <= a <= b <= o.len(),
    ensures
        effective_sum(h, o, a) <= effective_sum(h, o, b),
    decreases b - a,
{
    if a < b {
        lemma_eff_mono(h, o, a, b - 1);
        assert(eff_step_up(h, o, b - 1));
    }
}

/// The scan's stop position is pinned by its two defining facts: every sum
/// up to it stays at or below the query, and the next one exceeds it.
pub(crate) proof fn lemma_stop_from_is(
    h: Seq<ShortOffsetRunHeader>,
    o: Seq<u8>,
    q: int,
    a: int,
    i: int,
)
    requires
        0 <= a <= i < o.len(),
        forall|m: int| a <= m < i ==> #[trigger] effective_sum(h, o, m + 1) <= q,
        effective_sum(h, o, i + 1) > q,
    ensures
        stop_from(h, o, q, a) == i,
    decreases i - a,
{
    if a < i {
        lemma_stop_from_is(h, o, q, a + 1, i);
    }
}

/// Decide whether `query` belongs to the encoded set: binary-search the run
/// headers for the greatest catch-up value not above the query, seed the
/// scan from it, then replay bytes until the running sum first exceeds the
/// query; the parity of the stop position answers.
///
/// A query above `MAX_CODE_POINT` is a caller error and is excluded by
/// precondition rather than reported at run time; the tables must have the
/// shape the encoder produces, which `lemma_encode_table_wf` supplies.
#[verifier::rlimit(60)]
pub fn contains(headers: &[ShortOffsetRunHeader], offsets: &[u8], query: u32) -> (r: bool)
    requires
        table_wf(headers@, offsets@),
        query <= MAX_CODE_POINT,
    ensures
        r == lookup_result(headers@, offsets@, query as int),
        forall|rs: Seq<CodeRange>|
            encode_ok(rs) && #[trigger] encodes(rs, headers@, offsets@) ==> r
                == range_set_contains(rs, query as int),
{
    let ghost h = headers@;
    let ghost o = offsets@;
    let ghost q = query as int;

    // Count the headers whose catch-up value is at most the query.
    let mut lo: usize = 0;
    let mut hi: usize = headers.len();
    while lo < hi
        invariant
            h == headers@,
            headers_sorted(h),
            lo <= hi <= h.len(),
            forall|m: int| 0 <= m < lo ==> (#[trigger] h[m]).prefix_sum <= query,
            forall|m: int| hi <= m < h.len() ==> (#[trigger] h[m]).prefix_sum > query,
        decreases hi - lo,
    {
        let mid = lo + (hi - lo) / 2;
        if headers[mid].prefix_sum <= query {
            lo = mid + 1;
        } else {
            hi = mid;
        }
    }

    // Seed the scan from the chosen header, or from the stream's start.
    let mut i: usize;
    let mut sum: u64;
    let mut j: usize;
    if lo == 0 {
        i = 0;
        sum = 0;
        j = 0;
    } else {
        let hd = headers[lo - 1];
        i = hd.start_index as usize + 1;
        sum = hd.prefix_sum as u64;
        j = lo;
        proof {
            lemma_header_sum_unique(h, lo as int - 1);
            assert(effective_sum(h, o, i as int) == sum as int);
        }
    }

    loop
        invariant
            h == headers@,
            o == offsets@,
            q == query as int,
            query <= MAX_CODE_POINT,
            table_wf(h, o),
            i <= o.len(),
            j <= h.len(),
            sum as int == effective_sum(h, o, i as int),
            sum <= query as u64,
            forall|m: int| 0 <= m < j ==> (#[trigger] h[m]).start_index < i,
            j < h.len() ==> h[j as int].start_index >= i,
        decreases o.len() - i,
    {
        proof {
            if i == o.len() {
                lemma_header_sum_unique(h, h.len() - 1);
                assert(effective_sum(h, o, o.len() as int) == h[h.len() - 1].prefix_sum as int);
                assert(false);
            }
        }
        let new_sum: u64;
        let ghost old_j = j as int;
        if j < headers.len() && headers[j].start_index as usize == i {
            new_sum = headers[j].prefix_sum as u64;
            j += 1;
            proof {
                lemma_header_sum_unique(h, old_j);
                assert(effective_sum(h, o, i as int + 1) == new_sum as int);
            }
        } else {
            new_sum = sum + offsets[i] as u64;
            proof {
                lemma_no_header_at(h, i as int, old_j);
                assert(effective_sum(h, o, i as int + 1) == new_sum as int);
            }
        }
        if new_sum > query as u64 {
            proof {
                assert forall|m: int| 0 <= m < i implies #[trigger] effective_sum(h, o, m + 1) <= q by {
                    lemma_eff_mono(h, o, m + 1, i as int);
                }
                lemma_stop_from_is(h, o, q, 0, i as int);
                assert forall|rs: Seq<CodeRange>|
                    encode_ok(rs) && #[trigger] encodes(rs, h, o) implies lookup_result(
                    h,
                    o,
                    q,
                ) == range_set_contains(rs, q) by {
                    crate::laws::lemma_round_trip(rs, h, o, q);
                }
            }
            return i % 2 == 1;
        }
        sum = new_sum;
        i += 1;
    }
}

/// One rendered run header appended to `acc`, in the order the emitter
/// writes its pieces.
pub open spec fn header_entry_text(acc: Seq<u8>, hd: ShortOffsetRunHeader) -> Seq<u8> {
    acc + "ShortOffsetRunHeader::new(start_index=".spec_bytes() + dec_rep(hd.start_index as int)
        + ", prefix_sum=".spec_bytes() + dec_rep(hd.prefix_sum as int) + ")".spec_bytes()
}

/// The first `k` run headers rendered after `base`, comma separated.
pub open spec fn header_list_text(base: Seq<u8>, h: Seq<ShortOffsetRunHeader>, k: int) -> Seq<u8>
    decreases k,
{
    if k <= 0 {
        base
    } else if k == 1 {
        header_entry_text(base, h[0])
    } else {
        header_entry_text(header_list_text(base, h, k - 1) + ", ".spec_bytes(), h[k - 1])
    }
}

/// The first `k` coded offsets rendered after `base` as decimal numbers,
/// comma separated.
pub open spec fn byte_list_text(base: Seq<u8>, o: Seq<u8>, k: int) -> Seq<u8>
    decreases k,
{
    if k <= 0 {
        base
    } else if k == 1 {
        base + dec_rep(o[0] as int)
    } else {
        byte_list_text(base, o, k - 1) + ", ".spec_bytes() + dec_rep(o[k - 1] as int)
    }
}

/// Everything `emit_skiplist` appends after `base`: the run-header line,
/// the offsets line, and the membership function, with the fast-reject
/// wrapper when the set starts above ASCII.
pub open spec fn emitted_skiplist_text(base: Seq<u8>, rs: Seq<CodeRange>, pf: &str) -> Seq<u8> {
    let h = run_headers(delta_seq(rs));
    let o = coded_offsets(delta_seq(rs));
    let line1 = header_list_text(
        base + "let short_offset_runs_".spec_bytes() + pf.spec_bytes()
            + " : FixedArray[ShortOffsetRunHeader] = [".spec_bytes(),
        h,
        h.len() as int,
    ) + "];\n".spec_bytes();
    let line2 = byte_list_text(
        line1 + "let offsets_".spec_bytes() + pf.spec_bytes() + " : Bytes = [".spec_bytes(),
        o,
        o.len() as int,
    ) + "];\n".spec_bytes();
    let opened = if rs[0].start > 0x7f {
        line2 + "pub fn is_".spec_bytes() + pf.spec_bytes()
            + "(c : Char) -> Bool {\n    c.to_uint() >= 0x".spec_bytes()
            + hex_rep(rs[0].start as int) + " && lookup_slow_".spec_bytes() + pf.spec_bytes()
            + "(c)\n}\nfn lookup_slow_".spec_bytes() + pf.spec_bytes()
            + "(c : Char) -> Bool {\n".spec_bytes()
    } else {
        line2 + "pub fn is_".spec_bytes() + pf.spec_bytes() + "(c : Char) -> Bool {\n".spec_bytes()
    };
    opened + "    // SAFETY: We just ensured the last element of `short_offset_runs_".spec_bytes()
        + pf.spec_bytes() + "` is greater than `@char.max_value`\n".spec_bytes()
        + "    // and the start indices of all elements in `short_offset_runs_".spec_bytes()
        + pf.spec_bytes() + "` are smaller than `offsets_".spec_bytes() + pf.spec_bytes()
        + ".len()`.\n".spec_bytes() + "    skip_search(c, short_offset_runs_".spec_bytes()
        + pf.spec_bytes() + ", offsets_".spec_bytes() + pf.spec_bytes() + ")\n}\n".spec_bytes()
}

impl RawEmitter {
    /// Render one range set's encoded tables and the membership function
    /// around them, appending to the output buffer: exactly the text of
    /// `emitted_skiplist_text`, plus the table space accounting.
    pub fn emit_skiplist(&mut self, ranges: &[CodeRange], postfix: &str)
        requires
            ranges@.len() > 0,
            encode_ok(ranges@),
            old(self).bytes_used + 4 * run_headers(delta_seq(ranges@)).len() + coded_offsets(
                delta_seq(ranges@),
            ).len() <= usize::MAX,
        ensures
            final(self).bytes_used == old(self).bytes_used + 4 * run_headers(
                delta_seq(ranges@),
            ).len() + coded_offsets(delta_seq(ranges@)).len(),
            old(self).file@.is_prefix_of(final(self).file@),
            final(self).file@ == emitted_skiplist_text(old(self).file@, ranges@, postfix),
    {
        let ghost base = old(self).file@;
        proof {
            assert(base =~= self.file@.subrange(0, base.len() as int));
            assert(base.is_prefix_of(self.file@));
        }
        let first_code_point = ranges[0].start;
        match encode(ranges) {
            Err(_) => {
                proof {
                    assert(false);
                }
            },
            Ok((short_offset_runs, coded)) => {
                self.push_str("let short_offset_runs_");
                self.push_str(postfix);
                self.push_str(" : FixedArray[ShortOffsetRunHeader] = [");
                let ghost base1 = self.file@;
                let mut k: usize = 0;
                while k < short_offset_runs.len()
                    invariant
                        base.is_prefix_of(self.file@),
                        self.bytes_used == old(self).bytes_used,
                        k <= short_offset_runs@.len(),
                        self.file@ == header_list_text(base1, short_offset_runs@, k as int),
                    decreases short_offset_runs@.len() - k,
                {
                    if k > 0 {
                        self.push_str(", ");
                    }
                    self.push_str("ShortOffsetRunHeader::new(start_index=");
                    let hd = short_offset_runs[k];
                    self.push_decimal(hd.start_index as u32);
                    self.push_str(", prefix_sum=");
                    self.push_decimal(hd.prefix_sum);
                    self.push_str(")");
                    k += 1;
                }
                self.push_str("];\n");
                self.bytes_used = self.bytes_used + 4 * short_offset_runs.len();

                self.push_str("let offsets_");
                self.push_str(postfix);
                self.push_str(" : Bytes = [");
                let ghost base2 = self.file@;
                let mut k2: usize = 0;
                while k2 < coded.len()
                    invariant
                        base.is_prefix_of(self.file@),
                        self.bytes_used == old(self).bytes_used + 4 * run_headers(
                            delta_seq(ranges@),
                        ).len(),
                        k2 <= coded@.len(),
                        self.file@ == byte_list_text(base2, coded@, k2 as int),
                    decreases coded@.len() - k2,
                {
                    if k2 > 0 {
                        self.push_str(", ");
                    }
                    self.push_decimal(coded[k2] as u32);
                    k2 += 1;
                }
                self.push_str("];\n");
                self.bytes_used = self.bytes_used + coded.len();

                if first_code_point > 0x7f {
                    self.push_str("pub fn is_");
                    self.push_str(postfix);
                    self.push_str("(c : Char) -> Bool {\n    c.to_uint() >= 0x");
                    self.push_hex(first_code_point);
                    self.push_str(" && lookup_slow_");
                    self.push_str(postfix);
                    self.push_str("(c)\n}\nfn lookup_slow_");
                    self.push_str(postfix);
                    self.push_str("(c : Char) -> Bool {\n");
                } else {
                    self.push_str("pub fn is_");
                    self.push_str(postfix);
                    self.push_str("(c : Char) -> Bool {\n");
                }
                self.push_str(
                    "    // SAFETY: We just ensured the last element of `short_offset_runs_",
                );
                self.push_str(postfix);
                self.push_str("` is greater than `@char.max_value`\n");
                self.push_str("    // and the start indices of all elements in `short_offset_runs_");
                self.push_str(postfix);
                self.push_str("` are smaller than `offsets_");
                self.push_str(postfix);
                self.push_str(".len()`.\n");
                self.push_str("    skip_search(c, short_offset_runs_");
                self.push_str(postfix);
                self.push_str(", offsets_");
                self.push_str(postfix);
                self.push_str(")\n}\n");
            },
        }
    }
}

} // verus!
