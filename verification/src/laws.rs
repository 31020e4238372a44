//! The properties that tie the encoder and the lookup together: the
//! encoder's tables are well formed, the effective running sum replays the
//! boundary prefix sums exactly, and lookup over an encoding answers
//! membership exactly as the original range list does.

use vstd::prelude::*;

use crate::skiplist::big_delta;
use crate::skiplist::boundary_points;
use crate::skiplist::coded_offsets;
use crate::skiplist::delta_seq;
use crate::skiplist::effective_sum;
use crate::skiplist::encode_ok;
use crate::skiplist::eff_step_up;
use crate::skiplist::encodes;
use crate::skiplist::has_header_at;
use crate::skiplist::header_sum_at;
use crate::skiplist::headers_sorted;
use crate::skiplist::headers_upto;
use crate::skiplist::lemma_header_sum_unique;
use crate::skiplist::lookup_result;
use crate::skiplist::prefix_sums_ok;
use crate::skiplist::psum;
use crate::skiplist::range_set_contains;
use crate::skiplist::ranges_wf;
use crate::skiplist::run_headers;
use crate::skiplist::start_index_ok;
use crate::skiplist::stop_from;
use crate::skiplist::stop_index;
use crate::skiplist::table_wf;
use crate::skiplist::CodeRange;
use crate::skiplist::ShortOffsetRunHeader;
use crate::skiplist::MAX_CODE_POINT;
use crate::skiplist::MAX_PREFIX_SUM;
use crate::skiplist::MAX_START_INDEX;
use crate::skiplist::SENTINEL_DELTA;

verus! {

/// Between sorted, disjoint boundaries every delta is non-negative.
pub(crate) proof fn lemma_deltas_nonneg(rs: Seq<CodeRange>)
    requires
        ranges_wf(rs),
    ensures
        forall|i: int| 0 <= i < delta_seq(rs).len() ==> 0 <= #[trigger] delta_seq(rs)[i],
{
    let ds = delta_seq(rs);
    let pts = boundary_points(rs);
    assert forall|i: int| 0 <= i < ds.len() implies 0 <= #[trigger] ds[i] by {
        if i == 2 * rs.len() {
        } else if i == 0 {
            assert(ds[0] == rs[0].start as int);
        } else if i % 2 == 1 {
            assert(i / 2 == (i - 1) / 2);
            assert(pts[i] == rs[i / 2].end as int);
            assert(pts[i - 1] == rs[i / 2].start as int);
            assert(rs[i / 2].start < rs[i / 2].end);
        } else {
            assert((i - 1) / 2 == i / 2 - 1);
            assert(pts[i] == rs[i / 2].start as int);
            assert(pts[i - 1] == rs[i / 2 - 1].end as int);
            assert(rs[i / 2].start >= rs[i / 2 - 1].end);
        }
    }
}

/// The deltas telescope: the sum of the first `i + 1` deltas is the
/// `i`-th boundary point.
pub(crate) proof fn lemma_psum_is_point(rs: Seq<CodeRange>, i: int)
    requires
        ranges_wf(rs),
        0 <= i < 2 * rs.len(),
    ensures
        psum(delta_seq(rs), i + 1) == boundary_points(rs)[i],
    decreases i,
{
    let ds = delta_seq(rs);
    if i == 0 {
        assert(psum(ds, 1) == psum(ds, 0) + ds[0]);
    } else {
        lemma_psum_is_point(rs, i - 1);
        assert(psum(ds, i + 1) == psum(ds, i) + ds[i]);
    }
}

/// Prefix sums of a non-negative stream never decrease.
pub(crate) proof fn lemma_psum_mono(ds: Seq<int>, a: int, b: int)
    requires
        forall|i: int| 0 <= i < ds.len() ==> 0 <= #[trigger] ds[i],
        0 <= a <= b <= ds.len(),
    ensures
        psum(ds, a) <= psum(ds, b),
    decreases b - a,
{
    if a < b {
        lemma_psum_mono(ds, a, b - 1);
        assert(psum(ds, b) == psum(ds, b - 1) + ds[b - 1]);
    }
}

/// Structure of the header list over the first `n` deltas: headers stand
/// exactly at the oversized deltas, in ascending position, each carrying
/// the exact prefix sum at its position.
pub(crate) proof fn lemma_headers_upto_props(ds: Seq<int>, n: int)
    requires
        0 <= n <= ds.len(),
        forall|i: int| 0 <= i < ds.len() ==> 0 <= #[trigger] ds[i],
        start_index_ok(ds),
        prefix_sums_ok(ds),
    ensures
        forall|k: int|
            0 <= k < headers_upto(ds, n).len() ==> {
                let hd = #[trigger] headers_upto(ds, n)[k];
                &&& hd.start_index < n
                &&& big_delta(ds, hd.start_index as int)
                &&& hd.prefix_sum as int == psum(ds, hd.start_index as int + 1)
            },
        headers_sorted(headers_upto(ds, n)),
        forall|i: int|
            0 <= i < n && 255 < #[trigger] ds[i] ==> has_header_at(headers_upto(ds, n), i),
        (n > 0 && ds[n - 1] > 255) ==> {
            let hu = headers_upto(ds, n);
            hu.len() >= 1 && hu[hu.len() - 1].start_index as int == n - 1
        },
    decreases n,
{
    if n > 0 {
        lemma_headers_upto_props(ds, n - 1);
        let prev = headers_upto(ds, n - 1);
        let hu = headers_upto(ds, n);
        if ds[n - 1] > 255 {
            assert(big_delta(ds, n - 1));
            assert(n - 1 <= MAX_START_INDEX);
            assert(psum(ds, n) <= MAX_PREFIX_SUM);
            lemma_psum_mono(ds, 0, n);
            assert(0 <= psum(ds, n));
            let hd = ShortOffsetRunHeader {
                start_index: (n - 1) as u16,
                prefix_sum: psum(ds, n) as u32,
            };
            assert(hu == prev.push(hd));
            assert(hd.start_index as int == n - 1);
            assert(hd.prefix_sum as int == psum(ds, n));
            assert forall|i: int|
                0 <= i < n && 255 < #[trigger] ds[i] implies has_header_at(hu, i) by {
                if i < n - 1 {
                    assert(has_header_at(prev, i));
                    let k = choose|k: int|
                        0 <= k < prev.len() && (#[trigger] prev[k]).start_index as int == i;
                    assert(hu[k] == prev[k]);
                    assert(has_header_at(hu, i));
                } else {
                    assert(hu[hu.len() - 1] == hd);
                    assert(has_header_at(hu, i));
                }
            }
            assert forall|k1: int, k2: int| 0 <= k1 < k2 < hu.len() implies (
            #[trigger] hu[k1]).start_index < (#[trigger] hu[k2]).start_index && hu[k1].prefix_sum
                < hu[k2].prefix_sum by {
                if k2 < prev.len() {
                    assert(hu[k1] == prev[k1]);
                    assert(hu[k2] == prev[k2]);
                } else {
                    assert(hu[k2] == hd);
                    assert(hu[k1] == prev[k1]);
                    let i1 = prev[k1].start_index as int;
                    assert(i1 < n - 1);
                    assert(prev[k1].prefix_sum as int == psum(ds, i1 + 1));
                    lemma_psum_mono(ds, i1 + 1, n - 1);
                    assert(psum(ds, n) == psum(ds, n - 1) + ds[n - 1]);
                }
            }
            assert(headers_sorted(hu));
        } else {
            assert(hu == prev);
            assert forall|i: int|
                0 <= i < n && 255 < #[trigger] ds[i] implies has_header_at(hu, i) by {
                assert(i != n - 1);
            }
        }
    }
}

/// Replaying the byte stream with header overrides recovers every prefix
/// sum of the delta stream exactly.
pub(crate) proof fn lemma_eff_is_psum(ds: Seq<int>, i: int)
    requires
        forall|j: int| 0 <= j < ds.len() ==> 0 <= #[trigger] ds[j],
        start_index_ok(ds),
        prefix_sums_ok(ds),
        0 <= i <= ds.len(),
    ensures
        effective_sum(run_headers(ds), coded_offsets(ds), i) == psum(ds, i),
    decreases i,
{
    let h = run_headers(ds);
    let o = coded_offsets(ds);
    if i > 0 {
        lemma_eff_is_psum(ds, i - 1);
        lemma_headers_upto_props(ds, ds.len() as int);
        if ds[i - 1] > 255 {
            assert(has_header_at(h, i - 1));
            let k = choose|k: int|
                0 <= k < h.len() && (#[trigger] h[k]).start_index as int == i - 1;
            assert(h[k].prefix_sum as int == psum(ds, i));
            assert(header_sum_at(h, i - 1) == psum(ds, i));
        } else {
            if has_header_at(h, i - 1) {
                let k = choose|k: int|
                    0 <= k < h.len() && (#[trigger] h[k]).start_index as int == i - 1;
                assert(big_delta(ds, i - 1));
                assert(false);
            }
            assert(o[i - 1] as int == ds[i - 1]);
        }
    }
}

/// The tables the encoder emits have exactly the shape lookup relies on.
pub proof fn lemma_encode_table_wf(rs: Seq<CodeRange>)
    requires
        encode_ok(rs),
    ensures
        table_wf(run_headers(delta_seq(rs)), coded_offsets(delta_seq(rs))),
{
    let ds = delta_seq(rs);
    let h = run_headers(ds);
    let o = coded_offsets(ds);
    lemma_deltas_nonneg(rs);
    lemma_headers_upto_props(ds, ds.len() as int);
    assert(ds[ds.len() - 1] == SENTINEL_DELTA as int);
    assert(h[h.len() - 1].start_index as int == ds.len() - 1);
    assert(h[h.len() - 1].prefix_sum as int == psum(ds, ds.len() as int));
    lemma_psum_mono(ds, 0, ds.len() - 1);
    assert(psum(ds, ds.len() as int) == psum(ds, ds.len() - 1) + ds[ds.len() - 1]);
    assert(h[h.len() - 1].prefix_sum > MAX_CODE_POINT);
    assert forall|k1: int, k2: int| 0 <= k1 < k2 < h.len() implies (#[trigger] h[k1]).start_index
        < (#[trigger] h[k2]).start_index && h[k1].prefix_sum < h[k2].prefix_sum by {
        let i1 = h[k1].start_index as int;
        let i2 = h[k2].start_index as int;
        assert(i1 < i2);
        lemma_psum_mono(ds, i1 + 1, i2);
        assert(psum(ds, i2 + 1) == psum(ds, i2) + ds[i2]);
    }
    assert forall|i: int| 0 <= i < o.len() implies #[trigger] eff_step_up(h, o, i) by {
        lemma_eff_is_psum(ds, i);
        lemma_eff_is_psum(ds, i + 1);
        lemma_psum_mono(ds, i, i + 1);
        assert(effective_sum(h, o, i) <= effective_sum(h, o, i + 1));
    }
}

/// Where the scan stops: at the first position whose effective sum
/// exceeds the query, which exists below the stream's end whenever the
/// final effective sum exceeds the query.
pub(crate) proof fn lemma_stop_from_props(
    h: Seq<ShortOffsetRunHeader>,
    o: Seq<u8>,
    q: int,
    a: int,
)
    requires
        0 <= a < o.len(),
        effective_sum(h, o, o.len() as int) > q,
    ensures
        a <= stop_from(h, o, q, a) < o.len(),
        effective_sum(h, o, stop_from(h, o, q, a) + 1) > q,
        forall|m: int|
            a <= m < stop_from(h, o, q, a) ==> #[trigger] effective_sum(h, o, m + 1) <= q,
    decreases o.len() - a,
{
    if effective_sum(h, o, a + 1) > q {
    } else {
        assert(a + 1 < o.len());
        lemma_stop_from_props(h, o, q, a + 1);
    }
}

/// Round trip: over the encoder's own tables, lookup answers membership
/// exactly as a linear check against the original range list, for every
/// code point in the domain.
pub proof fn lemma_round_trip(
    rs: Seq<CodeRange>,
    h: Seq<ShortOffsetRunHeader>,
    o: Seq<u8>,
    c: int,
)
    requires
        encode_ok(rs),
        encodes(rs, h, o),
        0 <= c <= MAX_CODE_POINT,
    ensures
        table_wf(h, o),
        lookup_result(h, o, c) == range_set_contains(rs, c),
{
    let ds = delta_seq(rs);
    let pts = boundary_points(rs);
    let n = rs.len() as int;
    lemma_deltas_nonneg(rs);
    lemma_encode_table_wf(rs);
    lemma_headers_upto_props(ds, ds.len() as int);

    // The final effective sum exceeds every query in the domain.
    lemma_header_sum_unique(h, h.len() - 1);
    assert(effective_sum(h, o, o.len() as int) == h[h.len() - 1].prefix_sum as int);
    lemma_stop_from_props(h, o, c, 0);
    let i0 = stop_index(h, o, c);

    assert forall|m: int| 0 <= m <= o.len() implies #[trigger] effective_sum(h, o, m) == psum(
        ds,
        m,
    ) by {
        lemma_eff_is_psum(ds, m);
    }
    assert(psum(ds, i0 + 1) > c);
    assert forall|m: int| 0 <= m <= i0 implies #[trigger] psum(ds, m) <= c by {
        if m > 0 {
            assert(effective_sum(h, o, (m - 1) + 1) <= c);
        }
    }

    if i0 % 2 == 1 {
        let k = i0 / 2;
        assert(i0 < 2 * n);
        lemma_psum_is_point(rs, i0);
        lemma_psum_is_point(rs, i0 - 1);
        assert(pts[i0] == rs[k].end as int);
        assert((i0 - 1) / 2 == k);
        assert(pts[i0 - 1] == rs[k].start as int);
        assert(rs[k].start <= c < rs[k].end);
        assert(range_set_contains(rs, c));
    } else {
        assert forall|k: int| 0 <= k < n implies !((#[trigger] rs[k]).start <= c
            < rs[k].end) by {
            if 2 * k + 2 <= i0 {
                lemma_psum_is_point(rs, 2 * k + 1);
                assert(psum(ds, 2 * k + 2) <= c);
                assert(rs[k].end as int == pts[2 * k + 1]);
            } else {
                assert(2 * k >= i0);
                lemma_psum_is_point(rs, 2 * k);
                lemma_psum_mono(ds, i0 + 1, 2 * k + 1);
                assert(rs[k].start as int == pts[2 * k]);
                assert(rs[k].start as int >= psum(ds, i0 + 1));
            }
        }
    }
}

/// Determinism: the encoding relation pins both tables, so two encodings
/// of one range list are identical.
pub proof fn lemma_encode_deterministic(
    rs: Seq<CodeRange>,
    h1: Seq<ShortOffsetRunHeader>,
    o1: Seq<u8>,
    h2: Seq<ShortOffsetRunHeader>,
    o2: Seq<u8>,
)
    requires
        encodes(rs, h1, o1),
        encodes(rs, h2, o2),
    ensures
        h1 == h2,
        o1 == o2,
{
}

/// Monotonicity: header positions and catch-up values are strictly
/// increasing, and every header position holds a zero placeholder byte.
pub proof fn lemma_headers_monotonic(rs: Seq<CodeRange>)
    requires
        encode_ok(rs),
    ensures
        headers_sorted(run_headers(delta_seq(rs))),
        forall|k: int|
            0 <= k < run_headers(delta_seq(rs)).len() ==> coded_offsets(delta_seq(rs))[(
            #[trigger] run_headers(delta_seq(rs))[k]).start_index as int] == 0,
{
    let ds = delta_seq(rs);
    lemma_deltas_nonneg(rs);
    lemma_encode_table_wf(rs);
    lemma_headers_upto_props(ds, ds.len() as int);
}

/// Telescoping: replaying the byte stream with header overrides up to any
/// position yields that position's prefix sum, which for positions inside
/// the boundary list is the boundary point itself.
pub proof fn lemma_telescoping(rs: Seq<CodeRange>, i: int)
    requires
        encode_ok(rs),
        0 <= i <= delta_seq(rs).len(),
    ensures
        effective_sum(run_headers(delta_seq(rs)), coded_offsets(delta_seq(rs)), i) == psum(
            delta_seq(rs),
            i,
        ),
        1 <= i <= 2 * rs.len() ==> psum(delta_seq(rs), i) == boundary_points(rs)[i - 1],
{
    lemma_deltas_nonneg(rs);
    lemma_eff_is_psum(delta_seq(rs), i);
    if 1 <= i && i <= 2 * rs.len() {
        lemma_psum_is_point(rs, i - 1);
    }
}

/// The empty range set encodes successfully, and lookup over its tables
/// rejects every code point in the domain.
pub proof fn lemma_empty_set(c: int)
    requires
        0 <= c <= MAX_CODE_POINT,
    ensures
        encode_ok(Seq::<CodeRange>::empty()),
        !lookup_result(
            run_headers(delta_seq(Seq::<CodeRange>::empty())),
            coded_offsets(delta_seq(Seq::<CodeRange>::empty())),
            c,
        ),
{
    let rs = Seq::<CodeRange>::empty();
    let ds = delta_seq(rs);
    assert(ds.len() == 1);
    assert(ds[0] == SENTINEL_DELTA as int);
    assert forall|i: int| #[trigger] big_delta(ds, i) implies i <= MAX_START_INDEX by {}
    assert forall|i: int| #[trigger] big_delta(ds, i) implies psum(ds, i + 1)
        <= MAX_PREFIX_SUM by {
        assert(i == 0);
        assert(psum(ds, 1) == psum(ds, 0) + ds[0]);
    }
    lemma_round_trip(rs, run_headers(ds), coded_offsets(ds), c);
    assert(!range_set_contains(rs, c));
}

/// Sentinel termination: every successful encoding ends with a final
/// header and placeholder byte whose catch-up value exceeds the largest
/// code point.
pub proof fn lemma_sentinel_termination(rs: Seq<CodeRange>)
    requires
        encode_ok(rs),
    ensures
        run_headers(delta_seq(rs)).len() >= 1,
        ({
            let h = run_headers(delta_seq(rs));
            let o = coded_offsets(delta_seq(rs));
            &&& h[h.len() - 1].start_index as int == o.len() - 1
            &&& h[h.len() - 1].prefix_sum > MAX_CODE_POINT
            &&& o[h[h.len() - 1].start_index as int] == 0
        }),
{
    let ds = delta_seq(rs);
    lemma_deltas_nonneg(rs);
    lemma_encode_table_wf(rs);
    lemma_headers_upto_props(ds, ds.len() as int);
}

} // verus!
