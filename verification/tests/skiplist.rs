use unicode_table_generator::skiplist::encode;
use unicode_table_generator::skiplist::contains;
use unicode_table_generator::skiplist::CodeRange;
use unicode_table_generator::skiplist::EncodeError;
use unicode_table_generator::skiplist::LimitKind;
use unicode_table_generator::skiplist::ShortOffsetRunHeader;

fn rg(start: u32, end: u32) -> CodeRange {
    CodeRange { start, end }
}

#[test]
fn encode_single_range_exact_tables() {
    let (headers, offsets) = encode(&[rg(5, 9)]).unwrap();
    assert_eq!(offsets, vec![5u8, 4, 0]);
    assert_eq!(headers.len(), 1);
    assert_eq!(headers[0], ShortOffsetRunHeader { start_index: 2, prefix_sum: 9 + 0x110000 });
}

#[test]
fn encode_empty_range_list_sentinel_only() {
    let (headers, offsets) = encode(&[]).unwrap();
    assert_eq!(offsets, vec![0u8]);
    assert_eq!(headers, vec![ShortOffsetRunHeader { start_index: 0, prefix_sum: 0x110000 }]);
}

#[test]
fn boundary_exactness() {
    let (headers, offsets) = encode(&[rg(5, 9)]).unwrap();
    assert!(!contains(&headers, &offsets, 4));
    assert!(contains(&headers, &offsets, 5));
    assert!(contains(&headers, &offsets, 6));
    assert!(contains(&headers, &offsets, 7));
    assert!(contains(&headers, &offsets, 8));
    assert!(!contains(&headers, &offsets, 9));
}

#[test]
fn empty_set_contains_nothing() {
    let (headers, offsets) = encode(&[]).unwrap();
    assert!(!contains(&headers, &offsets, 0));
    assert!(!contains(&headers, &offsets, 0x41));
    assert!(!contains(&headers, &offsets, 0x7FF));
    assert!(!contains(&headers, &offsets, 0x10FFFF));
}

#[test]
fn round_trip_against_naive_membership() {
    let ranges = [rg(3, 7), rg(9, 10), rg(255, 300), rg(1000, 2000), rg(5000, 5001)];
    let (headers, offsets) = encode(&ranges).unwrap();
    for c in 0..6000u32 {
        let naive = ranges.iter().any(|r| r.start <= c && c < r.end);
        assert_eq!(contains(&headers, &offsets, c), naive, "mismatch at {c}");
    }
}

#[test]
fn determinism_byte_identical() {
    let ranges = [rg(10, 20), rg(400, 900), rg(0x3000, 0x3300)];
    let first = encode(&ranges).unwrap();
    let second = encode(&ranges).unwrap();
    assert_eq!(first.0, second.0);
    assert_eq!(first.1, second.1);
}

#[test]
fn headers_strictly_monotonic_and_placeholders_zero() {
    let ranges = [rg(0, 1000), rg(1005, 1006), rg(2000, 2500), rg(9000, 9001)];
    let (headers, offsets) = encode(&ranges).unwrap();
    for pair in headers.windows(2) {
        assert!(pair[0].start_index < pair[1].start_index);
        assert!(pair[0].prefix_sum < pair[1].prefix_sum);
    }
    for h in &headers {
        assert_eq!(offsets[h.start_index as usize], 0);
    }
}

#[test]
fn telescoping_effective_sums_reach_every_boundary() {
    let ranges = [rg(0, 1000), rg(1005, 1006), rg(2000, 2500), rg(9000, 9001)];
    let (headers, offsets) = encode(&ranges).unwrap();
    let mut points: Vec<u32> = Vec::new();
    for r in &ranges {
        points.push(r.start);
        points.push(r.end);
    }
    // Replay the byte stream with header overrides applied.
    let mut sum: u32 = 0;
    for (i, b) in offsets.iter().enumerate() {
        if let Some(h) = headers.iter().find(|h| h.start_index as usize == i) {
            sum = h.prefix_sum;
        } else {
            sum += u32::from(*b);
        }
        if i < points.len() {
            assert_eq!(sum, points[i], "prefix sum diverges at {i}");
        } else {
            assert!(sum > 0x10FFFF);
        }
    }
}

#[test]
fn overflow_run_header_carries_exact_prefix_sum() {
    let ranges = [rg(0, 1000), rg(1005, 1006)];
    let (headers, offsets) = encode(&ranges).unwrap();
    // Deltas: 0, 1000, 5, 1, sentinel. The 1000 needs a header at index 1.
    assert_eq!(headers[0], ShortOffsetRunHeader { start_index: 1, prefix_sum: 1000 });
    assert_eq!(offsets[1], 0);
    assert!(contains(&headers, &offsets, 0));
    assert!(contains(&headers, &offsets, 999));
    assert!(!contains(&headers, &offsets, 1000));
    assert!(!contains(&headers, &offsets, 1004));
    assert!(contains(&headers, &offsets, 1005));
    assert!(!contains(&headers, &offsets, 1006));
    assert!(!contains(&headers, &offsets, 0x10FFFF));
}

#[test]
fn sentinel_terminates_every_encoding() {
    for ranges in [vec![rg(5, 9)], vec![rg(0, 1), rg(0x80, 0x100)], vec![rg(0xE000, 0xE001)]] {
        let (headers, offsets) = encode(&ranges).unwrap();
        let last = headers.last().unwrap();
        assert_eq!(last.start_index as usize, offsets.len() - 1);
        assert!(last.prefix_sum > 0x10FFFF);
        assert_eq!(offsets[last.start_index as usize], 0);
    }
}

#[test]
fn malformed_empty_range_rejected() {
    assert_eq!(encode(&[rg(9, 5)]), Err(EncodeError::MalformedInput));
    assert_eq!(encode(&[rg(4, 4)]), Err(EncodeError::MalformedInput));
}

#[test]
fn malformed_overlap_rejected() {
    assert_eq!(encode(&[rg(0, 10), rg(5, 15)]), Err(EncodeError::MalformedInput));
    assert_eq!(encode(&[rg(20, 30), rg(0, 10)]), Err(EncodeError::MalformedInput));
}

#[test]
fn start_index_budget_overflow_rejected() {
    let mut ranges = Vec::new();
    for k in 0..1100u32 {
        ranges.push(rg(4 * k, 4 * k + 2));
    }
    assert_eq!(
        encode(&ranges),
        Err(EncodeError::EncodingOverflow(LimitKind::StartIndex))
    );
}

#[test]
fn prefix_sum_budget_overflow_rejected() {
    // A boundary delta wider than 21 bits.
    assert_eq!(
        encode(&[rg(0, 0x200000)]),
        Err(EncodeError::EncodingOverflow(LimitKind::PrefixSum))
    );
    // The sentinel header's running sum may exceed the budget too.
    assert_eq!(
        encode(&[rg(0x100000, 0x100001)]),
        Err(EncodeError::EncodingOverflow(LimitKind::PrefixSum))
    );
}

#[test]
fn largest_in_budget_boundary_encodes() {
    // The sentinel sum 0xEFFFF + 0x110000 just fits the 21-bit budget.
    let (headers, offsets) = encode(&[rg(0xEFF00, 0xEFFFF)]).unwrap();
    assert!(contains(&headers, &offsets, 0xEFF00));
    assert!(contains(&headers, &offsets, 0xEFFFE));
    assert!(!contains(&headers, &offsets, 0xEFFFF));
    assert_eq!(headers.last().unwrap().prefix_sum, 0x1FFFFF);
}

#[test]
fn adjacent_ranges_still_answer_correctly() {
    // Touching ranges are not overlapping; the parity scan must still work.
    let ranges = [rg(10, 20), rg(20, 30)];
    let (headers, offsets) = encode(&ranges).unwrap();
    assert!(!contains(&headers, &offsets, 9));
    assert!(contains(&headers, &offsets, 10));
    assert!(contains(&headers, &offsets, 19));
    assert!(contains(&headers, &offsets, 20));
    assert!(contains(&headers, &offsets, 29));
    assert!(!contains(&headers, &offsets, 30));
}
