use unicode_table_generator::raw_emitter::RawEmitter;
use unicode_table_generator::skiplist::CodeRange;

fn text(em: &RawEmitter) -> String {
    String::from_utf8(em.file.clone()).unwrap()
}

#[test]
fn new_emitter_is_empty() {
    let em = RawEmitter::new();
    assert_eq!(em.file.len(), 0);
    assert_eq!(em.bytes_used, 0);
}

#[test]
fn push_decimal_renders_exactly() {
    let mut em = RawEmitter::new();
    em.push_decimal(0);
    em.push_str(" ");
    em.push_decimal(7);
    em.push_str(" ");
    em.push_decimal(1114121);
    assert_eq!(text(&em), "0 7 1114121");
    assert_eq!(em.bytes_used, 0);
}

#[test]
fn push_decimal_largest_value() {
    let mut em = RawEmitter::new();
    em.push_decimal(u32::MAX);
    assert_eq!(text(&em), "4294967295");
}

#[test]
fn push_hex_renders_lower_case() {
    let mut em = RawEmitter::new();
    em.push_hex(0x1F3);
    em.push_str(" ");
    em.push_hex(0x80);
    em.push_str(" ");
    em.push_hex(0);
    assert_eq!(text(&em), "1f3 80 0");
}

#[test]
fn emit_skiplist_low_start_no_fast_reject() {
    let mut em = RawEmitter::new();
    em.emit_skiplist(&[CodeRange { start: 5, end: 9 }], "alpha");
    let out = text(&em);
    assert!(out.contains(
        "let short_offset_runs_alpha : FixedArray[ShortOffsetRunHeader] = \
         [ShortOffsetRunHeader::new(start_index=2, prefix_sum=1114121)];\n"
    ));
    assert!(out.contains("let offsets_alpha : Bytes = [5, 4, 0];\n"));
    assert!(out.contains("pub fn is_alpha(c : Char) -> Bool {\n"));
    assert!(!out.contains("lookup_slow_alpha"));
    assert!(out.contains("skip_search(c, short_offset_runs_alpha, offsets_alpha)\n}\n"));
    // Four table bytes for the one header, three coded offset bytes.
    assert_eq!(em.bytes_used, 4 + 3);
}

#[test]
fn emit_skiplist_high_start_emits_fast_reject() {
    let mut em = RawEmitter::new();
    em.emit_skiplist(&[CodeRange { start: 0x100, end: 0x200 }], "beta");
    let out = text(&em);
    assert!(out.contains("pub fn is_beta(c : Char) -> Bool {\n"));
    assert!(out.contains("c.to_uint() >= 0x100 && lookup_slow_beta(c)\n}\n"));
    assert!(out.contains("fn lookup_slow_beta(c : Char) -> Bool {\n"));
    // Both deltas are 0x100, each too wide for a byte: two headers with
    // adjacent positions, plus the sentinel's.
    assert!(out.contains("[ShortOffsetRunHeader::new(start_index=0, prefix_sum=256), "));
    assert!(out.contains("ShortOffsetRunHeader::new(start_index=1, prefix_sum=512), "));
    assert_eq!(em.bytes_used, 4 * 3 + 3);
}

#[test]
fn emit_skiplist_accumulates_bytes_used() {
    let mut em = RawEmitter::new();
    em.emit_skiplist(&[CodeRange { start: 5, end: 9 }], "one");
    let first = em.file.len();
    assert_eq!(em.bytes_used, 7);
    em.emit_skiplist(&[CodeRange { start: 0, end: 1000 }, CodeRange { start: 1005, end: 1006 }], "two");
    // Two headers (delta 1000 and the sentinel) and five coded bytes more.
    assert_eq!(em.bytes_used, 7 + 4 * 2 + 5);
    // The buffer only grows: the first emission is still a prefix.
    assert!(em.file.len() > first);
    assert!(text(&em).contains("let offsets_one"));
}
