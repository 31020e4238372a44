use unicode_table_generator::case_mapping::generate_tables;
use unicode_table_generator::case_mapping::INDEX_MASK;

#[test]
fn ascii_keys_are_dropped() {
    let data = vec![(0x41u32, (0x61u32, 0u32, 0u32)), (0x7Fu32, (0x7Fu32, 0u32, 0u32))];
    let (mappings, multis) = generate_tables(&data);
    assert!(mappings.is_empty());
    assert!(multis.is_empty());
}

#[test]
fn single_conversions_stay_inline() {
    let data = vec![(0xC0u32, (0xE0u32, 0u32, 0u32)), (0xC1u32, (0xE1u32, 0u32, 0u32))];
    let (mappings, multis) = generate_tables(&data);
    assert_eq!(mappings, vec![(0xC0, 0xE0), (0xC1, 0xE1)]);
    assert!(multis.is_empty());
}

#[test]
fn expanding_conversions_get_masked_indices() {
    let data = vec![
        (0x41u32, (0x61u32, 0u32, 0u32)),            // ASCII: dropped
        (0xDFu32, (0x53u32, 0x53u32, 0u32)),         // expands: aux index 0
        (0x130u32, (0x69u32, 0x307u32, 0u32)),       // expands: aux index 1
        (0x131u32, (0x49u32, 0u32, 0u32)),           // inline
        (0x149u32, (0x2BCu32, 0x4Eu32, 0u32)),       // expands: aux index 2
    ];
    let (mappings, multis) = generate_tables(&data);
    assert_eq!(
        mappings,
        vec![
            (0xDF, INDEX_MASK),
            (0x130, INDEX_MASK | 1),
            (0x131, 0x49),
            (0x149, INDEX_MASK | 2),
        ]
    );
    assert_eq!(
        multis,
        vec![(0x53, 0x53, 0), (0x69, 0x307, 0), (0x2BC, 0x4E, 0)]
    );
}

#[test]
fn empty_input_gives_empty_tables() {
    let (mappings, multis) = generate_tables(&Vec::new());
    assert!(mappings.is_empty());
    assert!(multis.is_empty());
}
