use haversine_distance::hash::{answers_checksum, fnv1a_hash};

#[test]
fn fnv1a_of_empty_input_is_the_offset_basis() {
    assert_eq!(fnv1a_hash(b""), 0xcbf29ce484222325);
}

#[test]
fn fnv1a_known_values() {
    assert_eq!(fnv1a_hash(b"a"), 0xaf63dc4c8601ec8c);
    assert_eq!(fnv1a_hash(b"foobar"), 0x85944171f73967e8);
    assert_eq!(fnv1a_hash(b"hello"), 0xa430d84680aabd0b);
}

#[test]
fn checksum_of_no_answers_is_zero() {
    assert_eq!(answers_checksum(&[]), 0);
}

#[test]
fn checksum_of_one_answer_is_the_hash_of_its_big_endian_bytes() {
    let answer: f64 = 1234.5678;
    assert_eq!(
        answers_checksum(&[answer.to_bits()]),
        fnv1a_hash(&answer.to_be_bytes())
    );
}

#[test]
fn checksum_adds_hashes_with_wrap_around() {
    let answers: [f64; 3] = [1.5, 6372.8, -0.25];
    let mut expected: u64 = 0;
    for a in answers {
        expected = expected.wrapping_add(fnv1a_hash(&a.to_be_bytes()));
    }
    let bits: Vec<u64> = answers.iter().map(|a| a.to_bits()).collect();
    assert_eq!(answers_checksum(&bits), expected);
}

#[test]
fn checksum_does_not_depend_on_the_order_of_answers() {
    let a = [1u64, 2, 3, 0xdead_beef, 3];
    let b = [3u64, 0xdead_beef, 1, 3, 2];
    assert_eq!(answers_checksum(&a), answers_checksum(&b));
    assert_ne!(answers_checksum(&a), answers_checksum(&[1u64, 2, 3]));
}
