use vstd::prelude::*;

verus! {

/// Offset basis for 64 bits
pub const FNV_OFFSET_BASIS: u64 = 0xcbf29ce484222325;

/// Prime for 64 bits FNV
pub const FNV_PRIME: u64 = 0x00000100000001b3;

/// One round of FNV-1a: xor the byte in, then multiply by the prime modulo 2^64.
pub open spec fn fnv1a_round(hash: u64, byte: u8) -> u64 {
    vstd::wrapping::u64_specs::wrapping_mul(hash ^ (byte as u64), FNV_PRIME)
}

/// The 64-bit FNV-1a hash of a byte sequence: the offset basis folded with
/// `fnv1a_round` over the bytes, first to last.
pub open spec fn spec_fnv1a(bytes: Seq<u8>) -> u64
    decreases bytes.len(),
{
    if bytes.len() == 0 {
        FNV_OFFSET_BASIS
    } else {
        fnv1a_round(spec_fnv1a(bytes.drop_last()), bytes.last())
    }
}

/// Fowler–Noll–Vo hash function (FNV-1a, 64 bits)
///
/// See: https://en.wikipedia.org/wiki/Fowler%E2%80%93Noll%E2%80%93Vo_hash_function
pub fn fnv1a_hash(bytes: &[u8]) -> (hash: u64)
    ensures
        hash == spec_fnv1a(bytes@),
{
    let mut hash: u64 = FNV_OFFSET_BASIS;
    let mut i: usize = 0;
    while i < bytes.len()
        invariant
            i <= bytes@.len(),
            hash == spec_fnv1a(bytes@.take(i as int)),
        decreases bytes@.len() - i,
    {
        let item: u8 = bytes[i];
        hash = hash ^ (item as u64);
        hash = hash.wrapping_mul(FNV_PRIME);
        proof {
            assert(bytes@.take(i + 1).drop_last() =~= bytes@.take(i as int));
        }
        i = i + 1;
    }
    proof {
        assert(bytes@.take(bytes@.len() as int) =~= bytes@);
    }
    hash
}

/// The eight bytes of a 64-bit value, most significant first.
pub open spec fn spec_be_bytes(value: u64) -> Seq<u8> {
    Seq::new(8, |k: int| ((value >> ((56 - 8 * k) as u64)) & 0xffu64) as u8)
}

/// The big-endian bytes of `value`.
fn be_bytes(value: u64) -> (bytes: Vec<u8>)
    ensures
        bytes@ == spec_be_bytes(value),
{
    let mut bytes: Vec<u8> = Vec::with_capacity(8);
    let mut k: u64 = 0;
    while k < 8
        invariant
            k <= 8,
            bytes@.len() == k,
            forall|j: int| 0 <= j < k ==> #[trigger] bytes@[j] == spec_be_bytes(value)[j],
        decreases 8 - k,
    {
        let shift: u64 = 56 - 8 * k;
        bytes.push(((value >> shift) & 0xff) as u8);
        k = k + 1;
    }
    proof {
        assert(bytes@ =~= spec_be_bytes(value));
    }
    bytes
}

/// One answer folded into the checksum: the FNV-1a hash of the answer's
/// big-endian bytes, added modulo 2^64.
pub open spec fn checksum_round(checksum: u64, answer: u64) -> u64 {
    vstd::wrapping::u64_specs::wrapping_add(checksum, spec_fnv1a(spec_be_bytes(answer)))
}

/// The checksum of a sequence of answers, each a 64-bit pattern: the sum,
/// modulo 2^64, of the FNV-1a hashes of their big-endian bytes.
pub open spec fn spec_answers_checksum(answers: Seq<u64>) -> u64 {
    answers.fold_left(0u64, |checksum: u64, answer: u64| checksum_round(checksum, answer))
}

/// Hashes results, so that a run can easily be checked: the checksum of the
/// answers, given as the bit patterns of their floating-point values.
pub fn answers_checksum(answers: &[u64]) -> (checksum: u64)
    ensures
        checksum == spec_answers_checksum(answers@),
{
    let mut hash: u64 = 0;
    let mut i: usize = 0;
    while i < answers.len()
        invariant
            i <= answers@.len(),
            hash == spec_answers_checksum(answers@.take(i as int)),
        decreases answers@.len() - i,
    {
        let answer_bytes = be_bytes(answers[i]);
        hash = hash.wrapping_add(fnv1a_hash(answer_bytes.as_slice()));
        proof {
            assert(answers@.take(i + 1).drop_last() =~= answers@.take(i as int));
        }
        i = i + 1;
    }
    proof {
        assert(answers@.take(answers@.len() as int) =~= answers@);
    }
    hash
}

/// The checksum does not depend on the order of the answers: any two
/// sequences holding the same answers, as many times each, have the same
/// checksum.
pub proof fn law_checksum_ignores_order(answers1: Seq<u64>, answers2: Seq<u64>)
    requires
        answers1.to_multiset() == answers2.to_multiset(),
    ensures
        spec_answers_checksum(answers1) == spec_answers_checksum(answers2),
{
    let f = |checksum: u64, answer: u64| checksum_round(checksum, answer);
    assert(vstd::seq_lib::commutative_foldl(f)) by {
        assert forall|x: u64, y: u64, v: u64| #[trigger] f(f(v, x), y) == f(f(v, y), x) by {
            let hx = spec_fnv1a(spec_be_bytes(x));
            let hy = spec_fnv1a(spec_be_bytes(y));
            assert(f(v, x) == vstd::wrapping::u64_specs::wrapping_add(v, hx));
            assert(f(v, y) == vstd::wrapping::u64_specs::wrapping_add(v, hy));
        }
    }
    vstd::seq_lib::lemma_fold_left_permutation(answers1, answers2, f, 0u64);
}

/// FNV-1a takes every byte into account, in order: the hash of no bytes is
/// the 64-bit offset basis 0xcbf29ce484222325, and appending a byte xors it
/// into the hash so far and multiplies by the 64-bit FNV prime 0x100000001b3,
/// modulo 2^64, whatever the length of what came before.
pub proof fn law_fnv1a_folds_every_byte(bytes: Seq<u8>, b: u8)
    ensures
        spec_fnv1a(Seq::empty()) == 0xcbf29ce484222325u64,
        spec_fnv1a(bytes.push(b)) == vstd::wrapping::u64_specs::wrapping_mul(
            spec_fnv1a(bytes) ^ (b as u64),
            0x100000001b3u64,
        ),
{
    assert(bytes.push(b).drop_last() =~= bytes);
    assert(bytes.push(b).last() == b);
}

/// The big-endian bytes of a 64-bit value: its eight base-256 digits, most
/// significant first.
pub proof fn law_be_bytes_are_base_256_digits(value: u64)
    ensures
        spec_be_bytes(value) == seq![
            ((value / 0x100000000000000) % 0x100) as u8,
            ((value / 0x1000000000000) % 0x100) as u8,
            ((value / 0x10000000000) % 0x100) as u8,
            ((value / 0x100000000) % 0x100) as u8,
            ((value / 0x1000000) % 0x100) as u8,
            ((value / 0x10000) % 0x100) as u8,
            ((value / 0x100) % 0x100) as u8,
            (value % 0x100) as u8,
        ],
{
    assert((value >> 56u64) & 0xffu64 == (value / 0x100000000000000) % 0x100) by (bit_vector);
    assert((value >> 48u64) & 0xffu64 == (value / 0x1000000000000) % 0x100) by (bit_vector);
    assert((value >> 40u64) & 0xffu64 == (value / 0x10000000000) % 0x100) by (bit_vector);
    assert((value >> 32u64) & 0xffu64 == (value / 0x100000000) % 0x100) by (bit_vector);
    assert((value >> 24u64) & 0xffu64 == (value / 0x1000000) % 0x100) by (bit_vector);
    assert((value >> 16u64) & 0xffu64 == (value / 0x10000) % 0x100) by (bit_vector);
    assert((value >> 8u64) & 0xffu64 == (value / 0x100) % 0x100) by (bit_vector);
    assert((value >> 0u64) & 0xffu64 == value % 0x100) by (bit_vector);
    assert(spec_be_bytes(value) =~= seq![
        ((value / 0x100000000000000) % 0x100) as u8,
        ((value / 0x1000000000000) % 0x100) as u8,
        ((value / 0x10000000000) % 0x100) as u8,
        ((value / 0x100000000) % 0x100) as u8,
        ((value / 0x1000000) % 0x100) as u8,
        ((value / 0x10000) % 0x100) as u8,
        ((value / 0x100) % 0x100) as u8,
        (value % 0x100) as u8,
    ]);
}

/// Every answer counts in the checksum: the checksum of no answers is 0,
/// and one more answer adds, modulo 2^64, the FNV-1a hash of its big-endian
/// bytes, whatever its value.
pub proof fn law_checksum_adds_every_answer(answers: Seq<u64>, answer: u64)
    ensures
        spec_answers_checksum(Seq::empty()) == 0,
        spec_answers_checksum(answers.push(answer)) == vstd::wrapping::u64_specs::wrapping_add(
            spec_answers_checksum(answers),
            spec_fnv1a(spec_be_bytes(answer)),
        ),
{
    assert(answers.push(answer).drop_last() =~= answers);
    assert(answers.push(answer).last() == answer);
}

} // verus!
