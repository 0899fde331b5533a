//! Decoded form of an encoded perceptual hash, and the Hamming
//! distance between two decoded hashes.
//!
//! An encoded hash is a hexadecimal string of 16 digits covering an
//! 8 x 8 bit matrix: digit `k` carries bits `4k .. 4k+4`, most
//! significant bit first. A string that is not exactly 16 hexadecimal
//! digits fails to decode; comparisons fail closed on such strings,
//! because a [`HashBits`] can only be built by a successful decode.

use vstd::prelude::*;

verus! {

/// Number of bits in a decoded perceptual hash (an 8 x 8 grid).
pub const HASH_BIT_COUNT: usize = 64;

/// Number of hexadecimal digits in an encoded perceptual hash.
pub const HASH_DIGIT_COUNT: usize = 16;

/// Whether `c` is a hexadecimal digit (either case).
pub open spec fn is_hex_digit(c: char) -> bool {
    ('0' as int <= c as int && c as int <= '9' as int) || ('a' as int <= c as int && c as int
        <= 'f' as int) || ('A' as int <= c as int && c as int <= 'F' as int)
}

/// The numeric value of a hexadecimal digit.
pub open spec fn hex_val(c: char) -> int
    recommends
        is_hex_digit(c),
{
    if '0' as int <= c as int && c as int <= '9' as int {
        c as int - '0' as int
    } else if 'a' as int <= c as int && c as int <= 'f' as int {
        c as int - 'a' as int + 10
    } else {
        c as int - 'A' as int + 10
    }
}

/// The four bits of one hexadecimal digit value, most significant first.
pub open spec fn nibble_bits(v: int) -> Seq<bool> {
    seq![v / 8 % 2 == 1, v / 4 % 2 == 1, v / 2 % 2 == 1, v % 2 == 1]
}

/// Whether `s` is a well-formed encoded hash: exactly 16 hexadecimal digits.
pub open spec fn is_valid_encoding(s: Seq<char>) -> bool {
    s.len() == HASH_DIGIT_COUNT && (forall|i: int|
        0 <= i < s.len() ==> is_hex_digit(#[trigger] s[i]))
}

/// The bit sequence an encoded hash denotes.
pub open spec fn decoded_bits(s: Seq<char>) -> Seq<bool> {
    Seq::new(s.len() * 4, |i: int| nibble_bits(hex_val(s[i / 4]))[i % 4])
}

/// A decoded perceptual hash: the 64 bits of the 8 x 8 grid.
pub struct HashBits {
    bits: Vec<bool>,
}

impl View for HashBits {
    type V = Seq<bool>;

    closed spec fn view(&self) -> Seq<bool> {
        self.bits@
    }
}

impl Clone for HashBits {
    fn clone(&self) -> (r: Self)
        ensures
            r@ == self@,
    {
        HashBits { bits: self.bits.clone() }
    }
}

impl HashBits {
    /// A decoded hash always carries exactly 64 bits.
    pub open spec fn wf(&self) -> bool {
        self@.len() == HASH_BIT_COUNT
    }

    /// The bit at position `i`.
    pub fn bit(&self, i: usize) -> (r: bool)
        requires
            i < self@.len(),
        ensures
            r == self@[i as int],
    {
        self.bits[i]
    }
}

/// The numeric value of one hexadecimal character, if it is one.
fn hex_digit_value(c: char) -> (r: Option<u8>)
    ensures
        r is Some <==> is_hex_digit(c),
        r is Some ==> r->0 as int == hex_val(c) && r->0 < 16,
{
    let u = c as u32;
    if u >= '0' as u32 && u <= '9' as u32 {
        Some((u - '0' as u32) as u8)
    } else if u >= 'a' as u32 && u <= 'f' as u32 {
        Some((u - 'a' as u32 + 10) as u8)
    } else if u >= 'A' as u32 && u <= 'F' as u32 {
        Some((u - 'A' as u32 + 10) as u8)
    } else {
        None
    }
}

/// Decodes an encoded perceptual hash into its 64 bits.
///
/// Returns `None` exactly when the string is not 16 hexadecimal
/// digits; callers treat that as a cache miss or a skipped entry
/// rather than an error that aborts a batch.
pub fn decode_hash(s: &str) -> (r: Option<HashBits>)
    ensures
        r is Some <==> is_valid_encoding(s@),
        r is Some ==> r->0@ == decoded_bits(s@) && r->0.wf(),
{
    let n = s.unicode_len();
    if n != HASH_DIGIT_COUNT {
        return None;
    }
    let mut bits: Vec<bool> = Vec::new();
    let mut i: usize = 0;
    while i < HASH_DIGIT_COUNT
        invariant
            i <= HASH_DIGIT_COUNT,
            s@.len() == HASH_DIGIT_COUNT,
            bits@.len() == 4 * i,
            forall|j: int| 0 <= j < i ==> is_hex_digit(#[trigger] s@[j]),
            forall|j: int| 0 <= j < bits@.len() ==> bits@[j] == decoded_bits(s@)[j],
        decreases HASH_DIGIT_COUNT - i,
    {
        let c = s.get_char(i);
        match hex_digit_value(c) {
            None => {
                return None;
            },
            Some(v) => {
                bits.push(v / 8 % 2 == 1);
                bits.push(v / 4 % 2 == 1);
                bits.push(v / 2 % 2 == 1);
                bits.push(v % 2 == 1);
                assert forall|j: int| 4 * i <= j < 4 * (i + 1) implies bits@[j] == decoded_bits(
                    s@,
                )[j] by {
                    assert(j / 4 == i && decoded_bits(s@)[j] == nibble_bits(hex_val(s@[j / 4]))[j
                        % 4]);
                }
            },
        }
        i = i + 1;
    }
    Some(HashBits { bits })
}

/// The Hamming distance: how many positions of `a` and `b` differ.
pub open spec fn hamming(a: Seq<bool>, b: Seq<bool>) -> nat
    decreases a.len(),
{
    if a.len() == 0 || b.len() == 0 {
        0
    } else {
        (if a.last() != b.last() {
            1nat
        } else {
            0nat
        }) + hamming(a.drop_last(), b.drop_last())
    }
}

/// The Hamming distance between two decoded hashes.
pub fn distance(a: &HashBits, b: &HashBits) -> (r: u32)
    requires
        a.wf(),
        b.wf(),
    ensures
        r == hamming(a@, b@),
        r <= HASH_BIT_COUNT,
{
    let mut count: u32 = 0;
    let mut i: usize = 0;
    while i < HASH_BIT_COUNT
        invariant
            a.wf(),
            b.wf(),
            i <= HASH_BIT_COUNT,
            count <= i,
            count == hamming(a@.subrange(0, i as int), b@.subrange(0, i as int)),
        decreases HASH_BIT_COUNT - i,
    {
        let ghost pa = a@.subrange(0, i as int);
        let ghost pb = b@.subrange(0, i as int);
        if a.bit(i) != b.bit(i) {
            count = count + 1;
        }
        i = i + 1;
        proof {
            let na = a@.subrange(0, i as int);
            let nb = b@.subrange(0, i as int);
            assert(na.drop_last() =~= pa && nb.drop_last() =~= pb);
        }
    }
    proof {
        assert(a@.subrange(0, HASH_BIT_COUNT as int) =~= a@);
        assert(b@.subrange(0, HASH_BIT_COUNT as int) =~= b@);
    }
    count
}

/// Distance is symmetric: d(a, b) == d(b, a).
pub proof fn lemma_hamming_symmetric(a: Seq<bool>, b: Seq<bool>)
    ensures
        hamming(a, b) == hamming(b, a),
    decreases a.len(),
{
    if a.len() != 0 && b.len() != 0 {
        lemma_hamming_symmetric(a.drop_last(), b.drop_last());
    }
}

/// Distance of a hash to itself is zero.
pub proof fn lemma_hamming_self(a: Seq<bool>)
    ensures
        hamming(a, a) == 0,
    decreases a.len(),
{
    if a.len() != 0 {
        lemma_hamming_self(a.drop_last());
    }
}

/// At threshold zero only bit-identical hashes are within distance:
/// the distance of two equal-length hashes is zero exactly when they
/// are equal.
pub proof fn lemma_hamming_zero_iff_equal(a: Seq<bool>, b: Seq<bool>)
    requires
        a.len() == b.len(),
    ensures
        hamming(a, b) == 0 <==> a == b,
    decreases a.len(),
{
    if a.len() == 0 {
        assert(a =~= b);
    } else {
        lemma_hamming_zero_iff_equal(a.drop_last(), b.drop_last());
        if hamming(a, b) == 0 {
            assert(a =~= a.drop_last().push(a.last()));
            assert(b =~= b.drop_last().push(b.last()));
        }
        if a == b {
            assert(a.drop_last() =~= b.drop_last());
        }
    }
}

} // verus!
