//! Text to bits and back: UTF-8 bytes, eight bits each, most significant first.
use std::string::FromUtf8Error;
use vstd::prelude::*;
use vstd::utf8::{decode_utf8, valid_utf8};
use vstd::string::StringSliceAdditionalSpecFns;

verus! {

/// Bit `j` of `b`, counting from the most significant bit (`j` in `0..8`).
pub open spec fn byte_bit(b: u8, j: int) -> bool {
    ((b >> ((7 - j) as u8)) & 1u8) == 1u8
}

/// The bits of `bytes`, eight per byte, most significant first.
pub open spec fn bytes_to_bits(bytes: Seq<u8>) -> Seq<bool> {
    Seq::new(8 * bytes.len(), |k: int| byte_bit(bytes[k / 8], k % 8))
}

/// The byte whose bits, most significant first, are the first `n` bits of
/// `bits` from `start` on; a position at or past the end reads as zero.
pub open spec fn chunk_acc(bits: Seq<bool>, start: int, n: nat) -> u8
    decreases n,
{
    if n == 0 {
        0u8
    } else {
        let prev = chunk_acc(bits, start, (n - 1) as nat);
        let i = n - 1;
        if start + i < bits.len() && bits[start + i] {
            prev | (1u8 << ((7 - i) as u8))
        } else {
            prev
        }
    }
}

/// The bytes made from `bits` in groups of eight; a last, shorter group is
/// padded with zero bits at its low end.
pub open spec fn pack_bits(bits: Seq<bool>) -> Seq<u8> {
    Seq::new(((bits.len() + 7) / 8) as nat, |k: int| chunk_acc(bits, 8 * k, 8))
}

#[verifier::external_type_specification]
#[verifier::external_body]
pub struct ExFromUtf8Error(FromUtf8Error);

/// Relies on `String::from_utf8`: it succeeds exactly when the bytes are valid
/// UTF-8, and the text then consists of the characters those bytes encode.
#[verifier::external_body]
fn string_from_utf8(bytes: Vec<u8>) -> (r: Result<String, FromUtf8Error>)
    ensures
        r is Ok <==> valid_utf8(bytes@),
        r matches Ok(s) ==> s@ == decode_utf8(bytes@),
{
    String::from_utf8(bytes)
}

/// Turns text into bits and bits back into text.
pub trait Converter {
    /// The UTF-8 bytes of `value`, eight bits each, most significant first.
    fn to_binary(&self, value: &str) -> (r: Vec<bool>)
        ensures
            r@ == bytes_to_bits(value.spec_bytes()),
    ;

    /// The text whose UTF-8 bytes are `bits` packed eight to a byte, or the
    /// error of a byte sequence that is not UTF-8.
    fn to_string(&self, bits: &[bool]) -> (r: Result<String, FromUtf8Error>)
        ensures
            r is Ok <==> valid_utf8(pack_bits(bits@)),
            r matches Ok(s) ==> s@ == decode_utf8(pack_bits(bits@)),
    ;
}

/// The plain converter: one bit per position, no whitening or padding.
pub struct SimpleConverter {}

impl SimpleConverter {
    pub fn new() -> (r: SimpleConverter) {
        SimpleConverter {  }
    }
}

proof fn lemma_bit_index(i: int, j: int)
    requires
        0 <= i,
        0 <= j < 8,
    ensures
        (8 * i + j) / 8 == i,
        (8 * i + j) % 8 == j,
{
    assert((8 * i + j) / 8 == i) by (nonlinear_arith)
        requires
            0 <= i,
            0 <= j < 8,
    ;
    assert((8 * i + j) % 8 == j) by (nonlinear_arith)
        requires
            0 <= i,
            0 <= j < 8,
    ;
}

/// Positions at or past the end of `bits` add nothing to a byte.
proof fn lemma_chunk_acc_past_end(bits: Seq<bool>, start: int, n: nat, m: nat)
    requires
        0 <= start,
        bits.len() <= start + n,
        n <= m,
    ensures
        chunk_acc(bits, start, m) == chunk_acc(bits, start, n),
    decreases m - n,
{
    if m > n {
        lemma_chunk_acc_past_end(bits, start, n, (m - 1) as nat);
    }
}


proof fn lemma_acc_step(v: u8, acc: u8, j: u8)
    by (bit_vector)
    requires
        j < 8,
        acc == v & !(0xffu8 >> j),
    ensures
        (if ((v >> (7 - j) as u8) & 1u8) == 1u8 {
            acc | (1u8 << (7 - j) as u8)
        } else {
            acc
        }) == v & !(0xffu8 >> (j + 1) as u8),
{
}

proof fn lemma_chunk_prefix(bits: Seq<bool>, start: int, v: u8, n: nat)
    requires
        n <= 8,
        0 <= start,
        start + 8 <= bits.len(),
        forall|j: int| 0 <= j < 8 ==> bits[start + j] == #[trigger] byte_bit(v, j),
    ensures
        chunk_acc(bits, start, n) == v & !(0xffu8 >> (n as u8)),
    decreases n,
{
    if n == 0 {
        assert(v & !(0xffu8 >> 0u8) == 0u8) by (bit_vector);
    } else {
        lemma_chunk_prefix(bits, start, v, (n - 1) as nat);
        assert(bits[start + (n - 1)] == byte_bit(v, n - 1));
        lemma_acc_step(v, chunk_acc(bits, start, (n - 1) as nat), (n - 1) as u8);
    }
}

/// Packing the bits of some bytes gives those bytes back.
pub proof fn lemma_pack_bits_of_bytes(bytes: Seq<u8>)
    ensures
        pack_bits(bytes_to_bits(bytes)) == bytes,
{
    let bits = bytes_to_bits(bytes);
    assert((8 * bytes.len() + 7) / 8 == bytes.len()) by (nonlinear_arith);
    assert forall|k: int| 0 <= k < bytes.len() implies #[trigger] pack_bits(bits)[k] == bytes[k] by {
        assert forall|j: int| 0 <= j < 8 implies bits[8 * k + j] == #[trigger] byte_bit(bytes[k], j) by {
            lemma_bit_index(k, j);
            assert(8 * k + j < 8 * bytes.len()) by (nonlinear_arith)
                requires
                    0 <= j < 8,
                    k < bytes.len(),
            ;
        }
        assert(8 * k + 8 <= bits.len()) by (nonlinear_arith)
            requires
                k < bytes.len(),
                bits.len() == 8 * bytes.len(),
        ;
        lemma_chunk_prefix(bits, 8 * k, bytes[k], 8);
        let v = bytes[k];
        assert(v & !(0xffu8 >> 8u8) == v) by (bit_vector);
    }
    assert(pack_bits(bits) =~= bytes);
}

impl Converter for SimpleConverter {
    fn to_binary(&self, value: &str) -> (r: Vec<bool>) {
        let bytes = value.as_bytes();
        let mut binary_digits: Vec<bool> = Vec::new();
        let mut i: usize = 0;
        while i < bytes.len()
            invariant
                i <= bytes@.len(),
                bytes@ == value.spec_bytes(),
                binary_digits@.len() == 8 * i,
                forall|k: int|
                    0 <= k < 8 * i ==> #[trigger] binary_digits@[k] == byte_bit(bytes@[k / 8], k % 8),
            decreases bytes@.len() - i,
        {
            let byte = bytes[i];
            let mut bit: u8 = 8;
            while bit > 0
                invariant
                    i < bytes@.len(),
                    byte == bytes@[i as int],
                    bit <= 8,
                    binary_digits@.len() == 8 * i + (8 - bit),
                    forall|k: int|
                        0 <= k < 8 * i + (8 - bit) ==> #[trigger] binary_digits@[k] == byte_bit(
                            bytes@[k / 8],
                            k % 8,
                        ),
                decreases bit,
            {
                bit = bit - 1;
                proof {
                    lemma_bit_index(i as int, 7 - bit);
                }
                binary_digits.push(((byte >> bit) & 1) == 1);
            }
            i = i + 1;
        }
        assert(binary_digits@ =~= bytes_to_bits(value.spec_bytes()));
        binary_digits
    }

    fn to_string(&self, bits: &[bool]) -> (r: Result<String, FromUtf8Error>) {
        let mut bytes: Vec<u8> = Vec::new();
        let chunks: usize = bits.len() / 8 + if bits.len() % 8 == 0 { 0 } else { 1 };
        let mut c: usize = 0;
        while c < chunks
            invariant
                chunks == (bits@.len() + 7) / 8,
                c <= chunks,
                bytes@.len() == c,
                forall|k: int| 0 <= k < c ==> #[trigger] bytes@[k] == chunk_acc(bits@, 8 * k, 8),
            decreases chunks - c,
        {
            let n: usize = bits.len();
            assert(8 * c < n) by (nonlinear_arith)
                requires
                    c < chunks,
                    chunks == (n + 7) / 8,
            ;
            let start: usize = 8 * c;
            let mut byte: u8 = 0;
            let mut j: usize = 0;
            while j < 8 && j < bits.len() - start
                invariant
                    start == 8 * c,
                    start < bits@.len(),
                    j <= 8,
                    byte == chunk_acc(bits@, start as int, j as nat),
                decreases 8 - j,
            {
                if bits[start + j] {
                    byte |= 1u8 << ((7 - j) as u8);
                }
                j = j + 1;
            }
            proof {
                if j < 8 {
                    lemma_chunk_acc_past_end(bits@, start as int, j as nat, 8);
                }
            }
            bytes.push(byte);
            c = c + 1;
        }
        assert(bytes@ =~= pack_bits(bits@));
        string_from_utf8(bytes)
    }
}

} // verus!
