//! Device buffers as bytes.
//!
//! A device takes and returns raw bytes in the byte order of the machine. Which
//! order that is, is not known here: a buffer holds its words in one of the two.
use vstd::prelude::*;
use vstd::arithmetic::power::*;

verus! {

/// The `size` low bytes of `w`, least significant first.
pub open spec fn image(w: nat, size: nat) -> Seq<u8>
    decreases size,
{
    if size == 0 {
        Seq::empty()
    } else {
        seq![(w % 256) as u8] + image(w / 256, (size - 1) as nat)
    }
}

/// The bytes of `w` in memory, in one of the two byte orders.
pub open spec fn word_image(w: nat, size: nat, little: bool) -> Seq<u8> {
    if little {
        image(w, size)
    } else {
        image(w, size).reverse()
    }
}

/// Bytes of word `i` of a buffer of words of `size` bytes.
pub open spec fn word_bytes(bytes: Seq<u8>, size: int, i: int) -> Seq<u8> {
    bytes.subrange(size * i, size * i + size)
}

/// `bytes` is the memory of `words` in one of the two byte orders.
pub open spec fn is_memory32(bytes: Seq<u8>, words: Seq<u32>, little: bool) -> bool {
    &&& bytes.len() == 4 * words.len()
    &&& forall|i: int|
        0 <= i < words.len() ==> word_bytes(bytes, 4, i) == word_image(
            #[trigger] words[i] as nat,
            4,
            little,
        )
}

/// `bytes` is the memory of `words` in one of the two byte orders.
pub open spec fn is_memory64(bytes: Seq<u8>, words: Seq<u64>, little: bool) -> bool {
    &&& bytes.len() == 8 * words.len()
    &&& forall|i: int|
        0 <= i < words.len() ==> word_bytes(bytes, 8, i) == word_image(
            #[trigger] words[i] as nat,
            8,
            little,
        )
}

/// Bytes of a buffer of 32-bit words.
///
/// Trusted: `bytemuck::cast_slice` from `u32` to `u8`. It reinterprets the memory of
/// the slice, which never fails here: a byte needs no alignment and divides every
/// length. So the bytes are those of the words, in the machine's byte order; which
/// of the two that is, is left open.
#[verifier::external_body]
pub(crate) fn bytes_of32(words: &[u32]) -> (r: &[u8])
    ensures
        is_memory32(r@, words@, true) || is_memory32(r@, words@, false),
{
    bytemuck::cast_slice(words)
}

/// Bytes of a buffer of 64-bit words.
///
/// Trusted: `bytemuck::cast_slice` from `u64` to `u8`, as [`bytes_of32`].
#[verifier::external_body]
pub(crate) fn bytes_of64(words: &[u64]) -> (r: &[u8])
    ensures
        is_memory64(r@, words@, true) || is_memory64(r@, words@, false),
{
    bytemuck::cast_slice(words)
}

/// The 32-bit words that a buffer holds.
///
/// Trusted: `bytemuck::pod_collect_to_vec` from `u8` to `u32`. It copies the bytes
/// into the memory of as many words as they fill, so they are the memory of the
/// result, in the machine's byte order; which of the two that is, is left open.
#[verifier::external_body]
pub(crate) fn words_of32(bytes: &[u8]) -> (r: Vec<u32>)
    requires
        bytes@.len() % 4 == 0,
    ensures
        is_memory32(bytes@, r@, true) || is_memory32(bytes@, r@, false),
{
    bytemuck::pod_collect_to_vec(bytes)
}

/// The 64-bit words that a buffer holds.
///
/// Trusted: `bytemuck::pod_collect_to_vec` from `u8` to `u64`, as [`words_of32`].
#[verifier::external_body]
pub(crate) fn words_of64(bytes: &[u8]) -> (r: Vec<u64>)
    requires
        bytes@.len() % 8 == 0,
    ensures
        is_memory64(bytes@, r@, true) || is_memory64(bytes@, r@, false),
{
    bytemuck::pod_collect_to_vec(bytes)
}

/// A word is determined by its bytes.
proof fn lemma_image_injective(v: nat, w: nat, size: nat)
    requires
        image(v, size) == image(w, size),
        v < pow(256, size),
        w < pow(256, size),
    ensures
        v == w,
    decreases size,
{
    lemma_image_length(v, size);
    lemma_image_length(w, size);
    if size == 0 {
        lemma_pow0(256);
    } else {
        let (a, b) = (image(v, size), image(w, size));
        let rest = (size - 1) as nat;
        assert(a[0] == (v % 256) as u8 && b[0] == (w % 256) as u8);
        assert(a.skip(1) =~= image(v / 256, rest));
        assert(b.skip(1) =~= image(w / 256, rest));
        let p = pow(256, rest);
        lemma_pow1(256);
        lemma_pow_adds(256, 1, rest);
        assert(pow(256, size) == 256 * p);
        lemma_image_injective(v / 256, w / 256, rest);
    }
}

proof fn lemma_image_length(w: nat, size: nat)
    ensures
        image(w, size).len() == size,
    decreases size,
{
    if size > 0 {
        lemma_image_length(w / 256, (size - 1) as nat);
    }
}

proof fn lemma_word_image_injective(v: nat, w: nat, size: nat, little: bool)
    requires
        word_image(v, size, little) == word_image(w, size, little),
        v < pow(256, size),
        w < pow(256, size),
    ensures
        v == w,
{
    let (a, b) = (image(v, size), image(w, size));
    lemma_image_length(v, size);
    lemma_image_length(w, size);
    if !little {
        assert forall|i: int| 0 <= i < size implies #[trigger] a[i] == b[i] by {
            assert(a.reverse()[size - 1 - i] == b.reverse()[size - 1 - i]);
        }
        assert(a =~= b);
    }
    lemma_image_injective(v, w, size);
}

proof fn lemma_word_ranges()
    ensures
        pow(256, 4) == 0x1_0000_0000,
        pow(256, 8) == 0x1_0000_0000_0000_0000,
{
    lemma_pow1(256);
    lemma_pow_adds(256, 1, 1);
    lemma_pow_adds(256, 2, 2);
    lemma_pow_adds(256, 4, 4);
    let (p2, p4) = (pow(256, 2), pow(256, 4));
    assert(p2 == 65536);
    assert(p2 * p2 == 0x1_0000_0000) by (nonlinear_arith)
        requires
            p2 == 65536,
    ;
    assert(p4 * p4 == 0x1_0000_0000_0000_0000) by (nonlinear_arith)
        requires
            p4 == 0x1_0000_0000,
    ;
}

/// Reading a buffer in the byte order it was written in gives back what was
/// written.
pub proof fn lemma_buffers_round_trip32(bytes: Seq<u8>, a: Seq<u32>, b: Seq<u32>, little: bool)
    requires
        is_memory32(bytes, a, little),
        is_memory32(bytes, b, little),
    ensures
        a == b,
{
    lemma_word_ranges();
    assert forall|i: int| 0 <= i < a.len() implies #[trigger] a[i] == b[i] by {
        lemma_word_image_injective(a[i] as nat, b[i] as nat, 4, little);
    }
    assert(a =~= b);
}

/// Reading a buffer in the byte order it was written in gives back what was
/// written.
pub proof fn lemma_buffers_round_trip64(bytes: Seq<u8>, a: Seq<u64>, b: Seq<u64>, little: bool)
    requires
        is_memory64(bytes, a, little),
        is_memory64(bytes, b, little),
    ensures
        a == b,
{
    lemma_word_ranges();
    assert forall|i: int| 0 <= i < a.len() implies #[trigger] a[i] == b[i] by {
        lemma_word_image_injective(a[i] as nat, b[i] as nat, 8, little);
    }
    assert(a =~= b);
}

} // verus!
