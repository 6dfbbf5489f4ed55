//! Sentence embeddings as they are stored.
//!
//! A verse or a spoken phrase is a unit vector of 384 numbers. In the library a
//! vector is a blob, four bytes to a number; here a number is the 32 bits of
//! its binary32 form, which is what is written.

use crate::bytes::{
    lemma_little_endian, little_endian, number_of, push_u32, reach, read_u32,
};
use crate::text::lemma_prefix_step;
use vstd::prelude::*;

verus! {

/// The width of the model's output.
pub const DIMENSIONS: usize = 384;

/// Verses and spoken phrases are short; anything longer is padding that would
/// only be paid for.
pub const MAX_TOKENS: usize = 128;

/// A vector as bytes, four to a number, least significant first.
pub open spec fn packed(vector: Seq<u32>) -> Seq<u8>
    decreases vector.len(),
{
    if vector.len() == 0 {
        Seq::empty()
    } else {
        packed(vector.drop_last()) + little_endian(vector.last() as nat, 4)
    }
}

/// The numbers that so many groups of four bytes stand for.
pub open spec fn unpacked(bytes: Seq<u8>, count: nat) -> Seq<u32> {
    Seq::new(count, |i: int| number_of(bytes.subrange(4 * i, 4 * i + 4)) as u32)
}

/// Packs a vector for storage as a blob.
pub fn to_blob(vector: &[u32]) -> (r: Vec<u8>)
    ensures
        r@ == packed(vector@),
{
    let mut bytes: Vec<u8> = Vec::new();
    let mut i: usize = 0;
    assert(bytes@ =~= packed(vector@.take(0)));
    while i < vector.len()
        invariant
            i <= vector.len(),
            bytes@ == packed(vector@.take(i as int)),
        decreases vector.len() - i,
    {
        proof {
            lemma_prefix_step(vector@, i as int);
        }
        push_u32(&mut bytes, vector[i]);
        i += 1;
    }
    assert(vector@.take(vector@.len() as int) =~= vector@);
    bytes
}

/// Unpacks a stored vector, rejecting anything the wrong size.
pub fn from_blob(bytes: &[u8]) -> (r: Option<Vec<u32>>)
    ensures
        r is Some <==> bytes@.len() == DIMENSIONS * 4,
        r matches Some(vector) ==> vector@ == unpacked(bytes@, DIMENSIONS as nat),
{
    if bytes.len() != DIMENSIONS * 4 {
        return None;
    }
    let mut out: Vec<u32> = Vec::new();
    let mut i: usize = 0;
    while i < DIMENSIONS
        invariant
            i <= DIMENSIONS,
            bytes@.len() == DIMENSIONS * 4,
            out@ == unpacked(bytes@, i as nat),
        decreases DIMENSIONS - i,
    {
        let at: usize = 4 * i;
        let one: u32 = read_u32(bytes[at], bytes[at + 1], bytes[at + 2], bytes[at + 3]);
        let ghost four = seq![
            bytes@[at as int],
            bytes@[at + 1],
            bytes@[at + 2],
            bytes@[at + 3],
        ];
        assert(four =~= bytes@.subrange(4 * i as int, 4 * i + 4));
        out.push(one);
        i += 1;
        assert(out@ =~= unpacked(bytes@, i as nat));
    }
    Some(out)
}

proof fn lemma_packed(vector: Seq<u32>)
    ensures
        packed(vector).len() == 4 * vector.len(),
        forall|i: int|
            0 <= i < vector.len() ==> #[trigger] packed(vector).subrange(4 * i, 4 * i + 4)
                == little_endian(vector[i] as nat, 4),
    decreases vector.len(),
{
    if vector.len() > 0 {
        let before = vector.drop_last();
        lemma_packed(before);
        reveal_with_fuel(reach, 5);
        lemma_little_endian(vector.last() as nat, 4);
        assert forall|i: int| 0 <= i < vector.len() implies #[trigger] packed(vector).subrange(
            4 * i,
            4 * i + 4,
        ) == little_endian(vector[i] as nat, 4) by {
            if i < before.len() {
                assert(packed(vector).subrange(4 * i, 4 * i + 4) =~= packed(before).subrange(
                    4 * i,
                    4 * i + 4,
                ));
            } else {
                assert(packed(vector).subrange(4 * i, 4 * i + 4) =~= little_endian(
                    vector[i] as nat,
                    4,
                ));
            }
        }
    }
}

/// A vector of the right width is read back as it was written, bit for bit.
pub proof fn law_a_blob_is_read_back(vector: Seq<u32>)
    requires
        vector.len() == 384,
    ensures
        packed(vector).len() == DIMENSIONS * 4,
        unpacked(packed(vector), DIMENSIONS as nat) == vector,
{
    lemma_packed(vector);
    assert forall|i: int| 0 <= i < DIMENSIONS implies #[trigger] unpacked(
        packed(vector),
        DIMENSIONS as nat,
    )[i] == vector[i] by {
        reveal_with_fuel(reach, 5);
        lemma_little_endian(vector[i] as nat, 4);
        assert(packed(vector).subrange(4 * i, 4 * i + 4) == little_endian(vector[i] as nat, 4));
    }
    assert(unpacked(packed(vector), DIMENSIONS as nat) =~= vector);
}

} // verus!
