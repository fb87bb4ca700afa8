//! The encoding of a byte payload as field elements.
//!
//! A payload is cut into chunks of 32 bytes. The last chunk, if it is
//! shorter, is filled up with zero bytes at its end. Each chunk is read as a
//! little-endian number, which must be below the field's order. The empty
//! payload has no chunk, and a payload whose length is a multiple of 32 gets
//! no chunk beyond its own bytes.

use crate::error::MerkleError;
use crate::field::{element_values, le_value, modulus, FieldElement};
use vstd::prelude::*;

verus! {

/// The number of chunks of a payload of `len` bytes.
pub open spec fn chunk_count(len: nat) -> nat {
    (len + 31) / 32
}

/// The `k`-th chunk of `bytes`, filled up to 32 bytes with zeros.
pub open spec fn padded_chunk(bytes: Seq<u8>, k: int) -> Seq<u8> {
    Seq::new(
        32,
        |j: int|
            if 32 * k + j < bytes.len() {
                bytes[32 * k + j]
            } else {
                0u8
            },
    )
}

/// Whether every chunk of `bytes` spells a number below the field's order.
pub open spec fn encodable(bytes: Seq<u8>) -> bool {
    forall|k: int|
        0 <= k < chunk_count(bytes.len()) ==> le_value(#[trigger] padded_chunk(bytes, k))
            < modulus()
}

/// The field elements that `bytes` encode to, one per chunk.
pub open spec fn encoding(bytes: Seq<u8>) -> Seq<nat> {
    Seq::new(chunk_count(bytes.len()), |k: int| le_value(padded_chunk(bytes, k)))
}

/// Encodes a payload as field elements, or fails on the first chunk that is
/// not below the field's order.
pub fn bytes_2_blascalar(inputs: Vec<u8>) -> (encoded: Result<Vec<FieldElement>, MerkleError>)
    ensures
        encoded is Ok <==> encodable(inputs@),
        encoded matches Ok(elements) ==> element_values(elements@) == encoding(inputs@),
        encoded matches Err(e) ==> e == MerkleError::InvalidEncoding,
{
    let len = inputs.len();
    let count: usize = if len % 32 == 0 {
        len / 32
    } else {
        len / 32 + 1
    };
    let mut elements: Vec<FieldElement> = Vec::new();
    let mut k: usize = 0;
    while k < count
        invariant
            len == inputs@.len(),
            count == chunk_count(len as nat),
            k <= count,
            elements@.len() == k,
            forall|c: int|
                0 <= c < k ==> le_value(#[trigger] padded_chunk(inputs@, c)) < modulus(),
            forall|c: int|
                0 <= c < k ==> (#[trigger] elements@[c])@ == le_value(padded_chunk(inputs@, c)),
        decreases count - k,
    {
        let start: usize = 32 * k;
        let mut chunk = [0u8; 32];
        let mut j: usize = 0;
        while j < 32 && j < len - start
            invariant
                len == inputs@.len(),
                start == 32 * k,
                start < len,
                j <= 32,
                j <= len - start,
                forall|i: int|
                    0 <= i < 32 ==> chunk@[i] == if i < j {
                        inputs@[start + i]
                    } else {
                        0u8
                    },
            decreases 32 - j,
        {
            chunk[j] = inputs[start + j];
            j += 1;
        }
        assert(chunk@ =~= padded_chunk(inputs@, k as int));
        match FieldElement::from_bytes(&chunk) {
            Some(element) => {
                elements.push(element);
            },
            None => {
                return Err(MerkleError::InvalidEncoding);
            },
        }
        k += 1;
    }
    assert(element_values(elements@) =~= encoding(inputs@));
    Ok(elements)
}

} // verus!
