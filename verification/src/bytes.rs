//! Decoding of raw tensor buffers: a row-major `rows × cols` matrix of
//! single-precision values stored as little-endian 4-byte words.
use vstd::prelude::*;

verus! {

/// Bytes per stored value.
pub const WORD_BYTES: usize = 4;

/// Why a buffer could not be read as a matrix.
#[derive(Debug, Clone, Copy, PartialEq, Eq)]
pub enum BufferError {
    /// The buffer does not hold exactly `rows * cols` words.
    SizeMismatch { expected: usize, actual: usize },
}

/// Value of the little-endian 4-byte word `k` of `b` (`u32::from_le_bytes`
/// on bytes `4k .. 4k + 4`).
pub open spec fn le_word(b: Seq<u8>, k: int) -> int {
    b[4 * k] + 256 * b[4 * k + 1] + 65536 * b[4 * k + 2] + 16777216 * b[4 * k + 3]
}

/// Reads `buffer` as `rows * cols` little-endian 32-bit words, one per
/// matrix entry in row-major order; fails unless the buffer holds exactly
/// `rows * cols * 4` bytes. The words are the bit patterns of the entries.
pub fn buffer_to_words(buffer: &[u8], rows: usize, cols: usize) -> (r: Result<Vec<u32>, BufferError>)
    requires
        rows * cols * WORD_BYTES <= usize::MAX,
    ensures
        match r {
            Ok(words) => {
                &&& buffer@.len() == rows * cols * WORD_BYTES
                &&& words@.len() == rows * cols
                &&& forall|k: int| 0 <= k < words@.len() ==> #[trigger] words@[k] == le_word(buffer@, k)
            },
            Err(e) => {
                &&& buffer@.len() != rows * cols * WORD_BYTES
                &&& e == BufferError::SizeMismatch {
                    expected: (rows * cols * WORD_BYTES) as usize,
                    actual: buffer@.len() as usize,
                }
            },
        },
{
    assert(rows * cols <= rows * cols * WORD_BYTES) by (nonlinear_arith)
        requires
            rows * cols * WORD_BYTES <= usize::MAX,
            WORD_BYTES == 4,
    ;
    let count = rows * cols;
    let expected = count * WORD_BYTES;
    if buffer.len() != expected {
        return Err(BufferError::SizeMismatch { expected, actual: buffer.len() });
    }
    let mut words: Vec<u32> = Vec::new();
    let mut k: usize = 0;
    while k < count
        invariant
            count == rows * cols,
            expected == count * 4,
            buffer@.len() == count * 4,
            k <= count,
            words@.len() == k,
            forall|j: int| 0 <= j < k ==> #[trigger] words@[j] == le_word(buffer@, j),
        decreases count - k,
    {
        let at = k * WORD_BYTES;
        let w = buffer[at] as u32 + (buffer[at + 1] as u32) * 256 + (buffer[at + 2] as u32) * 65536
            + (buffer[at + 3] as u32) * 16777216;
        words.push(w);
        k += 1;
    }
    Ok(words)
}

} // verus!
