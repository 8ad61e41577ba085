//! Reading the embedding matrix out of a safetensors image.
//!
//! The image is parsed by the `safetensors` crate; the first tensor it lists
//! must have at least two dimensions, and its bytes are read as the
//! `shape[0] × shape[1]` row-major matrix of little-endian 32-bit words.
//!
//! The parser adds the declared data length to the header length without an
//! overflow check, and so panics on a header whose tensors end near
//! `usize::MAX`; such headers are refused here before the parser sees them.
use crate::bytes::{buffer_to_words, le_word, BufferError, WORD_BYTES};
use safetensors::tensor::Metadata;
use safetensors::{SafeTensorError, SafeTensors};
use vstd::multiset::Multiset;
use vstd::prelude::*;

verus! {

#[verifier::external_type_specification]
#[verifier::external_body]
pub struct ExSafeTensorError(SafeTensorError);

/// One tensor of a safetensors image: its shape and its raw bytes.
pub struct RawTensor {
    pub shape: Vec<usize>,
    pub data: Vec<u8>,
}

/// Why no matrix could be read from a safetensors image.
#[derive(Debug)]
pub enum TensorError {
    /// The image is not a valid safetensors file.
    Parse(SafeTensorError),
    /// The image holds no tensor.
    NoTensor,
    /// The first tensor has fewer than two dimensions.
    TooFewDimensions { dims: usize },
    /// `shape[0] * shape[1] * 4` does not fit in a `usize`.
    SizeOverflow,
    /// The tensor's bytes do not hold exactly `shape[0] * shape[1]` words.
    SizeMismatch { expected: usize, actual: usize },
    /// The header declares tensor data so large that its end offset does
    /// not fit in a `usize`; the parser's own offset arithmetic would overflow.
    HeaderOverflow,
}

/// Bytes of the little-endian header length at the start of an image.
pub const HEADER_LEN_BYTES: usize = 8;

/// Largest header length the parser accepts.
pub const MAX_HEADER_SIZE: u64 = 100_000_000;

/// The bytes form a safetensors image that `SafeTensors::deserialize`
/// accepts.
pub uninterp spec fn safetensors_parses(image: Seq<u8>) -> bool;

/// The tensors that `SafeTensors::tensors` lists for an image, each as its
/// shape and its bytes, without their order.
pub uninterp spec fn safetensors_entries(image: Seq<u8>) -> Multiset<(Seq<usize>, Seq<u8>)>;

/// The data length (end offset of the last tensor) that a header declares,
/// when the header parses as safetensors metadata.
pub uninterp spec fn declared_data_len(header: Seq<u8>) -> Option<usize>;

/// Value of the little-endian 8-byte header length at the start of `b`.
pub open spec fn header_size(b: Seq<u8>) -> int {
    b[0] + 0x100 * b[1] + 0x1_0000 * b[2] + 0x100_0000 * b[3] + 0x1_0000_0000 * b[4]
        + 0x100_0000_0000 * b[5] + 0x1_0000_0000_0000 * b[6] + 0x100_0000_0000_0000 * b[7]
}

/// The image has a readable header whose declared data would end past
/// `usize::MAX`: the header length is in range and in the image, the header
/// parses, and data length plus header plus its 8-byte length overflows.
pub open spec fn header_overflows(image: Seq<u8>) -> bool {
    &&& image.len() >= HEADER_LEN_BYTES
    &&& header_size(image) <= MAX_HEADER_SIZE
    &&& HEADER_LEN_BYTES + header_size(image) <= image.len()
    &&& declared_data_len(image.subrange(8, 8 + header_size(image))) matches Some(d)
    &&& d + HEADER_LEN_BYTES + header_size(image) > usize::MAX
}

/// An image is refused as overflowing only when it has a header that parses
/// and whose declared data length plus the header plus the 8-byte header
/// length exceeds `usize::MAX`. An image whose header parses with a data end
/// that fits, or whose header does not parse, or that is too short to hold a
/// header, is never refused so.
pub proof fn lemma_header_overflow_law(image: Seq<u8>)
    ensures
        header_overflows(image) ==> image.len() >= 8 && 8 + header_size(image) <= image.len()
            && exists|d: usize|
            declared_data_len(image.subrange(8, 8 + header_size(image))) == Some(d) && d + 8
                + header_size(image) > usize::MAX,
        image.len() < 8 ==> !header_overflows(image),
        image.len() >= 8 && 8 + header_size(image) <= image.len() && (forall|d: usize|
            declared_data_len(image.subrange(8, 8 + header_size(image))) == Some(d) ==> d + 8
                + header_size(image) <= usize::MAX) ==> !header_overflows(image),
{
}

/// A tensor as its shape and bytes.
pub open spec fn entry_of(t: RawTensor) -> (Seq<usize>, Seq<u8>) {
    (t.shape@, t.data@)
}

/// `SafeTensors::deserialize` followed by `SafeTensors::tensors`, each tensor
/// copied out as its shape and bytes.
///
/// The result is `Ok` exactly when the parser accepts the image, and holds
/// exactly the tensors the parser lists; their order follows the parser's
/// hash map and is left unsaid. The source slices every tensor's bytes out of
/// the data section, which follows the 8-byte header length and the header,
/// so each tensor's bytes are a contiguous part of `image` after its first
/// 8 bytes. The parser panics on a header whose data end overflows a `usize`,
/// which `requires` leaves out.
#[verifier::external_body]
fn parse_safetensors(image: &[u8]) -> (r: Result<Vec<RawTensor>, SafeTensorError>)
    requires
        !header_overflows(image@),
    ensures
        (r is Ok) == safetensors_parses(image@),
        r matches Ok(ts) ==> ts@.map_values(|t: RawTensor| entry_of(t)).to_multiset()
            == safetensors_entries(image@),
        r matches Ok(ts) ==> forall|k: int|
            0 <= k < ts@.len() ==> exists|a: int, b: int|
                #![trigger image@.subrange(a, b)]
                8 <= a <= b <= image@.len() && (#[trigger] ts@[k]).data@ == image@.subrange(a, b),
{
    let parsed = SafeTensors::deserialize(image)?;
    Ok(parsed
        .tensors()
        .into_iter()
        .map(|(_, t)| RawTensor { shape: t.shape().to_vec(), data: t.data().to_vec() })
        .collect())
}

/// The data length a safetensors header declares: the header read as UTF-8
/// and parsed as `safetensors::tensor::Metadata` (the parse that
/// `SafeTensors::deserialize` makes of it), then `Metadata::data_len`;
/// `None` when it does not parse.
#[verifier::external_body]
fn header_data_len(header: &[u8]) -> (r: Option<usize>)
    ensures
        r == declared_data_len(header@),
{
    let text = core::str::from_utf8(header).ok()?;
    serde_json::from_str::<Metadata>(text).ok().map(|m| m.data_len())
}

/// The little-endian header length at the start of an image of at least 8
/// bytes.
fn read_header_size(image: &[u8]) -> (n: u64)
    requires
        image@.len() >= 8,
    ensures
        n == header_size(image@),
{
    image[0] as u64 + 0x100 * (image[1] as u64) + 0x1_0000 * (image[2] as u64) + 0x100_0000 * (
    image[3] as u64) + 0x1_0000_0000 * (image[4] as u64) + 0x100_0000_0000 * (image[5] as u64)
        + 0x1_0000_0000_0000 * (image[6] as u64) + 0x100_0000_0000_0000 * (image[7] as u64)
}

/// Whether the image's header declares data that would end past
/// `usize::MAX`.
pub fn check_header_overflow(image: &[u8]) -> (r: bool)
    ensures
        r == header_overflows(image@),
{
    let len = image.len();
    if len < HEADER_LEN_BYTES {
        return false;
    }
    let n = read_header_size(image);
    if n > MAX_HEADER_SIZE {
        return false;
    }
    let n = n as usize;
    if n > len - HEADER_LEN_BYTES {
        return false;
    }
    let stop = HEADER_LEN_BYTES + n;
    let header = &image[HEADER_LEN_BYTES..stop];
    match header_data_len(header) {
        Some(d) => d > usize::MAX - stop,
        None => false,
    }
}

/// Why the bytes of a tensor with this shape cannot be read as its matrix;
/// `None` when they can.
pub open spec fn matrix_error(shape: Seq<usize>, data_len: int) -> Option<TensorError> {
    if shape.len() < 2 {
        Some(TensorError::TooFewDimensions { dims: shape.len() as usize })
    } else if shape[0] * shape[1] * WORD_BYTES > usize::MAX {
        Some(TensorError::SizeOverflow)
    } else if data_len != shape[0] * shape[1] * WORD_BYTES {
        Some(
            TensorError::SizeMismatch {
                expected: (shape[0] * shape[1] * WORD_BYTES) as usize,
                actual: data_len as usize,
            },
        )
    } else {
        None
    }
}

/// `words` are the little-endian 32-bit words of `data`, all of them.
pub open spec fn decodes(data: Seq<u8>, words: Seq<u32>) -> bool {
    &&& data.len() == words.len() * WORD_BYTES
    &&& forall|k: int| 0 <= k < words.len() ==> #[trigger] words[k] == le_word(data, k)
}

/// The matrix that the first tensor's bytes hold: its shape and its entries
/// as little-endian words, row-major, `shape[0] * shape[1]` of them.
pub open spec fn first_tensor_spec(
    tensors: Seq<RawTensor>,
    shape: Seq<usize>,
    words: Seq<u32>,
) -> bool {
    &&& tensors.len() > 0
    &&& shape == tensors[0].shape@
    &&& shape.len() >= 2
    &&& tensors[0].data@.len() == shape[0] * shape[1] * WORD_BYTES
    &&& words.len() == shape[0] * shape[1]
    &&& forall|k: int| 0 <= k < words.len() ==> #[trigger] words[k] == le_word(tensors[0].data@, k)
}

/// Reads the first of `tensors` as a row-major matrix of 32-bit words: its
/// shape (at least two dimensions) and its `shape[0] * shape[1]` entries.
pub fn first_tensor_words(tensors: &Vec<RawTensor>) -> (r: Result<(Vec<usize>, Vec<u32>), TensorError>)
    ensures
        tensors@.len() == 0 ==> r == Err::<(Vec<usize>, Vec<u32>), TensorError>(TensorError::NoTensor),
        tensors@.len() > 0 ==> match matrix_error(tensors@[0].shape@, tensors@[0].data@.len() as int) {
            Some(e) => r == Err::<(Vec<usize>, Vec<u32>), TensorError>(e),
            None => r is Ok,
        },
        r matches Ok((shape, words)) ==> first_tensor_spec(tensors@, shape@, words@),
{
    if tensors.len() == 0 {
        return Err(TensorError::NoTensor);
    }
    let tensor = &tensors[0];
    if tensor.shape.len() < 2 {
        return Err(TensorError::TooFewDimensions { dims: tensor.shape.len() });
    }
    let rows = tensor.shape[0];
    let cols = tensor.shape[1];
    let count = match rows.checked_mul(cols) {
        Some(n) => n,
        None => {
            proof {
                assert(rows * cols * WORD_BYTES > usize::MAX) by (nonlinear_arith)
                    requires
                        rows * cols > usize::MAX,
                        WORD_BYTES == 4,
                ;
            }
            return Err(TensorError::SizeOverflow);
        },
    };
    if count.checked_mul(WORD_BYTES).is_none() {
        return Err(TensorError::SizeOverflow);
    }
    match buffer_to_words(tensor.data.as_slice(), rows, cols) {
        Ok(words) => {
            let shape = tensor.shape.clone();
            proof {
                assert(shape@ =~= tensor.shape@);
            }
            Ok((shape, words))
        },
        Err(BufferError::SizeMismatch { expected, actual }) => {
            Err(TensorError::SizeMismatch { expected, actual })
        },
    }
}

/// Reads the embedding matrix of a safetensors image: the shape of the first
/// tensor the parser lists and that tensor's entries as little-endian words.
///
/// A header whose data would end past `usize::MAX` is refused before the
/// parse; an image the parser refuses gives its error. The result is always
/// the matrix of one of the image's tensors, and it is fixed when the image
/// holds a single tensor. Which tensor comes first when there are several is
/// the parser's (its hash map's) choice.
pub fn tensor_words(image: &[u8]) -> (r: Result<(Vec<usize>, Vec<u32>), TensorError>)
    ensures
        (r matches Err(TensorError::HeaderOverflow)) == header_overflows(image@),
        (r matches Err(TensorError::Parse(_))) == (!header_overflows(image@) && !safetensors_parses(
            image@,
        )),
        r matches Ok((shape, words)) ==> exists|e: (Seq<usize>, Seq<u8>)|
            #[trigger] safetensors_entries(image@).count(e) > 0 && e.0 == shape@ && matrix_error(
                e.0,
                e.1.len() as int,
            ) is None && decodes(e.1, words@),
        r matches Err(TensorError::NoTensor) ==> safetensors_entries(image@).len() == 0,
        match r {
            Err(e) => (e is TooFewDimensions || e is SizeOverflow || e is SizeMismatch) ==> exists|
                en: (Seq<usize>, Seq<u8>),
            |
                #[trigger] safetensors_entries(image@).count(en) > 0 && matrix_error(
                    en.0,
                    en.1.len() as int,
                ) == Some(e),
            Ok(_) => true,
        },
        !header_overflows(image@) && safetensors_parses(image@) && safetensors_entries(image@).len()
            == 0 ==> r == Err::<(Vec<usize>, Vec<u32>), TensorError>(TensorError::NoTensor),
        !header_overflows(image@) && safetensors_parses(image@) && safetensors_entries(image@).len()
            == 1 ==> forall|e: (Seq<usize>, Seq<u8>)|
            #[trigger] safetensors_entries(image@).count(e) > 0 ==> match matrix_error(
                e.0,
                e.1.len() as int,
            ) {
                Some(err) => r == Err::<(Vec<usize>, Vec<u32>), TensorError>(err),
                None => r matches Ok((shape, words)) && shape@ == e.0 && decodes(e.1, words@),
            },
        r matches Ok((shape, words)) ==> {
            &&& shape@.len() >= 2
            &&& words@.len() == shape@[0] * shape@[1]
            &&& exists|a: int|
                #![trigger image@.subrange(a, a + words@.len() * 4)]
                8 <= a && a + words@.len() * 4 <= image@.len() && forall|k: int|
                    0 <= k < words@.len() ==> #[trigger] words@[k] == le_word(
                        image@.subrange(a, a + words@.len() * 4),
                        k,
                    )
        },
{
    if check_header_overflow(image) {
        return Err(TensorError::HeaderOverflow);
    }
    match parse_safetensors(image) {
        Err(e) => Err(TensorError::Parse(e)),
        Ok(tensors) => {
            let r = first_tensor_words(&tensors);
            proof {
                broadcast use vstd::seq_lib::group_to_multiset_ensures;

                let es = tensors@.map_values(|t: RawTensor| entry_of(t));
                assert(es.len() == tensors@.len());
                if tensors@.len() > 0 {
                    assert(es[0] == entry_of(tensors@[0]));
                    assert(es.contains(es[0]));
                    assert(safetensors_entries(image@).count(es[0]) > 0);
                }
                if let Ok((shape, words)) = &r {
                    let data = tensors@[0].data@;
                    let (a, b) = choose|a: int, b: int|
                        8 <= a <= b <= image@.len() && data == image@.subrange(a, b);
                    assert(data.len() == words@.len() * 4);
                    assert(image@.subrange(a, a + words@.len() * 4) == data);
                }
                if safetensors_entries(image@).len() == 1 {
                    assert(tensors@.len() == 1);
                    assert forall|e: (Seq<usize>, Seq<u8>)| #[trigger]
                        safetensors_entries(image@).count(e) > 0 implies e == es[0] by {
                        assert(es.contains(e));
                        let k = choose|k: int| 0 <= k < es.len() && es[k] == e;
                        assert(k == 0);
                    }
                }
            }
            r
        },
    }
}

} // verus!
