use lexrank_ndarray::layout::{chunk_bounds, chunks_of};
use lexrank_ndarray::tensor::{
    check_header_overflow, first_tensor_words, tensor_words, RawTensor, TensorError,
};
use safetensors::tensor::TensorView;
use safetensors::{serialize, Dtype};

fn image_of(values: &[f32], shape: Vec<usize>) -> Vec<u8> {
    let data: Vec<u8> = values.iter().flat_map(|v| v.to_le_bytes()).collect();
    let view = TensorView::new(Dtype::F32, shape, &data).unwrap();
    serialize(vec![("embeddings", view)], None).unwrap()
}

#[test]
fn tensor_words_reads_the_embedding_matrix() {
    let values = [0.5f32, -1.0, 2.0, 3.5, 0.0, -0.25];
    let image = image_of(&values, vec![2, 3]);
    let (shape, words) = tensor_words(&image).unwrap();
    assert_eq!(shape, vec![2, 3]);
    let back: Vec<f32> = words.into_iter().map(f32::from_bits).collect();
    assert_eq!(back, values.to_vec());
}

#[test]
fn tensor_words_refuses_a_broken_image() {
    assert!(matches!(tensor_words(&[1, 2, 3]), Err(TensorError::Parse(_))));
}

#[test]
fn tensor_words_refuses_a_vector() {
    let image = image_of(&[1.0, 2.0, 3.0], vec![3]);
    assert!(matches!(
        tensor_words(&image),
        Err(TensorError::TooFewDimensions { dims: 1 })
    ));
}

#[test]
fn first_tensor_words_errors() {
    assert!(matches!(first_tensor_words(&vec![]), Err(TensorError::NoTensor)));
    let short = RawTensor { shape: vec![2, 2], data: vec![0u8; 12] };
    assert!(matches!(
        first_tensor_words(&vec![short]),
        Err(TensorError::SizeMismatch { expected: 16, actual: 12 })
    ));
    let huge = RawTensor { shape: vec![usize::MAX, 2], data: vec![] };
    assert!(matches!(first_tensor_words(&vec![huge]), Err(TensorError::SizeOverflow)));
    let quarter = RawTensor { shape: vec![usize::MAX / 4 + 1, 1], data: vec![] };
    assert!(matches!(first_tensor_words(&vec![quarter]), Err(TensorError::SizeOverflow)));
}

#[test]
fn first_tensor_words_uses_the_first_two_dimensions() {
    let t = RawTensor { shape: vec![1, 2, 7], data: vec![1, 0, 0, 0, 0, 0, 0, 0x80] };
    let (shape, words) = first_tensor_words(&vec![t]).unwrap();
    assert_eq!(shape, vec![1, 2, 7]);
    assert_eq!(words, vec![1, 0x8000_0000]);
}

#[test]
fn chunk_bounds_match_chunks() {
    for len in 1..30usize {
        for size in 1..9usize {
            let v: Vec<usize> = (0..len).collect();
            let chunks = chunks_of(&v, size);
            for (k, chunk) in chunks.iter().enumerate() {
                let (lo, hi) = chunk_bounds(len, size, k);
                assert_eq!(&v[lo..hi], &chunk[..]);
            }
        }
    }
    assert_eq!(chunk_bounds(20, 8, 2), (16, 20));
}

fn image_with_header(header: &str, data_len: usize) -> Vec<u8> {
    let mut image = (header.len() as u64).to_le_bytes().to_vec();
    image.extend_from_slice(header.as_bytes());
    image.extend(std::iter::repeat(0u8).take(data_len));
    image
}

#[test]
fn tensor_words_refuses_a_header_whose_data_end_overflows() {
    // eight byte tensors of 2^61 - 1 elements each end at 2^64 - 8
    let n: u64 = (1u64 << 61) - 1;
    let entries: Vec<String> = (0..8u64)
        .map(|k| {
            format!(
                "\"t{}\":{{\"dtype\":\"U8\",\"shape\":[{}],\"data_offsets\":[{},{}]}}",
                k,
                n,
                k * n,
                (k + 1) * n
            )
        })
        .collect();
    let header = format!("{{{}}}", entries.join(","));
    let image = image_with_header(&header, 16);
    assert!(check_header_overflow(&image));
    assert!(matches!(tensor_words(&image), Err(TensorError::HeaderOverflow)));
}

#[test]
fn header_overflow_check_passes_ordinary_images() {
    let image = image_of(&[1.0, 2.0, 3.0, 4.0], vec![2, 2]);
    assert!(!check_header_overflow(&image));
    assert!(!check_header_overflow(&[0u8; 4]));
    assert!(!check_header_overflow(&image_with_header("not json", 0)));
}

#[test]
fn tensor_words_of_an_image_without_tensors() {
    let image = image_with_header("{}", 0);
    assert!(matches!(tensor_words(&image), Err(TensorError::NoTensor)));
}

#[test]
fn tensor_words_reports_a_mismatched_shape_as_its_error() {
    let data: Vec<u8> = vec![0u8; 8];
    let view = TensorView::new(Dtype::U8, vec![2, 4], &data).unwrap();
    let image = serialize(vec![("bytes", view)], None).unwrap();
    assert!(matches!(
        tensor_words(&image),
        Err(TensorError::SizeMismatch { expected: 32, actual: 8 })
    ));
}

#[test]
fn tensor_words_with_two_tensors_reads_one_of_them() {
    let a: Vec<u8> = [1.0f32, 2.0].iter().flat_map(|v| v.to_le_bytes()).collect();
    let b: Vec<u8> = [3.0f32, 4.0, 5.0, 6.0].iter().flat_map(|v| v.to_le_bytes()).collect();
    let va = TensorView::new(Dtype::F32, vec![1, 2], &a).unwrap();
    let vb = TensorView::new(Dtype::F32, vec![2, 2], &b).unwrap();
    let image = serialize(vec![("a", va), ("b", vb)], None).unwrap();
    let (shape, words) = tensor_words(&image).unwrap();
    let values: Vec<f32> = words.into_iter().map(f32::from_bits).collect();
    assert!(
        (shape == vec![1, 2] && values == vec![1.0, 2.0])
            || (shape == vec![2, 2] && values == vec![3.0, 4.0, 5.0, 6.0])
    );
}
