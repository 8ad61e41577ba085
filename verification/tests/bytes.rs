use lexrank_ndarray::bytes::{buffer_to_words, BufferError};

#[test]
fn buffer_to_words_reads_little_endian_entries() {
    let values = [1.0f32, -2.5, 0.0, 3.25, f32::MAX, -0.0];
    let buffer: Vec<u8> = values.iter().flat_map(|v| v.to_le_bytes()).collect();
    let words = buffer_to_words(&buffer, 2, 3).unwrap();
    let back: Vec<f32> = words.iter().map(|w| f32::from_bits(*w)).collect();
    assert_eq!(words.len(), 6);
    for (a, b) in values.iter().zip(back.iter()) {
        assert_eq!(a.to_bits(), b.to_bits());
    }
}

#[test]
fn buffer_to_words_exact_word_value() {
    let buffer = [0x78u8, 0x56, 0x34, 0x12];
    assert_eq!(buffer_to_words(&buffer, 1, 1), Ok(vec![0x1234_5678]));
}

#[test]
fn buffer_to_words_refuses_wrong_size() {
    let buffer = [0u8; 10];
    assert_eq!(
        buffer_to_words(&buffer, 1, 2),
        Err(BufferError::SizeMismatch { expected: 8, actual: 10 })
    );
    assert_eq!(buffer_to_words(&[], 0, 5), Ok(vec![]));
}
