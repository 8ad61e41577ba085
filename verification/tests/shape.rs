use lexrank_ndarray::shape::{
    check_embedding_pair, similarity_kernel, two_dims, ShapeError, SimilarityKernel, SYRK_MIN_ROWS,
};
use lexrank_ndarray::split_data::SplitData;

#[test]
fn embedding_pair_must_be_non_empty_and_same_length() {
    assert_eq!(check_embedding_pair(384, 384), Ok(384));
    assert_eq!(check_embedding_pair(0, 3), Err(ShapeError::EmptyEmbeddings));
    assert_eq!(check_embedding_pair(3, 0), Err(ShapeError::EmptyEmbeddings));
    assert_eq!(
        check_embedding_pair(3, 4),
        Err(ShapeError::DifferentLengths { left: 3, right: 4 })
    );
}

#[test]
fn shape_must_have_two_dimensions() {
    assert_eq!(two_dims(&vec![25, 384]), Ok((25, 384)));
    assert_eq!(two_dims(&vec![25]), Err(ShapeError::NotTwoDimensional { dims: 1 }));
    assert_eq!(two_dims(&vec![1, 2, 3]), Err(ShapeError::NotTwoDimensional { dims: 3 }));
}

#[test]
fn syrk_from_threshold_rows_on() {
    assert_eq!(SYRK_MIN_ROWS, 32);
    assert_eq!(similarity_kernel(31), SimilarityKernel::PairwiseDot);
    assert_eq!(similarity_kernel(32), SimilarityKernel::Syrk);
    assert_eq!(similarity_kernel(0), SimilarityKernel::PairwiseDot);
}

#[test]
fn split_data_holds_its_sentences() {
    let split = SplitData {
        split_id: 3,
        no_tokens: 12,
        split_string: "A. B.".to_string(),
        embeddings_tensors_file: "split_3.safetensors".to_string(),
        embeddings_tensors_name: "embeddings".to_string(),
        sentences: vec!["A.".to_string(), "B.".to_string()],
    };
    let copy = split.clone();
    assert_eq!(copy.split_id, 3);
    assert_eq!(copy.sentences.len(), 2);
    assert_eq!(copy.sentences[1], "B.");
}
