use tiny_llm::tensors::{
    embed_text, last_token_logits, mask_future, product_sizes, transpose, Tensor,
};

#[test]
fn filled_is_dense() {
    let t: Tensor<f32> = Tensor::filled([2, 3, 4, 5], 0.5);
    assert_eq!(t.sizes, [2, 3, 4, 5]);
    assert_eq!(t.strides, [1, 2, 6, 24]);
    assert_eq!(t.data.len(), 120);
    assert!(t.data.iter().all(|v| *v == 0.5));
}

#[test]
fn filled_with_a_zero_extent_is_empty() {
    let t: Tensor<u8> = Tensor::filled([4, 0, 2, 3], 7);
    assert_eq!(t.strides, [1, 4, 0, 0]);
    assert!(t.data.is_empty());
}

#[test]
fn product_sizes_of_compatible_shapes() {
    assert_eq!(product_sizes([2, 2, 2, 2], [1, 2, 2, 2]), Some([1, 2, 2, 2]));
    assert_eq!(product_sizes([64, 3, 1, 1], [5, 64, 1, 1]), Some([5, 3, 1, 1]));
}

#[test]
fn product_sizes_rejects_mismatched_inner_extent() {
    assert_eq!(product_sizes([3, 2, 1, 1], [2, 2, 1, 1]), None);
}

#[test]
fn product_sizes_rejects_mismatched_batches() {
    assert_eq!(product_sizes([2, 2, 2, 1], [2, 2, 1, 1]), None);
    assert_eq!(product_sizes([2, 2, 1, 3], [2, 2, 1, 1]), None);
}

#[test]
fn embed_text_picks_rows_by_id() {
    let table: Tensor<f32> = Tensor {
        data: vec![0.0, 0.1, 1.0, 1.1, 2.0, 2.1, 3.0, 3.1],
        sizes: [2, 4, 1, 1],
        strides: [1, 2, 8, 8],
    };
    let out = embed_text(&vec![2, 0, 3, 2], &table);
    assert_eq!(out.sizes, [2, 4, 1, 1]);
    assert_eq!(out.strides, [1, 2, 8, 8]);
    assert_eq!(out.data, vec![2.0, 2.1, 0.0, 0.1, 3.0, 3.1, 2.0, 2.1]);
}

#[test]
fn embed_text_of_no_ids_is_empty() {
    let table: Tensor<f32> = Tensor::filled([3, 2, 1, 1], 1.0);
    let out = embed_text(&Vec::new(), &table);
    assert_eq!(out.sizes, [3, 0, 1, 1]);
    assert_eq!(out.strides, [1, 3, 0, 0]);
    assert!(out.data.is_empty());
}

#[test]
fn transpose_swaps_rows_and_columns() {
    // two columns, three rows
    let mut t: Tensor<i32> = Tensor { data: vec![1, 2, 3, 4, 5, 6], sizes: [2, 3, 1, 1], strides: [1, 2, 6, 6] };
    transpose(&mut t);
    assert_eq!(t.sizes, [3, 2, 1, 1]);
    assert_eq!(t.strides, [1, 3, 6, 6]);
    assert_eq!(t.data, vec![1, 3, 5, 2, 4, 6]);
}

#[test]
fn transpose_works_matrix_by_matrix() {
    let mut t: Tensor<i32> = Tensor {
        data: vec![1, 2, 3, 4, 5, 6, 7, 8],
        sizes: [2, 2, 2, 1],
        strides: [1, 2, 4, 8],
    };
    transpose(&mut t);
    assert_eq!(t.data, vec![1, 3, 2, 4, 5, 7, 6, 8]);
}

#[test]
fn transpose_twice_restores_the_tensor() {
    let original: Vec<f32> = (0..24).map(|i| i as f32).collect();
    let mut t: Tensor<f32> = Tensor { data: original.clone(), sizes: [3, 4, 2, 1], strides: [1, 3, 12, 24] };
    transpose(&mut t);
    assert_ne!(t.data, original);
    transpose(&mut t);
    assert_eq!(t.sizes, [3, 4, 2, 1]);
    assert_eq!(t.strides, [1, 3, 12, 24]);
    assert_eq!(t.data, original);
}

#[test]
fn mask_future_fills_above_the_diagonal() {
    let mut scores: Tensor<f32> = Tensor { data: vec![1.0; 9], sizes: [3, 3, 1, 1], strides: [1, 3, 9, 9] };
    mask_future(&mut scores, -f32::MAX);
    let m = -f32::MAX;
    assert_eq!(scores.data, vec![1.0, m, m, 1.0, 1.0, m, 1.0, 1.0, 1.0]);
    assert_eq!(scores.sizes, [3, 3, 1, 1]);
}

#[test]
fn mask_future_leaves_a_single_column_alone() {
    let mut scores: Tensor<i32> = Tensor { data: vec![4, 5, 6], sizes: [1, 3, 1, 1], strides: [1, 1, 3, 3] };
    mask_future(&mut scores, 0);
    assert_eq!(scores.data, vec![4, 5, 6]);
}

#[test]
fn mask_future_twice_is_masking_once() {
    let mut once: Tensor<i32> = Tensor { data: (0..8).collect(), sizes: [4, 2, 1, 1], strides: [1, 4, 8, 8] };
    mask_future(&mut once, -1);
    assert_eq!(once.data, vec![0, -1, -1, -1, 4, 5, -1, -1]);
    let mut twice: Tensor<i32> = Tensor { data: once.data.clone(), sizes: once.sizes, strides: once.strides };
    mask_future(&mut twice, -1);
    assert_eq!(twice.data, once.data);
}

#[test]
fn last_token_logits_takes_the_tail() {
    let logits: Tensor<f32> = Tensor {
        data: vec![0.1, 0.2, 0.3, 0.4, 0.5, 0.6],
        sizes: [3, 2, 1, 1],
        strides: [1, 3, 6, 6],
    };
    let out = last_token_logits(&logits, 3);
    assert_eq!(out.sizes, [3, 1, 1, 1]);
    assert_eq!(out.strides, [1, 3, 3, 3]);
    assert_eq!(out.data, vec![0.4, 0.5, 0.6]);
}

#[test]
fn last_token_logits_of_zero_length_is_empty() {
    let logits: Tensor<f32> = Tensor::filled([2, 2, 1, 1], 1.0);
    let out = last_token_logits(&logits, 0);
    assert!(out.data.is_empty());
    assert_eq!(out.sizes, [0, 1, 1, 1]);
}
