use spiderdb::search::{cosine_similarity, top_k, SCALE};

#[test]
fn cosine_of_a_vector_with_itself_is_one() {
    assert_eq!(cosine_similarity(&[3, -4, 12], &[3, -4, 12]), SCALE);
    assert_eq!(cosine_similarity(&[1], &[1]), 1_000_000);
    assert_eq!(cosine_similarity(&[32767, -32768], &[32767, -32768]), SCALE);
}

#[test]
fn cosine_of_a_vector_with_its_negation_is_minus_one() {
    assert_eq!(cosine_similarity(&[3, -4, 12], &[-3, 4, -12]), -SCALE);
}

#[test]
fn cosine_is_symmetric() {
    let a: [i16; 3] = [120, -7, 33];
    let b: [i16; 3] = [-5, 80, 61];
    assert_eq!(cosine_similarity(&a, &b), cosine_similarity(&b, &a));
}

#[test]
fn cosine_with_a_zero_vector_is_zero() {
    assert_eq!(cosine_similarity(&[0, 0], &[5, 7]), 0);
    assert_eq!(cosine_similarity(&[5, 7], &[0, 0]), 0);
    assert_eq!(cosine_similarity(&[], &[5, 7]), 0);
}

#[test]
fn cosine_exact_values() {
    // orthogonal
    assert_eq!(cosine_similarity(&[1000, 0], &[0, 1000]), 0);
    // 900 / sqrt(820000) = 0.993883734...
    assert_eq!(cosine_similarity(&[1000, 0], &[900, 100]), 993_883);
    // 100 / sqrt(820000) = 0.110431526...
    assert_eq!(cosine_similarity(&[0, 1000], &[900, 100]), 110_431);
    // 3*4 + 4*3 = 24 over 5 * 5
    assert_eq!(cosine_similarity(&[3, 4], &[4, 3]), 960_000);
    // rounded towards zero on both sides
    assert_eq!(cosine_similarity(&[1000, 0], &[-900, 100]), -993_883);
    // the shorter vector bounds the dot product, not the norms
    assert_eq!(cosine_similarity(&[3, 4], &[3]), 600_000);
}

#[test]
fn top_k_orders_by_similarity_then_position() {
    let corpus: Vec<Vec<i16>> = vec![vec![0, 1000], vec![1000, 0], vec![900, 100], vec![2000, 0]];
    let got = top_k(&[1000, 0], &corpus, 3);
    assert_eq!(got, vec![(1, 1_000_000), (3, 1_000_000), (2, 993_883)]);
    let all = top_k(&[1000, 0], &corpus, 10);
    assert_eq!(all, vec![(1, 1_000_000), (3, 1_000_000), (2, 993_883), (0, 0)]);
    let none = top_k(&[1000, 0], &corpus, 0);
    assert!(none.is_empty());
}
