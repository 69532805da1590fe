use spiderdb::index::{similarity_from_distance, VectorIndex};

#[test]
fn similarity_from_distance_bits() {
    assert_eq!(similarity_from_distance(0.0f32.to_bits()), 1_000_000);
    assert_eq!(similarity_from_distance(0.25f32.to_bits()), 750_000);
    assert_eq!(similarity_from_distance(0.5f32.to_bits()), 500_000);
    assert_eq!(similarity_from_distance(1.0f32.to_bits()), 0);
    assert_eq!(similarity_from_distance(1.5f32.to_bits()), -500_000);
    assert_eq!(similarity_from_distance(2.0f32.to_bits()), -1_000_000);
    // 0.1 as a 32-bit number is a little above a tenth
    assert_eq!(similarity_from_distance(0.1f32.to_bits()), 900_000);
    // 0.3 as a 32-bit number is 0.300000011920..., which rounds down to 300000
    assert_eq!(similarity_from_distance(0.3f32.to_bits()), 700_000);
    assert_eq!(similarity_from_distance(0.006116271f32.to_bits()), 993_884);
}

#[test]
fn similarity_from_distance_out_of_range() {
    assert_eq!(similarity_from_distance((-0.5f32).to_bits()), 1_000_000);
    assert_eq!(similarity_from_distance(3.0f32.to_bits()), -1_000_000);
    assert_eq!(similarity_from_distance(f32::INFINITY.to_bits()), -1_000_000);
    assert_eq!(similarity_from_distance(f32::NAN.to_bits()), -1_000_000);
    assert_eq!(similarity_from_distance(f32::MIN_POSITIVE.to_bits()), 1_000_000);
    assert_eq!(similarity_from_distance(1u32), 1_000_000);
    assert_eq!(similarity_from_distance(1.0e-7f32.to_bits()), 1_000_000);
}

#[test]
fn an_empty_index_answers_nothing() {
    let index = VectorIndex::new(None, None, None);
    assert_eq!(index.len(), 0);
    assert!(index.search(&[1000, 0], 3, None).is_empty());
}

#[test]
fn the_index_finds_the_nearest_vectors() {
    let mut index = VectorIndex::new(Some(16), Some(100), Some(200));
    index.add(10, &[1000, 0]);
    index.add(11, &[0, 1000]);
    index.add(12, &[900, 100]);
    assert_eq!(index.len(), 3);
    let got = index.search(&[1000, 0], 2, Some(64));
    assert_eq!(got.len(), 2);
    assert_eq!(got[0], (10, 1_000_000));
    assert_eq!(got[1].0, 12);
    assert!((got[1].1 - 993_883).abs() <= 2);
    let all = index.search(&[0, 1000], 10, None);
    assert_eq!(all.len(), 3);
    assert_eq!(all[0].0, 11);
    for (id, similarity) in &all {
        assert!(*id >= 10 && *id <= 12);
        assert!(*similarity >= -1_000_000 && *similarity <= 1_000_000);
    }
}

#[test]
fn the_index_keeps_to_one_dimension() {
    let mut index = VectorIndex::new(None, None, None);
    index.add(1, &[1, 2, 3]);
    index.add(2, &[1, 2]);
    index.add(3, &[1, 2, 3, 4]);
    assert_eq!(index.len(), 1);
    index.add(4, &[3, 2, 1]);
    assert_eq!(index.len(), 2);
    assert!(index.search(&[1, 2], 5, None).is_empty());
    assert_eq!(index.search(&[1, 2, 3], 1, None).len(), 1);
    assert!(index.search(&[1, 2, 3], 0, None).is_empty());
}

#[test]
fn the_index_takes_large_settings() {
    let mut index = VectorIndex::new(Some(256), Some(usize::MAX), Some(usize::MAX));
    index.add(0, &[5, 5]);
    index.add(1, &[5, -5]);
    let got = index.search(&[5, 4], usize::MAX, Some(usize::MAX));
    assert_eq!(got.len(), 2);
    assert_eq!(got[0].0, 0);
}

#[test]
fn answers_turn_distances_into_similarities() {
    let found: Vec<(usize, u32)> = vec![(7, 0.25f32.to_bits()), (3, 0.0f32.to_bits()), (9, 2.0f32.to_bits())];
    assert_eq!(
        spiderdb::index::answers(&found),
        vec![(7, 750_000), (3, 1_000_000), (9, -1_000_000)]
    );
}

#[test]
fn a_search_of_an_index_with_points_finds_a_point() {
    let mut index = VectorIndex::new(Some(4), Some(10), Some(8));
    for i in 0..300u64 {
        let x = (i * 37 % 101) as i16 - 50;
        let y = (i * 53 % 89) as i16 - 44;
        index.add(i, &[x, y, 7]);
        let one = index.search(&[-3, 9, 1], 1, Some(1));
        assert_eq!(one.len(), 1);
        assert!(one[0].0 <= i);
        let some = index.search(&[-3, 9, 1], 5, None);
        assert!(!some.is_empty() && some.len() <= 5);
    }
    assert_eq!(index.len(), 300);
    assert!(index.search(&[-3, 9, 1], 2_000_000, None).len() <= 300);
}

#[test]
fn the_index_answers_most_similar_first() {
    let mut index = VectorIndex::new(Some(8), Some(100), Some(40));
    for i in 0..120u64 {
        let x = (i * 29 % 97) as i16 - 48;
        let y = (i * 61 % 83) as i16 - 41;
        index.add(i, &[x, y, 3]);
    }
    let got = index.search(&[7, -2, 3], 25, Some(50));
    assert!(!got.is_empty() && got.len() <= 25);
    for w in got.windows(2) {
        assert!(w[0].1 >= w[1].1);
    }
}

#[test]
fn the_index_works_without_connections() {
    for m in 0..3usize {
        let mut index = VectorIndex::new(Some(m), Some(0), Some(0));
        for i in 0..40u64 {
            index.add(i, &[(i as i16) - 20, 5]);
            let got = index.search(&[3, 5], 4, Some(0));
            assert!(!got.is_empty() && got.len() <= 4);
        }
        assert_eq!(index.len(), 40);
    }
}

#[test]
fn the_same_index_gives_the_same_answer() {
    let mut one = VectorIndex::new(Some(6), None, Some(30));
    let mut two = VectorIndex::new(Some(6), Some(5), Some(30));
    for i in 0..150u64 {
        let v: [i16; 3] = [(i * 17 % 71) as i16 - 35, (i * 43 % 59) as i16 - 29, 1];
        one.add(i, &v);
        two.add(i, &v);
    }
    for q in 0..20i16 {
        let query: [i16; 3] = [q * 3 - 30, 11 - q, 2];
        assert_eq!(one.search(&query, 7, Some(12)), two.search(&query, 7, Some(12)));
        assert_eq!(one.search(&query, 7, Some(12)), one.search(&query, 7, Some(12)));
    }
}
