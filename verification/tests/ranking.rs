use hp_data_structures::ranking::top_k;

#[test]
fn top_k_lists_the_highest_first() {
    let ranks = vec![10, 50, 30, 20, 40];
    assert_eq!(top_k(&ranks, 3), vec![1, 4, 2]);
    assert_eq!(top_k(&ranks, 1), vec![1]);
    assert_eq!(top_k(&ranks, 5), vec![1, 4, 2, 3, 0]);
}

#[test]
fn top_k_of_ascending_scores() {
    // The highest values are at the end of the input.
    let ranks = vec![1, 2, 3, 4, 5];
    let result = top_k(&ranks, 3);
    assert_eq!(result.len(), 3);
    assert!(result.contains(&4));
    assert!(result.contains(&3));
    assert_eq!(result, vec![4, 3, 2]);
}

#[test]
fn top_k_keeps_equal_ranks_in_order() {
    let ranks = vec![7, 9, 7, 9, 7];
    assert_eq!(top_k(&ranks, 5), vec![1, 3, 0, 2, 4]);
    assert_eq!(top_k(&ranks, 3), vec![1, 3, 0]);
    assert_eq!(top_k(&vec![4, 4, 4, 4], 2), vec![0, 1]);
}

#[test]
fn top_k_with_more_asked_than_there_is() {
    assert_eq!(top_k(&vec![3, 1, 2], 10), vec![0, 2, 1]);
    assert_eq!(top_k(&Vec::new(), 4), Vec::<usize>::new());
}

#[test]
fn top_k_of_nothing_asked() {
    assert_eq!(top_k(&vec![3, 1, 2], 0), Vec::<usize>::new());
}

#[test]
fn top_k_agrees_with_a_stable_sort() {
    let mut ranks: Vec<u32> = Vec::new();
    let mut x: u32 = 12345;
    for _ in 0..300 {
        x = x.wrapping_mul(1_103_515_245).wrapping_add(12345);
        ranks.push((x >> 16) % 50);
    }
    let mut indexed: Vec<(usize, u32)> = ranks.iter().copied().enumerate().collect();
    indexed.sort_by(|a, b| b.1.cmp(&a.1));
    for k in [0, 1, 7, 150, 300, 400] {
        let expected: Vec<usize> = indexed.iter().take(k).map(|(i, _)| *i).collect();
        assert_eq!(top_k(&ranks, k), expected);
    }
}

#[test]
fn top_k_of_weights_through_their_ranks() {
    fn rank_of(weight: f32) -> u32 {
        let bits = (weight + 0.0).to_bits();
        if bits & 0x8000_0000 != 0 {
            !bits
        } else {
            bits | 0x8000_0000
        }
    }
    let weights: Vec<f32> = vec![0.25, -1.5, 0.0, 3.0, -0.0, 0.25];
    let ranks: Vec<u32> = weights.iter().map(|w| rank_of(*w)).collect();
    assert_eq!(top_k(&ranks, 6), vec![3, 0, 5, 2, 4, 1]);
}
