use wave_collapse::choice::{candidate_total, pick_weighted_index};
use wave_collapse::entropy::{log2_fixed, shannon_entropy};
use wave_collapse::{GenerationError, Direction, Pattern};
use bit_set::BitSet;

#[test]
fn fixed_point_logarithm() {
    assert_eq!(log2_fixed(1), 0);
    assert_eq!(log2_fixed(2), 65536);
    assert_eq!(log2_fixed(3), 103872);
    assert_eq!(log2_fixed(4), 131072);
    assert_eq!(log2_fixed(5), 152169);
    assert_eq!(log2_fixed(10), 217705);
    assert_eq!(log2_fixed(1000), 653117);
    assert_eq!(log2_fixed(1 << 40), 40 * 65536);
}

fn set_of(v: &[usize]) -> BitSet {
    let mut s = BitSet::new();
    for i in v {
        s.insert(*i);
    }
    s
}

#[test]
fn entropy_of_possibility_sets() {
    let even = vec![Pattern::new([0; 4], 1), Pattern::new([1; 4], 1)];
    assert_eq!(shannon_entropy(&even, 2, &set_of(&[0, 1])), 131072);
    let skewed = vec![Pattern::new([0; 4], 1), Pattern::new([1; 4], 3)];
    assert_eq!(shannon_entropy(&skewed, 4, &set_of(&[0, 1])), 212672);
    assert_eq!(shannon_entropy(&skewed, 4, &set_of(&[0])), 131072);
    assert_eq!(shannon_entropy(&skewed, 4, &set_of(&[])), 0);
    let three = vec![Pattern::new([0; 4], 2), Pattern::new([1; 4], 1), Pattern::new([2; 4], 1)];
    assert_eq!(shannon_entropy(&three, 4, &set_of(&[0, 1, 2])), 393216);
}

#[test]
fn weighted_pick_follows_running_weights() {
    let ps = vec![Pattern::new([0; 4], 2), Pattern::new([1; 4], 3), Pattern::new([2; 4], 1)];
    let cands = vec![0usize, 1, 2];
    assert_eq!(candidate_total(&ps, &cands), 6);
    let picks: Vec<usize> = (0..6u128).map(|s| pick_weighted_index(&ps, &cands, s)).collect();
    assert_eq!(picks, vec![0, 0, 1, 1, 1, 2]);
    let only = vec![2usize, 1];
    assert_eq!(candidate_total(&ps, &only), 4);
    assert_eq!(pick_weighted_index(&ps, &only, 0), 0);
    assert_eq!(pick_weighted_index(&ps, &only, 1), 1);
}

#[test]
fn error_messages() {
    assert!(GenerationError::MalformedTrainingData.message().contains("generation failed"));
    let e = GenerationError::Contradiction { x: 1, y: 2, direction: Direction::Up };
    assert!(e.message().contains("generation failed"));
    assert_ne!(e, GenerationError::MalformedTrainingData);
}
