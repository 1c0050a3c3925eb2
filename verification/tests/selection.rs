use hrw::rank::ranks_before;
use hrw::{select_top, select_top_k};

fn naive_ranking(scores: &[u64]) -> Vec<usize> {
    let mut order: Vec<usize> = (0..scores.len()).collect();
    order.sort_by(|a, b| (scores[*b], *b).cmp(&(scores[*a], *a)));
    order
}

fn pseudo_random(seed: u64, n: usize, modulus: u64) -> Vec<u64> {
    let mut x = seed;
    let mut out = Vec::with_capacity(n);
    for _ in 0..n {
        x = x.wrapping_mul(6364136223846793005).wrapping_add(1442695040888963407);
        out.push((x >> 33) % modulus);
    }
    out
}

#[test]
fn select_top_of_nothing_is_none() {
    assert_eq!(select_top(&[]), None);
}

#[test]
fn select_top_of_one_score() {
    assert_eq!(select_top(&[0]), Some(0));
    assert_eq!(select_top(&[u64::MAX]), Some(0));
}

#[test]
fn select_top_takes_the_highest_score() {
    assert_eq!(select_top(&[5, 9, 1, 7]), Some(1));
    assert_eq!(select_top(&[1, 2, 3, 4]), Some(3));
    assert_eq!(select_top(&[4, 3, 2, 1]), Some(0));
}

#[test]
fn select_top_takes_the_last_of_equal_scores() {
    assert_eq!(select_top(&[9, 1, 9, 3]), Some(2));
    assert_eq!(select_top(&[7, 7, 7]), Some(2));
    assert_eq!(select_top(&[0, 0]), Some(1));
}

#[test]
fn ranks_before_orders_by_score_then_by_place() {
    let scores = [5, 9, 9, 1];
    assert!(ranks_before(&scores, 1, 0));
    assert!(!ranks_before(&scores, 0, 1));
    assert!(ranks_before(&scores, 2, 1));
    assert!(!ranks_before(&scores, 1, 2));
    assert!(!ranks_before(&scores, 3, 3));
}

#[test]
fn select_top_k_exact_order() {
    let scores = [5, 9, 9, 1, 7];
    assert_eq!(select_top_k(&scores, 1), vec![2]);
    assert_eq!(select_top_k(&scores, 2), vec![2, 1]);
    assert_eq!(select_top_k(&scores, 3), vec![2, 1, 4]);
    assert_eq!(select_top_k(&scores, 4), vec![2, 1, 4, 0]);
    assert_eq!(select_top_k(&scores, 5), vec![2, 1, 4, 0, 3]);
}

#[test]
fn select_top_k_of_zero_is_empty() {
    assert!(select_top_k(&[3, 1, 2], 0).is_empty());
}

#[test]
fn select_top_k_of_nothing_is_empty() {
    assert!(select_top_k(&[], 0).is_empty());
    assert!(select_top_k(&[], 1).is_empty());
    assert!(select_top_k(&[], usize::MAX).is_empty());
}

#[test]
fn select_top_k_clamps_to_the_number_of_scores() {
    assert_eq!(select_top_k(&[3, 1, 2], 10), vec![0, 2, 1]);
    assert_eq!(select_top_k(&[3, 1, 2], usize::MAX), vec![0, 2, 1]);
}

#[test]
fn select_top_k_of_equal_scores_is_the_reverse_of_the_places() {
    assert_eq!(select_top_k(&[4, 4, 4, 4], 4), vec![3, 2, 1, 0]);
    assert_eq!(select_top_k(&[4, 4, 4, 4], 2), vec![3, 2]);
}

#[test]
fn select_top_k_first_is_select_top() {
    for seed in 0..50u64 {
        let scores = pseudo_random(seed, 1 + (seed as usize % 17), 5);
        let top = select_top(&scores).unwrap();
        for k in 1..=scores.len() {
            assert_eq!(select_top_k(&scores, k)[0], top);
        }
    }
}

#[test]
fn select_top_k_agrees_with_a_full_sort() {
    for seed in 0..40u64 {
        let n = (seed as usize * 7) % 60;
        let modulus = if seed % 2 == 0 { 6 } else { u64::MAX };
        let scores = pseudo_random(seed + 100, n, modulus);
        let ranking = naive_ranking(&scores);
        for k in [0, 1, 2, 3, n / 2, n.saturating_sub(1), n, n + 5] {
            let want: Vec<usize> = ranking.iter().copied().take(k).collect();
            assert_eq!(select_top_k(&scores, k), want);
        }
    }
}

#[test]
fn select_top_k_on_sorted_and_reversed_scores() {
    let up: Vec<u64> = (0..200).collect();
    let down: Vec<u64> = (0..200).rev().collect();
    let want_up: Vec<usize> = (150..200).rev().collect();
    let want_down: Vec<usize> = (0..50).collect();
    assert_eq!(select_top_k(&up, 50), want_up);
    assert_eq!(select_top_k(&down, 50), want_down);
}

#[test]
fn select_top_k_prefixes_agree() {
    let scores = pseudo_random(7, 40, 9);
    let all = select_top_k(&scores, 40);
    for k in 0..40 {
        assert_eq!(select_top_k(&scores, k), all[..k].to_vec());
    }
}

#[test]
fn select_top_k_scores_never_rise() {
    let scores = pseudo_random(11, 64, 10);
    let picks = select_top_k(&scores, 30);
    assert_eq!(picks.len(), 30);
    for w in picks.windows(2) {
        assert!(scores[w[0]] > scores[w[1]] || (scores[w[0]] == scores[w[1]] && w[0] > w[1]));
    }
}

#[test]
fn growth_moves_the_top_only_to_the_new_place() {
    let scores = vec![5, 9, 1];
    let mut higher = scores.clone();
    higher.push(10);
    assert_eq!(select_top(&higher), Some(3));
    let mut equal = scores.clone();
    equal.push(9);
    assert_eq!(select_top(&equal), Some(3));
    let mut lower = scores.clone();
    lower.push(8);
    assert_eq!(select_top(&lower), Some(1));
}

#[test]
fn select_top_k_on_many_equal_scores() {
    let n = 50_000;
    let scores = vec![1u64; n];
    let want: Vec<usize> = (0..n).rev().collect();
    assert_eq!(select_top_k(&scores, n), want);
    assert_eq!(select_top_k(&scores, 10), want[..10].to_vec());
}

#[test]
fn select_top_k_on_many_scores() {
    let n = 100_000;
    let scores = pseudo_random(3, n, u64::MAX);
    let ranking = naive_ranking(&scores);
    assert_eq!(select_top_k(&scores, 100), ranking[..100].to_vec());
    assert_eq!(select_top_k(&scores, n), ranking);
}
