use slhack::open_set::{NodeAndScore, OpenSet};

#[test]
fn entries_leave_lowest_score_first() {
    let mut open = OpenSet::new();
    let scores: [u64; 12] = [50, 3, 99, 3, 0, 17, u64::MAX, 8, 8, 8, 42, 1];
    for (i, &score) in scores.iter().enumerate() {
        open.push(NodeAndScore::new(i as i32, score));
        assert_eq!(open.len(), i + 1);
    }
    let mut left: Vec<(u64, i32)> = vec![];
    while let Some(e) = open.pop() {
        left.push((e.f_score, e.idx));
    }
    assert!(open.is_empty());
    let popped_scores: Vec<u64> = left.iter().map(|e| e.0).collect();
    let mut sorted = scores.to_vec();
    sorted.sort();
    assert_eq!(popped_scores, sorted);
    // Every entry comes out with the score it went in with.
    for (score, idx) in left {
        assert_eq!(scores[idx as usize], score);
    }
}

#[test]
fn pushes_and_pops_may_alternate() {
    let mut open = OpenSet::new();
    assert!(open.pop().is_none());
    open.push(NodeAndScore::new(1, 10));
    open.push(NodeAndScore::new(2, 5));
    assert_eq!(open.pop().map(|e| e.idx), Some(2));
    open.push(NodeAndScore::new(3, 7));
    open.push(NodeAndScore::new(4, 20));
    open.push(NodeAndScore::new(5, 6));
    assert_eq!(open.pop().map(|e| e.idx), Some(5));
    assert_eq!(open.pop().map(|e| e.idx), Some(3));
    assert_eq!(open.pop().map(|e| e.idx), Some(1));
    assert_eq!(open.pop().map(|e| e.idx), Some(4));
    assert!(open.pop().is_none());
    assert_eq!(open.len(), 0);
}

#[test]
fn clear_empties_the_queue() {
    let mut open = OpenSet::new();
    for i in 0..100 {
        open.push(NodeAndScore::new(i, (i as u64 * 37) % 11));
    }
    assert_eq!(open.len(), 100);
    open.clear();
    assert!(open.is_empty());
    assert!(open.pop().is_none());
    open.push(NodeAndScore::new(9, 9));
    assert_eq!(open.pop().map(|e| (e.idx, e.f_score)), Some((9, 9)));
}

#[test]
fn many_entries_come_out_sorted() {
    let mut open = OpenSet::new();
    let mut seed: u64 = 12345;
    let mut scores = vec![];
    for i in 0..2000 {
        seed = seed.wrapping_mul(6364136223846793005).wrapping_add(1442695040888963407);
        let score = seed >> 40;
        scores.push(score);
        open.push(NodeAndScore::new(i, score));
    }
    scores.sort();
    for expected in scores {
        assert_eq!(open.pop().map(|e| e.f_score), Some(expected));
    }
    assert!(open.is_empty());
}
