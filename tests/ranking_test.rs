use notes2vec::ranking::{rank_results, top_k};

fn key(sim: f32) -> u32 {
    let bits = sim.to_bits();
    if bits & 0x8000_0000 != 0 {
        !bits
    } else {
        bits | 0x8000_0000
    }
}

#[test]
fn top_k_is_sorted_and_bounded() {
    let items = vec![(3, 0), (9, 1), (1, 2), (9, 3), (5, 4)];
    assert_eq!(top_k(&items, 3), vec![(9, 1), (9, 3), (5, 4)]);
    assert_eq!(top_k(&items, 10).len(), 5);
    assert!(top_k(&items, 0).is_empty());
    assert!(top_k(&Vec::new(), 5).is_empty());
}

#[test]
fn closer_vector_ranks_first() {
    // similarity of [1,0] against [1,0] is 1, against [0,1] is 0
    let items = vec![(key(0.0), 1), (key(1.0), 0)];
    let r = top_k(&items, 5);
    assert_eq!(r.len(), 2);
    assert_eq!(r[0].1, 0);
    assert_eq!(r[1].1, 1);
    assert!(key(-0.5) < key(0.0) && key(0.0) < key(0.25));
}

#[test]
fn per_file_cap_and_limit() {
    let files = vec!["a.md".to_string(), "a.md".to_string(), "a.md".to_string(), "b.md".to_string()];
    let items = vec![(10, 0), (9, 1), (8, 2), (7, 3)];
    assert_eq!(rank_results(&items, &files, 2, 10), vec![(10, 0), (9, 1), (7, 3)]);
    assert_eq!(rank_results(&items, &files, 2, 2), vec![(10, 0), (9, 1)]);
    assert_eq!(rank_results(&items, &files, 5, 20).len(), 4);
}
