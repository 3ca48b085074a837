use vector_store::rank::{comes_first, rank, rank_top_k};

fn b(x: f32) -> u32 {
    x.to_bits()
}

#[test]
fn higher_score_comes_first() {
    assert!(comes_first(&(9, b(0.9)), &(1, b(0.1))));
    assert!(!comes_first(&(1, b(0.1)), &(9, b(0.9))));
    assert!(comes_first(&(9, b(0.0)), &(1, b(-0.5))));
    assert!(!comes_first(&(1, b(-0.5)), &(9, b(-0.25))));
}

#[test]
fn equal_scores_go_by_identifier() {
    assert!(comes_first(&(1, b(0.5)), &(2, b(0.5))));
    assert!(!comes_first(&(2, b(0.5)), &(1, b(0.5))));
    assert!(comes_first(&(1, b(-0.0)), &(2, b(0.0))));
    assert!(!comes_first(&(2, b(0.0)), &(1, b(-0.0))));
}

#[test]
fn an_entry_comes_first_against_itself() {
    assert!(comes_first(&(7, b(0.5)), &(7, b(0.5))));
    assert!(comes_first(&(7, b(f32::NAN)), &(7, b(f32::NAN))));
}

#[test]
fn same_identifier_and_score_go_by_bits() {
    assert!(comes_first(&(7, 0), &(7, 0x8000_0000)));
    assert!(!comes_first(&(7, 0x8000_0000), &(7, 0)));
}

#[test]
fn nan_comes_last() {
    assert!(comes_first(&(9, b(f32::NEG_INFINITY)), &(1, b(f32::NAN))));
    assert!(!comes_first(&(1, b(f32::NAN)), &(9, b(f32::NEG_INFINITY))));
    assert!(comes_first(&(1, b(f32::NAN)), &(2, 0xffc0_0000)));
}

#[test]
fn rank_orders_by_descending_score() {
    let entries = vec![
        (1, b(0.25)),
        (2, b(-1.0)),
        (3, b(1.0)),
        (4, b(0.0)),
        (5, b(0.75)),
    ];
    let ranked = rank(&entries);
    assert_eq!(
        ranked,
        vec![
            (3, b(1.0)),
            (5, b(0.75)),
            (1, b(0.25)),
            (4, b(0.0)),
            (2, b(-1.0)),
        ]
    );
}

#[test]
fn rank_breaks_ties_by_ascending_identifier() {
    let entries = vec![
        (30, b(0.5)),
        (10, b(0.5)),
        (40, b(0.9)),
        (20, b(0.5)),
    ];
    let ranked = rank(&entries);
    assert_eq!(
        ranked,
        vec![(40, b(0.9)), (10, b(0.5)), (20, b(0.5)), (30, b(0.5))]
    );
}

#[test]
fn rank_puts_nan_after_every_number() {
    let entries = vec![
        (1, b(f32::NAN)),
        (2, b(f32::NEG_INFINITY)),
        (3, b(0.5)),
        (4, b(f32::INFINITY)),
    ];
    let ranked = rank(&entries);
    assert_eq!(
        ranked,
        vec![
            (4, b(f32::INFINITY)),
            (3, b(0.5)),
            (2, b(f32::NEG_INFINITY)),
            (1, b(f32::NAN)),
        ]
    );
}

#[test]
fn rank_does_not_depend_on_input_order() {
    let one = vec![(1, b(0.1)), (2, b(0.2)), (3, b(0.2)), (4, b(-0.3))];
    let other = vec![(4, b(-0.3)), (3, b(0.2)), (1, b(0.1)), (2, b(0.2))];
    assert_eq!(rank(&one), rank(&other));
    assert_eq!(
        rank(&one),
        vec![(2, b(0.2)), (3, b(0.2)), (1, b(0.1)), (4, b(-0.3))]
    );
}

#[test]
fn rank_keeps_repeated_entries() {
    let entries = vec![(1, b(0.5)), (1, b(0.5)), (2, b(0.75))];
    assert_eq!(
        rank(&entries),
        vec![(2, b(0.75)), (1, b(0.5)), (1, b(0.5))]
    );
}

#[test]
fn rank_of_nothing_is_nothing() {
    assert_eq!(rank(&Vec::new()), Vec::new());
    assert_eq!(rank(&vec![(5, b(0.5))]), vec![(5, b(0.5))]);
}

#[test]
fn rank_sorts_a_long_run() {
    let mut entries: Vec<(u128, u32)> = Vec::new();
    let mut x: u32 = 12345;
    for id in 0..1000u128 {
        x = x.wrapping_mul(1664525).wrapping_add(1013904223);
        let score = (x >> 8) as f32 / 16777216.0 * 2.0 - 1.0;
        entries.push((id, b(score)));
    }
    let ranked = rank(&entries);
    assert_eq!(ranked.len(), 1000);
    for pair in ranked.windows(2) {
        let (first, second) = (f32::from_bits(pair[0].1), f32::from_bits(pair[1].1));
        assert!(first > second || (first == second && pair[0].0 < pair[1].0));
    }
    let mut ids: Vec<u128> = ranked.iter().map(|e| e.0).collect();
    ids.sort();
    assert_eq!(ids, (0..1000u128).collect::<Vec<u128>>());
    for entry in ranked.iter() {
        assert_eq!(entries[entry.0 as usize], *entry);
    }
}

#[test]
fn top_k_keeps_the_first_k() {
    let entries = vec![(1, b(0.25)), (2, b(-1.0)), (3, b(1.0)), (4, b(0.0))];
    assert_eq!(rank_top_k(&entries, 2), vec![(3, b(1.0)), (1, b(0.25))]);
    assert_eq!(rank_top_k(&entries, 1), vec![(3, b(1.0))]);
}

#[test]
fn top_k_beyond_the_size_keeps_all() {
    let entries = vec![(1, b(0.25)), (2, b(-1.0)), (3, b(1.0))];
    let all = vec![(3, b(1.0)), (1, b(0.25)), (2, b(-1.0))];
    assert_eq!(rank_top_k(&entries, 3), all);
    assert_eq!(rank_top_k(&entries, 4), all);
    assert_eq!(rank_top_k(&entries, usize::MAX), all);
}

#[test]
fn top_zero_is_empty() {
    let entries = vec![(1, b(0.25)), (2, b(-1.0))];
    assert_eq!(rank_top_k(&entries, 0), Vec::new());
}

#[test]
fn top_k_of_nothing_is_empty() {
    assert_eq!(rank_top_k(&Vec::new(), 5), Vec::new());
}
