use marked_tree::sampling::{select_marked, BoolRng, UniformRng};

#[test]
fn uniform_sample_stays_in_its_range() {
    let mut source = UniformRng::new(5, 11);
    for _ in 0..1000 {
        let value = source.sample();
        assert!(5 <= value && value < 11);
    }
}

#[test]
fn uniform_sample_of_a_single_value() {
    let mut source = UniformRng::new(41, 42);
    for _ in 0..20 {
        assert_eq!(source.sample(), 41);
    }
}

#[test]
fn uniform_sample_reaches_more_than_the_lower_bound() {
    let mut source = UniformRng::new(0, 1000);
    let mut above = false;
    for _ in 0..200 {
        if source.sample() > 0 {
            above = true;
        }
    }
    assert!(above);
}

#[test]
fn bool_rng_with_threshold_zero_is_never_true() {
    let mut source = BoolRng::new(0);
    for _ in 0..200 {
        assert!(!source.sample());
    }
}

#[test]
fn bool_rng_with_the_greatest_threshold_is_always_true() {
    let mut source = BoolRng::new(usize::MAX);
    for _ in 0..200 {
        assert!(source.sample());
    }
}

#[test]
fn bool_rng_at_one_half_gives_both_answers() {
    let mut source = BoolRng::new(usize::MAX / 2);
    let mut yes = 0;
    for _ in 0..400 {
        if source.sample() {
            yes += 1;
        }
    }
    assert!(yes > 0 && yes < 400);
}

#[test]
fn decide_compares_the_draw_with_the_threshold() {
    let source = BoolRng::new(10);
    assert!(source.decide(0));
    assert!(source.decide(9));
    assert!(!source.decide(10));
    assert!(!source.decide(usize::MAX));
}

#[test]
fn select_marked_lists_rising_vertices_with_lengths_in_range() {
    let mut chooser = BoolRng::new(usize::MAX / 3);
    let mut lengths = UniformRng::new(5, 11);
    let marked = select_marked(300, &mut chooser, &mut lengths);
    assert!(marked.len() <= 300);
    for pair in marked.windows(2) {
        assert!(pair[0].0 < pair[1].0);
    }
    for &(vertex, length) in &marked {
        assert!(vertex < 300);
        assert!(5 <= length && length < 11);
    }
}

#[test]
fn select_marked_with_extreme_thresholds() {
    let mut lengths = UniformRng::new(2, 3);
    let mut never = BoolRng::new(0);
    assert!(select_marked(50, &mut never, &mut lengths).is_empty());
    let mut always = BoolRng::new(usize::MAX);
    let marked = select_marked(4, &mut always, &mut lengths);
    assert_eq!(marked, vec![(0, 2), (1, 2), (2, 2), (3, 2)]);
}
