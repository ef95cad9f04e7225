use markov::{Chain, SplitMix64};

#[test]
fn fresh_chain_generates_empty() {
    let chain = Chain::new(0usize, 100usize);
    let mut rng = SplitMix64::from_seed(1);
    for _ in 0..10 {
        assert_eq!(chain.generate(&mut rng), Vec::<usize>::new());
    }
    let schain = Chain::for_strings();
    assert_eq!(schain.generate_str(&mut rng), ".");
}

#[test]
fn feed_empty_is_noop() {
    let mut chain = Chain::new(0usize, 100usize);
    chain.feed(vec![]);
    let mut rng = SplitMix64::from_seed(2);
    assert_eq!(chain.generate(&mut rng), Vec::<usize>::new());

    chain.feed(vec![3usize, 5, 10]);
    chain.feed(vec![]);
    for _ in 0..20 {
        assert_eq!(chain.generate(&mut rng), vec![3usize, 5, 10]);
    }
}

#[test]
fn single_path_is_deterministic() {
    let mut chain = Chain::new(0usize, 100usize);
    chain.feed(vec![7usize, 8, 9]);
    for seed in 0..30u64 {
        let mut rng = SplitMix64::from_seed(seed);
        assert_eq!(chain.generate(&mut rng), vec![7usize, 8, 9]);
    }
}

#[test]
fn single_sentence_formats_exactly() {
    let mut chain = Chain::for_strings();
    chain.feed_str("a b");
    let mut rng = SplitMix64::from_seed(3);
    assert_eq!(chain.generate_str(&mut rng), "a b.");
}

#[test]
fn empty_line_formats_as_period() {
    let mut chain = Chain::for_strings();
    chain.feed_str("");
    let mut rng = SplitMix64::from_seed(4);
    assert_eq!(chain.generate_str(&mut rng), ".");
}

#[test]
fn generate_from_end_token_is_empty() {
    let mut chain = Chain::new(0usize, 100usize);
    chain.feed(vec![3usize, 5]);
    let mut rng = SplitMix64::from_seed(5);
    assert_eq!(chain.generate_from_token(100usize, &mut rng).unwrap(), vec![]);
}

#[test]
fn self_loop_tokens_only() {
    let mut chain = Chain::new(0usize, 100usize);
    chain.feed(vec![5usize, 5]);
    let mut rng = SplitMix64::from_seed(6);
    for _ in 0..20 {
        let v = chain.generate(&mut rng);
        assert!(!v.is_empty());
        assert!(v.iter().all(|&x| x == 5));
    }
}

#[test]
fn branch_frequency_proportional() {
    // The same sequence fed three times gives the branch at token 5 the
    // weights 1 -> 6 and 2 -> 3, so the first step after 5 should pick 1
    // about twice as often as 2.
    let mut chain = Chain::new(0usize, 100usize);
    for _ in 0..3 {
        chain.feed(vec![5usize, 1, 5, 1, 5, 2]);
    }
    let mut rng = SplitMix64::from_seed(42);
    let trials = 3000;
    let mut ones = 0usize;
    for _ in 0..trials {
        let v = chain.generate_from_token(5usize, &mut rng).unwrap();
        assert_eq!(v[0], 5);
        match v[1] {
            1 => ones += 1,
            2 => {}
            other => panic!("impossible successor {}", other),
        }
    }
    // Expected share is 2/3 of 3000 = 2000; allow a generous tolerance.
    assert!(ones > 1800, "too few 1-branches: {}", ones);
    assert!(ones < 2200, "too many 1-branches: {}", ones);
}

#[test]
fn counts_accumulate_over_repeated_feeds() {
    // Feeding the same sequence twice leaves the support unchanged: only
    // the weights grow, so every generated walk is still one of the walks
    // of the singly fed chain.
    let mut once = Chain::new(0usize, 100usize);
    once.feed(vec![3usize, 5, 10]);
    let mut twice = Chain::new(0usize, 100usize);
    twice.feed(vec![3usize, 5, 10]);
    twice.feed(vec![3usize, 5, 10]);
    let mut rng = SplitMix64::from_seed(8);
    for _ in 0..20 {
        assert_eq!(once.generate(&mut rng), vec![3usize, 5, 10]);
        assert_eq!(twice.generate(&mut rng), vec![3usize, 5, 10]);
    }
}

#[test]
fn equal_sentinels_generate_nothing() {
    let mut chain = Chain::new(0usize, 0usize);
    let mut rng = SplitMix64::from_seed(9);
    assert_eq!(chain.generate(&mut rng), Vec::<usize>::new());
    chain.feed(vec![1usize, 2]);
    assert_eq!(chain.generate(&mut rng), Vec::<usize>::new());
}

#[test]
fn end_token_inside_sequence_stops_walk() {
    let mut chain = Chain::new(0usize, 100usize);
    chain.feed(vec![3usize, 100, 5]);
    let mut rng = SplitMix64::from_seed(10);
    for _ in 0..10 {
        assert_eq!(chain.generate(&mut rng), vec![3usize]);
    }
}
