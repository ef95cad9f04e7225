use markov::{Chain, ChainError, SplitMix64};

#[test]
fn new() {
    Chain::new(0usize, 100usize);
    Chain::for_strings();
}

#[test]
fn feed() {
    let mut chain = Chain::new(0usize, 100usize);
    chain.feed(vec![3usize, 5, 10]);
    chain.feed(vec![5usize, 12]);
}

#[test]
fn generate() {
    let mut chain = Chain::new(0usize, 100usize);
    chain.feed(vec![3usize, 5, 10]);
    chain.feed(vec![5usize, 12]);
    let mut rng = SplitMix64::from_seed(7);
    for _ in 0..50 {
        let v = chain.generate(&mut rng);
        assert!(
            [
                vec![3usize, 5, 10],
                vec![3usize, 5, 12],
                vec![5usize, 10],
                vec![5usize, 12]
            ]
            .contains(&v)
        );
    }
}

#[test]
fn generate_from_token() {
    let mut chain = Chain::new(0usize, 100usize);
    chain.feed(vec![3usize, 5, 10]);
    chain.feed(vec![5usize, 12]);
    let mut rng = SplitMix64::from_seed(11);
    for _ in 0..50 {
        let v = chain.generate_from_token(5usize, &mut rng).unwrap();
        assert!([vec![5usize, 10], vec![5usize, 12]].contains(&v));
    }
}

#[test]
fn feed_str() {
    let mut chain = Chain::for_strings();
    chain.feed_str("I like cats and dogs");
}

#[test]
fn generate_str() {
    let mut chain = Chain::for_strings();
    chain.feed_str("I like cats");
    chain.feed_str("I hate cats");
    let mut rng = SplitMix64::from_seed(13);
    for _ in 0..20 {
        let s = chain.generate_str(&mut rng);
        assert!(["I like cats.", "I hate cats."].contains(&s.as_str()));
    }
}

#[test]
fn generate_str_from_token() {
    let mut chain = Chain::for_strings();
    chain.feed_str("I like cats");
    chain.feed_str("cats are cute");
    let mut rng = SplitMix64::from_seed(17);
    for _ in 0..20 {
        let s = chain.generate_str_from_token("cats", &mut rng).unwrap();
        assert!(["cats.", "cats are cute."].contains(&s.as_str()));
    }
}

#[test]
fn generate_from_token_unknown() {
    let mut chain = Chain::new(0usize, 100usize);
    chain.feed(vec![3usize, 5, 10]);
    let mut rng = SplitMix64::from_seed(19);
    let r = chain.generate_from_token(99usize, &mut rng);
    assert_eq!(r, Err(ChainError::TokenNotFound));
}

#[test]
fn generate_str_from_token_unknown() {
    let mut chain = Chain::for_strings();
    chain.feed_str("I like cats");
    let mut rng = SplitMix64::from_seed(23);
    let r = chain.generate_str_from_token("dogs", &mut rng);
    assert_eq!(r, Err(ChainError::TokenNotFound));
}
