use test_generator::rng::SimpleRng;

#[test]
fn zero_seed_becomes_one() {
    assert_eq!(SimpleRng::new(0).state, 1);
    assert_eq!(SimpleRng::new(42).state, 42);
}

#[test]
fn next_u64_is_xorshift() {
    let mut rng = SimpleRng::new(1);
    assert_eq!(rng.next_u64(), 0x4082_2041);
    assert_eq!(rng.next_u64(), 1152992998833853505);
    assert_eq!(rng.next_u64(), 11177516664432764457);
    assert_eq!(rng.state, 11177516664432764457);
}

#[test]
fn shuffle_is_fisher_yates() {
    let mut rng = SimpleRng::new(7);
    let mut items = vec![1, 2, 3, 4, 5];
    rng.shuffle(&mut items);
    assert_eq!(items, vec![5, 2, 4, 1, 3]);
    assert_eq!(rng.state, 8698583309276795107);
}

#[test]
fn shuffle_keeps_items() {
    let mut rng = SimpleRng::new(0xDEAD_BEEF_CAFE_BABE);
    let mut items: Vec<u32> = (0..100).collect();
    rng.shuffle(&mut items);
    let mut sorted = items.clone();
    sorted.sort();
    assert_eq!(sorted, (0..100).collect::<Vec<u32>>());
    let mut empty: Vec<u32> = Vec::new();
    rng.shuffle(&mut empty);
    assert!(empty.is_empty());
}

#[test]
fn state_never_returns_to_zero() {
    let mut rng = SimpleRng::new(0);
    for _ in 0..10_000 {
        assert_ne!(rng.next_u64(), 0);
    }
}
