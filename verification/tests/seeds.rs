use cavegen::seed::Seed;

#[test]
fn seed_hash_is_sha256_of_the_text() {
    // the SHA-256 digest of "test" starts 9f 86 d0 81
    let seed = Seed::new(String::from("test"));
    let hash = seed.to_256_bit();
    assert_eq!(hash[0], 0x9f);
    assert_eq!(hash[1], 0x86);
    assert_eq!(hash[2], 0xd0);
    assert_eq!(hash[3], 0x81);
    assert_eq!(seed.to_32_bit(), 0x9f86d081);
}

#[test]
fn seed_is_deterministic() {
    let a = Seed::new(String::from("level one"));
    let b = Seed::new(String::from("level one"));
    assert_eq!(a.to_256_bit(), b.to_256_bit());
    assert_eq!(a.to_32_bit(), b.to_32_bit());
}

#[test]
fn different_seeds_differ() {
    let a = Seed::new(String::from("test"));
    let b = Seed::new(String::from("test2"));
    assert_ne!(a.to_256_bit(), b.to_256_bit());
}

#[test]
fn seed_keeps_the_raw_text() {
    let a = Seed::new(String::from("cavern of echoes"));
    assert_eq!(a.raw, "cavern of echoes");
}

#[test]
fn random_draws_stay_in_range() {
    let mut rng = cavegen::random::RandomStream::from_seed(
        Seed::new(String::from("range")).to_256_bit(),
    );
    let mut seen_distinct = false;
    let mut last = None;
    for _ in 0..200 {
        let v = rng.gen_range(10, 20);
        assert!(10 <= v && v < 20);
        if let Some(prev) = last {
            if prev != v {
                seen_distinct = true;
            }
        }
        last = Some(v);
    }
    assert!(seen_distinct);
}

#[test]
fn same_seed_gives_the_same_stream() {
    let mut a = cavegen::random::RandomStream::from_seed(
        Seed::new(String::from("stream")).to_256_bit(),
    );
    let mut b = cavegen::random::RandomStream::from_seed(
        Seed::new(String::from("stream")).to_256_bit(),
    );
    for _ in 0..50 {
        assert_eq!(a.gen_range(0, 1000), b.gen_range(0, 1000));
    }
}
