use secure_rng::{get_random_u32, Draw, RngError, SecureRng, MAX_REQUEST, POOL_SIZE};

/// A deterministic stand-in for the operating system's entropy source.
struct MockSource {
    state: u64,
    reads: usize,
}

impl MockSource {
    fn new(seed: u64) -> MockSource {
        MockSource { state: seed, reads: 0 }
    }

    fn next_byte(&mut self) -> u8 {
        self.state ^= self.state << 13;
        self.state ^= self.state >> 7;
        self.state ^= self.state << 17;
        (self.state >> 24) as u8
    }

    fn read(&mut self, n: usize) -> Vec<u8> {
        self.reads += 1;
        (0..n).map(|_| self.next_byte()).collect()
    }
}

fn next_u32(rng: &mut SecureRng, src: &mut MockSource) -> u32 {
    loop {
        match rng.next_u32() {
            Draw::Ready(v) => return v,
            Draw::NeedEntropy(k) => rng.refill(src.read(k)),
        }
    }
}

fn gen_range(rng: &mut SecureRng, src: &mut MockSource, min: u32, max: u32) -> u32 {
    loop {
        match rng.gen_range(min, max) {
            Ok(Draw::Ready(v)) => return v,
            Ok(Draw::NeedEntropy(k)) => rng.refill(src.read(k)),
            Err(e) => panic!("unexpected error {:?}", e),
        }
    }
}

fn next_nonzero_u32(rng: &mut SecureRng, src: &mut MockSource) -> u32 {
    loop {
        match rng.next_nonzero_u32() {
            Draw::Ready(v) => return v,
            Draw::NeedEntropy(k) => rng.refill(src.read(k)),
        }
    }
}

fn pool_of(words: &[u32]) -> Vec<u8> {
    words.iter().flat_map(|w| w.to_le_bytes()).collect()
}

#[test]
fn test_random_generation() {
    let v = get_random_u32([0x78, 0x56, 0x34, 0x12]);
    assert_eq!(v, 0x1234_5678);
    let mut rng = SecureRng::new();
    let mut src = MockSource::new(7);
    let a = next_u32(&mut rng, &mut src);
    let b = next_u32(&mut rng, &mut src);
    assert_ne!(a, b);
}

#[test]
fn bytes_are_read_least_significant_first() {
    assert_eq!(get_random_u32([1, 0, 0, 0]), 1);
    assert_eq!(get_random_u32([0, 0, 0, 1]), 0x0100_0000);
    assert_eq!(get_random_u32([0xff, 0xff, 0xff, 0xff]), u32::MAX);
}

#[test]
fn new_generator_asks_for_a_pool() {
    let mut rng = SecureRng::new();
    assert_eq!(rng.next_u32(), Draw::NeedEntropy(POOL_SIZE));
    let mut buf = [0u8; 3];
    assert_eq!(rng.fill_bytes(&mut buf), Ok(Draw::NeedEntropy(1024)));
}

#[test]
fn next_u32_serves_pool_words_in_order() {
    let mut rng = SecureRng::new();
    rng.refill(pool_of(&[0xdead_beef, 42, 7]));
    assert_eq!(rng.next_u32(), Draw::Ready(0xdead_beef));
    assert_eq!(rng.next_u32(), Draw::Ready(42));
    assert_eq!(rng.next_u32(), Draw::Ready(7));
    assert_eq!(rng.next_u32(), Draw::NeedEntropy(1024));
}

#[test]
fn fill_bytes_copies_the_next_bytes() {
    let mut rng = SecureRng::new();
    rng.refill(vec![1, 2, 3, 4, 5, 6, 7]);
    let mut a = [0u8; 3];
    assert_eq!(rng.fill_bytes(&mut a), Ok(Draw::Ready(())));
    assert_eq!(a, [1, 2, 3]);
    let mut b = [0u8; 4];
    assert_eq!(rng.fill_bytes(&mut b), Ok(Draw::Ready(())));
    assert_eq!(b, [4, 5, 6, 7]);
    let mut c = [9u8; 1];
    assert_eq!(rng.fill_bytes(&mut c), Ok(Draw::NeedEntropy(1024)));
    assert_eq!(c, [9]);
}

#[test]
fn fill_bytes_of_nothing_needs_no_entropy() {
    let mut rng = SecureRng::new();
    let mut empty: [u8; 0] = [];
    assert_eq!(rng.fill_bytes(&mut empty), Ok(Draw::Ready(())));
}

#[test]
fn request_that_does_not_fit_changes_nothing() {
    let mut rng = SecureRng::new();
    rng.refill(vec![10, 20, 30]);
    let mut big = [0u8; 4];
    assert_eq!(rng.fill_bytes(&mut big), Ok(Draw::NeedEntropy(1024)));
    assert_eq!(big, [0, 0, 0, 0]);
    let mut small = [0u8; 3];
    assert_eq!(rng.fill_bytes(&mut small), Ok(Draw::Ready(())));
    assert_eq!(small, [10, 20, 30]);
}

#[test]
fn oversize_request_is_refused() {
    let mut rng = SecureRng::new();
    rng.refill(vec![0u8; 16]);
    let mut buf = vec![0u8; MAX_REQUEST + 1];
    assert_eq!(rng.fill_bytes(&mut buf), Err(RngError::RequestTooLarge));
    let mut word = [0u8; 4];
    assert_eq!(rng.fill_bytes(&mut word), Ok(Draw::Ready(())));
}

#[test]
fn request_of_one_mebibyte_grows_the_pool() {
    let mut rng = SecureRng::new();
    let mut src = MockSource::new(99);
    let mut buf = vec![0u8; 1024 * 1024];
    assert_eq!(rng.fill_bytes(&mut buf), Ok(Draw::NeedEntropy(1024 * 1024)));
    let fresh = src.read(1024 * 1024);
    rng.refill(fresh.clone());
    assert_eq!(rng.fill_bytes(&mut buf), Ok(Draw::Ready(())));
    assert_eq!(buf, fresh);
}

#[test]
fn invalid_range_is_refused_without_drawing() {
    let mut rng = SecureRng::new();
    assert_eq!(rng.gen_range(5, 5), Err(RngError::InvalidRange));
    assert_eq!(rng.gen_range(10, 3), Err(RngError::InvalidRange));
    rng.refill(pool_of(&[11, 12]));
    assert_eq!(rng.gen_range(5, 5), Err(RngError::InvalidRange));
    assert_eq!(rng.gen_range(10, 3), Err(RngError::InvalidRange));
    assert_eq!(rng.next_u32(), Draw::Ready(11));
}

#[test]
fn gen_range_reduces_modulo_the_span() {
    let mut rng = SecureRng::new();
    rng.refill(pool_of(&[4, 1000]));
    assert_eq!(rng.gen_range(0, 3), Ok(Draw::Ready(1)));
    assert_eq!(rng.gen_range(100, 110), Ok(Draw::Ready(100)));
}

#[test]
fn gen_range_discards_the_biased_tail() {
    let mut rng = SecureRng::new();
    // For a span of 3 only u32::MAX lies in the tail.
    rng.refill(pool_of(&[u32::MAX, 5]));
    assert_eq!(rng.gen_range(0, 3), Ok(Draw::Ready(2)));
    // For a span of 2 the last two values are discarded.
    rng.refill(pool_of(&[u32::MAX - 1, u32::MAX, u32::MAX - 2]));
    assert_eq!(rng.gen_range(7, 9), Ok(Draw::Ready(8)));
    // For a span of 100, u32::MAX - (u32::MAX % 100) is the first discarded value.
    let limit = u32::MAX - (u32::MAX % 100);
    rng.refill(pool_of(&[limit, limit - 1]));
    assert_eq!(rng.gen_range(0, 100), Ok(Draw::Ready((limit - 1) % 100)));
}

#[test]
fn gen_range_asks_for_entropy_when_the_pool_runs_out() {
    let mut rng = SecureRng::new();
    rng.refill(pool_of(&[u32::MAX, u32::MAX]));
    assert_eq!(rng.gen_range(0, 3), Ok(Draw::NeedEntropy(1024)));
    assert_eq!(rng.next_u32(), Draw::NeedEntropy(1024));
}

#[test]
fn gen_range_of_the_widest_span() {
    let mut rng = SecureRng::new();
    rng.refill(pool_of(&[u32::MAX, u32::MAX - 1]));
    assert_eq!(rng.gen_range(0, u32::MAX), Ok(Draw::Ready(u32::MAX - 1)));
    rng.refill(pool_of(&[9]));
    assert_eq!(rng.gen_range(1, u32::MAX), Ok(Draw::Ready(10)));
}

#[test]
fn nonzero_skips_zero_draws() {
    let mut rng = SecureRng::new();
    rng.refill(pool_of(&[0, 0, 5]));
    assert_eq!(rng.next_nonzero_u32(), Draw::Ready(5));
    rng.refill(pool_of(&[0, 0]));
    assert_eq!(rng.next_nonzero_u32(), Draw::NeedEntropy(1024));
}

#[test]
fn nonzero_draws_are_never_zero() {
    let mut rng = SecureRng::new();
    let mut src = MockSource::new(3);
    for _ in 0..100_000 {
        assert_ne!(next_nonzero_u32(&mut rng, &mut src), 0);
    }
}

#[test]
fn word_draws_refill_once_per_pool() {
    let mut rng = SecureRng::new();
    let mut src = MockSource::new(11);
    for _ in 0..1000 {
        next_u32(&mut rng, &mut src);
    }
    assert_eq!(src.reads, 4);
    let mut rng = SecureRng::new();
    let mut src = MockSource::new(11);
    for _ in 0..256 {
        next_u32(&mut rng, &mut src);
    }
    assert_eq!(src.reads, 1);
    next_u32(&mut rng, &mut src);
    assert_eq!(src.reads, 2);
}

#[test]
fn word_draws_never_reuse_pool_bytes() {
    let mut rng = SecureRng::new();
    let mut refills: u32 = 0;
    let mut served = Vec::new();
    while served.len() < 600 {
        match rng.next_u32() {
            Draw::Ready(v) => served.push(v),
            Draw::NeedEntropy(k) => {
                assert_eq!(k, 1024);
                let words: Vec<u32> = (0..256u32).map(|i| refills * 1000 + i).collect();
                rng.refill(pool_of(&words));
                refills += 1;
            }
        }
    }
    let expected: Vec<u32> = (0..600u32).map(|i| (i / 256) * 1000 + i % 256).collect();
    assert_eq!(served, expected);
    assert_eq!(refills, 3);
}

fn chi_squared(counts: &[u64], total: u64) -> f64 {
    let expected = total as f64 / counts.len() as f64;
    counts.iter().map(|&c| (c as f64 - expected).powi(2) / expected).sum()
}

#[test]
fn range_draws_are_uniform() {
    let n: u64 = 100_000;
    let spans: [u32; 6] = [1, 2, 3, 100, 65536, u32::MAX];
    for (seed, &span) in spans.iter().enumerate() {
        let mut rng = SecureRng::new();
        let mut src = MockSource::new(seed as u64 + 17);
        let min: u32 = if span == u32::MAX { 0 } else { 1000 };
        let max = min + span;
        let buckets = span.min(10) as usize;
        let mut counts = vec![0u64; buckets];
        for _ in 0..n {
            let v = gen_range(&mut rng, &mut src, min, max);
            assert!(min <= v && v < max);
            let idx = ((v - min) as u64 * buckets as u64 / span as u64) as usize;
            counts[idx] += 1;
        }
        if buckets > 1 {
            // Generous bound: the 99.99% quantile for 9 degrees of freedom is about 33.7.
            assert!(chi_squared(&counts, n) < 40.0, "span {}: {:?}", span, counts);
        }
    }
}

#[test]
fn span_of_three_shows_no_modulo_bias() {
    let n: u64 = 300_000;
    let mut rng = SecureRng::new();
    let mut src = MockSource::new(5);
    let mut counts = [0u64; 3];
    for _ in 0..n {
        counts[gen_range(&mut rng, &mut src, 0, 3) as usize] += 1;
    }
    for &c in counts.iter() {
        let share = c as f64 / n as f64;
        assert!((share - 1.0 / 3.0).abs() < 0.01, "{:?}", counts);
    }
}
