use dungeon::random::Random;

#[test]
fn random_first_values_from_zero() {
    let mut r = Random::new(0);
    assert_eq!(r.next_u32(), 1133588687);
    assert_eq!(r.next_u32(), 3098513822);
    assert_eq!(r.next_u32(), 2922633435);
}

#[test]
fn random_same_seed_same_stream() {
    let mut a = Random::new(7);
    let mut b = Random::new(7);
    for _ in 0..100 {
        assert_eq!(a.next_u32(), b.next_u32());
    }
    let mut c = Random::new(7);
    assert_eq!(c.next_u32(), 3269427046);
}

#[test]
fn random_in_range() {
    let mut r = Random::new(0);
    assert_eq!(r.next_u32_in(&(10..20)), 10 + 1133588687 % 10);
    for _ in 0..1000 {
        let v = r.next_u32_in(&(3..9));
        assert!((3..9).contains(&v));
    }
}

#[test]
fn random_element_picks_by_index() {
    let items = [10, 20, 30, 40, 50];
    let mut r = Random::new(0);
    assert_eq!(*r.element(&items), items[(1133588687 % 5) as usize]);
}

#[test]
fn random_chance_and_scaled() {
    let mut r = Random::new(0);
    // 1133588687 / u32::MAX is about 0.264
    assert!(r.next_chance(1, 2));
    let mut r = Random::new(0);
    assert!(!r.next_chance(1, 4));
    let mut r = Random::new(0);
    let v = r.next_scaled_in(0, 1000);
    assert_eq!(v, (1133588687u64 * 1000 / u32::MAX as u64) as i64);
    let mut r = Random::new(0);
    assert!(r.next_chance(1, 1));
    let mut r = Random::new(0);
    assert!(!r.next_chance(0, 1));
}

#[test]
fn random_binomial_bounds() {
    let mut r = Random::new(3);
    assert_eq!(r.next_binomial(10, 99, 100), 10);
    assert_eq!(r.next_binomial(10, 1, 100), 0);
    for _ in 0..200 {
        let v = r.next_binomial(8, 1, 3);
        assert!(v <= 8);
        let w = r.next_binomial_between(3, 17, 4, 12);
        assert!((3..12).contains(&w));
    }
    assert_eq!(r.next_binomial_between(5, 5, 1, 5), 5);
    assert_eq!(r.next_binomial_between(5, 11, 2, 6), 5);
}
