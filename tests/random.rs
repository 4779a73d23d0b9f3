use leveldb::random::{Random, MERSENNE_PRIME};

#[test]
fn random() {
    let mut rnd = Random::new(0);
    assert_eq!(rnd.seed(), 1);
    rnd = Random::new(MERSENNE_PRIME);
    assert_eq!(rnd.seed(), 1);

    rnd = Random::new(3);
    assert!(rnd.one_in(50421));
    assert_eq!(rnd.uniform(10), 7);
    assert_eq!(rnd.skewed(2), 1);
}

#[test]
fn normalized_seeds_give_the_same_sequence() {
    let mut a = Random::new(0);
    let mut b = Random::new(MERSENNE_PRIME);
    let mut c = Random::new(1);
    for _ in 0..20 {
        let x = c.next();
        assert_eq!(a.next(), x);
        assert_eq!(b.next(), x);
    }
}

#[test]
fn next_is_the_lehmer_step() {
    let mut r = Random::new(1);
    assert_eq!(r.next(), 16807);
    assert_eq!(r.next(), 282475249);
    assert_eq!(r.next(), 1622650073);
    let mut high = Random::new(0x8000_0005);
    assert_eq!(high.seed(), 5);
    assert_eq!(high.next(), 5 * 16807);
}

#[test]
fn skewed_stays_in_range() {
    let mut r = Random::new(301);
    for _ in 0..100 {
        assert!(r.skewed(4) < 16);
        assert!(r.uniform(7) < 7);
    }
}

#[test]
fn next_stays_within_the_modulus() {
    let mut r = Random::new(0x7fff_fffe);
    for _ in 0..1000 {
        let x = r.next();
        assert!(x > 0 && x < MERSENNE_PRIME);
    }
}
