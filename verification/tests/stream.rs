use ablation::stream::mix;
use ablation::stream::rng_for;
use rand::rngs::StdRng;
use rand::Rng;
use rand::SeedableRng;

#[test]
fn mix_of_nothing_is_the_start() {
    assert_eq!(mix(&[]), 0x9e37_79b9_7f4a_7c15);
}

#[test]
fn mix_has_these_values() {
    assert_eq!(mix(&[0]), 0xe220_a839_7b1d_cdaf);
    assert_eq!(mix(&[1]), 0xf14c_4df0_9bb9_a32e);
    assert_eq!(mix(&[1, 2, 3]), 0x9434_5a36_200c_08e7);
    assert_eq!(mix(&[42, 7, u64::MAX]), 0xd853_b850_5787_1f56);
}

#[test]
fn mix_depends_on_order() {
    assert_ne!(mix(&[1, 2]), mix(&[2, 1]));
}

#[test]
fn a_stream_is_seeded_by_the_mix_of_its_parts() {
    // "corpus" read in base 31
    let mut number: u64 = 0;
    for b in "corpus".bytes() {
        number = number * 31 + b as u64;
    }
    assert_eq!(number, 2940304328);
    let mut expected = StdRng::seed_from_u64(mix(&[42, number, 7, 9]));
    let mut rng = rng_for(42, "corpus", &[7, 9]);
    for _ in 0..100 {
        assert_eq!(
            rng.random_range(0..1_000_000usize),
            expected.random_range(0..1_000_000usize)
        );
    }
}

#[test]
fn a_stream_does_not_depend_on_when_it_is_made() {
    let mut first = rng_for(1, "outcome", &[3, 4, 5]);
    let a: u64 = first.random();
    let mut other = rng_for(1, "outcome", &[3, 4, 6]);
    let b: u64 = other.random();
    let mut again = rng_for(1, "outcome", &[3, 4, 5]);
    let c: u64 = again.random();
    assert_eq!(a, c);
    assert_ne!(a, b);
}

#[test]
fn namespaces_and_seeds_tell_streams_apart() {
    let mut a = rng_for(1, "learner", &[2]);
    let mut b = rng_for(1, "corpus", &[2]);
    let mut c = rng_for(2, "learner", &[2]);
    let x: u64 = a.random();
    assert_ne!(x, b.random::<u64>());
    assert_ne!(x, c.random::<u64>());
}

#[test]
fn mix_changes_with_any_single_part() {
    let parts = [42u64, 7, u64::MAX, 0, 1 << 63];
    let hash = mix(&parts);
    for k in 0..parts.len() {
        for bit in 0..64 {
            let mut changed = parts;
            changed[k] ^= 1 << bit;
            assert_ne!(mix(&changed), hash);
        }
    }
}
