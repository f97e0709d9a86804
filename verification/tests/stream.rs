use coulomb::stream::Stream;
use rand::{Rng, SeedableRng};
use rand_pcg::Pcg64Mcg;

#[test]
fn stream_follows_the_generator() {
    let mut rng = Pcg64Mcg::seed_from_u64(42);
    let mut stream = Stream::new(42);
    for _ in 0..1000 {
        assert_eq!(stream.next_word(), rng.gen::<u64>());
    }
    assert_eq!(stream.position, 1000);
}
