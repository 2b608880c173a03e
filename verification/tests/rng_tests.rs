use lykoi_data::rng::{FibLFSR16, WichHill, XorShift128p, XorShift32, XorShift64};

#[test]
fn rng_xorshift32_known_sequence() {
    let mut rng = XorShift32::new(0);
    assert_eq!(rng.nextu(), 270369);
    assert_eq!(rng.nextu(), 67634689);
    assert_eq!(rng.nextu(), 2647435461);
    assert_eq!(rng.nextu(), 307599695);
}

#[test]
fn rng_xorshift64_known_sequence() {
    let mut rng = XorShift64::new(0);
    assert_eq!(rng.nextu(), 1082269761);
    assert_eq!(rng.nextu(), 1152992998833853505);
    assert_eq!(rng.nextu(), 11177516664432764457);
    assert_eq!(rng.nextu(), 17678023832001937445);
}

#[test]
fn rng_xorshift128p_known_sequence() {
    let mut rng = XorShift128p::new(0);
    assert_eq!(rng.nextu(), 2350952794504575203);
    assert_eq!(rng.nextu(), 10647469811762407304);
    assert_eq!(rng.nextu(), 2296785643744461824);
    assert_eq!(rng.nextu(), 6600060142384134327);
}

#[test]
fn rng_fiblfsr16_step() {
    // new_raw clamps the first seed and advances the second by one.
    let mut rng = FibLFSR16::new_raw(5, 10);
    assert_eq!(rng.nextu(), 5);
    let mut from_word = FibLFSR16::new(0x0005_000A);
    assert_eq!(from_word.nextu(), 5);
}

#[test]
fn rng_wichhill_seeds_and_step() {
    let mut rng = WichHill::new(0);
    assert_eq!(rng.seeds(), (369, 14689, 25461));
    rng.step();
    assert_eq!(rng.seeds(), (2561, 11027, 22504));
}

#[test]
fn rng_wichhill_raw_clamps_zero_seeds() {
    let rng = WichHill::new_raw(0, 7, 0);
    assert_eq!(rng.seeds(), (1, 7, 1));
}

#[test]
fn rng_same_seed_same_stream() {
    let mut a = XorShift64::new(12345);
    let mut b = XorShift64::new(12345);
    let mut i: usize = 0;
    while i < 16 {
        assert_eq!(a.nextu(), b.nextu());
        i += 1;
    }
}
