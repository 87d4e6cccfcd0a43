use spline_relu::splitmix::{NormalDraw, SplitMix64, GOLDEN_GAMMA};

#[test]
fn seed_zero_reference_outputs() {
    let mut g = SplitMix64::new(0);
    assert_eq!(g.next_u64(), 0xE220_A839_7B1D_CDAF);
    assert_eq!(g.next_u64(), 0x6E78_9E6A_A1B9_65F4);
    assert_eq!(g.next_u64(), 0x06C4_5D18_8009_454F);
}

#[test]
fn same_seed_same_stream() {
    let mut a = SplitMix64::new(20260916);
    let mut b = SplitMix64::new(20260916);
    for _ in 0..100 {
        assert_eq!(a.next_u64(), b.next_u64());
    }
}

#[test]
fn output_depends_only_on_position() {
    let seed: u64 = 20260916;
    let mut a = SplitMix64::new(seed);
    a.next_u64();
    a.next_u64();
    let third = a.next_u64();
    let mut b = SplitMix64::new(seed.wrapping_add(GOLDEN_GAMMA.wrapping_mul(2)));
    assert_eq!(b.next_u64(), third);
}

#[test]
fn counter_wraps_around() {
    let mut a = SplitMix64::new(u64::MAX);
    a.next_u64();
    let second = a.next_u64();
    let mut b = SplitMix64::new(GOLDEN_GAMMA - 1);
    assert_eq!(b.next_u64(), second);
}

#[test]
fn uniform_numerator_is_top_53_bits() {
    let mut a = SplitMix64::new(7);
    let mut b = SplitMix64::new(7);
    for _ in 0..50 {
        let v = a.uniform_numerator();
        assert!(v < (1u64 << 53));
        assert_eq!(v, b.next_u64() >> 11);
    }
    let mut z = SplitMix64::new(0);
    assert_eq!(z.uniform_numerator(), 0xE220_A839_7B1D_CDAF >> 11);
}

#[test]
fn uniform_value_is_inside_open_interval() {
    let mut g = SplitMix64::new(20260916);
    for _ in 0..1000 {
        let v = g.uniform_numerator();
        let u = ((v as f64) + 0.5) * (1.0 / 9007199254740992.0);
        assert!(u > 0.0 && u < 1.0);
    }
}

#[test]
fn normal_alternates_fresh_and_spare() {
    let mut g = SplitMix64::new(99);
    let mut h = SplitMix64::new(99);
    let first = g.normal();
    let u1 = h.uniform_numerator();
    let u2 = h.uniform_numerator();
    assert_eq!(first, NormalDraw::Fresh(u1, u2));
    let kept = 1.25f64.to_bits();
    g.keep_spare(kept);
    assert_eq!(g.normal(), NormalDraw::Spare(kept));
    let u3 = h.uniform_numerator();
    let u4 = h.uniform_numerator();
    assert_eq!(g.normal(), NormalDraw::Fresh(u3, u4));
}

#[test]
fn spare_is_handed_back_once() {
    let mut g = SplitMix64::new(5);
    g.keep_spare(42);
    assert_eq!(g.normal(), NormalDraw::Spare(42));
    let mut h = SplitMix64::new(5);
    assert_eq!(g.normal(), h.normal());
}
