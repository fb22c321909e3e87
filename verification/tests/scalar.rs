use ha5::scalar::Scalar;
use std::ops::Neg;

fn s(x: f32) -> Scalar {
    Scalar::from_bits(x.to_bits())
}

fn f(x: Scalar) -> f32 {
    f32::from_bits(x.to_bits())
}

/// Bit patterns at the edges of every class of numbers, and a spread of others.
fn patterns() -> Vec<u32> {
    let mut out: Vec<u32> = vec![
        0x0000_0000, 0x8000_0000, 0x0000_0001, 0x8000_0001, 0x007f_ffff, 0x807f_ffff, 0x0080_0000,
        0x8080_0000, 0x3f80_0000, 0xbf80_0000, 0x3f7f_ffff, 0x3f80_0001, 0x7f7f_ffff, 0xff7f_ffff,
        0x7f80_0000, 0xff80_0000, 0x7f80_0001, 0xff80_0001, 0x7fc0_0000, 0xffc0_0000, 0x7fff_ffff,
        0xffff_ffff, 0x437f_fd71, 0x4000_0000, 0xc000_0000,
    ];
    let mut state: u32 = 0x1234_5678;
    for _ in 0..400 {
        state = state.wrapping_mul(1_664_525).wrapping_add(1_013_904_223);
        out.push(state);
    }
    out
}

#[test]
fn from_bits_and_to_bits_keep_the_pattern() {
    for bits in patterns() {
        assert_eq!(Scalar::from_bits(bits).to_bits(), bits);
    }
    assert_eq!(s(1.0).to_bits(), 0x3f80_0000);
    assert_eq!(Scalar::zero().to_bits(), 0);
}

#[test]
fn is_nan_agrees_with_the_machine() {
    for bits in patterns() {
        assert_eq!(Scalar::from_bits(bits).is_nan(), f32::from_bits(bits).is_nan(), "{:#x}", bits);
    }
    assert!(s(f32::NAN).is_nan());
    assert!(!s(f32::INFINITY).is_nan());
    assert!(!s(0.0).is_nan());
}

#[test]
fn lt_agrees_with_the_machine() {
    let all = patterns();
    for &a in all.iter() {
        for &b in all.iter() {
            let expected = f32::from_bits(a) < f32::from_bits(b);
            assert_eq!(Scalar::from_bits(a).lt(Scalar::from_bits(b)), expected, "{:#x} {:#x}", a, b);
        }
    }
}

#[test]
fn le_agrees_with_the_machine() {
    let all = patterns();
    for &a in all.iter() {
        for &b in all.iter() {
            let expected = f32::from_bits(a) <= f32::from_bits(b);
            assert_eq!(Scalar::from_bits(a).le(Scalar::from_bits(b)), expected, "{:#x} {:#x}", a, b);
        }
    }
}

#[test]
fn eq_agrees_with_the_machine() {
    let all = patterns();
    for &a in all.iter() {
        for &b in all.iter() {
            let expected = f32::from_bits(a) == f32::from_bits(b);
            assert_eq!(Scalar::from_bits(a) == Scalar::from_bits(b), expected, "{:#x} {:#x}", a, b);
        }
    }
}

#[test]
fn comparisons_on_plain_numbers() {
    assert!(s(1.0).lt(s(2.0)));
    assert!(!s(2.0).lt(s(1.0)));
    assert!(!s(1.0).lt(s(1.0)));
    assert!(s(1.0).le(s(1.0)));
    assert!(s(-3.5).lt(s(-3.25)));
    assert!(s(-1.0).lt(s(0.0)));
    assert!(s(f32::NEG_INFINITY).lt(s(f32::MIN)));
    assert!(s(f32::MAX).lt(s(f32::INFINITY)));
}

#[test]
fn the_two_zeros_are_equal_and_neither_is_less() {
    assert!(s(0.0) == s(-0.0));
    assert!(!s(-0.0).lt(s(0.0)));
    assert!(!s(0.0).lt(s(-0.0)));
    assert!(s(-0.0).le(s(0.0)));
    assert!(s(0.0).le(s(-0.0)));
}

#[test]
fn a_nan_compares_false_with_everything() {
    let nan = s(f32::NAN);
    for bits in patterns() {
        let other = Scalar::from_bits(bits);
        assert!(!nan.lt(other));
        assert!(!other.lt(nan));
        assert!(!nan.le(other));
        assert!(!other.le(nan));
        assert!(nan != other);
    }
    assert!(nan != nan);
}

#[test]
fn neg_agrees_with_the_machine() {
    for bits in patterns() {
        let x = f32::from_bits(bits);
        assert_eq!(Scalar::from_bits(bits).neg().to_bits(), (-x).to_bits(), "{:#x}", bits);
        assert_eq!((-Scalar::from_bits(bits)).to_bits(), (-x).to_bits(), "{:#x}", bits);
    }
    assert_eq!(f(-s(1.5)), -1.5);
    assert_eq!(f(-s(-0.25)), 0.25);
}

#[test]
fn neg_twice_gives_the_same_bits() {
    for bits in patterns() {
        assert_eq!((-(-Scalar::from_bits(bits))).to_bits(), bits);
    }
}
