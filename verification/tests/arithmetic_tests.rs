use wemburs::arithmetic::product;

fn next(state: &mut u64) -> u64 {
    *state ^= *state << 13;
    *state ^= *state >> 7;
    *state ^= *state << 17;
    *state
}

fn same(a: u64, b: f64) -> bool {
    if b.is_nan() {
        f64::from_bits(a).is_nan()
    } else {
        a == b.to_bits()
    }
}

#[test]
fn product_agrees_with_the_hardware() {
    let mut state: u64 = 0x9e37_79b9_7f4a_7c15;
    for _ in 0..200000 {
        let a = next(&mut state);
        let b = next(&mut state);
        let expected = f64::from_bits(a) * f64::from_bits(b);
        assert!(same(product(a, b), expected), "{:x} * {:x}", a, b);
    }
}

#[test]
fn product_of_small_numbers() {
    let cases = [(1.5, 2.0), (0.1, 0.2), (3.0, 1e-320), (1e308, 10.0), (5e-324, 0.5), (5e-324, 1.5), (-0.0, 3.0), (1e-200, 1e-200)];
    for (x, y) in cases {
        let x: f64 = x;
        let y: f64 = y;
        assert!(same(product(x.to_bits(), y.to_bits()), x * y), "{} * {}", x, y);
    }
}

#[test]
fn quotient_agrees_with_the_hardware() {
    let mut state: u64 = 0x2545_f491_4f6c_dd1d;
    for _ in 0..200000 {
        let a = next(&mut state);
        let b = next(&mut state);
        let expected = f64::from_bits(a) / f64::from_bits(b);
        assert!(same(wemburs::arithmetic::quotient(a, b), expected), "{:x} / {:x}", a, b);
    }
}

#[test]
fn sum_agrees_with_the_hardware() {
    let mut state: u64 = 0x1234_5678_9abc_def1;
    for _ in 0..200000 {
        let a = next(&mut state);
        let b = next(&mut state);
        let expected = f64::from_bits(a) + f64::from_bits(b);
        assert!(same(wemburs::arithmetic::sum(a, b), expected), "{:x} + {:x}", a, b);
    }
}

#[test]
fn sum_of_near_exponents_agrees_with_the_hardware() {
    let mut state: u64 = 0x0fed_cba9_8765_4321;
    for _ in 0..400000 {
        let a = next(&mut state);
        let shift = next(&mut state) % 140;
        let field = ((a >> 52) & 0x7ff).wrapping_add(shift).wrapping_sub(70) & 0x7ff;
        let b = (next(&mut state) & 0x800f_ffff_ffff_ffff) | (field << 52);
        let expected = f64::from_bits(a) + f64::from_bits(b);
        assert!(same(wemburs::arithmetic::sum(a, b), expected), "{:x} + {:x}", a, b);
        let expected = f64::from_bits(a) - f64::from_bits(b);
        assert!(same(wemburs::arithmetic::difference(a, b), expected), "{:x} - {:x}", a, b);
    }
}

#[test]
fn square_root_agrees_with_the_hardware() {
    let mut state: u64 = 0x0bad_cafe_dead_beef;
    for _ in 0..200000 {
        let a = next(&mut state);
        let expected = f64::from_bits(a).sqrt();
        assert!(same(wemburs::arithmetic::square_root(a), expected), "sqrt {:x}", a);
    }
    for k in 0..20000u64 {
        let x = k as f64;
        assert!(same(wemburs::arithmetic::square_root(x.to_bits()), x.sqrt()), "sqrt {}", x);
        let y = f64::from_bits(k);
        assert!(same(wemburs::arithmetic::square_root(y.to_bits()), y.sqrt()), "sqrt {:e}", y);
    }
}

#[test]
fn conversions_agree_with_the_hardware() {
    let mut state: u64 = 0x1357_9bdf_0246_8ace;
    for _ in 0..200000 {
        let a = next(&mut state);
        let n = (a >> (next(&mut state) % 64)) as usize;
        assert_eq!(wemburs::arithmetic::from_usize(n), (n as f64).to_bits(), "{}", n);
        let field = 1000 + next(&mut state) % 100;
        let b = (a & 0x800f_ffff_ffff_ffff) | (field << 52);
        let x = f64::from_bits(b);
        assert_eq!(wemburs::arithmetic::to_usize(b), x as usize, "{:e}", x);
        assert_eq!(wemburs::arithmetic::to_usize(b), x.floor() as usize, "{:e}", x);
        assert_eq!(wemburs::arithmetic::ceiling_to_usize(b), x.ceil() as usize, "{:e}", x);
        let y = f64::from_bits(a);
        assert_eq!(wemburs::arithmetic::to_usize(a), y as usize, "{:e}", y);
        assert_eq!(wemburs::arithmetic::ceiling_to_usize(a), y.ceil() as usize, "{:e}", y);
    }
}

#[test]
fn special_values_agree_with_the_hardware() {
    let values: [f64; 26] = [
        0.0,
        -0.0,
        5e-324,
        -5e-324,
        2.2250738585072009e-308,
        -2.2250738585072009e-308,
        2.2250738585072014e-308,
        -2.2250738585072014e-308,
        0.5,
        1.0,
        -1.0,
        1.5,
        2.0,
        3.0,
        0.1,
        100.0,
        9007199254740992.0,
        9007199254740993.0,
        1.3407807929942597e154,
        1.4916681462400413e-154,
        f64::MAX,
        f64::MIN,
        f64::INFINITY,
        f64::NEG_INFINITY,
        f64::NAN,
        f64::EPSILON,
    ];
    for x in values {
        let a = x.to_bits();
        assert!(same(wemburs::arithmetic::square_root(a), x.sqrt()), "sqrt {:e}", x);
        assert_eq!(wemburs::arithmetic::to_usize(a), x as usize, "{:e}", x);
        assert_eq!(wemburs::arithmetic::ceiling_to_usize(a), x.ceil() as usize, "{:e}", x);
        assert_eq!(wemburs::arithmetic::negate(a), (-x).to_bits(), "{:e}", x);
        assert_eq!(wemburs::double::magnitude(a), x.abs().to_bits(), "{:e}", x);
        assert_eq!(wemburs::double::is_nan(a), x.is_nan());
        assert_eq!(wemburs::double::is_infinite(a), x.is_infinite());
        assert_eq!(wemburs::double::is_finite(a), x.is_finite());
        assert_eq!(wemburs::double::is_zero(a), x == 0.0);
        assert_eq!(wemburs::double::is_negative(a), x.is_sign_negative());
        for y in values {
            let b = y.to_bits();
            assert!(same(wemburs::arithmetic::sum(a, b), x + y), "{:e} + {:e}", x, y);
            assert!(same(wemburs::arithmetic::difference(a, b), x - y), "{:e} - {:e}", x, y);
            assert!(same(product(a, b), x * y), "{:e} * {:e}", x, y);
            assert!(same(wemburs::arithmetic::quotient(a, b), x / y), "{:e} / {:e}", x, y);
            assert_eq!(wemburs::double::greater(a, b), x > y, "{:e} > {:e}", x, y);
            assert_eq!(wemburs::double::equal(a, b), x == y, "{:e} == {:e}", x, y);
            if !x.is_nan() && !y.is_nan() {
                assert_eq!(wemburs::double::less(a, b), x < y, "{:e} < {:e}", x, y);
                assert_eq!(wemburs::double::at_most(a, b), x <= y, "{:e} <= {:e}", x, y);
            }
        }
    }
}

#[test]
fn constants_are_the_doubles_they_name() {
    assert_eq!(wemburs::double::ZERO, 0.0f64.to_bits());
    assert_eq!(wemburs::double::HALF, 0.5f64.to_bits());
    assert_eq!(wemburs::double::ONE, 1.0f64.to_bits());
    assert_eq!(wemburs::double::TWO, 2.0f64.to_bits());
    assert_eq!(wemburs::double::THREE, 3.0f64.to_bits());
    assert_eq!(wemburs::double::HUNDRED, 100.0f64.to_bits());
    assert_eq!(wemburs::double::INFINITY, f64::INFINITY.to_bits());
    assert_eq!(wemburs::double::NAN, f64::NAN.to_bits());
    assert_eq!(wemburs::double::SIGN_BIT, (-0.0f64).to_bits());
    assert_eq!(wemburs::descriptive_statistics::order::TWENTY_FIVE, 25.0f64.to_bits());
    assert_eq!(wemburs::descriptive_statistics::order::FIFTY, 50.0f64.to_bits());
    assert_eq!(wemburs::descriptive_statistics::order::SEVENTY_FIVE, 75.0f64.to_bits());
}

#[test]
fn products_and_quotients_near_the_subnormals_agree_with_the_hardware() {
    let mut state: u64 = 0x8ba6_3a5b_9c2d_11e7;
    for _ in 0..300000 {
        let a = next(&mut state);
        let target = (next(&mut state) % 60) as i64 - 20;
        let fa = ((a >> 52) & 0x7ff) as i64;
        let (x, low) = (f64::from_bits(a), next(&mut state) & 0x800f_ffff_ffff_ffff);
        let fb = target + 1023 - fa;
        if (0..2047).contains(&fb) {
            let b = low | ((fb as u64) << 52);
            assert!(same(product(a, b), x * f64::from_bits(b)), "{:x} * {:x}", a, b);
        }
        let fc = fa + 1023 - target;
        if (0..2047).contains(&fc) {
            let c = low | ((fc as u64) << 52);
            let expected = x / f64::from_bits(c);
            assert!(same(wemburs::arithmetic::quotient(a, c), expected), "{:x} / {:x}", a, c);
        }
    }
}
