use image_slider::double::Double;

struct Noise(u64);

impl Noise {
    fn next(&mut self) -> u64 {
        self.0 ^= self.0 << 13;
        self.0 ^= self.0 >> 7;
        self.0 ^= self.0 << 17;
        self.0
    }
}

fn samples() -> Vec<f64> {
    let mut list = vec![
        0.0,
        -0.0,
        1.0,
        -1.0,
        0.5,
        1.5,
        2.5,
        -2.5,
        0.1,
        1.1,
        30.0,
        f64::MIN_POSITIVE,
        f64::MAX,
        f64::MIN,
        f64::EPSILON,
        f64::INFINITY,
        f64::NEG_INFINITY,
        f64::NAN,
        f64::from_bits(1),
        f64::from_bits(0x000f_ffff_ffff_ffff),
        0.49999999999999994,
        4503599627370495.5,
        9007199254740991.0,
        2147483647.5,
        -2147483648.5,
        1e19,
    ];
    let mut noise = Noise(0x1234_5678_9abc_def1);
    for _ in 0..60 {
        list.push(f64::from_bits(noise.next()));
        list.push((noise.next() % 100_000) as f64 / 8.0 - 5000.0);
        list.push((noise.next() as i32) as f64);
    }
    list
}

fn double(x: f64) -> Double {
    Double::from_bits(x.to_bits())
}

fn same(d: Double, x: f64) -> bool {
    if x.is_nan() {
        d == Double::Nan
    } else {
        d.to_bits() == x.to_bits()
    }
}

#[test]
fn bits_come_back_unchanged() {
    for x in samples() {
        assert!(same(double(x), x), "{}", x);
    }
    assert_eq!(Double::Nan.to_bits(), 0x7ff8_0000_0000_0000);
}

#[test]
fn one_and_three_quarters_is_decoded() {
    assert_eq!(
        double(1.75),
        Double::Finite { negative: false, mantissa: 0x1c_0000_0000_0000, exponent: -52 }
    );
    assert_eq!(double(f64::NEG_INFINITY), Double::Infinite { negative: true });
    assert_eq!(double(-0.0), Double::Finite { negative: true, mantissa: 0, exponent: -1074 });
}

#[test]
fn products_agree_with_the_machine() {
    let list = samples();
    for &x in &list {
        for &y in &list {
            assert!(same(double(x).mul(double(y)), x * y), "{} * {}", x, y);
        }
    }
}

#[test]
fn quotients_agree_with_the_machine() {
    let list = samples();
    for &x in &list {
        for &y in &list {
            assert!(same(double(x).div(double(y)), x / y), "{} / {}", x, y);
        }
    }
}

#[test]
fn integers_agree_with_the_machine() {
    let mut noise = Noise(77);
    for i in [0, 1, -1, 2, 3, 2160, i32::MAX, i32::MIN, i32::MIN + 1] {
        assert!(same(Double::from_i32(i), i as f64));
    }
    for _ in 0..1000 {
        let i = noise.next() as i32;
        assert!(same(Double::from_i32(i), i as f64));
    }
}

#[test]
fn rounding_to_integers_agrees_with_the_machine() {
    for x in samples() {
        assert_eq!(double(x).round_i32(), x.round() as i32, "{}", x);
        assert_eq!(double(x).round_usize(), x.round() as usize, "{}", x);
    }
    for i in -4000..4000 {
        let x = i as f64 / 16.0;
        assert_eq!(double(x).round_i32(), x.round() as i32);
        assert_eq!(double(x).round_usize(), x.round() as usize);
    }
}

#[test]
fn underflow_and_overflow_round_as_the_format_says() {
    let least = f64::from_bits(1);
    assert!(same(double(least).mul(double(0.5)), 0.0));
    assert!(same(double(least).mul(double(0.75)), least));
    assert!(same(double(least).mul(double(1.5)), 2.0 * least));
    assert_eq!(double(f64::MAX).mul(double(2.0)), Double::Infinite { negative: false });
    assert_eq!(double(1.0).div(double(-0.0)), Double::Infinite { negative: true });
    assert_eq!(double(0.0).div(double(0.0)), Double::Nan);
}
