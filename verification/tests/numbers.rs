use wl_longshot::single::Single;

fn single(value: f32) -> Single {
    Single::from_bits(value.to_bits()).unwrap()
}

fn float(value: Single) -> f32 {
    f32::from_bits(value.to_bits())
}

fn next(seed: &mut u64) -> u32 {
    *seed = seed.wrapping_mul(6364136223846793005).wrapping_add(1442695040888963407);
    (*seed >> 32) as u32
}

fn same(left: f32, right: f32) -> bool {
    left == right
}

#[test]
fn arithmetic_agrees_with_the_machine() {
    let mut seed = 7u64;
    let mut tried = 0u32;
    while tried < 200_000 {
        let mut a = next(&mut seed);
        let mut b = next(&mut seed);
        if tried % 3 == 0 {
            b = (b & 0x807f_ffff) | (a & 0x7f80_0000);
        }
        if tried % 7 == 0 {
            a &= 0x80ff_ffff;
        }
        let x = f32::from_bits(a);
        let y = f32::from_bits(b);
        tried += 1;
        if !x.is_finite() || !y.is_finite() {
            continue;
        }
        let p = single(x);
        let q = single(y);
        assert!(same(float(p), x));
        assert!(same(float(p.plus(q)), x + y), "{x:e} + {y:e}");
        assert!(same(float(p.minus(q)), x - y), "{x:e} - {y:e}");
        assert!(same(float(p.times(q)), x * y), "{x:e} * {y:e}");
        if y != 0.0 {
            assert!(same(float(p.over(q.absolute())), x / y.abs()), "{x:e} / {y:e}");
        }
        assert_eq!(p.below(q), x < y);
        assert_eq!(p.round_within(-2147483648, 2147483647), x.round() as i32 as i64);
    }
}

#[test]
fn numbers_at_the_ends_of_the_range() {
    assert!(Single::from_bits(f32::NAN.to_bits()).is_none());
    assert!(!Single::infinity().finite());
    assert_eq!(float(Single::infinity()), f32::INFINITY);
    assert_eq!(float(Single::zero()), 0.0);
    assert_eq!(float(Single::ratio(1, 3)), 1.0f32 / 3.0);
    assert_eq!(float(Single::whole(16_777_217)), 16_777_217u32 as f32);
    assert_eq!(float(Single::whole(u64::MAX)), u64::MAX as f32);
    let most = single(f32::MAX);
    assert_eq!(float(most.plus(most)), f32::INFINITY);
    assert_eq!(float(most.negated()), -f32::MAX);
    assert_eq!(float(single(-2.5).absolute()), 2.5);
    assert_eq!(single(2.5).round_within(-10, 10), 3);
    assert_eq!(single(-2.5).round_within(-10, 10), -3);
    assert_eq!(single(99.0).round_within(-10, 10), 10);
    assert!(single(1.0).below(single(1.5)) && !single(1.5).below(single(1.5)));
    assert_eq!(float(single(1.0).greater(single(2.0))), 2.0);
    assert_eq!(float(single(1.0).lesser(single(2.0))), 1.0);
}
