//! The reference operations against native arithmetic and against exact integers.
use metal_softfloat_core::softfloat_ref::{
    classify, cvt_f32_to_f64, cvt_f64_to_f32, cvt_f64_to_i64, cvt_i64_to_f64, cvt_u64_to_f64, fadd,
    fdiv, fdiv_berkeley, fma, fmul, fsqrt, fsqrt_berkeley, fsub, IeeeClass,
};
use metal_softfloat_core::RoundingMode;
use rand::{Rng, SeedableRng};
use std::cmp::Ordering;

const MANT_MASK: u64 = 0x000F_FFFF_FFFF_FFFF;
const FUZZ_N: usize = 20_000;
const MODES: [RoundingMode; 4] =
    [RoundingMode::Nearest, RoundingMode::Down, RoundingMode::Up, RoundingMode::Zero];

fn bits(x: f64) -> u64 {
    x.to_bits()
}

/// Any two NaN patterns count as equal.
fn bits_equiv(a: u64, b: u64) -> bool {
    if classify(a) == IeeeClass::NaN && classify(b) == IeeeClass::NaN {
        return true;
    }
    a == b
}

fn rand_normal(rng: &mut impl Rng) -> f64 {
    loop {
        let exp_shift: i32 = rng.gen_range(-30..30);
        let val = rng.gen::<f64>() * 2f64.powi(exp_shift);
        let sign = if rng.gen::<bool>() { -1.0 } else { 1.0 };
        let x = sign * val;
        if x.is_normal() {
            return x;
        }
    }
}

/// Any pattern, with the special classes more often than by chance.
fn rand_any_f64_bits(rng: &mut impl Rng) -> u64 {
    match rng.gen_range(0u32..100) {
        0..=4 => f64::NAN.to_bits() ^ rng.gen::<u64>(),
        5..=9 => f64::INFINITY.to_bits() | ((rng.gen::<u64>() & 1) << 63),
        10..=14 => (rng.gen::<u64>() & 1) << 63,
        15..=29 => {
            let mant = (rng.gen::<u64>() & MANT_MASK).max(1);
            ((rng.gen::<u64>() & 1) << 63) | mant
        }
        _ => rand_normal(rng).to_bits(),
    }
}

/// A natural number, least limb first, without zero limbs at the top.
#[derive(Clone)]
struct Big(Vec<u64>);

impl Big {
    fn trim(mut self) -> Big {
        while self.0.last() == Some(&0) {
            self.0.pop();
        }
        self
    }

    /// `m * 2^shift`.
    fn shifted(m: u64, shift: usize) -> Big {
        let mut v = vec![0u64; shift / 64];
        let wide = (m as u128) << (shift % 64);
        v.push(wide as u64);
        v.push((wide >> 64) as u64);
        Big(v).trim()
    }

    /// The magnitude of an encoding, in units of `2^-1074`.
    fn magnitude(k: u64) -> Big {
        let exp = k >> 52;
        if exp == 0 {
            Big::shifted(k, 0)
        } else {
            Big::shifted((k & MANT_MASK) | (1 << 52), (exp - 1) as usize)
        }
    }

    fn shl(&self, n: usize) -> Big {
        let mut v = vec![0u64; n / 64];
        let s = n % 64;
        let mut carry = 0u64;
        for &x in &self.0 {
            let wide = ((x as u128) << s) | carry as u128;
            v.push(wide as u64);
            carry = (wide >> 64) as u64;
        }
        v.push(carry);
        Big(v).trim()
    }

    fn plus(&self, o: &Big) -> Big {
        let mut v = Vec::new();
        let mut carry = 0u128;
        for i in 0..self.0.len().max(o.0.len()) {
            let s = *self.0.get(i).unwrap_or(&0) as u128 + *o.0.get(i).unwrap_or(&0) as u128 + carry;
            v.push(s as u64);
            carry = s >> 64;
        }
        v.push(carry as u64);
        Big(v).trim()
    }

    /// The difference, where `self` is not less.
    fn minus(&self, o: &Big) -> Big {
        let mut v = Vec::new();
        let mut borrow = 0i128;
        for i in 0..self.0.len() {
            let mut d = self.0[i] as i128 - *o.0.get(i).unwrap_or(&0) as i128 - borrow;
            borrow = 0;
            if d < 0 {
                d += 1i128 << 64;
                borrow = 1;
            }
            v.push(d as u64);
        }
        Big(v).trim()
    }

    fn times(&self, o: &Big) -> Big {
        let mut v = vec![0u64; self.0.len() + o.0.len() + 1];
        for (i, &x) in self.0.iter().enumerate() {
            if x == 0 {
                continue;
            }
            let mut carry = 0u128;
            for (j, &y) in o.0.iter().enumerate() {
                let t = x as u128 * y as u128 + v[i + j] as u128 + carry;
                v[i + j] = t as u64;
                carry = t >> 64;
            }
            v[i + o.0.len()] = carry as u64;
        }
        Big(v).trim()
    }

    fn order(&self, o: &Big) -> Ordering {
        if self.0.len() != o.0.len() {
            return self.0.len().cmp(&o.0.len());
        }
        for i in (0..self.0.len()).rev() {
            if self.0[i] != o.0[i] {
                return self.0[i].cmp(&o.0[i]);
            }
        }
        Ordering::Equal
    }
}

/// A signed exact number in units of `2^-1074`, or of a power of it.
#[derive(Clone)]
struct Signed {
    neg: bool,
    mag: Big,
}

fn exact(a: u64) -> Signed {
    Signed { neg: a >> 63 == 1, mag: Big::magnitude(a & !(1 << 63)) }
}

fn sum(x: &Signed, y: &Signed) -> Signed {
    if x.neg == y.neg {
        return Signed { neg: x.neg, mag: x.mag.plus(&y.mag) };
    }
    if x.mag.order(&y.mag) == Ordering::Less {
        Signed { neg: y.neg, mag: y.mag.minus(&x.mag) }
    } else {
        Signed { neg: x.neg, mag: x.mag.minus(&y.mag) }
    }
}

/// The result that the mode selects, given the nearest result and how an encoding
/// of the magnitude compares with the exact one.
fn directed(
    near: u64,
    neg: bool,
    mode: RoundingMode,
    order: impl Fn(u64) -> Ordering,
) -> u64 {
    let top: u64 = 0x7FF0_0000_0000_0000;
    let mut k = near & !(1 << 63);
    let outward = match mode {
        RoundingMode::Nearest => return near,
        RoundingMode::Down => neg,
        RoundingMode::Up => !neg,
        RoundingMode::Zero => false,
    };
    if outward {
        if k < top && order(k) == Ordering::Less {
            k += 1;
        }
    } else if k == top || order(k) == Ordering::Greater {
        k -= 1;
    }
    ((neg as u64) << 63) | k
}

fn special(a: u64) -> bool {
    !f64::from_bits(a).is_finite()
}

/// `near`, or the zero that an exact zero of no fixed sign becomes.
fn zero_sum(near: u64, neg_a: bool, neg_b: bool, mode: RoundingMode) -> u64 {
    if neg_a != neg_b && mode == RoundingMode::Down {
        1 << 63
    } else {
        near
    }
}

fn native_fadd(a: u64, b: u64, mode: RoundingMode) -> u64 {
    let near = (f64::from_bits(a) + f64::from_bits(b)).to_bits();
    if special(a) || special(b) {
        return near;
    }
    let s = sum(&exact(a), &exact(b));
    if s.mag.0.is_empty() {
        return zero_sum(near, a >> 63 == 1, b >> 63 == 1, mode);
    }
    directed(near, s.neg, mode, |k| Big::magnitude(k).order(&s.mag))
}

fn native_fsub(a: u64, b: u64, mode: RoundingMode) -> u64 {
    native_fadd(a, b ^ (1 << 63), mode)
}

fn native_fmul(a: u64, b: u64, mode: RoundingMode) -> u64 {
    let near = (f64::from_bits(a) * f64::from_bits(b)).to_bits();
    if special(a) || special(b) {
        return near;
    }
    let p = exact(a).mag.times(&exact(b).mag);
    let neg = (a ^ b) >> 63 == 1;
    if p.0.is_empty() {
        return near;
    }
    directed(near, neg, mode, |k| Big::magnitude(k).shl(1074).order(&p))
}

fn native_fdiv(a: u64, b: u64, mode: RoundingMode) -> u64 {
    let near = (f64::from_bits(a) / f64::from_bits(b)).to_bits();
    if special(a) || special(b) || a << 1 == 0 || b << 1 == 0 {
        return near;
    }
    let n = exact(a).mag.shl(1074);
    let d = exact(b).mag;
    let neg = (a ^ b) >> 63 == 1;
    directed(near, neg, mode, |k| Big::magnitude(k).times(&d).order(&n))
}

fn native_fsqrt(a: u64, mode: RoundingMode) -> u64 {
    let near = f64::from_bits(a).sqrt().to_bits();
    if special(a) || a << 1 == 0 || a >> 63 == 1 {
        return near;
    }
    let n = exact(a).mag.shl(1074);
    directed(near, false, mode, |k| Big::magnitude(k).times(&Big::magnitude(k)).order(&n))
}

fn native_fma(a: u64, b: u64, c: u64, mode: RoundingMode) -> u64 {
    let near = f64::from_bits(a).mul_add(f64::from_bits(b), f64::from_bits(c)).to_bits();
    if special(a) || special(b) || special(c) {
        return near;
    }
    let prod = Signed { neg: (a ^ b) >> 63 == 1, mag: exact(a).mag.times(&exact(b).mag) };
    let addend = Signed { neg: c >> 63 == 1, mag: exact(c).mag.shl(1074) };
    let s = sum(&prod, &addend);
    if s.mag.0.is_empty() {
        return zero_sum(near, prod.neg, addend.neg, mode);
    }
    directed(near, s.neg, mode, |k| Big::magnitude(k).shl(1074).order(&s.mag))
}

fn native_i64_to_f64(x: i64, mode: RoundingMode) -> u64 {
    let near = (x as f64).to_bits();
    let m = Big::shifted(x.unsigned_abs(), 1074);
    if x == 0 {
        return near;
    }
    directed(near, x < 0, mode, |k| Big::magnitude(k).order(&m))
}

fn native_u64_to_f64(x: u64, mode: RoundingMode) -> u64 {
    let near = (x as f64).to_bits();
    let m = Big::shifted(x, 1074);
    if x == 0 {
        return near;
    }
    directed(near, false, mode, |k| Big::magnitude(k).order(&m))
}

fn native_f64_to_f32(a: u64, mode: RoundingMode) -> u32 {
    let x = f64::from_bits(a);
    let near = (x as f32).to_bits();
    if special(a) {
        return near;
    }
    let neg = a >> 63 == 1;
    let mut k = near & 0x7FFF_FFFF;
    let outward = match mode {
        RoundingMode::Nearest => return near,
        RoundingMode::Down => neg,
        RoundingMode::Up => !neg,
        RoundingMode::Zero => false,
    };
    let size = |k: u32| f64::from(f32::from_bits(k));
    if outward {
        if k < 0x7F80_0000 && size(k) < x.abs() {
            k += 1;
        }
    } else if k == 0x7F80_0000 || size(k) > x.abs() {
        k -= 1;
    }
    ((neg as u32) << 31) | k
}

fn random_pairs(
    seed: u64,
    f_ref: fn(u64, u64, RoundingMode) -> u64,
    f_native: fn(u64, u64, RoundingMode) -> u64,
) -> u32 {
    let mut rng = rand::rngs::StdRng::seed_from_u64(seed);
    let mut misses = 0u32;
    for _ in 0..10_000 {
        let x = rand_normal(&mut rng);
        let y = rand_normal(&mut rng);
        if y == 0.0 {
            continue;
        }
        for &mode in &MODES {
            if f_ref(bits(x), bits(y), mode) != f_native(bits(x), bits(y), mode) {
                misses += 1;
            }
        }
    }
    misses
}

#[test]
fn fadd_matches_native_random() {
    let misses = random_pairs(0xdead_beef, fadd, native_fadd);
    assert_eq!(misses, 0, "total mismatches: {misses}");
}

#[test]
fn fmul_matches_native_random() {
    let misses = random_pairs(0xcafe_f00d, fmul, native_fmul);
    assert_eq!(misses, 0, "total mismatches: {misses}");
}

#[test]
fn fdiv_matches_native_random() {
    let misses = random_pairs(0xabcd_1234, fdiv, native_fdiv);
    assert_eq!(misses, 0, "total mismatches: {misses}");
}

#[test]
fn fsub_matches_native_random() {
    let misses = random_pairs(0x1234_5678, fsub, native_fsub);
    assert_eq!(misses, 0, "total mismatches: {misses}");
}

#[test]
fn fdiv_berkeley_matches_existing() {
    let misses = random_pairs(0xd1_d5_12_34, fdiv_berkeley, fdiv);
    assert_eq!(misses, 0, "total mismatches vs existing fdiv: {misses}");
}

#[test]
fn fsqrt_berkeley_matches_existing() {
    let mut rng = rand::rngs::StdRng::seed_from_u64(0xb00b_a110);
    let mut misses = 0u32;
    for _ in 0..10_000 {
        let x = rand_normal(&mut rng).abs();
        if !x.is_normal() {
            continue;
        }
        for &mode in &MODES {
            if fsqrt_berkeley(bits(x), mode) != fsqrt(bits(x), mode) {
                misses += 1;
            }
        }
    }
    assert_eq!(misses, 0, "total mismatches vs existing fsqrt: {misses}");
}

#[test]
fn fsqrt_matches_native_random() {
    let mut rng = rand::rngs::StdRng::seed_from_u64(0xa55a_a55a);
    let mut misses = 0u32;
    for _ in 0..10_000 {
        let x = rand_normal(&mut rng).abs();
        if !x.is_normal() {
            continue;
        }
        for &mode in &MODES {
            if fsqrt(bits(x), mode) != native_fsqrt(bits(x), mode) {
                misses += 1;
            }
        }
        let _ = rng.gen::<u8>();
    }
    assert_eq!(misses, 0, "total mismatches: {misses}");
}

fn fuzz_op2_full_domain(
    seed: u64,
    op_name: &str,
    f_ref: fn(u64, u64, RoundingMode) -> u64,
    f_native: fn(u64, u64, RoundingMode) -> u64,
) {
    let mut rng = rand::rngs::StdRng::seed_from_u64(seed);
    let mut misses = 0u32;
    for _ in 0..FUZZ_N {
        let a = rand_any_f64_bits(&mut rng);
        let b = rand_any_f64_bits(&mut rng);
        for &mode in &MODES {
            if !bits_equiv(f_ref(a, b, mode), f_native(a, b, mode)) {
                misses += 1;
            }
        }
    }
    assert_eq!(misses, 0, "{op_name}: {misses} full-domain mismatches");
}

#[test]
fn fadd_full_domain() {
    fuzz_op2_full_domain(0xfa_dd_de_ad, "fadd", fadd, native_fadd);
}

#[test]
fn fsub_full_domain() {
    fuzz_op2_full_domain(0xfa_5b_de_ad, "fsub", fsub, native_fsub);
}

#[test]
fn fmul_full_domain() {
    fuzz_op2_full_domain(0xfa_2c_de_ad, "fmul", fmul, native_fmul);
}

#[test]
fn fdiv_full_domain() {
    fuzz_op2_full_domain(0xfa_d1_de_ad, "fdiv", fdiv, native_fdiv);
}

#[test]
fn fsqrt_full_domain() {
    let mut rng = rand::rngs::StdRng::seed_from_u64(0xfa_57_de_ad);
    let mut misses = 0u32;
    for _ in 0..FUZZ_N {
        let a = rand_any_f64_bits(&mut rng);
        for &mode in &MODES {
            if !bits_equiv(fsqrt(a, mode), native_fsqrt(a, mode)) {
                misses += 1;
            }
        }
    }
    assert_eq!(misses, 0, "fsqrt: {misses} full-domain mismatches");
}

#[test]
fn fma_full_domain_random_triples() {
    let mut rng = rand::rngs::StdRng::seed_from_u64(0xfa_a0_de_ad);
    let mut misses = 0u32;
    for _ in 0..10_000 {
        let a = rand_any_f64_bits(&mut rng);
        let b = rand_any_f64_bits(&mut rng);
        let c = rand_any_f64_bits(&mut rng);
        for &mode in &MODES {
            if !bits_equiv(fma(a, b, c, mode), native_fma(a, b, c, mode)) {
                misses += 1;
            }
        }
    }
    assert_eq!(misses, 0, "fma: {misses} full-domain mismatches");
}

#[test]
fn all_patterns_at_random() {
    let mut rng = rand::rngs::StdRng::seed_from_u64(0x5eed);
    for _ in 0..3_000 {
        let a = rng.gen::<u64>();
        let b = rng.gen::<u64>();
        let c = rng.gen::<u64>();
        for &mode in &MODES {
            assert!(bits_equiv(fadd(a, b, mode), native_fadd(a, b, mode)));
            assert!(bits_equiv(fmul(a, b, mode), native_fmul(a, b, mode)));
            assert!(bits_equiv(fdiv(a, b, mode), native_fdiv(a, b, mode)));
            assert!(bits_equiv(fsqrt(a, mode), native_fsqrt(a, mode)));
            assert!(bits_equiv(fma(a, b, c, mode), native_fma(a, b, c, mode)));
        }
    }
}

#[test]
fn estimates_agree_on_all_exponents() {
    let mut rng = rand::rngs::StdRng::seed_from_u64(0xe571);
    let mut subnormal = 0u32;
    for _ in 0..20_000 {
        let a = rng.gen::<u64>();
        let b = rng.gen::<u64>();
        if special(a) || special(b) || a << 1 == 0 || b << 1 == 0 {
            continue;
        }
        for &mode in &MODES {
            let want = fdiv(a, b, mode);
            assert_eq!(fdiv_berkeley(a, b, mode), want);
            if classify(want) == IeeeClass::Subnormal {
                subnormal += 1;
            }
            let size = a & !(1 << 63);
            assert_eq!(fsqrt_berkeley(size, mode), fsqrt(size, mode));
        }
    }
    assert!(subnormal > 500);
}

#[test]
fn cvt_i64_to_f64_round_trip() {
    let cases: [i64; 12] = [
        0,
        1,
        -1,
        2,
        -2,
        1_000_000,
        -1_000_000,
        (1i64 << 53) - 1,
        1i64 << 53,
        (1i64 << 53) + 1,
        i64::MAX,
        i64::MIN,
    ];
    for &x in &cases {
        for &mode in &MODES {
            let got = cvt_i64_to_f64(x, mode);
            let want = native_i64_to_f64(x, mode);
            assert_eq!(got, want, "i64_to_f64({x}, {mode:?}): got {got:016x} want {want:016x}");
        }
    }
}

#[test]
fn cvt_u64_to_f64_round_trip() {
    let cases: [u64; 9] = [
        0,
        1,
        2,
        1_000_000,
        (1u64 << 53) - 1,
        1u64 << 53,
        (1u64 << 53) + 1,
        u64::MAX - 1,
        u64::MAX,
    ];
    for &x in &cases {
        for &mode in &MODES {
            let got = cvt_u64_to_f64(x, mode);
            let want = native_u64_to_f64(x, mode);
            assert_eq!(got, want, "u64_to_f64({x}, {mode:?})");
        }
    }
}

#[test]
fn cvt_i64_to_f64_random() {
    let mut rng = rand::rngs::StdRng::seed_from_u64(0xc0_de_d0_de);
    let mut misses = 0u32;
    for _ in 0..10_000 {
        let x = rng.gen::<i64>();
        for &mode in &MODES {
            if cvt_i64_to_f64(x, mode) != native_i64_to_f64(x, mode) {
                misses += 1;
            }
        }
    }
    assert_eq!(misses, 0, "{misses} mismatches");
}

#[test]
fn cvt_f32_to_f64_round_trip() {
    for x_f32 in &[
        0.0_f32,
        -0.0,
        1.0,
        -1.0,
        1.5,
        f32::INFINITY,
        f32::NEG_INFINITY,
        f32::MIN,
        f32::MAX,
        f32::EPSILON,
    ] {
        let f32_bits = x_f32.to_bits();
        let got = cvt_f32_to_f64(f32_bits);
        let want = f64::from(f32::from_bits(f32_bits)).to_bits();
        assert_eq!(got, want, "f32_to_f64({x_f32}): got {got:016x} want {want:016x}");
    }
}

#[test]
fn cvt_f64_to_f32_round_trip() {
    let cases: [f64; 9] = [
        0.0,
        1.0,
        -1.0,
        1.5,
        f32::MAX as f64,
        f32::MIN_POSITIVE as f64,
        (f32::MIN_POSITIVE as f64) / 2.0, // subnormal in binary32
        f64::INFINITY,
        f64::NEG_INFINITY,
    ];
    for &x in &cases {
        for &mode in &MODES {
            let got = cvt_f64_to_f32(x.to_bits(), mode);
            let want = native_f64_to_f32(x.to_bits(), mode);
            assert_eq!(got, want, "f64_to_f32({x}, {mode:?}): got {got:08x} want {want:08x}");
        }
    }
}

#[test]
fn cvt_f64_to_f32_random() {
    let mut rng = rand::rngs::StdRng::seed_from_u64(0xf32);
    for _ in 0..20_000 {
        let exp: i32 = rng.gen_range(-160..=130);
        let x = (rng.gen::<f64>() * 2.0 - 1.0) * 2f64.powi(exp);
        for &mode in &MODES {
            assert_eq!(
                cvt_f64_to_f32(bits(x), mode),
                native_f64_to_f32(bits(x), mode),
                "{x:e} {mode:?}"
            );
        }
    }
}

#[test]
fn cvt_f64_to_i64_random() {
    let mut rng = rand::rngs::StdRng::seed_from_u64(0x1264);
    for _ in 0..20_000 {
        let shift: i32 = rng.gen_range(-3..=66);
        let x = (rng.gen::<f64>() * 2.0 - 1.0) * 2f64.powi(shift);
        let near = x.round_ties_even() as i64;
        assert_eq!(cvt_f64_to_i64(bits(x), RoundingMode::Nearest), near, "{x:e}");
        assert_eq!(cvt_f64_to_i64(bits(x), RoundingMode::Down), x.floor() as i64, "{x:e}");
        assert_eq!(cvt_f64_to_i64(bits(x), RoundingMode::Up), x.ceil() as i64, "{x:e}");
        assert_eq!(cvt_f64_to_i64(bits(x), RoundingMode::Zero), x.trunc() as i64, "{x:e}");
    }
}

#[test]
fn cvt_random_round_trip_pair() {
    let mut rng = rand::rngs::StdRng::seed_from_u64(0x32_64_a5_5a);
    for _ in 0..1000 {
        let f32_bits = rng.gen::<u32>();
        // NaN payloads do not survive.
        let cls = (f32_bits >> 23) & 0xFF;
        let mant = f32_bits & 0x7F_FFFF;
        if cls == 0xFF && mant != 0 {
            continue;
        }
        let f64_bits = cvt_f32_to_f64(f32_bits);
        let back = cvt_f64_to_f32(f64_bits, RoundingMode::Nearest);
        assert_eq!(back, f32_bits, "f32 round-trip failed for {f32_bits:08x}");
    }
}
