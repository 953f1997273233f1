//! What goes to the kernels and what comes back. The part of the device is
//! played by a table from kernel names to the reference operations.
use metal_softfloat_core::gpu::{
    bool_results, cvt_f32_to_f64_batch, cvt_f32_to_f64_chain, cvt_f64_to_f32_batch,
    cvt_f64_to_f32_chain, cvt_f64_to_i64_batch, cvt_f64_to_i64_chain, cvt_i64_to_f64_batch,
    cvt_i64_to_f64_chain, cvt_u64_to_f64_batch, cvt_u64_to_f64_chain, fadd_batch, fadd_chain,
    fdiv_batch, fdiv_chain, feq_batch, feq_chain, fge_batch, fge_chain, fgt_batch, fgt_chain,
    fle_batch, fle_chain, flt_batch, flt_chain, fma_batch, fma_chain, fmul_batch, fmul_chain,
    fsqrt_batch, fsqrt_chain, fsub_batch, fsub_chain, i64_results, launch_grid, op1_inputs,
    op2_inputs, u32_results, Grid, Launch, Op1Input, Op2Input, Op3Input, Payload,
    CHAIN_OPS_PER_THREAD,
};
use metal_softfloat_core::softfloat_ref;
use metal_softfloat_core::RoundingMode;
use rand::{Rng, SeedableRng};

const MODES4: &[RoundingMode] =
    &[RoundingMode::Nearest, RoundingMode::Down, RoundingMode::Up, RoundingMode::Zero];

fn mode_of(code: u32) -> RoundingMode {
    MODES4[code as usize]
}

/// Runs a launch, one record after the other.
fn device(launch: &Launch) -> Vec<u64> {
    let out: Vec<u64> = match &launch.payload {
        Payload::Op1(records) => records.iter().map(|r| device_op1(launch.kernel, r)).collect(),
        Payload::Op2(records) => records.iter().map(|r| device_op2(launch.kernel, r)).collect(),
        Payload::Op3(records) => records.iter().map(|r| device_op3(launch.kernel, r)).collect(),
        Payload::Seed(_, _) => panic!("no chain kernel here"),
    };
    assert_eq!(out.len(), launch.threads);
    out
}

fn device_op1(kernel: &str, r: &Op1Input) -> u64 {
    let m = mode_of(r.mode);
    match kernel {
        "test_fsqrt" => softfloat_ref::fsqrt(r.a, m),
        "test_cvt_i64_to_f64" => softfloat_ref::cvt_i64_to_f64(r.a as i64, m),
        "test_cvt_u64_to_f64" => softfloat_ref::cvt_u64_to_f64(r.a, m),
        "test_cvt_f64_to_i64" => softfloat_ref::cvt_f64_to_i64(r.a, m) as u64,
        "test_cvt_f32_to_f64" => softfloat_ref::cvt_f32_to_f64(r.a as u32),
        "test_cvt_f64_to_f32" => u64::from(softfloat_ref::cvt_f64_to_f32(r.a, m)),
        _ => panic!("no kernel {kernel}"),
    }
}

fn device_op2(kernel: &str, r: &Op2Input) -> u64 {
    let m = mode_of(r.mode);
    match kernel {
        "test_fadd" => softfloat_ref::fadd(r.a, r.b, m),
        "test_fsub" => softfloat_ref::fsub(r.a, r.b, m),
        "test_fmul" => softfloat_ref::fmul(r.a, r.b, m),
        "test_fdiv" => softfloat_ref::fdiv(r.a, r.b, m),
        "test_feq" => u64::from(softfloat_ref::feq(r.a, r.b)),
        "test_flt" => u64::from(softfloat_ref::flt(r.a, r.b)),
        "test_fle" => u64::from(softfloat_ref::fle(r.a, r.b)),
        "test_fgt" => u64::from(softfloat_ref::fgt(r.a, r.b)),
        "test_fge" => u64::from(softfloat_ref::fge(r.a, r.b)),
        _ => panic!("no kernel {kernel}"),
    }
}

fn device_op3(kernel: &str, r: &Op3Input) -> u64 {
    match kernel {
        "test_fma" => softfloat_ref::fma(r.a, r.b, r.c, mode_of(r.mode)),
        _ => panic!("no kernel {kernel}"),
    }
}

fn rand_normal(rng: &mut impl Rng) -> f64 {
    loop {
        let exp_shift: i32 = rng.gen_range(-30..30);
        let sign = if rng.gen::<bool>() { -1.0 } else { 1.0 };
        let x = sign * rng.gen::<f64>() * 2f64.powi(exp_shift);
        if x.is_normal() {
            return x;
        }
    }
}

fn rand_any_bits(rng: &mut impl Rng) -> u64 {
    match rng.gen_range(0u32..100) {
        0..=4 => f64::NAN.to_bits() ^ rng.gen::<u64>(),
        5..=9 => 0x7FF0_0000_0000_0000 | ((rng.gen::<u64>() & 1) << 63),
        10..=14 => (rng.gen::<u64>() & 1) << 63,
        15..=29 => {
            let mant = (rng.gen::<u64>() & 0x000F_FFFF_FFFF_FFFF).max(1);
            ((rng.gen::<u64>() & 1) << 63) | mant
        }
        _ => rand_normal(rng).to_bits(),
    }
}

fn gen_op2(seed: u64, n: usize) -> Vec<(u64, u64, RoundingMode)> {
    let mut rng = rand::rngs::StdRng::seed_from_u64(seed);
    (0..n)
        .map(|i| {
            let a = rand_normal(&mut rng);
            let b = rand_normal(&mut rng);
            (a.to_bits(), b.to_bits(), MODES4[i % 4])
        })
        .collect()
}

fn gen_op1(seed: u64, n: usize, positive: bool) -> Vec<(u64, RoundingMode)> {
    let mut rng = rand::rngs::StdRng::seed_from_u64(seed);
    (0..n)
        .map(|i| {
            let mut x = rand_normal(&mut rng);
            if positive {
                x = x.abs();
            }
            (x.to_bits(), MODES4[i % 4])
        })
        .collect()
}

fn gen_full_domain_op2(seed: u64, n: usize) -> Vec<(u64, u64, RoundingMode)> {
    let mut rng = rand::rngs::StdRng::seed_from_u64(seed);
    (0..n).map(|i| (rand_any_bits(&mut rng), rand_any_bits(&mut rng), MODES4[i % 4])).collect()
}

fn gen_full_domain_op1(seed: u64, n: usize) -> Vec<(u64, RoundingMode)> {
    let mut rng = rand::rngs::StdRng::seed_from_u64(seed);
    (0..n).map(|i| (rand_any_bits(&mut rng), MODES4[i % 4])).collect()
}

fn class_eq_or_bits(gpu: u64, cpu: u64) -> bool {
    let g_class = softfloat_ref::classify(gpu);
    let c_class = softfloat_ref::classify(cpu);
    if g_class == softfloat_ref::IeeeClass::NaN && c_class == softfloat_ref::IeeeClass::NaN {
        return true;
    }
    gpu == cpu
}

fn check_op2(
    name: &str,
    f_cpu: fn(u64, u64, RoundingMode) -> u64,
    native: fn(f64, f64) -> f64,
    f_gpu: fn(&[(u64, u64, RoundingMode)]) -> Launch,
    seed: u64,
) {
    let inputs = gen_op2(seed, 1024);
    let gpu_out = device(&f_gpu(&inputs));
    for (i, &(a, b, m)) in inputs.iter().enumerate() {
        let cpu_out = f_cpu(a, b, m);
        assert_eq!(
            gpu_out[i], cpu_out,
            "{name} mismatch at i={i}: a={a:016x} b={b:016x} mode={m:?}"
        );
        if m == RoundingMode::Nearest {
            assert_eq!(gpu_out[i], native(f64::from_bits(a), f64::from_bits(b)).to_bits());
        }
    }
}

#[test]
fn gpu_fadd_matches_cpu() {
    check_op2("fadd", softfloat_ref::fadd, |x, y| x + y, fadd_batch, 0x1111_1111);
}

#[test]
fn gpu_fsub_matches_cpu() {
    check_op2("fsub", softfloat_ref::fsub, |x, y| x - y, fsub_batch, 0x2222_2222);
}

#[test]
fn gpu_fmul_matches_cpu() {
    check_op2("fmul", softfloat_ref::fmul, |x, y| x * y, fmul_batch, 0x3333_3333);
}

#[test]
fn gpu_fdiv_matches_cpu() {
    check_op2("fdiv", softfloat_ref::fdiv, |x, y| x / y, fdiv_batch, 0x4444_4444);
}

#[test]
fn gpu_fsqrt_matches_cpu() {
    let inputs = gen_op1(0x5555_5555, 1024, true);
    let gpu_out = device(&fsqrt_batch(&inputs));
    for (i, &(a, m)) in inputs.iter().enumerate() {
        let cpu_out = softfloat_ref::fsqrt(a, m);
        assert_eq!(gpu_out[i], cpu_out, "fsqrt mismatch at i={i}: a={a:016x} mode={m:?}");
        if m == RoundingMode::Nearest {
            assert_eq!(gpu_out[i], f64::from_bits(a).sqrt().to_bits());
        }
    }
}

fn full_domain_op2(
    name: &str,
    f_cpu: fn(u64, u64, RoundingMode) -> u64,
    f_gpu: fn(&[(u64, u64, RoundingMode)]) -> Launch,
    inputs: &[(u64, u64, RoundingMode)],
) {
    let gpu_out = device(&f_gpu(inputs));
    let mut misses = 0u32;
    for (i, &(a, b, mode)) in inputs.iter().enumerate() {
        if !class_eq_or_bits(gpu_out[i], f_cpu(a, b, mode)) {
            misses += 1;
        }
    }
    assert_eq!(misses, 0, "{name}: {misses} mismatches");
}

#[test]
fn gpu_fadd_full_domain() {
    let inputs = gen_full_domain_op2(0xa1_de_b00b, 2048);
    full_domain_op2("fadd", softfloat_ref::fadd, fadd_batch, &inputs);
}

#[test]
fn gpu_fsub_full_domain() {
    let inputs = gen_full_domain_op2(0xa2_de_b00b, 2048);
    full_domain_op2("fsub", softfloat_ref::fsub, fsub_batch, &inputs);
}

#[test]
fn gpu_fmul_full_domain() {
    let inputs = gen_full_domain_op2(0xa3_de_b00b, 2048);
    full_domain_op2("fmul", softfloat_ref::fmul, fmul_batch, &inputs);
}

#[test]
fn gpu_fdiv_full_domain() {
    let inputs = gen_full_domain_op2(0xa4_de_b00b, 2048);
    full_domain_op2("fdiv", softfloat_ref::fdiv, fdiv_batch, &inputs);
}

#[test]
fn gpu_fma_full_domain() {
    let mut rng = rand::rngs::StdRng::seed_from_u64(0xa6_de_b00b);
    let triples: Vec<(u64, u64, u64, RoundingMode)> = (0..2048)
        .map(|i| {
            (
                rand_any_bits(&mut rng),
                rand_any_bits(&mut rng),
                rand_any_bits(&mut rng),
                MODES4[i % 4],
            )
        })
        .collect();
    let gpu_out = device(&fma_batch(&triples));
    let mut misses = 0u32;
    for (i, &(a, b, c, mode)) in triples.iter().enumerate() {
        if !class_eq_or_bits(gpu_out[i], softfloat_ref::fma(a, b, c, mode)) {
            misses += 1;
        }
    }
    assert_eq!(misses, 0, "fma: {misses} mismatches");
}

#[test]
fn gpu_fdiv_subnormal_output_matches_cpu() {
    let mut rng = rand::rngs::StdRng::seed_from_u64(0xa7_de_b00b);
    let mut inputs: Vec<(u64, u64, RoundingMode)> = Vec::new();
    for _ in 0..70 {
        // Tiny by huge: the quotient lies deep in the subnormal range.
        let a_exp_unbiased: i64 = -1000 - (rng.gen_range(0..50) as i64);
        let b_exp_unbiased: i64 = 800 + (rng.gen_range(0..200) as i64);
        let a_exp_biased = (a_exp_unbiased + 1023).max(1) as u64;
        let b_exp_biased = (b_exp_unbiased + 1023).min(2046) as u64;
        let a_mant = rng.gen::<u64>() & 0x000F_FFFF_FFFF_FFFF;
        let b_mant = rng.gen::<u64>() & 0x000F_FFFF_FFFF_FFFF;
        let a_sign = (rng.gen::<u64>() & 1) << 63;
        let b_sign = (rng.gen::<u64>() & 1) << 63;
        let a = a_sign | (a_exp_biased << 52) | a_mant;
        let b = b_sign | (b_exp_biased << 52) | b_mant;
        for &mode in MODES4 {
            inputs.push((a, b, mode));
        }
    }
    full_domain_op2("fdiv subnormal", softfloat_ref::fdiv, fdiv_batch, &inputs);
    let subnormal_seen = inputs
        .iter()
        .filter(|&&(a, b, mode)| {
            softfloat_ref::classify(softfloat_ref::fdiv(a, b, mode))
                == softfloat_ref::IeeeClass::Subnormal
        })
        .count();
    assert!(subnormal_seen > 0, "no quotient was subnormal");
}

#[test]
fn gpu_fsqrt_full_domain() {
    let inputs = gen_full_domain_op1(0xa5_de_b00b, 2048);
    let gpu_out = device(&fsqrt_batch(&inputs));
    let mut misses = 0u32;
    for (i, &(a, mode)) in inputs.iter().enumerate() {
        if !class_eq_or_bits(gpu_out[i], softfloat_ref::fsqrt(a, mode)) {
            misses += 1;
        }
    }
    assert_eq!(misses, 0, "fsqrt: {misses} mismatches");
}

fn gen_i64_inputs(seed: u64, n: usize) -> Vec<(i64, RoundingMode)> {
    let mut rng = rand::rngs::StdRng::seed_from_u64(seed);
    let mut v: Vec<(i64, RoundingMode)> = Vec::new();
    let corners: &[i64] = &[
        0,
        1,
        -1,
        i64::MIN,
        i64::MAX,
        i64::MIN + 1,
        i64::MAX - 1,
        (1i64 << 53) - 1,
        1i64 << 53,
        (1i64 << 53) + 1,
        -(1i64 << 53),
        -((1i64 << 53) + 1),
        (1i64 << 62) + 0x123,
    ];
    for &c in corners {
        for &m in MODES4 {
            v.push((c, m));
        }
    }
    for i in 0..n {
        let shift: u32 = rng.gen_range(0..63);
        let raw: i64 = rng.gen::<i64>() >> shift;
        v.push((raw, MODES4[i % 4]));
    }
    v
}

#[test]
fn gpu_cvt_i64_to_f64_matches_cpu() {
    let inputs = gen_i64_inputs(0xc1_de_b00b, 1024);
    let gpu_out = device(&cvt_i64_to_f64_batch(&inputs));
    let mut misses = 0u32;
    for (i, &(x, m)) in inputs.iter().enumerate() {
        if gpu_out[i] != softfloat_ref::cvt_i64_to_f64(x, m) {
            misses += 1;
        }
    }
    assert_eq!(misses, 0, "cvt_i64_to_f64: {misses} mismatches");
}

#[test]
fn gpu_cvt_u64_to_f64_matches_cpu() {
    let mut rng = rand::rngs::StdRng::seed_from_u64(0xc2_de_b00b);
    let mut inputs: Vec<(u64, RoundingMode)> = Vec::new();
    let corners: &[u64] = &[
        0,
        1,
        u64::MAX,
        u64::MAX - 1,
        (1u64 << 53) - 1,
        1u64 << 53,
        (1u64 << 53) + 1,
        1u64 << 63,
        (1u64 << 63) + 1,
    ];
    for &c in corners {
        for &m in MODES4 {
            inputs.push((c, m));
        }
    }
    for i in 0..1024 {
        let shift: u32 = rng.gen_range(0..63);
        let raw: u64 = rng.gen::<u64>() >> shift;
        inputs.push((raw, MODES4[i % 4]));
    }
    let gpu_out = device(&cvt_u64_to_f64_batch(&inputs));
    let mut misses = 0u32;
    for (i, &(x, m)) in inputs.iter().enumerate() {
        if gpu_out[i] != softfloat_ref::cvt_u64_to_f64(x, m) {
            misses += 1;
        }
    }
    assert_eq!(misses, 0, "cvt_u64_to_f64: {misses} mismatches");
}

#[test]
fn gpu_cvt_f64_to_i64_matches_cpu() {
    let mut rng = rand::rngs::StdRng::seed_from_u64(0xc3_de_b00b);
    let mut inputs: Vec<(u64, RoundingMode)> = Vec::new();
    let corners: &[f64] = &[
        0.0,
        -0.0,
        0.5,
        -0.5,
        1.5,
        -1.5,
        2.5,
        -2.5,
        i64::MAX as f64,
        i64::MIN as f64,
        (i64::MAX as f64) * 2.0,
        (i64::MIN as f64) * 2.0,
        f64::INFINITY,
        f64::NEG_INFINITY,
        f64::NAN,
        f64::from_bits(1),
        f64::from_bits(0x800F_FFFF_FFFF_FFFF),
    ];
    for &c in corners {
        for &m in MODES4 {
            inputs.push((c.to_bits(), m));
        }
    }
    for i in 0..1024 {
        let shift: i32 = rng.gen_range(-3..=66);
        let mant: f64 = rng.gen::<f64>() * 2.0 - 1.0;
        let val = mant * 2f64.powi(shift);
        inputs.push((val.to_bits(), MODES4[i % 4]));
    }
    let gpu_out = i64_results(&device(&cvt_f64_to_i64_batch(&inputs)));
    let mut misses = 0u32;
    for (i, &(a, m)) in inputs.iter().enumerate() {
        if gpu_out[i] != softfloat_ref::cvt_f64_to_i64(a, m) {
            misses += 1;
        }
    }
    assert_eq!(misses, 0, "cvt_f64_to_i64: {misses} mismatches");
}

#[test]
fn gpu_cvt_f32_to_f64_matches_cpu() {
    let mut rng = rand::rngs::StdRng::seed_from_u64(0xc4_de_b00b);
    let mut inputs: Vec<u32> = Vec::new();
    let corners: &[u32] = &[
        0u32,
        0x8000_0000,
        0x7F80_0000,
        0xFF80_0000,
        0x7FC0_0000,
        0xFFC0_0000,
        0x7FA0_0000,
        0x0000_0001,
        0x8000_0001,
        0x007F_FFFF,
        0x807F_FFFF,
        0x0080_0000,
        0x8080_0000,
        0x7F7F_FFFF,
        0xFF7F_FFFF,
        0x3F80_0000,
    ];
    inputs.extend_from_slice(corners);
    for _ in 0..1024 {
        inputs.push(rng.gen::<u32>());
    }
    let gpu_out = device(&cvt_f32_to_f64_batch(&inputs));
    let mut misses = 0u32;
    for (i, &x) in inputs.iter().enumerate() {
        if !class_eq_or_bits(gpu_out[i], softfloat_ref::cvt_f32_to_f64(x)) {
            misses += 1;
        }
    }
    assert_eq!(misses, 0, "cvt_f32_to_f64: {misses} mismatches");
}

#[test]
fn gpu_cvt_f64_to_f32_matches_cpu() {
    let mut rng = rand::rngs::StdRng::seed_from_u64(0xc5_de_b00b);
    let mut inputs: Vec<(u64, RoundingMode)> = Vec::new();
    let corners: &[f64] = &[
        0.0,
        -0.0,
        f64::INFINITY,
        f64::NEG_INFINITY,
        f64::NAN,
        1.0,
        -1.0,
        f64::from_bits(0x47EF_FFFF_E000_0000), // the greatest binary32 number
        f64::from_bits(0x47EF_FFFF_F000_0000), // halfway from there to infinity
        f64::from_bits(0x4800_0000_0000_0000),
        f64::from_bits(0x3690_0000_0000_0000), // 2^-149
        f64::from_bits(0x3680_0000_0000_0000), // 2^-150
        f64::from_bits(0x36A0_0000_0000_0000), // 2^-148
    ];
    for &c in corners {
        for &m in MODES4 {
            inputs.push((c.to_bits(), m));
        }
    }
    for i in 0..1024 {
        let exp: i32 = rng.gen_range(-160..=130);
        let mant: f64 = rng.gen::<f64>() * 2.0 - 1.0;
        let val = mant * 2f64.powi(exp);
        inputs.push((val.to_bits(), MODES4[i % 4]));
    }
    let gpu_out = u32_results(&device(&cvt_f64_to_f32_batch(&inputs)));
    let mut misses = 0u32;
    for (i, &(a, m)) in inputs.iter().enumerate() {
        let want = softfloat_ref::cvt_f64_to_f32(a, m);
        let is_nan_gpu = ((gpu_out[i] >> 23) & 0xFF == 0xFF) && (gpu_out[i] & 0x7F_FFFF) != 0;
        let is_nan_cpu = ((want >> 23) & 0xFF == 0xFF) && (want & 0x7F_FFFF) != 0;
        if !((is_nan_gpu && is_nan_cpu) || gpu_out[i] == want) {
            misses += 1;
        }
    }
    assert_eq!(misses, 0, "cvt_f64_to_f32: {misses} mismatches");
}

fn gen_cmp_inputs(seed: u64, n: usize) -> Vec<(u64, u64)> {
    let mut rng = rand::rngs::StdRng::seed_from_u64(seed);
    let corners: &[u64] = &[
        0,
        1u64 << 63,
        0x3FF0_0000_0000_0000,
        0xBFF0_0000_0000_0000,
        0x7FF0_0000_0000_0000,
        0xFFF0_0000_0000_0000,
        0x7FF8_0000_0000_0000,
        0xFFF8_0000_0000_0000,
        0x7FF4_0000_0000_0000,
        1,
        1u64 << 52,
    ];
    let mut v: Vec<(u64, u64)> = Vec::new();
    for &a in corners {
        for &b in corners {
            v.push((a, b));
        }
    }
    for _ in 0..n {
        v.push((rand_any_bits(&mut rng), rand_any_bits(&mut rng)));
    }
    // Equal pairs, so that equality also comes out true.
    for &c in corners {
        v.push((c, c));
    }
    v
}

fn check_cmp(
    name: &str,
    cpu: fn(u64, u64) -> bool,
    native: fn(f64, f64) -> bool,
    gpu: fn(&[(u64, u64)]) -> Launch,
    seed: u64,
) {
    let inputs = gen_cmp_inputs(seed, 1024);
    let gpu_out = bool_results(&device(&gpu(&inputs)));
    let mut misses = 0u32;
    for (i, &(a, b)) in inputs.iter().enumerate() {
        let want = cpu(a, b);
        if gpu_out[i] != want || want != native(f64::from_bits(a), f64::from_bits(b)) {
            misses += 1;
        }
    }
    assert_eq!(misses, 0, "{name}: {misses} mismatches");
}

#[test]
fn gpu_feq_matches_cpu() {
    check_cmp("feq", softfloat_ref::feq, |x, y| x == y, feq_batch, 0xe1_de_b00b);
}

#[test]
fn gpu_flt_matches_cpu() {
    check_cmp("flt", softfloat_ref::flt, |x, y| x < y, flt_batch, 0xe2_de_b00b);
}

#[test]
fn gpu_fle_matches_cpu() {
    check_cmp("fle", softfloat_ref::fle, |x, y| x <= y, fle_batch, 0xe3_de_b00b);
}

#[test]
fn gpu_fgt_matches_cpu() {
    check_cmp("fgt", softfloat_ref::fgt, |x, y| x > y, fgt_batch, 0xe4_de_b00b);
}

#[test]
fn gpu_fge_matches_cpu() {
    check_cmp("fge", softfloat_ref::fge, |x, y| x >= y, fge_batch, 0xe5_de_b00b);
}

#[test]
fn records_carry_operands_and_modes() {
    assert_eq!(
        op1_inputs(&[(5, RoundingMode::Up), (7, RoundingMode::Nearest)]),
        vec![Op1Input { a: 5, mode: 2, _pad: 0 }, Op1Input { a: 7, mode: 0, _pad: 0 }]
    );
    assert_eq!(
        op2_inputs(&[(1, 2, RoundingMode::Down)]),
        vec![Op2Input { a: 1, b: 2, mode: 1, _pad: 0 }]
    );
    let launch = fma_batch(&[(1, 2, 3, RoundingMode::Zero)]);
    assert_eq!(launch.kernel, "test_fma");
    assert_eq!(launch.threads, 1);
    assert!(matches!(
        &launch.payload,
        Payload::Op3(v) if v[..] == [Op3Input { a: 1, b: 2, c: 3, mode: 3, _pad: 0 }]
    ));
    let launch = cvt_i64_to_f64_batch(&[(-2, RoundingMode::Nearest)]);
    assert!(matches!(
        &launch.payload,
        Payload::Op1(v) if v[..] == [Op1Input { a: u64::MAX - 1, mode: 0, _pad: 0 }]
    ));
    let launch = flt_batch(&[(8, 9)]);
    assert!(matches!(
        &launch.payload,
        Payload::Op2(v) if v[..] == [Op2Input { a: 8, b: 9, mode: 0, _pad: 0 }]
    ));
}

#[test]
fn records_are_laid_out_in_words() {
    let launch = fsqrt_batch(&[(5, RoundingMode::Up), (7, RoundingMode::Zero)]);
    assert_eq!(launch.payload.words(), vec![5, 2, 7, 3]);
    let launch = fadd_batch(&[(1, 2, RoundingMode::Down), (3, 4, RoundingMode::Up)]);
    assert_eq!(launch.payload.words(), vec![1, 2, 1, 3, 4, 2]);
    let launch = fma_batch(&[(1, 2, 3, RoundingMode::Zero)]);
    assert_eq!(launch.payload.words(), vec![1, 2, 3, 3]);
    let padded = Payload::Op1(vec![Op1Input { a: 9, mode: 1, _pad: 2 }]);
    assert_eq!(padded.words(), vec![9, 0x2_0000_0001]);
    assert_eq!(fadd_chain(8, (11, 12)).payload.words(), vec![11, 12]);
    assert!(fsqrt_batch(&[]).payload.words().is_empty());
}

#[test]
fn words_are_read_back() {
    assert_eq!(i64_results(&[0, u64::MAX, 1 << 63, 5]), vec![0, -1, i64::MIN, 5]);
    assert_eq!(u32_results(&[0xFFFF_FFFF, 0x1_0000_0001]), vec![0xFFFF_FFFF, 1]);
    assert_eq!(bool_results(&[0, 1, 2]), vec![false, true, true]);
}

#[test]
fn grids_by_threads_and_width() {
    assert_eq!(launch_grid(0, 32), None);
    assert_eq!(launch_grid(5, 32), Some(Grid { out_bytes: 40, threads: 5, threadgroup: 5 }));
    assert_eq!(
        launch_grid(1000, 32),
        Some(Grid { out_bytes: 8000, threads: 1000, threadgroup: 32 })
    );
}

#[test]
fn chains_share_a_seed() {
    assert_eq!(CHAIN_OPS_PER_THREAD, 1024);
    let chains: [(fn(usize, (u64, u64)) -> Launch, &str); 16] = [
        (fadd_chain, "fadd"),
        (fsub_chain, "fsub"),
        (fmul_chain, "fmul"),
        (fdiv_chain, "fdiv"),
        (fsqrt_chain, "fsqrt"),
        (fma_chain, "fma"),
        (cvt_i64_to_f64_chain, "cvt_i64_to_f64"),
        (cvt_u64_to_f64_chain, "cvt_u64_to_f64"),
        (cvt_f64_to_i64_chain, "cvt_f64_to_i64"),
        (cvt_f32_to_f64_chain, "cvt_f32_to_f64"),
        (cvt_f64_to_f32_chain, "cvt_f64_to_f32"),
        (feq_chain, "feq"),
        (flt_chain, "flt"),
        (fle_chain, "fle"),
        (fgt_chain, "fgt"),
        (fge_chain, "fge"),
    ];
    for (chain, name) in chains {
        let launch = chain(64, (3, 4));
        assert_eq!(launch.kernel, format!("__softfloat64_{name}_chain"));
        assert_eq!(launch.threads, 64);
        assert!(matches!(launch.payload, Payload::Seed(3, 4)));
    }
}
