use softfp::float::formats::{F128, F16, F32, F64};
use softfp::math::generic::ceil::ceil_status;
use softfp::math::generic::ceil;
use softfp::support::env::Status;

/// Inputs, expected results and expected status, as bit patterns of f16.
fn ceil_cases_f16() -> Vec<(u16, u16, Status)> {
    vec![
        (0x0, 0x0, Status::OK), // 0.0 -> 0.0
        (0x8000, 0x8000, Status::OK), // -0.0 -> -0.0
        (0x3c00, 0x3c00, Status::OK), // 1.0 -> 1.0
        (0xbc00, 0xbc00, Status::OK), // -1.0 -> -1.0
        (0x7c00, 0x7c00, Status::OK), // inf -> inf
        (0xfc00, 0xfc00, Status::OK), // -inf -> -inf
        (0x2e66, 0x3c00, Status::INEXACT), // 0.1 -> 1.0
        (0xae66, 0x8000, Status::INEXACT), // -0.1 -> -0.0
        (0x3800, 0x3c00, Status::INEXACT), // 0.5 -> 1.0
        (0xb800, 0x8000, Status::INEXACT), // -0.5 -> -0.0
        (0x3b33, 0x3c00, Status::INEXACT), // 0.9 -> 1.0
        (0xbb33, 0x8000, Status::INEXACT), // -0.9 -> -0.0
        (0x3c66, 0x4000, Status::INEXACT), // 1.1 -> 2.0
        (0xbc66, 0xbc00, Status::INEXACT), // -1.1 -> -1.0
        (0x3e00, 0x4000, Status::INEXACT), // 1.5 -> 2.0
        (0xbe00, 0xbc00, Status::INEXACT), // -1.5 -> -1.0
        (0x3f9a, 0x4000, Status::INEXACT), // 1.9 -> 2.0
        (0xbf9a, 0xbc00, Status::INEXACT), // -1.9 -> -1.0
        (0x6400, 0x6400, Status::OK), // 1024.0 -> 1024.0
        (0xe400, 0xe400, Status::OK), // -1024.0 -> -1024.0
    ]
}

#[test]
fn ceil_check_f16() {
    for (x, exp_res, exp_stat) in ceil_cases_f16() {
        let res = ceil_status(F16::from_bits(x));
        assert_eq!(res.val.to_bits(), exp_res, "{x:#x}");
        assert_eq!(res.status, exp_stat, "{x:#x}");
        assert_eq!(ceil(F16::from_bits(x)).to_bits(), exp_res, "{x:#x}");
    }
}

/// Inputs, expected results and expected status, as bit patterns of f32.
fn ceil_cases_f32() -> Vec<(u32, u32, Status)> {
    vec![
        (0x0, 0x0, Status::OK), // 0.0 -> 0.0
        (0x80000000, 0x80000000, Status::OK), // -0.0 -> -0.0
        (0x3f800000, 0x3f800000, Status::OK), // 1.0 -> 1.0
        (0xbf800000, 0xbf800000, Status::OK), // -1.0 -> -1.0
        (0x7f800000, 0x7f800000, Status::OK), // inf -> inf
        (0xff800000, 0xff800000, Status::OK), // -inf -> -inf
        (0x3dcccccd, 0x3f800000, Status::INEXACT), // 0.1 -> 1.0
        (0xbdcccccd, 0x80000000, Status::INEXACT), // -0.1 -> -0.0
        (0x3f000000, 0x3f800000, Status::INEXACT), // 0.5 -> 1.0
        (0xbf000000, 0x80000000, Status::INEXACT), // -0.5 -> -0.0
        (0x3f666666, 0x3f800000, Status::INEXACT), // 0.9 -> 1.0
        (0xbf666666, 0x80000000, Status::INEXACT), // -0.9 -> -0.0
        (0x3f8ccccd, 0x40000000, Status::INEXACT), // 1.1 -> 2.0
        (0xbf8ccccd, 0xbf800000, Status::INEXACT), // -1.1 -> -1.0
        (0x3fc00000, 0x40000000, Status::INEXACT), // 1.5 -> 2.0
        (0xbfc00000, 0xbf800000, Status::INEXACT), // -1.5 -> -1.0
        (0x3ff33333, 0x40000000, Status::INEXACT), // 1.9 -> 2.0
        (0xbff33333, 0xbf800000, Status::INEXACT), // -1.9 -> -1.0
        (0x4b000000, 0x4b000000, Status::OK), // 8388608.0 -> 8388608.0
        (0xcb000000, 0xcb000000, Status::OK), // -8388608.0 -> -8388608.0
    ]
}

#[test]
fn ceil_check_f32() {
    for (x, exp_res, exp_stat) in ceil_cases_f32() {
        let res = ceil_status(F32::from_bits(x));
        assert_eq!(res.val.to_bits(), exp_res, "{x:#x}");
        assert_eq!(res.status, exp_stat, "{x:#x}");
        assert_eq!(ceil(F32::from_bits(x)).to_bits(), exp_res, "{x:#x}");
    }
}

/// Inputs, expected results and expected status, as bit patterns of f64.
fn ceil_cases_f64() -> Vec<(u64, u64, Status)> {
    vec![
        (0x0, 0x0, Status::OK), // 0.0 -> 0.0
        (0x8000000000000000, 0x8000000000000000, Status::OK), // -0.0 -> -0.0
        (0x3ff0000000000000, 0x3ff0000000000000, Status::OK), // 1.0 -> 1.0
        (0xbff0000000000000, 0xbff0000000000000, Status::OK), // -1.0 -> -1.0
        (0x7ff0000000000000, 0x7ff0000000000000, Status::OK), // inf -> inf
        (0xfff0000000000000, 0xfff0000000000000, Status::OK), // -inf -> -inf
        (0x3fb999999999999a, 0x3ff0000000000000, Status::INEXACT), // 0.1 -> 1.0
        (0xbfb999999999999a, 0x8000000000000000, Status::INEXACT), // -0.1 -> -0.0
        (0x3fe0000000000000, 0x3ff0000000000000, Status::INEXACT), // 0.5 -> 1.0
        (0xbfe0000000000000, 0x8000000000000000, Status::INEXACT), // -0.5 -> -0.0
        (0x3feccccccccccccd, 0x3ff0000000000000, Status::INEXACT), // 0.9 -> 1.0
        (0xbfeccccccccccccd, 0x8000000000000000, Status::INEXACT), // -0.9 -> -0.0
        (0x3ff199999999999a, 0x4000000000000000, Status::INEXACT), // 1.1 -> 2.0
        (0xbff199999999999a, 0xbff0000000000000, Status::INEXACT), // -1.1 -> -1.0
        (0x3ff8000000000000, 0x4000000000000000, Status::INEXACT), // 1.5 -> 2.0
        (0xbff8000000000000, 0xbff0000000000000, Status::INEXACT), // -1.5 -> -1.0
        (0x3ffe666666666666, 0x4000000000000000, Status::INEXACT), // 1.9 -> 2.0
        (0xbffe666666666666, 0xbff0000000000000, Status::INEXACT), // -1.9 -> -1.0
        (0x4330000000000000, 0x4330000000000000, Status::OK), // 4503599627370496.0 -> 4503599627370496.0
        (0xc330000000000000, 0xc330000000000000, Status::OK), // -4503599627370496.0 -> -4503599627370496.0
    ]
}

#[test]
fn ceil_check_f64() {
    for (x, exp_res, exp_stat) in ceil_cases_f64() {
        let res = ceil_status(F64::from_bits(x));
        assert_eq!(res.val.to_bits(), exp_res, "{x:#x}");
        assert_eq!(res.status, exp_stat, "{x:#x}");
        assert_eq!(ceil(F64::from_bits(x)).to_bits(), exp_res, "{x:#x}");
    }
}

/// Inputs, expected results and expected status, as bit patterns of f128.
fn ceil_cases_f128() -> Vec<(u128, u128, Status)> {
    vec![
        (0x0, 0x0, Status::OK), // 0.0 -> 0.0
        (0x80000000000000000000000000000000, 0x80000000000000000000000000000000, Status::OK), // -0.0 -> -0.0
        (0x3fff0000000000000000000000000000, 0x3fff0000000000000000000000000000, Status::OK), // 1.0 -> 1.0
        (0xbfff0000000000000000000000000000, 0xbfff0000000000000000000000000000, Status::OK), // -1.0 -> -1.0
        (0x7fff0000000000000000000000000000, 0x7fff0000000000000000000000000000, Status::OK), // inf -> inf
        (0xffff0000000000000000000000000000, 0xffff0000000000000000000000000000, Status::OK), // -inf -> -inf
        (0x3ffb999999999999999999999999999a, 0x3fff0000000000000000000000000000, Status::INEXACT), // 0.1 -> 1.0
        (0xbffb999999999999999999999999999a, 0x80000000000000000000000000000000, Status::INEXACT), // -0.1 -> -0.0
        (0x3ffe0000000000000000000000000000, 0x3fff0000000000000000000000000000, Status::INEXACT), // 0.5 -> 1.0
        (0xbffe0000000000000000000000000000, 0x80000000000000000000000000000000, Status::INEXACT), // -0.5 -> -0.0
        (0x3ffecccccccccccccccccccccccccccd, 0x3fff0000000000000000000000000000, Status::INEXACT), // 0.9 -> 1.0
        (0xbffecccccccccccccccccccccccccccd, 0x80000000000000000000000000000000, Status::INEXACT), // -0.9 -> -0.0
        (0x3fff199999999999999999999999999a, 0x40000000000000000000000000000000, Status::INEXACT), // 1.1 -> 2.0
        (0xbfff199999999999999999999999999a, 0xbfff0000000000000000000000000000, Status::INEXACT), // -1.1 -> -1.0
        (0x3fff8000000000000000000000000000, 0x40000000000000000000000000000000, Status::INEXACT), // 1.5 -> 2.0
        (0xbfff8000000000000000000000000000, 0xbfff0000000000000000000000000000, Status::INEXACT), // -1.5 -> -1.0
        (0x3fffe666666666666666666666666666, 0x40000000000000000000000000000000, Status::INEXACT), // 1.9 -> 2.0
        (0xbfffe666666666666666666666666666, 0xbfff0000000000000000000000000000, Status::INEXACT), // -1.9 -> -1.0
        (0x406f0000000000000000000000000000, 0x406f0000000000000000000000000000, Status::OK), // 5.192296858534828e+33 -> 5.192296858534828e+33
        (0xc06f0000000000000000000000000000, 0xc06f0000000000000000000000000000, Status::OK), // -5.192296858534828e+33 -> -5.192296858534828e+33
    ]
}

#[test]
fn ceil_spec_tests_f128() {
    for (x, exp_res, exp_stat) in ceil_cases_f128() {
        let res = ceil_status(F128::from_bits(x));
        assert_eq!(res.val.to_bits(), exp_res, "{x:#x}");
        assert_eq!(res.status, exp_stat, "{x:#x}");
        assert_eq!(ceil(F128::from_bits(x)).to_bits(), exp_res, "{x:#x}");
    }
}

#[test]
fn ceil_agrees_with_std() {
    let mut s: u64 = 0x1234_5678_9abc_def1;
    for _ in 0..100_000 {
        s ^= s << 13;
        s ^= s >> 7;
        s ^= s << 17;
        let a = f32::from_bits((s >> 32) as u32);
        let b = f64::from_bits(s);
        if !a.is_nan() {
            assert_eq!(ceil(F32::from_bits(a.to_bits())).to_bits(), a.ceil().to_bits(), "{a:e}");
        }
        if !b.is_nan() {
            assert_eq!(ceil(F64::from_bits(b.to_bits())).to_bits(), b.ceil().to_bits(), "{b:e}");
        }
        // numbers of moderate size, where the fraction bits matter
        let c = (a % 1.0e6) as f64 * 1.5;
        if !c.is_nan() {
            let r = ceil_status(F64::from_bits(c.to_bits()));
            assert_eq!(r.val.to_bits(), c.ceil().to_bits(), "{c:e}");
            assert_eq!(r.status == Status::OK, c.ceil() == c, "{c:e}");
        }
    }
}
