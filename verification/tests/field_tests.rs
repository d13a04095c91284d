use novelpoly::field::{Additive, Multiplier};
use novelpoly::tables::{f256, f2e16};

#[test]
fn agreement_f2e16_with_f256() {
    let narrow = f256().unwrap();
    let wide = f2e16().unwrap();
    for i in 1..=255u16 {
        let i_f256 = Additive(i).to_multiplier(&narrow);
        let i_f2e16 = Additive(i).to_multiplier(&wide);
        for j in 0..=255u16 {
            let j_f256 = Additive(j).mul(i_f256, &narrow);
            let j_f2e16 = Additive(j).mul(i_f2e16, &wide);
            assert_eq!(j_f256.0, j_f2e16.0);
        }
    }
}

#[test]
fn cross_field_checker_accepts_the_two_fields() {
    let narrow = f256().unwrap();
    let wide = f2e16().unwrap();
    assert!(novelpoly::field::check_field_agreement(&narrow, &wide));
}

#[test]
fn exp_inverts_log_on_nonzero_elements() {
    let f = f2e16().unwrap();
    for a in 1..=65535u16 {
        assert_eq!(f.exp[f.log[a as usize] as usize], a);
    }
    let f8 = f256().unwrap();
    for a in 1..=255u16 {
        assert_eq!(f8.exp[f8.log[a as usize] as usize], a);
    }
}

#[test]
fn mul_commutes_across_representations() {
    let f = f2e16().unwrap();
    for (a, b) in [(0x1234u16, 7u16), (1, 0), (0xFFFF, 65534), (42, 65535), (513, 30000)] {
        let lhs = Additive(a).mul(Multiplier(b), &f);
        let b_additive = Additive(f.exp[b as usize]);
        let a_multiplier = Additive(a).to_multiplier(&f);
        let rhs = b_additive.mul(a_multiplier, &f);
        assert_eq!(lhs, rhs);
    }
}

#[test]
fn mul_by_log_and_back() {
    // a fixed multiplication and its inverse through the tables
    let f = f2e16().unwrap();
    let a = Additive(0x1234);
    let b = Additive(0x00FF).to_multiplier(&f);
    let ab = a.mul(b, &f);
    assert_eq!(ab.0, 0x0204);
    let back = ab.mul(Multiplier(65535 - b.0), &f);
    assert_eq!(back, a);
}

#[test]
fn walsh_impulse_spreads_evenly() {
    let mut data = vec![Multiplier(1), Multiplier(0), Multiplier(0), Multiplier(0)];
    novelpoly::field::walsh(&mut data, 4);
    assert_eq!(data, vec![Multiplier(1); 4]);
}

#[test]
fn walsh_twice_scales_by_size() {
    let original: Vec<u16> = vec![17, 0, 65535, 1234, 9999, 3, 65000, 42];
    let mut data: Vec<Multiplier> = original.iter().map(|&x| Multiplier(x)).collect();
    novelpoly::field::walsh(&mut data, 8);
    novelpoly::field::walsh(&mut data, 8);
    for (o, d) in original.iter().zip(data.iter()) {
        assert_eq!((*o as u64 * 8) % 65535, d.0 as u64 % 65535);
    }
}

#[test]
fn wide_conversions_are_lossless() {
    assert_eq!(Additive::from_wide(Additive(0xABCD).to_wide()), Additive(0xABCD));
    assert_eq!(Multiplier::from_wide(Multiplier(0x1234).to_wide()), Multiplier(0x1234));
}

#[test]
fn mul_assign_slice_multiplies_each_element() {
    let f = f2e16().unwrap();
    let mut v = vec![Additive(1), Additive(0), Additive(0x1234)];
    let m = Additive(0x00FF).to_multiplier(&f);
    Additive::mul_assign_slice(&mut v, m, &f);
    assert_eq!(v[0], Additive(1).mul(m, &f));
    assert_eq!(v[1], Additive(0));
    assert_eq!(v[2], Additive(0x1234).mul(m, &f));
}

#[test]
fn derivative_factors_follow_their_recurrence() {
    let f = f2e16().unwrap();
    assert_eq!(f.b[0], 0);
    for e in 0..15u32 {
        let block = 1usize << e;
        for j in 0..block {
            let expected = ((f.b[j] as u64 + f.b[block] as u64) % 65535) as u16;
            assert_eq!(f.b[j + block], expected);
        }
    }
}

#[test]
fn log_walsh_is_the_walsh_of_the_logs() {
    let f = f2e16().unwrap();
    let mut expected: Vec<Multiplier> = f.log.iter().map(|&x| Multiplier(x)).collect();
    expected[0] = Multiplier(0);
    novelpoly::field::walsh(&mut expected, 65536);
    for (lw, e) in f.log_walsh.iter().zip(expected.iter()) {
        assert_eq!(*lw, e.0);
    }
}

#[test]
fn multiplication_is_linear_over_xor_in_the_small_field() {
    let f = f256().unwrap();
    for m in 0..=255u16 {
        assert!(novelpoly::field::check_mul_linearity(&f, Multiplier(m)));
    }
}

#[test]
fn table_construction_is_deterministic() {
    let f1 = f2e16().unwrap();
    let f2 = f2e16().unwrap();
    assert_eq!(f1.log, f2.log);
    assert_eq!(f1.exp, f2.exp);
    assert_eq!(f1.skew, f2.skew);
    assert_eq!(f1.b, f2.b);
    assert_eq!(f1.log_walsh, f2.log_walsh);
}
