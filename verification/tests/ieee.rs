use csv2sav::ieee::biased_opcode;

// The decision as double arithmetic makes it.
fn by_doubles(n: f64) -> Option<u8> {
    let shifted = n + 100.0;
    if shifted >= 1.0 && shifted <= 251.0 && shifted.fract() == 0.0 {
        Some(shifted as u8)
    } else {
        None
    }
}

fn agrees(n: f64) {
    assert_eq!(biased_opcode(n.to_bits()), by_doubles(n), "for {n:e} ({:#018x})", n.to_bits());
}

#[test]
fn whole_numbers_in_range_have_codes() {
    for n in -99..=151 {
        assert_eq!(biased_opcode((n as f64).to_bits()), Some((n + 100) as u8));
    }
}

#[test]
fn whole_numbers_out_of_range_have_none() {
    for n in [-100.0, -101.0, 152.0, 153.0, 1e9, -1e9, 512.0, -512.0, 511.0, -412.0] {
        assert_eq!(biased_opcode(f64::to_bits(n)), None);
    }
}

#[test]
fn fractions_have_none() {
    for n in [1.5, 0.1, -0.5, 99.999, 150.5, -98.5, 1e-3, 2.0f64.powi(-46)] {
        assert_eq!(biased_opcode(f64::to_bits(n)), None);
    }
}

#[test]
fn non_finite_have_none() {
    assert_eq!(biased_opcode(f64::NAN.to_bits()), None);
    assert_eq!(biased_opcode(f64::INFINITY.to_bits()), None);
    assert_eq!(biased_opcode(f64::NEG_INFINITY.to_bits()), None);
    assert_eq!(biased_opcode(0x7ff0_0000_0000_0001), None);
    assert_eq!(biased_opcode(0xfff8_0000_0000_0000), None);
}

#[test]
fn zeros_and_tiny_numbers_round_to_code_100() {
    assert_eq!(biased_opcode(0.0f64.to_bits()), Some(100));
    assert_eq!(biased_opcode((-0.0f64).to_bits()), Some(100));
    assert_eq!(biased_opcode(1e-20f64.to_bits()), Some(100));
    assert_eq!(biased_opcode(f64::MIN_POSITIVE.to_bits()), Some(100));
    assert_eq!(biased_opcode(5e-324f64.to_bits()), Some(100));
    assert_eq!(biased_opcode((-2.0f64.powi(-47)).to_bits()), Some(100));
    assert_eq!(biased_opcode(2.0f64.powi(-47).to_bits()), Some(100));
}

#[test]
fn agrees_with_double_addition_near_every_code() {
    for k in -101i32..=153 {
        let centre = k as f64;
        let mut up = centre;
        let mut down = centre;
        agrees(centre);
        for _ in 0..200 {
            up = f64::from_bits(if up >= 0.0 { up.to_bits() + 1 } else { up.to_bits() - 1 });
            if up == 0.0 {
                up = 0.0;
            }
            agrees(up);
            down = if down > 0.0 {
                f64::from_bits(down.to_bits() - 1)
            } else if down == 0.0 {
                -5e-324
            } else {
                f64::from_bits(down.to_bits() + 1)
            };
            agrees(down);
        }
    }
}

#[test]
fn agrees_with_double_addition_at_rounding_ties() {
    for k in 1i32..=251 {
        let target = k as f64;
        for e in 40..60 {
            let d = 2.0f64.powi(-e);
            for m in [1.0, 2.0, 3.0, 0.5, 1.5] {
                agrees(target - 100.0 + d * m);
                agrees(target - 100.0 - d * m);
            }
        }
    }
}

#[test]
fn agrees_with_double_addition_on_scattered_patterns() {
    let mut state: u64 = 0x9e37_79b9_7f4a_7c15;
    for _ in 0..200_000 {
        state ^= state << 13;
        state ^= state >> 7;
        state ^= state << 17;
        agrees(f64::from_bits(state));
        // the same fraction at exponents around the range of the codes
        let e = 960 + (state >> 40) % 90;
        let bits = (state & 0x800f_ffff_ffff_ffff) | (e << 52);
        agrees(f64::from_bits(bits));
    }
}
