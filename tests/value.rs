use wave_gen::{BitValue, Cause};

fn sample_i128() -> i128 {
    let a = i64::MAX.to_le_bytes();
    let mut rb = [0u8; 128 / 8];
    for (i, av) in a.iter().enumerate() {
        rb[i] = *av;
    }
    rb[9] = 0xff;
    i128::from_le_bytes(rb)
}

#[test]
fn test_shr() {
    let a = -0b1i64;
    println!("{:b}", !(a << 4));
    let b = !(-0b1i64 << 4) as u64;
    let c = 0b11_1111u64;
    println!("{:b}", c & b);
}

#[test]
fn test_op_code() {
    for i in 1..11 {
        let a: i8 = i;
        let b = !a + 1;
        println!("-{} => {:b}", a, b);
    }
}

#[test]
fn test_saturating() {
    println!("{}", 0u8.saturating_sub(1));
    println!("{}", 0b1u8.ilog2());
    println!("{}", 0b10u8.ilog2());
    println!("{}", 0b11u8.ilog2());
    println!("{}", 0b110u8.ilog2());
    println!("{}", 0b111u8.ilog2());
}

#[test]
fn test_to_bin() {
    let mut bv = BitValue::new(128);
    let b = sample_i128();
    println!("{:b}", b);
    bv.parse_from(&format!("0b{:b}", b)).unwrap();
    assert_eq!(format!("{:0>128b}", b), format!("{}", bv.to_bin()));
}

#[test]
fn test_to_bin_neg() {
    let mut bv = BitValue::new(128);
    let b = -sample_i128();
    println!("{:x}", b);
    bv.parse_from(&format!("0b{:b}", b)).unwrap();
    println!("{:0>128b}", b);
    println!("{}", bv.to_bin());
    assert_eq!(format!("{:0>128b}", b), format!("{}", bv.to_bin()));
}

#[test]
fn test_to_oct() {
    let mut bv = BitValue::new(128);
    let b = sample_i128();
    println!("{:o}", b);
    match bv.parse_from(&format!("0o{:o}vv", b)) {
        Ok(_) => {}
        Err(s) => {
            println!("Report {:?}", s);
            return;
        }
    };
    assert_eq!(format!("{:0>44o}", b), format!("{}", bv.to_oct()));
}

#[test]
fn test_to_hex() {
    let mut bv = BitValue::new(128);
    let b = sample_i128();
    println!("{:o}", b);
    bv.parse_from(&format!("0x{:x}", b)).unwrap();
    assert_eq!(format!("{:0>32x}", b), format!("{}", bv.to_hex()));
}

// 2^128 - 1 has 39 decimal digits: a 128-bit value prints with 39.
#[test]
fn test_to_dec() {
    let mut bv = BitValue::new(128);
    let b = sample_i128();
    println!("{}", b);
    bv.parse_from(&format!("{}", b)).unwrap();
    println!("{:0>39}", b);
    println!("{}", bv.to_dec(true));
    assert_eq!(format!("{:0>39}", b), format!("{}", bv.to_dec(true)));
}

#[test]
fn test_to_f64() {
    let mut bv = BitValue::new(128);
    let b = sample_i128();
    println!("{}", b);
    bv.parse_from(&format!("{}", b)).unwrap();
    println!("{:0>39}", b);
    println!("{}", bv.to_dec(true).parse::<f64>().unwrap());
    let a = i128::MAX;
    bv.set_size(BitValue::BITS).unwrap();
    bv.parse_from(&format!("0x{:x}{:x}", a, a)).unwrap();
    println!("{}", bv.to_dec(true).parse::<f64>().unwrap());
}

#[test]
fn too_wide_binary_is_refused_with_a_budget_finding() {
    let mut bv = BitValue::new(2);
    let err = bv.parse_from("0b101").unwrap_err();
    assert_eq!(err.len(), 1);
    assert_eq!(err[0].cause, Cause::TooLong);
    assert_eq!((err[0].start, err[0].end), (2, 5));
    assert_eq!(bv.to_bin(), "00");
}

#[test]
fn hex_ff_fits_eight_bits() {
    let mut bv = BitValue::new(8);
    bv.parse_from("0xFF").unwrap();
    assert_eq!(bv.to_hex(), "ff");
    assert_eq!(bv.to_bin(), "11111111");
    assert_eq!(bv.to_oct(), "377");
    assert_eq!(bv.to_dec(false), "255");
}

#[test]
fn print_then_read_round_trips_in_every_base() {
    let widths = [1usize, 3, 7, 8, 63, 64, 65, 100, 128, 200, 511, 512];
    for &w in widths.iter() {
        let mut v = BitValue::new(w);
        // all ones at this width
        v.parse_from(&format!("0b{}", "1".repeat(w))).unwrap();
        let texts = [
            format!("0b{}", v.to_bin()),
            format!("0o{}", v.to_oct()),
            v.to_dec(false),
            format!("0x{}", v.to_hex()),
        ];
        for t in texts.iter() {
            let mut back = BitValue::new(w);
            back.parse_from(t).unwrap();
            assert_eq!(back.data(), v.data(), "width {} text {}", w, t);
        }
    }
}

#[test]
fn negative_decimal_prints_with_minus_and_padding() {
    let mut v = BitValue::new(16);
    v.parse_from("-1234").unwrap();
    assert!(v.negative());
    assert_eq!(v.to_dec(true), "-01234");
    assert_eq!(v.to_dec(false), "01234");
    assert_eq!(v.to_hex(), "04d2");
}

#[test]
fn set_size_same_width_changes_nothing_and_shrink_is_lossy() {
    let mut v = BitValue::new(16);
    v.parse_from("0xabcd").unwrap();
    v.set_size(16).unwrap();
    assert_eq!(v.to_hex(), "abcd");
    v.set_size(8).unwrap();
    v.set_size(16).unwrap();
    assert_eq!(v.to_hex(), "00cd");
    assert_eq!(v.bit_width(), 16);
    assert!(v.set_size(0).is_err());
    assert!(v.set_size(513).is_err());
    assert_eq!(v.to_hex(), "00cd");
}

#[test]
fn findings_for_each_bad_chunk() {
    let mut v = BitValue::new(512);
    // two chunks of 16 hex digits, each holding a bad digit
    let text = format!("0x{}g{}", "1".repeat(15), "2".repeat(15) + "h");
    let err = v.parse_from(&text).unwrap_err();
    assert_eq!(err.len(), 2);
    assert!(err.iter().all(|d| d.cause == Cause::InvalidDigit));
    assert_eq!((err[0].start, err[0].end), (2, 18));
    assert_eq!((err[1].start, err[1].end), (18, 34));
}

#[test]
fn empty_text_and_unknown_prefix_are_refused() {
    let mut v = BitValue::new(8);
    let e = v.parse_from("").unwrap_err();
    assert_eq!(e[0].cause, Cause::Empty);
    let e = v.parse_from("-0q12").unwrap_err();
    assert_eq!(e.len(), 1);
    assert_eq!(e[0].cause, Cause::BadPrefix);
    assert_eq!((e[0].start, e[0].end), (2, 3));
}

#[test]
fn bit_operations_touch_bit_zero() {
    let mut v = BitValue::new(1);
    assert!(!v.bool());
    v.neg_bool();
    assert!(v.bool());
    v.set_bool(false);
    assert!(!v.bool());
    let mut w = BitValue::new(8);
    w.parse_from("0x80").unwrap();
    w.set_bool(true);
    assert_eq!(w.to_hex(), "81");
    w.set_zero();
    assert_eq!(w.to_hex(), "00");
    assert_eq!(w.data()[0], 0);
}

#[test]
fn signed_order_of_values() {
    let mut a = BitValue::new(8);
    let mut b = BitValue::new(8);
    a.parse_from("-5").unwrap();
    b.parse_from("3").unwrap();
    assert!(a.num_le(&b, true));
    assert!(!a.num_le(&b, false));
}

#[test]
fn findings_point_at_byte_ranges() {
    let mut v = BitValue::new(8);
    let err = v.parse_from("0x1é").unwrap_err();
    assert_eq!(err.len(), 1);
    assert_eq!(err[0].cause, Cause::InvalidDigit);
    assert_eq!((err[0].start, err[0].end), (2, 5));
}
