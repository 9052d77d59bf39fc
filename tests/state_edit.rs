#[test]
fn test_f64_max() {
    println!("f64 max: {:e}", f64::MAX);
}

#[test]
fn test_u64_neg() {
    let mut a = 1u64;
    a = !a & 0b1;
    println!("{}", a);
    a = !a & 0b1;
    println!("{}", a);
}
