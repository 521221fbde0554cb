use parbench::text::{push_decimal, push_hex16};

#[test]
fn decimal_rendering() {
    for n in [0u64, 7, 10, 99, 100, 65536, u64::MAX] {
        let mut s = String::from("n=");
        push_decimal(&mut s, n);
        assert_eq!(s, format!("n={}", n));
    }
}

#[test]
fn hexadecimal_rendering() {
    for v in [0u64, 1, 0xabc, 0xdead_beef_0000_0001, u64::MAX] {
        let mut s = String::new();
        push_hex16(&mut s, v);
        assert_eq!(s, format!("{:016x}", v));
    }
}
