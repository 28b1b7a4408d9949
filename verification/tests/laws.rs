use neuro_arg::bytes::{malbolge, Cipher};
use neuro_arg::images::column_value;
use neuro_arg::numbers::{flip_digits, replace_digit, NumOp};
use neuro_arg::qr::Mask;
use num::BigInt;

const HELLO: &[u8] = b"(=<`#9]~6ZY327Uv4-QsqpMn&+Ij\"'E%e{Ab~w=_:]Kw%o44Uqp0/Q?xNvL:`H%c#DD2^WV>gY;dts76qKJImZkj";

#[test]
fn malbolge_whitespace_test() {
    let mut spaced = Vec::new();
    for (i, b) in HELLO.iter().enumerate() {
        spaced.push(*b);
        if i % 7 == 3 {
            spaced.extend_from_slice(b" \t\n\r\x0c");
        }
    }
    assert_eq!(malbolge().process(&spaced), malbolge().process(HELLO));
    assert_eq!(malbolge().process(&spaced).unwrap(), b"Hello, world.");
}

#[test]
fn flip_laws_test() {
    let b = |x: i64| BigInt::from(x);
    assert_eq!(flip_digits().apply(b(120)).unwrap(), b(21));
    assert_eq!(flip_digits().apply(b(0)).unwrap(), b(0));
    let once = flip_digits().apply(b(9081726354)).unwrap();
    assert_eq!(once, b(4536271809));
    assert_eq!(flip_digits().apply(once).unwrap(), b(9081726354));
}

#[test]
fn replace_laws_test() {
    let b = |x: i64| BigInt::from(x);
    assert_eq!(replace_digit(1, 2).apply(b(1231)).unwrap(), b(2232));
    assert_eq!(replace_digit(0, 7).apply(b(0)).unwrap(), b(7));
    assert_eq!(replace_digit(3, 0).apply(b(3393)).unwrap(), b(90));
    assert_eq!(replace_digit(5, 9).apply(b(1234)).unwrap(), b(1234));
}

#[test]
fn mask_period_test() {
    let masks = [Mask::M0, Mask::M1, Mask::M2, Mask::M3, Mask::M4, Mask::M5, Mask::M6, Mask::M7];
    for m in masks {
        for c in 0..20u32 {
            for r in 0..20u32 {
                assert_eq!(m.flip(c + 12, r), m.flip(c, r));
                assert_eq!(m.flip(c, r + 12), m.flip(c, r));
            }
        }
    }
    for m in [Mask::M0, Mask::M3, Mask::M5, Mask::M6, Mask::M7] {
        for c in 0..20u32 {
            for r in 0..20u32 {
                assert_eq!(m.flip(c, r), m.flip(r, c));
            }
        }
    }
    assert_ne!(Mask::M1.flip(0, 1), Mask::M1.flip(1, 0));
}

#[test]
fn column_value_test() {
    // (10 + 20) / 2 + 255 = 270, over 510 / 255 = 2
    assert_eq!(column_value(10, 20, 255), 135);
    // truncation toward zero: (-3) / 2 = -1
    assert_eq!(column_value(-1, -2, 255), 127);
    assert_eq!(column_value(-600, -600, 255), 0);
    assert_eq!(column_value(600, 600, 255), 255);
    // a zero divisor
    assert_eq!(column_value(1, 1, 100), 255);
    assert_eq!(column_value(-200, -200, 100), 0);
    // the same as the floating-point computation
    for x1 in -300..300 {
        for x2 in [-250, -7, 0, 3, 199] {
            let w: u32 = 300;
            let f = ((x1 + x2) / 2 + w as i32) as f64 / (w * 2 / 255) as f64;
            assert_eq!(column_value(x1, x2, w), (f as i64).clamp(0, 255) as u8);
        }
    }
}
