use neuro_arg::numbers::{
    add, append_digits, divide_by, flip_digits, multiply, prepend_digits, replace_digit,
    subtract_by, NumOp,
};
use num::BigInt;

fn big(x: i32) -> BigInt {
    BigInt::from(x)
}

#[test]
fn numbers_test() {
    for x in 1..=100 {
        for y in 0..=100 {
            assert_eq!(
                prepend_digits(big(x)).apply(big(y)).unwrap().to_string(),
                x.to_string() + &y.to_string()
            );
            assert_eq!(
                append_digits(big(y)).apply(big(x)).unwrap().to_string(),
                x.to_string() + &y.to_string()
            );
            assert_eq!(multiply(big(x)).apply(big(y)).unwrap(), big(y * x));
            assert_eq!(divide_by(big(x)).apply(big(y)).unwrap(), big(y / x));
            assert_eq!(add(big(x)).apply(big(y)).unwrap(), big(y + x));
            assert_eq!(subtract_by(big(x)).apply(big(y)).unwrap(), big(y - x));
        }
    }
    assert_eq!(flip_digits().apply(big(12345)).unwrap(), big(54321));
    assert_eq!(replace_digit(1, 2).apply(big(12345)).unwrap(), big(22345));
}
