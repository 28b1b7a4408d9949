use neuro_arg::bytes::{crazy, fuzzy_replace, malbolge, Cipher, POW3};

#[test]
fn bytes_test() {
    assert_eq!(
        crazy(
            POW3[6] + POW3[5] + POW3[4] + 2 * POW3[3] + 2 * POW3[2] + 2 * POW3[1],
            POW3[8] + 2 * POW3[7] + POW3[5] + 2 * POW3[4] + POW3[2] + 2 * POW3[1]
        ),
        POW3[9] + POW3[6] + 2 * POW3[4] + 2 * POW3[3] + 2 * POW3[2] + POW3[1] + POW3[0],
    );
    assert_eq!(malbolge().process(b"(=<`#9]~6ZY327Uv4-QsqpMn&+Ij\"'E%e{Ab~w=_:]Kw%o44Uqp0/Q?xNvL:`H%c#DD2^WV>gY;dts76qKJImZkj").unwrap(), b"Hello, world.");
    assert_eq!(
        fuzzy_replace(b"12345", b"abc", true).process(b"b42315").unwrap(),
        b"babc"
    );
}
