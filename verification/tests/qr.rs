use neuro_arg::qr::code::{qr_image, EMPTY, QR_SIZE};
use neuro_arg::qr::{bits, EcLevel, Mask, Mode};

#[test]
fn qr_image_test() {
    let expected = [
        "#######..#.##.#######",
        "#.....#.##.#..#.....#",
        "#.###.#.##..#.#.###.#",
        "#.###.#..#.#..#.###.#",
        "#.###.#.#...#.#.###.#",
        "#.....#.#..##.#.....#",
        "#######.#.#.#.#######",
        "........#####........",
        "##.#..##.##...###.##.",
        "??????.????..????????",
        "??????#????.#???.???#",
        "??????.????#.?#???.??",
        "??????#????.#????????",
        "........#??#.????????",
        "#######.#??..???#???.",
        "#.....#..??##?.???..#",
        "#.###.#..??#.??????#.",
        "#.###.#.#??..??????##",
        "#.###.#..??.#???#??.#",
        "#.....#.#?????.???...",
        "#######.#??????????#.",
    ];
    let img = qr_image(b"aaaaaaaaaaa").unwrap();
    assert_eq!(img.len(), (QR_SIZE * QR_SIZE) as usize);
    for (y, row) in expected.iter().enumerate() {
        for (x, c) in row.chars().enumerate() {
            let v = match c {
                '#' => 0,
                '.' => 255,
                _ => EMPTY,
            };
            assert_eq!(img[y * 21 + x], v, "module ({x}, {y})");
        }
    }
}

#[test]
fn qr_fields_test() {
    assert_eq!(bits(0b1011_0110, 8), vec![true, false, true, true, false, true, true, false]);
    assert_eq!(bits(5, 3), vec![true, false, true]);
    assert_eq!(Mode::Byte.bits(), [false, true, false, false]);
    assert_eq!(Mask::M7.bits(), [false, true, false]);
    assert_eq!(EcLevel::L.bits(), [true, true]);
    assert!(Mask::M0.flip(1, 1));
    assert!(!Mask::M0.flip(1, 2));
    assert!(Mask::M7.flip(0, 0));
    assert!(!Mask::M7.flip(1, 0));
}
