use neuro_arg::video::{
    candles_frame, candles_frames, cycle_sums, frame_file_name, parse_patterns, pattern_search,
    pick_rows, why_candles_frame, xor_into, PatternRun,
};

fn run(start: usize, end: usize, step: usize, diff: i32, conf: i32, len: i32) -> PatternRun {
    PatternRun { start, end, step, diff, conf, len }
}

#[test]
fn pattern_search_test() {
    let mut data = vec![0i32; 40];
    for k in 0..12 {
        data[1 + 3 * k] = 5 + 2 * k as i32;
    }
    data[2] = 7;
    data[30] = 9;
    assert_eq!(pattern_search(&data), vec![run(1, 34, 3, 2, 10, 11)]);

    let mut d2 = vec![0i32; 60];
    for k in 0..15 {
        d2[2 + 4 * k] = 100 - 3 * k as i32;
    }
    for k in 0..6 {
        d2[5 + 7 * k] = if k != 3 { 40 + 10 * k as i32 } else { 0 };
    }
    d2[0] = 1;
    assert_eq!(
        pattern_search(&d2),
        vec![run(2, 26, 4, -3, 4, 4), run(30, 54, 4, -3, 6, 6), run(6, 46, 8, -6, 5, 5)]
    );
    assert_eq!(pattern_search(&[]), vec![]);
}

#[test]
fn parse_patterns_test() {
    assert_eq!(parse_patterns(b"3 5\n0 1\n\n7 -2\n"), Some(vec![1, 0, 0, 5, 0, 0, 0, -2]));
    assert_eq!(parse_patterns(b"0 4\n0 6"), Some(vec![6]));
    assert_eq!(parse_patterns(b"3 5\nno space\n"), None);
    assert_eq!(parse_patterns(b"3 x\n"), None);
    assert_eq!(parse_patterns(b"5 1\n2 3\n"), None);
    assert_eq!(parse_patterns(b"\n\n"), None);
    assert_eq!(parse_patterns(b"-1 3\n"), None);
}

#[test]
fn frame_rows_test() {
    // four rows of two bytes
    let frame = [1u8, 2, 3, 4, 5, 6, 7, 8];
    assert_eq!(pick_rows(&frame, 2, 4, 2, 0), vec![1, 2, 5, 6]);
    assert_eq!(pick_rows(&frame, 2, 4, 2, 1), vec![3, 4, 7, 8]);
    assert_eq!(pick_rows(&frame, 2, 4, 2, 3), vec![7, 8, 0, 0]);
    assert_eq!(pick_rows(&frame, 2, 4, 3, 0), vec![1, 2]);
    // rows 2 and 3 differ from rows 0 and 1
    assert_eq!(why_candles_frame(&frame, 2, 4, 2), vec![0, 0, 0, 0, 1 ^ 5, 2 ^ 6, 3 ^ 7, 4 ^ 8]);
    assert_eq!(why_candles_frame(&frame, 2, 4, 1), vec![0, 0, 1 ^ 3, 2 ^ 4, 3 ^ 5, 4 ^ 6, 5 ^ 7, 6 ^ 8]);
    assert_eq!(why_candles_frame(&frame, 2, 4, 3), vec![0; 8]);
    let mut acc = vec![1u8, 2, 3];
    xor_into(&mut acc, &[3, 3]);
    assert_eq!(acc, vec![2, 1, 3]);
}

#[test]
fn cycle_sums_test() {
    let mut frame = vec![];
    for r in 0..510u32 {
        frame.push((r % 7) as u8);
        frame.push(((r * 3) % 11) as u8);
    }
    let sums = cycle_sums(&frame, 2, 510);
    assert_eq!(sums.len(), 255);
    assert_eq!(&sums[..5], &[5668, 3442, 1849, 1107, 1240]);
    assert_eq!(sums[100], 56);
    assert_eq!(sums[254], 13);
    assert_eq!(cycle_sums(&[], 3, 0), vec![0; 255]);
}

#[test]
fn candles_frames_test() {
    assert_eq!(frame_file_name("0042", 7), "0042_007.png");
    assert_eq!(frame_file_name("x", 1234), "x_1234.png");
    assert_eq!(frame_file_name("", 0), "_000.png");
    // one picture: the frame itself at its own size
    let frame: Vec<u8> = (0..24u8).collect();
    assert_eq!(candles_frame(&frame, 2, 4, 1, 0), frame);
    // two pictures of two rows each, stretched back to four rows
    let frames = candles_frames(&frame, 2, 4, "f", 2);
    assert_eq!(frames.len(), 2);
    assert_eq!(frames[0].0, "f_000.png");
    assert_eq!(frames[1].0, "f_001.png");
    assert_eq!(frames[0].1.len(), 24);
    assert_eq!(&frames[0].1[..6], &frame[..6]);
    assert_eq!(&frames[1].1[..6], &frame[6..12]);
}
