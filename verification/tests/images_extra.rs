use neuro_arg::images::reassemble::{lines_fit, meaning_of_life_reassemble_v2};
use neuro_arg::images::{edge_marks, mark_rating, meaning_of_life_reassemble, split_img, split_row_score};

fn px(r: u64, c: u64) -> u8 {
    ((r * 131 + c * 7 + (c / 97) * 13 + ((c * c) % 17) * 9) % 256) as u8
}

#[test]
fn reassemble_test() {
    let mut rows: Vec<Vec<u8>> = (0..4u64).map(|r| (0..3700u64).map(|c| px(r, c)).collect()).collect();
    let ofs = meaning_of_life_reassemble(&mut rows);
    assert_eq!(ofs, vec![-680, -340, -680, -340]);
    let total: u64 = rows.iter().flatten().map(|x| *x as u64).sum();
    assert_eq!(total, 1672370);
    assert_eq!(rows[0][0], 12);
    assert_eq!(rows[1][100], 0);
    assert_eq!(rows[2][3000], 246);
    assert_eq!(rows[3][3699], 0);
    assert_eq!(rows[1][3275], 47);
    let mut chk: u64 = 0;
    for row in &rows {
        for b in row {
            chk = (chk * 31 + *b as u64) % 1000000007;
        }
    }
    assert_eq!(chk, 605697984);
}

#[test]
fn reassemble_v2_test() {
    let mut rows: Vec<Vec<u8>> = (0..3u32).map(|r| (0..800u32).map(|c| ((c * 5 + r) % 0x89) as u8).collect()).collect();
    rows[0][790] = 0x90;
    rows[1][500] = 0xff;
    rows[2][799] = 0x89;
    let mut dark: Vec<Vec<u8>> = vec![vec![1, 2, 3]];
    assert!(lines_fit(&rows));
    assert!(lines_fit(&dark));
    // a bright pixel at the right edge of a short line asks for a rotation by 690 + 88
    assert!(!lines_fit(&vec![vec![0, 0, 0x90]]));
    meaning_of_life_reassemble_v2(&mut rows);
    assert_eq!(&rows[0][..6], &[35, 40, 45, 50, 55, 60]);
    assert_eq!(&rows[1][..6], &[25, 30, 35, 40, 45, 50]);
    assert_eq!(&rows[2][..6], &[56, 61, 66, 71, 76, 81]);
    meaning_of_life_reassemble_v2(&mut dark);
    assert_eq!(dark, vec![vec![1, 2, 3]]);
}

#[test]
fn stripes_test() {
    let mut row = vec![0u8; 2000];
    // windows start at 1690..=1748; the byte 250 further is at 1940..=1998
    row[1690] = 0xc1;
    row[1940] = 2;
    row[1700] = 5;
    assert_eq!(split_row_score(&row), 1 - 100);
    assert_eq!(split_row_score(&row[..1941]), 0);
    let pixels = vec![0u8; 4 * 1302];
    let scores = split_img(&pixels, 4, 1302);
    assert_eq!(scores, vec![(1300, 0), (1301, 0)]);
    assert_eq!(split_img(&pixels, 4, 1302).len(), 2);
}

#[test]
fn edges_test() {
    let mut p = vec![100u8, 50, 70, 75, 10, 10, 9];
    edge_marks(&mut p, 3);
    // rows [100, 50, 70] and [75, 10, 10]; the last byte is outside both rows
    assert_eq!(p, vec![255, 0, 70, 255, 0, 10, 9]);
}

#[test]
fn mark_rating_test() {
    // a column of 7 rows, one pixel wide
    let mut img = vec![9u8; 7 * 3];
    mark_rating(&mut img, 1, 7, 0, 2);
    assert_eq!(
        img,
        vec![9, 9, 9, 9, 9, 9, 255, 0, 0, 9, 9, 9, 0, 255, 0, 9, 9, 9, 0, 0, 255]
    );
}
