use neuro_arg::images::{analyze_line, shift_step, Rect};

#[test]
fn images_test() {
    let x = Rect { x: -192, w: 256 };
    // rect is an image starts at -192 ends at 64
    // if i want to place a pixel at 255 it should return 63
    assert_eq!(x.map(255), Some(63));
    assert_eq!(x.map(192), Some(0));
    assert_eq!(x.map(0), None);
    assert_eq!(x.map(256), None);
    let line = vec![0, 0, 0, 119, 120, 121, 255, 255, 255];
    let sampler = analyze_line(&line);
    assert_eq!(sampler.x2, 6);
    assert_eq!(sampler.x1, 3);

    let mut w = [0, 1, 2, 3, 4, 5, 6, 7, 8];
    let mut buf = Vec::with_capacity(w.len());
    shift_step(&mut w, 3, 0, 2, &mut buf);
    assert_eq!(w, [3, 1, 2, 6, 4, 5, 0, 7, 8]);
    shift_step(&mut w, 3, 1, -2, &mut buf);
    assert_eq!(w, [3, 7, 2, 6, 1, 5, 0, 4, 8]);
    shift_step(&mut w, 3, 2, 1, &mut buf);
    assert_eq!(w, [3, 7, 8, 6, 1, 2, 0, 4, 5]);
}
