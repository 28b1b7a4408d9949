//! Drawing a version 1 QR code (21 × 21 modules) in byte mode, with error
//! correction level L and mask pattern 7.
//!
//! The image is a row-major grid of luma values: 0 for a dark module, 255
//! for a light one, and 127 for a module that nothing was written to (its
//! alpha is 255 throughout). Every drawing step is a sequence of writes
//! applied in order; a write outside the grid, or one without a value,
//! changes nothing.
use vstd::prelude::*;
use crate::qr::{bit_of, bits, low_bits, EcLevel, Mask, Mode};

verus! {

/// Modules per side.
pub const QR_SIZE: u32 = 21;

/// The value of a module that nothing was written to.
pub const EMPTY: u8 = 127;

/// The capacity of the code in data bits.
pub const BIT_CAPACITY: usize = 152;

/// A module's luma value: dark or light.
pub open spec fn pix_value(dark: bool) -> u8 {
    if dark {
        0
    } else {
        255
    }
}

/// A module's luma value: dark or light.
pub fn pix(dark: bool) -> (r: u8)
    ensures
        r == pix_value(dark),
{
    if dark {
        0
    } else {
        255
    }
}

/// The grid before anything is drawn.
pub open spec fn blank() -> Seq<u8> {
    Seq::new(441, |i: int| EMPTY)
}

/// One write: column, row, and the value written, if any.
pub open spec fn put(img: Seq<u8>, w: (int, int, Option<u8>)) -> Seq<u8> {
    match w.2 {
        Some(v) => if 0 <= w.0 < 21 && 0 <= w.1 < 21 {
            img.update(w.1 * 21 + w.0, v)
        } else {
            img
        },
        None => img,
    }
}

/// The writes applied in order.
pub open spec fn paint(img: Seq<u8>, ws: Seq<(int, int, Option<u8>)>) -> Seq<u8>
    decreases ws.len(),
{
    if ws.len() == 0 {
        img
    } else {
        put(paint(img, ws.drop_last()), ws.last())
    }
}

/// The three finder patterns, centred on (3, 3), (3, 17) and (17, 3): each
/// covers the 9 × 9 square around its centre, dark where the distance from
/// the centre (the larger of the two offsets) is odd, and at the centre.
pub open spec fn finder_writes() -> Seq<(int, int, Option<u8>)> {
    Seq::new(
        243,
        |k: int|
            {
                let c = k / 81;
                let cx: int = if c == 2 {
                    17
                } else {
                    3
                };
                let cy: int = if c == 1 {
                    17
                } else {
                    3
                };
                let x = (k % 81) / 9 - 4;
                let y = k % 9 - 4;
                let ax = if x < 0 {
                    -x
                } else {
                    x
                };
                let ay = if y < 0 {
                    -y
                } else {
                    y
                };
                let d = if ax > ay {
                    ax
                } else {
                    ay
                };
                (cx + x, cy + y, Some(pix_value(d % 2 == 1 || (x == 0 && y == 0))))
            },
    )
}

/// The timing patterns: along column 6 and row 6, from 7 to 13, dark on
/// even positions.
pub open spec fn timing_writes() -> Seq<(int, int, Option<u8>)> {
    Seq::new(
        14,
        |k: int|
            {
                let c = 7 + k / 2;
                if k % 2 == 0 {
                    (6, c, Some(pix_value(c % 2 == 0)))
                } else {
                    (c, 6, Some(pix_value(c % 2 == 0)))
                }
            },
    )
}

/// The fifteen format bits: the level, the mask, then a fixed tail.
pub open spec fn format_bits() -> Seq<bool> {
    low_bits(EcLevel::L.spec_code(), 2) + low_bits(Mask::M7.spec_code(), 3) + seq![
        false,
        true,
        false,
        true,
        true,
        true,
        false,
        true,
        true,
        false,
    ]
}

/// The format bits, each written twice (along row 8 and along column 8),
/// then the dark module at (8, 13).
pub open spec fn format_writes() -> Seq<(int, int, Option<u8>)> {
    Seq::new(
        31,
        |k: int|
            {
                let i = k / 2;
                let pos = i + if i > 6 {
                    6int
                } else {
                    0int
                };
                if k == 30 {
                    (8, 13, Some(pix_value(true)))
                } else if k % 2 == 0 {
                    (
                        pos + if i == 6 {
                            1int
                        } else {
                            0int
                        },
                        8,
                        Some(pix_value(format_bits()[i])),
                    )
                } else {
                    (
                        8,
                        20 - pos + if 7 <= i <= 8 {
                            1int
                        } else {
                            0int
                        },
                        Some(pix_value(format_bits()[i])),
                    )
                }
            },
    )
}

/// The grid with every function pattern drawn.
pub open spec fn qr_frame() -> Seq<u8> {
    paint(paint(paint(blank(), finder_writes()), timing_writes()), format_writes())
}

/// `p` in front of a walk's positions, if the walk finished.
pub open spec fn prefixed(p: Seq<(u32, u32)>, r: Option<Seq<(u32, u32)>>) -> Option<Seq<(u32, u32)>> {
    match r {
        Some(q) => Some(p + q),
        None => None,
    }
}

/// The positions for the data, found by walking the columns from the
/// bottom right corner, upward and downward in turn. A module of `frame`
/// that is still empty gives itself and its left neighbour. At the end of a
/// column the walk moves two columns left if the column just walked gave a
/// position (`last` is the last column that did), else one. It stops when
/// it would move two columns left of column 0 or 1, or when it reaches the
/// top left corner. `None` when it would step left of column 0.
pub open spec fn walk(frame: Seq<u8>, x: u32, y: u32, up: bool, last: u32) -> Option<Seq<(u32, u32)>>
    decreases x * 21 + (if up {
        y as int
    } else {
        20 - y
    }),
{
    if !(x < 21 && y < 21) {
        None
    } else if !(x >= 1 || y > 0) {
        Some(seq![])
    } else {
        let empty = frame[y * 21 + x] == EMPTY;
        if empty && x < 1 {
            None
        } else {
            let here: Seq<(u32, u32)> = if empty {
                seq![(x, y), ((x - 1) as u32, y)]
            } else {
                seq![]
            };
            let last2 = if empty {
                x
            } else {
                last
            };
            let at_end = if up {
                y == 0
            } else {
                y == 20
            };
            if at_end {
                if last2 == x && x < 2 {
                    Some(here)
                } else if last2 != x && x < 1 {
                    None
                } else {
                    let nx: u32 = if last2 == x {
                        (x - 2) as u32
                    } else {
                        (x - 1) as u32
                    };
                    prefixed(here, walk(frame, nx, y, !up, last2))
                }
            } else {
                let ny: u32 = if up {
                    (y - 1) as u32
                } else {
                    (y + 1) as u32
                };
                prefixed(here, walk(frame, x, ny, up, last2))
            }
        }
    }
}

/// The mode indicator and the length (modulo 256), as known bits.
pub open spec fn header_bits(n: nat) -> Seq<Option<bool>> {
    Seq::new(
        12,
        |k: int|
            if k < 4 {
                Some(low_bits(Mode::Byte.spec_code(), 4)[k])
            } else {
                Some(low_bits((n % 256) as u8, 8)[k - 4])
            },
    )
}

/// Eight bits per byte of text, of which only the most significant is
/// known; the other seven are left unwritten.
pub open spec fn char_bits(s: Seq<u8>) -> Seq<Option<bool>> {
    Seq::new(
        8 * s.len(),
        |k: int|
            if k % 8 == 0 {
                Some(bit_of(s[k / 8], 7))
            } else {
                None
            },
    )
}

/// How many pad bytes fill the capacity after `n` bytes of text.
pub open spec fn pad_count(n: nat) -> nat {
    if n < 17 {
        (17 - n) as nat
    } else {
        0
    }
}

/// The pad bytes 236 and 17 in turn, `c` of them.
pub open spec fn pad_bits(c: nat) -> Seq<Option<bool>> {
    Seq::new(
        8 * c,
        |k: int|
            Some(
                low_bits(
                    if (k / 8) % 2 == 0 {
                        236u8
                    } else {
                        17u8
                    },
                    8,
                )[k % 8],
            ),
    )
}

/// The data bits for the text `s`: the header, the text, four zero bits
/// that end the byte, and the pad bytes.
pub open spec fn qr_data_bits(s: Seq<u8>) -> Seq<Option<bool>> {
    header_bits(s.len()) + char_bits(s) + seq![Some(false), Some(false), Some(false), Some(false)]
        + pad_bits(pad_count(s.len()))
}

/// The data bits written at the walk's positions, as far as both go; a
/// known bit is written dark when it differs from the mask.
pub open spec fn data_writes(b: Seq<Option<bool>>, p: Seq<(u32, u32)>) -> Seq<(int, int, Option<u8>)> {
    let m = if b.len() < p.len() {
        b.len()
    } else {
        p.len()
    };
    Seq::new(
        m,
        |j: int|
            (
                p[j].0 as int,
                p[j].1 as int,
                match b[j] {
                    Some(v) => Some(pix_value(v != Mask::M7.spec_flip(p[j].0, p[j].1))),
                    None => None,
                },
            ),
    )
}

/// The QR code for the text `s`; `None` when the data walk fails.
pub open spec fn qr_spec(s: Seq<u8>) -> Option<Seq<u8>> {
    match walk(qr_frame(), 20, 20, true, 0) {
        Some(p) => Some(paint(qr_frame(), data_writes(qr_data_bits(s), p))),
        None => None,
    }
}

fn put_at(img: &mut Vec<u8>, x: u32, y: u32, v: u8)
    requires
        old(img)@.len() == 441,
        x < 21,
        y < 21,
    ensures
        final(img)@ == put(old(img)@, (x as int, y as int, Some(v))),
        final(img)@.len() == 441,
{
    let i = (y * 21 + x) as usize;
    img.set(i, v);
}

fn draw_finders(img: &mut Vec<u8>)
    requires
        old(img)@.len() == 441,
    ensures
        final(img)@ == paint(old(img)@, finder_writes()),
        final(img)@.len() == 441,
{
    let ghost start = img@;
    let mut k: i32 = 0;
    while k < 243
        invariant
            0 <= k <= 243,
            img@.len() == 441,
            img@ == paint(start, finder_writes().take(k as int)),
        decreases 243 - k,
    {
        let c = k / 81;
        let cx: i32 = if c == 2 {
            17
        } else {
            3
        };
        let cy: i32 = if c == 1 {
            17
        } else {
            3
        };
        let x = (k % 81) / 9 - 4;
        let y = k % 9 - 4;
        let ax = if x < 0 {
            -x
        } else {
            x
        };
        let ay = if y < 0 {
            -y
        } else {
            y
        };
        let d = if ax > ay {
            ax
        } else {
            ay
        };
        let v = pix(d % 2 == 1 || (x == 0 && y == 0));
        let px = cx + x;
        let py = cy + y;
        assert(finder_writes()[k as int] == (px as int, py as int, Some(v)));
        if 0 <= px && px < 21 && 0 <= py && py < 21 {
            put_at(img, px as u32, py as u32, v);
        }
        assert(finder_writes().take(k + 1).drop_last() =~= finder_writes().take(k as int));
        k = k + 1;
    }
    assert(finder_writes().take(243) =~= finder_writes());
}

fn draw_timing(img: &mut Vec<u8>)
    requires
        old(img)@.len() == 441,
    ensures
        final(img)@ == paint(old(img)@, timing_writes()),
        final(img)@.len() == 441,
{
    let ghost start = img@;
    let mut k: u32 = 0;
    while k < 14
        invariant
            k <= 14,
            img@.len() == 441,
            img@ == paint(start, timing_writes().take(k as int)),
        decreases 14 - k,
    {
        let c = 7 + k / 2;
        let v = pix(c % 2 == 0);
        if k % 2 == 0 {
            assert(timing_writes()[k as int] == (6int, c as int, Some(v)));
            put_at(img, 6, c, v);
        } else {
            assert(timing_writes()[k as int] == (c as int, 6int, Some(v)));
            put_at(img, c, 6, v);
        }
        assert(timing_writes().take(k + 1).drop_last() =~= timing_writes().take(k as int));
        k = k + 1;
    }
    assert(timing_writes().take(14) =~= timing_writes());
}

fn format_bit_vec() -> (r: Vec<bool>)
    ensures
        r@ == format_bits(),
{
    let mut r: Vec<bool> = Vec::new();
    let ec = EcLevel::L.bits();
    let mask = Mask::M7.bits();
    r.push(ec[0]);
    r.push(ec[1]);
    r.push(mask[0]);
    r.push(mask[1]);
    r.push(mask[2]);
    r.push(false);
    r.push(true);
    r.push(false);
    r.push(true);
    r.push(true);
    r.push(true);
    r.push(false);
    r.push(true);
    r.push(true);
    r.push(false);
    assert(r@ =~= format_bits());
    r
}

fn draw_format(img: &mut Vec<u8>)
    requires
        old(img)@.len() == 441,
    ensures
        final(img)@ == paint(old(img)@, format_writes()),
        final(img)@.len() == 441,
{
    let ghost start = img@;
    let e = format_bit_vec();
    let mut i: u32 = 0;
    while i < 15
        invariant
            i <= 15,
            e@ == format_bits(),
            img@.len() == 441,
            img@ == paint(start, format_writes().take(2 * i as int)),
        decreases 15 - i,
    {
        let pos = i + if i > 6 {
            6
        } else {
            0
        };
        let v = pix(e[i as usize]);
        let k = 2 * i;
        let x1 = pos + if i == 6 {
            1
        } else {
            0
        };
        assert(format_writes()[k as int] == (x1 as int, 8int, Some(v)));
        put_at(img, x1, 8, v);
        assert(format_writes().take(k + 1).drop_last() =~= format_writes().take(k as int));
        assert(img@ == paint(start, format_writes().take(k + 1)));
        let y2 = 20 - pos + if 7 <= i && i <= 8 {
            1
        } else {
            0
        };
        assert(format_writes()[k + 1] == (8int, y2 as int, Some(v)));
        put_at(img, 8, y2, v);
        assert(format_writes().take(k + 2).drop_last() =~= format_writes().take(k + 1));
        assert(img@ == paint(start, format_writes().take(k + 2)));
        i = i + 1;
    }
    let v = pix(true);
    put_at(img, 8, 13, v);
    assert(format_writes().take(31).drop_last() =~= format_writes().take(30));
    assert(format_writes().take(31) =~= format_writes());
}

/// The positions of the walk over `frame` (see `walk`).
fn qr_positions(frame: &Vec<u8>) -> (r: Option<Vec<(u32, u32)>>)
    requires
        frame@.len() == 441,
    ensures
        match r {
            Some(p) => walk(frame@, 20, 20, true, 0) == Some(p@),
            None => walk(frame@, 20, 20, true, 0) is None,
        },
{
    let mut x: u32 = 20;
    let mut y: u32 = 20;
    let mut up = true;
    let mut last: u32 = 0;
    let mut pos: Vec<(u32, u32)> = Vec::new();
    proof {
        match walk(frame@, 20, 20, true, 0) {
            Some(q) => assert(pos@ + q =~= q),
            None => {},
        }
    }
    while x >= 1 || y > 0
        invariant
            x < 21,
            y < 21,
            frame@.len() == 441,
            walk(frame@, 20, 20, true, 0) == prefixed(pos@, walk(frame@, x, y, up, last)),
        decreases x * 21 + (if up {
            y as int
        } else {
            20 - y
        }),
    {
        let ghost x0 = x;
        let ghost y0 = y;
        let ghost up0 = up;
        let ghost last0 = last;
        let ghost p0 = pos@;
        let empty = frame[(y * 21 + x) as usize] == EMPTY;
        if empty {
            if x < 1 {
                return None;
            }
            last = x;
            pos.push((x, y));
            pos.push((x - 1, y));
        }
        let ghost here = pos@.skip(p0.len() as int);
        assert(pos@ == p0 + here);
        if up {
            if y == 0 {
                if last == x {
                    if x < 2 {
                        assert(walk(frame@, x0, y0, up0, last0) == Some(here));
                        return Some(pos);
                    }
                    x = x - 2;
                } else {
                    if x < 1 {
                        return None;
                    }
                    x = x - 1;
                }
                up = false;
            } else {
                y = y - 1;
            }
        } else {
            if y == 20 {
                if last == x {
                    if x < 2 {
                        assert(walk(frame@, x0, y0, up0, last0) == Some(here));
                        return Some(pos);
                    }
                    x = x - 2;
                } else {
                    if x < 1 {
                        return None;
                    }
                    x = x - 1;
                }
                up = true;
            } else {
                y = y + 1;
            }
        }
        proof {
            assert(walk(frame@, x0, y0, up0, last0) == prefixed(here, walk(frame@, x, y, up, last)));
            match walk(frame@, x, y, up, last) {
                Some(q) => assert(p0 + (here + q) =~= pos@ + q),
                None => {},
            }
        }
    }
    proof {
        match walk(frame@, 20, 20, true, 0) {
            Some(q) => assert(pos@ + seq![] =~= pos@),
            None => {},
        }
    }
    Some(pos)
}

/// The data bits for the text `s` (see `qr_data_bits`).
fn data_bits(s: &[u8]) -> (r: Vec<Option<bool>>)
    requires
        8 * s@.len() + 160 <= usize::MAX,
    ensures
        r@ == qr_data_bits(s@),
{
    let n = s.len();
    let mut r: Vec<Option<bool>> = Vec::new();
    let mode = Mode::Byte.bits();
    let len_bits = bits((n % 256) as u8, 8);
    let ghost hb = header_bits(n as nat);
    let mut k: usize = 0;
    while k < 12
        invariant
            k <= 12,
            n == s@.len(),
            mode@ == low_bits(Mode::Byte.spec_code(), 4),
            len_bits@ == low_bits((n % 256) as u8, 8),
            hb == header_bits(n as nat),
            r@ == hb.take(k as int),
        decreases 12 - k,
    {
        if k < 4 {
            r.push(Some(mode[k]));
        } else {
            r.push(Some(len_bits[k - 4]));
        }
        assert(r@ =~= hb.take(k + 1));
        k = k + 1;
    }
    let ghost cb = char_bits(s@);
    let mut k: usize = 0;
    while k < 8 * n
        invariant
            k <= 8 * n,
            n == s@.len(),
            8 * n + 160 <= usize::MAX,
            hb == header_bits(n as nat),
            cb == char_bits(s@),
            r@ == hb + cb.take(k as int),
        decreases 8 * n - k,
    {
        if k % 8 == 0 {
            let b = bits(s[k / 8], 8);
            assert(b@[0] == bit_of(s@[(k / 8) as int], 7));
            r.push(Some(b[0]));
        } else {
            r.push(None);
        }
        assert(r@ =~= hb + cb.take(k + 1));
        k = k + 1;
    }
    assert(cb.take(8 * n as int) =~= cb);
    r.push(Some(false));
    r.push(Some(false));
    r.push(Some(false));
    r.push(Some(false));
    let ghost tail = seq![Some(false), Some(false), Some(false), Some(false)];
    assert(r@ =~= hb + cb + tail);
    let pads: usize = if n < 17 {
        17 - n
    } else {
        0
    };
    let ghost pb = pad_bits(pad_count(n as nat));
    let mut k: usize = 0;
    while k < 8 * pads
        invariant
            k <= 8 * pads,
            pads <= 17,
            pads == pad_count(n as nat),
            pb == pad_bits(pad_count(n as nat)),
            r@ == hb + cb + tail + pb.take(k as int),
        decreases 8 * pads - k,
    {
        let byte: u8 = if (k / 8) % 2 == 0 {
            236
        } else {
            17
        };
        let b = bits(byte, 8);
        r.push(Some(b[k % 8]));
        assert(r@ =~= hb + cb + tail + pb.take(k + 1));
        k = k + 1;
    }
    assert(pb.take(8 * pads as int) =~= pb);
    r
}

fn fill_data(img: &mut Vec<u8>, b: &Vec<Option<bool>>, p: &Vec<(u32, u32)>)
    requires
        old(img)@.len() == 441,
    ensures
        final(img)@ == paint(old(img)@, data_writes(b@, p@)),
        final(img)@.len() == 441,
{
    let ghost start = img@;
    let ghost dw = data_writes(b@, p@);
    let m = if b.len() < p.len() {
        b.len()
    } else {
        p.len()
    };
    let mut j: usize = 0;
    while j < m
        invariant
            j <= m,
            m == dw.len(),
            m <= b@.len(),
            m <= p@.len(),
            dw == data_writes(b@, p@),
            img@.len() == 441,
            img@ == paint(start, dw.take(j as int)),
        decreases m - j,
    {
        let (x, y) = p[j];
        if x < 21 && y < 21 {
            match b[j] {
                Some(v) => {
                    assert(y * x <= 441) by (nonlinear_arith)
                        requires
                            x < 21,
                            y < 21,
                    ;
                    let f = Mask::M7.flip(x, y);
                    put_at(img, x, y, pix(v != f));
                },
                None => {},
            }
        }
        assert(dw.take(j + 1).drop_last() =~= dw.take(j as int));
        j = j + 1;
    }
    assert(dw.take(m as int) =~= dw);
}

/// The QR code for the text `s` as luma values (see the module's notes);
/// `None` when the walk for the data positions fails.
pub fn qr_image(s: &[u8]) -> (r: Option<Vec<u8>>)
    requires
        8 * s@.len() + 160 <= usize::MAX,
    ensures
        match r {
            Some(img) => qr_spec(s@) == Some(img@),
            None => qr_spec(s@) is None,
        },
{
    let mut img: Vec<u8> = Vec::new();
    let mut i: usize = 0;
    while i < 441
        invariant
            i <= 441,
            img@ == blank().take(i as int),
        decreases 441 - i,
    {
        img.push(EMPTY);
        assert(img@ =~= blank().take(i + 1));
        i = i + 1;
    }
    assert(img@ =~= blank());
    draw_finders(&mut img);
    draw_timing(&mut img);
    draw_format(&mut img);
    assert(img@ == qr_frame());
    let p = match qr_positions(&img) {
        Some(p) => p,
        None => return None,
    };
    let b = data_bits(s);
    fill_data(&mut img, &b, &p);
    Some(img)
}

} // verus!
