use vstd::prelude::*;

use crate::image::{chan, pix, Image};

verus! {

/// One unit in the fixed-point scale the blur works in.
pub const SCALE: u64 = 65536;

/// Truncating fixed-point power: SCALE stands for 1, so this is
/// decay^n at scale SCALE, rounding down at every multiplication.
pub open spec fn pow_q(decay: int, n: nat) -> int
    decreases n,
{
    if n == 0 {
        65536
    } else {
        pow_q(decay, (n - 1) as nat) * decay / 65536
    }
}

/// Sum of the first `t` entries of a weight sequence.
pub open spec fn sum_to(s: Seq<u64>, t: int) -> int
    decreases t,
{
    if t <= 0 {
        0
    } else {
        sum_to(s, t - 1) + s[t - 1]
    }
}

pub proof fn lemma_sum_to_mono(s: Seq<u64>, t1: int, t2: int)
    requires
        t1 <= t2,
    ensures
        sum_to(s, t1) <= sum_to(s, t2),
    decreases t2 - t1,
{
    if t1 < t2 {
        lemma_sum_to_mono(s, t1, t2 - 1);
    }
}

/// Squared distance of index `i` from the centre index `mid`.
pub open spec fn sq_dist(i: int, mid: int) -> nat {
    ((i - mid) * (i - mid)) as nat
}

/// A normalised 1-D smoothing kernel in fixed point: `sum` is the exact sum
/// of the weights, and convolution divides by it, so the weights sum to one
/// as rationals.
pub struct GaussianKernel {
    pub weights: Vec<u64>,
    pub sum: u64,
}

impl GaussianKernel {
    pub open spec fn wf(self) -> bool {
        &&& 1 <= self.weights@.len() <= 0x1_0000_0000
        &&& self.weights@.len() % 2 == 1
        &&& forall|i: int| 0 <= i < self.weights@.len() ==> #[trigger] self.weights@[i] <= 65536
        &&& self.sum as int == sum_to(self.weights@, self.weights@.len() as int)
        &&& self.sum >= 1
    }
}

/// Truncating fixed-point power of `decay`.
fn pow_q_exec(decay: u64, n: u64) -> (r: u64)
    requires
        decay <= 65536,
    ensures
        r as int == pow_q(decay as int, n as nat),
        r <= 65536,
{
    let mut x: u64 = SCALE;
    let mut j: u64 = 0;
    while j < n
        invariant
            decay <= 65536,
            j <= n,
            x as int == pow_q(decay as int, j as nat),
            x <= 65536,
        decreases n - j,
    {
        proof {
            assert(0 <= (x as int) * (decay as int) <= 65536 * 65536) by (nonlinear_arith)
                requires
                    0 <= x as int <= 65536,
                    0 <= decay as int <= 65536,
            ;
            vstd::arithmetic::div_mod::lemma_div_is_ordered(
                (x as int) * (decay as int),
                (65536 * 65536) as int,
                65536,
            );
        }
        x = x * decay / 65536;
        j = j + 1;
    }
    x
}

/// Builds the sampling weights of a Gaussian-shaped kernel of odd length
/// `size`: the weight at distance d from the centre is decay^(d*d) in fixed
/// point (`decay` encodes the per-step attenuation exp(-1/c) of the bell
/// curve at scale SCALE).  The exact sum is recorded, and convolution
/// divides by it, which normalises the kernel exactly.
pub fn get_gaussian_kernel(size: usize, decay: u64) -> (r: GaussianKernel)
    requires
        size % 2 == 1,
        size <= 0x1_0000_0000,
        decay <= 65536,
    ensures
        r.wf(),
        r.weights@.len() == size,
        forall|i: int|
            0 <= i < size ==> #[trigger] r.weights@[i] as int == pow_q(
                decay as int,
                sq_dist(i, size as int / 2),
            ),
{
    let mid = size / 2;
    let mut weights: Vec<u64> = Vec::new();
    let mut sum: u64 = 0;
    for i in 0..size
        invariant
            size % 2 == 1,
            size <= 0x1_0000_0000,
            decay <= 65536,
            mid == size / 2,
            weights@.len() == i,
            forall|j: int| 0 <= j < i ==> #[trigger] weights@[j] <= 65536,
            forall|j: int|
                0 <= j < i ==> #[trigger] weights@[j] as int == pow_q(
                    decay as int,
                    sq_dist(j, size as int / 2),
                ),
            sum as int == sum_to(weights@, i as int),
            sum as int <= 65536 * (i as int),
    {
        let d: u64 = if i < mid {
            (mid - i) as u64
        } else {
            (i - mid) as u64
        };
        proof {
            assert(d <= 0x8000_0000);
            assert((d as int) * (d as int) <= 0x8000_0000 * 0x8000_0000) by (nonlinear_arith)
                requires
                    0 <= d as int <= 0x8000_0000,
            ;
        }
        let e = d * d;
        let w = pow_q_exec(decay, e);
        proof {
            assert((d as int) * (d as int) == (i as int - mid as int) * (i as int - mid as int))
                by (nonlinear_arith)
                requires
                    d as int == mid as int - i as int || d as int == i as int - mid as int,
            ;
            assert(e as nat == sq_dist(i as int, size as int / 2));
            assert(65536 * (i as int) + 65536 == 65536 * (i as int + 1)) by (nonlinear_arith);
        }
        let ghost prev = weights@;
        weights.push(w);
        sum = sum + w;
        proof {
            assert forall|j: int| 0 <= j < i + 1 implies #[trigger] weights@[j] <= 65536 && weights@[j] as int
                == pow_q(decay as int, sq_dist(j, size as int / 2)) by {
                if j < i {
                    assert(weights@[j] == prev[j]);
                }
            }
            assert(sum_to(weights@, i as int) == sum_to(prev, i as int)) by {
                lemma_sum_to_prefix(weights@, prev, i as int);
            }
        }
    }
    proof {
        assert(weights@[mid as int] as int == pow_q(decay as int, sq_dist(mid as int, mid as int)));
        assert(sq_dist(mid as int, mid as int) == 0);
        lemma_sum_to_elem(weights@, size as int, mid as int);
    }
    GaussianKernel { weights, sum }
}

/// Two sequences equal on a prefix have the same prefix sum.
proof fn lemma_sum_to_prefix(s1: Seq<u64>, s2: Seq<u64>, t: int)
    requires
        forall|i: int| 0 <= i < t ==> s1[i] == s2[i],
    ensures
        sum_to(s1, t) == sum_to(s2, t),
    decreases t,
{
    if t > 0 {
        lemma_sum_to_prefix(s1, s2, t - 1);
    }
}

/// A prefix sum dominates each of its entries.
proof fn lemma_sum_to_elem(s: Seq<u64>, t: int, i: int)
    requires
        0 <= i < t,
    ensures
        sum_to(s, t) >= s[i],
    decreases t,
{
    if i == t - 1 {
        lemma_sum_to_mono(s, 0, t - 1);
    } else {
        lemma_sum_to_elem(s, t - 1, i);
    }
}

/// Clamp an integer into [lo, hi].
pub open spec fn clampi(v: int, lo: int, hi: int) -> int {
    if v < lo {
        lo
    } else if v > hi {
        hi
    } else {
        v
    }
}

/// Weighted sum of the first `t` kernel taps along the row through (x, y),
/// with the sample column clamped to the image (edge replication).
pub open spec fn conv_h_part(
    pixels: Seq<u8>,
    width: int,
    ws: Seq<u64>,
    x: int,
    y: int,
    c: int,
    t: int,
) -> int
    decreases t,
{
    if t <= 0 {
        0
    } else {
        conv_h_part(pixels, width, ws, x, y, c, t - 1) + ws[t - 1] * chan(
            pixels,
            pix(width, clampi(x + (t - 1) - ws.len() as int / 2, 0, width - 1), y),
            c,
        )
    }
}

/// The horizontally convolved channel value at (x, y): the full weighted sum
/// divided by the kernel's weight sum (truncating).
pub open spec fn conv_h_px(
    pixels: Seq<u8>,
    width: int,
    ws: Seq<u64>,
    sum: int,
    x: int,
    y: int,
    c: int,
) -> int {
    conv_h_part(pixels, width, ws, x, y, c, ws.len() as int) / sum
}

/// Weighted sum of the first `t` kernel taps along the column through
/// (x, y), with the sample row clamped to the image (edge replication).
pub open spec fn conv_v_part(
    pixels: Seq<u8>,
    width: int,
    height: int,
    ws: Seq<u64>,
    x: int,
    y: int,
    c: int,
    t: int,
) -> int
    decreases t,
{
    if t <= 0 {
        0
    } else {
        conv_v_part(pixels, width, height, ws, x, y, c, t - 1) + ws[t - 1] * chan(
            pixels,
            pix(width, x, clampi(y + (t - 1) - ws.len() as int / 2, 0, height - 1)),
            c,
        )
    }
}

/// The vertically convolved channel value at (x, y).
pub open spec fn conv_v_px(
    pixels: Seq<u8>,
    width: int,
    height: int,
    ws: Seq<u64>,
    sum: int,
    x: int,
    y: int,
    c: int,
) -> int {
    conv_v_part(pixels, width, height, ws, x, y, c, ws.len() as int) / sum
}

proof fn lemma_pix_scan_lt(w: int, x1: int, y1: int, x2: int, y2: int)
    requires
        0 <= x1 < w,
        0 <= x2 <= w,
        0 <= y1,
        0 <= y2,
        y1 < y2 || (y1 == y2 && x1 < x2),
    ensures
        pix(w, x1, y1) < pix(w, x2, y2),
{
    assert(y1 * w + x1 < y2 * w + x2) by (nonlinear_arith)
        requires
            0 <= x1 < w,
            0 <= x2 <= w,
            0 <= y1,
            0 <= y2,
            y1 < y2 || (y1 == y2 && x1 < x2),
    ;
}

/// The full weighted row sum for channel `c` of pixel (x, y).
#[verifier::loop_isolation(false)]
fn conv_h_acc(pixels: &Vec<u8>, w: usize, h: usize, ws: &Vec<u64>, x: usize, y: usize, c: usize) -> (acc: u64)
    requires
        1 <= w,
        1 <= h,
        pixels@.len() == 3 * ((w as int) * (h as int)),
        1 <= ws@.len() <= 0x1_0000_0000,
        forall|i: int| 0 <= i < ws@.len() ==> #[trigger] ws@[i] <= 65536,
        x < w,
        y < h,
        c < 3,
    ensures
        acc as int == conv_h_part(pixels@, w as int, ws@, x as int, y as int, c as int, ws@.len() as int),
        acc as int <= 255 * sum_to(ws@, ws@.len() as int),
{
    let n3 = pixels.len();
    proof {
        assert(0 <= (w as int) * (h as int) && (w as int) * 1 <= (w as int) * (h as int) && (
        h as int) * 1 <= (h as int) * (w as int) && (h as int) * (w as int) == (w as int) * (
        h as int)) by (nonlinear_arith)
            requires
                1 <= w as int,
                1 <= h as int,
        ;
    }
    let klen = ws.len();
    let mid = klen / 2;
    let mut acc: u64 = 0;
    for t in 0..klen
        invariant
            acc as int == conv_h_part(pixels@, w as int, ws@, x as int, y as int, c as int, t as int),
            acc as int <= 255 * sum_to(ws@, t as int),
            sum_to(ws@, t as int) <= 65536 * (t as int),
    {
        let pos = x as u64 + t as u64;
        let col_u = if pos < mid as u64 {
            0
        } else {
            pos - mid as u64
        };
        let col: usize = if col_u > (w - 1) as u64 {
            w - 1
        } else {
            col_u as usize
        };
        proof {
            assert(col as int == clampi(x as int + t as int - ws@.len() as int / 2, 0, w as int - 1));
            crate::canny::lemma_pix_bound(w as int, h as int, col as int, y as int);
        }
        let v = pixels[3 * (y * w + col) + c];
        let wt = ws[t];
        proof {
            assert(wt * v <= 255 * wt && 0 <= wt * v) by (nonlinear_arith)
                requires
                    0 <= wt <= 65536,
                    0 <= v <= 255,
            ;
            assert(65536 * (t as int) + 65536 == 65536 * (t as int + 1)) by (nonlinear_arith);
        }
        acc = acc + wt * (v as u64);
    }
    acc
}

/// The full weighted column sum for channel `c` of pixel (x, y).
#[verifier::loop_isolation(false)]
fn conv_v_acc(pixels: &Vec<u8>, w: usize, h: usize, ws: &Vec<u64>, x: usize, y: usize, c: usize) -> (acc: u64)
    requires
        1 <= w,
        1 <= h,
        pixels@.len() == 3 * ((w as int) * (h as int)),
        1 <= ws@.len() <= 0x1_0000_0000,
        forall|i: int| 0 <= i < ws@.len() ==> #[trigger] ws@[i] <= 65536,
        x < w,
        y < h,
        c < 3,
    ensures
        acc as int == conv_v_part(pixels@, w as int, h as int, ws@, x as int, y as int, c as int, ws@.len() as int),
        acc as int <= 255 * sum_to(ws@, ws@.len() as int),
{
    let n3 = pixels.len();
    proof {
        assert(0 <= (w as int) * (h as int) && (w as int) * 1 <= (w as int) * (h as int) && (
        h as int) * 1 <= (h as int) * (w as int) && (h as int) * (w as int) == (w as int) * (
        h as int)) by (nonlinear_arith)
            requires
                1 <= w as int,
                1 <= h as int,
        ;
    }
    let klen = ws.len();
    let mid = klen / 2;
    let mut acc: u64 = 0;
    for t in 0..klen
        invariant
            acc as int == conv_v_part(pixels@, w as int, h as int, ws@, x as int, y as int, c as int, t as int),
            acc as int <= 255 * sum_to(ws@, t as int),
            sum_to(ws@, t as int) <= 65536 * (t as int),
    {
        let pos = y as u64 + t as u64;
        let row_u = if pos < mid as u64 {
            0
        } else {
            pos - mid as u64
        };
        let row: usize = if row_u > (h - 1) as u64 {
            h - 1
        } else {
            row_u as usize
        };
        proof {
            assert(row as int == clampi(y as int + t as int - ws@.len() as int / 2, 0, h as int - 1));
            crate::canny::lemma_pix_bound(w as int, h as int, x as int, row as int);
        }
        let v = pixels[3 * (row * w + x) + c];
        let wt = ws[t];
        proof {
            assert(wt * v <= 255 * wt && 0 <= wt * v) by (nonlinear_arith)
                requires
                    0 <= wt <= 65536,
                    0 <= v <= 255,
            ;
            assert(65536 * (t as int) + 65536 == 65536 * (t as int + 1)) by (nonlinear_arith);
        }
        acc = acc + wt * (v as u64);
    }
    acc
}

impl Image {
    /// Convolves every row with the kernel, each channel independently, with
    /// edge-replicated sampling; each output channel is the weighted sum
    /// divided (truncating) by the kernel's exact weight sum.
    #[verifier::loop_isolation(false)]
    #[verifier::rlimit(100)]
    pub fn horizontal_convolution(self, kernel: &GaussianKernel) -> (out: Image)
        requires
            self.wf(),
            kernel.wf(),
        ensures
            out.wf(),
            out.width == self.width,
            out.height == self.height,
            out.format == self.format,
            forall|x: int, y: int, c: int|
                0 <= x < self.width as int && 0 <= y < self.height as int && 0 <= c < 3
                    ==> #[trigger] chan(out.pixels@, pix(self.width as int, x, y), c) as int
                    == conv_h_px(
                    self.pixels@,
                    self.width as int,
                    kernel.weights@,
                    kernel.sum as int,
                    x,
                    y,
                    c,
                ),
    {
        let w = self.width as usize;
        let h = self.height as usize;
        let n3 = self.pixels.len();
        let ghost pxs = self.pixels@;
        let ghost wi = w as int;
        let ghost hi = h as int;
        let ghost ws = kernel.weights@;
        let ghost su = kernel.sum as int;
        let mut output_pixels: Vec<u8> = Vec::new();
        proof {
            assert(pix(wi, 0, 0) == 0);
        }
        for y in 0..h
            invariant
                output_pixels@.len() == 3 * pix(wi, 0, y as int),
                forall|xx: int, yy: int, cc: int|
                    0 <= xx < wi && 0 <= yy < y as int && 0 <= cc < 3 ==> #[trigger] chan(
                        output_pixels@,
                        pix(wi, xx, yy),
                        cc,
                    ) as int == conv_h_px(pxs, wi, ws, su, xx, yy, cc),
        {
            for x in 0..w
                invariant
                    output_pixels@.len() == 3 * pix(wi, x as int, y as int),
                    forall|xx: int, yy: int, cc: int|
                        0 <= xx < wi && 0 <= yy < y as int && 0 <= cc < 3 ==> #[trigger] chan(
                            output_pixels@,
                            pix(wi, xx, yy),
                            cc,
                        ) as int == conv_h_px(pxs, wi, ws, su, xx, yy, cc),
                    forall|xx: int, cc: int|
                        0 <= xx < x as int && 0 <= cc < 3 ==> #[trigger] chan(
                            output_pixels@,
                            pix(wi, xx, y as int),
                            cc,
                        ) as int == conv_h_px(pxs, wi, ws, su, xx, y as int, cc),
            {
                proof {
                    crate::canny::lemma_pix_bound(wi, hi, x as int, y as int);
                }
                let mut c: usize = 0;
                while c < 3
                    invariant
                        c <= 3,
                        output_pixels@.len() == 3 * pix(wi, x as int, y as int) + c as int,
                        forall|xx: int, yy: int, cc: int|
                            0 <= xx < wi && 0 <= yy < y as int && 0 <= cc < 3 ==> #[trigger] chan(
                                output_pixels@,
                                pix(wi, xx, yy),
                                cc,
                            ) as int == conv_h_px(pxs, wi, ws, su, xx, yy, cc),
                        forall|xx: int, cc: int|
                            0 <= xx < x as int && 0 <= cc < 3 ==> #[trigger] chan(
                                output_pixels@,
                                pix(wi, xx, y as int),
                                cc,
                            ) as int == conv_h_px(pxs, wi, ws, su, xx, y as int, cc),
                        forall|cc: int|
                            0 <= cc < c as int ==> #[trigger] chan(
                                output_pixels@,
                                pix(wi, x as int, y as int),
                                cc,
                            ) as int == conv_h_px(pxs, wi, ws, su, x as int, y as int, cc),
                    decreases 3 - c,
                {
                    let acc = conv_h_acc(&self.pixels, w, h, &kernel.weights, x, y, c);
                    proof {
                        vstd::arithmetic::div_mod::lemma_div_is_ordered(
                            acc as int,
                            255 * su,
                            su,
                        );
                        vstd::arithmetic::div_mod::lemma_div_multiples_vanish(255, su);
                        vstd::arithmetic::div_mod::lemma_div_is_ordered(0, acc as int, su);
                        assert(su * 255 == 255 * su) by (nonlinear_arith);
                    }
                    let v = (acc / kernel.sum) as u8;
                    let ghost prev = output_pixels@;
                    output_pixels.push(v);
                    proof {
                        assert forall|xx: int, yy: int, cc: int|
                            0 <= xx < wi && 0 <= yy < y as int && 0 <= cc < 3 implies #[trigger] chan(
                            output_pixels@,
                            pix(wi, xx, yy),
                            cc,
                        ) as int == conv_h_px(pxs, wi, ws, su, xx, yy, cc) by {
                            crate::canny::lemma_pix_bound(wi, hi, xx, yy);
                            lemma_pix_scan_lt(wi, xx, yy, x as int, y as int);
                            assert(chan(prev, pix(wi, xx, yy), cc) as int == conv_h_px(
                                pxs, wi, ws, su,
                                xx,
                                yy,
                                cc,
                            ));
                            assert(output_pixels@[3 * pix(wi, xx, yy) + cc] == prev[3 * pix(
                                wi,
                                xx,
                                yy,
                            ) + cc]);
                        }
                        assert forall|xx: int, cc: int|
                            0 <= xx < x as int && 0 <= cc < 3 implies #[trigger] chan(
                            output_pixels@,
                            pix(wi, xx, y as int),
                            cc,
                        ) as int == conv_h_px(pxs, wi, ws, su, xx, y as int, cc) by {
                            crate::canny::lemma_pix_bound(wi, hi, xx, y as int);
                            lemma_pix_scan_lt(wi, xx, y as int, x as int, y as int);
                            assert(chan(prev, pix(wi, xx, y as int), cc) as int == conv_h_px(
                                pxs, wi, ws, su,
                                xx,
                                y as int,
                                cc,
                            ));
                            assert(output_pixels@[3 * pix(wi, xx, y as int) + cc] == prev[3 * pix(
                                wi,
                                xx,
                                y as int,
                            ) + cc]);
                        }
                        assert(chan(output_pixels@, pix(wi, x as int, y as int), c as int) == v);
                        assert forall|cc: int| 0 <= cc < c as int + 1 implies #[trigger] chan(
                            output_pixels@,
                            pix(wi, x as int, y as int),
                            cc,
                        ) as int == conv_h_px(pxs, wi, ws, su, x as int, y as int, cc) by {
                            if cc < c as int {
                                assert(chan(prev, pix(wi, x as int, y as int), cc) as int
                                    == conv_h_px(pxs, wi, ws, su, x as int, y as int, cc));
                                assert(output_pixels@[3 * pix(wi, x as int, y as int) + cc]
                                    == prev[3 * pix(wi, x as int, y as int) + cc]);
                            }
                        }
                    }
                    c = c + 1;
                }
            }
            proof {
                assert(pix(wi, w as int, y as int) == pix(wi, 0, y as int + 1)) by (nonlinear_arith)
                    requires
                        pix(wi, w as int, y as int) == (y as int) * wi + wi,
                        pix(wi, 0, y as int + 1) == (y as int + 1) * wi,
                ;
                assert forall|xx: int, yy: int, cc: int|
                    0 <= xx < wi && 0 <= yy < y as int + 1 && 0 <= cc < 3 implies #[trigger] chan(
                    output_pixels@,
                    pix(wi, xx, yy),
                    cc,
                ) as int == conv_h_px(pxs, wi, ws, su, xx, yy, cc) by {
                    if yy == y as int {
                        assert(chan(output_pixels@, pix(wi, xx, y as int), cc) as int == conv_h_px(
                            pxs,
                            wi,
                            ws,
                            su,
                            xx,
                            y as int,
                            cc,
                        ));
                    }
                }
            }
        }
        proof {
            assert(pix(wi, 0, hi) == hi * wi);
            assert(hi * wi == wi * hi) by (nonlinear_arith);
        }
        Image { width: self.width, height: self.height, pixels: output_pixels, format: self.format }
    }

    /// Convolves every column with the kernel, each channel independently,
    /// with edge-replicated sampling.
    #[verifier::loop_isolation(false)]
    #[verifier::rlimit(100)]
    pub fn vertical_convolution(self, kernel: &GaussianKernel) -> (out: Image)
        requires
            self.wf(),
            kernel.wf(),
        ensures
            out.wf(),
            out.width == self.width,
            out.height == self.height,
            out.format == self.format,
            forall|x: int, y: int, c: int|
                0 <= x < self.width as int && 0 <= y < self.height as int && 0 <= c < 3
                    ==> #[trigger] chan(out.pixels@, pix(self.width as int, x, y), c) as int
                    == conv_v_px(
                    self.pixels@,
                    self.width as int,
                    self.height as int,
                    kernel.weights@,
                    kernel.sum as int,
                    x,
                    y,
                    c,
                ),
    {
        let w = self.width as usize;
        let h = self.height as usize;
        let n3 = self.pixels.len();
        let ghost pxs = self.pixels@;
        let ghost wi = w as int;
        let ghost hi = h as int;
        let ghost ws = kernel.weights@;
        let ghost su = kernel.sum as int;
        let mut output_pixels: Vec<u8> = Vec::new();
        proof {
            assert(pix(wi, 0, 0) == 0);
        }
        for y in 0..h
            invariant
                output_pixels@.len() == 3 * pix(wi, 0, y as int),
                forall|xx: int, yy: int, cc: int|
                    0 <= xx < wi && 0 <= yy < y as int && 0 <= cc < 3 ==> #[trigger] chan(
                        output_pixels@,
                        pix(wi, xx, yy),
                        cc,
                    ) as int == conv_v_px(pxs, wi, hi, ws, su, xx, yy, cc),
        {
            for x in 0..w
                invariant
                    output_pixels@.len() == 3 * pix(wi, x as int, y as int),
                    forall|xx: int, yy: int, cc: int|
                        0 <= xx < wi && 0 <= yy < y as int && 0 <= cc < 3 ==> #[trigger] chan(
                            output_pixels@,
                            pix(wi, xx, yy),
                            cc,
                        ) as int == conv_v_px(pxs, wi, hi, ws, su, xx, yy, cc),
                    forall|xx: int, cc: int|
                        0 <= xx < x as int && 0 <= cc < 3 ==> #[trigger] chan(
                            output_pixels@,
                            pix(wi, xx, y as int),
                            cc,
                        ) as int == conv_v_px(pxs, wi, hi, ws, su, xx, y as int, cc),
            {
                proof {
                    crate::canny::lemma_pix_bound(wi, hi, x as int, y as int);
                }
                let mut c: usize = 0;
                while c < 3
                    invariant
                        c <= 3,
                        output_pixels@.len() == 3 * pix(wi, x as int, y as int) + c as int,
                        forall|xx: int, yy: int, cc: int|
                            0 <= xx < wi && 0 <= yy < y as int && 0 <= cc < 3 ==> #[trigger] chan(
                                output_pixels@,
                                pix(wi, xx, yy),
                                cc,
                            ) as int == conv_v_px(pxs, wi, hi, ws, su, xx, yy, cc),
                        forall|xx: int, cc: int|
                            0 <= xx < x as int && 0 <= cc < 3 ==> #[trigger] chan(
                                output_pixels@,
                                pix(wi, xx, y as int),
                                cc,
                            ) as int == conv_v_px(pxs, wi, hi, ws, su, xx, y as int, cc),
                        forall|cc: int|
                            0 <= cc < c as int ==> #[trigger] chan(
                                output_pixels@,
                                pix(wi, x as int, y as int),
                                cc,
                            ) as int == conv_v_px(pxs, wi, hi, ws, su, x as int, y as int, cc),
                    decreases 3 - c,
                {
                    let acc = conv_v_acc(&self.pixels, w, h, &kernel.weights, x, y, c);
                    proof {
                        vstd::arithmetic::div_mod::lemma_div_is_ordered(
                            acc as int,
                            255 * su,
                            su,
                        );
                        vstd::arithmetic::div_mod::lemma_div_multiples_vanish(255, su);
                        vstd::arithmetic::div_mod::lemma_div_is_ordered(0, acc as int, su);
                        assert(su * 255 == 255 * su) by (nonlinear_arith);
                    }
                    let v = (acc / kernel.sum) as u8;
                    let ghost prev = output_pixels@;
                    output_pixels.push(v);
                    proof {
                        assert forall|xx: int, yy: int, cc: int|
                            0 <= xx < wi && 0 <= yy < y as int && 0 <= cc < 3 implies #[trigger] chan(
                            output_pixels@,
                            pix(wi, xx, yy),
                            cc,
                        ) as int == conv_v_px(pxs, wi, hi, ws, su, xx, yy, cc) by {
                            crate::canny::lemma_pix_bound(wi, hi, xx, yy);
                            lemma_pix_scan_lt(wi, xx, yy, x as int, y as int);
                            assert(chan(prev, pix(wi, xx, yy), cc) as int == conv_v_px(
                                pxs, wi, hi, ws, su,
                                xx,
                                yy,
                                cc,
                            ));
                            assert(output_pixels@[3 * pix(wi, xx, yy) + cc] == prev[3 * pix(
                                wi,
                                xx,
                                yy,
                            ) + cc]);
                        }
                        assert forall|xx: int, cc: int|
                            0 <= xx < x as int && 0 <= cc < 3 implies #[trigger] chan(
                            output_pixels@,
                            pix(wi, xx, y as int),
                            cc,
                        ) as int == conv_v_px(pxs, wi, hi, ws, su, xx, y as int, cc) by {
                            crate::canny::lemma_pix_bound(wi, hi, xx, y as int);
                            lemma_pix_scan_lt(wi, xx, y as int, x as int, y as int);
                            assert(chan(prev, pix(wi, xx, y as int), cc) as int == conv_v_px(
                                pxs, wi, hi, ws, su,
                                xx,
                                y as int,
                                cc,
                            ));
                            assert(output_pixels@[3 * pix(wi, xx, y as int) + cc] == prev[3 * pix(
                                wi,
                                xx,
                                y as int,
                            ) + cc]);
                        }
                        assert(chan(output_pixels@, pix(wi, x as int, y as int), c as int) == v);
                        assert forall|cc: int| 0 <= cc < c as int + 1 implies #[trigger] chan(
                            output_pixels@,
                            pix(wi, x as int, y as int),
                            cc,
                        ) as int == conv_v_px(pxs, wi, hi, ws, su, x as int, y as int, cc) by {
                            if cc < c as int {
                                assert(chan(prev, pix(wi, x as int, y as int), cc) as int
                                    == conv_v_px(pxs, wi, hi, ws, su, x as int, y as int, cc));
                                assert(output_pixels@[3 * pix(wi, x as int, y as int) + cc]
                                    == prev[3 * pix(wi, x as int, y as int) + cc]);
                            }
                        }
                    }
                    c = c + 1;
                }
            }
            proof {
                assert(pix(wi, w as int, y as int) == pix(wi, 0, y as int + 1)) by (nonlinear_arith)
                    requires
                        pix(wi, w as int, y as int) == (y as int) * wi + wi,
                        pix(wi, 0, y as int + 1) == (y as int + 1) * wi,
                ;
                assert forall|xx: int, yy: int, cc: int|
                    0 <= xx < wi && 0 <= yy < y as int + 1 && 0 <= cc < 3 implies #[trigger] chan(
                    output_pixels@,
                    pix(wi, xx, yy),
                    cc,
                ) as int == conv_v_px(pxs, wi, hi, ws, su, xx, yy, cc) by {
                    if yy == y as int {
                        assert(chan(output_pixels@, pix(wi, xx, y as int), cc) as int == conv_v_px(
                            pxs,
                            wi,
                            hi,
                            ws,
                            su,
                            xx,
                            y as int,
                            cc,
                        ));
                    }
                }
            }
        }
        proof {
            assert(pix(wi, 0, hi) == hi * wi);
            assert(hi * wi == wi * hi) by (nonlinear_arith);
        }
        Image { width: self.width, height: self.height, pixels: output_pixels, format: self.format }
    }
}

/// The generated weights are symmetric around the centre index: entries at
/// equal distance from the centre carry the same weight.
pub proof fn lemma_kernel_symmetric(ws: Seq<int>, decay: int, size: int)
    requires
        size >= 1,
        size % 2 == 1,
        ws.len() == size,
        forall|i: int| 0 <= i < size ==> #[trigger] ws[i] == pow_q(decay, sq_dist(i, size / 2)),
    ensures
        forall|i: int| 0 <= i < size ==> #[trigger] ws[i] == ws[size - 1 - i],
{
    let mid = size / 2;
    assert forall|i: int| 0 <= i < size implies #[trigger] ws[i] == ws[size - 1 - i] by {
        assert(size == 2 * mid + 1);
        assert((i - mid) * (i - mid) == (size - 1 - i - mid) * (size - 1 - i - mid))
            by (nonlinear_arith)
            requires
                size == 2 * mid + 1,
        ;
        assert(sq_dist(i, mid) == sq_dist(size - 1 - i, mid));
    }
}

/// On an image whose pixels all hold one colour, the weighted sum of any
/// window is that colour times the weight sum.
proof fn lemma_conv_part_uniform(
    pixels: Seq<u8>,
    width: int,
    height: int,
    ws: Seq<u64>,
    x: int,
    y: int,
    c: int,
    v: int,
    t: int,
    horizontal: bool,
)
    requires
        1 <= width,
        1 <= height,
        0 <= x < width,
        0 <= y < height,
        0 <= c < 3,
        forall|xx: int, yy: int|
            0 <= xx < width && 0 <= yy < height ==> chan(
                pixels,
                #[trigger] pix(width, xx, yy),
                c,
            ) as int == v,
    ensures
        horizontal ==> conv_h_part(pixels, width, ws, x, y, c, t) == v * sum_to(ws, t),
        !horizontal ==> conv_v_part(pixels, width, height, ws, x, y, c, t) == v * sum_to(ws, t),
    decreases t,
{
    if t <= 0 {
        assert(v * 0 == 0) by (nonlinear_arith);
    } else {
        lemma_conv_part_uniform(pixels, width, height, ws, x, y, c, v, t - 1, horizontal);
        let wt = ws[t - 1] as int;
        if horizontal {
            let col = clampi(x + (t - 1) - ws.len() as int / 2, 0, width - 1);
            assert(0 <= col < width);
            assert(chan(pixels, pix(width, col, y), c) as int == v);
        } else {
            let row = clampi(y + (t - 1) - ws.len() as int / 2, 0, height - 1);
            assert(0 <= row < height);
            assert(chan(pixels, pix(width, x, row), c) as int == v);
        }
        assert(v * sum_to(ws, t - 1) + wt * v == v * (sum_to(ws, t - 1) + wt)) by (nonlinear_arith);
    }
}

/// Convolving a flat-colour image with a normalised kernel returns each
/// channel unchanged: the weighted sum is the colour times the weight sum,
/// and dividing by the exact weight sum gives the colour back.
pub proof fn lemma_convolution_preserves_uniform(
    pixels: Seq<u8>,
    width: int,
    height: int,
    ws: Seq<u64>,
    sum: int,
    x: int,
    y: int,
    c: int,
    v: int,
)
    requires
        1 <= width,
        1 <= height,
        0 <= x < width,
        0 <= y < height,
        0 <= c < 3,
        sum == sum_to(ws, ws.len() as int),
        sum >= 1,
        0 <= v,
        forall|xx: int, yy: int|
            0 <= xx < width && 0 <= yy < height ==> chan(
                pixels,
                #[trigger] pix(width, xx, yy),
                c,
            ) as int == v,
    ensures
        conv_h_px(pixels, width, ws, sum, x, y, c) == v,
        conv_v_px(pixels, width, height, ws, sum, x, y, c) == v,
{
    lemma_conv_part_uniform(pixels, width, height, ws, x, y, c, v, ws.len() as int, true);
    lemma_conv_part_uniform(pixels, width, height, ws, x, y, c, v, ws.len() as int, false);
    vstd::arithmetic::div_mod::lemma_div_multiples_vanish(v, sum);
    assert(sum * v == v * sum) by (nonlinear_arith);
}

} // verus!
