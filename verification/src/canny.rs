use vstd::prelude::*;

use crate::image::{chan, pix, Image};

verus! {

/// A pair of square integer derivative kernels (x and y direction) with
/// their side length; each grid is stored row-major.
pub struct Kernel {
    pub kx: Vec<i32>,
    pub ky: Vec<i32>,
    pub size: usize,
}

/// The closed set of built-in directional kernel pairs.
#[derive(Debug, Clone, Copy, PartialEq, Eq, Structural)]
pub enum EdgeKernel {
    Sobel,
    Prewitt,
    Roberts,
}

/// Side length of a directional kernel pair.
pub open spec fn edge_size(ek: EdgeKernel) -> int {
    match ek {
        EdgeKernel::Sobel => 3,
        EdgeKernel::Prewitt => 3,
        EdgeKernel::Roberts => 2,
    }
}

/// Row-major x-derivative coefficients of a directional kernel pair.
pub open spec fn edge_kx(ek: EdgeKernel) -> Seq<int> {
    match ek {
        EdgeKernel::Sobel => seq![-1, 0, 1, -2, 0, 2, -1, 0, 1],
        EdgeKernel::Prewitt => seq![1, 1, 1, 0, 0, 0, -1, -1, -1],
        EdgeKernel::Roberts => seq![1, 0, 0, -1],
    }
}

/// Row-major y-derivative coefficients of a directional kernel pair.
pub open spec fn edge_ky(ek: EdgeKernel) -> Seq<int> {
    match ek {
        EdgeKernel::Sobel => seq![-1, -2, -1, 0, 0, 0, 1, 2, 1],
        EdgeKernel::Prewitt => seq![1, 0, -1, 1, 0, -1, 1, 0, -1],
        EdgeKernel::Roberts => seq![0, 1, -1, 0],
    }
}

impl EdgeKernel {
    /// The coefficient grids of the selected pair.
    pub fn kernel(&self) -> (r: Kernel)
        ensures
            r.size as int == edge_size(*self),
            r.kx@.len() == edge_size(*self) * edge_size(*self),
            r.ky@.len() == edge_size(*self) * edge_size(*self),
            forall|i: int|
                0 <= i < r.kx@.len() ==> #[trigger] r.kx@[i] as int == edge_kx(*self)[i],
            forall|i: int|
                0 <= i < r.ky@.len() ==> #[trigger] r.ky@[i] as int == edge_ky(*self)[i],
            forall|i: int| 0 <= i < r.kx@.len() ==> -2 <= #[trigger] r.kx@[i] <= 2,
            forall|i: int| 0 <= i < r.ky@.len() ==> -2 <= #[trigger] r.ky@[i] <= 2,
    {
        match self {
            EdgeKernel::Sobel => Kernel {
                kx: vec![-1, 0, 1, -2, 0, 2, -1, 0, 1],
                ky: vec![-1, -2, -1, 0, 0, 0, 1, 2, 1],
                size: 3,
            },
            EdgeKernel::Prewitt => Kernel {
                kx: vec![1, 1, 1, 0, 0, 0, -1, -1, -1],
                ky: vec![1, 0, -1, 1, 0, -1, 1, 0, -1],
                size: 3,
            },
            EdgeKernel::Roberts => Kernel {
                kx: vec![1, 0, 0, -1],
                ky: vec![0, 1, -1, 0],
                size: 2,
            },
        }
    }
}

/// Gray sample (channel 0) at column `x`, row `y`.
pub open spec fn gray_at(pixels: Seq<u8>, width: int, x: int, y: int) -> int {
    chan(pixels, pix(width, x, y), 0) as int
}

/// A pixel whose whole `k`-wide neighbourhood lies inside a `width` x
/// `height` grid (radius `k / 2` from every border).
pub open spec fn interior(width: int, height: int, k: int, x: int, y: int) -> bool {
    &&& k / 2 <= x < width - k / 2
    &&& k / 2 <= y < height - k / 2
}

/// Dot product of the first `t` coefficients of a row-major `k` x `k` kernel
/// with the gray samples of the window of radius `k / 2` centred at (x, y).
pub open spec fn grad_part(
    pixels: Seq<u8>,
    width: int,
    kern: Seq<int>,
    k: int,
    x: int,
    y: int,
    t: int,
) -> int
    decreases t,
{
    if t <= 0 {
        0
    } else {
        grad_part(pixels, width, kern, k, x, y, t - 1) + kern[t - 1] * gray_at(
            pixels,
            width,
            x + (t - 1) % k - k / 2,
            y + (t - 1) / k - k / 2,
        )
    }
}

/// Directional derivative at (x, y): the full `k` x `k` dot product.
pub open spec fn grad(pixels: Seq<u8>, width: int, kern: Seq<int>, k: int, x: int, y: int) -> int {
    grad_part(pixels, width, kern, k, x, y, k * k)
}

/// The angle sector of the gradient vector (gx, gy), as cut at 22.5, 67.5,
/// 112.5 and 157.5 degrees of the direction angle normalised into [0, 180):
/// 0 compares east/west, 1 north-east/south-west, 2 north/south,
/// 3 north-west/south-east.
///
/// The cuts are decided exactly in integers: with the vector flipped so that
/// b > 0, an angle at most 22.5 degrees means b <= (sqrt(2) - 1) * a, which
/// squares to (a + b)^2 <= 2 * a^2, and an angle at most 67.5 degrees means
/// b <= (sqrt(2) + 1) * a, which is b <= a or (b - a)^2 <= 2 * a^2; the
/// obtuse side mirrors these against 180 degrees. Equality never occurs for
/// integer vectors, sqrt(2) being irrational.
pub open spec fn sector(gx: int, gy: int) -> int {
    let a = if gy >= 0 {
        gx
    } else {
        -gx
    };
    let b = if gy >= 0 {
        gy
    } else {
        -gy
    };
    if b == 0 {
        0
    } else if a > 0 {
        if (a + b) * (a + b) <= 2 * a * a {
            0
        } else if b <= a || (b - a) * (b - a) <= 2 * a * a {
            1
        } else {
            2
        }
    } else if a == 0 {
        2
    } else {
        if (b - a) * (b - a) < 2 * a * a {
            0
        } else if b < -a || (b + a) * (b + a) < 2 * a * a {
            3
        } else {
            2
        }
    }
}

/// First sector neighbour offset (dx, dy).
pub open spec fn sector_off1(s: int) -> (int, int) {
    if s == 0 {
        (-1, 0)
    } else if s == 1 {
        (1, -1)
    } else if s == 2 {
        (0, -1)
    } else {
        (-1, -1)
    }
}

/// Second sector neighbour offset (dx, dy).
pub open spec fn sector_off2(s: int) -> (int, int) {
    if s == 0 {
        (1, 0)
    } else if s == 1 {
        (-1, 1)
    } else if s == 2 {
        (0, 1)
    } else {
        (1, 1)
    }
}

/// Squared gradient magnitude at (x, y): defined for interior pixels, 0 on
/// the border, which the gradient pass never writes.
pub open spec fn mag_sq_at(
    pixels: Seq<u8>,
    width: int,
    height: int,
    ek: EdgeKernel,
    x: int,
    y: int,
) -> int {
    let k = edge_size(ek);
    if interior(width, height, k, x, y) {
        let gx = grad(pixels, width, edge_kx(ek), k, x, y);
        let gy = grad(pixels, width, edge_ky(ek), k, x, y);
        gx * gx + gy * gy
    } else {
        0
    }
}

/// Angle sector at (x, y), from the two directional derivatives.
pub open spec fn sector_at(
    pixels: Seq<u8>,
    width: int,
    height: int,
    ek: EdgeKernel,
    x: int,
    y: int,
) -> int {
    sector(
        grad(pixels, width, edge_kx(ek), edge_size(ek), x, y),
        grad(pixels, width, edge_ky(ek), edge_size(ek), x, y),
    )
}

/// Integer square root: the largest r with r * r <= n (0 for n <= 0).
pub open spec fn isqrt(n: int) -> int
    decreases n,
{
    if n <= 0 {
        0
    } else {
        let r = isqrt(n - 1);
        if (r + 1) * (r + 1) <= n {
            r + 1
        } else {
            r
        }
    }
}

pub proof fn lemma_isqrt(n: int)
    requires
        n >= 0,
    ensures
        0 <= isqrt(n),
        isqrt(n) * isqrt(n) <= n,
        n < (isqrt(n) + 1) * (isqrt(n) + 1),
    decreases n,
{
    if n == 0 {
        assert(isqrt(0) == 0);
        assert(0 < (isqrt(0) + 1) * (isqrt(0) + 1)) by (nonlinear_arith)
            requires
                isqrt(0) == 0,
        ;
    } else {
        lemma_isqrt(n - 1);
        let r = isqrt(n - 1);
        let i = isqrt(n);
        if (r + 1) * (r + 1) <= n {
            assert(i == r + 1);
            assert(i * i <= n);
            assert(n < (i + 1) * (i + 1)) by (nonlinear_arith)
                requires
                    n - 1 < (r + 1) * (r + 1),
                    r >= 0,
                    i == r + 1,
            ;
        } else {
            assert(i == r);
            assert(i * i <= n - 1 <= n);
            assert(n < (i + 1) * (i + 1));
        }
    }
}

pub proof fn lemma_isqrt_unique(n: int, r: int)
    requires
        0 <= r,
        r * r <= n,
        n < (r + 1) * (r + 1),
    ensures
        isqrt(n) == r,
{
    lemma_isqrt(n);
    let i = isqrt(n);
    assert(i == r) by (nonlinear_arith)
        requires
            0 <= r,
            0 <= i,
            r * r <= n,
            n < (r + 1) * (r + 1),
            i * i <= n,
            n < (i + 1) * (i + 1),
    ;
}

/// The value non-maximum suppression writes into each of the three channels
/// at (x, y): border pixels are suppressed outright; an interior pixel keeps
/// the 8-bit clamp of its gradient magnitude only if that magnitude is at
/// least those of its two sector neighbours.
pub open spec fn nms_at(
    pixels: Seq<u8>,
    width: int,
    height: int,
    ek: EdgeKernel,
    x: int,
    y: int,
) -> int {
    let k = edge_size(ek);
    if interior(width, height, k, x, y) {
        let m = mag_sq_at(pixels, width, height, ek, x, y);
        let s = sector_at(pixels, width, height, ek, x, y);
        let m1 = mag_sq_at(pixels, width, height, ek, x + sector_off1(s).0, y + sector_off1(s).1);
        let m2 = mag_sq_at(pixels, width, height, ek, x + sector_off2(s).0, y + sector_off2(s).1);
        if m >= m1 && m >= m2 {
            if isqrt(m) >= 255 {
                255
            } else {
                isqrt(m)
            }
        } else {
            0
        }
    } else {
        0
    }
}

/// (y, x) in row-major order lies before the pixel the scan is at.
pub open spec fn scanned(x: int, y: int, sx: int, sy: int) -> bool {
    y < sy || (y == sy && x < sx)
}

/// Both directional derivatives at an interior pixel, by one sweep of the
/// window; the coefficient grids must be those of `ek`.
#[verifier::loop_isolation(false)]
#[verifier::rlimit(30)]
fn grad_at(
    pixels: &Vec<u8>,
    w: usize,
    h: usize,
    kern: &Kernel,
    Ghost(ek): Ghost<EdgeKernel>,
    x: usize,
    y: usize,
) -> (g: (i64, i64))
    requires
        pixels@.len() == 3 * ((w as int) * (h as int)),
        kern.size as int == edge_size(ek),
        kern.kx@.len() == edge_size(ek) * edge_size(ek),
        kern.ky@.len() == edge_size(ek) * edge_size(ek),
        forall|i: int| 0 <= i < kern.kx@.len() ==> #[trigger] kern.kx@[i] as int == edge_kx(ek)[i],
        forall|i: int| 0 <= i < kern.ky@.len() ==> #[trigger] kern.ky@[i] as int == edge_ky(ek)[i],
        forall|i: int| 0 <= i < kern.kx@.len() ==> -2 <= #[trigger] kern.kx@[i] <= 2,
        forall|i: int| 0 <= i < kern.ky@.len() ==> -2 <= #[trigger] kern.ky@[i] <= 2,
        interior(w as int, h as int, edge_size(ek), x as int, y as int),
    ensures
        g.0 == grad(pixels@, w as int, edge_kx(ek), edge_size(ek), x as int, y as int),
        g.1 == grad(pixels@, w as int, edge_ky(ek), edge_size(ek), x as int, y as int),
        -4590 <= g.0 <= 4590,
        -4590 <= g.1 <= 4590,
{
    let n3 = pixels.len();
    let k = kern.size;
    let radius = k / 2;
    assert(k == 2 || k == 3);
    let mut gx: i64 = 0;
    let mut gy: i64 = 0;
    for dy in 0..k
        invariant
            gx == grad_part(
                pixels@,
                w as int,
                edge_kx(ek),
                k as int,
                x as int,
                y as int,
                dy as int * k as int,
            ),
            gy == grad_part(
                pixels@,
                w as int,
                edge_ky(ek),
                k as int,
                x as int,
                y as int,
                dy as int * k as int,
            ),
            -510 * (dy as int * k as int) <= gx <= 510 * (dy as int * k as int),
            -510 * (dy as int * k as int) <= gy <= 510 * (dy as int * k as int),
    {
        for dx in 0..k
            invariant
                gx == grad_part(
                    pixels@,
                    w as int,
                    edge_kx(ek),
                    k as int,
                    x as int,
                    y as int,
                    dy as int * k as int + dx as int,
                ),
                gy == grad_part(
                    pixels@,
                    w as int,
                    edge_ky(ek),
                    k as int,
                    x as int,
                    y as int,
                    dy as int * k as int + dx as int,
                ),
                -510 * (dy as int * k as int + dx as int) <= gx <= 510 * (dy as int * k as int
                    + dx as int),
                -510 * (dy as int * k as int + dx as int) <= gy <= 510 * (dy as int * k as int
                    + dx as int),
        {
            let ghost t = dy as int * k as int + dx as int;
            proof {
                assert(t < k as int * k as int && t * 510 <= 4590 - 510) by (nonlinear_arith)
                    requires
                        t == dy as int * k as int + dx as int,
                        0 <= dx < k as int,
                        0 <= dy < k as int,
                        2 <= k as int <= 3,
                ;
                vstd::arithmetic::div_mod::lemma_fundamental_div_mod_converse(
                    t,
                    k as int,
                    dy as int,
                    dx as int,
                );
            }
            let y0 = y + dy - radius;
            let x0 = x + dx - radius;
            proof {
                lemma_pix_bound(w as int, h as int, x0 as int, y0 as int);
            }
            let idx0 = y0 * w + x0;
            let gray = pixels[3 * idx0] as i64;
            let wi = dy * k + dx;
            let cx = kern.kx[wi] as i64;
            let cy = kern.ky[wi] as i64;
            proof {
                assert(-510 <= cx * gray <= 510 && -510 <= cy * gray <= 510) by (nonlinear_arith)
                    requires
                        -2 <= cx <= 2,
                        -2 <= cy <= 2,
                        0 <= gray < 256,
                ;
            }
            gx = gx + cx * gray;
            gy = gy + cy * gray;
        }
        proof {
            assert(dy as int * k as int + k as int == (dy as int + 1) * k as int)
                by (nonlinear_arith);
        }
    }
    proof {
        assert(k as int * k as int <= 9) by (nonlinear_arith)
            requires
                2 <= k as int <= 3,
        ;
    }
    (gx, gy)
}

/// Executable form of `sector`.
pub fn sector_of(gx: i64, gy: i64) -> (s: u8)
    requires
        -4590 <= gx <= 4590,
        -4590 <= gy <= 4590,
    ensures
        s as int == sector(gx as int, gy as int),
        s <= 3,
{
    let a: i64 = if gy >= 0 {
        gx
    } else {
        -gx
    };
    let b: i64 = if gy >= 0 {
        gy
    } else {
        -gy
    };
    proof {
        assert(0 <= (a + b) * (a + b) <= 100000000 && 0 <= (b - a) * (b - a) <= 100000000 && 0
            <= (b + a) * (b + a) <= 100000000 && 0 <= 2 * a * a <= 100000000) by (nonlinear_arith)
            requires
                -4590 <= a <= 4590,
                -4590 <= b <= 4590,
        ;
    }
    if b == 0 {
        0
    } else if a > 0 {
        if (a + b) * (a + b) <= 2 * a * a {
            0
        } else if b <= a || (b - a) * (b - a) <= 2 * a * a {
            1
        } else {
            2
        }
    } else if a == 0 {
        2
    } else {
        if (b - a) * (b - a) < 2 * a * a {
            0
        } else if b < -a || (b + a) * (b + a) < 2 * a * a {
            3
        } else {
            2
        }
    }
}

/// 8-bit clamp of the square root of a squared magnitude.
fn mag_to_u8(m: i64) -> (v: u8)
    requires
        0 <= m,
    ensures
        v as int == (if isqrt(m as int) >= 255 {
            255int
        } else {
            isqrt(m as int)
        }),
{
    proof {
        lemma_isqrt(m as int);
    }
    if m >= 65025 {
        proof {
            let i = isqrt(m as int);
            assert(i >= 255) by (nonlinear_arith)
                requires
                    m >= 65025,
                    i >= 0,
                    m < (i + 1) * (i + 1),
            ;
        }
        255
    } else {
        let mut r: i64 = 0;
        while (r + 1) * (r + 1) <= m
            invariant
                0 <= r <= 254,
                r * r <= m < 65025,
                0 <= (r + 1) * (r + 1) <= 65536,
            decreases m - r * r,
        {
            proof {
                assert((r + 1) * (r + 1) <= m < 65025 ==> r + 1 <= 254 && (r + 1) * (r + 1) > r
                    * r) by (nonlinear_arith)
                    requires
                        0 <= r <= 254,
                ;
            }
            r = r + 1;
            proof {
                assert(0 <= (r + 1) * (r + 1) <= 65536) by (nonlinear_arith)
                    requires
                        0 <= r <= 254,
                ;
            }
        }
        proof {
            lemma_isqrt_unique(m as int, r as int);
        }
        r as u8
    }
}

impl Image {
    /// Thins a gradient response: for every interior pixel the gradient
    /// magnitude and angle sector are computed from the gray channel with the
    /// chosen directional pair; a pixel keeps its (8-bit clamped) magnitude in
    /// all three channels only where it is at least as large as the magnitudes
    /// of its two sector neighbours, and is zeroed otherwise.  Border pixels,
    /// whose magnitude is never computed, are written as 0.
    #[verifier::loop_isolation(false)]
    #[verifier::rlimit(100)]
    pub fn non_maximum_suppression(self, kernel: EdgeKernel) -> (out: Image)
        requires
            self.wf(),
        ensures
            out.wf(),
            out.width == self.width,
            out.height == self.height,
            out.format == self.format,
            forall|x: int, y: int, c: int|
                0 <= x < self.width as int && 0 <= y < self.height as int && 0 <= c < 3
                    ==> #[trigger] chan(out.pixels@, pix(self.width as int, x, y), c) as int
                    == nms_at(self.pixels@, self.width as int, self.height as int, kernel, x, y),
    {
        let w = self.width as usize;
        let h = self.height as usize;
        let n3 = self.pixels.len();
        proof {
            assert(0 <= (w as int) * (h as int)) by (nonlinear_arith);
        }
        let n = w * h;
        let kern = kernel.kernel();
        let k = kern.size;
        let radius = k / 2;
        assert(radius == 1);

        let mut mags: Vec<i64> = Vec::new();
        let mut sectors: Vec<u8> = Vec::new();
        for i in 0..n
            invariant
                mags@.len() == i,
                sectors@.len() == i,
                forall|j: int| 0 <= j < i ==> #[trigger] mags@[j] == 0,
                forall|j: int| 0 <= j < i ==> #[trigger] sectors@[j] == 0,
        {
            mags.push(0);
            sectors.push(0);
        }

        let ghost pxs = self.pixels@;
        let ghost wi = w as int;
        let ghost hi = h as int;

        proof {
            assert forall|xx: int, yy: int| 0 <= xx < wi && 0 <= yy < hi implies #[trigger] mags@[pix(
                wi,
                xx,
                yy,
            )] == 0 by {
                lemma_pix_bound(wi, hi, xx, yy);
            }
            assert forall|xx: int, yy: int| 0 <= xx < wi && 0 <= yy < hi implies #[trigger] sectors@[pix(
                wi,
                xx,
                yy,
            )] == 0 by {
                lemma_pix_bound(wi, hi, xx, yy);
            }
        }

        let mut y = radius;
        while y < h - radius
            invariant
                radius <= y <= h,
                mags@.len() == n,
                sectors@.len() == n,
                forall|xx: int, yy: int|
                    0 <= xx < wi && 0 <= yy < hi ==> #[trigger] mags@[pix(wi, xx, yy)] == (
                    if scanned(xx, yy, radius as int, y as int) {
                        mag_sq_at(pxs, wi, hi, kernel, xx, yy)
                    } else {
                        0
                    }),
                forall|xx: int, yy: int|
                    0 <= xx < wi && 0 <= yy < hi ==> #[trigger] sectors@[pix(wi, xx, yy)] as int
                        == (if scanned(xx, yy, radius as int, y as int) && interior(
                        wi,
                        hi,
                        edge_size(kernel),
                        xx,
                        yy,
                    ) {
                        sector_at(pxs, wi, hi, kernel, xx, yy)
                    } else {
                        0
                    }),
            decreases h - y,
        {
            let mut x = radius;
            while x < w - radius
                invariant
                    radius <= x <= w,
                    y < h - radius,
                    mags@.len() == n,
                    sectors@.len() == n,
                    forall|xx: int, yy: int|
                        0 <= xx < wi && 0 <= yy < hi ==> #[trigger] mags@[pix(wi, xx, yy)] == (
                        if scanned(xx, yy, x as int, y as int) {
                            mag_sq_at(pxs, wi, hi, kernel, xx, yy)
                        } else {
                            0
                        }),
                    forall|xx: int, yy: int|
                        0 <= xx < wi && 0 <= yy < hi ==> #[trigger] sectors@[pix(
                            wi,
                            xx,
                            yy,
                        )] as int == (if scanned(xx, yy, x as int, y as int) && interior(
                            wi,
                            hi,
                            edge_size(kernel),
                            xx,
                            yy,
                        ) {
                            sector_at(pxs, wi, hi, kernel, xx, yy)
                        } else {
                            0
                        }),
                decreases w - x,
            {
                let g = grad_at(&self.pixels, w, h, &kern, Ghost(kernel), x, y);
                let gx = g.0;
                let gy = g.1;
                proof {
                    assert(0 <= gx * gx <= 25000000 && 0 <= gy * gy <= 25000000)
                        by (nonlinear_arith)
                        requires
                            -4590 <= gx <= 4590,
                            -4590 <= gy <= 4590,
                    ;
                    lemma_pix_bound(wi, hi, x as int, y as int);
                }
                let m = gx * gx + gy * gy;
                let s = sector_of(gx, gy);
                let idx = y * w + x;
                let ghost old_mags = mags@;
                let ghost old_sectors = sectors@;
                mags.set(idx, m);
                sectors.set(idx, s);
                proof {
                    assert forall|xx: int, yy: int| 0 <= xx < wi && 0 <= yy < hi implies #[trigger] mags@[pix(
                        wi,
                        xx,
                        yy,
                    )] == (if scanned(xx, yy, x as int + 1, y as int) {
                        mag_sq_at(pxs, wi, hi, kernel, xx, yy)
                    } else {
                        0
                    }) by {
                        lemma_pix_bound(wi, hi, xx, yy);
                        if xx == x as int && yy == y as int {
                            assert(mags@[pix(wi, xx, yy)] == m);
                        } else {
                            lemma_pix_injective(wi, xx, yy, x as int, y as int);
                            assert(mags@[pix(wi, xx, yy)] == old_mags[pix(wi, xx, yy)]);
                        }
                    }
                    assert forall|xx: int, yy: int| 0 <= xx < wi && 0 <= yy < hi implies #[trigger] sectors@[pix(
                        wi,
                        xx,
                        yy,
                    )] as int == (if scanned(xx, yy, x as int + 1, y as int) && interior(
                        wi,
                        hi,
                        edge_size(kernel),
                        xx,
                        yy,
                    ) {
                        sector_at(pxs, wi, hi, kernel, xx, yy)
                    } else {
                        0
                    }) by {
                        lemma_pix_bound(wi, hi, xx, yy);
                        if xx == x as int && yy == y as int {
                            assert(sectors@[pix(wi, xx, yy)] == s);
                        } else {
                            lemma_pix_injective(wi, xx, yy, x as int, y as int);
                            assert(sectors@[pix(wi, xx, yy)] == old_sectors[pix(wi, xx, yy)]);
                        }
                    }
                }
                x = x + 1;
            }
            y = y + 1;
        }

        proof {
            assert forall|xx: int, yy: int| 0 <= xx < wi && 0 <= yy < hi implies #[trigger] mags@[pix(
                wi,
                xx,
                yy,
            )] == mag_sq_at(pxs, wi, hi, kernel, xx, yy) by {
                lemma_pix_bound(wi, hi, xx, yy);
            }
            assert forall|xx: int, yy: int|
                0 <= xx < wi && 0 <= yy < hi && interior(wi, hi, edge_size(kernel), xx, yy)
                implies #[trigger] sectors@[pix(wi, xx, yy)] as int == sector_at(
                pxs,
                wi,
                hi,
                kernel,
                xx,
                yy,
            ) by {
                lemma_pix_bound(wi, hi, xx, yy);
            }
        }

        let mut output_pixels: Vec<u8> = Vec::new();
        for i in 0..n3
            invariant
                output_pixels@.len() == i,
                forall|j: int| 0 <= j < i ==> #[trigger] output_pixels@[j] == 0,
        {
            output_pixels.push(0);
        }

        proof {
            assert forall|xx: int, yy: int, c: int|
                0 <= xx < wi && 0 <= yy < hi && 0 <= c < 3 implies #[trigger] chan(
                output_pixels@,
                pix(wi, xx, yy),
                c,
            ) == 0 by {
                lemma_pix_bound(wi, hi, xx, yy);
            }
        }

        let mut y = radius;
        while y < h - radius
            invariant
                radius <= y <= h,
                mags@.len() == n,
                sectors@.len() == n,
                output_pixels@.len() == n3,
                forall|xx: int, yy: int|
                    0 <= xx < wi && 0 <= yy < hi ==> #[trigger] mags@[pix(wi, xx, yy)]
                        == mag_sq_at(pxs, wi, hi, kernel, xx, yy),
                forall|xx: int, yy: int|
                    0 <= xx < wi && 0 <= yy < hi && interior(wi, hi, edge_size(kernel), xx, yy)
                        ==> #[trigger] sectors@[pix(wi, xx, yy)] as int == sector_at(
                        pxs,
                        wi,
                        hi,
                        kernel,
                        xx,
                        yy,
                    ),
                forall|xx: int, yy: int, c: int|
                    0 <= xx < wi && 0 <= yy < hi && 0 <= c < 3 ==> #[trigger] chan(
                        output_pixels@,
                        pix(wi, xx, yy),
                        c,
                    ) as int == (if scanned(xx, yy, radius as int, y as int) {
                        nms_at(pxs, wi, hi, kernel, xx, yy)
                    } else {
                        0
                    }),
            decreases h - y,
        {
            let mut x = radius;
            while x < w - radius
                invariant
                    radius <= x <= w,
                    y < h - radius,
                    mags@.len() == n,
                    sectors@.len() == n,
                    output_pixels@.len() == n3,
                    forall|xx: int, yy: int|
                        0 <= xx < wi && 0 <= yy < hi ==> #[trigger] mags@[pix(wi, xx, yy)]
                            == mag_sq_at(pxs, wi, hi, kernel, xx, yy),
                    forall|xx: int, yy: int|
                        0 <= xx < wi && 0 <= yy < hi && interior(
                            wi,
                            hi,
                            edge_size(kernel),
                            xx,
                            yy,
                        ) ==> #[trigger] sectors@[pix(wi, xx, yy)] as int == sector_at(
                            pxs,
                            wi,
                            hi,
                            kernel,
                            xx,
                            yy,
                        ),
                    forall|xx: int, yy: int, c: int|
                        0 <= xx < wi && 0 <= yy < hi && 0 <= c < 3 ==> #[trigger] chan(
                            output_pixels@,
                            pix(wi, xx, yy),
                            c,
                        ) as int == (if scanned(xx, yy, x as int, y as int) {
                            nms_at(pxs, wi, hi, kernel, xx, yy)
                        } else {
                            0
                        }),
                decreases w - x,
            {
                proof {
                    lemma_pix_bound(wi, hi, x as int, y as int);
                    assert((y as int) * wi >= 1 * wi && (y as int + 1) * wi + wi <= hi * wi)
                        by (nonlinear_arith)
                        requires
                            1 <= y as int,
                            y as int + 2 <= hi,
                            0 <= wi,
                    ;
                    assert((y as int + 1) * wi == (y as int) * wi + wi && (y as int - 1) * wi
                        == (y as int) * wi - wi) by (nonlinear_arith);
                    assert(n == hi * wi) by (nonlinear_arith)
                        requires
                            n == (w as int) * (h as int),
                            wi == w as int,
                            hi == h as int,
                    ;
                }
                let idx = y * w + x;
                let m = mags[idx];
                let s = sectors[idx];
                let (m1, m2) = if s == 0 {
                    (mags[idx - 1], mags[idx + 1])
                } else if s == 1 {
                    (mags[idx - w + 1], mags[idx + w - 1])
                } else if s == 2 {
                    (mags[idx - w], mags[idx + w])
                } else {
                    (mags[idx - w], mags[idx + w])
                };
                let (m1, m2) = if s == 3 {
                    (mags[idx - w - 1], mags[idx + w + 1])
                } else {
                    (m1, m2)
                };
                proof {
                    let ss = sector_at(pxs, wi, hi, kernel, x as int, y as int);
                    assert(0 <= ss <= 3);
                    assert(idx as int == pix(wi, x as int, y as int));
                    assert(interior(wi, hi, edge_size(kernel), x as int, y as int));
                    assert(s as int == ss);
                    let o1 = sector_off1(ss);
                    let o2 = sector_off2(ss);
                    lemma_pix_bound(wi, hi, x as int + o1.0, y as int + o1.1);
                    lemma_pix_bound(wi, hi, x as int + o2.0, y as int + o2.1);
                    assert(pix(wi, x as int + o1.0, y as int + o1.1) == (y as int + o1.1) * wi + x
                        as int + o1.0);
                    assert(pix(wi, x as int + o2.0, y as int + o2.1) == (y as int + o2.1) * wi + x
                        as int + o2.0);
                    let gxc = grad(pxs, wi, edge_kx(kernel), edge_size(kernel), x as int, y as int);
                    let gyc = grad(pxs, wi, edge_ky(kernel), edge_size(kernel), x as int, y as int);
                    assert(0 <= gxc * gxc + gyc * gyc) by (nonlinear_arith);
                    assert(m >= 0);
                    assert(mags@[pix(wi, x as int + o1.0, y as int + o1.1)] == mag_sq_at(
                        pxs,
                        wi,
                        hi,
                        kernel,
                        x as int + o1.0,
                        y as int + o1.1,
                    ));
                    assert(mags@[pix(wi, x as int + o2.0, y as int + o2.1)] == mag_sq_at(
                        pxs,
                        wi,
                        hi,
                        kernel,
                        x as int + o2.0,
                        y as int + o2.1,
                    ));
                    if s == 0 {
                        assert(o1.0 == -1 && o1.1 == 0 && o2.0 == 1 && o2.1 == 0);
                        assert(m1 == mags@[pix(wi, x as int + o1.0, y as int + o1.1)]);
                        assert(m2 == mags@[pix(wi, x as int + o2.0, y as int + o2.1)]);
                    } else if s == 1 {
                        assert(o1.0 == 1 && o1.1 == -1 && o2.0 == -1 && o2.1 == 1);
                        assert(m1 == mags@[pix(wi, x as int + o1.0, y as int + o1.1)]);
                        assert(m2 == mags@[pix(wi, x as int + o2.0, y as int + o2.1)]);
                    } else if s == 2 {
                        assert(o1.0 == 0 && o1.1 == -1 && o2.0 == 0 && o2.1 == 1);
                        assert(m1 == mags@[pix(wi, x as int + o1.0, y as int + o1.1)]);
                        assert(m2 == mags@[pix(wi, x as int + o2.0, y as int + o2.1)]);
                    } else {
                        assert(s == 3);
                        assert(o1.0 == -1 && o1.1 == -1 && o2.0 == 1 && o2.1 == 1);
                        assert(m1 == mags@[pix(wi, x as int + o1.0, y as int + o1.1)]);
                        assert(m2 == mags@[pix(wi, x as int + o2.0, y as int + o2.1)]);
                    }
                    assert(m1 == mag_sq_at(pxs, wi, hi, kernel, x as int + o1.0, y as int + o1.1));
                    assert(m2 == mag_sq_at(pxs, wi, hi, kernel, x as int + o2.0, y as int + o2.1));
                }
                let pixel: u8 = if m >= m1 && m >= m2 {
                    mag_to_u8(m)
                } else {
                    0
                };
                let ghost old_out = output_pixels@;
                output_pixels.set(3 * idx, pixel);
                output_pixels.set(3 * idx + 1, pixel);
                output_pixels.set(3 * idx + 2, pixel);
                proof {
                    assert(pixel as int == nms_at(pxs, wi, hi, kernel, x as int, y as int));
                    assert forall|xx: int, yy: int, c: int|
                        0 <= xx < wi && 0 <= yy < hi && 0 <= c < 3 implies #[trigger] chan(
                        output_pixels@,
                        pix(wi, xx, yy),
                        c,
                    ) as int == (if scanned(xx, yy, x as int + 1, y as int) {
                        nms_at(pxs, wi, hi, kernel, xx, yy)
                    } else {
                        0
                    }) by {
                        lemma_pix_bound(wi, hi, xx, yy);
                        if xx == x as int && yy == y as int {
                            assert(chan(output_pixels@, pix(wi, xx, yy), c) == pixel);
                        } else {
                            lemma_pix_injective(wi, xx, yy, x as int, y as int);
                            assert(chan(output_pixels@, pix(wi, xx, yy), c) == chan(
                                old_out,
                                pix(wi, xx, yy),
                                c,
                            ));
                        }
                    }
                }
                x = x + 1;
            }
            y = y + 1;
        }

        proof {
            assert forall|xx: int, yy: int, c: int|
                0 <= xx < wi && 0 <= yy < hi && 0 <= c < 3 implies #[trigger] chan(
                output_pixels@,
                pix(wi, xx, yy),
                c,
            ) as int == nms_at(pxs, wi, hi, kernel, xx, yy) by {
                lemma_pix_bound(wi, hi, xx, yy);
            }
        }

        Image { width: self.width, height: self.height, pixels: output_pixels, format: self.format }
    }
}

/// In-bounds pixel coordinate.
pub open spec fn in_grid(width: int, height: int, x: int, y: int) -> bool {
    0 <= x < width && 0 <= y < height
}

/// The eight neighbour offsets (dx, dy), in scan order.
pub open spec fn nbr(k: int) -> (int, int) {
    if k == 0 {
        (-1, -1)
    } else if k == 1 {
        (0, -1)
    } else if k == 2 {
        (1, -1)
    } else if k == 3 {
        (-1, 0)
    } else if k == 4 {
        (1, 0)
    } else if k == 5 {
        (-1, 1)
    } else if k == 6 {
        (0, 1)
    } else {
        (1, 1)
    }
}

/// 8-adjacency of two pixel coordinates.
pub open spec fn adjacent(x1: int, y1: int, x2: int, y2: int) -> bool {
    exists|k: int| 0 <= k < 8 && x2 == x1 + #[trigger] nbr(k).0 && y2 == y1 + nbr(k).1
}

/// A chain of pixels that carries the edge classification: it starts at a
/// strong pixel (gray value at least `upper`) and every later pixel is
/// 8-adjacent to the one before it and has gray value at least `lower`.
pub open spec fn path_ok(
    pixels: Seq<u8>,
    width: int,
    height: int,
    lower: u8,
    upper: u8,
    path: Seq<(int, int)>,
) -> bool {
    &&& path.len() >= 1
    &&& forall|i: int|
        0 <= i < path.len() ==> in_grid(width, height, (#[trigger] path[i]).0, path[i].1)
    &&& gray_at(pixels, width, path[0].0, path[0].1) >= upper
    &&& forall|i: int|
        1 <= i < path.len() ==> adjacent(
            path[i - 1].0,
            path[i - 1].1,
            (#[trigger] path[i]).0,
            path[i].1,
        )
    &&& forall|i: int|
        1 <= i < path.len() ==> gray_at(pixels, width, (#[trigger] path[i]).0, path[i].1) >= lower
}

/// (x, y) is an edge pixel: it is reachable from some strong pixel through
/// an 8-connected chain of pixels at or above the lower threshold (a strong
/// pixel itself is reached by the one-pixel chain).
#[verifier::opaque]
pub open spec fn edge_reachable(
    pixels: Seq<u8>,
    width: int,
    height: int,
    lower: u8,
    upper: u8,
    x: int,
    y: int,
) -> bool {
    exists|path: Seq<(int, int)>|
        #[trigger] path_ok(pixels, width, height, lower, upper, path) && path.last() == (x, y)
}

/// The whole hysteresis output buffer: 255 in every channel of every edge
/// pixel, 0 elsewhere.
pub open spec fn hyst_pixels(
    pixels: Seq<u8>,
    width: int,
    height: int,
    lower: u8,
    upper: u8,
) -> Seq<u8> {
    Seq::new(
        (3 * (width * height)) as nat,
        |i: int|
            if edge_reachable(pixels, width, height, lower, upper, (i / 3) % width, (i / 3)
                / width) {
                255
            } else {
                0
            },
    )
}

/// A strong pixel is an edge pixel.
pub proof fn lemma_reach_strong(
    pixels: Seq<u8>,
    width: int,
    height: int,
    lower: u8,
    upper: u8,
    x: int,
    y: int,
)
    requires
        in_grid(width, height, x, y),
        gray_at(pixels, width, x, y) >= upper,
    ensures
        edge_reachable(pixels, width, height, lower, upper, x, y),
{
    reveal(edge_reachable);
    let p = seq![(x, y)];
    assert(p.last() == (x, y));
    assert(path_ok(pixels, width, height, lower, upper, p));
}

/// An in-bounds neighbour of an edge pixel whose value reaches `lower` is an
/// edge pixel too.
pub proof fn lemma_reach_step(
    pixels: Seq<u8>,
    width: int,
    height: int,
    lower: u8,
    upper: u8,
    x: int,
    y: int,
    nx: int,
    ny: int,
)
    requires
        edge_reachable(pixels, width, height, lower, upper, x, y),
        in_grid(width, height, nx, ny),
        adjacent(x, y, nx, ny),
        gray_at(pixels, width, nx, ny) >= lower,
    ensures
        edge_reachable(pixels, width, height, lower, upper, nx, ny),
{
    reveal(edge_reachable);
    let p0 = choose|p: Seq<(int, int)>|
        #[trigger] path_ok(pixels, width, height, lower, upper, p) && p.last() == (x, y);
    let p1 = p0.push((nx, ny));
    assert(p1.last() == (nx, ny));
    assert forall|i: int| 0 <= i < p1.len() implies in_grid(
        width,
        height,
        (#[trigger] p1[i]).0,
        p1[i].1,
    ) by {
        if i < p0.len() {
            assert(p1[i] == p0[i]);
        }
    }
    assert forall|i: int| 1 <= i < p1.len() implies adjacent(
        p1[i - 1].0,
        p1[i - 1].1,
        (#[trigger] p1[i]).0,
        p1[i].1,
    ) && gray_at(pixels, width, (#[trigger] p1[i]).0, p1[i].1) >= lower by {
        if i < p0.len() {
            assert(p1[i] == p0[i]);
            assert(p1[i - 1] == p0[i - 1]);
        } else {
            assert(p1[i] == (nx, ny));
            assert(p1[i - 1] == p0[p0.len() - 1]);
            assert(p0[p0.len() - 1] == (x, y));
        }
    }
    assert(path_ok(pixels, width, height, lower, upper, p1));
}

/// Any pixel on a mask that contains every strong pixel and is closed under
/// taking qualifying neighbours covers every edge pixel.
proof fn lemma_reach_visited(
    pixels: Seq<u8>,
    width: int,
    height: int,
    lower: u8,
    upper: u8,
    visited: Seq<bool>,
    path: Seq<(int, int)>,
)
    requires
        visited.len() == width * height,
        path_ok(pixels, width, height, lower, upper, path),
        forall|x: int, y: int|
            in_grid(width, height, x, y) && gray_at(pixels, width, x, y) >= upper
                ==> visited[#[trigger] pix(width, x, y)],
        forall|x: int, y: int, ax: int, ay: int|
            #![trigger pix(width, x, y), pix(width, ax, ay)]
            in_grid(width, height, x, y) && visited[pix(width, x, y)] && in_grid(
                width,
                height,
                ax,
                ay,
            ) && adjacent(x, y, ax, ay) && gray_at(pixels, width, ax, ay) >= lower ==> visited[pix(
                width,
                ax,
                ay,
            )],
    ensures
        visited[pix(width, path.last().0, path.last().1)],
    decreases path.len(),
{
    let n = path.len() as int;
    if n == 1 {
        assert(visited[pix(width, path[0].0, path[0].1)]);
    } else {
        let pre = path.drop_last();
        assert(pre.len() >= 1);
        assert forall|i: int| 0 <= i < pre.len() implies in_grid(
            width,
            height,
            (#[trigger] pre[i]).0,
            pre[i].1,
        ) by {
            assert(pre[i] == path[i]);
        }
        assert(pre[0] == path[0]);
        assert forall|i: int| 1 <= i < pre.len() implies adjacent(
            pre[i - 1].0,
            pre[i - 1].1,
            (#[trigger] pre[i]).0,
            pre[i].1,
        ) && gray_at(pixels, width, (#[trigger] pre[i]).0, pre[i].1) >= lower by {
            assert(pre[i] == path[i]);
            assert(pre[i - 1] == path[i - 1]);
        }
        assert(path_ok(pixels, width, height, lower, upper, pre));
        lemma_reach_visited(pixels, width, height, lower, upper, visited, pre);
        let prev = path[n - 2];
        let last = path[n - 1];
        assert(pre.last() == prev);
        assert(adjacent(prev.0, prev.1, last.0, last.1));
        assert(visited[pix(width, prev.0, prev.1)]);
        assert(gray_at(pixels, width, last.0, last.1) >= lower);
        assert(visited[pix(width, last.0, last.1)]);
    }
}

/// Number of set entries of a boolean mask.
pub open spec fn count_true(s: Seq<bool>) -> int
    decreases s.len(),
{
    if s.len() == 0 {
        0
    } else {
        count_true(s.drop_last()) + if s.last() {
            1int
        } else {
            0int
        }
    }
}

proof fn lemma_count_true_bounds(s: Seq<bool>)
    ensures
        0 <= count_true(s) <= s.len(),
    decreases s.len(),
{
    if s.len() > 0 {
        lemma_count_true_bounds(s.drop_last());
    }
}

proof fn lemma_count_true_update(s: Seq<bool>, i: int)
    requires
        0 <= i < s.len(),
        !s[i],
    ensures
        count_true(s.update(i, true)) == count_true(s) + 1,
    decreases s.len(),
{
    let t = s.update(i, true);
    if i == s.len() - 1 {
        assert(t.drop_last() =~= s.drop_last());
    } else {
        assert(t.drop_last() =~= s.drop_last().update(i, true));
        lemma_count_true_update(s.drop_last(), i);
        assert(t.last() == s.last());
    }
}

/// (x, y) sits in the pending part of the traversal queue.
pub open spec fn queued(q: Seq<(u32, u32)>, head: int, x: int, y: int) -> bool {
    exists|j: int| head <= j < q.len() && (#[trigger] q[j]).0 as int == x && q[j].1 as int == y
}

/// Every visited pixel that is no longer pending in the queue -- except
/// possibly (ex, ey) -- already has all of its in-bounds 8-neighbours at or
/// above `lower` visited.
#[verifier::opaque]
pub open spec fn swept(
    pixels: Seq<u8>,
    width: int,
    height: int,
    lower: u8,
    visited: Seq<bool>,
    q: Seq<(u32, u32)>,
    head: int,
    ex: int,
    ey: int,
) -> bool {
    forall|x: int, y: int, ax: int, ay: int|
        #![trigger pix(width, x, y), pix(width, ax, ay)]
        in_grid(width, height, x, y) && visited[pix(width, x, y)] && !queued(q, head, x, y) && !(x
            == ex && y == ey) && in_grid(width, height, ax, ay) && adjacent(x, y, ax, ay)
            && gray_at(pixels, width, ax, ay) >= lower ==> visited[pix(width, ax, ay)]
}

proof fn lemma_queued_push(q: Seq<(u32, u32)>, e: (u32, u32), head: int, x: int, y: int)
    requires
        0 <= head,
        queued(q, head, x, y),
    ensures
        queued(q.push(e), head, x, y),
{
    let j = choose|j: int|
        head <= j < q.len() && (#[trigger] q[j]).0 as int == x && q[j].1 as int == y;
    assert(q.push(e)[j] == q[j]);
}

proof fn lemma_index_decomp(wi: int, hi: int, i: int)
    requires
        0 < wi,
        0 < hi,
        0 <= i < 3 * (wi * hi),
    ensures
        0 <= (i / 3) % wi < wi,
        0 <= (i / 3) / wi < hi,
        3 * pix(wi, (i / 3) % wi, (i / 3) / wi) + (i % 3) == i,
        0 <= i % 3 < 3,
{
    vstd::arithmetic::div_mod::lemma_fundamental_div_mod(i, 3);
    vstd::arithmetic::div_mod::lemma_mod_bound(i, 3);
    let p = i / 3;
    assert(0 <= p && 3 * p <= i) by (nonlinear_arith)
        requires
            i == 3 * p + i % 3,
            0 <= i % 3 < 3,
            0 <= i,
    ;
    assert(p < wi * hi) by (nonlinear_arith)
        requires
            3 * p <= i,
            i < 3 * (wi * hi),
    ;
    vstd::arithmetic::div_mod::lemma_fundamental_div_mod(p, wi);
    vstd::arithmetic::div_mod::lemma_mod_bound(p, wi);
    let yy = p / wi;
    let xx = p % wi;
    assert(0 <= yy && yy < hi) by (nonlinear_arith)
        requires
            p == wi * yy + xx,
            0 <= xx < wi,
            0 <= p < wi * hi,
            0 < wi,
            0 < hi,
    ;
    assert(yy * wi == wi * yy) by (nonlinear_arith);
}

impl Image {
    /// Double-threshold hysteresis: every pixel whose gray channel reaches
    /// `upper` becomes a strong seed; the edge classification then spreads by
    /// breadth-first traversal through 8-connected neighbours whose gray
    /// channel reaches `lower`.  Exactly the reachable pixels come out white
    /// (255 in all three channels); every other pixel is black.
    #[verifier::rlimit(100)]
    pub fn hysteresis_thresholding(self, lower: u8, upper: u8) -> (out: Image)
        requires
            self.wf(),
        ensures
            out.wf(),
            out.width == self.width,
            out.height == self.height,
            out.format == self.format,
            forall|x: int, y: int, c: int|
                0 <= x < self.width as int && 0 <= y < self.height as int && 0 <= c < 3
                    ==> #[trigger] chan(out.pixels@, pix(self.width as int, x, y), c) as int == (
                    if edge_reachable(
                        self.pixels@,
                        self.width as int,
                        self.height as int,
                        lower,
                        upper,
                        x,
                        y,
                    ) {
                        255int
                    } else {
                        0int
                    }),
            out.pixels@ == hyst_pixels(
                self.pixels@,
                self.width as int,
                self.height as int,
                lower,
                upper,
            ),
    {
        let w = self.width as usize;
        let h = self.height as usize;
        let n3 = self.pixels.len();
        proof {
            assert(0 <= (w as int) * (h as int)) by (nonlinear_arith);
        }
        let n = w * h;
        let ghost pxs = self.pixels@;
        let ghost wi = w as int;
        let ghost hi = h as int;

        let mut visited: Vec<bool> = Vec::new();
        for i in 0..n
            invariant
                visited@.len() == i,
                forall|j: int| 0 <= j < i ==> !(#[trigger] visited@[j]),
        {
            visited.push(false);
        }
        let mut output_pixels: Vec<u8> = Vec::new();
        for i in 0..n3
            invariant
                output_pixels@.len() == i,
                forall|j: int| 0 <= j < i ==> #[trigger] output_pixels@[j] == 0,
        {
            output_pixels.push(0);
        }
        let mut queue: Vec<(u32, u32)> = Vec::new();

        proof {
            assert forall|xx: int, yy: int| 0 <= xx < wi && 0 <= yy < hi implies !visited@[#[trigger] pix(
                wi,
                xx,
                yy,
            )] by {
                lemma_pix_bound(wi, hi, xx, yy);
            }
            assert forall|xx: int, yy: int, c: int|
                0 <= xx < wi && 0 <= yy < hi && 0 <= c < 3 implies #[trigger] chan(
                output_pixels@,
                pix(wi, xx, yy),
                c,
            ) == 0 by {
                lemma_pix_bound(wi, hi, xx, yy);
            }
        }

        let mut y: usize = 0;
        while y < h
            invariant
                self.wf(),
                w == self.width as usize,
                h == self.height as usize,
                wi == w as int,
                hi == h as int,
                pxs == self.pixels@,
                n == w * h,
                n3 == self.pixels@.len(),
                n3 as int == 3 * (n as int),
                y <= h,
                visited@.len() == n,
                output_pixels@.len() == n3,
                forall|j: int|
                    0 <= j < queue@.len() ==> in_grid(
                        wi,
                        hi,
                        (#[trigger] queue@[j]).0 as int,
                        queue@[j].1 as int,
                    ) && visited@[pix(wi, queue@[j].0 as int, queue@[j].1 as int)],
                forall|xx: int, yy: int|
                    0 <= xx < wi && 0 <= yy < hi ==> (visited@[#[trigger] pix(wi, xx, yy)] <==> (
                    scanned(xx, yy, 0, y as int) && gray_at(pxs, wi, xx, yy) >= upper)),
                forall|xx: int, yy: int, c: int|
                    0 <= xx < wi && 0 <= yy < hi && 0 <= c < 3 ==> #[trigger] chan(
                        output_pixels@,
                        pix(wi, xx, yy),
                        c,
                    ) as int == (if visited@[pix(wi, xx, yy)] {
                        255int
                    } else {
                        0int
                    }),
                forall|xx: int, yy: int|
                    0 <= xx < wi && 0 <= yy < hi && visited@[#[trigger] pix(wi, xx, yy)]
                        ==> queued(queue@, 0, xx, yy),
            decreases h - y,
        {
            let mut x: usize = 0;
            while x < w
                invariant
                    self.wf(),
                    w == self.width as usize,
                    h == self.height as usize,
                    wi == w as int,
                    hi == h as int,
                    pxs == self.pixels@,
                    n == w * h,
                    n3 == self.pixels@.len(),
                    n3 as int == 3 * (n as int),
                    x <= w,
                    y < h,
                    visited@.len() == n,
                    output_pixels@.len() == n3,
                    forall|j: int|
                        0 <= j < queue@.len() ==> in_grid(
                            wi,
                            hi,
                            (#[trigger] queue@[j]).0 as int,
                            queue@[j].1 as int,
                        ) && visited@[pix(wi, queue@[j].0 as int, queue@[j].1 as int)],
                    forall|xx: int, yy: int|
                        0 <= xx < wi && 0 <= yy < hi ==> (visited@[#[trigger] pix(wi, xx, yy)]
                            <==> (scanned(xx, yy, x as int, y as int) && gray_at(pxs, wi, xx, yy)
                            >= upper)),
                    forall|xx: int, yy: int, c: int|
                        0 <= xx < wi && 0 <= yy < hi && 0 <= c < 3 ==> #[trigger] chan(
                            output_pixels@,
                            pix(wi, xx, yy),
                            c,
                        ) as int == (if visited@[pix(wi, xx, yy)] {
                            255int
                        } else {
                            0int
                        }),
                    forall|xx: int, yy: int|
                        0 <= xx < wi && 0 <= yy < hi && visited@[#[trigger] pix(wi, xx, yy)]
                            ==> queued(queue@, 0, xx, yy),
                decreases w - x,
            {
                proof {
                    lemma_pix_bound(wi, hi, x as int, y as int);
                }
                let idx = y * w + x;
                let val = self.pixels[3 * idx];
                if val >= upper {
                    let ghost old_vis = visited@;
                    let ghost old_out = output_pixels@;
                    let ghost old_q = queue@;
                    visited.set(idx, true);
                    output_pixels.set(3 * idx, 255);
                    output_pixels.set(3 * idx + 1, 255);
                    output_pixels.set(3 * idx + 2, 255);
                    queue.push((x as u32, y as u32));
                    proof {
                        assert(queue@[old_q.len() as int] == (x as u32, y as u32));
                        assert forall|xx: int, yy: int| 0 <= xx < wi && 0 <= yy < hi implies (
                        visited@[#[trigger] pix(wi, xx, yy)] <==> (scanned(
                            xx,
                            yy,
                            x as int + 1,
                            y as int,
                        ) && gray_at(pxs, wi, xx, yy) >= upper)) by {
                            lemma_pix_bound(wi, hi, xx, yy);
                            lemma_pix_injective(wi, xx, yy, x as int, y as int);
                        }
                        assert forall|xx: int, yy: int, c: int|
                            0 <= xx < wi && 0 <= yy < hi && 0 <= c < 3 implies #[trigger] chan(
                            output_pixels@,
                            pix(wi, xx, yy),
                            c,
                        ) as int == (if visited@[pix(wi, xx, yy)] {
                            255int
                        } else {
                            0int
                        }) by {
                            lemma_pix_bound(wi, hi, xx, yy);
                            lemma_pix_injective(wi, xx, yy, x as int, y as int);
                            if !(xx == x as int && yy == y as int) {
                                assert(chan(output_pixels@, pix(wi, xx, yy), c) == chan(
                                    old_out,
                                    pix(wi, xx, yy),
                                    c,
                                ));
                                assert(visited@[pix(wi, xx, yy)] == old_vis[pix(wi, xx, yy)]);
                            }
                        }
                        assert forall|xx: int, yy: int|
                            0 <= xx < wi && 0 <= yy < hi && visited@[#[trigger] pix(wi, xx, yy)] implies queued(
                            queue@,
                            0,
                            xx,
                            yy,
                        ) by {
                            lemma_pix_bound(wi, hi, xx, yy);
                            lemma_pix_injective(wi, xx, yy, x as int, y as int);
                            if xx == x as int && yy == y as int {
                                assert((#[trigger] queue@[old_q.len() as int]).0 as int == xx
                                    && queue@[old_q.len() as int].1 as int == yy);
                            } else {
                                assert(old_vis[pix(wi, xx, yy)]);
                                lemma_queued_push(old_q, (x as u32, y as u32), 0, xx, yy);
                            }
                        }
                    }
                } else {
                    proof {
                        assert(gray_at(pxs, wi, x as int, y as int) < upper);
                        assert forall|xx: int, yy: int| 0 <= xx < wi && 0 <= yy < hi implies (
                        visited@[#[trigger] pix(wi, xx, yy)] <==> (scanned(
                            xx,
                            yy,
                            x as int + 1,
                            y as int,
                        ) && gray_at(pxs, wi, xx, yy) >= upper)) by {
                            lemma_pix_bound(wi, hi, xx, yy);
                            lemma_pix_injective(wi, xx, yy, x as int, y as int);
                        }
                    }
                }
                x = x + 1;
            }
            y = y + 1;
        }

        proof {
            lemma_count_true_bounds(visited@);
            assert forall|xx: int, yy: int|
                0 <= xx < wi && 0 <= yy < hi && visited@[#[trigger] pix(wi, xx, yy)] implies edge_reachable(
                pxs,
                wi,
                hi,
                lower,
                upper,
                xx,
                yy,
            ) by {
                lemma_reach_strong(pxs, wi, hi, lower, upper, xx, yy);
            }
        }

        proof {
            reveal(swept);
            assert forall|xx: int, yy: int, ax: int, ay: int|
                #![trigger pix(wi, xx, yy), pix(wi, ax, ay)]
                in_grid(wi, hi, xx, yy) && visited@[pix(wi, xx, yy)] && !queued(
                    queue@,
                    0,
                    xx,
                    yy,
                ) && !(xx == -1 && yy == -1) && in_grid(wi, hi, ax, ay) && adjacent(xx, yy, ax, ay)
                    && gray_at(pxs, wi, ax, ay) >= lower implies visited@[pix(wi, ax, ay)] by {
                assert(queued(queue@, 0, xx, yy));
            }
            assert(swept(pxs, wi, hi, lower, visited@, queue@, 0, -1, -1));
        }

        let mut head: usize = 0;
        while head < queue.len()
            invariant
                self.wf(),
                w == self.width as usize,
                h == self.height as usize,
                wi == w as int,
                hi == h as int,
                pxs == self.pixels@,
                n == w * h,
                n3 == self.pixels@.len(),
                n3 as int == 3 * (n as int),
                head <= queue@.len(),
                visited@.len() == n,
                output_pixels@.len() == n3,
                0 <= count_true(visited@) <= n,
                forall|j: int|
                    0 <= j < queue@.len() ==> in_grid(
                        wi,
                        hi,
                        (#[trigger] queue@[j]).0 as int,
                        queue@[j].1 as int,
                    ) && visited@[pix(wi, queue@[j].0 as int, queue@[j].1 as int)],
                forall|xx: int, yy: int|
                    0 <= xx < wi && 0 <= yy < hi && visited@[#[trigger] pix(wi, xx, yy)]
                        ==> edge_reachable(pxs, wi, hi, lower, upper, xx, yy),
                forall|xx: int, yy: int|
                    0 <= xx < wi && 0 <= yy < hi && gray_at(pxs, wi, xx, yy) >= upper
                        ==> visited@[#[trigger] pix(wi, xx, yy)],
                forall|xx: int, yy: int, c: int|
                    0 <= xx < wi && 0 <= yy < hi && 0 <= c < 3 ==> #[trigger] chan(
                        output_pixels@,
                        pix(wi, xx, yy),
                        c,
                    ) as int == (if visited@[pix(wi, xx, yy)] {
                        255int
                    } else {
                        0int
                    }),
                swept(pxs, wi, hi, lower, visited@, queue@, head as int, -1, -1),
            decreases n - count_true(visited@), queue@.len() - head,
        {
            let c_pair = queue[head];
            let cx = c_pair.0;
            let cy = c_pair.1;
            let ghost head0 = head as int;
            head = head + 1;
            proof {
                reveal(swept);
                assert forall|xx: int, yy: int, ax: int, ay: int|
                    #![trigger pix(wi, xx, yy), pix(wi, ax, ay)]
                    in_grid(wi, hi, xx, yy) && visited@[pix(wi, xx, yy)] && !queued(
                        queue@,
                        head as int,
                        xx,
                        yy,
                    ) && !(xx == cx as int && yy == cy as int) && in_grid(wi, hi, ax, ay)
                        && adjacent(xx, yy, ax, ay) && gray_at(pxs, wi, ax, ay)
                        >= lower implies visited@[pix(wi, ax, ay)] by {
                    if queued(queue@, head0, xx, yy) {
                        let j = choose|j: int|
                            head0 <= j < queue@.len() && (#[trigger] queue@[j]).0 as int == xx
                                && queue@[j].1 as int == yy;
                        assert(j == head0);
                        assert(false);
                    }
                }
                assert(swept(pxs, wi, hi, lower, visited@, queue@, head as int, cx as int, cy as int));
            }
            let ghost count0 = count_true(visited@);
            let ghost len0 = queue@.len() as int;
            let mut k: usize = 0;
            while k < 8
                invariant
                    self.wf(),
                    w == self.width as usize,
                    h == self.height as usize,
                    wi == w as int,
                    hi == h as int,
                    pxs == self.pixels@,
                    n == w * h,
                    n3 == self.pixels@.len(),
                    n3 as int == 3 * (n as int),
                    k <= 8,
                    head0 + 1 == head as int,
                    head as int <= len0 <= queue@.len(),
                    visited@.len() == n,
                    output_pixels@.len() == n3,
                    queue@.len() - len0 == count_true(visited@) - count0,
                    count0 <= count_true(visited@) <= n,
                    in_grid(wi, hi, cx as int, cy as int),
                    visited@[pix(wi, cx as int, cy as int)],
                    forall|j: int|
                        0 <= j < queue@.len() ==> in_grid(
                            wi,
                            hi,
                            (#[trigger] queue@[j]).0 as int,
                            queue@[j].1 as int,
                        ) && visited@[pix(wi, queue@[j].0 as int, queue@[j].1 as int)],
                    forall|xx: int, yy: int|
                        0 <= xx < wi && 0 <= yy < hi && visited@[#[trigger] pix(wi, xx, yy)]
                            ==> edge_reachable(pxs, wi, hi, lower, upper, xx, yy),
                    forall|xx: int, yy: int|
                        0 <= xx < wi && 0 <= yy < hi && gray_at(pxs, wi, xx, yy) >= upper
                            ==> visited@[#[trigger] pix(wi, xx, yy)],
                    forall|xx: int, yy: int, c: int|
                        0 <= xx < wi && 0 <= yy < hi && 0 <= c < 3 ==> #[trigger] chan(
                            output_pixels@,
                            pix(wi, xx, yy),
                            c,
                        ) as int == (if visited@[pix(wi, xx, yy)] {
                            255int
                        } else {
                            0int
                        }),
                    swept(pxs, wi, hi, lower, visited@, queue@, head as int, cx as int, cy as int),
                    forall|kk: int|
                        0 <= kk < k as int && in_grid(
                            wi,
                            hi,
                            cx as int + #[trigger] nbr(kk).0,
                            cy as int + nbr(kk).1,
                        ) && gray_at(pxs, wi, cx as int + nbr(kk).0, cy as int + nbr(kk).1)
                            >= lower ==> visited@[pix(
                            wi,
                            cx as int + nbr(kk).0,
                            cy as int + nbr(kk).1,
                        )],
                decreases 8 - k,
            {
                let (dx, dy): (i64, i64) = if k == 0 {
                    (-1, -1)
                } else if k == 1 {
                    (0, -1)
                } else if k == 2 {
                    (1, -1)
                } else if k == 3 {
                    (-1, 0)
                } else if k == 4 {
                    (1, 0)
                } else if k == 5 {
                    (-1, 1)
                } else if k == 6 {
                    (0, 1)
                } else {
                    (1, 1)
                };
                proof {
                    assert(dx as int == nbr(k as int).0 && dy as int == nbr(k as int).1);
                }
                let nx = cx as i64 + dx;
                let ny = cy as i64 + dy;
                if nx >= 0 && nx < w as i64 && ny >= 0 && ny < h as i64 {
                    proof {
                        lemma_pix_bound(wi, hi, nx as int, ny as int);
                    }
                    let n_idx = (ny as usize) * w + (nx as usize);
                    if !visited[n_idx] {
                        let n_val = self.pixels[3 * n_idx];
                        if n_val >= lower {
                            let ghost old_vis = visited@;
                            let ghost old_out = output_pixels@;
                            let ghost old_q = queue@;
                            visited.set(n_idx, true);
                            output_pixels.set(3 * n_idx, 255);
                            output_pixels.set(3 * n_idx + 1, 255);
                            output_pixels.set(3 * n_idx + 2, 255);
                            queue.push((nx as u32, ny as u32));
                            proof {
                                let ghost e = (nx as u32, ny as u32);
                                lemma_pix_bound(wi, hi, cx as int, cy as int);
                                assert(visited@[pix(wi, cx as int, cy as int)]);
                                lemma_mark_queue(
                                    wi,
                                    hi,
                                    old_vis,
                                    old_q,
                                    visited@,
                                    queue@,
                                    nx as int,
                                    ny as int,
                                    e,
                                );
                                lemma_mark_reach(
                                    pxs,
                                    wi,
                                    hi,
                                    lower,
                                    upper,
                                    old_vis,
                                    visited@,
                                    cx as int,
                                    cy as int,
                                    nx as int,
                                    ny as int,
                                    k as int,
                                );
                                lemma_mark_strong(
                                    pxs,
                                    wi,
                                    hi,
                                    upper,
                                    old_vis,
                                    visited@,
                                    nx as int,
                                    ny as int,
                                );
                                lemma_mark_out(
                                    wi,
                                    hi,
                                    old_vis,
                                    old_out,
                                    visited@,
                                    output_pixels@,
                                    nx as int,
                                    ny as int,
                                );
                                lemma_mark_swept(
                                    pxs,
                                    wi,
                                    hi,
                                    lower,
                                    old_vis,
                                    old_q,
                                    visited@,
                                    queue@,
                                    head as int,
                                    cx as int,
                                    cy as int,
                                    nx as int,
                                    ny as int,
                                    e,
                                );
                                lemma_mark_partial(
                                    pxs,
                                    wi,
                                    hi,
                                    lower,
                                    old_vis,
                                    visited@,
                                    cx as int,
                                    cy as int,
                                    nx as int,
                                    ny as int,
                                    k as int,
                                );
                                lemma_count_true_update(old_vis, pix(wi, nx as int, ny as int));
                                lemma_count_true_bounds(visited@);
                            }
                        } else {
                            proof {
                                assert(gray_at(pxs, wi, nx as int, ny as int) < lower);
                            }
                        }
                    } else {
                        proof {
                            assert(visited@[pix(wi, nx as int, ny as int)]);
                        }
                    }
                } else {
                    proof {
                        assert(!in_grid(wi, hi, cx as int + nbr(k as int).0, cy as int + nbr(
                            k as int,
                        ).1));
                    }
                }
                k = k + 1;
            }
            proof {
                reveal(swept);
                assert forall|xx: int, yy: int, ax: int, ay: int|
                    #![trigger pix(wi, xx, yy), pix(wi, ax, ay)]
                    in_grid(wi, hi, xx, yy) && visited@[pix(wi, xx, yy)] && !queued(
                        queue@,
                        head as int,
                        xx,
                        yy,
                    ) && in_grid(wi, hi, ax, ay) && adjacent(xx, yy, ax, ay) && gray_at(
                        pxs,
                        wi,
                        ax,
                        ay,
                    ) >= lower implies visited@[pix(wi, ax, ay)] by {
                    if xx == cx as int && yy == cy as int {
                        let kk = choose|kk: int|
                            0 <= kk < 8 && ax == xx + #[trigger] nbr(kk).0 && ay == yy + nbr(
                                kk,
                            ).1;
                        assert(visited@[pix(wi, cx as int + nbr(kk).0, cy as int + nbr(kk).1)]);
                    }
                }
                assert(swept(pxs, wi, hi, lower, visited@, queue@, head as int, -1, -1));
            }
        }

        proof {
            assert forall|xx: int, yy: int|
                0 <= xx < wi && 0 <= yy < hi && edge_reachable(
                    pxs,
                    wi,
                    hi,
                    lower,
                    upper,
                    xx,
                    yy,
                ) implies visited@[#[trigger] pix(wi, xx, yy)] by {
                reveal(edge_reachable);
                let p = choose|p: Seq<(int, int)>|
                    #[trigger] path_ok(pxs, wi, hi, lower, upper, p) && p.last() == (xx, yy);
                assert(queue@.len() <= head as int);
                reveal(swept);
                assert forall|bx: int, by: int, ax: int, ay: int|
                    #![trigger pix(wi, bx, by), pix(wi, ax, ay)]
                    in_grid(wi, hi, bx, by) && visited@[pix(wi, bx, by)] && in_grid(
                        wi,
                        hi,
                        ax,
                        ay,
                    ) && adjacent(bx, by, ax, ay) && gray_at(pxs, wi, ax, ay) >= lower implies visited@[pix(
                    wi,
                    ax,
                    ay,
                )] by {
                    assert(!queued(queue@, head as int, bx, by));
                }
                lemma_reach_visited(pxs, wi, hi, lower, upper, visited@, p);
            }
            assert forall|xx: int, yy: int, c: int|
                0 <= xx < wi && 0 <= yy < hi && 0 <= c < 3 implies #[trigger] chan(
                output_pixels@,
                pix(wi, xx, yy),
                c,
            ) as int == (if edge_reachable(pxs, wi, hi, lower, upper, xx, yy) {
                255int
            } else {
                0int
            }) by {
                lemma_pix_bound(wi, hi, xx, yy);
            }
            let target = hyst_pixels(pxs, wi, hi, lower, upper);
            assert forall|i: int| 0 <= i < 3 * (wi * hi) implies output_pixels@[i] == target[i] by {
                lemma_index_decomp(wi, hi, i);
                let xx = (i / 3) % wi;
                let yy = (i / 3) / wi;
                assert(chan(output_pixels@, pix(wi, xx, yy), i % 3) == output_pixels@[i]);
            }
            assert(output_pixels@ =~= target);
        }

        Image { width: self.width, height: self.height, pixels: output_pixels, format: self.format }
    }
}

/// One marking step of the hysteresis traversal, at the ghost level: pixel
/// (nx, ny), the k-th neighbour of the pending pixel (cx, cy), is newly
/// visited, painted white and enqueued; every traversal invariant is carried
/// over to the new state.
#[verifier::rlimit(100)]
/// Marking one more pixel keeps every queue entry visited and in bounds.
proof fn lemma_mark_queue(
    wi: int,
    hi: int,
    old_vis: Seq<bool>,
    old_q: Seq<(u32, u32)>,
    new_vis: Seq<bool>,
    new_q: Seq<(u32, u32)>,
    nx: int,
    ny: int,
    e: (u32, u32),
)
    requires
        0 < wi,
        0 < hi,
        old_vis.len() == wi * hi,
        in_grid(wi, hi, nx, ny),
        e.0 as int == nx,
        e.1 as int == ny,
        new_vis == old_vis.update(pix(wi, nx, ny), true),
        new_q == old_q.push(e),
        forall|j: int|
            0 <= j < old_q.len() ==> in_grid(
                wi,
                hi,
                (#[trigger] old_q[j]).0 as int,
                old_q[j].1 as int,
            ) && old_vis[pix(wi, old_q[j].0 as int, old_q[j].1 as int)],
    ensures
        forall|j: int|
            0 <= j < new_q.len() ==> in_grid(
                wi,
                hi,
                (#[trigger] new_q[j]).0 as int,
                new_q[j].1 as int,
            ) && new_vis[pix(wi, new_q[j].0 as int, new_q[j].1 as int)],
{
    lemma_pix_bound(wi, hi, nx, ny);
    assert forall|j: int| 0 <= j < new_q.len() implies in_grid(
        wi,
        hi,
        (#[trigger] new_q[j]).0 as int,
        new_q[j].1 as int,
    ) && new_vis[pix(wi, new_q[j].0 as int, new_q[j].1 as int)] by {
        if j < old_q.len() {
            assert(new_q[j] == old_q[j]);
            lemma_pix_bound(wi, hi, old_q[j].0 as int, old_q[j].1 as int);
        } else {
            assert(new_q[j] == e);
        }
    }
}

/// Marking a qualifying neighbour of an edge pixel keeps the mask sound:
/// every marked pixel is an edge pixel.
proof fn lemma_mark_reach(
    pxs: Seq<u8>,
    wi: int,
    hi: int,
    lower: u8,
    upper: u8,
    old_vis: Seq<bool>,
    new_vis: Seq<bool>,
    cx: int,
    cy: int,
    nx: int,
    ny: int,
    k: int,
)
    requires
        0 < wi,
        0 < hi,
        old_vis.len() == wi * hi,
        in_grid(wi, hi, cx, cy),
        in_grid(wi, hi, nx, ny),
        0 <= k < 8,
        nx == cx + nbr(k).0,
        ny == cy + nbr(k).1,
        gray_at(pxs, wi, nx, ny) >= lower,
        old_vis[pix(wi, cx, cy)],
        new_vis == old_vis.update(pix(wi, nx, ny), true),
        forall|xx: int, yy: int|
            0 <= xx < wi && 0 <= yy < hi && old_vis[#[trigger] pix(wi, xx, yy)]
                ==> edge_reachable(pxs, wi, hi, lower, upper, xx, yy),
    ensures
        forall|xx: int, yy: int|
            0 <= xx < wi && 0 <= yy < hi && new_vis[#[trigger] pix(wi, xx, yy)]
                ==> edge_reachable(pxs, wi, hi, lower, upper, xx, yy),
{
    lemma_pix_bound(wi, hi, nx, ny);
    lemma_pix_bound(wi, hi, cx, cy);
    assert(adjacent(cx, cy, nx, ny));
    lemma_reach_step(pxs, wi, hi, lower, upper, cx, cy, nx, ny);
    assert forall|xx: int, yy: int|
        0 <= xx < wi && 0 <= yy < hi && new_vis[#[trigger] pix(wi, xx, yy)] implies edge_reachable(
        pxs,
        wi,
        hi,
        lower,
        upper,
        xx,
        yy,
    ) by {
        lemma_pix_bound(wi, hi, xx, yy);
        lemma_pix_injective(wi, xx, yy, nx, ny);
    }
}

/// Marking one more pixel keeps every strong pixel marked.
proof fn lemma_mark_strong(
    pxs: Seq<u8>,
    wi: int,
    hi: int,
    upper: u8,
    old_vis: Seq<bool>,
    new_vis: Seq<bool>,
    nx: int,
    ny: int,
)
    requires
        0 < wi,
        0 < hi,
        old_vis.len() == wi * hi,
        in_grid(wi, hi, nx, ny),
        new_vis == old_vis.update(pix(wi, nx, ny), true),
        forall|xx: int, yy: int|
            0 <= xx < wi && 0 <= yy < hi && gray_at(pxs, wi, xx, yy) >= upper ==> old_vis[#[trigger] pix(
                wi,
                xx,
                yy,
            )],
    ensures
        forall|xx: int, yy: int|
            0 <= xx < wi && 0 <= yy < hi && gray_at(pxs, wi, xx, yy) >= upper ==> new_vis[#[trigger] pix(
                wi,
                xx,
                yy,
            )],
{
    lemma_pix_bound(wi, hi, nx, ny);
    assert forall|xx: int, yy: int|
        0 <= xx < wi && 0 <= yy < hi && gray_at(pxs, wi, xx, yy) >= upper implies new_vis[#[trigger] pix(
        wi,
        xx,
        yy,
    )] by {
        lemma_pix_bound(wi, hi, xx, yy);
    }
}

/// Painting the marked pixel white keeps the output buffer in step with the
/// mask.
proof fn lemma_mark_out(
    wi: int,
    hi: int,
    old_vis: Seq<bool>,
    old_out: Seq<u8>,
    new_vis: Seq<bool>,
    new_out: Seq<u8>,
    nx: int,
    ny: int,
)
    requires
        0 < wi,
        0 < hi,
        old_vis.len() == wi * hi,
        old_out.len() == 3 * (wi * hi),
        in_grid(wi, hi, nx, ny),
        new_vis == old_vis.update(pix(wi, nx, ny), true),
        new_out == old_out.update(3 * pix(wi, nx, ny), 255u8).update(
            3 * pix(wi, nx, ny) + 1,
            255u8,
        ).update(3 * pix(wi, nx, ny) + 2, 255u8),
        forall|xx: int, yy: int, c: int|
            0 <= xx < wi && 0 <= yy < hi && 0 <= c < 3 ==> #[trigger] chan(
                old_out,
                pix(wi, xx, yy),
                c,
            ) as int == (if old_vis[pix(wi, xx, yy)] {
                255int
            } else {
                0int
            }),
    ensures
        forall|xx: int, yy: int, c: int|
            0 <= xx < wi && 0 <= yy < hi && 0 <= c < 3 ==> #[trigger] chan(
                new_out,
                pix(wi, xx, yy),
                c,
            ) as int == (if new_vis[pix(wi, xx, yy)] {
                255int
            } else {
                0int
            }),
{
    lemma_pix_bound(wi, hi, nx, ny);
    assert forall|xx: int, yy: int, c: int|
        0 <= xx < wi && 0 <= yy < hi && 0 <= c < 3 implies #[trigger] chan(
        new_out,
        pix(wi, xx, yy),
        c,
    ) as int == (if new_vis[pix(wi, xx, yy)] {
        255int
    } else {
        0int
    }) by {
        lemma_pix_bound(wi, hi, xx, yy);
        lemma_pix_injective(wi, xx, yy, nx, ny);
        if !(xx == nx && yy == ny) {
            assert(chan(new_out, pix(wi, xx, yy), c) == chan(old_out, pix(wi, xx, yy), c));
            assert(new_vis[pix(wi, xx, yy)] == old_vis[pix(wi, xx, yy)]);
        }
    }
}

/// Marking and enqueueing the neighbour keeps the sweep property: the new
/// pixel is pending, everything else is as before.
proof fn lemma_mark_swept(
    pxs: Seq<u8>,
    wi: int,
    hi: int,
    lower: u8,
    old_vis: Seq<bool>,
    old_q: Seq<(u32, u32)>,
    new_vis: Seq<bool>,
    new_q: Seq<(u32, u32)>,
    head: int,
    cx: int,
    cy: int,
    nx: int,
    ny: int,
    e: (u32, u32),
)
    requires
        0 < wi,
        0 < hi,
        old_vis.len() == wi * hi,
        0 <= head <= old_q.len(),
        in_grid(wi, hi, nx, ny),
        e.0 as int == nx,
        e.1 as int == ny,
        new_vis == old_vis.update(pix(wi, nx, ny), true),
        new_q == old_q.push(e),
        swept(pxs, wi, hi, lower, old_vis, old_q, head, cx, cy),
    ensures
        swept(pxs, wi, hi, lower, new_vis, new_q, head, cx, cy),
{
    reveal(swept);
    lemma_pix_bound(wi, hi, nx, ny);
    assert(new_q[old_q.len() as int] == e);
    assert forall|xx: int, yy: int, ax: int, ay: int|
        #![trigger pix(wi, xx, yy), pix(wi, ax, ay)]
        in_grid(wi, hi, xx, yy) && new_vis[pix(wi, xx, yy)] && !queued(new_q, head, xx, yy) && !(
        xx == cx && yy == cy) && in_grid(wi, hi, ax, ay) && adjacent(xx, yy, ax, ay) && gray_at(
            pxs,
            wi,
            ax,
            ay,
        ) >= lower implies new_vis[pix(wi, ax, ay)] by {
        lemma_pix_bound(wi, hi, xx, yy);
        lemma_pix_bound(wi, hi, ax, ay);
        lemma_pix_injective(wi, xx, yy, nx, ny);
        lemma_pix_injective(wi, ax, ay, nx, ny);
        if xx == nx && yy == ny {
            assert(queued(new_q, head, xx, yy)) by {
                assert((#[trigger] new_q[old_q.len() as int]).0 as int == xx && new_q[old_q.len()
                    as int].1 as int == yy);
            }
        } else if !(ax == nx && ay == ny) {
            assert(old_vis[pix(wi, xx, yy)]);
            if queued(old_q, head, xx, yy) {
                lemma_queued_push(old_q, e, head, xx, yy);
            } else {
                assert(old_vis[pix(wi, ax, ay)]);
            }
        }
    }
}

/// Marking neighbour `k` extends the per-pixel progress bound to `k + 1`.
proof fn lemma_mark_partial(
    pxs: Seq<u8>,
    wi: int,
    hi: int,
    lower: u8,
    old_vis: Seq<bool>,
    new_vis: Seq<bool>,
    cx: int,
    cy: int,
    nx: int,
    ny: int,
    k: int,
)
    requires
        0 < wi,
        0 < hi,
        old_vis.len() == wi * hi,
        in_grid(wi, hi, nx, ny),
        0 <= k < 8,
        nx == cx + nbr(k).0,
        ny == cy + nbr(k).1,
        new_vis == old_vis.update(pix(wi, nx, ny), true),
        forall|kk: int|
            0 <= kk < k && in_grid(wi, hi, cx + #[trigger] nbr(kk).0, cy + nbr(kk).1) && gray_at(
                pxs,
                wi,
                cx + nbr(kk).0,
                cy + nbr(kk).1,
            ) >= lower ==> old_vis[pix(wi, cx + nbr(kk).0, cy + nbr(kk).1)],
    ensures
        forall|kk: int|
            0 <= kk < k + 1 && in_grid(wi, hi, cx + #[trigger] nbr(kk).0, cy + nbr(kk).1)
                && gray_at(pxs, wi, cx + nbr(kk).0, cy + nbr(kk).1) >= lower ==> new_vis[pix(
                wi,
                cx + nbr(kk).0,
                cy + nbr(kk).1,
            )],
{
    lemma_pix_bound(wi, hi, nx, ny);
    assert forall|kk: int|
        0 <= kk < k + 1 && in_grid(wi, hi, cx + #[trigger] nbr(kk).0, cy + nbr(kk).1) && gray_at(
            pxs,
            wi,
            cx + nbr(kk).0,
            cy + nbr(kk).1,
        ) >= lower implies new_vis[pix(wi, cx + nbr(kk).0, cy + nbr(kk).1)] by {
        lemma_pix_bound(wi, hi, cx + nbr(kk).0, cy + nbr(kk).1);
        if kk < k {
            lemma_pix_injective(wi, cx + nbr(kk).0, cy + nbr(kk).1, nx, ny);
        }
    }
}

/// A pixel whose gray value is below the lower threshold is never in the
/// edge set: no qualifying chain can end on it.
pub proof fn lemma_below_lower_not_edge(
    pixels: Seq<u8>,
    width: int,
    height: int,
    lower: u8,
    upper: u8,
    x: int,
    y: int,
)
    requires
        lower <= upper,
        gray_at(pixels, width, x, y) < lower,
    ensures
        !edge_reachable(pixels, width, height, lower, upper, x, y),
{
    reveal(edge_reachable);
    if edge_reachable(pixels, width, height, lower, upper, x, y) {
        let p = choose|p: Seq<(int, int)>|
            #[trigger] path_ok(pixels, width, height, lower, upper, p) && p.last() == (x, y);
        if p.len() == 1 {
            assert(gray_at(pixels, width, p[0].0, p[0].1) >= upper);
        } else {
            assert(gray_at(pixels, width, p[p.len() - 1].0, p[p.len() - 1].1) >= lower);
        }
    }
}

/// An edge pixel's own gray value reaches at least the lower threshold.
proof fn lemma_edge_at_least_lower(
    pixels: Seq<u8>,
    width: int,
    height: int,
    lower: u8,
    upper: u8,
    x: int,
    y: int,
)
    requires
        lower <= upper,
        edge_reachable(pixels, width, height, lower, upper, x, y),
    ensures
        gray_at(pixels, width, x, y) >= lower,
        in_grid(width, height, x, y),
{
    reveal(edge_reachable);
    let p = choose|p: Seq<(int, int)>|
        #[trigger] path_ok(pixels, width, height, lower, upper, p) && p.last() == (x, y);
    if p.len() == 1 {
        assert(gray_at(pixels, width, p[0].0, p[0].1) >= upper);
    } else {
        assert(gray_at(pixels, width, p[p.len() - 1].0, p[p.len() - 1].1) >= lower);
    }
    assert(in_grid(width, height, (p[p.len() - 1]).0, p[p.len() - 1].1));
}

/// The gray channel the thresholder reads from its own output: 255 on edge
/// pixels, 0 elsewhere.
proof fn lemma_hyst_value(
    pixels: Seq<u8>,
    width: int,
    height: int,
    lower: u8,
    upper: u8,
    x: int,
    y: int,
)
    requires
        0 < width,
        0 < height,
        in_grid(width, height, x, y),
    ensures
        gray_at(hyst_pixels(pixels, width, height, lower, upper), width, x, y) == (
        if edge_reachable(pixels, width, height, lower, upper, x, y) {
            255int
        } else {
            0int
        }),
{
    lemma_pix_bound(width, height, x, y);
    let p = pix(width, x, y);
    vstd::arithmetic::div_mod::lemma_fundamental_div_mod_converse(3 * p, 3, p, 0);
    vstd::arithmetic::div_mod::lemma_fundamental_div_mod_converse(p, width, y, x);
}

/// A chain that qualifies on the thresholder's own output ends on a pixel
/// that was already in the edge set of the original image.
proof fn lemma_hyst_path_absorbed(
    pixels: Seq<u8>,
    width: int,
    height: int,
    lower: u8,
    upper: u8,
    path: Seq<(int, int)>,
)
    requires
        0 < width,
        0 < height,
        lower <= upper,
        path_ok(hyst_pixels(pixels, width, height, lower, upper), width, height, lower, upper, path),
    ensures
        edge_reachable(pixels, width, height, lower, upper, path.last().0, path.last().1),
    decreases path.len(),
{
    let q = hyst_pixels(pixels, width, height, lower, upper);
    let n = path.len() as int;
    if n == 1 {
        let h0 = path[0];
        lemma_hyst_value(pixels, width, height, lower, upper, h0.0, h0.1);
        if edge_reachable(pixels, width, height, lower, upper, h0.0, h0.1) {
        } else {
            assert(gray_at(q, width, h0.0, h0.1) == 0);
            assert(upper == 0);
            lemma_reach_strong(pixels, width, height, lower, upper, h0.0, h0.1);
        }
    } else {
        let pre = path.drop_last();
        assert(pre.len() >= 1);
        assert forall|i: int| 0 <= i < pre.len() implies in_grid(
            width,
            height,
            (#[trigger] pre[i]).0,
            pre[i].1,
        ) by {
            assert(pre[i] == path[i]);
        }
        assert(pre[0] == path[0]);
        assert forall|i: int| 1 <= i < pre.len() implies adjacent(
            pre[i - 1].0,
            pre[i - 1].1,
            (#[trigger] pre[i]).0,
            pre[i].1,
        ) && gray_at(q, width, (#[trigger] pre[i]).0, pre[i].1) >= lower by {
            assert(pre[i] == path[i]);
            assert(pre[i - 1] == path[i - 1]);
        }
        assert(path_ok(q, width, height, lower, upper, pre));
        lemma_hyst_path_absorbed(pixels, width, height, lower, upper, pre);
        let prev = path[n - 2];
        let last = path[n - 1];
        assert(pre.last() == prev);
        assert(adjacent(prev.0, prev.1, last.0, last.1));
        assert(gray_at(q, width, last.0, last.1) >= lower);
        lemma_hyst_value(pixels, width, height, lower, upper, last.0, last.1);
        if edge_reachable(pixels, width, height, lower, upper, last.0, last.1) {
        } else {
            assert(gray_at(q, width, last.0, last.1) == 0);
            assert(lower == 0);
            lemma_reach_step(
                pixels,
                width,
                height,
                lower,
                upper,
                prev.0,
                prev.1,
                last.0,
                last.1,
            );
        }
    }
}

/// Hysteresis thresholding is idempotent: applied to its own output, with
/// the same thresholds, it returns that output unchanged.
pub proof fn lemma_hysteresis_idempotent(
    pixels: Seq<u8>,
    width: int,
    height: int,
    lower: u8,
    upper: u8,
)
    requires
        0 < width,
        0 < height,
        lower <= upper,
    ensures
        hyst_pixels(hyst_pixels(pixels, width, height, lower, upper), width, height, lower, upper)
            == hyst_pixels(pixels, width, height, lower, upper),
{
    let q = hyst_pixels(pixels, width, height, lower, upper);
    let qq = hyst_pixels(q, width, height, lower, upper);
    assert forall|x: int, y: int| in_grid(width, height, x, y) implies (edge_reachable(
        q,
        width,
        height,
        lower,
        upper,
        x,
        y,
    ) <==> edge_reachable(pixels, width, height, lower, upper, x, y)) by {
        if edge_reachable(q, width, height, lower, upper, x, y) {
            reveal(edge_reachable);
            let p = choose|p: Seq<(int, int)>|
                #[trigger] path_ok(q, width, height, lower, upper, p) && p.last() == (x, y);
            lemma_hyst_path_absorbed(pixels, width, height, lower, upper, p);
        }
        if edge_reachable(pixels, width, height, lower, upper, x, y) {
            lemma_edge_at_least_lower(pixels, width, height, lower, upper, x, y);
            lemma_hyst_value(pixels, width, height, lower, upper, x, y);
            assert(gray_at(q, width, x, y) == 255);
            lemma_reach_strong(q, width, height, lower, upper, x, y);
        }
    }
    assert forall|i: int| 0 <= i < 3 * (width * height) implies qq[i] == q[i] by {
        lemma_index_decomp(width, height, i);
        let xx = (i / 3) % width;
        let yy = (i / 3) / width;
        assert(in_grid(width, height, xx, yy));
    }
    assert(qq =~= q);
}

pub(crate) proof fn lemma_pix_bound(w: int, h: int, x: int, y: int)
    requires
        0 <= x < w,
        0 <= y < h,
    ensures
        0 <= pix(w, x, y) < w * h,
        0 <= 3 * pix(w, x, y) + 2 < 3 * (w * h),
{
    assert(0 <= y * w + x < w * h) by (nonlinear_arith)
        requires
            0 <= x < w,
            0 <= y < h,
    ;
}

proof fn lemma_pix_injective(w: int, x1: int, y1: int, x2: int, y2: int)
    requires
        0 <= x1 < w,
        0 <= x2 < w,
        0 <= y1,
        0 <= y2,
    ensures
        (pix(w, x1, y1) == pix(w, x2, y2)) <==> (x1 == x2 && y1 == y2),
{
    assert((y1 * w + x1 == y2 * w + x2) <==> (x1 == x2 && y1 == y2)) by (nonlinear_arith)
        requires
            0 <= x1 < w,
            0 <= x2 < w,
            0 <= y1,
            0 <= y2,
    ;
}

} // verus!
