//! The rasterization core: the framebuffer, the line rasterizer and the
//! triangle rasterizer with its z-buffer test.

use vstd::prelude::*;

verus! {

/// A flat color: three 8-bit channels.
#[derive(Clone, Copy, PartialEq, Eq, Structural, Debug)]
pub struct Color {
    pub r: u8,
    pub g: u8,
    pub b: u8,
}

/// The background color of a fresh framebuffer.
pub open spec fn black() -> Color {
    Color { r: 0, g: 0, b: 0 }
}

/// A framebuffer: a color plane and a depth plane, each a flat array of
/// `width * height` elements indexed by `y * width + x`.
pub struct Framebuffer {
    pub width: usize,
    pub height: usize,
    pub data: Vec<Color>,
    pub zbuffer: Vec<u8>,
}

/// The flat index of pixel `(x, y)` in a plane of width `w`.
pub open spec fn pix(w: int, x: int, y: int) -> int {
    y * w + x
}

/// A pixel `(x, y)` lies in range of the planes: `0 <= y*w + x < w*h`.
pub proof fn lemma_pix_in_range(w: int, h: int, x: int, y: int)
    requires
        0 <= x < w,
        0 <= y < h,
    ensures
        0 <= pix(w, x, y) < w * h,
    {
    assert(0 <= y * w + x < w * h) by (nonlinear_arith)
        requires
            0 <= x < w,
            0 <= y < h,
    ;
}

/// Distinct in-range pixels have distinct flat indices.
pub proof fn lemma_pix_injective(w: int, h: int, x1: int, y1: int, x2: int, y2: int)
    requires
        0 <= x1 < w,
        0 <= y1 < h,
        0 <= x2 < w,
        0 <= y2 < h,
        (x1, y1) != (x2, y2),
    ensures
        pix(w, x1, y1) != pix(w, x2, y2),
    {
    assert(y1 * w + x1 != y2 * w + x2) by (nonlinear_arith)
        requires
            0 <= x1 < w,
            0 <= y1 < h,
            0 <= x2 < w,
            0 <= y2 < h,
            x1 != x2 || y1 != y2,
    ;
}

impl Framebuffer {
    /// Both planes hold exactly `width * height` elements, and the
    /// dimensions fit the `i32` pixel-coordinate space.
    pub open spec fn wf(self) -> bool {
        &&& self.data.len() == self.width * self.height
        &&& self.zbuffer.len() == self.width * self.height
        &&& self.width <= i32::MAX
        &&& self.height <= i32::MAX
    }

    /// `(x, y)` lies on the canvas.
    pub open spec fn in_bounds(self, x: int, y: int) -> bool {
        &&& 0 <= x < self.width
        &&& 0 <= y < self.height
    }

    /// The color stored at `(x, y)`.
    pub open spec fn color_at(self, x: int, y: int) -> Color {
        self.data@[pix(self.width as int, x, y)]
    }

    /// The depth stored at `(x, y)`.
    pub open spec fn depth_at(self, x: int, y: int) -> u8 {
        self.zbuffer@[pix(self.width as int, x, y)]
    }

    /// Allocates both planes, color black and depth 0 everywhere.
    pub fn new(width: usize, height: usize) -> (fb: Framebuffer)
        requires
            width * height <= usize::MAX,
            width <= i32::MAX,
            height <= i32::MAX,
        ensures
            fb.wf(),
            fb.width == width,
            fb.height == height,
            forall|x: int, y: int|
                fb.in_bounds(x, y) ==> #[trigger] fb.color_at(x, y) == black(),
            forall|x: int, y: int|
                fb.in_bounds(x, y) ==> #[trigger] fb.depth_at(x, y) == 0,
    {
        let n = width * height;
        let mut data: Vec<Color> = Vec::new();
        let mut zbuffer: Vec<u8> = Vec::new();
        let mut i: usize = 0;
        while i < n
            invariant
                i <= n,
                data.len() == i,
                zbuffer.len() == i,
                forall|k: int| 0 <= k < i ==> data@[k] == black(),
                forall|k: int| 0 <= k < i ==> zbuffer@[k] == 0u8,
            decreases n - i,
        {
            data.push(Color { r: 0, g: 0, b: 0 });
            zbuffer.push(0);
            i = i + 1;
        }
        let fb = Framebuffer { width, height, data, zbuffer };
        proof {
            assert forall|x: int, y: int| fb.in_bounds(x, y) implies #[trigger] fb.color_at(x, y)
                == black() by {
                lemma_pix_in_range(width as int, height as int, x, y);
            }
            assert forall|x: int, y: int| fb.in_bounds(x, y) implies #[trigger] fb.depth_at(x, y)
                == 0u8 by {
                lemma_pix_in_range(width as int, height as int, x, y);
            }
        }
        fb
    }

    /// Writes `color` at `(x, y)` if it is on the canvas, and does nothing
    /// otherwise. Never touches the depth plane.
    pub fn set_pixel(&mut self, x: i32, y: i32, color: Color)
        requires
            old(self).wf(),
        ensures
            final(self).wf(),
            final(self).width == old(self).width,
            final(self).height == old(self).height,
            final(self).zbuffer@ == old(self).zbuffer@,
            old(self).in_bounds(x as int, y as int) ==> final(self).data@ == old(
                self,
            ).data@.update(pix(old(self).width as int, x as int, y as int), color),
            !old(self).in_bounds(x as int, y as int) ==> final(self).data@ == old(self).data@,
    {
        if x >= 0 && y >= 0 && (x as usize) < self.width && (y as usize) < self.height {
            proof {
                lemma_pix_in_range(self.width as int, self.height as int, x as int, y as int);
            }
            let index: usize = (y as usize) * self.width + (x as usize);
            self.data.set(index, color);
        }
    }
}

/// A raster image snapshot: `width * height` pixels in row-major order,
/// pixel `(x, y)` at flat index `y * width + x`.
pub struct Image {
    pub width: usize,
    pub height: usize,
    pub pixels: Vec<Color>,
}

impl Image {
    /// The pixel plane holds exactly `width * height` elements.
    pub open spec fn wf(self) -> bool {
        self.pixels.len() == self.width * self.height
    }

    /// The color of pixel `(x, y)`.
    pub open spec fn pixel_at(self, x: int, y: int) -> Color {
        self.pixels@[pix(self.width as int, x, y)]
    }
}

impl Framebuffer {
    /// A snapshot of the color plane as an image; the framebuffer is left
    /// as it is.
    pub fn to_image(&self) -> (img: Image)
        requires
            self.wf(),
        ensures
            img.wf(),
            img.width == self.width,
            img.height == self.height,
            forall|x: int, y: int|
                self.in_bounds(x, y) ==> #[trigger] img.pixel_at(x, y) == self.color_at(x, y),
    {
        let n = self.data.len();
        let mut pixels: Vec<Color> = Vec::new();
        let mut k: usize = 0;
        while k < n
            invariant
                k <= n,
                n == self.data.len(),
                pixels.len() == k,
                forall|i: int| 0 <= i < k ==> pixels@[i] == self.data@[i],
            decreases n - k,
        {
            pixels.push(self.data[k]);
            k = k + 1;
        }
        let img = Image { width: self.width, height: self.height, pixels };
        proof {
            assert forall|x: int, y: int| self.in_bounds(x, y) implies #[trigger] img.pixel_at(x, y)
                == self.color_at(x, y) by {
                lemma_pix_in_range(self.width as int, self.height as int, x, y);
            }
        }
        img
    }

    /// A snapshot of the depth plane as a grayscale image: each pixel's
    /// three channels all carry the stored depth.
    pub fn to_zbuffer_image(&self) -> (img: Image)
        requires
            self.wf(),
        ensures
            img.wf(),
            img.width == self.width,
            img.height == self.height,
            forall|x: int, y: int|
                self.in_bounds(x, y) ==> #[trigger] img.pixel_at(x, y) == (Color {
                    r: self.depth_at(x, y),
                    g: self.depth_at(x, y),
                    b: self.depth_at(x, y),
                }),
    {
        let n = self.zbuffer.len();
        let mut pixels: Vec<Color> = Vec::new();
        let mut k: usize = 0;
        while k < n
            invariant
                k <= n,
                n == self.zbuffer.len(),
                pixels.len() == k,
                forall|i: int|
                    0 <= i < k ==> pixels@[i] == (Color {
                        r: self.zbuffer@[i],
                        g: self.zbuffer@[i],
                        b: self.zbuffer@[i],
                    }),
            decreases n - k,
        {
            let z = self.zbuffer[k];
            pixels.push(Color { r: z, g: z, b: z });
            k = k + 1;
        }
        let img = Image { width: self.width, height: self.height, pixels };
        proof {
            assert forall|x: int, y: int| self.in_bounds(x, y) implies #[trigger] img.pixel_at(x, y)
                == (Color {
                r: self.depth_at(x, y),
                g: self.depth_at(x, y),
                b: self.depth_at(x, y),
            }) by {
                lemma_pix_in_range(self.width as int, self.height as int, x, y);
            }
        }
        img
    }
}

/// The magnitude of an integer.
pub open spec fn iabs(x: int) -> int {
    if x < 0 {
        -x
    } else {
        x
    }
}

/// `n / d` rounded to the nearest integer, halves away from zero.
/// Meaningful only for `d > 0`.
pub open spec fn round_div_away(n: int, d: int) -> int {
    if n >= 0 {
        (2 * n + d) / (2 * d)
    } else {
        -((2 * -n + d) / (2 * d))
    }
}

/// The rounded quotient lies between any pair of integer bounds that
/// bracket the exact quotient: `lo <= n/d <= hi` gives
/// `lo <= round(n/d) <= hi`.
proof fn lemma_round_div_away_bounds_nonneg(n: int, d: int, lo: int, hi: int)
    requires
        d >= 1,
        n >= 0,
        lo * d <= n,
        n <= hi * d,
    ensures
        lo <= round_div_away(n, d) <= hi,
{
    let q = (2 * n + d) / (2 * d);
    let r = (2 * n + d) % (2 * d);
    vstd::arithmetic::div_mod::lemma_fundamental_div_mod(2 * n + d, 2 * d);
    assert(lo <= q <= hi) by (nonlinear_arith)
        requires
            d >= 1,
            lo * d <= n,
            n <= hi * d,
            n >= 0,
            2 * n + d == 2 * d * q + r,
            0 <= r < 2 * d,
    ;
}

/// Integer bounds that bracket the exact quotient bracket the rounded one
/// too: `lo <= n/d <= hi` gives `lo <= round(n/d) <= hi`. With `lo == hi`
/// this says that an exact multiple rounds to itself.
pub proof fn lemma_round_div_away_bounds(n: int, d: int, lo: int, hi: int)
    requires
        d >= 1,
        lo * d <= n,
        n <= hi * d,
    ensures
        lo <= round_div_away(n, d) <= hi,
{
    if n >= 0 {
        lemma_round_div_away_bounds_nonneg(n, d, lo, hi);
    } else {
        // round_div_away(n, d) == -round_div_away(-n, d), with the bounds
        // mirrored.
        assert((-hi) * d <= -n) by (nonlinear_arith)
            requires
                n <= hi * d,
        ;
        assert(-n <= (-lo) * d) by (nonlinear_arith)
            requires
                lo * d <= n,
        ;
        lemma_round_div_away_bounds_nonneg(-n, d, -hi, -lo);
    }
}

/// `n / d` rounded to the nearest integer, halves away from zero.
fn round_div_away_exec(n: i128, d: i128) -> (r: i128)
    requires
        1 <= d <= 0x1_0000_0000_0000,
        -0x1_0000_0000_0000_0000_0000_0000 <= n <= 0x1_0000_0000_0000_0000_0000_0000,
    ensures
        r == round_div_away(n as int, d as int),
{
    if n >= 0 {
        let nn = n as u128;
        let dd = d as u128;
        let q = (2 * nn + dd) / (2 * dd);
        proof {
            assert(n as int <= (n as int) * (d as int)) by (nonlinear_arith)
                requires
                    n as int >= 0,
                    d as int >= 1,
            ;
            lemma_round_div_away_bounds(n as int, d as int, 0, n as int);
        }
        q as i128
    } else {
        let nn = (-n) as u128;
        let dd = d as u128;
        let q = (2 * nn + dd) / (2 * dd);
        proof {
            assert(-n as int <= (-n as int) * (d as int)) by (nonlinear_arith)
                requires
                    -n as int >= 0,
                    d as int >= 1,
            ;
            lemma_round_div_away_bounds(-n as int, d as int, 0, -n as int);
        }
        -(q as i128)
    }
}

/// A line is steep when its vertical extent exceeds its horizontal extent.
pub open spec fn line_steep(ax: int, ay: int, bx: int, by: int) -> bool {
    iabs(ax - bx) < iabs(ay - by)
}

/// The row the rasterizer assigns to column `x` of a left-to-right shallow
/// line from `(ax, ay)` to `(bx, by)`: `round(ay + (by - ay) * t)` with
/// `t = (x - ax) / (bx - ax)`, and `t = 0` when the segment spans a single
/// column.
pub open spec fn line_row(ax: int, ay: int, bx: int, by: int, x: int) -> int {
    if ax == bx {
        ay
    } else {
        round_div_away(ay * (bx - ax) + (by - ay) * (x - ax), bx - ax)
    }
}

/// Pixel `(px, py)` lies on the left-to-right shallow segment from
/// `(ax, ay)` to `(bx, by)` (requires `ax <= bx` to be meaningful).
pub open spec fn on_line_lr(ax: int, ay: int, bx: int, by: int, px: int, py: int) -> bool {
    &&& ax <= px <= bx
    &&& py == line_row(ax, ay, bx, by, px)
}

/// Pixel `(px, py)` lies on the shallow segment between `(ax, ay)` and
/// `(bx, by)`, whichever endpoint is leftmost.
pub open spec fn on_line_flat(ax: int, ay: int, bx: int, by: int, px: int, py: int) -> bool {
    if ax <= bx {
        on_line_lr(ax, ay, bx, by, px, py)
    } else {
        on_line_lr(bx, by, ax, ay, px, py)
    }
}

/// Pixel `(px, py)` is drawn by the line rasterizer for the segment from
/// `(ax, ay)` to `(bx, by)`: a steep segment is rasterized transposed.
pub open spec fn on_line(ax: int, ay: int, bx: int, by: int, px: int, py: int) -> bool {
    if line_steep(ax, ay, bx, by) {
        on_line_flat(ay, ax, by, bx, py, px)
    } else {
        on_line_flat(ax, ay, bx, by, px, py)
    }
}

/// Both endpoints lie on the rasterized line.
pub proof fn lemma_line_endpoints(ax: int, ay: int, bx: int, by: int)
    ensures
        on_line(ax, ay, bx, by, ax, ay),
        on_line(ax, ay, bx, by, bx, by),
{
    if line_steep(ax, ay, bx, by) {
        if ay <= by {
            lemma_line_row_endpoints(ay, ax, by, bx);
        } else {
            lemma_line_row_endpoints(by, bx, ay, ax);
        }
    } else {
        if ax <= bx {
            lemma_line_row_endpoints(ax, ay, bx, by);
        } else {
            lemma_line_row_endpoints(bx, by, ax, ay);
        }
    }
}

/// The interpolated row hits each endpoint exactly. A single-column
/// segment is only rasterized flat when it is a single pixel.
pub proof fn lemma_line_row_endpoints(ax: int, ay: int, bx: int, by: int)
    requires
        ax <= bx,
        ax == bx ==> ay == by,
    ensures
        line_row(ax, ay, bx, by, ax) == ay,
        line_row(ax, ay, bx, by, bx) == by,
{
    if ax != bx {
        assert(ay * (bx - ax) + (by - ay) * (ax - ax) == ay * (bx - ax)) by (nonlinear_arith);
        lemma_round_div_away_bounds(ay * (bx - ax) + (by - ay) * (ax - ax), bx - ax, ay, ay);
        assert(ay * (bx - ax) + (by - ay) * (bx - ax) == by * (bx - ax)) by (nonlinear_arith);
        lemma_round_div_away_bounds(ay * (bx - ax) + (by - ay) * (bx - ax), bx - ax, by, by);
    }
}

/// Exactly one pixel per column: on a shallow left-to-right segment, column
/// `x` carries the single row `line_row(..., x)`, so two drawn pixels in
/// the same column coincide.
pub proof fn lemma_line_one_pixel_per_column(
    ax: int,
    ay: int,
    bx: int,
    by: int,
    px: int,
    py1: int,
    py2: int,
)
    requires
        !line_steep(ax, ay, bx, by),
        on_line(ax, ay, bx, by, px, py1),
        on_line(ax, ay, bx, by, px, py2),
    ensures
        py1 == py2,
{
}

/// A shallow segment misses no column: every column between the endpoints
/// carries a drawn pixel, and by [`lemma_line_one_pixel_per_column`] only
/// one.
pub proof fn lemma_line_column_covered(ax: int, ay: int, bx: int, by: int, px: int)
    requires
        !line_steep(ax, ay, bx, by),
        ax <= bx ==> ax <= px <= bx,
        bx < ax ==> bx <= px <= ax,
    ensures
        exists|py: int| on_line(ax, ay, bx, by, px, py),
{
    if ax <= bx {
        assert(on_line(ax, ay, bx, by, px, line_row(ax, ay, bx, by, px)));
    } else {
        assert(on_line(ax, ay, bx, by, px, line_row(bx, by, ax, ay, px)));
    }
}

/// The steep counterpart: a steep segment misses no row, and two drawn
/// pixels in the same row coincide.
pub proof fn lemma_line_row_covered(ax: int, ay: int, bx: int, by: int, py: int)
    requires
        line_steep(ax, ay, bx, by),
        ay <= by ==> ay <= py <= by,
        by < ay ==> by <= py <= ay,
    ensures
        exists|px: int| on_line(ax, ay, bx, by, px, py),
        forall|px1: int, px2: int|
            on_line(ax, ay, bx, by, px1, py) && on_line(ax, ay, bx, by, px2, py) ==> px1 == px2,
{
    if ay <= by {
        assert(on_line(ax, ay, bx, by, line_row(ay, ax, by, bx, py), py));
    } else {
        assert(on_line(ax, ay, bx, by, line_row(by, bx, ay, ax, py), py));
    }
}

/// The interpolated row stays between the endpoint rows.
pub proof fn lemma_line_row_bounds(ax: int, ay: int, bx: int, by: int, x: int)
    requires
        ax <= x <= bx,
    ensures
        if ay <= by {
            ay <= line_row(ax, ay, bx, by, x) <= by
        } else {
            by <= line_row(ax, ay, bx, by, x) <= ay
        },
{
    if ax != bx {
        let d = bx - ax;
        let n = ay * d + (by - ay) * (x - ax);
        if ay <= by {
            assert(ay * d <= n && n <= by * d) by (nonlinear_arith)
                requires
                    d >= 1,
                    0 <= x - ax <= d,
                    ay <= by,
                    n == ay * d + (by - ay) * (x - ax),
            ;
            lemma_round_div_away_bounds(n, d, ay, by);
        } else {
            assert(by * d <= n && n <= ay * d) by (nonlinear_arith)
                requires
                    d >= 1,
                    0 <= x - ax <= d,
                    by <= ay,
                    n == ay * d + (by - ay) * (x - ax),
            ;
            lemma_round_div_away_bounds(n, d, by, ay);
        }
    }
}

/// Draws the single-pixel-wide segment from `(ax, ay)` to `(bx, by)`:
/// afterwards every on-canvas pixel of [`on_line`] holds `color`, every
/// other pixel is unchanged, and the depth plane is untouched.
#[verifier::loop_isolation(false)]
#[verifier::rlimit(60)]
pub fn line(ax: i32, ay: i32, bx: i32, by: i32, framebuffer: &mut Framebuffer, color: Color)
    requires
        old(framebuffer).wf(),
    ensures
        final(framebuffer).wf(),
        final(framebuffer).width == old(framebuffer).width,
        final(framebuffer).height == old(framebuffer).height,
        final(framebuffer).zbuffer@ == old(framebuffer).zbuffer@,
        forall|px: int, py: int|
            old(framebuffer).in_bounds(px, py) ==> #[trigger] final(framebuffer).color_at(px, py)
                == (if on_line(ax as int, ay as int, bx as int, by as int, px, py) {
                color
            } else {
                old(framebuffer).color_at(px, py)
            }),
{
    let axl = ax as i64;
    let ayl = ay as i64;
    let bxl = bx as i64;
    let byl = by as i64;
    let dx = if axl >= bxl {
        axl - bxl
    } else {
        bxl - axl
    };
    let dy = if ayl >= byl {
        ayl - byl
    } else {
        byl - ayl
    };
    let is_steep = dx < dy;
    // transpose a steep segment so that the loop steps along the longer axis
    let mut x0 = if is_steep {
        ayl
    } else {
        axl
    };
    let mut y0 = if is_steep {
        axl
    } else {
        ayl
    };
    let mut x1 = if is_steep {
        byl
    } else {
        bxl
    };
    let mut y1 = if is_steep {
        bxl
    } else {
        byl
    };
    if x0 > x1 {
        // orient left-to-right
        let tx = x0;
        x0 = x1;
        x1 = tx;
        let ty = y0;
        y0 = y1;
        y1 = ty;
    }
    proof {
        assert(is_steep == line_steep(ax as int, ay as int, bx as int, by as int));
        assert(forall|px: int, py: int|
            on_line(ax as int, ay as int, bx as int, by as int, px, py) == on_line_lr(
                x0 as int,
                y0 as int,
                x1 as int,
                y1 as int,
                if is_steep {
                    py
                } else {
                    px
                },
                if is_steep {
                    px
                } else {
                    py
                },
            ));
    }
    let mut x = x0;
    while x <= x1
        invariant
            x0 <= x,
            framebuffer.wf(),
            framebuffer.width == old(framebuffer).width,
            framebuffer.height == old(framebuffer).height,
            framebuffer.zbuffer@ == old(framebuffer).zbuffer@,
            forall|px: int, py: int|
                old(framebuffer).in_bounds(px, py) ==> #[trigger] framebuffer.color_at(px, py) == (
                if on_line(ax as int, ay as int, bx as int, by as int, px, py) && (if is_steep {
                    py
                } else {
                    px
                }) < x {
                    color
                } else {
                    old(framebuffer).color_at(px, py)
                }),
        decreases x1 + 1 - x,
    {
        let yy: i64 = if x0 == x1 {
            y0
        } else {
            proof {
                let p1 = (y0 as int) * ((x1 - x0) as int);
                let p2 = ((y1 - y0) as int) * ((x - x0) as int);
                assert(-0x8000_0000_0000_0000 <= p1 <= 0x8000_0000_0000_0000
                    && -0x1_0000_0000_0000_0000 <= p2 <= 0x1_0000_0000_0000_0000)
                    by (nonlinear_arith)
                    requires
                        -0x8000_0000 <= y0 <= 0x8000_0000,
                        0 <= x1 - x0 <= 0x1_0000_0000,
                        -0x1_0000_0000 <= y1 - y0 <= 0x1_0000_0000,
                        0 <= x - x0 <= 0x1_0000_0000,
                        p1 == (y0 as int) * ((x1 - x0) as int),
                        p2 == ((y1 - y0) as int) * ((x - x0) as int),
                ;
            }
            let n: i128 = (y0 as i128) * ((x1 - x0) as i128) + ((y1 - y0) as i128) * ((x - x0)
                as i128);
            proof {
                lemma_line_row_bounds(x0 as int, y0 as int, x1 as int, y1 as int, x as int);
            }
            round_div_away_exec(n, (x1 - x0) as i128) as i64
        };
        proof {
            lemma_line_row_bounds(x0 as int, y0 as int, x1 as int, y1 as int, x as int);
            assert(yy == line_row(x0 as int, y0 as int, x1 as int, y1 as int, x as int));
            assert(i32::MIN <= yy <= i32::MAX);
        }
        let ghost pre = *framebuffer;
        let qx: i32 = if is_steep {
            yy as i32
        } else {
            x as i32
        };
        let qy: i32 = if is_steep {
            x as i32
        } else {
            yy as i32
        };
        framebuffer.set_pixel(qx, qy, color);
        proof {
            assert(on_line(ax as int, ay as int, bx as int, by as int, qx as int, qy as int));
            assert forall|px: int, py: int| old(framebuffer).in_bounds(px, py) implies #[trigger] framebuffer.color_at(
                px,
                py,
            ) == (if on_line(ax as int, ay as int, bx as int, by as int, px, py) && (if is_steep {
                py
            } else {
                px
            }) < x + 1 {
                color
            } else {
                old(framebuffer).color_at(px, py)
            }) by {
                lemma_pix_in_range(framebuffer.width as int, framebuffer.height as int, px, py);
                if px == qx as int && py == qy as int {
                    assert(framebuffer.color_at(px, py) == color);
                } else {
                    if pre.in_bounds(qx as int, qy as int) {
                        lemma_pix_in_range(
                            framebuffer.width as int,
                            framebuffer.height as int,
                            qx as int,
                            qy as int,
                        );
                        lemma_pix_injective(
                            framebuffer.width as int,
                            framebuffer.height as int,
                            px,
                            py,
                            qx as int,
                            qy as int,
                        );
                    }
                    assert(framebuffer.color_at(px, py) == pre.color_at(px, py));
                    // no pixel other than (qx, qy) is newly covered in this
                    // column: its normalized row is forced to yy
                    if on_line(ax as int, ay as int, bx as int, by as int, px, py) && (if is_steep {
                        py
                    } else {
                        px
                    }) == x as int {
                        assert(on_line_lr(
                            x0 as int,
                            y0 as int,
                            x1 as int,
                            y1 as int,
                            x as int,
                            if is_steep {
                                px
                            } else {
                                py
                            },
                        ));
                        assert((if is_steep {
                            px
                        } else {
                            py
                        }) == yy as int);
                        assert(false);
                    }
                }
            }
        }
        x = x + 1;
    }
}

/// The smallest of three integers.
pub open spec fn min3(a: int, b: int, c: int) -> int {
    if a <= b && a <= c {
        a
    } else if b <= c {
        b
    } else {
        c
    }
}

/// The largest of three integers.
pub open spec fn max3(a: int, b: int, c: int) -> int {
    if a >= b && a >= c {
        a
    } else if b >= c {
        b
    } else {
        c
    }
}

/// Twice the signed area of the triangle `(a, b, c)`: the shoelace sum
/// over its edges. Positive for counter-clockwise winding in the screen
/// coordinate system.
pub open spec fn area2(ax: int, ay: int, bx: int, by: int, cx: int, cy: int) -> int {
    (by - ay) * (bx + ax) + (cy - by) * (cx + bx) + (ay - cy) * (ax + cx)
}

/// The barycentric partition: at any point `p` the three sub-triangle
/// areas sum to the whole, so the barycentric weights
/// `area2(p,b,c)/area2(a,b,c)` and its two cyclic companions sum to one;
/// the point lies inside the closed triangle exactly when all three
/// numerators are nonnegative.
pub proof fn lemma_area2_partition(
    px: int,
    py: int,
    ax: int,
    ay: int,
    bx: int,
    by: int,
    cx: int,
    cy: int,
)
    ensures
        area2(px, py, bx, by, cx, cy) + area2(px, py, cx, cy, ax, ay) + area2(
            px,
            py,
            ax,
            ay,
            bx,
            by,
        ) == area2(ax, ay, bx, by, cx, cy),
{
    assert(area2(px, py, bx, by, cx, cy) + area2(px, py, cx, cy, ax, ay) + area2(
        px,
        py,
        ax,
        ay,
        bx,
        by,
    ) == area2(ax, ay, bx, by, cx, cy)) by (nonlinear_arith);
}

/// Swapping two vertices flips the sign of the area: a clockwise triangle
/// has a nonpositive shoelace sum wherever its counter-clockwise twin has
/// a nonnegative one, so it is culled just as a degenerate one is.
pub proof fn lemma_area2_antisymmetric(ax: int, ay: int, bx: int, by: int, cx: int, cy: int)
    ensures
        area2(ax, ay, cx, cy, bx, by) == -area2(ax, ay, bx, by, cx, cy),
{
    assert(area2(ax, ay, cx, cy, bx, by) == -area2(ax, ay, bx, by, cx, cy))
        by (nonlinear_arith);
}

/// `(px, py)` lies in the closed triangle `(a, b, c)`: all three
/// barycentric numerators are nonnegative.
pub open spec fn tri_inside(
    px: int,
    py: int,
    ax: int,
    ay: int,
    bx: int,
    by: int,
    cx: int,
    cy: int,
) -> bool {
    &&& area2(px, py, bx, by, cx, cy) >= 0
    &&& area2(px, py, cx, cy, ax, ay) >= 0
    &&& area2(px, py, ax, ay, bx, by) >= 0
}

/// `(px, py)` lies in the axis-aligned bounding box of the three vertices.
pub open spec fn in_bbox(
    px: int,
    py: int,
    ax: int,
    ay: int,
    bx: int,
    by: int,
    cx: int,
    cy: int,
) -> bool {
    &&& min3(ax, bx, cx) <= px <= max3(ax, bx, cx)
    &&& min3(ay, by, cy) <= py <= max3(ay, by, cy)
}

/// The fill visits `(px, py)`: the triangle survives culling (twice its
/// signed area is at least 2, i.e. its area is at least one pixel), the
/// pixel is in the bounding box, and it passes the closed inside test.
pub open spec fn tri_covers(
    px: int,
    py: int,
    ax: int,
    ay: int,
    bx: int,
    by: int,
    cx: int,
    cy: int,
) -> bool {
    &&& area2(ax, ay, bx, by, cx, cy) >= 2
    &&& in_bbox(px, py, ax, ay, bx, by, cx, cy)
    &&& tri_inside(px, py, ax, ay, bx, by, cx, cy)
}

/// The interpolated depth at `(px, py)`: the barycentric combination of
/// the three vertex depths, truncated toward zero. Meaningful where
/// [`tri_covers`] holds.
pub open spec fn tri_depth(
    px: int,
    py: int,
    ax: int,
    ay: int,
    az: int,
    bx: int,
    by: int,
    bz: int,
    cx: int,
    cy: int,
    cz: int,
) -> int {
    (area2(px, py, bx, by, cx, cy) * az + area2(px, py, cx, cy, ax, ay) * bz + area2(
        px,
        py,
        ax,
        ay,
        bx,
        by,
    ) * cz) / area2(ax, ay, bx, by, cx, cy)
}

/// A nonnegative barycentric combination of depths in `[0, 255]`, divided
/// by the total weight, stays in `[0, 255]`.
proof fn lemma_depth_quotient_range(e: int, ea: int, eb: int, ec: int, za: int, zb: int, zc: int)
    requires
        ea >= 0,
        eb >= 0,
        ec >= 0,
        ea + eb + ec == e,
        e >= 2,
        0 <= za <= 255,
        0 <= zb <= 255,
        0 <= zc <= 255,
    ensures
        0 <= ea * za + eb * zb + ec * zc <= e * 255,
        0 <= (ea * za + eb * zb + ec * zc) / e <= 255,
{
    let n = ea * za + eb * zb + ec * zc;
    assert(0 <= n <= e * 255) by (nonlinear_arith)
        requires
            ea >= 0,
            eb >= 0,
            ec >= 0,
            ea + eb + ec == e,
            0 <= za <= 255,
            0 <= zb <= 255,
            0 <= zc <= 255,
            n == ea * za + eb * zb + ec * zc,
    ;
    let q = n / e;
    let r = n % e;
    vstd::arithmetic::div_mod::lemma_fundamental_div_mod(n, e);
    assert(0 <= q <= 255) by (nonlinear_arith)
        requires
            e >= 2,
            0 <= n <= e * 255,
            n == e * q + r,
            0 <= r < e,
    ;
}

/// The interpolated depth of a covered pixel fits the 8-bit depth plane.
pub proof fn lemma_tri_depth_range(
    px: int,
    py: int,
    ax: int,
    ay: int,
    az: int,
    bx: int,
    by: int,
    bz: int,
    cx: int,
    cy: int,
    cz: int,
)
    requires
        tri_covers(px, py, ax, ay, bx, by, cx, cy),
        0 <= az <= 255,
        0 <= bz <= 255,
        0 <= cz <= 255,
    ensures
        0 <= tri_depth(px, py, ax, ay, az, bx, by, bz, cx, cy, cz) <= 255,
{
    lemma_area2_partition(px, py, ax, ay, bx, by, cx, cy);
    lemma_depth_quotient_range(
        area2(ax, ay, bx, by, cx, cy),
        area2(px, py, bx, by, cx, cy),
        area2(px, py, cx, cy, ax, ay),
        area2(px, py, ax, ay, bx, by),
        az,
        bz,
        cz,
    );
}

/// The color a depth-tested fill leaves at one pixel: the fill color where
/// the pixel is covered and strictly wins the depth test, the old color
/// everywhere else.
pub open spec fn frag_color(covers: bool, z: int, color: Color, old_color: Color, old_z: u8) -> Color {
    if covers && z > old_z {
        color
    } else {
        old_color
    }
}

/// The depth a depth-tested fill leaves at one pixel.
pub open spec fn frag_depth(covers: bool, z: int, old_z: u8) -> u8 {
    if covers && z > old_z {
        z as u8
    } else {
        old_z
    }
}

/// Depth decides, not order: when two fills reach the same pixel with
/// different interpolated depths, the color and depth the pixel ends with
/// are those of the strictly deeper fill, whichever fill ran first.
pub proof fn lemma_depth_order_independent(
    covers1: bool,
    z1: int,
    color1: Color,
    covers2: bool,
    z2: int,
    color2: Color,
    color0: Color,
    z0: u8,
)
    requires
        covers1 && covers2 ==> z1 != z2,
        0 <= z1 <= 255,
        0 <= z2 <= 255,
    ensures
        frag_color(
            covers2,
            z2,
            color2,
            frag_color(covers1, z1, color1, color0, z0),
            frag_depth(covers1, z1, z0),
        ) == frag_color(
            covers1,
            z1,
            color1,
            frag_color(covers2, z2, color2, color0, z0),
            frag_depth(covers2, z2, z0),
        ),
        frag_depth(covers2, z2, frag_depth(covers1, z1, z0)) == frag_depth(
            covers1,
            z1,
            frag_depth(covers2, z2, z0),
        ),
{
}

/// The deeper of two fills decides a pixel: when both cover it, both pass
/// the depth test against the initial depth, and the first is strictly
/// deeper, the pixel ends with the first fill's color and depth in either
/// order of the two fills.
pub proof fn lemma_deeper_fill_wins(
    z1: int,
    color1: Color,
    z2: int,
    color2: Color,
    color0: Color,
    z0: u8,
)
    requires
        z0 < z2 < z1 <= 255,
    ensures
        frag_color(true, z2, color2, frag_color(true, z1, color1, color0, z0), frag_depth(true, z1, z0))
            == color1,
        frag_depth(true, z2, frag_depth(true, z1, z0)) == z1 as u8,
        frag_color(true, z1, color1, frag_color(true, z2, color2, color0, z0), frag_depth(true, z2, z0))
            == color1,
        frag_depth(true, z1, frag_depth(true, z2, z0)) == z1 as u8,
{
}

/// With all six coordinates in `i32` range, twice the signed area is
/// bounded by three times a 64-bit product.
pub proof fn lemma_area2_range(ax: int, ay: int, bx: int, by: int, cx: int, cy: int)
    requires
        -0x8000_0000 <= ax <= 0x8000_0000,
        -0x8000_0000 <= ay <= 0x8000_0000,
        -0x8000_0000 <= bx <= 0x8000_0000,
        -0x8000_0000 <= by <= 0x8000_0000,
        -0x8000_0000 <= cx <= 0x8000_0000,
        -0x8000_0000 <= cy <= 0x8000_0000,
    ensures
        -0x3_0000_0000_0000_0000 <= area2(ax, ay, bx, by, cx, cy) <= 0x3_0000_0000_0000_0000,
{
    assert(-0x1_0000_0000_0000_0000 <= (by - ay) * (bx + ax) <= 0x1_0000_0000_0000_0000
        && -0x1_0000_0000_0000_0000 <= (cy - by) * (cx + bx) <= 0x1_0000_0000_0000_0000
        && -0x1_0000_0000_0000_0000 <= (ay - cy) * (ax + cx) <= 0x1_0000_0000_0000_0000)
        by (nonlinear_arith)
        requires
            -0x1_0000_0000 <= by - ay <= 0x1_0000_0000,
            -0x1_0000_0000 <= bx + ax <= 0x1_0000_0000,
            -0x1_0000_0000 <= cy - by <= 0x1_0000_0000,
            -0x1_0000_0000 <= cx + bx <= 0x1_0000_0000,
            -0x1_0000_0000 <= ay - cy <= 0x1_0000_0000,
            -0x1_0000_0000 <= ax + cx <= 0x1_0000_0000,
    ;
}

/// Twice the signed area of `(a, b, c)`, exactly.
fn area2_exec(ax: i32, ay: i32, bx: i32, by: i32, cx: i32, cy: i32) -> (r: i128)
    ensures
        r == area2(ax as int, ay as int, bx as int, by as int, cx as int, cy as int),
{
    let axl = ax as i128;
    let ayl = ay as i128;
    let bxl = bx as i128;
    let byl = by as i128;
    let cxl = cx as i128;
    let cyl = cy as i128;
    proof {
        lemma_area2_range(ax as int, ay as int, bx as int, by as int, cx as int, cy as int);
        assert(-0x1_0000_0000_0000_0000 <= (byl - ayl) * (bxl + axl) <= 0x1_0000_0000_0000_0000
            && -0x1_0000_0000_0000_0000 <= (cyl - byl) * (cxl + bxl) <= 0x1_0000_0000_0000_0000
            && -0x1_0000_0000_0000_0000 <= (ayl - cyl) * (axl + cxl) <= 0x1_0000_0000_0000_0000)
            by (nonlinear_arith)
            requires
                -0x1_0000_0000 <= byl - ayl <= 0x1_0000_0000,
                -0x1_0000_0000 <= bxl + axl <= 0x1_0000_0000,
                -0x1_0000_0000 <= cyl - byl <= 0x1_0000_0000,
                -0x1_0000_0000 <= cxl + bxl <= 0x1_0000_0000,
                -0x1_0000_0000 <= ayl - cyl <= 0x1_0000_0000,
                -0x1_0000_0000 <= axl + cxl <= 0x1_0000_0000,
        ;
    }
    (byl - ayl) * (bxl + axl) + (cyl - byl) * (cxl + bxl) + (ayl - cyl) * (axl + cxl)
}

/// The smallest of three values.
fn min3_exec(a: i32, b: i32, c: i32) -> (r: i32)
    ensures
        r as int == min3(a as int, b as int, c as int),
{
    if a <= b && a <= c {
        a
    } else if b <= c {
        b
    } else {
        c
    }
}

/// The largest of three values.
fn max3_exec(a: i32, b: i32, c: i32) -> (r: i32)
    ensures
        r as int == max3(a as int, b as int, c as int),
{
    if a >= b && a >= c {
        a
    } else if b >= c {
        b
    } else {
        c
    }
}


/// Depth-tested write of one fragment: stores `z` and `color` at the
/// on-canvas pixel `(x, y)` iff `z` strictly exceeds the stored depth.
fn put_fragment(fb: &mut Framebuffer, x: usize, y: usize, z: u8, color: Color)
    requires
        old(fb).wf(),
        x < old(fb).width,
        y < old(fb).height,
    ensures
        final(fb).wf(),
        final(fb).width == old(fb).width,
        final(fb).height == old(fb).height,
        z > old(fb).depth_at(x as int, y as int) ==> final(fb).data@ == old(fb).data@.update(
            pix(old(fb).width as int, x as int, y as int),
            color,
        ) && final(fb).zbuffer@ == old(fb).zbuffer@.update(
            pix(old(fb).width as int, x as int, y as int),
            z,
        ),
        z <= old(fb).depth_at(x as int, y as int) ==> final(fb).data@ == old(fb).data@
            && final(fb).zbuffer@ == old(fb).zbuffer@,
{
    proof {
        lemma_pix_in_range(fb.width as int, fb.height as int, x as int, y as int);
    }
    let index: usize = y * fb.width + x;
    if z > fb.zbuffer[index] {
        fb.zbuffer.set(index, z);
        fb.data.set(index, color);
    }
}

/// Fills the rows `ylo..=yhi` of the single bounding-box column `x`:
/// afterwards every on-canvas pixel of column `x` carries the depth-tested
/// fragment of the triangle, and every other column is untouched. The rows
/// outside `ylo..=yhi` are exactly the off-canvas ones and those outside
/// the bounding box, which the fill never covers.
#[verifier::loop_isolation(false)]
#[verifier::rlimit(100)]
fn fill_column(
    framebuffer: &mut Framebuffer,
    x: i64,
    ylo: i64,
    yhi: i64,
    ax: i32,
    ay: i32,
    az: u8,
    bx: i32,
    by: i32,
    bz: u8,
    cx: i32,
    cy: i32,
    cz: u8,
    e: i128,
    color: Color,
)
    requires
        old(framebuffer).wf(),
        e == area2(ax as int, ay as int, bx as int, by as int, cx as int, cy as int),
        e >= 2,
        0 <= x < old(framebuffer).width,
        min3(ax as int, bx as int, cx as int) <= x <= max3(ax as int, bx as int, cx as int),
        ylo as int == (if min3(ay as int, by as int, cy as int) < 0 {
            0int
        } else {
            min3(ay as int, by as int, cy as int)
        }),
        yhi as int == (if max3(ay as int, by as int, cy as int) > old(framebuffer).height - 1 {
            old(framebuffer).height - 1
        } else {
            max3(ay as int, by as int, cy as int)
        }),
    ensures
        final(framebuffer).wf(),
        final(framebuffer).width == old(framebuffer).width,
        final(framebuffer).height == old(framebuffer).height,
        forall|px: int, py: int|
            old(framebuffer).in_bounds(px, py) ==> #[trigger] final(framebuffer).color_at(px, py)
                == (if px == x {
                frag_color(
                    tri_covers(
                        px,
                        py,
                        ax as int,
                        ay as int,
                        bx as int,
                        by as int,
                        cx as int,
                        cy as int,
                    ),
                    tri_depth(
                        px,
                        py,
                        ax as int,
                        ay as int,
                        az as int,
                        bx as int,
                        by as int,
                        bz as int,
                        cx as int,
                        cy as int,
                        cz as int,
                    ),
                    color,
                    old(framebuffer).color_at(px, py),
                    old(framebuffer).depth_at(px, py),
                )
            } else {
                old(framebuffer).color_at(px, py)
            }),
        forall|px: int, py: int|
            old(framebuffer).in_bounds(px, py) ==> #[trigger] final(framebuffer).depth_at(px, py)
                == (if px == x {
                frag_depth(
                    tri_covers(
                        px,
                        py,
                        ax as int,
                        ay as int,
                        bx as int,
                        by as int,
                        cx as int,
                        cy as int,
                    ),
                    tri_depth(
                        px,
                        py,
                        ax as int,
                        ay as int,
                        az as int,
                        bx as int,
                        by as int,
                        bz as int,
                        cx as int,
                        cy as int,
                        cz as int,
                    ),
                    old(framebuffer).depth_at(px, py),
                )
            } else {
                old(framebuffer).depth_at(px, py)
            }),
{
    let ghost fb0 = *framebuffer;
    let ghost axi = ax as int;
    let ghost ayi = ay as int;
    let ghost azi = az as int;
    let ghost bxi = bx as int;
    let ghost byi = by as int;
    let ghost bzi = bz as int;
    let ghost cxi = cx as int;
    let ghost cyi = cy as int;
    let ghost czi = cz as int;
    let ghost cov = |px: int, py: int| tri_covers(px, py, axi, ayi, bxi, byi, cxi, cyi);
    let ghost dep = |px: int, py: int|
        tri_depth(px, py, axi, ayi, azi, bxi, byi, bzi, cxi, cyi, czi);
    let ghost cafter = |px: int, py: int|
        frag_color(cov(px, py), dep(px, py), color, fb0.color_at(px, py), fb0.depth_at(px, py));
    let ghost dafter = |px: int, py: int| frag_depth(cov(px, py), dep(px, py), fb0.depth_at(px, py));
    let mut y = ylo;
    while y <= yhi
        invariant
            ylo <= y,
            framebuffer.wf(),
            framebuffer.width == fb0.width,
            framebuffer.height == fb0.height,
            forall|px: int, py: int|
                fb0.in_bounds(px, py) ==> #[trigger] framebuffer.color_at(px, py) == (if px == x
                    && py < y {
                    cafter(px, py)
                } else {
                    fb0.color_at(px, py)
                }),
            forall|px: int, py: int|
                fb0.in_bounds(px, py) ==> #[trigger] framebuffer.depth_at(px, py) == (if px == x
                    && py < y {
                    dafter(px, py)
                } else {
                    fb0.depth_at(px, py)
                }),
        decreases yhi + 1 - y,
    {
        let ea = area2_exec(x as i32, y as i32, bx, by, cx, cy);
        let eb = area2_exec(x as i32, y as i32, cx, cy, ax, ay);
        let ec = area2_exec(x as i32, y as i32, ax, ay, bx, by);
        let ghost pre = *framebuffer;
        proof {
            lemma_pix_in_range(fb0.width as int, fb0.height as int, x as int, y as int);
            lemma_area2_partition(x as int, y as int, axi, ayi, bxi, byi, cxi, cyi);
        }
        if ea >= 0 && eb >= 0 && ec >= 0 {
            proof {
                assert(cov(x as int, y as int));
                lemma_tri_depth_range(x as int, y as int, axi, ayi, azi, bxi, byi, bzi, cxi, cyi, czi);
                lemma_area2_range(x as int, y as int, bxi, byi, cxi, cyi);
                lemma_area2_range(x as int, y as int, cxi, cyi, axi, ayi);
                lemma_area2_range(x as int, y as int, axi, ayi, bxi, byi);
                assert((ea as int) * (az as int) <= 0x2fd_0000_0000_0000_0000 && (eb as int) * (bz
                    as int) <= 0x2fd_0000_0000_0000_0000 && (ec as int) * (cz as int)
                    <= 0x2fd_0000_0000_0000_0000) by (nonlinear_arith)
                    requires
                        0 <= ea as int <= 0x3_0000_0000_0000_0000,
                        0 <= eb as int <= 0x3_0000_0000_0000_0000,
                        0 <= ec as int <= 0x3_0000_0000_0000_0000,
                        0 <= az as int <= 255,
                        0 <= bz as int <= 255,
                        0 <= cz as int <= 255,
                ;
            }
            let num: u128 = (ea as u128) * (az as u128) + (eb as u128) * (bz as u128) + (ec as u128)
                * (cz as u128);
            let zq: u128 = num / (e as u128);
            proof {
                lemma_depth_quotient_range(e as int, ea as int, eb as int, ec as int, azi, bzi, czi);
                assert(zq as int == dep(x as int, y as int));
            }
            let z = zq as u8;
            put_fragment(framebuffer, x as usize, y as usize, z, color);
            proof {
                assert(pre.depth_at(x as int, y as int) == fb0.depth_at(x as int, y as int));
                assert forall|px: int, py: int|
                    fb0.in_bounds(px, py) implies #[trigger] framebuffer.color_at(px, py) == (if px
                    == x && py < y + 1 {
                    cafter(px, py)
                } else {
                    fb0.color_at(px, py)
                }) by {
                    lemma_pix_in_range(fb0.width as int, fb0.height as int, px, py);
                    assert(pre.color_at(px, py) == (if px == x as int && py < y as int {
                        cafter(px, py)
                    } else {
                        fb0.color_at(px, py)
                    }));
                    if px == x as int && py == y as int {
                        if z > pre.depth_at(x as int, y as int) {
                            assert(framebuffer.color_at(px, py) == color);
                        } else {
                            assert(framebuffer.color_at(px, py) == pre.color_at(px, py));
                        }
                    } else {
                        lemma_pix_injective(
                            fb0.width as int,
                            fb0.height as int,
                            px,
                            py,
                            x as int,
                            y as int,
                        );
                        assert(framebuffer.color_at(px, py) == pre.color_at(px, py));
                    }
                }
                assert forall|px: int, py: int|
                    fb0.in_bounds(px, py) implies #[trigger] framebuffer.depth_at(px, py) == (if px
                    == x && py < y + 1 {
                    dafter(px, py)
                } else {
                    fb0.depth_at(px, py)
                }) by {
                    lemma_pix_in_range(fb0.width as int, fb0.height as int, px, py);
                    assert(pre.depth_at(px, py) == (if px == x as int && py < y as int {
                        dafter(px, py)
                    } else {
                        fb0.depth_at(px, py)
                    }));
                    if px == x as int && py == y as int {
                        if z > pre.depth_at(x as int, y as int) {
                            assert(framebuffer.depth_at(px, py) == z);
                        } else {
                            assert(framebuffer.depth_at(px, py) == pre.depth_at(px, py));
                        }
                    } else {
                        lemma_pix_injective(
                            fb0.width as int,
                            fb0.height as int,
                            px,
                            py,
                            x as int,
                            y as int,
                        );
                        assert(framebuffer.depth_at(px, py) == pre.depth_at(px, py));
                    }
                }
            }
        } else {
            proof {
                assert(!cov(x as int, y as int));
            }
        }
        y = y + 1;
    }
    proof {
        assert forall|px: int, py: int|
            fb0.in_bounds(px, py) && px == x as int && !(py < y) implies !cov(px, py) by {}
    }
}

/// Fills the triangle `(a, b, c)` with `color`, interpolating the three
/// vertex depths and writing each covered pixel only where its
/// interpolated depth strictly exceeds the stored depth. A triangle whose
/// doubled signed area is below 2 (degenerate, sub-pixel or clockwise) is
/// culled and the framebuffer is left untouched.
///
/// The fill walks the bounding box column by column; columns are disjoint
/// in `x`, so each pixel is written at most once and the column fills are
/// independent of one another.
#[verifier::loop_isolation(false)]
#[verifier::rlimit(100)]
pub fn triangle(
    ax: i32,
    ay: i32,
    az: u8,
    bx: i32,
    by: i32,
    bz: u8,
    cx: i32,
    cy: i32,
    cz: u8,
    framebuffer: &mut Framebuffer,
    color: Color,
)
    requires
        old(framebuffer).wf(),
    ensures
        final(framebuffer).wf(),
        final(framebuffer).width == old(framebuffer).width,
        final(framebuffer).height == old(framebuffer).height,
        area2(ax as int, ay as int, bx as int, by as int, cx as int, cy as int) < 2
            ==> *final(framebuffer) == *old(framebuffer),
        forall|px: int, py: int|
            old(framebuffer).in_bounds(px, py) ==> #[trigger] final(framebuffer).color_at(px, py)
                == frag_color(
                tri_covers(px, py, ax as int, ay as int, bx as int, by as int, cx as int, cy as int),
                tri_depth(
                    px,
                    py,
                    ax as int,
                    ay as int,
                    az as int,
                    bx as int,
                    by as int,
                    bz as int,
                    cx as int,
                    cy as int,
                    cz as int,
                ),
                color,
                old(framebuffer).color_at(px, py),
                old(framebuffer).depth_at(px, py),
            ),
        forall|px: int, py: int|
            old(framebuffer).in_bounds(px, py) ==> #[trigger] final(framebuffer).depth_at(px, py)
                == frag_depth(
                tri_covers(px, py, ax as int, ay as int, bx as int, by as int, cx as int, cy as int),
                tri_depth(
                    px,
                    py,
                    ax as int,
                    ay as int,
                    az as int,
                    bx as int,
                    by as int,
                    bz as int,
                    cx as int,
                    cy as int,
                    cz as int,
                ),
                old(framebuffer).depth_at(px, py),
            ),
{
    let ghost fb0 = *framebuffer;
    let ghost axi = ax as int;
    let ghost ayi = ay as int;
    let ghost azi = az as int;
    let ghost bxi = bx as int;
    let ghost byi = by as int;
    let ghost bzi = bz as int;
    let ghost cxi = cx as int;
    let ghost cyi = cy as int;
    let ghost czi = cz as int;
    let ghost cov = |px: int, py: int| tri_covers(px, py, axi, ayi, bxi, byi, cxi, cyi);
    let ghost dep = |px: int, py: int|
        tri_depth(px, py, axi, ayi, azi, bxi, byi, bzi, cxi, cyi, czi);
    let ghost cafter = |px: int, py: int|
        frag_color(cov(px, py), dep(px, py), color, fb0.color_at(px, py), fb0.depth_at(px, py));
    let ghost dafter = |px: int, py: int| frag_depth(cov(px, py), dep(px, py), fb0.depth_at(px, py));
    let e = area2_exec(ax, ay, bx, by, cx, cy);
    if e < 2 {
        // backface culling, and triangles that cover less than a pixel
        return ;
    }
    let bbminx = min3_exec(ax, bx, cx);
    let bbminy = min3_exec(ay, by, cy);
    let bbmaxx = max3_exec(ax, bx, cx);
    let bbmaxy = max3_exec(ay, by, cy);
    let w = framebuffer.width as i64;
    let h = framebuffer.height as i64;
    // out-of-canvas columns and rows are never written, so the walk stays
    // on canvas
    let xlo: i64 = if (bbminx as i64) < 0 {
        0
    } else {
        bbminx as i64
    };
    let xhi: i64 = if (bbmaxx as i64) > w - 1 {
        w - 1
    } else {
        bbmaxx as i64
    };
    let ylo: i64 = if (bbminy as i64) < 0 {
        0
    } else {
        bbminy as i64
    };
    let yhi: i64 = if (bbmaxy as i64) > h - 1 {
        h - 1
    } else {
        bbmaxy as i64
    };
    let mut x = xlo;
    while x <= xhi
        invariant
            xlo <= x,
            framebuffer.wf(),
            framebuffer.width == fb0.width,
            framebuffer.height == fb0.height,
            forall|px: int, py: int|
                fb0.in_bounds(px, py) ==> #[trigger] framebuffer.color_at(px, py) == (if px < x {
                    cafter(px, py)
                } else {
                    fb0.color_at(px, py)
                }),
            forall|px: int, py: int|
                fb0.in_bounds(px, py) ==> #[trigger] framebuffer.depth_at(px, py) == (if px < x {
                    dafter(px, py)
                } else {
                    fb0.depth_at(px, py)
                }),
        decreases xhi + 1 - x,
    {
        let ghost pre = *framebuffer;
        fill_column(framebuffer, x, ylo, yhi, ax, ay, az, bx, by, bz, cx, cy, cz, e, color);
        proof {
            assert forall|px: int, py: int|
                fb0.in_bounds(px, py) implies #[trigger] framebuffer.color_at(px, py) == (if px < x
                + 1 {
                cafter(px, py)
            } else {
                fb0.color_at(px, py)
            }) && framebuffer.depth_at(px, py) == (if px < x + 1 {
                dafter(px, py)
            } else {
                fb0.depth_at(px, py)
            }) by {
                if px == x as int {
                    assert(pre.color_at(px, py) == fb0.color_at(px, py));
                    assert(pre.depth_at(px, py) == fb0.depth_at(px, py));
                }
            }
        }
        x = x + 1;
    }
    proof {
        assert forall|px: int, py: int|
            fb0.in_bounds(px, py) && !(px < x) implies !cov(px, py) by {}
    }
}

} // verus!
