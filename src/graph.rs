use vstd::prelude::*;
use crate::colour::RGB255;
use vstd::string::*;
use vstd::utf8::{encode_scalar, encode_utf8};
use crate::text::{Font, TextAnchor, HorizontalTextAnchor, VerticalTextAnchor, anchor_offset};
use crate::util::{lemma_cell_index, lemma_cell_index_distinct};

verus! {

/// A colour that can be written to an RGB raster.
pub trait GraphPixel: Copy {
    spec fn spec_rgb(&self) -> RGB255;

    fn rgb(&self) -> (r: RGB255)
        ensures
            r == self.spec_rgb(),
    ;
}

impl GraphPixel for RGB255 {
    open spec fn spec_rgb(&self) -> RGB255 {
        *self
    }

    fn rgb(&self) -> (r: RGB255) {
        *self
    }
}

/// Something that pixels can be written to, clipped to its extent.
pub trait PixelWriter<T: GraphPixel> {
    fn put_pixel(&mut self, x: i32, y: i32, c: T);
}

/// A `w`×`h` RGB raster stored row by row, with an optional ICC profile to
/// embed when it is encoded.
pub struct ImageGraph {
    pixels: Vec<RGB255>,
    icc_profile: Option<Vec<u8>>,
    w: u32,
    h: u32,
}

pub open spec fn in_rect(x0: int, y0: int, w: int, h: int, x: int, y: int) -> bool {
    x0 <= x < x0 + w && y0 <= y < y0 + h
}

/// The outline that `frame` draws: the top and bottom rows across the
/// width, the left and right columns down the height.
pub open spec fn on_frame(x0: int, y0: int, w: int, h: int, x: int, y: int) -> bool {
    (x0 <= x < x0 + w && (y == y0 || y == y0 + h - 1)) || (y0 <= y < y0 + h && (x == x0 || x
        == x0 + w - 1))
}

/// The cells of a solid disc of diameter `d` whose bounding box starts at
/// `(x0, y0)`: those whose centre lies within the circle through the
/// centres of the box's edge cells.
pub open spec fn on_disc(x0: int, y0: int, d: int, x: int, y: int) -> bool {
    if d == 1 {
        x == x0 && y == y0
    } else if d == 2 {
        in_rect(x0, y0, 2, 2, x, y)
    } else {
        let i = x - x0;
        let j = y - y0;
        let m = d - 1;
        0 <= i < d && 0 <= j < d && (2 * i - m) * (2 * i - m) + (2 * j - m) * (2 * j - m) <= m * m
    }
}

pub open spec fn iabs(v: int) -> int {
    if v < 0 { -v } else { v }
}

/// The integer nearest to `n / d` (for `d > 0`), halves rounded away from
/// zero.
pub open spec fn round_div(n: int, d: int) -> int {
    if n >= 0 { (2 * n + d) / (2 * d) } else { -((-2 * n + d) / (2 * d)) }
}

/// 0: a vertical line; 1: a line that steps along x; 2: one that steps
/// along y.
pub open spec fn line_mode(x0: int, y0: int, x1: int, y1: int) -> int {
    if x0 == x1 {
        0
    } else if iabs(x1 - x0) >= iabs(y1 - y0) {
        1
    } else {
        2
    }
}

/// The endpoint that the line starts from, then the other one.
pub open spec fn line_ends(x0: int, y0: int, x1: int, y1: int) -> (int, int, int, int) {
    let mode = line_mode(x0, y0, x1, y1);
    if mode == 0 {
        if y1 < y0 { (x0, y1, x0, y0) } else { (x0, y0, x0, y1) }
    } else if mode == 1 {
        if x1 < x0 { (x1, y1, x0, y0) } else { (x0, y0, x1, y1) }
    } else {
        if y1 < y0 { (x1, y1, x0, y0) } else { (x0, y0, x1, y1) }
    }
}

/// The number of steps after the first point.
pub open spec fn line_steps(x0: int, y0: int, x1: int, y1: int) -> int {
    let (ax, ay, bx, by) = line_ends(x0, y0, x1, y1);
    if line_mode(x0, y0, x1, y1) == 1 { bx - ax } else { by - ay }
}

/// The point of step `k`: one unit along the major axis per step, the
/// minor coordinate interpolated and rounded.
pub open spec fn line_point(x0: int, y0: int, x1: int, y1: int, k: int) -> (int, int) {
    let (ax, ay, bx, by) = line_ends(x0, y0, x1, y1);
    let mode = line_mode(x0, y0, x1, y1);
    if mode == 0 {
        (ax, ay + k)
    } else if mode == 1 {
        (ax + k, round_div(ay * (bx - ax) + k * (by - ay), bx - ax))
    } else {
        (round_div(ax * (by - ay) + k * (bx - ax), by - ay), ay + k)
    }
}

/// The step whose point lies in the column (or row) of `(x, y)`.
pub open spec fn line_index(x0: int, y0: int, x1: int, y1: int, x: int, y: int) -> int {
    let (ax, ay, bx, by) = line_ends(x0, y0, x1, y1);
    if line_mode(x0, y0, x1, y1) == 1 { x - ax } else { y - ay }
}

/// Step `k` is drawn: every step of a solid line, every `d`-th of a dotted
/// one.
pub open spec fn on_dot(dotted: Option<i32>, k: int) -> bool {
    match dotted {
        Some(d) => k % (d as int) == 0,
        None => true,
    }
}

/// `(x, y)` is drawn by one of the first `upto` steps.
pub open spec fn line_covers(
    x0: int,
    y0: int,
    x1: int,
    y1: int,
    dotted: Option<i32>,
    x: int,
    y: int,
    upto: int,
) -> bool {
    let k = line_index(x0, y0, x1, y1, x, y);
    0 <= k < upto && on_dot(dotted, k) && line_point(x0, y0, x1, y1, k) == (x, y)
}

/// `(x, y)` is drawn by the line from `(x0, y0)` to `(x1, y1)`.
pub open spec fn on_line(x0: int, y0: int, x1: int, y1: int, dotted: Option<i32>, x: int, y: int) -> bool {
    line_covers(x0, y0, x1, y1, dotted, x, y, line_steps(x0, y0, x1, y1) + 1)
}

fn round_div_exec(n: i128, d: i128) -> (r: i128)
    requires
        0 < d <= 0x1_0000_0000,
        -0x1_0000_0000_0000_0000_0000 <= n <= 0x1_0000_0000_0000_0000_0000,
    ensures
        r == round_div(n as int, d as int),
{
    if n >= 0 {
        let q: i128 = (2 * n + d) / (2 * d);
        q
    } else {
        let m: i128 = 0 - n;
        let q: i128 = (2 * m + d) / (2 * d);
        -q
    }
}

/// Relies on `char::to_string`: the string of that one character.
#[verifier::external_body]
fn char_string(c: char) -> (r: String)
    ensures
        r@ == seq![c],
{
    c.to_string()
}

/// The width of `ch` written alone: its glyph, plus one column per byte of
/// UTF-8 beyond the first.
pub open spec fn vtext_width(font: &Font, ch: char) -> int {
    (encode_scalar(ch as u32).len() - 1) + font.spec_char_width(ch)
}

/// The top of the `k`-th character of a vertical text started at `y0`.
pub open spec fn vtext_row(font: &Font, cs: Seq<char>, y0: int, k: int) -> int
    decreases k,
{
    if k <= 0 {
        y0
    } else {
        vtext_row(font, cs, y0, k - 1) + 1 + font.spec_char_height(cs[k - 1])
    }
}

/// Ink at `(px, py)` from the `m`-th character of a vertical text: that
/// character written alone at its row, anchored by `p` at the top.
pub open spec fn vtext_char_covers(
    font: &Font,
    cs: Seq<char>,
    x0: int,
    y0: int,
    p: HorizontalTextAnchor,
    m: int,
    px: int,
    py: int,
) -> bool {
    let ch = cs[m];
    font.string_covers(
        seq![ch],
        x0 + anchor_offset(p.rank(), vtext_width(font, ch)),
        vtext_row(font, cs, y0, m),
        px,
        py,
        1,
    )
}

/// Ink at `(px, py)` from one of the first `k` characters of a vertical
/// text.
pub open spec fn vtext_covers(
    font: &Font,
    cs: Seq<char>,
    x0: int,
    y0: int,
    p: HorizontalTextAnchor,
    px: int,
    py: int,
    k: int,
) -> bool {
    exists|m: int| 0 <= m < k && #[trigger] vtext_char_covers(font, cs, x0, y0, p, m, px, py)
}

/// The cell `(i, j)` of a `d`×`d` box (offsets from its corner) has its
/// centre within the circle through the centres of the box's edge cells.
pub open spec fn in_circle(d: int, i: int, j: int) -> bool {
    let m = d - 1;
    d >= 1 && 0 <= j && (2 * i - m) * (2 * i - m) + (2 * j - m) * (2 * j - m) <= m * m
}

/// The rim cells a circle of diameter `d` visits, from column `i` and row
/// `j` on: down the column while inside the circle, then on to the next
/// column, up to the middle column; the walk stops once it passes the
/// diagonal.
pub open spec fn circle_walk(d: int, i: int, j: int) -> Seq<(int, int)>
    decreases (if d / 2 + 1 - i > 0 { d / 2 + 1 - i } else { 0 }), (if j + 1 > 0 { j + 1 } else { 0 }),
{
    if d < 1 || i > d / 2 || i < 0 {
        Seq::empty()
    } else if in_circle(d, i, j) {
        if i > j {
            Seq::empty()
        } else {
            seq![(i, j)] + circle_walk(d, i, j - 1)
        }
    } else {
        circle_walk(d, i + 1, j)
    }
}

/// The eight mirror images of the rim cell `(i, j)` in the box at
/// `(x0, y0)`.
pub open spec fn circle_images(x0: int, y0: int, d: int, i: int, j: int, x: int, y: int) -> bool {
    let e = d - 1;
    (x == x0 + i && y == y0 + j) || (x == x0 + i && y == y0 + e - j) || (x == x0 + e - i && y == y0
        + j) || (x == x0 + e - i && y == y0 + e - j) || (x == x0 + j && y == y0 + i) || (x == x0 + e
        - j && y == y0 + i) || (x == x0 + j && y == y0 + e - i) || (x == x0 + e - j && y == y0 + e
        - i)
}

/// `(x, y)` is drawn by one of the first `k` visits of `walk`.
pub open spec fn walk_covers(
    walk: Seq<(int, int)>,
    x0: int,
    y0: int,
    d: int,
    dotted: Option<i32>,
    x: int,
    y: int,
    k: int,
) -> bool {
    exists|t: int|
        0 <= t < k && on_dot(dotted, t) && #[trigger] circle_images(x0, y0, d, walk[t].0, walk[t].1, x, y)
}

/// The walk of a circle of diameter `d`, from its top-middle row.
pub open spec fn circle_rim(d: int) -> Seq<(int, int)> {
    circle_walk(d, 0, (d - 1) / 2)
}

pub open spec fn black() -> RGB255 {
    RGB255 { r: 0, g: 0, b: 0 }
}

impl ImageGraph {
    pub closed spec fn wf(&self) -> bool {
        &&& self.pixels@.len() == self.w * self.h
        &&& self.w * self.h <= usize::MAX
        &&& self.w <= i32::MAX
        &&& self.h <= i32::MAX
    }

    pub closed spec fn spec_width(&self) -> int {
        self.w as int
    }

    pub closed spec fn spec_height(&self) -> int {
        self.h as int
    }

    pub closed spec fn spec_icc_profile(&self) -> Option<Seq<u8>> {
        match self.icc_profile {
            Some(p) => Some(p@),
            None => None,
        }
    }

    /// The colour at `(x, y)`.
    pub closed spec fn pixel(&self, x: int, y: int) -> RGB255 {
        self.pixels@[y * self.w + x]
    }

    pub open spec fn in_canvas(&self, x: int, y: int) -> bool {
        0 <= x < self.spec_width() && 0 <= y < self.spec_height()
    }

    /// Canvas coordinates fit an `i32`.
    pub proof fn lemma_canvas_bounds(&self)
        requires
            self.wf(),
        ensures
            0 <= self.spec_width() <= i32::MAX,
            0 <= self.spec_height() <= i32::MAX,
    {
    }

    /// Same extent and profile as `other`.
    pub open spec fn same_frame(&self, other: &ImageGraph) -> bool {
        &&& self.wf()
        &&& self.spec_width() == other.spec_width()
        &&& self.spec_height() == other.spec_height()
        &&& self.spec_icc_profile() == other.spec_icc_profile()
    }

    /// A black `w`×`h` raster without a profile.
    pub fn new(w: u32, h: u32) -> (g: Self)
        requires
            w * h <= usize::MAX,
            w <= i32::MAX,
            h <= i32::MAX,
        ensures
            g.wf(),
            g.spec_width() == w,
            g.spec_height() == h,
            g.spec_icc_profile().is_none(),
            forall|x: int, y: int| g.in_canvas(x, y) ==> #[trigger] g.pixel(x, y) == black(),
    {
        let n: usize = w as usize * h as usize;
        let mut pixels: Vec<RGB255> = Vec::new();
        let mut i: usize = 0;
        while i < n
            invariant
                i <= n,
                pixels@.len() == i,
                forall|k: int| 0 <= k < i ==> #[trigger] pixels@[k] == black(),
            decreases n - i,
        {
            pixels.push(RGB255 { r: 0, g: 0, b: 0 });
            i += 1;
        }
        let g = ImageGraph { pixels, icc_profile: None, w, h };
        proof {
            assert forall|x: int, y: int| g.in_canvas(x, y) implies #[trigger] g.pixel(x, y) == black() by {
                lemma_cell_index(w as int, h as int, x, y);
            }
        }
        g
    }

    /// The same raster, carrying `profile`.
    pub fn with_icc_profile(self, profile: Vec<u8>) -> (g: Self)
        requires
            self.wf(),
        ensures
            g.wf(),
            g.spec_width() == self.spec_width(),
            g.spec_height() == self.spec_height(),
            g.spec_icc_profile() == Some(profile@),
            forall|x: int, y: int| #[trigger] g.pixel(x, y) == self.pixel(x, y),
    {
        ImageGraph { pixels: self.pixels, icc_profile: Some(profile), w: self.w, h: self.h }
    }

    pub fn width(&self) -> (r: u32)
        ensures
            r == self.spec_width(),
    {
        self.w
    }

    pub fn height(&self) -> (r: u32)
        ensures
            r == self.spec_height(),
    {
        self.h
    }

    pub fn icc_profile(&self) -> (r: &Option<Vec<u8>>)
        ensures
            self.spec_icc_profile() == match r {
                Some(p) => Some(p@),
                None => None::<Seq<u8>>,
            },
    {
        &self.icc_profile
    }

    /// The colour at `(x, y)`.
    pub fn get_pixel(&self, x: u32, y: u32) -> (c: RGB255)
        requires
            self.wf(),
            self.in_canvas(x as int, y as int),
        ensures
            c == self.pixel(x as int, y as int),
    {
        proof {
            lemma_cell_index(self.w as int, self.h as int, x as int, y as int);
        }
        self.pixels[y as usize * self.w as usize + x as usize]
    }

    /// Paints `(x, y)` with `c`; a point off the canvas is ignored.
    pub fn put_pixel<T: GraphPixel>(&mut self, x: i32, y: i32, c: T)
        requires
            old(self).wf(),
        ensures
            final(self).same_frame(old(self)),
            forall|px: int, py: int|
                old(self).in_canvas(px, py) ==> #[trigger] final(self).pixel(px, py) == (if px == x
                    && py == y {
                    c.spec_rgb()
                } else {
                    old(self).pixel(px, py)
                }),
    {
        if x < 0 || y < 0 {
            return;
        }
        let (ux, uy) = (x as u32, y as u32);
        if ux < self.w && uy < self.h {
            let ghost prev = self.pixels@;
            proof {
                lemma_cell_index(self.w as int, self.h as int, x as int, y as int);
            }
            let k: usize = uy as usize * self.w as usize + ux as usize;
            self.pixels.set(k, c.rgb());
            proof {
                assert forall|px: int, py: int| old(self).in_canvas(px, py) implies #[trigger] self.pixel(px, py) == if px == x && py == y {
                    c.spec_rgb()
                } else {
                    old(self).pixel(px, py)
                } by {
                    lemma_cell_index(self.w as int, self.h as int, px, py);
                    if py * self.w + px == k {
                        lemma_cell_index_distinct(self.w as int, px, py, x as int, y as int);
                    }
                }
            }
        }
    }

    /// Fills the `w`×`h` rectangle at `(x0, y0)` with `c`.
    pub fn block<T: GraphPixel>(&mut self, x0: i32, y0: i32, w: i32, h: i32, c: T)
        requires
            old(self).wf(),
            i32::MIN <= x0 + w <= i32::MAX,
            i32::MIN <= y0 + h <= i32::MAX,
        ensures
            final(self).same_frame(old(self)),
            forall|px: int, py: int|
                old(self).in_canvas(px, py) ==> #[trigger] final(self).pixel(px, py) == (if in_rect(
                    x0 as int,
                    y0 as int,
                    w as int,
                    h as int,
                    px,
                    py,
                ) {
                    c.spec_rgb()
                } else {
                    old(self).pixel(px, py)
                }),
    {
        let ghost g0 = *self;
        let mut x: i32 = x0;
        while x < x0 + w
            invariant
                self.same_frame(&g0),
                g0.wf(),
                x0 <= x,
                x <= x0 + w || x == x0,
                i32::MIN <= x0 + w <= i32::MAX,
                i32::MIN <= y0 + h <= i32::MAX,
                forall|px: int, py: int|
                    g0.in_canvas(px, py) ==> #[trigger] self.pixel(px, py) == (if x0 <= px < x && y0
                        <= py < y0 + h {
                        c.spec_rgb()
                    } else {
                        g0.pixel(px, py)
                    }),
            decreases x0 + w - x,
        {
            let mut y: i32 = y0;
            while y < y0 + h
                invariant
                    self.same_frame(&g0),
                    g0.wf(),
                    x0 <= x < x0 + w,
                    y0 <= y,
                    y <= y0 + h || y == y0,
                    i32::MIN <= x0 + w <= i32::MAX,
                    i32::MIN <= y0 + h <= i32::MAX,
                    forall|px: int, py: int|
                        g0.in_canvas(px, py) ==> #[trigger] self.pixel(px, py) == (if (x0 <= px < x
                            && y0 <= py < y0 + h) || (px == x && y0 <= py < y) {
                            c.spec_rgb()
                        } else {
                            g0.pixel(px, py)
                        }),
                decreases y0 + h - y,
            {
                self.put_pixel(x, y, c);
                y += 1;
            }
            x += 1;
        }
    }

    /// Draws the one-pixel outline of the `w`×`h` rectangle at `(x0, y0)`.
    pub fn frame<T: GraphPixel>(&mut self, x0: i32, y0: i32, w: i32, h: i32, c: T)
        requires
            old(self).wf(),
            i32::MIN <= x0 + w <= i32::MAX,
            i32::MIN <= y0 + h <= i32::MAX,
            x0 + w - 1 >= i32::MIN,
            y0 + h - 1 >= i32::MIN,
        ensures
            final(self).same_frame(old(self)),
            forall|px: int, py: int|
                old(self).in_canvas(px, py) ==> #[trigger] final(self).pixel(px, py) == (if on_frame(
                    x0 as int,
                    y0 as int,
                    w as int,
                    h as int,
                    px,
                    py,
                ) {
                    c.spec_rgb()
                } else {
                    old(self).pixel(px, py)
                }),
    {
        let ghost g0 = *self;
        let mut x: i32 = x0;
        while x < x0 + w
            invariant
                self.same_frame(&g0),
                g0.wf(),
                x0 <= x,
                x <= x0 + w || x == x0,
                i32::MIN <= x0 + w <= i32::MAX,
                i32::MIN <= y0 + h <= i32::MAX,
                x0 + w - 1 >= i32::MIN,
                y0 + h - 1 >= i32::MIN,
                forall|px: int, py: int|
                    g0.in_canvas(px, py) ==> #[trigger] self.pixel(px, py) == (if x0 <= px < x && (py
                        == y0 || py == y0 + h - 1) {
                        c.spec_rgb()
                    } else {
                        g0.pixel(px, py)
                    }),
            decreases x0 + w - x,
        {
            self.put_pixel(x, y0, c);
            self.put_pixel(x, y0 + h - 1, c);
            x += 1;
        }
        let mut y: i32 = y0;
        while y < y0 + h
            invariant
                self.same_frame(&g0),
                g0.wf(),
                y0 <= y,
                y <= y0 + h || y == y0,
                i32::MIN <= x0 + w <= i32::MAX,
                i32::MIN <= y0 + h <= i32::MAX,
                x0 + w - 1 >= i32::MIN,
                y0 + h - 1 >= i32::MIN,
                forall|px: int, py: int|
                    g0.in_canvas(px, py) ==> #[trigger] self.pixel(px, py) == (if (x0 <= px < x0 + w
                        && (py == y0 || py == y0 + h - 1)) || (y0 <= py < y && (px == x0 || px == x0
                        + w - 1)) {
                        c.spec_rgb()
                    } else {
                        g0.pixel(px, py)
                    }),
            decreases y0 + h - y,
        {
            self.put_pixel(x0, y, c);
            self.put_pixel(x0 + w - 1, y, c);
            y += 1;
        }
    }

    /// Fills the `w`×`h` rectangle at `(x0, y0)` with a checkerboard of `c1`
    /// and `c2`, `c1` at its corner.
    pub fn dither<T: GraphPixel>(&mut self, x0: i32, y0: i32, w: i32, h: i32, c1: T, c2: T)
        requires
            old(self).wf(),
            i32::MIN <= x0 + w <= i32::MAX,
            i32::MIN <= y0 + h <= i32::MAX,
        ensures
            final(self).same_frame(old(self)),
            forall|px: int, py: int|
                old(self).in_canvas(px, py) ==> #[trigger] final(self).pixel(px, py) == (if in_rect(
                    x0 as int,
                    y0 as int,
                    w as int,
                    h as int,
                    px,
                    py,
                ) {
                    if (px - x0 + py - y0) % 2 == 0 {
                        c1.spec_rgb()
                    } else {
                        c2.spec_rgb()
                    }
                } else {
                    old(self).pixel(px, py)
                }),
    {
        let ghost g0 = *self;
        let mut x: i32 = x0;
        while x < x0 + w
            invariant
                self.same_frame(&g0),
                g0.wf(),
                x0 <= x,
                x <= x0 + w || x == x0,
                i32::MIN <= x0 + w <= i32::MAX,
                i32::MIN <= y0 + h <= i32::MAX,
                forall|px: int, py: int|
                    g0.in_canvas(px, py) ==> #[trigger] self.pixel(px, py) == (if x0 <= px < x && y0
                        <= py < y0 + h {
                        if (px - x0 + py - y0) % 2 == 0 {
                            c1.spec_rgb()
                        } else {
                            c2.spec_rgb()
                        }
                    } else {
                        g0.pixel(px, py)
                    }),
            decreases x0 + w - x,
        {
            let mut y: i32 = y0;
            while y < y0 + h
                invariant
                    self.same_frame(&g0),
                    g0.wf(),
                    x0 <= x < x0 + w,
                    y0 <= y,
                    y <= y0 + h || y == y0,
                    i32::MIN <= x0 + w <= i32::MAX,
                    i32::MIN <= y0 + h <= i32::MAX,
                    forall|px: int, py: int|
                        g0.in_canvas(px, py) ==> #[trigger] self.pixel(px, py) == (if (x0 <= px < x
                            && y0 <= py < y0 + h) || (px == x && y0 <= py < y) {
                            if (px - x0 + py - y0) % 2 == 0 {
                                c1.spec_rgb()
                            } else {
                                c2.spec_rgb()
                            }
                        } else {
                            g0.pixel(px, py)
                        }),
                decreases y0 + h - y,
            {
                let k: u64 = ((x as i64 - x0 as i64) as u64 + (y as i64 - y0 as i64) as u64) % 2;
                if k == 0 {
                    self.put_pixel(x, y, c1);
                } else {
                    self.put_pixel(x, y, c2);
                }
                y += 1;
            }
            x += 1;
        }
    }

    /// Fills a disc of diameter `d` whose bounding box starts at `(x0, y0)`.
    pub fn disc<T: GraphPixel>(&mut self, x0: i32, y0: i32, d: i32, c: T)
        requires
            old(self).wf(),
            i32::MIN <= x0 + d <= i32::MAX,
            i32::MIN <= y0 + d <= i32::MAX,
        ensures
            final(self).same_frame(old(self)),
            forall|px: int, py: int|
                old(self).in_canvas(px, py) ==> #[trigger] final(self).pixel(px, py) == (if on_disc(
                    x0 as int,
                    y0 as int,
                    d as int,
                    px,
                    py,
                ) {
                    c.spec_rgb()
                } else {
                    old(self).pixel(px, py)
                }),
    {
        if d == 1 {
            self.put_pixel(x0, y0, c);
            return;
        }
        if d == 2 {
            self.block(x0, y0, d, d, c);
            return;
        }
        let ghost g0 = *self;
        let m: i64 = d as i64 - 1;
        let mut i: i32 = 0;
        while i < d
            invariant
                self.same_frame(&g0),
                g0.wf(),
                d != 1 && d != 2,
                m == d - 1,
                0 <= i,
                i32::MIN <= x0 + d <= i32::MAX,
                i32::MIN <= y0 + d <= i32::MAX,
                i <= d || i == 0,
                forall|px: int, py: int|
                    g0.in_canvas(px, py) ==> #[trigger] self.pixel(px, py) == (if on_disc(
                        x0 as int,
                        y0 as int,
                        d as int,
                        px,
                        py,
                    ) && px - x0 < i {
                        c.spec_rgb()
                    } else {
                        g0.pixel(px, py)
                    }),
            decreases d - i,
        {
            let mut j: i32 = 0;
            while j < d
                invariant
                    self.same_frame(&g0),
                    g0.wf(),
                    d != 1 && d != 2,
                    m == d - 1,
                    0 <= i < d,
                    0 <= j,
                    i32::MIN <= x0 + d <= i32::MAX,
                    i32::MIN <= y0 + d <= i32::MAX,
                    j <= d,
                    forall|px: int, py: int|
                        g0.in_canvas(px, py) ==> #[trigger] self.pixel(px, py) == (if on_disc(
                            x0 as int,
                            y0 as int,
                            d as int,
                            px,
                            py,
                        ) && (px - x0 < i || (px - x0 == i && py - y0 < j)) {
                            c.spec_rgb()
                        } else {
                            g0.pixel(px, py)
                        }),
                decreases d - j,
            {
                let a: i128 = 2 * i as i128 - m as i128;
                let b: i128 = 2 * j as i128 - m as i128;
                let mm: i128 = m as i128;
                proof {
                    assert(a * a <= 0x1_0000_0000_0000_0000) by (nonlinear_arith)
                        requires
                            -0x1_0000_0000 <= a <= 0x1_0000_0000,
                    ;
                    assert(b * b <= 0x1_0000_0000_0000_0000) by (nonlinear_arith)
                        requires
                            -0x1_0000_0000 <= b <= 0x1_0000_0000,
                    ;
                    assert(mm * mm <= 0x1_0000_0000_0000_0000) by (nonlinear_arith)
                        requires
                            -0x1_0000_0000 <= mm <= 0x1_0000_0000,
                    ;
                    assert(a * a >= 0) by (nonlinear_arith);
                    assert(b * b >= 0) by (nonlinear_arith);
                }
                if a * a + b * b <= mm * mm {
                    self.put_pixel(x0 + i, y0 + j, c);
                }
                j += 1;
            }
            i += 1;
        }
    }

    /// Draws the line from `(x0, y0)` to `(x1, y1)`: one point per unit
    /// along the major axis, the other coordinate rounded; a dotted line
    /// draws every `d`-th of those points.
    pub fn line<T: GraphPixel>(
        &mut self,
        x0: i32,
        y0: i32,
        x1: i32,
        y1: i32,
        c: T,
        dotted: Option<i32>,
    )
        requires
            old(self).wf(),
            match dotted {
                Some(d) => d > 0,
                None => true,
            },
        ensures
            final(self).same_frame(old(self)),
            forall|px: int, py: int|
                old(self).in_canvas(px, py) ==> #[trigger] final(self).pixel(px, py) == (if on_line(
                    x0 as int,
                    y0 as int,
                    x1 as int,
                    y1 as int,
                    dotted,
                    px,
                    py,
                ) {
                    c.spec_rgb()
                } else {
                    old(self).pixel(px, py)
                }),
    {
        let ghost g0 = *self;
        let ghost (gax, gay, gbx, gby) = line_ends(x0 as int, y0 as int, x1 as int, y1 as int);
        let ghost gmode = line_mode(x0 as int, y0 as int, x1 as int, y1 as int);
        let ddx: i64 = if x1 < x0 { x0 as i64 - x1 as i64 } else { x1 as i64 - x0 as i64 };
        let ddy: i64 = if y1 < y0 { y0 as i64 - y1 as i64 } else { y1 as i64 - y0 as i64 };
        let mode: u8 = if x0 == x1 {
            0
        } else if ddx >= ddy {
            1
        } else {
            2
        };
        let (ax, ay, bx, by): (i64, i64, i64, i64) = if mode == 0 {
            if y1 < y0 {
                (x0 as i64, y1 as i64, x0 as i64, y0 as i64)
            } else {
                (x0 as i64, y0 as i64, x0 as i64, y1 as i64)
            }
        } else if mode == 1 {
            if x1 < x0 {
                (x1 as i64, y1 as i64, x0 as i64, y0 as i64)
            } else {
                (x0 as i64, y0 as i64, x1 as i64, y1 as i64)
            }
        } else {
            if y1 < y0 {
                (x1 as i64, y1 as i64, x0 as i64, y0 as i64)
            } else {
                (x0 as i64, y0 as i64, x1 as i64, y1 as i64)
            }
        };
        assert(mode as int == gmode);
        assert(ax == gax && ay == gay && bx == gbx && by == gby);
        let steps: i64 = if mode == 1 { bx - ax } else { by - ay };
        let mut i: i64 = 0;
        while i <= steps
            invariant
                self.same_frame(&g0),
                g0.wf(),
                mode as int == line_mode(x0 as int, y0 as int, x1 as int, y1 as int),
                (ax as int, ay as int, bx as int, by as int) == line_ends(
                    x0 as int,
                    y0 as int,
                    x1 as int,
                    y1 as int,
                ),
                steps == line_steps(x0 as int, y0 as int, x1 as int, y1 as int),
                0 <= steps <= 0x1_0000_0000,
                i32::MIN <= ax <= i32::MAX,
                i32::MIN <= ay <= i32::MAX,
                i32::MIN <= bx <= i32::MAX,
                i32::MIN <= by <= i32::MAX,
                mode == 1 ==> bx - ax >= 1,
                mode == 2 ==> by - ay >= 1,
                0 <= i <= steps + 1,
                match dotted {
                    Some(d) => d > 0,
                    None => true,
                },
                forall|px: int, py: int|
                    g0.in_canvas(px, py) ==> #[trigger] self.pixel(px, py) == (if line_covers(
                        x0 as int,
                        y0 as int,
                        x1 as int,
                        y1 as int,
                        dotted,
                        px,
                        py,
                        i as int,
                    ) {
                        c.spec_rgb()
                    } else {
                        g0.pixel(px, py)
                    }),
            decreases steps + 1 - i,
        {
            let (px, py): (i128, i128) = if mode == 0 {
                (ax as i128, (ay + i) as i128)
            } else if mode == 1 {
                let dx: i128 = (bx - ax) as i128;
                let dy: i128 = (by - ay) as i128;
                proof {
                    assert(-0x1_0000_0000_0000_0000 <= (ay as i128) * dx <= 0x1_0000_0000_0000_0000) by (nonlinear_arith)
                        requires
                            i32::MIN <= ay <= i32::MAX,
                            0 <= dx <= 0x1_0000_0000,
                    ;
                    assert(-0x4_0000_0000_0000_0000 <= (i as i128) * dy <= 0x4_0000_0000_0000_0000) by (nonlinear_arith)
                        requires
                            0 <= i <= 0x1_0000_0001,
                            -0x1_0000_0000 <= dy <= 0x1_0000_0000,
                    ;
                }
                (ax as i128 + i as i128, round_div_exec((ay as i128) * dx + (i as i128) * dy, dx))
            } else {
                let dx: i128 = (bx - ax) as i128;
                let dy: i128 = (by - ay) as i128;
                proof {
                    assert(-0x1_0000_0000_0000_0000 <= (ax as i128) * dy <= 0x1_0000_0000_0000_0000) by (nonlinear_arith)
                        requires
                            i32::MIN <= ax <= i32::MAX,
                            0 <= dy <= 0x1_0000_0000,
                    ;
                    assert(-0x4_0000_0000_0000_0000 <= (i as i128) * dx <= 0x4_0000_0000_0000_0000) by (nonlinear_arith)
                        requires
                            0 <= i <= 0x1_0000_0001,
                            -0x1_0000_0000 <= dx <= 0x1_0000_0000,
                    ;
                }
                (round_div_exec((ax as i128) * dy + (i as i128) * dx, dy), ay as i128 + i as i128)
            };
            assert((px as int, py as int) == line_point(x0 as int, y0 as int, x1 as int, y1 as int, i as int));
            let drawn: bool = match dotted {
                Some(d) => (i as u64) % (d as u64) == 0,
                None => true,
            };
            assert(drawn == on_dot(dotted, i as int));
            let ghost before = *self;
            if drawn && i32::MIN as i128 <= px && px <= i32::MAX as i128 && i32::MIN as i128 <= py
                && py <= i32::MAX as i128 {
                self.put_pixel(px as i32, py as i32, c);
            }
            proof {
                assert forall|qx: int, qy: int| g0.in_canvas(qx, qy) implies #[trigger] self.pixel(qx, qy) == (if line_covers(
                    x0 as int,
                    y0 as int,
                    x1 as int,
                    y1 as int,
                    dotted,
                    qx,
                    qy,
                    i + 1,
                ) {
                    c.spec_rgb()
                } else {
                    g0.pixel(qx, qy)
                }) by {
                    assert(before.pixel(qx, qy) == (if line_covers(x0 as int, y0 as int, x1 as int, y1 as int, dotted, qx, qy, i as int) {
                        c.spec_rgb()
                    } else {
                        g0.pixel(qx, qy)
                    }));
                    if qx == px && qy == py {
                        assert(line_index(x0 as int, y0 as int, x1 as int, y1 as int, qx, qy) == i);
                    }
                }
            }
            i += 1;
        }
    }

    fn put_wide<T: GraphPixel>(&mut self, x: i64, y: i64, c: T)
        requires
            old(self).wf(),
        ensures
            final(self).same_frame(old(self)),
            forall|px: int, py: int|
                old(self).in_canvas(px, py) ==> #[trigger] final(self).pixel(px, py) == (if px == x
                    && py == y {
                    c.spec_rgb()
                } else {
                    old(self).pixel(px, py)
                }),
    {
        proof {
            self.lemma_canvas_bounds();
        }
        if i32::MIN as i64 <= x && x <= i32::MAX as i64 && i32::MIN as i64 <= y && y <= i32::MAX as i64 {
            self.put_pixel(x as i32, y as i32, c);
        }
    }

    fn put_images<T: GraphPixel>(&mut self, x0: i64, y0: i64, d: i64, i: i64, j: i64, c: T)
        requires
            old(self).wf(),
            -0x1_0000_0000 <= x0 <= 0x1_0000_0000,
            -0x1_0000_0000 <= y0 <= 0x1_0000_0000,
            -0x1_0000_0000 <= d <= 0x1_0000_0000,
            -0x1_0000_0000 <= i <= 0x1_0000_0000,
            -0x1_0000_0000 <= j <= 0x1_0000_0000,
        ensures
            final(self).same_frame(old(self)),
            forall|px: int, py: int|
                old(self).in_canvas(px, py) ==> #[trigger] final(self).pixel(px, py) == (if circle_images(
                    x0 as int,
                    y0 as int,
                    d as int,
                    i as int,
                    j as int,
                    px,
                    py,
                ) {
                    c.spec_rgb()
                } else {
                    old(self).pixel(px, py)
                }),
    {
        let e: i64 = d - 1;
        self.put_wide(x0 + i, y0 + j, c);
        self.put_wide(x0 + i, y0 + e - j, c);
        self.put_wide(x0 + e - i, y0 + j, c);
        self.put_wide(x0 + e - i, y0 + e - j, c);
        self.put_wide(x0 + j, y0 + i, c);
        self.put_wide(x0 + e - j, y0 + i, c);
        self.put_wide(x0 + j, y0 + e - i, c);
        self.put_wide(x0 + e - j, y0 + e - i, c);
    }

    /// Draws the rim of a circle of diameter `d` whose bounding box starts
    /// at `(x0, y0)`: one octant is walked and mirrored eight ways; a dotted
    /// circle draws every `d`-th visited cell.
    pub fn circle<T: GraphPixel>(&mut self, x0: i32, y0: i32, d: i32, c: T, dotted: Option<i32>)
        requires
            old(self).wf(),
            match dotted {
                Some(k) => k > 0,
                None => true,
            },
        ensures
            final(self).same_frame(old(self)),
            forall|px: int, py: int|
                old(self).in_canvas(px, py) ==> #[trigger] final(self).pixel(px, py) == (if walk_covers(
                    circle_rim(d as int),
                    x0 as int,
                    y0 as int,
                    d as int,
                    dotted,
                    px,
                    py,
                    circle_rim(d as int).len() as int,
                ) {
                    c.spec_rgb()
                } else {
                    old(self).pixel(px, py)
                }),
    {
        let ghost g0 = *self;
        let ghost rim = circle_rim(d as int);
        if d < 1 {
            assert(rim.len() == 0);
            return;
        }
        let dd: i64 = d as i64;
        let m: i64 = dd - 1;
        let half: i64 = dd / 2;
        let mut i: i64 = 0;
        let mut j: i64 = m / 2;
        let mut dc: i64 = 0;
        let ghost mut visited: Seq<(int, int)> = Seq::empty();
        assert(rim == visited + circle_walk(d as int, i as int, j as int));
        while i <= half
            invariant
                self.same_frame(&g0),
                g0.wf(),
                g0 == *old(self),
                1 <= dd <= i32::MAX,
                dd == d,
                m == dd - 1,
                half == dd / 2,
                0 <= i <= half + 1,
                -1 <= j <= m,
                dc == visited.len(),
                0 <= dc <= i * (m + 2) + (m - j),
                rim == circle_rim(d as int),
                rim == visited + circle_walk(d as int, i as int, j as int),
                match dotted {
                    Some(k) => k > 0,
                    None => true,
                },
                forall|px: int, py: int|
                    g0.in_canvas(px, py) ==> #[trigger] self.pixel(px, py) == (if walk_covers(
                        rim,
                        x0 as int,
                        y0 as int,
                        d as int,
                        dotted,
                        px,
                        py,
                        dc as int,
                    ) {
                        c.spec_rgb()
                    } else {
                        g0.pixel(px, py)
                    }),
            decreases half + 1 - i,
        {
            loop
                invariant
                    self.same_frame(&g0),
                    g0.wf(),
                    g0 == *old(self),
                    1 <= dd <= i32::MAX,
                    dd == d,
                    m == dd - 1,
                    half == dd / 2,
                    0 <= i <= half,
                    -1 <= j <= m,
                    dc == visited.len(),
                    0 <= dc <= i * (m + 2) + (m - j),
                    rim == circle_rim(d as int),
                    rim == visited + circle_walk(d as int, i as int, j as int),
                    match dotted {
                        Some(k) => k > 0,
                        None => true,
                    },
                    forall|px: int, py: int|
                        g0.in_canvas(px, py) ==> #[trigger] self.pixel(px, py) == (if walk_covers(
                            rim,
                            x0 as int,
                            y0 as int,
                            d as int,
                            dotted,
                            px,
                            py,
                            dc as int,
                        ) {
                            c.spec_rgb()
                        } else {
                            g0.pixel(px, py)
                        }),
                ensures
                    !in_circle(d as int, i as int, j as int),
                decreases j + 1,
            {
                let a: i128 = 2 * i as i128 - m as i128;
                let b: i128 = 2 * j as i128 - m as i128;
                let mm: i128 = m as i128;
                proof {
                    assert(a * a <= 0x10_0000_0000_0000_0000) by (nonlinear_arith)
                        requires
                            -0x4_0000_0000 <= a <= 0x4_0000_0000,
                    ;
                    assert(b * b <= 0x10_0000_0000_0000_0000) by (nonlinear_arith)
                        requires
                            -0x4_0000_0000 <= b <= 0x4_0000_0000,
                    ;
                    assert(mm * mm <= 0x10_0000_0000_0000_0000) by (nonlinear_arith)
                        requires
                            -0x4_0000_0000 <= mm <= 0x4_0000_0000,
                    ;
                    assert(a * a >= 0) by (nonlinear_arith);
                    assert(b * b >= 0) by (nonlinear_arith);
                }
                let inside: bool = a * a + b * b <= mm * mm;
                proof {
                    if inside {
                        assert(b * b <= mm * mm);
                        if b < -mm {
                            assert((-b) * (-b) > mm * mm) by (nonlinear_arith)
                                requires
                                    -b > mm,
                                    mm >= 0,
                            ;
                            assert((-b) * (-b) == b * b) by (nonlinear_arith);
                        }
                        if b > mm {
                            assert(b * b > mm * mm) by (nonlinear_arith)
                                requires
                                    b > mm,
                                    mm >= 0,
                            ;
                        }
                    }
                    assert(inside == in_circle(d as int, i as int, j as int));
                }
                if !inside {
                    break;
                }
                if i > j {
                    proof {
                        assert(circle_walk(d as int, i as int, j as int) =~= Seq::empty());
                        assert(rim =~= visited);
                    }
                    return;
                }
                let drawn: bool = match dotted {
                    Some(k) => (dc as u64) % (k as u64) == 0,
                    None => true,
                };
                assert(drawn == on_dot(dotted, dc as int));
                let ghost before = *self;
                if drawn {
                    self.put_images(x0 as i64, y0 as i64, dd, i, j, c);
                }
                proof {
                    let rest = circle_walk(d as int, i as int, j as int - 1);
                    assert(circle_walk(d as int, i as int, j as int) == seq![(i as int, j as int)] + rest);
                    let nv = visited.push((i as int, j as int));
                    assert(rim =~= nv + rest);
                    assert(rim[dc as int] == (i as int, j as int));
                    assert forall|px: int, py: int| g0.in_canvas(px, py) implies #[trigger] self.pixel(px, py) == (if walk_covers(
                        rim,
                        x0 as int,
                        y0 as int,
                        d as int,
                        dotted,
                        px,
                        py,
                        dc + 1,
                    ) {
                        c.spec_rgb()
                    } else {
                        g0.pixel(px, py)
                    }) by {
                        if on_dot(dotted, dc as int) && circle_images(x0 as int, y0 as int, d as int, rim[dc as int].0, rim[dc as int].1, px, py) {
                            assert(walk_covers(rim, x0 as int, y0 as int, d as int, dotted, px, py, dc + 1));
                        } else if walk_covers(rim, x0 as int, y0 as int, d as int, dotted, px, py, dc + 1) {
                            let t = choose|t: int| 0 <= t < dc + 1 && on_dot(dotted, t) && #[trigger] circle_images(x0 as int, y0 as int, d as int, rim[t].0, rim[t].1, px, py);
                            assert(t != dc);
                            assert(walk_covers(rim, x0 as int, y0 as int, d as int, dotted, px, py, dc as int));
                        } else if walk_covers(rim, x0 as int, y0 as int, d as int, dotted, px, py, dc as int) {
                            let t = choose|t: int| 0 <= t < dc && on_dot(dotted, t) && #[trigger] circle_images(x0 as int, y0 as int, d as int, rim[t].0, rim[t].1, px, py);
                            assert(walk_covers(rim, x0 as int, y0 as int, d as int, dotted, px, py, dc + 1));
                        }
                    }
                    visited = nv;
                }
                proof {
                    assert(i * (m + 2) <= 0x4000_0000 * 0x8000_0001) by (nonlinear_arith)
                        requires
                            0 <= i <= 0x4000_0000,
                            0 <= m + 2 <= 0x8000_0001,
                    ;
                }
                dc += 1;
                j -= 1;
            }
            proof {
                assert(!in_circle(d as int, i as int, j as int));
                assert(circle_walk(d as int, i as int, j as int) == circle_walk(d as int, i as int + 1, j as int));
            }
            proof {
                assert(i * (m + 2) + (m - j) <= (i + 1) * (m + 2) + (m - j)) by (nonlinear_arith)
                    requires
                        m + 2 >= 0,
                ;
            }
            i += 1;
        }
        proof {
            assert(circle_walk(d as int, i as int, j as int) =~= Seq::empty());
            assert(rim =~= visited);
        }
    }

    /// Writes `s` so that the anchor `p` of its bounding box lies at
    /// `(x0, y0)`.
    pub fn text<T: GraphPixel>(&mut self, s: &str, x0: i32, y0: i32, p: TextAnchor, font: &Font, c: T)
        requires
            old(self).wf(),
            font.wf(),
            font.spec_str_width(s) <= i32::MAX,
            forall|i: int| 0 <= i < s@.len() ==> i32::MIN <= #[trigger] font.spec_char_height(s@[i]) <= i32::MAX,
            i32::MIN <= x0 + anchor_offset(p.horizontal.rank(), font.spec_str_width(s)) <= i32::MAX,
            i32::MIN <= y0 + anchor_offset(p.vertical.rank(), font.tallest(s@)) <= i32::MAX,
        ensures
            final(self).same_frame(old(self)),
            forall|px: int, py: int|
                old(self).in_canvas(px, py) ==> #[trigger] final(self).pixel(px, py) == (if font.string_covers(
                    s@,
                    x0 + anchor_offset(p.horizontal.rank(), font.spec_str_width(s)),
                    y0 + anchor_offset(p.vertical.rank(), font.tallest(s@)),
                    px,
                    py,
                    s@.len() as int,
                ) {
                    c.spec_rgb()
                } else {
                    old(self).pixel(px, py)
                }),
    {
        let w = font.str_width(s);
        let h = font.str_height(s);
        proof {
            font.lemma_widths(s@, 0);
            font.lemma_tallest(s@);
        }
        let (dx, dy) = p.align(w, h);
        font.render_string(self, x0 + dx, y0 + dy, s, c);
    }

    /// Writes `s` downwards one character per line from `(x0, y0)`, each
    /// aligned horizontally by `p`; one blank row between characters.
    pub fn vtext<T: GraphPixel>(
        &mut self,
        s: &str,
        x0: i32,
        y0: i32,
        p: HorizontalTextAnchor,
        font: &Font,
        c: T,
    )
        requires
            old(self).wf(),
            font.wf(),
            forall|i: int| 0 <= i < s@.len() ==> i32::MIN <= #[trigger] font.spec_char_height(s@[i]) <= i32::MAX,
            forall|k: int| 0 <= k <= s@.len() ==> i32::MIN <= #[trigger] vtext_row(font, s@, y0 as int, k) <= i32::MAX,
            forall|i: int| 0 <= i < s@.len() ==> #[trigger] vtext_width(font, s@[i]) <= i32::MAX,
            forall|i: int|
                0 <= i < s@.len() ==> i32::MIN <= x0 + anchor_offset(p.rank(), #[trigger] vtext_width(font, s@[i])) <= i32::MAX,
        ensures
            final(self).same_frame(old(self)),
            forall|px: int, py: int|
                old(self).in_canvas(px, py) ==> #[trigger] final(self).pixel(px, py) == (if vtext_covers(
                    font,
                    s@,
                    x0 as int,
                    y0 as int,
                    p,
                    px,
                    py,
                    s@.len() as int,
                ) {
                    c.spec_rgb()
                } else {
                    old(self).pixel(px, py)
                }),
    {
        let ghost g0 = *self;
        let ghost cs = s@;
        let anchor = TextAnchor { horizontal: p, vertical: VerticalTextAnchor::Top };
        let len: usize = s.unicode_len();
        let mut y: i32 = y0;
        let mut k: usize = 0;
        while k < len
            invariant
                self.same_frame(&g0),
                g0.wf(),
                font.wf(),
                cs == s@,
                len == cs.len(),
                k <= len,
                anchor.horizontal == p,
                anchor.vertical == VerticalTextAnchor::Top,
                forall|i: int| 0 <= i < cs.len() ==> i32::MIN <= #[trigger] font.spec_char_height(cs[i]) <= i32::MAX,
                forall|k: int| 0 <= k <= cs.len() ==> i32::MIN <= #[trigger] vtext_row(font, cs, y0 as int, k) <= i32::MAX,
                forall|i: int| 0 <= i < cs.len() ==> #[trigger] vtext_width(font, cs[i]) <= i32::MAX,
                forall|i: int|
                    0 <= i < cs.len() ==> i32::MIN <= x0 + anchor_offset(p.rank(), #[trigger] vtext_width(font, cs[i])) <= i32::MAX,
                y == vtext_row(font, cs, y0 as int, k as int),
                forall|px: int, py: int|
                    g0.in_canvas(px, py) ==> #[trigger] self.pixel(px, py) == (if vtext_covers(
                        font,
                        cs,
                        x0 as int,
                        y0 as int,
                        p,
                        px,
                        py,
                        k as int,
                    ) {
                        c.spec_rgb()
                    } else {
                        g0.pixel(px, py)
                    }),
            decreases len - k,
        {
            let ch = s.get_char(k);
            let one = char_string(ch);
            proof {
                assert(one@[0] == ch);
                assert(seq![ch].drop_first() =~= Seq::<char>::empty());
                assert(encode_utf8(seq![ch].drop_first()) =~= Seq::<u8>::empty());
                assert(encode_utf8(seq![ch]) =~= encode_scalar(ch as u32));
                font.lemma_widths(one@, 0);
                assert(one@.drop_last() =~= Seq::<char>::empty());
                assert(font.widths(one@) == font.spec_char_width(ch));
                assert(font.tallest(one@.drop_last()) == 0);
                assert(one@.last() == ch);
                assert(font.tallest(one@) == (if font.spec_char_height(ch) > 0 { font.spec_char_height(ch) } else { 0 }));
            }
            let os: &str = one.as_str();
            proof {
                assert(os@ == seq![ch]);
                assert(os.spec_bytes().len() == encode_scalar(ch as u32).len());
                assert(encode_scalar(ch as u32).len() <= 4);
                assert(vtext_width(font, cs[k as int]) == font.spec_str_width(os));
                assert(vtext_row(font, cs, y0 as int, k as int + 1) == y + 1 + font.spec_char_height(ch));
            }
            let ghost before = *self;
            self.text(os, x0, y, anchor, font, c);
            proof {
                assert forall|px: int, py: int| g0.in_canvas(px, py) implies #[trigger] self.pixel(px, py) == (if vtext_covers(
                    font,
                    cs,
                    x0 as int,
                    y0 as int,
                    p,
                    px,
                    py,
                    k + 1,
                ) {
                    c.spec_rgb()
                } else {
                    g0.pixel(px, py)
                }) by {
                    if vtext_char_covers(font, cs, x0 as int, y0 as int, p, k as int, px, py) {
                        assert(vtext_covers(font, cs, x0 as int, y0 as int, p, px, py, k + 1));
                    } else if vtext_covers(font, cs, x0 as int, y0 as int, p, px, py, k + 1) {
                        let m = choose|m: int| 0 <= m < k + 1 && #[trigger] vtext_char_covers(font, cs, x0 as int, y0 as int, p, m, px, py);
                        assert(m != k);
                        assert(vtext_covers(font, cs, x0 as int, y0 as int, p, px, py, k as int));
                    } else {
                        if vtext_covers(font, cs, x0 as int, y0 as int, p, px, py, k as int) {
                            let m = choose|m: int| 0 <= m < k && #[trigger] vtext_char_covers(font, cs, x0 as int, y0 as int, p, m, px, py);
                            assert(vtext_covers(font, cs, x0 as int, y0 as int, p, px, py, k + 1));
                        }
                    }
                }
            }
            let ch_h: i32 = font.char_height(ch);
            y = (y as i64 + 1 + ch_h as i64) as i32;
            k += 1;
        }
    }
}

impl<T: GraphPixel> PixelWriter<T> for ImageGraph {
    /// As `ImageGraph::put_pixel` on a well-formed raster; a malformed one
    /// is left alone.
    fn put_pixel(&mut self, x: i32, y: i32, c: T)
        ensures
            old(self).wf() ==> final(self).same_frame(old(self)) && forall|px: int, py: int|
                old(self).in_canvas(px, py) ==> #[trigger] final(self).pixel(px, py) == (if px == x
                    && py == y {
                    c.spec_rgb()
                } else {
                    old(self).pixel(px, py)
                }),
            !old(self).wf() ==> *final(self) == *old(self),
    {
        proof {
            assert(self.w as int * self.h as int <= u64::MAX) by (nonlinear_arith)
                requires
                    self.w <= u32::MAX,
                    self.h <= u32::MAX,
            ;
        }
        if self.pixels.len() as u64 == self.w as u64 * self.h as u64 && self.w <= 0x7fff_ffff
            && self.h <= 0x7fff_ffff {
            ImageGraph::put_pixel(self, x, y, c);
        }
    }
}

} // verus!
