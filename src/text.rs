use vstd::prelude::*;
use vstd::string::*;
use crate::graph::{GraphPixel, ImageGraph};

verus! {

/// Integer division by two rounding toward zero, as `v / 2` does on machine
/// integers.
pub open spec fn half_toward_zero(v: int) -> int {
    if v >= 0 { v / 2 } else { -((-v) / 2) }
}

/// The offset that places a box of extent `w` so that the anchor point lies
/// at its start (0), its middle (`-w/2`) or its end (`-w`).
pub open spec fn anchor_offset(k: int, w: int) -> int {
    if k == 0 { 0 } else if k == 1 { half_toward_zero(-w) } else { -w }
}

fn neg_half(w: i32) -> (r: i32)
    requires
        w > i32::MIN,
    ensures
        r as int == half_toward_zero(-(w as int)),
{
    let v: i32 = -w;
    if v >= 0 {
        v / 2
    } else {
        -(w / 2)
    }
}

#[derive(Clone, Copy, PartialEq, Eq, Structural, Debug)]
pub enum HorizontalTextAnchor {
    Left,
    Center,
    Right,
}

impl HorizontalTextAnchor {
    pub open spec fn rank(self) -> int {
        match self {
            HorizontalTextAnchor::Left => 0,
            HorizontalTextAnchor::Center => 1,
            HorizontalTextAnchor::Right => 2,
        }
    }

    /// The horizontal offset from the anchor point to the left edge of a box
    /// of width `w`.
    pub fn align(self, w: i32) -> (r: i32)
        requires
            w > i32::MIN,
        ensures
            r as int == anchor_offset(self.rank(), w as int),
    {
        match self {
            HorizontalTextAnchor::Left => 0,
            HorizontalTextAnchor::Center => neg_half(w),
            HorizontalTextAnchor::Right => -w,
        }
    }
}

#[derive(Clone, Copy, PartialEq, Eq, Structural, Debug)]
pub enum VerticalTextAnchor {
    Top,
    Center,
    Bottom,
}

impl VerticalTextAnchor {
    pub open spec fn rank(self) -> int {
        match self {
            VerticalTextAnchor::Top => 0,
            VerticalTextAnchor::Center => 1,
            VerticalTextAnchor::Bottom => 2,
        }
    }

    /// The vertical offset from the anchor point to the top edge of a box of
    /// height `h`.
    pub fn align(self, h: i32) -> (r: i32)
        requires
            h > i32::MIN,
        ensures
            r as int == anchor_offset(self.rank(), h as int),
    {
        match self {
            VerticalTextAnchor::Top => 0,
            VerticalTextAnchor::Center => neg_half(h),
            VerticalTextAnchor::Bottom => -h,
        }
    }
}

#[derive(Clone, Copy, PartialEq, Eq, Structural, Debug)]
pub struct TextAnchor {
    pub horizontal: HorizontalTextAnchor,
    pub vertical: VerticalTextAnchor,
}

impl TextAnchor {
    /// The offset from the anchor point to the top-left corner of a `w`×`h`
    /// box.
    pub fn align(self, w: i32, h: i32) -> (r: (i32, i32))
        requires
            w > i32::MIN,
            h > i32::MIN,
        ensures
            r.0 as int == anchor_offset(self.horizontal.rank(), w as int),
            r.1 as int == anchor_offset(self.vertical.rank(), h as int),
    {
        (self.horizontal.align(w), self.vertical.align(h))
    }

    pub fn nw() -> (r: Self)
        ensures
            r.horizontal == HorizontalTextAnchor::Left,
            r.vertical == VerticalTextAnchor::Top,
    {
        TextAnchor { horizontal: HorizontalTextAnchor::Left, vertical: VerticalTextAnchor::Top }
    }

    pub fn n() -> (r: Self)
        ensures
            r.horizontal == HorizontalTextAnchor::Center,
            r.vertical == VerticalTextAnchor::Top,
    {
        TextAnchor { horizontal: HorizontalTextAnchor::Center, vertical: VerticalTextAnchor::Top }
    }

    pub fn ne() -> (r: Self)
        ensures
            r.horizontal == HorizontalTextAnchor::Right,
            r.vertical == VerticalTextAnchor::Top,
    {
        TextAnchor { horizontal: HorizontalTextAnchor::Right, vertical: VerticalTextAnchor::Top }
    }

    pub fn w() -> (r: Self)
        ensures
            r.horizontal == HorizontalTextAnchor::Left,
            r.vertical == VerticalTextAnchor::Center,
    {
        TextAnchor { horizontal: HorizontalTextAnchor::Left, vertical: VerticalTextAnchor::Center }
    }

    pub fn c() -> (r: Self)
        ensures
            r.horizontal == HorizontalTextAnchor::Center,
            r.vertical == VerticalTextAnchor::Center,
    {
        TextAnchor {
            horizontal: HorizontalTextAnchor::Center,
            vertical: VerticalTextAnchor::Center,
        }
    }

    pub fn e() -> (r: Self)
        ensures
            r.horizontal == HorizontalTextAnchor::Right,
            r.vertical == VerticalTextAnchor::Center,
    {
        TextAnchor { horizontal: HorizontalTextAnchor::Right, vertical: VerticalTextAnchor::Center }
    }

    pub fn sw() -> (r: Self)
        ensures
            r.horizontal == HorizontalTextAnchor::Left,
            r.vertical == VerticalTextAnchor::Bottom,
    {
        TextAnchor { horizontal: HorizontalTextAnchor::Left, vertical: VerticalTextAnchor::Bottom }
    }

    pub fn s() -> (r: Self)
        ensures
            r.horizontal == HorizontalTextAnchor::Center,
            r.vertical == VerticalTextAnchor::Bottom,
    {
        TextAnchor {
            horizontal: HorizontalTextAnchor::Center,
            vertical: VerticalTextAnchor::Bottom,
        }
    }

    pub fn se() -> (r: Self)
        ensures
            r.horizontal == HorizontalTextAnchor::Right,
            r.vertical == VerticalTextAnchor::Bottom,
    {
        TextAnchor { horizontal: HorizontalTextAnchor::Right, vertical: VerticalTextAnchor::Bottom }
    }
}

/// A bitmap: `rows[y][x]` is set where the glyph has ink.
pub struct Glyph {
    pub rows: Vec<Vec<bool>>,
}

/// A glyph drawn off the regular grid: shifted right by `x_kern` and up by
/// `y_kern` (0 where absent), its own width being that of its first row.
pub struct SpecialGlyph {
    pub glyph: Glyph,
    pub x_kern: Option<i32>,
    pub y_kern: Option<i32>,
}

/// A bitmap font: regular glyphs of a common width `w` and height `h`,
/// special glyphs with their own metrics, and three status icons.
pub struct Font {
    pub w: i32,
    pub h: i32,
    pub data: Vec<(char, Glyph)>,
    pub special: Vec<(char, SpecialGlyph)>,
    pub ok: Glyph,
    pub warn: Glyph,
    pub alert: Glyph,
}

/// No key occurs twice.
pub open spec fn keys_unique<G>(s: Seq<(char, G)>) -> bool {
    forall|i: int, j: int| 0 <= i < j < s.len() ==> s[i].0 != s[j].0
}

/// Some entry of `s` has key `c`.
pub open spec fn has_key<G>(s: Seq<(char, G)>, c: char) -> bool {
    exists|i: int| 0 <= i < s.len() && (#[trigger] s[i]).0 == c
}

/// The position of the entry with key `c`, where there is one.
pub open spec fn key_index<G>(s: Seq<(char, G)>, c: char) -> int {
    choose|i: int| 0 <= i < s.len() && (#[trigger] s[i]).0 == c
}

/// Ink at `(px, py)` when the glyph's top-left corner is at `(gx, gy)`.
pub open spec fn glyph_covers(g: &Glyph, gx: int, gy: int, px: int, py: int) -> bool {
    let y = py - gy;
    let x = px - gx;
    0 <= y < g.rows@.len() && 0 <= x < g.rows@[y]@.len() && g.rows@[y]@[x]
}

fn find_key<G>(s: &Vec<(char, G)>, c: char) -> (r: Option<usize>)
    ensures
        r.is_some() == has_key(s@, c),
        r.is_some() ==> r.unwrap() < s@.len() && s@[r.unwrap() as int].0 == c,
        r.is_some() && keys_unique(s@) ==> r.unwrap() == key_index(s@, c),
{
    let mut i: usize = 0;
    while i < s.len()
        invariant
            i <= s@.len(),
            forall|k: int| 0 <= k < i ==> (#[trigger] s@[k]).0 != c,
        decreases s@.len() - i,
    {
        if s[i].0 == c {
            proof {
                let k = key_index(s@, c);
                assert(s@[i as int].0 == c);
                if keys_unique(s@) && k != i {
                    if k < i {
                        assert(s@[k].0 != s@[i as int].0);
                    } else {
                        assert(s@[i as int].0 != s@[k].0);
                    }
                }
            }
            return Some(i);
        }
        i += 1;
    }
    None
}

fn pattern(p: [[u8; 7]; 7]) -> (g: Glyph)
    ensures
        g.rows@.len() == 7,
        forall|y: int| 0 <= y < 7 ==> (#[trigger] g.rows@[y])@.len() == 7,
        forall|y: int, x: int| 0 <= y < 7 && 0 <= x < 7 ==> #[trigger] g.rows@[y]@[x] == (p@[y]@[x] == 1),
{
    let mut rows: Vec<Vec<bool>> = Vec::new();
    let mut y: usize = 0;
    while y < 7
        invariant
            y <= 7,
            rows@.len() == y,
            forall|k: int| 0 <= k < y ==> (#[trigger] rows@[k])@.len() == 7,
            forall|k: int, x: int| 0 <= k < y && 0 <= x < 7 ==> #[trigger] rows@[k]@[x] == (p@[k]@[x] == 1),
        decreases 7 - y,
    {
        let mut row: Vec<bool> = Vec::new();
        let mut x: usize = 0;
        while x < 7
            invariant
                y < 7,
                x <= 7,
                row@.len() == x,
                forall|k: int| 0 <= k < x ==> #[trigger] row@[k] == (p@[y as int]@[k] == 1),
            decreases 7 - x,
        {
            row.push(p[y][x] == 1);
            x += 1;
        }
        rows.push(row);
        y += 1;
    }
    Glyph { rows }
}

/// A check mark.
fn ok_glyph() -> (g: Glyph)
    ensures
        g.rows@.len() == 7,
{
    pattern([
        [0, 0, 0, 0, 0, 1, 0],
        [0, 0, 0, 0, 1, 1, 0],
        [0, 0, 0, 0, 1, 1, 0],
        [1, 0, 0, 1, 1, 0, 0],
        [1, 1, 0, 1, 1, 0, 0],
        [0, 1, 1, 1, 0, 0, 0],
        [0, 0, 1, 1, 0, 0, 0],
    ])
}

/// A warning triangle.
fn warn_glyph() -> (g: Glyph)
    ensures
        g.rows@.len() == 7,
{
    pattern([
        [0, 0, 0, 1, 0, 0, 0],
        [0, 0, 1, 1, 1, 0, 0],
        [0, 0, 1, 1, 1, 0, 0],
        [0, 1, 1, 1, 1, 1, 0],
        [0, 1, 1, 1, 1, 1, 0],
        [1, 1, 1, 1, 1, 1, 1],
        [1, 1, 1, 1, 1, 1, 1],
    ])
}

/// A cross.
fn alert_glyph() -> (g: Glyph)
    ensures
        g.rows@.len() == 7,
{
    pattern([
        [1, 1, 0, 0, 0, 1, 1],
        [1, 1, 1, 0, 1, 1, 1],
        [0, 1, 1, 1, 1, 1, 0],
        [0, 0, 1, 1, 1, 0, 0],
        [0, 1, 1, 1, 1, 1, 0],
        [1, 1, 1, 0, 1, 1, 1],
        [1, 1, 0, 0, 0, 1, 1],
    ])
}

impl Font {
    /// Keys are unique, the common metrics are not negative and every row
    /// length fits an `i32`.
    pub open spec fn wf(&self) -> bool {
        &&& keys_unique(self.data@)
        &&& keys_unique(self.special@)
        &&& 0 <= self.w
        &&& 0 <= self.h
        &&& forall|i: int, y: int|
            0 <= i < self.data@.len() && 0 <= y < self.data@[i].1.rows@.len() ==> (
            #[trigger] self.data@[i].1.rows@[y])@.len() <= i32::MAX
        &&& forall|i: int, y: int|
            0 <= i < self.special@.len() && 0 <= y < self.special@[i].1.glyph.rows@.len() ==> (
            #[trigger] self.special@[i].1.glyph.rows@[y])@.len() <= i32::MAX
    }

    /// The width of `c`: its first row for a special glyph, the common width
    /// otherwise.
    pub open spec fn spec_char_width(&self, c: char) -> int {
        if has_key(self.special@, c) {
            let g = self.special@[key_index(self.special@, c)].1.glyph;
            if g.rows@.len() > 0 {
                g.rows@[0]@.len() as int
            } else {
                0
            }
        } else {
            self.w as int
        }
    }

    /// The height of `c`: the common height, raised by a special glyph's
    /// vertical kern.
    pub open spec fn spec_char_height(&self, c: char) -> int {
        if has_key(self.special@, c) {
            match self.special@[key_index(self.special@, c)].1.y_kern {
                Some(k) => self.h + k,
                None => self.h as int,
            }
        } else {
            self.h as int
        }
    }

    /// The widths of the characters of `cs`, summed.
    pub open spec fn widths(&self, cs: Seq<char>) -> int
        decreases cs.len(),
    {
        if cs.len() == 0 {
            0
        } else {
            self.widths(cs.drop_last()) + self.spec_char_width(cs.last())
        }
    }

    /// The tallest character of `cs`, or 0.
    pub open spec fn tallest(&self, cs: Seq<char>) -> int
        decreases cs.len(),
    {
        if cs.len() == 0 {
            0
        } else {
            let t = self.tallest(cs.drop_last());
            let h = self.spec_char_height(cs.last());
            if h > t {
                h
            } else {
                t
            }
        }
    }

    /// The glyph drawn for `c` and its offset right and up: a special glyph
    /// with its kerns, a regular one, or the regular `?`.
    pub open spec fn glyph_for(&self, c: char) -> Option<(Glyph, int, int)> {
        if has_key(self.special@, c) {
            let d = self.special@[key_index(self.special@, c)].1;
            Some(
                (
                    d.glyph,
                    match d.x_kern {
                        Some(k) => k as int,
                        None => 0,
                    },
                    match d.y_kern {
                        Some(k) => k as int,
                        None => 0,
                    },
                ),
            )
        } else if has_key(self.data@, c) {
            Some((self.data@[key_index(self.data@, c)].1, 0, 0))
        } else if has_key(self.data@, '?') {
            Some((self.data@[key_index(self.data@, '?')].1, 0, 0))
        } else {
            None
        }
    }

    /// Where the `m`-th character of `cs` starts when the string starts at
    /// `x0`: one blank column after each character.
    pub open spec fn origin(&self, cs: Seq<char>, x0: int, m: int) -> int {
        x0 + m + self.widths(cs.take(m))
    }

    /// Ink at `(px, py)` from one of the first `k` characters of `cs` drawn
    /// from `(x0, y0)`.
    pub open spec fn string_covers(&self, cs: Seq<char>, x0: int, y0: int, px: int, py: int, k: int) -> bool {
        exists|m: int|
            0 <= m < k && #[trigger] self.char_covers(cs, x0, y0, m, px, py)
    }

    pub open spec fn char_covers(&self, cs: Seq<char>, x0: int, y0: int, m: int, px: int, py: int) -> bool {
        match self.glyph_for(cs[m]) {
            Some((g, xk, yk)) => glyph_covers(&g, self.origin(cs, x0, m) + xk, y0 - yk, px, py),
            None => false,
        }
    }

    /// A font of the given metrics and glyphs, with the built-in status
    /// icons.
    pub fn new(w: i32, h: i32, data: Vec<(char, Glyph)>, special: Vec<(char, SpecialGlyph)>) -> (f: Self)
        ensures
            f.w == w,
            f.h == h,
            f.data == data,
            f.special == special,
    {
        Font { w, h, data, special, ok: ok_glyph(), warn: warn_glyph(), alert: alert_glyph() }
    }

    /// The glyph drawn for `c`: the special one, else the regular one, else
    /// the regular `?`; `None` where the font has none of these.
    pub fn get_glyph(&self, c: char) -> (r: Option<&Glyph>)
        requires
            self.wf(),
        ensures
            r.is_some() == (has_key(self.special@, c) || has_key(self.data@, c) || has_key(self.data@, '?')),
            r.is_some() ==> *r.unwrap() == self.glyph_for(c).unwrap().0,
    {
        match find_key(&self.special, c) {
            Some(i) => {
                return Some(&self.special[i].1.glyph);
            },
            None => {},
        }
        match find_key(&self.data, c) {
            Some(i) => {
                return Some(&self.data[i].1);
            },
            None => {},
        }
        match find_key(&self.data, '?') {
            Some(i) => Some(&self.data[i].1),
            None => None,
        }
    }

    pub fn char_width(&self, c: char) -> (r: i32)
        requires
            self.wf(),
        ensures
            r == self.spec_char_width(c),
    {
        match find_key(&self.special, c) {
            Some(i) => {
                let g = &self.special[i].1.glyph;
                if g.rows.len() > 0 {
                    g.rows[0].len() as i32
                } else {
                    0
                }
            },
            None => self.w,
        }
    }

    pub fn char_height(&self, c: char) -> (r: i32)
        requires
            self.wf(),
            i32::MIN <= self.spec_char_height(c) <= i32::MAX,
        ensures
            r == self.spec_char_height(c),
    {
        match find_key(&self.special, c) {
            Some(i) => match self.special[i].1.y_kern {
                Some(k) => self.h + k,
                None => self.h,
            },
            None => self.h,
        }
    }

    /// The width of `s`: its characters' widths plus one blank column
    /// between neighbours, the gaps counted per byte of its UTF-8 text.
    pub open spec fn spec_str_width(&self, s: &str) -> int {
        let n = s.spec_bytes().len() as int;
        (if n - 1 > 0 { n - 1 } else { 0 }) + self.widths(s@)
    }

    /// Widths are not negative, grow one character at a time, and stay
    /// within `i32::MAX` per character.
    pub proof fn lemma_widths(&self, cs: Seq<char>, k: int)
        requires
            self.wf(),
            0 <= k <= cs.len(),
        ensures
            0 <= self.widths(cs.take(k)) <= self.widths(cs),
            self.widths(cs) <= cs.len() * 0x7fff_ffff,
            k < cs.len() ==> self.widths(cs.take(k + 1)) == self.widths(cs.take(k)) + self.spec_char_width(
                cs[k],
            ),
        decreases cs.len(),
    {
        if k < cs.len() {
            assert(cs.take(k + 1).drop_last() =~= cs.take(k));
        }
        if cs.len() > 0 {
            let c = cs.last();
            if has_key(self.special@, c) {
                let i = key_index(self.special@, c);
                if self.special@[i].1.glyph.rows@.len() > 0 {
                    assert(self.special@[i].1.glyph.rows@[0]@.len() <= i32::MAX);
                }
            }
            if k == cs.len() {
                assert(cs.take(k) =~= cs);
                self.lemma_widths(cs.drop_last(), k - 1);
            } else {
                self.lemma_widths(cs.drop_last(), k);
                assert(cs.drop_last().take(k) =~= cs.take(k));
            }
        } else {
            assert(cs.take(k) =~= cs);
        }
    }

    /// The tallest height is at least 0 and each character's height, and
    /// fits an `i32` where every height does.
    pub proof fn lemma_tallest(&self, cs: Seq<char>)
        ensures
            self.tallest(cs) >= 0,
            forall|i: int| 0 <= i < cs.len() ==> self.tallest(cs) >= #[trigger] self.spec_char_height(cs[i]),
            (forall|i: int| 0 <= i < cs.len() ==> #[trigger] self.spec_char_height(cs[i]) <= i32::MAX)
                ==> self.tallest(cs) <= i32::MAX,
        decreases cs.len(),
    {
        if cs.len() > 0 {
            self.lemma_tallest(cs.drop_last());
            assert forall|i: int| 0 <= i < cs.len() implies self.tallest(cs) >= #[trigger] self.spec_char_height(cs[i]) by {
                if i < cs.len() - 1 {
                    assert(cs.drop_last()[i] == cs[i]);
                }
            }
            if forall|i: int| 0 <= i < cs.len() ==> #[trigger] self.spec_char_height(cs[i]) <= i32::MAX {
                assert forall|i: int| 0 <= i < cs.drop_last().len() implies #[trigger] self.spec_char_height(cs.drop_last()[i]) <= i32::MAX by {
                    assert(cs.drop_last()[i] == cs[i]);
                }
                assert(self.spec_char_height(cs[cs.len() - 1]) <= i32::MAX);
            }
        }
    }

    pub fn str_width(&self, s: &str) -> (r: i32)
        requires
            self.wf(),
            self.spec_str_width(s) <= i32::MAX,
        ensures
            r == self.spec_str_width(s),
    {
        let n: usize = s.len();
        let len: usize = s.unicode_len();
        let mut total: i64 = 0;
        let mut k: usize = 0;
        proof {
            self.lemma_widths(s@, 0);
            assert(s@.take(0).len() == 0);
        }
        while k < len
            invariant
                self.wf(),
                len == s@.len(),
                self.spec_str_width(s) <= i32::MAX,
                n == s.spec_bytes().len(),
                k <= len,
                total == self.widths(s@.take(k as int)),
            decreases len - k,
        {
            proof {
                self.lemma_widths(s@, k as int);
                self.lemma_widths(s@, k as int + 1);
            }
            let c = s.get_char(k);
            total = total + self.char_width(c) as i64;
            k += 1;
        }
        proof {
            assert(s@.take(len as int) =~= s@);
        }
        let gaps: i64 = if n > 1 { (n - 1) as i64 } else { 0 };
        (gaps + total) as i32
    }

    pub fn str_height(&self, s: &str) -> (r: i32)
        requires
            self.wf(),
            forall|i: int| 0 <= i < s@.len() ==> i32::MIN <= #[trigger] self.spec_char_height(s@[i]) <= i32::MAX,
        ensures
            r == self.tallest(s@),
    {
        let len: usize = s.unicode_len();
        let mut h: i32 = 0;
        let mut k: usize = 0;
        proof {
            assert(s@.take(0) =~= Seq::<char>::empty());
        }
        while k < len
            invariant
                self.wf(),
                len == s@.len(),
                forall|i: int| 0 <= i < s@.len() ==> i32::MIN <= #[trigger] self.spec_char_height(s@[i]) <= i32::MAX,
                k <= len,
                h == self.tallest(s@.take(k as int)),
            decreases len - k,
        {
            let c = s.get_char(k);
            let ch = self.char_height(c);
            proof {
                assert(s@.take(k as int + 1).drop_last() =~= s@.take(k as int));
            }
            if ch > h {
                h = ch;
            }
            k += 1;
        }
        proof {
            assert(s@.take(len as int) =~= s@);
        }
        h
    }

    fn draw_glyph<T: GraphPixel>(g: &mut ImageGraph, gx: i128, gy: i128, glyph: &Glyph, c: T)
        requires
            old(g).wf(),
            -0x10_0000_0000_0000_0000_0000_0000 <= gx <= 0x10_0000_0000_0000_0000_0000_0000,
            -0x10_0000_0000_0000_0000_0000_0000 <= gy <= 0x10_0000_0000_0000_0000_0000_0000,
        ensures
            final(g).same_frame(old(g)),
            forall|px: int, py: int|
                old(g).in_canvas(px, py) ==> #[trigger] final(g).pixel(px, py) == (if glyph_covers(
                    glyph,
                    gx as int,
                    gy as int,
                    px,
                    py,
                ) {
                    c.spec_rgb()
                } else {
                    old(g).pixel(px, py)
                }),
    {
        let ghost g0 = *g;
        let mut y: usize = 0;
        while y < glyph.rows.len()
            invariant
                g.same_frame(&g0),
                g0.wf(),
                -0x10_0000_0000_0000_0000_0000_0000 <= gx <= 0x10_0000_0000_0000_0000_0000_0000,
                -0x10_0000_0000_0000_0000_0000_0000 <= gy <= 0x10_0000_0000_0000_0000_0000_0000,
                y <= glyph.rows@.len(),
                forall|px: int, py: int|
                    g0.in_canvas(px, py) ==> #[trigger] g.pixel(px, py) == (if glyph_covers(
                        glyph,
                        gx as int,
                        gy as int,
                        px,
                        py,
                    ) && py - gy < y {
                        c.spec_rgb()
                    } else {
                        g0.pixel(px, py)
                    }),
            decreases glyph.rows@.len() - y,
        {
            let row = &glyph.rows[y];
            let mut x: usize = 0;
            while x < row.len()
                invariant
                    g.same_frame(&g0),
                    g0.wf(),
                    -0x10_0000_0000_0000_0000_0000_0000 <= gx <= 0x10_0000_0000_0000_0000_0000_0000,
                    -0x10_0000_0000_0000_0000_0000_0000 <= gy <= 0x10_0000_0000_0000_0000_0000_0000,
                    y < glyph.rows@.len(),
                    *row == glyph.rows@[y as int],
                    x <= row@.len(),
                    forall|px: int, py: int|
                        g0.in_canvas(px, py) ==> #[trigger] g.pixel(px, py) == (if glyph_covers(
                            glyph,
                            gx as int,
                            gy as int,
                            px,
                            py,
                        ) && (py - gy < y || (py - gy == y && px - gx < x)) {
                            c.spec_rgb()
                        } else {
                            g0.pixel(px, py)
                        }),
                decreases row@.len() - x,
            {
                proof {
                    g0.lemma_canvas_bounds();
                }
                if row[x] {
                    let px: i128 = gx + x as i128;
                    let py: i128 = gy + y as i128;
                    if i32::MIN as i128 <= px && px <= i32::MAX as i128 && i32::MIN as i128 <= py && py
                        <= i32::MAX as i128 {
                        g.put_pixel(px as i32, py as i32, c);
                    }
                }
                x += 1;
            }
            y += 1;
        }
    }

    /// Draws `glyph` with its top-left corner at `(x0, y0)`.
    pub fn render_glyph<T: GraphPixel>(&self, g: &mut ImageGraph, x0: i32, y0: i32, glyph: &Glyph, c: T)
        requires
            old(g).wf(),
        ensures
            final(g).same_frame(old(g)),
            forall|px: int, py: int|
                old(g).in_canvas(px, py) ==> #[trigger] final(g).pixel(px, py) == (if glyph_covers(
                    glyph,
                    x0 as int,
                    y0 as int,
                    px,
                    py,
                ) {
                    c.spec_rgb()
                } else {
                    old(g).pixel(px, py)
                }),
    {
        Self::draw_glyph(g, x0 as i128, y0 as i128, glyph, c);
    }

    /// Draws `s` from `(x0, y0)`, each character at its origin shifted by
    /// its kerns.
    pub fn render_string<T: GraphPixel>(&self, g: &mut ImageGraph, x0: i32, y0: i32, s: &str, c: T)
        requires
            old(g).wf(),
            self.wf(),
        ensures
            final(g).same_frame(old(g)),
            forall|px: int, py: int|
                old(g).in_canvas(px, py) ==> #[trigger] final(g).pixel(px, py) == (if self.string_covers(
                    s@,
                    x0 as int,
                    y0 as int,
                    px,
                    py,
                    s@.len() as int,
                ) {
                    c.spec_rgb()
                } else {
                    old(g).pixel(px, py)
                }),
    {
        let ghost g0 = *g;
        let ghost cs = s@;
        let len: usize = s.unicode_len();
        let mut x: i128 = x0 as i128;
        let mut k: usize = 0;
        proof {
            self.lemma_widths(cs, 0);
        }
        while k < len
            invariant
                self.wf(),
                g.same_frame(&g0),
                g0.wf(),
                cs == s@,
                len == cs.len(),
                k <= len,
                x == self.origin(cs, x0 as int, k as int),
                forall|px: int, py: int|
                    g0.in_canvas(px, py) ==> #[trigger] g.pixel(px, py) == (if self.string_covers(
                        cs,
                        x0 as int,
                        y0 as int,
                        px,
                        py,
                        k as int,
                    ) {
                        c.spec_rgb()
                    } else {
                        g0.pixel(px, py)
                    }),
            decreases len - k,
        {
            proof {
                self.lemma_widths(cs, k as int);
                self.lemma_widths(cs, k as int + 1);
                self.lemma_widths(cs, len as int);
                assert(len <= usize::MAX);
            }
            let ch = s.get_char(k);
            assert(0 <= self.widths(cs.take(k as int)) <= self.widths(cs));
            assert(self.widths(cs) <= len * 0x7fff_ffff);
            assert(len * 0x7fff_ffff <= 0x1_0000_0000_0000_0000 * 0x7fff_ffff);
            let ghost before = *g;
            let ghost gf = self.glyph_for(ch);
            let mut drawn: bool = false;
            match find_key(&self.special, ch) {
                Some(i) => {
                    let d = &self.special[i].1;
                    let xk: i32 = match d.x_kern {
                        Some(v) => v,
                        None => 0,
                    };
                    let yk: i32 = match d.y_kern {
                        Some(v) => v,
                        None => 0,
                    };
                    Self::draw_glyph(g, x + xk as i128, y0 as i128 - yk as i128, &d.glyph, c);
                    drawn = true;
                },
                None => {},
            }
            if !drawn {
                match self.get_glyph(ch) {
                    Some(glyph) => {
                        Self::draw_glyph(g, x, y0 as i128, glyph, c);
                    },
                    None => {},
                }
            }
            proof {
                assert forall|px: int, py: int| g0.in_canvas(px, py) implies #[trigger] g.pixel(px, py) == (if self.string_covers(
                    cs,
                    x0 as int,
                    y0 as int,
                    px,
                    py,
                    k + 1,
                ) {
                    c.spec_rgb()
                } else {
                    g0.pixel(px, py)
                }) by {
                    if self.char_covers(cs, x0 as int, y0 as int, k as int, px, py) {
                        assert(self.string_covers(cs, x0 as int, y0 as int, px, py, k + 1));
                    } else if self.string_covers(cs, x0 as int, y0 as int, px, py, k + 1) {
                        let m = choose|m: int| 0 <= m < k + 1 && #[trigger] self.char_covers(cs, x0 as int, y0 as int, m, px, py);
                        assert(m != k);
                        assert(self.string_covers(cs, x0 as int, y0 as int, px, py, k as int));
                    } else {
                        if self.string_covers(cs, x0 as int, y0 as int, px, py, k as int) {
                            let m = choose|m: int| 0 <= m < k && #[trigger] self.char_covers(cs, x0 as int, y0 as int, m, px, py);
                            assert(self.string_covers(cs, x0 as int, y0 as int, px, py, k + 1));
                        }
                    }
                }
            }
            let w: i32 = self.char_width(ch);
            x = x + 1 + w as i128;
            k += 1;
        }
    }
}

} // verus!
