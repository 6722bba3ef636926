use vstd::prelude::*;

verus! {

/// How a metric compares with its thresholds.
#[derive(Clone, Copy, PartialEq, Eq, Structural, Debug)]
pub enum EvalState {
    Good,
    Warn,
    Alert,
}

/// The palette quantised to 12-bit RGB, shown as sixteen tiles.
pub struct RGB12BitWidget {}

/// The palette as a grid of `slots_x`×`slots_y` swatches of `ww`×`hh`.
pub struct IndexedWidget {
    pub slots_x: i32,
    pub slots_y: i32,
    pub ww: i32,
    pub hh: i32,
}

impl IndexedWidget {
    pub fn new(slots_x: i32, slots_y: i32, ww: i32, hh: i32) -> (r: Self)
        ensures
            r.slots_x == slots_x,
            r.slots_y == slots_y,
            r.ww == ww,
            r.hh == hh,
    {
        IndexedWidget { slots_x, slots_y, ww, hh }
    }
}

/// A labelled box showing a yes/no verdict.
pub struct YesNoBoxWidget {
    pub w: i32,
    pub h: i32,
    pub text: Vec<String>,
    pub v: bool,
}

impl YesNoBoxWidget {
    pub fn new(w: i32, h: i32, text: Vec<String>, v: bool) -> (r: Self)
        ensures
            r.w == w,
            r.h == h,
            r.text == text,
            r.v == v,
    {
        YesNoBoxWidget { w, h, text, v }
    }
}

/// The acyclicity verdict box.
pub struct AcyclicWidget {
    pub w: i32,
    pub h: i32,
}

impl AcyclicWidget {
    pub fn new(w: i32, h: i32) -> (r: Self)
        ensures
            r.w == w,
            r.h == h,
    {
        AcyclicWidget { w, h }
    }
}

/// The distribution of the palette's dominant wavelengths.
pub struct SpectralDistributionWidget {
    pub w: i32,
    pub h: i32,
}

impl SpectralDistributionWidget {
    pub fn new(w: i32, h: i32) -> (r: Self)
        ensures
            r.w == w,
            r.h == h,
    {
        SpectralDistributionWidget { w, h }
    }
}

/// The distribution of the palette's colour temperatures.
pub struct TemperatureDistributionWidget {
    pub w: i32,
    pub h: i32,
}

impl TemperatureDistributionWidget {
    pub fn new(w: i32, h: i32) -> (r: Self)
        ensures
            r.w == w,
            r.h == h,
    {
        TemperatureDistributionWidget { w, h }
    }
}

/// Greyscale ramps matched to the palette by lightness.
pub struct LiMatchGreyscaleWidget {
    pub w: i32,
    pub h: i32,
}

impl LiMatchGreyscaleWidget {
    pub fn new(w: i32, h: i32) -> (r: Self)
        ensures
            r.w == w,
            r.h == h,
    {
        LiMatchGreyscaleWidget { w, h }
    }
}

/// Two isometric views of the palette in CAM16-UCS.
pub struct CAM16IsoCubesWidget {
    pub ww: i32,
    pub dx: i32,
}

impl CAM16IsoCubesWidget {
    pub fn new(ww: i32, dx: i32) -> (r: Self)
        ensures
            r.ww == ww,
            r.dx == dx,
    {
        CAM16IsoCubesWidget { ww, dx }
    }
}

/// Chroma, lightness and hue plots of the palette.
pub struct ChromaLightnessHueWidget {
    pub w1: i32,
    pub hh1: i32,
    pub w2: i32,
    pub h2: i32,
}

impl ChromaLightnessHueWidget {
    pub fn new(w1: i32, hh1: i32, w2: i32, h2: i32) -> (r: Self)
        ensures
            r.w1 == w1,
            r.hh1 == hh1,
            r.w2 == w2,
            r.h2 == h2,
    {
        ChromaLightnessHueWidget { w1, hh1, w2, h2 }
    }
}

/// A grid of the most useful two-colour mixes.
pub struct UsefulMixesWidget {
    pub xn: i32,
    pub yn: i32,
    pub ww: i32,
    pub hh: i32,
}

impl UsefulMixesWidget {
    pub fn new(xn: i32, yn: i32, ww: i32, hh: i32) -> (r: Self)
        ensures
            r.xn == xn,
            r.yn == yn,
            r.ww == ww,
            r.hh == hh,
    {
        UsefulMixesWidget { xn, yn, ww, hh }
    }
}

/// Each colour's lightness and chroma as bars.
pub struct LightnessChromaComponentsWidget {
    pub w: i32,
    pub h: i32,
}

impl LightnessChromaComponentsWidget {
    pub fn new(w: i32, h: i32) -> (r: Self)
        ensures
            r.w == w,
            r.h == h,
    {
        LightnessChromaComponentsWidget { w, h }
    }
}

/// The palette as a strip sorted by lightness.
pub struct MainPaletteWidget {
    pub w: i32,
    pub h: i32,
}

impl MainPaletteWidget {
    pub fn new(w: i32, h: i32) -> (r: Self)
        ensures
            r.w == w,
            r.h == h,
    {
        MainPaletteWidget { w, h }
    }
}

/// Each colour above the colour that neutralises it.
pub struct NeutralisersWidget {
    pub w: i32,
    pub h1: i32,
    pub h2: i32,
}

impl NeutralisersWidget {
    pub fn new(w: i32, h1: i32, h2: i32) -> (r: Self)
        ensures
            r.w == w,
            r.h1 == h1,
            r.h2 == h2,
    {
        NeutralisersWidget { w, h1, h2 }
    }
}

/// A polar hue-chroma plot of diameter `d`.
pub struct HueChromaPolarWidget {
    pub d: i32,
}

impl HueChromaPolarWidget {
    pub fn new(d: i32) -> (r: Self)
        ensures
            r.d == d,
    {
        HueChromaPolarWidget { d }
    }
}

} // verus!
