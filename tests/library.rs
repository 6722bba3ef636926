use censor::cache::{PlotData, PlotStore};
use censor::widget::{EvalState, HueChromaPolarWidget, IndexedWidget, NeutralisersWidget, YesNoBoxWidget};
use censor::colour::RGB255;
use censor::daemon::command_words;
use censor::dither::{DitheringMethod, ThresholdMatrix};
use censor::graph::ImageGraph;
use censor::loader::{
    check_palette, image_from_pixels, load_from_hex, palette_from_csv, palette_from_pixels, parse_hex,
    LoadError,
    LoadedPalette, PaletteCheckError,
};
use censor::palette::acyclic_in_order;
use censor::text::{Font, Glyph, HorizontalTextAnchor, SpecialGlyph, TextAnchor, VerticalTextAnchor};
use censor::util::{abs_diff, Clip, CyclicClip};

fn rgb(r: u8, g: u8, b: u8) -> RGB255 {
    RGB255::new(r, g, b)
}

fn painted(g: &ImageGraph, c: RGB255) -> Vec<(u32, u32)> {
    let mut out = vec![];
    for y in 0..g.height() {
        for x in 0..g.width() {
            if g.get_pixel(x, y) == c {
                out.push((x, y));
            }
        }
    }
    out
}

#[test]
fn parse_hex_with_and_without_hash() {
    assert_eq!(parse_hex("#ff0000".to_string()), Ok(rgb(255, 0, 0)));
    assert_eq!(parse_hex("00ff00".to_string()), Ok(rgb(0, 255, 0)));
    assert_eq!(parse_hex("#0A0b0C".to_string()), Ok(rgb(10, 11, 12)));
}

#[test]
fn parse_hex_rejects_bad_length() {
    assert_eq!(parse_hex("#12345".to_string()), Err(LoadError::InvalidHexLength));
    assert_eq!(parse_hex("ff00000".to_string()), Err(LoadError::InvalidHexLength));
    assert_eq!(parse_hex("".to_string()), Err(LoadError::InvalidHexLength));
    assert_eq!(parse_hex("#ff000000".to_string()), Err(LoadError::InvalidHexLength));
    assert_eq!(parse_hex("##abcde".to_string()), Err(LoadError::InvalidHexLength));
    assert_eq!(parse_hex("##abcd".to_string()), Err(LoadError::InvalidHexLength));
    assert_eq!(parse_hex("#abcde".to_string()), Err(LoadError::InvalidHexLength));
}

#[test]
fn parse_hex_rejects_non_hex() {
    assert_eq!(parse_hex("zz0000".to_string()), Err(LoadError::NonHexCharacters));
    assert_eq!(parse_hex("#12345g".to_string()), Err(LoadError::NonHexCharacters));
    assert_eq!(parse_hex("#+f+f+f".to_string()), Err(LoadError::NonHexCharacters));
}

#[test]
fn load_from_hex_keeps_order_and_reports_first_error() {
    let ok = load_from_hex(&vec!["#000000".to_string(), "#ffffff".to_string()]).unwrap();
    assert_eq!(ok.colours, vec![rgb(0, 0, 0), rgb(255, 255, 255)]);
    assert!(ok.icc_profile.is_none());
    let bad = load_from_hex(&vec!["#000000".to_string(), "#12".to_string(), "xx0000".to_string()]);
    assert_eq!(bad.err(), Some(LoadError::InvalidHexLength));
}

#[test]
fn loaded_palette_carries_profile() {
    let p = LoadedPalette::new(vec![rgb(1, 2, 3)]).with_icc_profile(vec![7, 8]);
    assert_eq!(p.colours, vec![rgb(1, 2, 3)]);
    assert_eq!(p.icc_profile, Some(vec![7, 8]));
}

#[test]
fn check_palette_errors() {
    assert_eq!(check_palette(&vec![rgb(0, 0, 0)]), Err(PaletteCheckError::TooFewColours(1)));
    assert_eq!(check_palette(&vec![]), Err(PaletteCheckError::TooFewColours(0)));
    let many: Vec<RGB255> = (0..257u32).map(|i| rgb((i % 256) as u8, (i / 256) as u8, 0)).collect();
    assert_eq!(check_palette(&many), Err(PaletteCheckError::TooManyColours(257)));
    assert_eq!(
        check_palette(&vec![rgb(1, 1, 1), rgb(2, 2, 2), rgb(1, 1, 1)]),
        Err(PaletteCheckError::Duplicates)
    );
    assert_eq!(check_palette(&vec![rgb(0, 0, 0), rgb(255, 255, 255)]), Ok(()));
    let full: Vec<RGB255> = (0..256u32).map(|i| rgb(i as u8, 0, 0)).collect();
    assert_eq!(check_palette(&full), Ok(()));
}

#[test]
fn error_messages() {
    assert_eq!(PaletteCheckError::TooFewColours(1).message(), "Too few colours: 1");
    assert_eq!(PaletteCheckError::TooManyColours(300).message(), "Too many colours: 300");
    assert_eq!(PaletteCheckError::Duplicates.message(), "Duplicated colours");
    assert_eq!(LoadError::NotFound.message(), "Palette not found");
    assert_eq!(LoadError::InvalidHexLength.message(), "Invalid hex colour length");
}

#[test]
fn pixels_to_palette_and_image() {
    let rows = vec![
        vec![[1, 2, 3, 255], [4, 5, 6, 0], [1, 2, 3, 255]],
        vec![[7, 8, 9, 255], [4, 5, 6, 255], [7, 8, 9, 128]],
    ];
    assert_eq!(palette_from_pixels(&rows), vec![rgb(1, 2, 3), rgb(7, 8, 9), rgb(4, 5, 6)]);
    let img = image_from_pixels(&rows);
    assert_eq!(img.data[0], vec![Some(rgb(1, 2, 3)), None, Some(rgb(1, 2, 3))]);
    assert_eq!(img.data[1], vec![Some(rgb(7, 8, 9)), Some(rgb(4, 5, 6)), None]);
}

#[test]
fn bayer_two_is_canonical() {
    let m = ThresholdMatrix::bayer(2);
    assert_eq!(m.w, 4);
    assert_eq!(m.h, 4);
    assert_eq!(m.order[0], vec![0, 8, 2, 10]);
    assert_eq!(m.order[1], vec![12, 4, 14, 6]);
    assert_eq!(m.order[2], vec![3, 11, 1, 9]);
    assert_eq!(m.order[3], vec![15, 7, 13, 5]);
    let mut seen: Vec<usize> = m.order.iter().flatten().copied().collect();
    seen.sort();
    assert_eq!(seen, (0..16).collect::<Vec<usize>>());
}

#[test]
fn bayer_zero_and_permutation_of_larger_orders() {
    let m = ThresholdMatrix::bayer(0);
    assert_eq!(m.order, vec![vec![0]]);
    for n in 1..6u32 {
        let m = ThresholdMatrix::bayer(n);
        let mut seen: Vec<usize> = m.order.iter().flatten().copied().collect();
        seen.sort();
        assert_eq!(seen, (0..(1usize << (2 * n))).collect::<Vec<usize>>());
    }
}

#[test]
fn whitenoise_is_permutation() {
    let m = ThresholdMatrix::whitenoise(5, 3);
    assert_eq!(m.order.len(), 3);
    assert!(m.order.iter().all(|r| r.len() == 5));
    let mut seen: Vec<usize> = m.order.iter().flatten().copied().collect();
    seen.sort();
    assert_eq!(seen, (0..15).collect::<Vec<usize>>());
}

#[test]
fn whitenoise_shuffles() {
    let identity: Vec<usize> = (0..64).collect();
    let mut moved = false;
    for _ in 0..8 {
        let m = ThresholdMatrix::whitenoise(8, 8);
        let flat: Vec<usize> = m.order.iter().flatten().copied().collect();
        if flat != identity {
            moved = true;
        }
    }
    assert!(moved);
}

#[test]
fn rank_lookup_wraps_and_binary_splits_at_half() {
    let m = ThresholdMatrix::bayer(1);
    assert_eq!(m.rank_at(0, 0), 0);
    assert_eq!(m.rank_at(3, 2), 2);
    assert_eq!(m.rank_at(5, 5), 1);
    assert_eq!(m.max_rank(), 3);
    assert_eq!(m.binary(), vec![vec![false, true], vec![true, false]]);
    let single = ThresholdMatrix::new(1, 1, vec![vec![5]]);
    assert_eq!(single.binary(), vec![vec![false]]);
}

#[test]
fn default_dithering_is_blue_noise() {
    assert_eq!(DitheringMethod::default(), DitheringMethod::BlueNoise(14, 14));
}

#[test]
fn clipping() {
    assert_eq!(5i32.clip(0, 3), 3);
    assert_eq!((-5i32).clip(0, 3), 0);
    assert_eq!(2usize.clip(1, 3), 2);
    assert_eq!((-1i32).cyclic_clip(4), 3);
    assert_eq!((-8i32).cyclic_clip(4), 0);
    assert_eq!(9i32.cyclic_clip(4), 1);
    assert_eq!(9usize.cyclic_clip(4), 1);
    assert_eq!(abs_diff(-3, 4), 7);
    assert_eq!(abs_diff(4, -3), 7);
}

#[test]
fn anchors() {
    assert_eq!(HorizontalTextAnchor::Left.align(7), 0);
    assert_eq!(HorizontalTextAnchor::Center.align(7), -3);
    assert_eq!(HorizontalTextAnchor::Right.align(7), -7);
    assert_eq!(VerticalTextAnchor::Center.align(5), -2);
    assert_eq!(VerticalTextAnchor::Bottom.align(5), -5);
    assert_eq!(TextAnchor::c().align(9, 5), (-4, -2));
    assert_eq!(TextAnchor::se().align(9, 5), (-9, -5));
    assert_eq!(TextAnchor::nw().align(9, 5), (0, 0));
    assert_eq!(TextAnchor::n().align(9, 5), (-4, 0));
    assert_eq!(TextAnchor::ne().align(9, 5), (-9, 0));
    assert_eq!(TextAnchor::w().align(9, 5), (0, -2));
    assert_eq!(TextAnchor::e().align(9, 5), (-9, -2));
    assert_eq!(TextAnchor::sw().align(9, 5), (0, -5));
    assert_eq!(TextAnchor::s().align(9, 5), (-4, -5));
}

#[test]
fn plot_data_empty() {
    let p: PlotData<u8> = PlotData::empty(3, 2);
    assert_eq!(p.data, vec![vec![None, None, None], vec![None, None, None]]);
    let q = PlotData::new(vec![vec![Some(1u8)]]);
    assert_eq!(q.data, vec![vec![Some(1u8)]]);
}

#[test]
fn put_pixel_clips() {
    let mut g = ImageGraph::new(4, 3);
    let c = rgb(9, 9, 9);
    g.put_pixel(1, 2, c);
    g.put_pixel(-1, 0, c);
    g.put_pixel(4, 0, c);
    g.put_pixel(0, 3, c);
    assert_eq!(painted(&g, c), vec![(1, 2)]);
    assert_eq!(g.get_pixel(0, 0), rgb(0, 0, 0));
}

#[test]
fn block_frame_and_checkerboard() {
    let c = rgb(1, 1, 1);
    let mut g = ImageGraph::new(5, 5);
    g.block(3, 3, 4, 4, c);
    assert_eq!(painted(&g, c), vec![(3, 3), (4, 3), (3, 4), (4, 4)]);

    let mut g = ImageGraph::new(5, 5);
    g.frame(1, 1, 3, 3, c);
    assert_eq!(
        painted(&g, c),
        vec![(1, 1), (2, 1), (3, 1), (1, 2), (3, 2), (1, 3), (2, 3), (3, 3)]
    );

    let d = rgb(2, 2, 2);
    let mut g = ImageGraph::new(3, 2);
    g.dither(0, 0, 3, 2, c, d);
    assert_eq!(painted(&g, c), vec![(0, 0), (2, 0), (1, 1)]);
    assert_eq!(painted(&g, d), vec![(1, 0), (0, 1), (2, 1)]);
}

#[test]
fn line_rounds_half_away_from_zero() {
    let c = rgb(5, 5, 5);
    let mut g = ImageGraph::new(5, 3);
    g.line(0, 0, 4, 2, c, None);
    assert_eq!(painted(&g, c), vec![(0, 0), (1, 1), (2, 1), (3, 2), (4, 2)]);

    let mut g = ImageGraph::new(5, 3);
    g.line(4, 2, 0, 0, c, None);
    assert_eq!(painted(&g, c), vec![(0, 0), (1, 1), (2, 1), (3, 2), (4, 2)]);

    let mut g = ImageGraph::new(5, 5);
    g.line(0, 4, 4, 2, c, None);
    assert_eq!(painted(&g, c), vec![(4, 2), (2, 3), (3, 3), (0, 4), (1, 4)]);
}

#[test]
fn line_vertical_steep_and_dotted() {
    let c = rgb(5, 5, 5);
    let mut g = ImageGraph::new(3, 5);
    g.line(1, 4, 1, 0, c, Some(2));
    assert_eq!(painted(&g, c), vec![(1, 0), (1, 2), (1, 4)]);

    let mut g = ImageGraph::new(3, 5);
    g.line(0, 0, 2, 4, c, None);
    assert_eq!(painted(&g, c), vec![(0, 0), (1, 1), (1, 2), (2, 3), (2, 4)]);

    let mut g = ImageGraph::new(8, 1);
    g.line(0, 0, 7, 0, c, Some(3));
    assert_eq!(painted(&g, c), vec![(0, 0), (3, 0), (6, 0)]);
}

#[test]
fn discs() {
    let c = rgb(3, 3, 3);
    let mut g = ImageGraph::new(4, 4);
    g.disc(1, 1, 1, c);
    assert_eq!(painted(&g, c), vec![(1, 1)]);
    let mut g = ImageGraph::new(4, 4);
    g.disc(1, 1, 2, c);
    assert_eq!(painted(&g, c), vec![(1, 1), (2, 1), (1, 2), (2, 2)]);
    let mut g = ImageGraph::new(4, 4);
    g.disc(0, 0, 3, c);
    assert_eq!(painted(&g, c), vec![(1, 0), (0, 1), (1, 1), (2, 1), (1, 2)]);
}

#[test]
fn graph_profile() {
    let g = ImageGraph::new(2, 2).with_icc_profile(vec![1, 2, 3]);
    assert_eq!(g.icc_profile(), &Some(vec![1, 2, 3]));
    assert_eq!((g.width(), g.height()), (2, 2));
}

fn glyph(rows: &[&[u8]]) -> Glyph {
    Glyph { rows: rows.iter().map(|r| r.iter().map(|&v| v == 1).collect()).collect() }
}

fn small_font() -> Font {
    let a = glyph(&[&[1, 1], &[1, 0], &[1, 1]]);
    let q = glyph(&[&[1, 0], &[0, 1], &[1, 0]]);
    let deg = SpecialGlyph { glyph: glyph(&[&[1]]), x_kern: Some(0), y_kern: Some(1) };
    Font::new(2, 3, vec![('a', a), ('?', q)], vec![('°', deg)])
}

#[test]
fn font_metrics() {
    let f = small_font();
    assert_eq!(f.char_width('a'), 2);
    assert_eq!(f.char_width('°'), 1);
    assert_eq!(f.char_height('a'), 3);
    assert_eq!(f.char_height('°'), 4);
    assert_eq!(f.str_width("aa"), 5);
    assert_eq!(f.str_width(""), 0);
    assert_eq!(f.str_width("a°"), 2 + 2 + 1);
    assert_eq!(f.str_height("a°"), 4);
    assert_eq!(f.str_height(""), 0);
    assert!(f.get_glyph('z').is_some());
    assert_eq!(f.ok.rows.len(), 7);
    assert_eq!(f.warn.rows[6], vec![true; 7]);
    assert_eq!(f.alert.rows[0], vec![true, true, false, false, false, true, true]);
}

#[test]
fn text_rendering() {
    let f = small_font();
    let c = rgb(8, 8, 8);
    let mut g = ImageGraph::new(6, 4);
    f.render_string(&mut g, 0, 0, "az", c);
    assert_eq!(
        painted(&g, c),
        vec![(0, 0), (1, 0), (3, 0), (0, 1), (4, 1), (0, 2), (1, 2), (3, 2)]
    );
    let mut g = ImageGraph::new(6, 4);
    g.text("a", 5, 3, TextAnchor::se(), &f, c);
    assert_eq!(painted(&g, c), vec![(3, 0), (4, 0), (3, 1), (3, 2), (4, 2)]);
    let mut g = ImageGraph::new(3, 8);
    g.vtext("aa", 0, 0, HorizontalTextAnchor::Left, &f, c);
    assert_eq!(
        painted(&g, c),
        vec![(0, 0), (1, 0), (0, 1), (0, 2), (1, 2), (0, 4), (1, 4), (0, 5), (0, 6), (1, 6)]
    );
}

#[test]
fn acyclic_triangle_and_square() {
    assert!(acyclic_in_order(3, &vec![(0, 1), (1, 2), (0, 2)]));
    assert!(!acyclic_in_order(4, &vec![(0, 1), (1, 2), (2, 3), (0, 3), (0, 2), (1, 3)]));
    assert!(acyclic_in_order(2, &vec![(0, 1)]));
    assert!(!acyclic_in_order(4, &vec![(0, 1), (2, 3), (1, 2), (0, 2), (1, 3), (0, 3)]));
    // four colours evenly spaced on a line: only pairs that joined two
    // components count as links, so (0, 3) has no colour linked to both ends
    assert!(!acyclic_in_order(4, &vec![(0, 1), (1, 2), (2, 3), (0, 2), (1, 3), (0, 3)]));
    assert!(acyclic_in_order(4, &vec![(0, 1), (1, 2), (2, 3), (0, 2), (1, 3)]));
}

#[test]
fn circle_rim() {
    let c = rgb(4, 4, 4);
    let mut g = ImageGraph::new(5, 5);
    g.circle(0, 0, 5, c, None);
    assert_eq!(
        painted(&g, c),
        vec![(2, 0), (1, 1), (3, 1), (0, 2), (4, 2), (1, 3), (3, 3), (2, 4)]
    );
    let mut g = ImageGraph::new(5, 5);
    g.circle(0, 0, 5, c, Some(2));
    assert_eq!(painted(&g, c), vec![(2, 0), (0, 2), (4, 2), (2, 4)]);
    let mut g = ImageGraph::new(5, 5);
    g.circle(0, 0, 0, c, None);
    assert!(painted(&g, c).is_empty());
}

#[test]
fn plot_store_keeps_first_fill() {
    let mut s: PlotStore<u8> = PlotStore::new();
    assert_eq!(s.get(1, "a"), None);
    s.set(1, "a", 10);
    s.set(1, "a", 20);
    s.set(2, "a", 30);
    s.set(1, "b", 40);
    assert_eq!(s.get(1, "a"), Some(&10));
    assert_eq!(s.get(1, "a"), Some(&10));
    assert_eq!(s.get(2, "a"), Some(&30));
    assert_eq!(s.get(1, "b"), Some(&40));
    assert_eq!(s.get(2, "b"), None);
}

#[test]
fn widget_constructors() {
    let w = IndexedWidget::new(32, 8, 3, 4);
    assert_eq!((w.slots_x, w.slots_y, w.ww, w.hh), (32, 8, 3, 4));
    let y = YesNoBoxWidget::new(44, 24, vec!["ACYCLIC".to_string()], true);
    assert_eq!((y.w, y.h, y.v), (44, 24, true));
    assert_eq!(y.text, vec!["ACYCLIC".to_string()]);
    let n = NeutralisersWidget::new(512, 6, 7);
    assert_eq!((n.w, n.h1, n.h2), (512, 6, 7));
    assert_eq!(HueChromaPolarWidget::new(105).d, 105);
    assert_ne!(EvalState::Good, EvalState::Alert);
}

fn sorted_ranks(m: &ThresholdMatrix) -> Vec<usize> {
    let mut seen: Vec<usize> = m.order.iter().flatten().copied().collect();
    seen.sort();
    seen
}

#[test]
fn bluenoise_ranks_follow_the_picks() {
    // pattern 2x2 with the diagonal set; pick the last pixel of the wanted value
    let pattern = vec![true, false, false, true];
    let m = ThresholdMatrix::bluenoise(2, 2, &pattern, |s: &Vec<bool>, v: bool| {
        s.iter().rposition(|&b| b == v).unwrap()
    });
    assert_eq!((m.w, m.h), (2, 2));
    // set pixels take ranks 1, 0 in pick order: index 3 first, then 0
    assert_eq!(m.order, vec![vec![0, 3], vec![2, 1]]);
    assert_eq!(sorted_ranks(&m), vec![0, 1, 2, 3]);
}

#[test]
fn bluenoise_ignores_bad_picks() {
    let pattern = vec![false, true, false, true, true, false];
    let m = ThresholdMatrix::bluenoise(3, 2, &pattern, |_s: &Vec<bool>, _v: bool| 99);
    assert_eq!(sorted_ranks(&m), vec![0, 1, 2, 3, 4, 5]);
    let empty = ThresholdMatrix::bluenoise(0, 3, &vec![], |_s: &Vec<bool>, _v: bool| 0);
    assert_eq!(empty.order, vec![Vec::<usize>::new(); 3]);
}

#[test]
fn palette_list_csv() {
    let p = palette_from_csv("Sweetie,GrafxKid,1a1c2c,5d275d,b13e53").unwrap();
    assert_eq!(p.colours, vec![rgb(0x1a, 0x1c, 0x2c), rgb(0x5d, 0x27, 0x5d), rgb(0xb1, 0x3e, 0x53)]);
    assert_eq!(palette_from_csv("file not found").err(), Some(LoadError::NotFound));
    assert_eq!(palette_from_csv("name").unwrap().colours, vec![]);
    assert_eq!(palette_from_csv("a,b,ffffff,zz").err(), Some(LoadError::InvalidHexLength));
    assert_eq!(palette_from_csv("a,b,ffffff,,000000").err(), Some(LoadError::InvalidHexLength));
}

#[test]
fn daemon_request_words() {
    let words = command_words("analyse -c #000000,#ffffff -o out\\ file.png\nignored").unwrap();
    assert_eq!(words, vec!["censor", "analyse", "-c", "#000000,#ffffff", "-o", "out file.png"]);
    assert_eq!(command_words("compute --all").unwrap(), vec!["censor", "compute", "--all"]);
    assert_eq!(command_words("dither \\"), None);
}

#[test]
fn load_error_messages_pass_through() {
    assert_eq!(LoadError::FileOpen("no such file".to_string()).message(), "no such file");
    assert_eq!(LoadError::FileRead("read failed".to_string()).message(), "read failed");
    assert_eq!(LoadError::NetworkError("timeout".to_string()).message(), "timeout");
    assert_eq!(LoadError::InvalidEncoding("bad utf-8".to_string()).message(), "bad utf-8");
    assert_eq!(LoadError::ImageEncoding("bad png".to_string()).message(), "bad png");
    assert_eq!(LoadError::NonHexCharacters.message(), "Invalid characters in hex colour");
}

#[test]
fn plot_store_fill_runs_producer_on_miss_only() {
    let mut s: PlotStore<u8> = PlotStore::new();
    s.fill(7, "k", || 1);
    s.fill(7, "k", || panic!("producer ran on a hit"));
    assert_eq!(s.get(7, "k"), Some(&1));
}

#[test]
fn bluenoise_first_pixel_fallback_order() {
    // pick names nothing valid, so each step takes the first pixel of the value
    let pattern = vec![false, true, true, false];
    let m = ThresholdMatrix::bluenoise(2, 2, &pattern, |_s: &Vec<bool>, _v: bool| 99);
    // set pixels removed first-first: index 1 gets rank 1, index 2 rank 0;
    // then voids filled first-first: index 0 rank 2, index 3 rank 3
    assert_eq!(m.order, vec![vec![2, 1], vec![0, 3]]);
}
