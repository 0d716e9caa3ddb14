//! Grid recovery from a raster image: line detection over pixel density
//! bands, cell geometry reconstruction, and per-cell color classification
//! against the fixed reference palette.

use vstd::prelude::*;
use vstd::arithmetic::div_mod::lemma_div_is_ordered_by_denominator;
use vstd::arithmetic::div_mod::lemma_div_pos_is_pos;
use vstd::arithmetic::mul::lemma_mul_inequality;

use crate::errors::BoardError;
use crate::game_logic::CellColor;

verus! {

/// How many grid lines per axis a usable board needs at least.
pub const MIN_GRID_SIZE: u32 = 6;

/// Size of the sliding window of per-line dark-pixel counts.
pub const WINDOW_SIZE: u32 = 5;

/// One pixel, alpha ignored.
#[derive(Debug, Clone, Copy, PartialEq, Eq, Structural)]
pub struct Rgb {
    pub r: u8,
    pub g: u8,
    pub b: u8,
}

/// An in-memory raster image with row-major pixel storage.
pub struct Image {
    pub width: u32,
    pub height: u32,
    pub pixels: Vec<Rgb>,
}

impl Image {
    /// The storage holds exactly one pixel per coordinate.
    pub open spec fn wf(&self) -> bool {
        self.pixels@.len() == (self.width as int) * (self.height as int)
    }

    /// The pixel at column `x`, row `y`.
    pub open spec fn pix(&self, x: int, y: int) -> Rgb {
        self.pixels@[y * (self.width as int) + x]
    }

    /// Builds an image if the pixel buffer matches the dimensions.
    pub fn new(width: u32, height: u32, pixels: Vec<Rgb>) -> (r: Option<Image>)
        ensures
            r is Some <==> pixels@.len() == (width as int) * (height as int),
            r is Some ==> r->0 == (Image { width, height, pixels }) && r->0.wf(),
    {
        proof {
            assert((width as int) * (height as int) <= 0xffff_ffff * 0xffff_ffff)
                by (nonlinear_arith)
                requires
                    0 <= width as int <= 0xffff_ffff,
                    0 <= height as int <= 0xffff_ffff,
            ;
        }
        if (pixels.len() as u64) == (width as u64) * (height as u64) {
            Some(Image { width, height, pixels })
        } else {
            None
        }
    }

    pub fn width(&self) -> (w: u32)
        ensures
            w == self.width,
    {
        self.width
    }

    pub fn height(&self) -> (h: u32)
        ensures
            h == self.height,
    {
        self.height
    }

    /// Reads one pixel.
    pub fn get_pixel(&self, x: u32, y: u32) -> (p: Rgb)
        requires
            self.wf(),
            x < self.width,
            y < self.height,
        ensures
            p == self.pix(x as int, y as int),
    {
        proof {
            assert((y as int) * (self.width as int) + (x as int) < (self.width as int) * (
            self.height as int)) by (nonlinear_arith)
                requires
                    (x as int) < (self.width as int),
                    (y as int) < (self.height as int),
                    0 <= x as int,
                    0 <= y as int,
            ;
            assert((y as int) * (self.width as int) <= 0xffff_ffff * 0xffff_ffff)
                by (nonlinear_arith)
                requires
                    0 <= y as int <= 0xffff_ffff,
                    0 <= self.width as int <= 0xffff_ffff,
            ;
        }
        let n = self.pixels.len();
        let idx: u64 = (y as u64) * (self.width as u64) + (x as u64);
        proof {
            assert((idx as int) < (n as int));
            assert(((idx as usize) as int) == (idx as int));
        }
        self.pixels[idx as usize]
    }
}

/// A separator-line pixel is pure black.
pub open spec fn is_black_spec(p: Rgb) -> bool {
    p.r == 0 && p.g == 0 && p.b == 0
}

/// Whether a pixel belongs to a grid separator line.
pub fn is_black(pixel: Rgb) -> (r: bool)
    ensures
        r == is_black_spec(pixel),
{
    pixel.r == 0 && pixel.g == 0 && pixel.b == 0
}

/// The reference value of each palette color, in lookup order.
pub open spec fn color_definitions() -> Seq<(Rgb, CellColor)> {
    seq![
        (Rgb { r: 241, g: 203, b: 154 }, CellColor::PeachOrange),
        (Rgb { r: 229, g: 130, b: 104 }, CellColor::VibrantCoral),
        (Rgb { r: 164, g: 190, b: 249 }, CellColor::SoftBlue),
        (Rgb { r: 190, g: 221, b: 166 }, CellColor::PastelGreen),
        (Rgb { r: 223, g: 223, b: 223 }, CellColor::LightGray),
        (Rgb { r: 183, g: 165, b: 221 }, CellColor::Lavender),
        (Rgb { r: 231, g: 242, b: 151 }, CellColor::LimeYellow),
        (Rgb { r: 183, g: 178, b: 160 }, CellColor::DarkGray),
        (Rgb { r: 209, g: 163, b: 190 }, CellColor::Pink),
        (Rgb { r: 241, g: 234, b: 218 }, CellColor::WarmBeige),
    ]
}

/// Executable copy of the reference table.
pub fn color_definitions_vec() -> (v: Vec<(Rgb, CellColor)>)
    ensures
        v@ == color_definitions(),
{
    let mut v: Vec<(Rgb, CellColor)> = Vec::new();
    v.push((Rgb { r: 241, g: 203, b: 154 }, CellColor::PeachOrange));
    v.push((Rgb { r: 229, g: 130, b: 104 }, CellColor::VibrantCoral));
    v.push((Rgb { r: 164, g: 190, b: 249 }, CellColor::SoftBlue));
    v.push((Rgb { r: 190, g: 221, b: 166 }, CellColor::PastelGreen));
    v.push((Rgb { r: 223, g: 223, b: 223 }, CellColor::LightGray));
    v.push((Rgb { r: 183, g: 165, b: 221 }, CellColor::Lavender));
    v.push((Rgb { r: 231, g: 242, b: 151 }, CellColor::LimeYellow));
    v.push((Rgb { r: 183, g: 178, b: 160 }, CellColor::DarkGray));
    v.push((Rgb { r: 209, g: 163, b: 190 }, CellColor::Pink));
    v.push((Rgb { r: 241, g: 234, b: 218 }, CellColor::WarmBeige));
    proof {
        assert(v@ =~= color_definitions());
    }
    v
}

/// Distance of two channel values.
pub open spec fn abs_diff(a: int, b: int) -> int {
    if a >= b {
        a - b
    } else {
        b - a
    }
}

/// Manhattan distance of two pixels over the three channels.
pub open spec fn channel_dist(p: Rgb, q: Rgb) -> int {
    abs_diff(p.r as int, q.r as int) + abs_diff(p.g as int, q.g as int) + abs_diff(
        p.b as int,
        q.b as int,
    )
}

/// Fold of the reference lookup over the first `k` table entries: the
/// best color so far and its distance, seeded like the scan itself.
pub open spec fn best_match_upto(p: Rgb, k: int) -> (CellColor, int)
    decreases k,
{
    if k <= 0 {
        (CellColor::LightGray, u32::MAX as int)
    } else {
        let prev = best_match_upto(p, k - 1);
        let e = color_definitions()[k - 1];
        let d = channel_dist(p, e.0);
        if d < prev.1 {
            (e.1, d)
        } else {
            prev
        }
    }
}

/// The palette color nearest to `p`.
pub open spec fn best_color(p: Rgb) -> CellColor {
    best_match_upto(p, 10).0
}

/// The distance to the nearest palette color.
pub open spec fn best_dist(p: Rgb) -> int {
    best_match_upto(p, 10).1
}

/// What classification returns: the nearest color, unless even the
/// nearest is farther than the acceptance threshold.
pub open spec fn classify_spec(p: Rgb) -> Result<CellColor, BoardError> {
    if best_dist(p) <= 100 {
        Ok(best_color(p))
    } else {
        Err(BoardError::UnrecognizedColor { distance: best_dist(p) as u32 })
    }
}

/// The folded minimum really is the least distance over the table, it is
/// attained by the reported color, and it never exceeds the worst
/// possible channel distance.
pub proof fn lemma_best_match_is_min(p: Rgb, k: int)
    requires
        1 <= k <= 10,
    ensures
        forall|i: int|
            0 <= i < k ==> best_match_upto(p, k).1 <= channel_dist(
                p,
                #[trigger] color_definitions()[i].0,
            ),
        exists|i: int|
            0 <= i < k && color_definitions()[i].1 == best_match_upto(p, k).0 && channel_dist(
                p,
                #[trigger] color_definitions()[i].0,
            ) == best_match_upto(p, k).1,
        best_match_upto(p, k).1 <= 765,
    decreases k,
{
    assert(channel_dist(p, color_definitions()[k - 1].0) <= 765);
    if k == 1 {
        assert(best_match_upto(p, 0) == (CellColor::LightGray, u32::MAX as int));
        assert(color_definitions()[0].1 == best_match_upto(p, 1).0 && channel_dist(
            p,
            color_definitions()[0].0,
        ) == best_match_upto(p, 1).1);
    } else {
        lemma_best_match_is_min(p, k - 1);
        let prev = best_match_upto(p, k - 1);
        let d = channel_dist(p, color_definitions()[k - 1].0);
        if d < prev.1 {
            assert(color_definitions()[k - 1].1 == best_match_upto(p, k).0 && channel_dist(
                p,
                color_definitions()[k - 1].0,
            ) == best_match_upto(p, k).1);
        } else {
            let i = choose|i: int|
                0 <= i < k - 1 && color_definitions()[i].1 == prev.0 && channel_dist(
                    p,
                    #[trigger] color_definitions()[i].0,
                ) == prev.1;
            assert(color_definitions()[i].1 == best_match_upto(p, k).0 && channel_dist(
                p,
                color_definitions()[i].0,
            ) == best_match_upto(p, k).1);
        }
    }
}

/// Law: classification is a pure function of the sample. Any two results
/// that meet `detect_single_color`'s contract for the same pixel are the
/// same result.
pub proof fn lemma_classification_idempotent(
    p: Rgb,
    r1: Result<CellColor, BoardError>,
    r2: Result<CellColor, BoardError>,
)
    requires
        r1 == classify_spec(p),
        r2 == classify_spec(p),
    ensures
        r1 == r2,
{
}

/// Classifies one sample: the nearest reference color, or the measured
/// distance when the sample is farther than the threshold from every
/// reference.
pub fn detect_single_color(pixel: Rgb) -> (r: Result<CellColor, BoardError>)
    ensures
        r == classify_spec(pixel),
        r matches Ok(c) ==> exists|i: int|
            0 <= i < 10 && #[trigger] color_definitions()[i].1 == c && channel_dist(
                pixel,
                color_definitions()[i].0,
            ) == best_dist(pixel),
        forall|i: int|
            0 <= i < 10 ==> best_dist(pixel) <= channel_dist(
                pixel,
                #[trigger] color_definitions()[i].0,
            ),
{
    let defs = color_definitions_vec();
    let mut closest_color = CellColor::LightGray;
    let mut min_diff: u32 = u32::MAX;
    let mut i: usize = 0;
    while i < 10
        invariant
            defs@ == color_definitions(),
            i <= 10,
            closest_color == best_match_upto(pixel, i as int).0,
            min_diff == best_match_upto(pixel, i as int).1,
        decreases 10 - i,
    {
        let (refc, color) = defs[i];
        let dr: u32 = if pixel.r >= refc.r {
            (pixel.r - refc.r) as u32
        } else {
            (refc.r - pixel.r) as u32
        };
        let dg: u32 = if pixel.g >= refc.g {
            (pixel.g - refc.g) as u32
        } else {
            (refc.g - pixel.g) as u32
        };
        let db: u32 = if pixel.b >= refc.b {
            (pixel.b - refc.b) as u32
        } else {
            (refc.b - pixel.b) as u32
        };
        let diff: u32 = dr + dg + db;
        proof {
            assert(diff == channel_dist(pixel, refc));
        }
        if diff < min_diff {
            min_diff = diff;
            closest_color = color;
        }
        i = i + 1;
    }
    proof {
        lemma_best_match_is_min(pixel, 10);
    }
    if min_diff > 100 {
        Err(BoardError::UnrecognizedColor { distance: min_diff })
    } else {
        Ok(closest_color)
    }
}

/// Non-decreasing sequence of coordinates.
pub open spec fn sorted_u32(s: Seq<u32>) -> bool {
    forall|i: int, j: int| 0 <= i < j < s.len() ==> s[i] <= s[j]
}

/// Sum of the gaps between consecutive coordinates.
pub open spec fn gap_sum(s: Seq<u32>) -> int
    decreases s.len(),
{
    if s.len() < 2 {
        0
    } else {
        gap_sum(s.drop_last()) + (s[s.len() - 1] - s[s.len() - 2])
    }
}

/// The gaps telescope: their sum is last minus first.
pub proof fn lemma_gap_sum_telescopes(s: Seq<u32>)
    requires
        s.len() >= 1,
    ensures
        gap_sum(s) == s[s.len() - 1] - s[0],
    decreases s.len(),
{
    if s.len() > 1 {
        lemma_gap_sum_telescopes(s.drop_last());
        assert(s.drop_last()[s.drop_last().len() - 1] == s[s.len() - 2]);
        assert(s.drop_last()[0] == s[0]);
    }
}

/// Average gap between consecutive detected lines: the cell size along
/// that axis.
pub fn calculate_average_gap(lines: &Vec<u32>) -> (g: u32)
    requires
        lines@.len() >= 2,
        lines@.len() <= 0x1_0000_0000,
        sorted_u32(lines@),
    ensures
        g as int == gap_sum(lines@) / (lines@.len() - 1),
{
    let mut gaps: Vec<u32> = Vec::new();
    let mut i: usize = 1;
    while i < lines.len()
        invariant
            1 <= i <= lines@.len(),
            lines@.len() >= 2,
            sorted_u32(lines@),
            gaps@.len() == i - 1,
            forall|k: int|
                0 <= k < i - 1 ==> (#[trigger] gaps@[k]) as int == lines@[k + 1] - lines@[k],
        decreases lines@.len() - i,
    {
        let d = lines[i] - lines[i - 1];
        gaps.push(d);
        i = i + 1;
    }
    let mut sum: u32 = 0;
    let mut j: usize = 0;
    while j < gaps.len()
        invariant
            0 <= j <= gaps@.len(),
            lines@.len() >= 2,
            sorted_u32(lines@),
            gaps@.len() == lines@.len() - 1,
            forall|k: int|
                0 <= k < gaps@.len() ==> (#[trigger] gaps@[k]) as int == lines@[k + 1] - lines@[k],
            sum as int == gap_sum(lines@.subrange(0, j + 1)),
        decreases gaps@.len() - j,
    {
        proof {
            let pre = lines@.subrange(0, j + 1);
            let nxt = lines@.subrange(0, j + 2);
            assert(nxt.drop_last() =~= pre);
            assert(nxt[nxt.len() - 1] == lines@[j + 1] && nxt[nxt.len() - 2] == lines@[j as int]);
            assert(gap_sum(nxt) == gap_sum(pre) + (lines@[j + 1] - lines@[j as int]));
            lemma_gap_sum_telescopes(nxt);
            assert(nxt[0] == lines@[0]);
        }
        sum = sum + gaps[j];
        j = j + 1;
    }
    proof {
        assert(lines@.subrange(0, lines@.len() as int) =~= lines@);
    }
    let count: u32 = (gaps.len() as u64) as u32;
    sum / count
}

/// One step of the line scan: feed the newest dark-pixel count into the
/// sliding window and apply the hysteresis thresholds.
pub struct DetectState {
    pub window: Seq<u32>,
    pub widx: int,
    pub in_line: bool,
    pub line_start: u32,
    pub lines: Seq<u32>,
}

/// The scan starts with an empty window and no line underway.
pub open spec fn detect_init() -> DetectState {
    DetectState {
        window: Seq::new(WINDOW_SIZE as nat, |i: int| 0u32),
        widx: 0,
        in_line: false,
        line_start: 0,
        lines: Seq::empty(),
    }
}

/// Sum of the five window slots.
pub open spec fn window_sum(w: Seq<u32>) -> int
    recommends
        w.len() == WINDOW_SIZE,
{
    w[0] + w[1] + w[2] + w[3] + w[4]
}

/// Advances the scan state by one coordinate whose dark-pixel count is
/// `count`. A line begins when the rolling average goes above a quarter
/// of the scanned span and ends when it falls to an eighth or below; the
/// recorded coordinate is the midpoint of the band.
pub open spec fn detect_step(st: DetectState, count: u32, p: u32, sec: u32) -> DetectState {
    let w2 = st.window.update(st.widx, count);
    let avg = window_sum(w2) / (WINDOW_SIZE as int);
    let threshold = sec as int / 4;
    let end_threshold = sec as int / 8;
    let widx2 = (st.widx + 1) % (WINDOW_SIZE as int);
    if avg > threshold && !st.in_line {
        DetectState { window: w2, widx: widx2, in_line: true, line_start: p, lines: st.lines }
    } else if avg <= end_threshold && st.in_line {
        let mid = st.line_start as int + (p as int - st.line_start as int) / 2;
        DetectState {
            window: w2,
            widx: widx2,
            in_line: false,
            line_start: st.line_start,
            lines: st.lines.push(mid as u32),
        }
    } else {
        DetectState {
            window: w2,
            widx: widx2,
            in_line: st.in_line,
            line_start: st.line_start,
            lines: st.lines,
        }
    }
}

/// The axis lengths of a scan: `p` runs along the primary axis, the
/// dark pixels are counted along the secondary axis.
pub open spec fn primary_dim_spec(img: Image, horizontal: bool) -> u32 {
    if horizontal {
        img.height
    } else {
        img.width
    }
}

pub open spec fn secondary_dim_spec(img: Image, horizontal: bool) -> u32 {
    if horizontal {
        img.width
    } else {
        img.height
    }
}

/// The pixel visited at primary coordinate `p`, secondary coordinate `s`.
pub open spec fn scan_pixel(img: Image, horizontal: bool, p: int, s: int) -> Rgb {
    if horizontal {
        img.pix(s, p)
    } else {
        img.pix(p, s)
    }
}

/// Dark pixels among the first `s` secondary coordinates of scan line `p`.
pub open spec fn dark_count_upto(img: Image, horizontal: bool, p: int, s: int) -> int
    decreases s,
{
    if s <= 0 {
        0
    } else {
        dark_count_upto(img, horizontal, p, s - 1) + if is_black_spec(
            scan_pixel(img, horizontal, p, s - 1),
        ) {
            1int
        } else {
            0int
        }
    }
}

pub proof fn lemma_dark_count_bound(img: Image, horizontal: bool, p: int, s: int)
    requires
        s >= 0,
    ensures
        0 <= dark_count_upto(img, horizontal, p, s) <= s,
    decreases s,
{
    if s > 0 {
        lemma_dark_count_bound(img, horizontal, p, s - 1);
    }
}

/// Dark-pixel count of one whole scan line.
pub open spec fn line_count(img: Image, horizontal: bool, p: int) -> u32 {
    dark_count_upto(img, horizontal, p, secondary_dim_spec(img, horizontal) as int) as u32
}

/// The scan state after the first `p` scan lines.
pub open spec fn detect_upto(img: Image, horizontal: bool, p: int) -> DetectState
    decreases p,
{
    if p <= 0 {
        detect_init()
    } else {
        detect_step(
            detect_upto(img, horizontal, p - 1),
            line_count(img, horizontal, p - 1),
            (p - 1) as u32,
            secondary_dim_spec(img, horizontal),
        )
    }
}

/// All line coordinates an axis scan of the image yields.
pub open spec fn detected_lines(img: Image, horizontal: bool) -> Seq<u32> {
    detect_upto(img, horizontal, primary_dim_spec(img, horizontal) as int).lines
}

/// Invariants of the scan state after `p` lines: window shape, the open
/// band starts before `p`, and the recorded lines are strictly
/// increasing coordinates below `p`.
pub open spec fn detect_state_wf(st: DetectState, p: int) -> bool {
    &&& st.window.len() == WINDOW_SIZE
    &&& 0 <= st.widx < WINDOW_SIZE as int
    &&& st.in_line ==> (st.line_start as int) < p
    &&& forall|i: int| 0 <= i < st.lines.len() ==> ((#[trigger] st.lines[i]) as int) < p
    &&& forall|i: int, j: int| 0 <= i < j < st.lines.len() ==> st.lines[i] < st.lines[j]
    &&& (st.in_line && st.lines.len() > 0) ==> (st.lines[st.lines.len() - 1] as int)
        < (st.line_start as int)
}

/// In a strictly increasing sequence the value at `i` is at least `i`.
pub proof fn lemma_strict_inc_index(s: Seq<u32>, i: int)
    requires
        forall|a: int, b: int| 0 <= a < b < s.len() ==> s[a] < s[b],
        0 <= i < s.len(),
    ensures
        s[i] as int >= i,
    decreases i,
{
    if i > 0 {
        lemma_strict_inc_index(s, i - 1);
        assert(s[i - 1] < s[i]);
    }
}

pub proof fn lemma_detect_state_wf(img: Image, horizontal: bool, p: int)
    requires
        0 <= p <= 0x1_0000_0000,
    ensures
        detect_state_wf(detect_upto(img, horizontal, p), p),
    decreases p,
{
    if p > 0 {
        lemma_detect_state_wf(img, horizontal, p - 1);
        let st = detect_upto(img, horizontal, p - 1);
        let st2 = detect_upto(img, horizontal, p);
        if st.in_line && !st2.in_line {
            let mid = st.line_start as int + ((p - 1) - st.line_start as int) / 2;
            assert(0 <= ((p - 1) - st.line_start as int) / 2 <= (p - 1) - st.line_start as int);
            assert(st.line_start as int <= mid <= p - 1);
            assert(mid as u32 as int == mid);
        }
    }
}

/// Scans one axis for separator lines: for every primary coordinate the
/// dark pixels along the whole secondary axis are counted, smoothed over
/// a five-slot sliding window, and bands above the hysteresis thresholds
/// are reported by their midpoints.
pub fn detect_lines(image: &Image, is_horizontal: bool) -> (lines: Vec<u32>)
    requires
        image.wf(),
    ensures
        lines@ == detected_lines(*image, is_horizontal),
        sorted_u32(lines@),
        lines@.len() <= primary_dim_spec(*image, is_horizontal),
        forall|i: int|
            0 <= i < lines@.len() ==> (#[trigger] lines@[i]) < primary_dim_spec(
                *image,
                is_horizontal,
            ),
{
    let (primary_dim, secondary_dim) = if is_horizontal {
        (image.height(), image.width())
    } else {
        (image.width(), image.height())
    };
    let mut lines: Vec<u32> = Vec::new();
    let mut window: Vec<u32> = Vec::new();
    let mut k: usize = 0;
    while k < 5
        invariant
            k <= 5,
            window@.len() == k,
            forall|i: int| 0 <= i < k ==> (#[trigger] window@[i]) == 0u32,
        decreases 5 - k,
    {
        window.push(0);
        k = k + 1;
    }
    let mut window_index: usize = 0;
    let mut in_line: bool = false;
    let mut line_start: u32 = 0;
    proof {
        assert(window@ =~= detect_init().window);
    }
    let mut p: u32 = 0;
    while p < primary_dim
        invariant
            image.wf(),
            primary_dim == primary_dim_spec(*image, is_horizontal),
            secondary_dim == secondary_dim_spec(*image, is_horizontal),
            p <= primary_dim,
            window@ == detect_upto(*image, is_horizontal, p as int).window,
            window_index as int == detect_upto(*image, is_horizontal, p as int).widx,
            in_line == detect_upto(*image, is_horizontal, p as int).in_line,
            line_start == detect_upto(*image, is_horizontal, p as int).line_start,
            lines@ == detect_upto(*image, is_horizontal, p as int).lines,
        decreases primary_dim - p,
    {
        proof {
            lemma_detect_state_wf(*image, is_horizontal, p as int);
        }
        let mut dark_count: u32 = 0;
        let mut s: u32 = 0;
        while s < secondary_dim
            invariant
                image.wf(),
                secondary_dim == secondary_dim_spec(*image, is_horizontal),
                p < primary_dim,
                primary_dim == primary_dim_spec(*image, is_horizontal),
                s <= secondary_dim,
                dark_count as int == dark_count_upto(*image, is_horizontal, p as int, s as int),
                dark_count <= s,
            decreases secondary_dim - s,
        {
            let (x, y) = if is_horizontal {
                (s, p)
            } else {
                (p, s)
            };
            if is_black(image.get_pixel(x, y)) {
                dark_count = dark_count + 1;
            }
            s = s + 1;
            proof {
                lemma_dark_count_bound(*image, is_horizontal, p as int, s as int);
            }
        }
        let ghost st = detect_upto(*image, is_horizontal, p as int);
        window.set(window_index, dark_count);
        window_index = (window_index + 1) % 5;
        let sum: u64 = (window[0] as u64) + (window[1] as u64) + (window[2] as u64) + (
        window[3] as u64) + (window[4] as u64);
        let window_avg: u64 = sum / 5;
        let threshold: u64 = (secondary_dim / 4) as u64;
        let end_threshold: u64 = (secondary_dim / 8) as u64;
        proof {
            assert(window@ == st.window.update(st.widx, dark_count));
            assert(sum as int == window_sum(window@));
        }
        if window_avg > threshold && !in_line {
            in_line = true;
            line_start = p;
        } else if window_avg <= end_threshold && in_line {
            in_line = false;
            let line_middle = line_start + (p - line_start) / 2;
            lines.push(line_middle);
        }
        p = p + 1;
        proof {
            let stepped = detect_step(
                st,
                line_count(*image, is_horizontal, p as int - 1),
                (p - 1) as u32,
                secondary_dim_spec(*image, is_horizontal),
            );
            assert(detect_upto(*image, is_horizontal, p as int) == stepped);
        }
    }
    proof {
        lemma_detect_state_wf(*image, is_horizontal, primary_dim as int);
        if lines@.len() > 0 {
            lemma_strict_inc_index(lines@, lines@.len() - 1);
        }
    }
    lines
}

/// A raster image together with the cell geometry recovered from its
/// grid lines.
pub struct BoardImage {
    pub image: Image,
    pub cell_width: u32,
    pub cell_height: u32,
    pub grid_width: u32,
    pub grid_height: u32,
}

/// Average gap between consecutive coordinates.
pub open spec fn avg_gap(s: Seq<u32>) -> int
    recommends
        s.len() >= 2,
{
    gap_sum(s) / (s.len() - 1)
}

/// Horizontal pixel coordinate sampled for column `col`: one pixel in
/// from the cell's left border, then a quarter of the cell width.
pub open spec fn sample_x(bi: BoardImage, col: int) -> int {
    1 + col * (bi.cell_width as int + 1) + bi.cell_width as int / 4
}

/// Vertical pixel coordinate sampled for row `row`: one pixel in from
/// the cell's top border, then three quarters of the cell height.
pub open spec fn sample_y(bi: BoardImage, row: int) -> int {
    1 + row * (bi.cell_height as int + 1) + (bi.cell_height as int * 3) / 4
}

/// Every cell's sample point lies inside the image.
pub open spec fn samples_in_bounds(bi: BoardImage) -> bool {
    &&& forall|col: int|
        0 <= col < bi.grid_width ==> #[trigger] sample_x(bi, col) < bi.image.width as int
    &&& forall|row: int|
        0 <= row < bi.grid_height ==> #[trigger] sample_y(bi, row) < bi.image.height as int
}

impl BoardImage {
    /// The geometry is usable: a square grid whose sample points all hit
    /// the image.
    pub open spec fn wf(&self) -> bool {
        &&& self.image.wf()
        &&& self.grid_width == self.grid_height
        &&& samples_in_bounds(*self)
    }
}

/// What grid reconstruction yields on an image: the detected lines of
/// both axes decide between the failure cases and the recovered
/// geometry, in the order the checks are made.
pub open spec fn reconstruct_spec(img: Image) -> Result<BoardImage, BoardError> {
    let hl = detected_lines(img, true);
    let vl = detected_lines(img, false);
    if hl.len() < MIN_GRID_SIZE || vl.len() < MIN_GRID_SIZE {
        Err(
            BoardError::InsufficientLines {
                horizontal: hl.len() as usize,
                vertical: vl.len() as usize,
            },
        )
    } else {
        let cell_height = avg_gap(hl);
        let cell_width = avg_gap(vl);
        if cell_height == 0 || cell_width == 0 {
            Err(BoardError::InvalidCellSize)
        } else {
            let grid_height = hl.len() - 1;
            let grid_width = vl.len() - 1;
            if grid_width != grid_height {
                Err(
                    BoardError::NonSquareGrid {
                        width: grid_width as usize,
                        height: grid_height as usize,
                    },
                )
            } else {
                let bi = BoardImage {
                    image: img,
                    cell_width: cell_width as u32,
                    cell_height: cell_height as u32,
                    grid_width: grid_width as u32,
                    grid_height: grid_height as u32,
                };
                if samples_in_bounds(bi) {
                    Ok(bi)
                } else {
                    Err(BoardError::GridOutsideImage)
                }
            }
        }
    }
}

/// Picks the color of a cell from its samples; the reference sampling
/// takes a single interior point, so the first sample decides.
pub fn detect_dominant_color(colors: &Vec<Rgb>) -> (r: Result<CellColor, BoardError>)
    requires
        colors@.len() >= 1,
    ensures
        r == classify_spec(colors@[0]),
{
    detect_single_color(colors[0])
}

/// The pixel sampled for the cell at `(row, col)`.
pub open spec fn cell_sample(bi: BoardImage, row: int, col: int) -> Rgb {
    bi.image.pix(sample_x(bi, col), sample_y(bi, row))
}

/// The cell's sample is within the acceptance threshold of some
/// reference color.
pub open spec fn cell_classifies(bi: BoardImage, row: int, col: int) -> bool {
    best_dist(cell_sample(bi, row, col)) <= 100
}

/// The region color the cell's sample classifies as.
pub open spec fn cell_color(bi: BoardImage, row: int, col: int) -> CellColor {
    best_color(cell_sample(bi, row, col))
}

/// What reading the board colors yields: the classified board exactly
/// when every cell's sample is near a reference color, else the first
/// failing cell's distance, in row-major order.
pub open spec fn board_colors_post(
    bi: BoardImage,
    r: Result<Vec<Vec<CellColor>>, BoardError>,
) -> bool {
    &&& ((r is Ok) <==> (forall|rr: int, cc: int|
        0 <= rr < bi.grid_height && 0 <= cc < bi.grid_width ==> #[trigger] cell_classifies(
            bi,
            rr,
            cc,
        )))
    &&& (r matches Ok(board) ==> {
        &&& board@.len() == bi.grid_height
        &&& forall|rr: int|
            0 <= rr < bi.grid_height ==> (#[trigger] board@[rr])@.len() == bi.grid_width
        &&& forall|rr: int, cc: int|
            0 <= rr < bi.grid_height && 0 <= cc < bi.grid_width ==> (#[trigger] board@[rr]@[cc])
                == cell_color(bi, rr, cc)
    })
    &&& (r matches Err(e) ==> exists|rr: int, cc: int|
        {
            &&& 0 <= rr < bi.grid_height
            &&& 0 <= cc < bi.grid_width
            &&& !(#[trigger] cell_classifies(bi, rr, cc))
            &&& e == (BoardError::UnrecognizedColor {
                distance: best_dist(cell_sample(bi, rr, cc)) as u32,
            })
            &&& forall|r1: int, c1: int|
                0 <= r1 < bi.grid_height && 0 <= c1 < bi.grid_width && (r1 < rr || (r1 == rr && c1
                    < cc)) ==> #[trigger] cell_classifies(bi, r1, c1)
        })
}

/// Reads one pixel of the image.
pub fn sample_pixel(image: &Image, x: u32, y: u32) -> (p: Rgb)
    requires
        image.wf(),
        x < image.width,
        y < image.height,
    ensures
        p == image.pix(x as int, y as int),
{
    image.get_pixel(x, y)
}

impl BoardImage {
    /// Recovers the cell geometry of a board screenshot: detects the
    /// separator lines of both axes, derives the cell size from their
    /// average gaps, and validates that the grid is square, non-empty
    /// and inside the image.
    pub fn new(image: Image) -> (r: Result<BoardImage, BoardError>)
        requires
            image.wf(),
        ensures
            r == reconstruct_spec(image),
            r matches Ok(bi) ==> bi.wf() && bi.image == image,
    {
        let ghost img0 = image;
        let width = image.width();
        let height = image.height();
        let horizontal_lines = detect_lines(&image, true);
        let vertical_lines = detect_lines(&image, false);
        if horizontal_lines.len() < (MIN_GRID_SIZE as usize) || vertical_lines.len() < (
        MIN_GRID_SIZE as usize) {
            return Err(
                BoardError::InsufficientLines {
                    horizontal: horizontal_lines.len(),
                    vertical: vertical_lines.len(),
                },
            );
        }
        proof {
            lemma_gap_sum_telescopes(horizontal_lines@);
            lemma_gap_sum_telescopes(vertical_lines@);
            lemma_div_pos_is_pos(gap_sum(horizontal_lines@), horizontal_lines@.len() - 1);
            lemma_div_pos_is_pos(gap_sum(vertical_lines@), vertical_lines@.len() - 1);
            lemma_div_is_ordered_by_denominator(
                gap_sum(horizontal_lines@),
                1,
                horizontal_lines@.len() - 1,
            );
            lemma_div_is_ordered_by_denominator(
                gap_sum(vertical_lines@),
                1,
                vertical_lines@.len() - 1,
            );
        }
        let cell_height = calculate_average_gap(&horizontal_lines);
        let cell_width = calculate_average_gap(&vertical_lines);
        if cell_height == 0 || cell_width == 0 {
            return Err(BoardError::InvalidCellSize);
        }
        let grid_height = horizontal_lines.len() - 1;
        let grid_width = vertical_lines.len() - 1;
        if grid_width != grid_height {
            return Err(BoardError::NonSquareGrid { width: grid_width, height: grid_height });
        }
        let gwu: u32 = (grid_width as u64) as u32;
        let gw64: u64 = gwu as u64;
        let cw64: u64 = cell_width as u64;
        let ch64: u64 = cell_height as u64;
        proof {
            assert((gw64 - 1) as int * ((cw64 + 1) as int) <= 0xffff_ffff * 0x1_0000_0000)
                by (nonlinear_arith)
                requires
                    0 <= (gw64 - 1) as int <= 0xffff_ffff,
                    0 <= (cw64 + 1) as int <= 0x1_0000_0000,
            ;
            assert((gw64 - 1) as int * ((ch64 + 1) as int) <= 0xffff_ffff * 0x1_0000_0000)
                by (nonlinear_arith)
                requires
                    0 <= (gw64 - 1) as int <= 0xffff_ffff,
                    0 <= (ch64 + 1) as int <= 0x1_0000_0000,
            ;
        }
        let max_x: u64 = 1 + (gw64 - 1) * (cw64 + 1) + cw64 / 4;
        let max_y: u64 = 1 + (gw64 - 1) * (ch64 + 1) + (ch64 * 3) / 4;
        let result = BoardImage {
            image,
            cell_width,
            cell_height,
            grid_width: gwu,
            grid_height: gwu,
        };
        proof {
            assert(max_x as int == sample_x(result, gw64 as int - 1));
            assert(max_y as int == sample_y(result, gw64 as int - 1));
        }
        if max_x >= (width as u64) || max_y >= (height as u64) {
            proof {
                assert(!samples_in_bounds(result));
            }
            return Err(BoardError::GridOutsideImage);
        }
        proof {
            assert forall|col: int|
                0 <= col < result.grid_width implies #[trigger] sample_x(result, col)
                < result.image.width as int by {
                lemma_mul_inequality(col, gw64 as int - 1, result.cell_width as int + 1);
            }
            assert forall|row: int|
                0 <= row < result.grid_height implies #[trigger] sample_y(result, row)
                < result.image.height as int by {
                lemma_mul_inequality(row, gw64 as int - 1, result.cell_height as int + 1);
            }
        }
        Ok(result)
    }

    /// The pixel samples taken for one cell: the reference sampling reads
    /// a single interior point, a quarter in from the left and a quarter
    /// up from the bottom of the cell.
    pub fn sample_cell_colors(&self, row: u32, col: u32) -> (colors: Vec<Rgb>)
        requires
            self.wf(),
            row < self.grid_height,
            col < self.grid_width,
        ensures
            colors@.len() == 1,
            colors@[0] == cell_sample(*self, row as int, col as int),
    {
        let mut colors: Vec<Rgb> = Vec::new();
        let cw64: u64 = self.cell_width as u64;
        let ch64: u64 = self.cell_height as u64;
        proof {
            assert((col as int) * ((cw64 + 1) as int) <= 0xffff_ffff * 0x1_0000_0000)
                by (nonlinear_arith)
                requires
                    0 <= col as int <= 0xffff_ffff,
                    0 <= (cw64 + 1) as int <= 0x1_0000_0000,
            ;
            assert((row as int) * ((ch64 + 1) as int) <= 0xffff_ffff * 0x1_0000_0000)
                by (nonlinear_arith)
                requires
                    0 <= row as int <= 0xffff_ffff,
                    0 <= (ch64 + 1) as int <= 0x1_0000_0000,
            ;
        }
        // one pixel in from the cell border, so the line itself is never
        // sampled
        let cell_x: u64 = 1 + (col as u64) * (cw64 + 1);
        let cell_y: u64 = 1 + (row as u64) * (ch64 + 1);
        let center_x: u64 = cell_x + cw64 / 4;
        let center_y: u64 = cell_y + (ch64 * 3) / 4;
        proof {
            assert(center_x as int == sample_x(*self, col as int));
            assert(center_y as int == sample_y(*self, row as int));
            assert(sample_x(*self, col as int) < self.image.width as int);
            assert(sample_y(*self, row as int) < self.image.height as int);
        }
        colors.push(sample_pixel(&self.image, center_x as u32, center_y as u32));
        colors
    }

    /// Classifies every cell's sample into the region-label board, row
    /// major. The first sample that matches no reference color within
    /// the threshold is reported as the failure, with its distance.
    pub fn get_board_colors(&self) -> (r: Result<Vec<Vec<CellColor>>, BoardError>)
        requires
            self.wf(),
        ensures
            board_colors_post(*self, r),
    {
        let mut board: Vec<Vec<CellColor>> = Vec::new();
        let mut row: u32 = 0;
        while row < self.grid_height
            invariant
                self.wf(),
                row <= self.grid_height,
                board@.len() == row,
                forall|rr: int|
                    0 <= rr < row ==> (#[trigger] board@[rr])@.len() == self.grid_width,
                forall|rr: int, cc: int|
                    0 <= rr < row && 0 <= cc < self.grid_width ==> (#[trigger] board@[rr]@[cc])
                        == cell_color(*self, rr, cc),
                forall|rr: int, cc: int|
                    0 <= rr < row && 0 <= cc < self.grid_width
                        ==> #[trigger] cell_classifies(*self, rr, cc),
            decreases self.grid_height - row,
        {
            let mut out_row: Vec<CellColor> = Vec::new();
            let mut col: u32 = 0;
            while col < self.grid_width
                invariant
                    self.wf(),
                    row < self.grid_height,
                    col <= self.grid_width,
                    board@.len() == row,
                    forall|rr: int|
                        0 <= rr < row ==> (#[trigger] board@[rr])@.len() == self.grid_width,
                    forall|rr: int, cc: int|
                        0 <= rr < row && 0 <= cc < self.grid_width ==> (#[trigger] board@[rr]@[cc])
                            == cell_color(*self, rr, cc),
                    forall|rr: int, cc: int|
                        0 <= rr < row && 0 <= cc < self.grid_width
                            ==> #[trigger] cell_classifies(*self, rr, cc),
                    out_row@.len() == col,
                    forall|cc: int|
                        0 <= cc < col ==> (#[trigger] out_row@[cc]) == cell_color(
                            *self,
                            row as int,
                            cc,
                        ),
                    forall|cc: int|
                        0 <= cc < col ==> #[trigger] cell_classifies(*self, row as int, cc),
                decreases self.grid_width - col,
            {
                let cell_colors = self.sample_cell_colors(row, col);
                match detect_dominant_color(&cell_colors) {
                    Ok(c) => {
                        out_row.push(c);
                    },
                    Err(e) => {
                        proof {
                            let rr = row as int;
                            let cc = col as int;
                            assert(!cell_classifies(*self, rr, cc));
                            assert(e == (BoardError::UnrecognizedColor {
                                distance: best_dist(cell_sample(*self, rr, cc)) as u32,
                            }));
                            assert forall|r1: int, c1: int|
                                0 <= r1 < self.grid_height && 0 <= c1 < self.grid_width && (r1 < rr
                                    || (r1 == rr && c1 < cc)) implies #[trigger] cell_classifies(
                                *self,
                                r1,
                                c1,
                            ) by {}
                            assert(exists|r2: int, c2: int|
                                {
                                    &&& 0 <= r2 < self.grid_height
                                    &&& 0 <= c2 < self.grid_width
                                    &&& !(#[trigger] cell_classifies(*self, r2, c2))
                                    &&& e == (BoardError::UnrecognizedColor {
                                        distance: best_dist(cell_sample(*self, r2, c2)) as u32,
                                    })
                                    &&& forall|r1: int, c1: int|
                                        0 <= r1 < self.grid_height && 0 <= c1 < self.grid_width
                                            && (r1 < r2 || (r1 == r2 && c1 < c2))
                                            ==> #[trigger] cell_classifies(*self, r1, c1)
                                });
                        }
                        return Err(e);
                    },
                }
                col = col + 1;
            }
            board.push(out_row);
            row = row + 1;
        }
        Ok(board)
    }
}

/// Turns a decoded screenshot into the region-label board: grid
/// recovery, then per-cell classification.
pub fn process_image(image: Image) -> (r: Result<Vec<Vec<CellColor>>, BoardError>)
    requires
        image.wf(),
    ensures
        reconstruct_spec(image) matches Err(e) ==> r == Err::<Vec<Vec<CellColor>>, BoardError>(e),
        reconstruct_spec(image) matches Ok(bi) ==> board_colors_post(bi, r),
{
    let board_image = match BoardImage::new(image) {
        Ok(bi) => bi,
        Err(e) => {
            return Err(e);
        },
    };
    board_image.get_board_colors()
}

} // verus!
