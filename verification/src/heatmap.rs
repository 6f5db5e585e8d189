//! The activity heatmap: an RGB canvas with rectangle drawing and PNG
//! encoding, the ranking of the rows shown, and the picture's layout.

use vstd::prelude::*;

use crate::activity::{hours_sum, sums_fit, ActivityRow, ActivityRowModel};
use crate::sorting::{
    law_sort_keeps_ties, law_sort_permutes, law_sort_sorted, lemma_insert_index, sort_stable,
    strict_order, strict_weak_order, tied_with,
};
use crate::text::{
    append_chars, append_str, chars_of, int_chars, int_text, lemma_text_lt_irreflexive,
    lemma_text_lt_total, lemma_text_lt_transitive, string_of, text_less, text_lt,
};

verus! {

/// Width of one hour's cell.
pub const CELL_W: u32 = 50;
/// Height of one server's row.
pub const CELL_H: u32 = 30;
/// Margin left of the grid.
pub const LEFT: u32 = 50;
/// Room right of the grid, where the server names go.
pub const RIGHT: u32 = 550;
/// Margin above the grid.
pub const TOP: u32 = 25;
/// Room below the grid, where the hours go.
pub const BOTTOM: u32 = 25;
/// How many servers the heatmap shows at most.
pub const MAX_SERVERS: usize = 50;

/// An RGB image, 8 bits a channel, rows top to bottom, white when made.
pub struct Canvas {
    width: u32,
    height: u32,
    px: Vec<u8>,
}

/// A canvas as its size and its bytes, three per pixel, row after row.
pub struct CanvasModel {
    pub width: u32,
    pub height: u32,
    pub px: Seq<u8>,
}

impl View for Canvas {
    type V = CanvasModel;

    closed spec fn view(&self) -> CanvasModel {
        CanvasModel { width: self.width, height: self.height, px: self.px@ }
    }
}

/// The byte offset of pixel (`x`, `y`) in a canvas `w` pixels wide.
pub open spec fn pixel_index(w: int, x: int, y: int) -> int {
    (y * w + x) * 3
}

/// The column of the pixel that byte `i` belongs to.
pub open spec fn byte_col(w: int, i: int) -> int {
    (i / 3) % w
}

/// The row of the pixel that byte `i` belongs to.
pub open spec fn byte_row(w: int, i: int) -> int {
    (i / 3) / w
}

/// The clipped pixel box `[x1, x2) x [y1, y2)` that a rectangle covers.
pub open spec fn rect_box(w: u32, h: u32, x: u32, y: u32, rw: u32, rh: u32) -> (int, int, int, int) {
    let x2 = if x + rw > u32::MAX { u32::MAX as int } else { x + rw };
    let y2 = if y + rh > u32::MAX { u32::MAX as int } else { y + rh };
    (
        if x < w { x as int } else { w as int },
        if y < h { y as int } else { h as int },
        if x2 < w { x2 } else { w as int },
        if y2 < h { y2 } else { h as int },
    )
}

pub open spec fn in_box(b: (int, int, int, int), x: int, y: int) -> bool {
    b.0 <= x < b.2 && b.1 <= y < b.3
}

impl CanvasModel {
    /// The size fits the bytes: three for each pixel.
    pub open spec fn wf(self) -> bool {
        self.px.len() == (self.width as int) * (self.height as int) * 3
    }

    /// The three bytes of pixel (`x`, `y`).
    pub open spec fn pixel(self, x: int, y: int) -> Seq<u8> {
        self.px.subrange(pixel_index(self.width as int, x, y), pixel_index(self.width as int, x, y) + 3)
    }

    /// The canvas with every pixel of the clipped box painted `color`.
    pub open spec fn paint_box(self, b: (int, int, int, int), color: Seq<u8>) -> CanvasModel {
        CanvasModel {
            width: self.width,
            height: self.height,
            px: Seq::new(
                self.px.len(),
                |i: int|
                    if in_box(b, byte_col(self.width as int, i), byte_row(self.width as int, i)) {
                        color[i % 3]
                    } else {
                        self.px[i]
                    },
            ),
        }
    }

    /// `fill_rect`: the rectangle at (`x`, `y`) of `rw` by `rh` pixels,
    /// clipped to the canvas, painted `color`.
    pub open spec fn filled(self, x: u32, y: u32, rw: u32, rh: u32, color: Seq<u8>) -> CanvasModel {
        self.paint_box(rect_box(self.width, self.height, x, y, rw, rh), color)
    }

    /// `stroke_rect`: the one-pixel outline of the rectangle, top, bottom,
    /// left and right edges in turn; nothing for an empty rectangle.
    pub open spec fn stroked(self, x: u32, y: u32, rw: u32, rh: u32, color: Seq<u8>) -> CanvasModel {
        if rw == 0 || rh == 0 {
            self
        } else {
            let a = self.filled(x, y, rw, 1, color);
            let b = if rh > 1 { a.filled(x, (y + rh - 1) as u32, rw, 1, color) } else { a };
            let c = b.filled(x, y, 1, rh, color);
            if rw > 1 { c.filled((x + rw - 1) as u32, y, 1, rh, color) } else { c }
        }
    }

    /// `set_pixel`: pixel (`x`, `y`) set to `color` when it lies on the
    /// canvas; otherwise nothing changes.
    pub open spec fn put(self, x: int, y: int, color: Seq<u8>) -> CanvasModel {
        if 0 <= x < self.width && 0 <= y < self.height {
            self.paint_box((x, y, x + 1, y + 1), color)
        } else {
            self
        }
    }
}

/// The parts of a byte offset: byte `i` is channel `i % 3` of the pixel in
/// column `byte_col` and row `byte_row`.
proof fn lemma_byte_parts(w: int, i: int)
    requires
        w > 0,
        i >= 0,
    ensures
        0 <= byte_col(w, i) < w,
        0 <= byte_row(w, i),
        0 <= i % 3 < 3,
        i == pixel_index(w, byte_col(w, i), byte_row(w, i)) + i % 3,
{
    let p = i / 3;
    vstd::arithmetic::div_mod::lemma_fundamental_div_mod(i, 3);
    vstd::arithmetic::div_mod::lemma_fundamental_div_mod(p, w);
    vstd::arithmetic::div_mod::lemma_mod_bound(i, 3);
    vstd::arithmetic::div_mod::lemma_mod_bound(p, w);
    assert(p >= 0) by {
        vstd::arithmetic::div_mod::lemma_div_pos_is_pos(i, 3);
    }
    assert(p / w >= 0) by {
        vstd::arithmetic::div_mod::lemma_div_pos_is_pos(p, w);
    }
    assert(i == (p / w * w + p % w) * 3 + i % 3) by (nonlinear_arith)
        requires
            i == 3 * p + i % 3,
            p == w * (p / w) + p % w,
    ;
}

/// The byte `k` of pixel (`x`, `y`) has that column, row and channel.
proof fn lemma_pixel_parts(w: int, x: int, y: int, k: int)
    requires
        0 <= x < w,
        0 <= y,
        0 <= k < 3,
    ensures
        byte_col(w, pixel_index(w, x, y) + k) == x,
        byte_row(w, pixel_index(w, x, y) + k) == y,
        (pixel_index(w, x, y) + k) % 3 == k,
{
    assert(y * w + x >= 0) by (nonlinear_arith)
        requires
            0 <= x < w,
            0 <= y,
    ;
    vstd::arithmetic::div_mod::lemma_fundamental_div_mod_converse(pixel_index(w, x, y) + k, 3, y * w + x, k);
    vstd::arithmetic::div_mod::lemma_fundamental_div_mod_converse(y * w + x, w, y, x);
}

/// A pixel of a `w` by `h` canvas lies inside its bytes.
proof fn lemma_pixel_in_bounds(w: int, h: int, x: int, y: int)
    requires
        0 <= x < w,
        0 <= y < h,
    ensures
        0 <= y * w,
        0 <= pixel_index(w, x, y),
        pixel_index(w, x, y) + 3 <= w * h * 3,
{
    assert(0 <= y * w && 0 <= (y * w + x) * 3 && (y * w + x) * 3 + 3 <= w * h * 3) by (nonlinear_arith)
        requires
            0 <= x < w,
            0 <= y < h,
    ;
}

impl Canvas {
    /// A white canvas of `width` by `height` pixels.
    pub fn new(width: u32, height: u32) -> (r: Canvas)
        requires
            (width as int) * (height as int) * 3 <= usize::MAX,
        ensures
            r@.width == width,
            r@.height == height,
            r@.px == Seq::new((width as int * height as int * 3) as nat, |i: int| 255u8),
    {
        let n: usize = (width as usize) * (height as usize) * 3;
        let mut px: Vec<u8> = Vec::new();
        while px.len() < n
            invariant
                px.len() <= n,
                forall|i: int| 0 <= i < px.len() ==> px@[i] == 255u8,
            decreases n - px.len(),
        {
            px.push(255u8);
        }
        let r = Canvas { width, height, px };
        assert(r@.px =~= Seq::new((width as int * height as int * 3) as nat, |i: int| 255u8));
        r
    }

    pub fn width(&self) -> (r: u32)
        ensures
            r == self@.width,
    {
        self.width
    }

    pub fn height(&self) -> (r: u32)
        ensures
            r == self@.height,
    {
        self.height
    }

    /// The canvas's bytes, three per pixel, row after row.
    pub fn bytes(&self) -> (r: &[u8])
        ensures
            r@ == self@.px,
    {
        self.px.as_slice()
    }

    /// The colour of pixel (`x`, `y`).
    pub fn pixel(&self, x: u32, y: u32) -> (r: [u8; 3])
        requires
            self@.wf(),
            x < self@.width,
            y < self@.height,
        ensures
            r@ == self@.pixel(x as int, y as int),
    {
        proof { lemma_pixel_in_bounds(self.width as int, self.height as int, x as int, y as int); }
        let yu = y as usize;
        let wu = self.width as usize;
        assert(yu * wu <= self.px.len());
        let i: usize = (yu * wu + (x as usize)) * 3;
        let r = [self.px[i], self.px[i + 1], self.px[i + 2]];
        assert(r@ =~= self@.pixel(x as int, y as int));
        r
    }

    /// Paints the pixels of box `b` (within the canvas) with `color`.
    fn paint(&mut self, b: (u32, u32, u32, u32), color: [u8; 3])
        requires
            old(self)@.wf(),
            b.0 <= b.2 <= old(self)@.width,
            b.1 <= b.3 <= old(self)@.height,
        ensures
            final(self)@ == old(self)@.paint_box((b.0 as int, b.1 as int, b.2 as int, b.3 as int), color@),
    {
        let ghost m = self@;
        let ghost bx = (b.0 as int, b.1 as int, b.2 as int, b.3 as int);
        let ghost w = self.width as int;
        let ghost h = self.height as int;
        let mut yy: u32 = b.1;
        while yy < b.3
            invariant
                m.wf(),
                bx == (b.0 as int, b.1 as int, b.2 as int, b.3 as int),
                self@.width == m.width,
                self@.height == m.height,
                w == m.width,
                h == m.height,
                b.1 <= yy <= b.3 <= m.height,
                b.0 <= b.2 <= m.width,
                self@.px.len() == m.px.len(),
                forall|i: int|
                    0 <= i < m.px.len() ==> #[trigger] self@.px[i] == if in_box(
                        (bx.0, bx.1, bx.2, yy as int),
                        byte_col(w, i),
                        byte_row(w, i),
                    ) {
                        color@[i % 3]
                    } else {
                        m.px[i]
                    },
            decreases b.3 - yy,
        {
            let mut xx: u32 = b.0;
            while xx < b.2
                invariant
                    m.wf(),
                    bx == (b.0 as int, b.1 as int, b.2 as int, b.3 as int),
                    self@.width == m.width,
                    self@.height == m.height,
                    w == m.width,
                    h == m.height,
                    b.1 <= yy < b.3 <= m.height,
                    b.0 <= xx <= b.2 <= m.width,
                    self@.px.len() == m.px.len(),
                    forall|i: int|
                        0 <= i < m.px.len() ==> #[trigger] self@.px[i] == if in_box(
                            (bx.0, bx.1, bx.2, yy as int),
                            byte_col(w, i),
                            byte_row(w, i),
                        ) || (byte_row(w, i) == yy && bx.0 <= byte_col(w, i) < xx) {
                            color@[i % 3]
                        } else {
                            m.px[i]
                        },
                decreases b.2 - xx,
            {
                proof { lemma_pixel_in_bounds(w, h, xx as int, yy as int); }
                let yu = yy as usize;
                let wu = self.width as usize;
                assert(yu * wu <= self.px.len());
                let i: usize = (yu * wu + (xx as usize)) * 3;
                let ghost before = self@.px;
                self.px.set(i, color[0]);
                self.px.set(i + 1, color[1]);
                self.px.set(i + 2, color[2]);
                proof {
                    assert forall|j: int| 0 <= j < m.px.len() implies #[trigger] self@.px[j] == if in_box(
                        (bx.0, bx.1, bx.2, yy as int),
                        byte_col(w, j),
                        byte_row(w, j),
                    ) || (byte_row(w, j) == yy && bx.0 <= byte_col(w, j) < xx + 1) {
                        color@[j % 3]
                    } else {
                        m.px[j]
                    } by {
                        lemma_byte_parts(w, j);
                        lemma_pixel_parts(w, xx as int, yy as int, 0);
                        lemma_pixel_parts(w, xx as int, yy as int, 1);
                        lemma_pixel_parts(w, xx as int, yy as int, 2);
                        if j == i || j == i + 1 || j == i + 2 {
                        } else {
                            assert(self@.px[j] == before[j]);
                            if byte_row(w, j) == yy && byte_col(w, j) == xx {
                                assert(j == pixel_index(w, xx as int, yy as int) + j % 3);
                            }
                        }
                    }
                }
                xx += 1;
            }
            proof {
                assert forall|j: int| 0 <= j < m.px.len() implies #[trigger] self@.px[j] == if in_box(
                    (bx.0, bx.1, bx.2, yy + 1),
                    byte_col(w, j),
                    byte_row(w, j),
                ) {
                    color@[j % 3]
                } else {
                    m.px[j]
                } by {
                    lemma_byte_parts(w, j);
                }
            }
            yy += 1;
        }
        proof {
            assert(self@.px =~= m.paint_box(bx, color@).px);
        }
    }

    /// The clipped box of a rectangle, in pixels.
    fn clip(&self, x: u32, y: u32, rw: u32, rh: u32) -> (r: (u32, u32, u32, u32))
        ensures
            (r.0 as int, r.1 as int, r.2 as int, r.3 as int) == rect_box(self@.width, self@.height, x, y, rw, rh),
            r.0 <= r.2 <= self@.width,
            r.1 <= r.3 <= self@.height,
    {
        let x1 = if x < self.width { x } else { self.width };
        let y1 = if y < self.height { y } else { self.height };
        let xe = x.saturating_add(rw);
        let ye = y.saturating_add(rh);
        let x2 = if xe < self.width { xe } else { self.width };
        let y2 = if ye < self.height { ye } else { self.height };
        (x1, y1, if x2 < x1 { x1 } else { x2 }, if y2 < y1 { y1 } else { y2 })
    }

    /// Paints the rectangle at (`x`, `y`) of `rw` by `rh` pixels, clipped
    /// to the canvas.
    pub fn fill_rect(&mut self, x: u32, y: u32, rw: u32, rh: u32, color: [u8; 3])
        requires
            old(self)@.wf(),
        ensures
            final(self)@ == old(self)@.filled(x, y, rw, rh, color@),
            final(self)@.wf(),
    {
        let b = self.clip(x, y, rw, rh);
        let ghost m = self@;
        self.paint(b, color);
        proof {
            let rb = rect_box(m.width, m.height, x, y, rw, rh);
            assert(m.paint_box((b.0 as int, b.1 as int, b.2 as int, b.3 as int), color@).px =~= m.paint_box(rb, color@).px);
        }
    }

    /// Draws the one-pixel outline of the rectangle at (`x`, `y`) of `rw`
    /// by `rh` pixels.
    pub fn stroke_rect(&mut self, x: u32, y: u32, rw: u32, rh: u32, color: [u8; 3])
        requires
            old(self)@.wf(),
            rh > 1 ==> y + rh <= u32::MAX,
            rw > 1 ==> x + rw <= u32::MAX,
        ensures
            final(self)@ == old(self)@.stroked(x, y, rw, rh, color@),
            final(self)@.wf(),
    {
        if rw == 0 || rh == 0 {
            return;
        }
        self.fill_rect(x, y, rw, 1, color);
        if rh > 1 {
            self.fill_rect(x, y + rh - 1, rw, 1, color);
        }
        self.fill_rect(x, y, 1, rh, color);
        if rw > 1 {
            self.fill_rect(x + rw - 1, y, 1, rh, color);
        }
    }

    /// Sets pixel (`x`, `y`) to `color`; a pixel off the canvas is ignored.
    pub fn set_pixel(&mut self, x: i32, y: i32, color: [u8; 3])
        requires
            old(self)@.wf(),
        ensures
            final(self)@ == old(self)@.put(x as int, y as int, color@),
            final(self)@.wf(),
    {
        if x < 0 || y < 0 {
            return;
        }
        let ux = x as u32;
        let uy = y as u32;
        if ux >= self.width || uy >= self.height {
            return;
        }
        self.paint((ux, uy, ux + 1, uy + 1), color);
    }

    /// The canvas as a PNG file: 8-bit RGB, `png`'s default compression.
    pub fn encode_png(&self) -> (r: Result<Vec<u8>, HeatmapError>)
        requires
            self@.wf(),
        ensures
            match r {
                Ok(b) => b@ == png_rgb8(self@.width, self@.height, self@.px),
                Err(e) => e == HeatmapError::EmptyImage && (self@.width == 0 || self@.height == 0),
            },
            r is Ok <==> (self@.width > 0 && self@.height > 0),
    {
        match encode_rgb8(self.width, self.height, self.px.as_slice()) {
            Ok(b) => Ok(b),
            Err(_) => Err(HeatmapError::EmptyImage),
        }
    }
}

pub open spec fn rows_view(v: Seq<ActivityRow>) -> Seq<ActivityRowModel> {
    v.map_values(|r: ActivityRow| r@)
}

/// Every row's running sums fit in an `i64`, so its total can be taken.
pub open spec fn rows_fit(rows: Seq<ActivityRowModel>) -> bool {
    forall|j: int| 0 <= j < rows.len() ==> sums_fit(#[trigger] rows[j].hours)
}

/// The heatmap's order: busier servers first, then names from low to high.
pub open spec fn row_before(x: ActivityRowModel, a: ActivityRowModel) -> bool {
    hours_sum(x.hours) > hours_sum(a.hours) || (hours_sum(x.hours) == hours_sum(a.hours) && text_lt(
        x.name,
        a.name,
    ))
}

pub open spec fn row_order() -> spec_fn(ActivityRowModel, ActivityRowModel) -> bool {
    |x: ActivityRowModel, a: ActivityRowModel| row_before(x, a)
}

/// The rows the heatmap shows: all of them in heatmap order, cut to the
/// first `MAX_SERVERS`.
pub open spec fn spec_rank(rows: Seq<ActivityRowModel>) -> Seq<ActivityRowModel> {
    let s = sort_stable(rows, row_order());
    if s.len() > MAX_SERVERS {
        s.take(MAX_SERVERS as int)
    } else {
        s
    }
}

/// The rows to draw, in drawing order (a stable sort: rows that tie keep
/// their stored order).
pub fn rank_rows(rows: Vec<ActivityRow>) -> (r: Vec<ActivityRow>)
    requires
        rows_fit(rows_view(rows@)),
    ensures
        rows_view(r@) == spec_rank(rows_view(rows@)),
{
    let ghost orig = rows@;
    let ghost ov = rows_view(rows@);
    let n = rows.len();
    let mut rest = rows;
    let mut out: Vec<ActivityRow> = Vec::new();
    let mut k: usize = 0;
    assert(ov.take(0) =~= Seq::<ActivityRowModel>::empty());
    assert(orig.skip(0) =~= orig);
    while k < n
        invariant
            n == orig.len(),
            ov == rows_view(orig),
            rows_fit(ov),
            k <= n,
            rest@ == orig.skip(k as int),
            rows_view(out@) == sort_stable(ov.take(k as int), row_order()),
            forall|j: int| 0 <= j < out@.len() ==> sums_fit(#[trigger] out@[j]@.hours),
        decreases n - k,
    {
        let x = rest.remove(0);
        assert(x == orig[k as int]);
        assert(x@ == ov[k as int]);
        let ghost t = ov.take(k + 1);
        assert(t.drop_last() =~= ov.take(k as int));
        assert(t.last() == x@);
        assert(rest@ =~= orig.skip(k + 1));
        assert(sums_fit(ov[k as int].hours));
        let xt = x.total();
        let xn = chars_of(x.name.as_str());
        let ghost sorted = rows_view(out@);
        let mut i: usize = 0;
        loop
            invariant
                i <= out.len(),
                sorted == rows_view(out@),
                xn@ == x.name@,
                xt == hours_sum(x.hours@),
                forall|j: int| 0 <= j < out@.len() ==> sums_fit(#[trigger] out@[j]@.hours),
                forall|j: int| 0 <= j < i ==> !row_before(x@, #[trigger] sorted[j]),
            ensures
                i <= out.len(),
                sorted == rows_view(out@),
                forall|j: int| 0 <= j < i ==> !row_before(x@, #[trigger] sorted[j]),
                i == out.len() || row_before(x@, sorted[i as int]),
            decreases out.len() - i,
        {
            if i == out.len() {
                break;
            }
            let a: &ActivityRow = &out[i];
            assert(sorted[i as int] == a@);
            assert(sums_fit(out@[i as int]@.hours));
            let at = a.total();
            let an = chars_of(a.name.as_str());
            let goes = xt > at || (xt == at && text_less(&xn, &an));
            if goes {
                break;
            }
            i += 1;
        }
        proof {
            if i < out.len() {
                assert(sorted[i as int] == out@[i as int]@);
            }
            lemma_insert_index(sorted, x@, row_order(), i as int);
        }
        let ghost xv = x@;
        let ghost before_out = out@;
        out.insert(i, x);
        assert(rows_view(out@) =~= sorted.insert(i as int, xv));
        assert forall|j: int| 0 <= j < out@.len() implies sums_fit(#[trigger] out@[j]@.hours) by {
            if j < i {
                assert(out@[j] == before_out[j]);
            } else if j > i {
                assert(out@[j] == before_out[j - 1]);
            }
        }
        k += 1;
    }
    assert(ov.take(n as int) =~= ov);
    out.truncate(MAX_SERVERS);
    proof {
        crate::sorting::lemma_sort_stable_len(ov, row_order());
    }
    assert(rows_view(out@) =~= spec_rank(ov));
    out
}

/// The largest of the counts of all hours of all rows, and 0 when there
/// is none or all are negative.
pub open spec fn counts_max(h: Seq<i64>) -> int
    decreases h.len(),
{
    if h.len() == 0 {
        0
    } else if counts_max(h.drop_last()) < h.last() {
        h.last() as int
    } else {
        counts_max(h.drop_last())
    }
}

pub open spec fn rows_max(rows: Seq<ActivityRowModel>) -> int
    decreases rows.len(),
{
    if rows.len() == 0 {
        0
    } else {
        let m = rows_max(rows.drop_last());
        let c = counts_max(rows.last().hours);
        if m < c { c } else { m }
    }
}

/// The count that gets the strongest colour.
pub fn max_value(rows: &[ActivityRow]) -> (r: i64)
    ensures
        r == rows_max(rows_view(rows@)),
{
    let ghost rv = rows_view(rows@);
    let mut best: i64 = 0;
    let mut k: usize = 0;
    assert(rv.take(0) =~= Seq::<ActivityRowModel>::empty());
    while k < rows.len()
        invariant
            rv == rows_view(rows@),
            k <= rows.len(),
            best == rows_max(rv.take(k as int)),
        decreases rows.len() - k,
    {
        let row = &rows[k];
        let ghost t = rv.take(k + 1);
        assert(t.drop_last() =~= rv.take(k as int));
        assert(t.last() == row@);
        let ghost h = row.hours@;
        let mut c: i64 = 0;
        let mut j: usize = 0;
        assert(h.take(0) =~= Seq::<i64>::empty());
        while j < 24
            invariant
                h == row.hours@,
                h.len() == 24,
                j <= 24,
                c == counts_max(h.take(j as int)),
            decreases 24 - j,
        {
            assert(h.take(j + 1).drop_last() =~= h.take(j as int));
            if c < row.hours[j] {
                c = row.hours[j];
            }
            j += 1;
        }
        assert(h.take(24) =~= h);
        if best < c {
            best = c;
        }
        k += 1;
    }
    assert(rv.take(rows.len() as int) =~= rv);
    best
}

/// The size of a heatmap of `n` rows: the 24 hour columns with the
/// margins, the rows with room above and below.
pub fn canvas_size(n: u32) -> (r: (u32, u32))
    requires
        n * CELL_H + TOP + BOTTOM <= u32::MAX,
    ensures
        r.0 == 24 * CELL_W + LEFT + RIGHT,
        r.1 == n * CELL_H + TOP + BOTTOM,
{
    (24 * CELL_W + LEFT + RIGHT, n * CELL_H + TOP + BOTTOM)
}

/// Where the name of the `i`-th row (from 0) is written.
pub fn name_origin(i: u32) -> (r: (u32, u32))
    requires
        i * CELL_H + TOP + 8 <= u32::MAX,
    ensures
        r.0 == LEFT + 24 * CELL_W + 10,
        r.1 == TOP + i * CELL_H + 8,
{
    (LEFT + 24 * CELL_W + 10, TOP + i * CELL_H + 8)
}

/// Where the label of `hour` is written on a heatmap `height` pixels high.
pub fn hour_origin(hour: u32, height: u32) -> (r: (u32, u32))
    requires
        hour * CELL_W + LEFT + 5 <= u32::MAX,
        height >= BOTTOM,
    ensures
        r.0 == LEFT + hour * CELL_W + 5,
        r.1 == height - BOTTOM + 6,
{
    (LEFT + hour * CELL_W + 5, height - BOTTOM + 6)
}

/// The top left corner of the cell of row `i` and `hour`.
pub fn cell_origin(i: u32, hour: u32) -> (r: (u32, u32))
    requires
        hour * CELL_W + LEFT <= u32::MAX,
        i * CELL_H + TOP <= u32::MAX,
    ensures
        r.0 == LEFT + hour * CELL_W,
        r.1 == TOP + i * CELL_H,
{
    (LEFT + hour * CELL_W, TOP + i * CELL_H)
}

/// The name label of the `i`-th row (from 0): `#<rank>: <name>`.
pub open spec fn spec_row_label(i: int, name: Seq<char>) -> Seq<char> {
    seq!['#'] + int_text(i + 1) + ": "@ + name
}

pub fn row_label(i: u32, name: &str) -> (r: String)
    ensures
        r@ == spec_row_label(i as int, name@),
{
    let mut v: Vec<char> = Vec::new();
    v.push('#');
    append_chars(&mut v, &int_chars(i as i64 + 1));
    append_str(&mut v, ": ");
    append_str(&mut v, name);
    assert(v@ =~= spec_row_label(i as int, name@));
    string_of(&v)
}

/// The label under an hour's column: `hh:00`, the last one followed by
/// the note on the time zone.
pub open spec fn spec_hour_label(hour: int) -> Seq<char> {
    if hour == 23 {
        crate::qfont::two_digits(hour) + ":00                              All times are UTC / press F5 to refresh"@
    } else {
        crate::qfont::two_digits(hour) + ":00"@
    }
}

pub fn hour_label(hour: u32) -> (r: String)
    ensures
        r@ == spec_hour_label(hour as int),
{
    let mut v: Vec<char> = Vec::new();
    if hour < 10 {
        v.push('0');
    }
    append_chars(&mut v, &int_chars(hour as i64));
    assert(v@ =~= crate::qfont::two_digits(hour as int));
    if hour == 23 {
        append_str(&mut v, ":00                              All times are UTC / press F5 to refresh");
    } else {
        append_str(&mut v, ":00");
    }
    string_of(&v)
}

/// The grey of the cell borders.
pub open spec fn border_gray() -> Seq<u8> {
    seq![200u8, 200u8, 200u8]
}

/// Draws the cell of row `i` and `hour`: filled with `color`, outlined in
/// grey.
pub fn paint_cell(canvas: &mut Canvas, i: u32, hour: u32, color: [u8; 3])
    requires
        old(canvas)@.wf(),
        hour * CELL_W + LEFT + CELL_W <= u32::MAX,
        i * CELL_H + TOP + CELL_H <= u32::MAX,
    ensures
        final(canvas)@.wf(),
        final(canvas)@ == old(canvas)@.filled(
            (LEFT + hour * CELL_W) as u32,
            (TOP + i * CELL_H) as u32,
            CELL_W,
            CELL_H,
            color@,
        ).stroked((LEFT + hour * CELL_W) as u32, (TOP + i * CELL_H) as u32, CELL_W, CELL_H, border_gray()),
{
    let (x, y) = cell_origin(i, hour);
    canvas.fill_rect(x, y, CELL_W, CELL_H, color);
    let gray: [u8; 3] = [200, 200, 200];
    assert(gray@ =~= border_gray());
    canvas.stroke_rect(x, y, CELL_W, CELL_H, gray);
}

/// The heatmap order is a strict order.
pub proof fn law_row_order_strict()
    ensures
        strict_order(row_order()),
{
    assert forall|a: ActivityRowModel| !#[trigger] row_order()(a, a) by {
        lemma_text_lt_irreflexive(a.name);
    }
    assert forall|a: ActivityRowModel, b: ActivityRowModel, c: ActivityRowModel|
        #[trigger] row_order()(a, b) && #[trigger] row_order()(b, c) implies row_order()(a, c) by {
        if hours_sum(a.hours) == hours_sum(b.hours) && hours_sum(b.hours) == hours_sum(c.hours) {
            lemma_text_lt_transitive(a.name, b.name, c.name);
        }
    }
}

/// The heatmap order ranks rows: rows that neither comes before the other
/// are ranked the same.
pub proof fn law_row_order_ranks()
    ensures
        strict_weak_order(row_order()),
{
    law_row_order_strict();
    assert forall|a: ActivityRowModel, b: ActivityRowModel, c: ActivityRowModel|
        #[trigger] row_order()(a, c) implies row_order()(a, b) || #[trigger] row_order()(b, c) by {
        if hours_sum(a.hours) == hours_sum(b.hours) && hours_sum(b.hours) == hours_sum(c.hours)
            && !text_lt(a.name, b.name) && !text_lt(b.name, c.name) {
            if a.name != b.name {
                lemma_text_lt_total(a.name, b.name);
                if c.name != b.name {
                    lemma_text_lt_total(c.name, b.name);
                    lemma_text_lt_transitive(c.name, b.name, a.name);
                    lemma_text_lt_transitive(a.name, c.name, a.name);
                } else {
                    lemma_text_lt_transitive(a.name, b.name, a.name);
                }
                lemma_text_lt_irreflexive(a.name);
            }
        }
    }
}

/// Rows ranked the same as any row `c` (as busy, the same name) are
/// ranked in the order they are stored.
pub proof fn law_rank_keeps_ties(rows: Seq<ActivityRowModel>, c: ActivityRowModel)
    ensures
        sort_stable(rows, row_order()).filter(tied_with(row_order(), c)) == rows.filter(
            tied_with(row_order(), c),
        ),
{
    law_row_order_ranks();
    law_sort_keeps_ties(rows, row_order(), c);
}

/// The heatmap shows at most `MAX_SERVERS` of the stored rows, each at
/// most once and only rows that are stored, busiest first and, among rows
/// as busy, names from low to high.
pub proof fn law_rank(rows: Seq<ActivityRowModel>)
    ensures
        spec_rank(rows).len() == if rows.len() > MAX_SERVERS { MAX_SERVERS as int } else { rows.len() as int },
        spec_rank(rows).to_multiset().subset_of(rows.to_multiset()),
        forall|i: int, j: int|
            0 <= i < j < spec_rank(rows).len() ==> {
                let a = #[trigger] spec_rank(rows)[i];
                let b = #[trigger] spec_rank(rows)[j];
                hours_sum(a.hours) >= hours_sum(b.hours) && (hours_sum(a.hours) == hours_sum(b.hours)
                    ==> !text_lt(b.name, a.name))
            },
{
    broadcast use vstd::seq_lib::group_to_multiset_ensures;

    let s = sort_stable(rows, row_order());
    crate::sorting::lemma_sort_stable_len(rows, row_order());
    law_sort_permutes(rows, row_order());
    law_row_order_strict();
    law_sort_sorted(rows, row_order());
    let r = spec_rank(rows);
    if s.len() > MAX_SERVERS {
        vstd::seq_lib::lemma_multiset_commutative(s.take(MAX_SERVERS as int), s.skip(MAX_SERVERS as int));
        assert(s.take(MAX_SERVERS as int) + s.skip(MAX_SERVERS as int) =~= s);
        assert(s.take(MAX_SERVERS as int).to_multiset().subset_of(s.to_multiset()));
    }
    assert forall|i: int, j: int| 0 <= i < j < r.len() implies {
        let a = #[trigger] r[i];
        let b = #[trigger] r[j];
        hours_sum(a.hours) >= hours_sum(b.hours) && (hours_sum(a.hours) == hours_sum(b.hours) ==> !text_lt(b.name, a.name))
    } by {
        assert(r[i] == s[i] && r[j] == s[j]);
        assert(!row_order()(s[j], s[i]));
    }
}

/// The strongest colour's count is at least every count shown, never
/// below zero, and zero or one of the counts.
pub proof fn law_max_value(rows: Seq<ActivityRowModel>)
    ensures
        rows_max(rows) >= 0,
        forall|r: int, h: int|
            0 <= r < rows.len() && 0 <= h < rows[r].hours.len() ==> #[trigger] rows[r].hours[h] <= rows_max(rows),
        rows_max(rows) == 0 || exists|r: int, h: int|
            0 <= r < rows.len() && 0 <= h < rows[r].hours.len() && #[trigger] rows[r].hours[h] == rows_max(rows),
    decreases rows.len(),
{
    if rows.len() > 0 {
        let d = rows.drop_last();
        law_max_value(d);
        let last = rows.last();
        lemma_counts_max(last.hours);
        assert forall|r: int, h: int| 0 <= r < rows.len() && 0 <= h < rows[r].hours.len() implies #[trigger] rows[r].hours[h] <= rows_max(rows) by {
            if r < d.len() {
                assert(rows[r] == d[r]);
                assert(d[r].hours[h] <= rows_max(d));
            } else {
                assert(rows[r] == last);
            }
        }
        if rows_max(rows) != 0 {
            if rows_max(rows) == counts_max(last.hours) {
                let h = choose|h: int| 0 <= h < last.hours.len() && last.hours[h] == counts_max(last.hours);
                assert(rows[rows.len() - 1].hours[h] == rows_max(rows));
            } else {
                let (r, h) = choose|r: int, h: int| 0 <= r < d.len() && 0 <= h < d[r].hours.len() && #[trigger] d[r].hours[h] == rows_max(d);
                assert(rows[r] == d[r]);
                assert(rows[r].hours[h] == rows_max(rows));
            }
        }
    }
}

proof fn lemma_counts_max(h: Seq<i64>)
    ensures
        counts_max(h) >= 0,
        forall|i: int| 0 <= i < h.len() ==> #[trigger] h[i] <= counts_max(h),
        counts_max(h) == 0 || exists|i: int| 0 <= i < h.len() && #[trigger] h[i] == counts_max(h),
    decreases h.len(),
{
    if h.len() > 0 {
        let d = h.drop_last();
        lemma_counts_max(d);
        assert forall|i: int| 0 <= i < h.len() implies #[trigger] h[i] <= counts_max(h) by {
            if i < d.len() {
                assert(h[i] == d[i]);
            }
        }
        if counts_max(h) != 0 {
            if counts_max(h) == h.last() {
                assert(h[h.len() - 1] == counts_max(h));
            } else {
                let i = choose|i: int| 0 <= i < d.len() && #[trigger] d[i] == counts_max(d);
                assert(h[i] == d[i]);
            }
        }
    }
}

/// Filling a rectangle paints exactly the canvas pixels inside its
/// clipped box and leaves every other pixel as it was.
pub proof fn law_fill_pixels(m: CanvasModel, x: u32, y: u32, rw: u32, rh: u32, color: Seq<u8>, px: int, py: int)
    requires
        m.wf(),
        color.len() == 3,
        0 <= px < m.width,
        0 <= py < m.height,
    ensures
        m.filled(x, y, rw, rh, color).pixel(px, py) == if in_box(rect_box(m.width, m.height, x, y, rw, rh), px, py) {
            color
        } else {
            m.pixel(px, py)
        },
{
    let w = m.width as int;
    let f = m.filled(x, y, rw, rh, color);
    lemma_pixel_in_bounds(w, m.height as int, px, py);
    let i = pixel_index(w, px, py);
    lemma_pixel_parts(w, px, py, 0);
    lemma_pixel_parts(w, px, py, 1);
    lemma_pixel_parts(w, px, py, 2);
    if in_box(rect_box(m.width, m.height, x, y, rw, rh), px, py) {
        assert(f.pixel(px, py) =~= color);
    } else {
        assert(f.pixel(px, py) =~= m.pixel(px, py));
    }
}

/// The outline of a rectangle is the union of its four edges: a canvas
/// pixel gets the colour exactly when it lies on the clipped top row, the
/// bottom row, the left column or the right column; every other pixel
/// stays as it was.
pub proof fn law_stroke_pixels(m: CanvasModel, x: u32, y: u32, rw: u32, rh: u32, color: Seq<u8>, px: int, py: int)
    requires
        m.wf(),
        color.len() == 3,
        0 <= px < m.width,
        0 <= py < m.height,
        rw > 0,
        rh > 0,
        rh > 1 ==> y + rh <= u32::MAX,
        rw > 1 ==> x + rw <= u32::MAX,
    ensures
        m.stroked(x, y, rw, rh, color).pixel(px, py) == if in_box(rect_box(m.width, m.height, x, y, rw, 1), px, py)
            || (rh > 1 && in_box(rect_box(m.width, m.height, x, (y + rh - 1) as u32, rw, 1), px, py))
            || in_box(rect_box(m.width, m.height, x, y, 1, rh), px, py)
            || (rw > 1 && in_box(rect_box(m.width, m.height, (x + rw - 1) as u32, y, 1, rh), px, py)) {
            color
        } else {
            m.pixel(px, py)
        },
{
    let a = m.filled(x, y, rw, 1, color);
    law_fill_pixels(m, x, y, rw, 1, color, px, py);
    let b = if rh > 1 { a.filled(x, (y + rh - 1) as u32, rw, 1, color) } else { a };
    if rh > 1 {
        law_fill_pixels(a, x, (y + rh - 1) as u32, rw, 1, color, px, py);
    }
    let c = b.filled(x, y, 1, rh, color);
    law_fill_pixels(b, x, y, 1, rh, color, px, py);
    if rw > 1 {
        law_fill_pixels(c, (x + rw - 1) as u32, y, 1, rh, color, px, py);
    }
}

/// Filling the same rectangle with the same colour twice is filling it once.
pub proof fn law_fill_idempotent(m: CanvasModel, x: u32, y: u32, rw: u32, rh: u32, color: Seq<u8>)
    ensures
        m.filled(x, y, rw, rh, color).filled(x, y, rw, rh, color) == m.filled(x, y, rw, rh, color),
{
    assert(m.filled(x, y, rw, rh, color).filled(x, y, rw, rh, color).px =~= m.filled(x, y, rw, rh, color).px);
}

/// Why a heatmap could not be made.
#[derive(Debug, PartialEq, Eq, Structural)]
pub enum HeatmapError {
    /// An image without pixels cannot be encoded.
    EmptyImage,
}

#[verifier::external_type_specification]
#[verifier::external_body]
pub struct ExPngEncodingError(png::EncodingError);

/// The PNG file that `png` writes for an 8-bit RGB image of `width` by
/// `height` pixels with the bytes `data`, at its default settings.
pub uninterp spec fn png_rgb8(width: u32, height: u32, data: Seq<u8>) -> Seq<u8>;

/// Encodes an 8-bit RGB image with `png::Encoder` (`write_header`, then
/// `write_image_data`, the trailer written when the writer is dropped).
/// Claimed: the bytes are `png_rgb8` of the arguments, and the only
/// failure, for data of the right length written to a `Vec`, is the zero
/// width or height that `write_header` refuses (the writes to a `Vec`
/// cannot fail and 8-bit RGB is a valid combination).
#[verifier::external_body]
fn encode_rgb8(width: u32, height: u32, data: &[u8]) -> (r: Result<Vec<u8>, png::EncodingError>)
    requires
        data@.len() == (width as int) * (height as int) * 3,
    ensures
        r is Ok <==> (width > 0 && height > 0),
        r is Ok ==> r->Ok_0@ == png_rgb8(width, height, data@),
{
    let mut buf = Vec::new();
    let mut encoder = png::Encoder::new(&mut buf, width, height);
    encoder.set_color(png::ColorType::Rgb);
    encoder.set_depth(png::BitDepth::Eight);
    let mut writer = encoder.write_header()?;
    writer.write_image_data(data)?;
    drop(writer);
    Ok(buf)
}

} // verus!
