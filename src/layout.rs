//! Layout of a line of text: canvas size, character cells, and the transform
//! from glyph space to device pixels.
use vstd::prelude::*;
use vstd::string::StrSliceExecFns;
use crate::canvas::{
    Canvas, canvas_wf, canvas_width, canvas_height, canvas_pixels, paint, filled_map, white, in_grid,
    lemma_paint_union, lemma_paint_empty,
};
use crate::glyph::{Glyph, GlyphTable, Primitive, UNITS_PER_EM};
use crate::raster::{draw_line, draw_quad_curve, line_points, curve_points};

verus! {

/// How glyphs are sized and spaced on the canvas.
#[derive(Clone, Copy, Debug, PartialEq, Eq)]
pub struct Layout {
    /// The nominal em size in device pixels, before scaling.
    pub glyph_size: u32,
    /// The factor applied to `glyph_size`.
    pub scale: u32,
    /// The gap in device pixels after every character cell, the last included.
    pub spacing: u32,
}

impl Layout {
    /// The scaled em: the height of the canvas and the ink area of a cell.
    pub open spec fn em_spec(self) -> int {
        self.glyph_size * self.scale
    }

    /// The width of one character cell, its gap included.
    pub open spec fn cell_spec(self) -> int {
        self.em_spec() + self.spacing
    }

    /// A cell's width fits in a `u32`.
    pub open spec fn valid(self) -> bool {
        self.cell_spec() <= u32::MAX
    }

    /// Glyph size 32, scale 3, spacing 4.
    pub fn standard() -> (r: Layout)
        ensures
            r.glyph_size == 32,
            r.scale == 3,
            r.spacing == 4,
    {
        Layout { glyph_size: 32, scale: 3, spacing: 4 }
    }

    pub fn em(&self) -> (r: u32)
        requires
            self.valid(),
        ensures
            r == self.em_spec(),
    {
        proof {
            assert(0 <= self.glyph_size * self.scale) by (nonlinear_arith);
        }
        self.glyph_size * self.scale
    }

    pub fn cell_width(&self) -> (r: u32)
        requires
            self.valid(),
        ensures
            r == self.cell_spec(),
    {
        self.em() + self.spacing
    }
}

/// The device coordinate of glyph-space `coord` in a glyph placed at `offset`
/// and drawn `em` pixels tall: `offset + coord * em / 1000`, truncated toward zero
/// and capped at `u32::MAX`.
pub open spec fn device_coord(offset: int, coord: int, em: int) -> int {
    let v = offset + coord * em / (UNITS_PER_EM as int);
    if v > u32::MAX { u32::MAX as int } else { v }
}

/// `device_coord` computed without overflow.
pub fn to_device(offset: u32, coord: u32, em: u32) -> (r: u32)
    ensures
        r == device_coord(offset as int, coord as int, em as int),
{
    proof {
        assert(coord * em <= 0xffff_ffff * 0xffff_ffff) by (nonlinear_arith)
            requires coord <= 0xffff_ffff, em <= 0xffff_ffff;
        assert(coord * em / 1000 <= coord * em) by (nonlinear_arith) requires coord * em >= 0;
    }
    let v: u64 = offset as u64 + (coord as u64 * em as u64) / (UNITS_PER_EM as u64);
    if v > u32::MAX as u64 {
        u32::MAX
    } else {
        v as u32
    }
}

/// The pixels of one primitive of a glyph placed at `(xo, yo)` with scaled em `em`.
pub open spec fn primitive_points(p: Primitive, xo: int, yo: int, em: int) -> Set<(int, int)> {
    match p {
        Primitive::Segment { x1, y1, x2, y2 } => line_points(
            device_coord(xo, x1 as int, em),
            device_coord(yo, y1 as int, em),
            device_coord(xo, x2 as int, em),
            device_coord(yo, y2 as int, em),
        ),
        Primitive::QuadCurve { x1, y1, cx, cy, x2, y2 } => curve_points(
            device_coord(xo, x1 as int, em),
            device_coord(yo, y1 as int, em),
            device_coord(xo, cx as int, em),
            device_coord(yo, cy as int, em),
            device_coord(xo, x2 as int, em),
            device_coord(yo, y2 as int, em),
        ),
    }
}

/// The pixels of a sequence of primitives placed at `(xo, yo)`.
pub open spec fn glyph_points(prims: Seq<Primitive>, xo: int, yo: int, em: int) -> Set<(int, int)>
    decreases prims.len(),
{
    if prims.len() == 0 {
        Set::empty()
    } else {
        glyph_points(prims.drop_last(), xo, yo, em).union(primitive_points(prims.last(), xo, yo, em))
    }
}

/// The left edge of the cell of the character at index `i`.
pub open spec fn cell_start(layout: Layout, i: int) -> int {
    i * layout.cell_spec()
}

/// The pixels that the glyph of the character at index `i` inks, if the table
/// has one.
pub open spec fn char_points(table: Map<char, Glyph>, c: char, i: int, layout: Layout) -> Set<(int, int)> {
    if table.contains_key(c) {
        glyph_points(table[c].primitives@, cell_start(layout, i), 0, layout.em_spec())
    } else {
        Set::empty()
    }
}

/// The pixels that rendering `text` inks.
pub open spec fn text_points(table: Map<char, Glyph>, text: Seq<char>, layout: Layout) -> Set<(int, int)>
    decreases text.len(),
{
    if text.len() == 0 {
        Set::empty()
    } else {
        text_points(table, text.drop_last(), layout).union(
            char_points(table, text.last(), text.len() - 1, layout),
        )
    }
}

/// The canvas width for `n` characters.
pub open spec fn text_width(layout: Layout, n: int) -> int {
    n * layout.cell_spec()
}

/// The pixels of a rendered text: white, with the text's ink black.
pub open spec fn rendered_pixels(table: Map<char, Glyph>, text: Seq<char>, layout: Layout) -> Map<(u32, u32), (u8, u8, u8)> {
    paint(
        filled_map(text_width(layout, text.len() as int) as u32, layout.em_spec() as u32, white()),
        text_points(table, text, layout),
    )
}

/// `c` is what rendering `text` with `table` and `layout` gives.
pub open spec fn is_rendering(c: Canvas, table: Map<char, Glyph>, text: Seq<char>, layout: Layout) -> bool {
    &&& canvas_wf(c)
    &&& canvas_width(c) == text_width(layout, text.len() as int)
    &&& canvas_height(c) == layout.em_spec()
    &&& canvas_pixels(c) == rendered_pixels(table, text, layout)
}

/// The sizes that rendering `n` characters needs fit the machine: the canvas
/// width in a `u32`, its buffer of three bytes a pixel in an allocation (at most `isize::MAX` bytes).
pub open spec fn fits_machine(layout: Layout, n: int) -> bool {
    &&& layout.valid()
    &&& text_width(layout, n) <= u32::MAX
    &&& 3 * text_width(layout, n) * layout.em_spec() <= isize::MAX
}

/// Draws one primitive of a glyph placed at `(x_offset, y_offset)`.
pub fn render_primitive(p: &Primitive, canvas: &mut Canvas, x_offset: u32, y_offset: u32, em: u32)
    requires
        canvas_wf(*old(canvas)),
    ensures
        canvas_wf(*final(canvas)),
        canvas_width(*final(canvas)) == canvas_width(*old(canvas)),
        canvas_height(*final(canvas)) == canvas_height(*old(canvas)),
        canvas_pixels(*final(canvas)) == paint(
            canvas_pixels(*old(canvas)),
            primitive_points(*p, x_offset as int, y_offset as int, em as int),
        ),
{
    match p {
        Primitive::Segment { x1, y1, x2, y2 } => {
            draw_line(
                canvas,
                to_device(x_offset, *x1, em),
                to_device(y_offset, *y1, em),
                to_device(x_offset, *x2, em),
                to_device(y_offset, *y2, em),
            );
        },
        Primitive::QuadCurve { x1, y1, cx, cy, x2, y2 } => {
            draw_quad_curve(
                canvas,
                to_device(x_offset, *x1, em),
                to_device(y_offset, *y1, em),
                to_device(x_offset, *cx, em),
                to_device(y_offset, *cy, em),
                to_device(x_offset, *x2, em),
                to_device(y_offset, *y2, em),
            );
        },
    }
}

/// Draws every primitive of `glyph` placed at `(x_offset, y_offset)`.
pub fn render_glyph(glyph: &Glyph, canvas: &mut Canvas, x_offset: u32, y_offset: u32, layout: &Layout)
    requires
        canvas_wf(*old(canvas)),
        layout.valid(),
    ensures
        canvas_wf(*final(canvas)),
        canvas_width(*final(canvas)) == canvas_width(*old(canvas)),
        canvas_height(*final(canvas)) == canvas_height(*old(canvas)),
        canvas_pixels(*final(canvas)) == paint(
            canvas_pixels(*old(canvas)),
            glyph_points(glyph.primitives@, x_offset as int, y_offset as int, layout.em_spec()),
        ),
{
    let ghost start = canvas_pixels(*canvas);
    let em = layout.em();
    let ghost prims = glyph.primitives@;
    proof {
        lemma_paint_empty(start);
        assert(prims.take(0) =~= Seq::<Primitive>::empty());
    }
    let mut i: usize = 0;
    while i < glyph.primitives.len()
        invariant
            i <= prims.len(),
            prims == glyph.primitives@,
            em == layout.em_spec(),
            canvas_wf(*canvas),
            canvas_width(*canvas) == canvas_width(*old(canvas)),
            canvas_height(*canvas) == canvas_height(*old(canvas)),
            start == canvas_pixels(*old(canvas)),
            canvas_pixels(*canvas) == paint(start, glyph_points(prims.take(i as int), x_offset as int, y_offset as int, em as int)),
        decreases prims.len() - i,
    {
        render_primitive(&glyph.primitives[i], canvas, x_offset, y_offset, em);
        proof {
            assert(prims.take(i + 1).drop_last() =~= prims.take(i as int));
            lemma_paint_union(
                start,
                glyph_points(prims.take(i as int), x_offset as int, y_offset as int, em as int),
                primitive_points(prims[i as int], x_offset as int, y_offset as int, em as int),
            );
        }
        i = i + 1;
    }
    proof {
        assert(prims.take(i as int) =~= prims);
    }
}

/// Renders `text` as one line: a canvas `text_width` pixels wide and one scaled
/// em tall, white, with the glyph of the character at index `i` drawn with its
/// left edge at `cell_start(layout, i)`. A character that the table lacks leaves
/// its cell blank.
pub fn render_text(table: &GlyphTable, text: &str, layout: &Layout) -> (r: Canvas)
    requires
        fits_machine(*layout, text@.len() as int),
    ensures
        is_rendering(r, table@, text@, *layout),
{
    let n = text.unicode_len();
    let cell = layout.cell_width();
    let em = layout.em();
    proof {
        assert(cell >= 1 ==> n <= n * cell) by (nonlinear_arith) requires n >= 0;
        assert(cell == 0 ==> n * cell == 0) by (nonlinear_arith);
    }
    let width: u32 = if cell == 0 { 0 } else { n as u32 * cell };
    let mut canvas = Canvas::new_white(width, em);
    let ghost start = canvas_pixels(canvas);
    proof {
        lemma_paint_empty(start);
        assert(text@.take(0) =~= Seq::<char>::empty());
    }
    let mut i: usize = 0;
    while i < n
        invariant
            i <= n,
            n == text@.len(),
            cell == layout.cell_spec(),
            em == layout.em_spec(),
            fits_machine(*layout, n as int),
            canvas_wf(canvas),
            canvas_width(canvas) == width,
            canvas_height(canvas) == em,
            width == text_width(*layout, n as int),
            start == filled_map(width, em, white()),
            canvas_pixels(canvas) == paint(start, text_points(table@, text@.take(i as int), *layout)),
        decreases n - i,
    {
        let c = text.get_char(i);
        proof {
            assert(i * cell <= n * cell) by (nonlinear_arith) requires i <= n, cell >= 0;
            assert(cell >= 1 ==> i <= i * cell) by (nonlinear_arith) requires i >= 0;
            assert(cell == 0 ==> i * cell == 0) by (nonlinear_arith);
            assert(text@.take(i + 1).drop_last() =~= text@.take(i as int));
            assert(text@.take(i + 1).last() == c);
            assert(text_points(table@, text@.take(i + 1), *layout) == text_points(table@, text@.take(i as int), *layout).union(
                char_points(table@, c, i as int, *layout),
            ));
        }
        let x_offset: u32 = if cell == 0 { 0 } else { i as u32 * cell };
        assert(x_offset == cell_start(*layout, i as int));
        match table.lookup(c) {
            Some(glyph) => {
                render_glyph(glyph, &mut canvas, x_offset, 0, layout);
                proof {
                    lemma_paint_union(
                        start,
                        text_points(table@, text@.take(i as int), *layout),
                        char_points(table@, c, i as int, *layout),
                    );
                }
            },
            None => {
                proof {
                    lemma_paint_union(start, text_points(table@, text@.take(i as int), *layout), Set::empty());
                    assert(text_points(table@, text@.take(i as int), *layout).union(Set::empty())
                        =~= text_points(table@, text@.take(i as int), *layout));
                }
            },
        }
        i = i + 1;
    }
    proof {
        assert(text@.take(n as int) =~= text@);
    }
    canvas
}


/// Rendering is deterministic: two canvases that are both renderings of the same
/// text with the same table and layout have the same size and the same pixels.
pub proof fn lemma_render_deterministic(
    table: Map<char, Glyph>,
    text: Seq<char>,
    layout: Layout,
    a: Canvas,
    b: Canvas,
)
    requires
        is_rendering(a, table, text, layout),
        is_rendering(b, table, text, layout),
    ensures
        canvas_width(a) == canvas_width(b),
        canvas_height(a) == canvas_height(b),
        canvas_pixels(a) == canvas_pixels(b),
{
}

/// The cells of two different characters share no column.
pub proof fn lemma_cells_disjoint(layout: Layout, i: int, j: int, x: int)
    requires
        0 <= i,
        0 <= j,
        i != j,
    ensures
        !(cell_start(layout, i) <= x < cell_start(layout, i) + layout.cell_spec()
            && cell_start(layout, j) <= x < cell_start(layout, j) + layout.cell_spec()),
{
    let c = layout.cell_spec();
    assert(c >= 0) by (nonlinear_arith) requires c == layout.glyph_size * layout.scale + layout.spacing;
    if i < j {
        assert(i * c + c <= j * c) by (nonlinear_arith) requires i < j, c >= 0;
    } else {
        assert(j * c + c <= i * c) by (nonlinear_arith) requires j < i, c >= 0;
    }
}

/// Every horizontal coordinate of `p` lies within one cell: scaled to the em it
/// stays left of the cell's right edge.
pub open spec fn primitive_fits_cell(p: Primitive, layout: Layout) -> bool {
    let fits = |c: u32| (c as int) * layout.em_spec() / (UNITS_PER_EM as int) < layout.cell_spec();
    match p {
        Primitive::Segment { x1, y1, x2, y2 } => fits(x1) && fits(x2),
        Primitive::QuadCurve { x1, y1, cx, cy, x2, y2 } => fits(x1) && fits(cx) && fits(x2),
    }
}

/// Every glyph of the table stays within its cell.
pub open spec fn table_fits_cells(table: Map<char, Glyph>, layout: Layout) -> bool {
    forall|c: char, k: int|
        #![trigger table[c].primitives@[k]]
        table.contains_key(c) && 0 <= k < table[c].primitives@.len()
            ==> primitive_fits_cell(table[c].primitives@[k], layout)
}

/// The ink of a glyph whose primitives fit the cell lies within the cell.
proof fn lemma_glyph_in_cell(prims: Seq<Primitive>, xo: int, yo: int, layout: Layout, p: (int, int))
    requires
        forall|k: int| 0 <= k < prims.len() ==> primitive_fits_cell(#[trigger] prims[k], layout),
        0 <= xo,
        xo + layout.cell_spec() <= u32::MAX,
        glyph_points(prims, xo, yo, layout.em_spec()).contains(p),
    ensures
        xo <= p.0 < xo + layout.cell_spec(),
    decreases prims.len(),
{
    let em = layout.em_spec();
    let cell = layout.cell_spec();
    if glyph_points(prims.drop_last(), xo, yo, em).contains(p) {
        lemma_glyph_in_cell(prims.drop_last(), xo, yo, layout, p);
    } else {
        let q = prims.last();
        assert(primitive_fits_cell(prims[prims.len() - 1], layout));
        assert(em >= 0) by (nonlinear_arith) requires em == layout.glyph_size * layout.scale;
        assert forall|c: u32| (c as int) * em / (UNITS_PER_EM as int) < cell implies
            xo <= #[trigger] device_coord(xo, c as int, em) < xo + cell by {
            assert((c as int) * em >= 0) by (nonlinear_arith) requires em >= 0;
        }
        match q {
            Primitive::Segment { x1, y1, x2, y2 } => {
                crate::raster::lemma_line_in_box(
                    device_coord(xo, x1 as int, em),
                    device_coord(yo, y1 as int, em),
                    device_coord(xo, x2 as int, em),
                    device_coord(yo, y2 as int, em),
                    p,
                );
            },
            Primitive::QuadCurve { x1, y1, cx, cy, x2, y2 } => {
                crate::raster::lemma_curve_in_box(
                    device_coord(xo, x1 as int, em),
                    device_coord(yo, y1 as int, em),
                    device_coord(xo, cx as int, em),
                    device_coord(yo, cy as int, em),
                    device_coord(xo, x2 as int, em),
                    device_coord(yo, y2 as int, em),
                    p,
                    xo,
                    xo + cell - 1,
                );
            },
        }
    }
}

/// Every inked pixel of a rendered text lies in the cell of a character that the
/// table has a glyph for.
proof fn lemma_ink_in_cells(table: Map<char, Glyph>, text: Seq<char>, layout: Layout, p: (int, int))
    requires
        table_fits_cells(table, layout),
        text_width(layout, text.len() as int) <= u32::MAX,
        text_points(table, text, layout).contains(p),
    ensures
        exists|j: int|
            0 <= j < text.len() && table.contains_key(text[j]) && cell_start(layout, j) <= p.0
                < cell_start(layout, j) + layout.cell_spec(),
    decreases text.len(),
{
    let n = text.len() as int;
    let cell = layout.cell_spec();
    assert(cell >= 0) by (nonlinear_arith) requires cell == layout.glyph_size * layout.scale + layout.spacing;
    assert((n - 1) * cell + cell == n * cell) by (nonlinear_arith);
    assert((n - 1) * cell >= 0) by (nonlinear_arith) requires n >= 1, cell >= 0;
    if text_points(table, text.drop_last(), layout).contains(p) {
        lemma_ink_in_cells(table, text.drop_last(), layout, p);
        let j = choose|j: int|
            0 <= j < n - 1 && table.contains_key(text.drop_last()[j]) && cell_start(layout, j) <= p.0
                < cell_start(layout, j) + cell;
        assert(text[j] == text.drop_last()[j]);
    } else {
        let c = text.last();
        assert(table.contains_key(c));
        let prims = table[c].primitives@;
        assert forall|k: int| 0 <= k < prims.len() implies primitive_fits_cell(#[trigger] prims[k], layout) by {
            assert(primitive_fits_cell(table[c].primitives@[k], layout));
        }
        lemma_glyph_in_cell(prims, cell_start(layout, n - 1), 0, layout, p);
        assert(text[n - 1] == c);
    }
}

/// A character that the table lacks leaves its whole cell white, provided every
/// glyph of the table stays within its own cell.
pub proof fn lemma_blank_cell(table: Map<char, Glyph>, text: Seq<char>, layout: Layout, i: int)
    requires
        fits_machine(layout, text.len() as int),
        table_fits_cells(table, layout),
        0 <= i < text.len(),
        !table.contains_key(text[i]),
    ensures
        forall|k: (u32, u32)|
            #![trigger rendered_pixels(table, text, layout)[k]]
            in_grid(text_width(layout, text.len() as int) as u32, layout.em_spec() as u32, k)
                && cell_start(layout, i) <= k.0 < cell_start(layout, i) + layout.cell_spec()
                ==> rendered_pixels(table, text, layout)[k] == white(),
{
    assert forall|k: (u32, u32)|
        in_grid(text_width(layout, text.len() as int) as u32, layout.em_spec() as u32, k)
            && cell_start(layout, i) <= k.0 < cell_start(layout, i) + layout.cell_spec() implies
        #[trigger] rendered_pixels(table, text, layout)[k] == white() by {
        let p = (k.0 as int, k.1 as int);
        if text_points(table, text, layout).contains(p) {
            lemma_ink_in_cells(table, text, layout, p);
            let j = choose|j: int|
                0 <= j < text.len() && table.contains_key(text[j]) && cell_start(layout, j) <= p.0
                    < cell_start(layout, j) + layout.cell_spec();
            lemma_cells_disjoint(layout, i, j, p.0);
        }
    }
}

} // verus!
