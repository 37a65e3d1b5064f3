//! The built-in glyph table: outlines for `A`, `B` and `C`.
use vstd::prelude::*;
use crate::glyph::{Glyph, GlyphTable, Primitive};
use crate::layout::{Layout, primitive_fits_cell, table_fits_cells};

verus! {

pub open spec fn outline_a() -> Seq<Primitive> {
    seq![
        Primitive::Segment { x1: 0, y1: 1000, x2: 500, y2: 0 },
        Primitive::Segment { x1: 500, y1: 0, x2: 1000, y2: 1000 },
        Primitive::Segment { x1: 250, y1: 500, x2: 750, y2: 500 },
    ]
}

pub open spec fn outline_b() -> Seq<Primitive> {
    seq![
        Primitive::Segment { x1: 0, y1: 0, x2: 0, y2: 1000 },
        Primitive::Segment { x1: 0, y1: 0, x2: 800, y2: 0 },
        Primitive::QuadCurve { x1: 800, y1: 0, cx: 1000, cy: 250, x2: 800, y2: 500 },
        Primitive::Segment { x1: 0, y1: 500, x2: 800, y2: 500 },
        Primitive::QuadCurve { x1: 800, y1: 500, cx: 1000, cy: 750, x2: 800, y2: 1000 },
        Primitive::Segment { x1: 800, y1: 1000, x2: 0, y2: 1000 },
    ]
}

pub open spec fn outline_c() -> Seq<Primitive> {
    seq![
        Primitive::QuadCurve { x1: 800, y1: 180, cx: 500, cy: 18, x2: 180, y2: 500 },
        Primitive::QuadCurve { x1: 180, y1: 500, cx: 500, cy: 880, x2: 800, y2: 720 },
    ]
}

/// The built-in table: `A`, `B` and `C`, each one em wide.
pub fn create_font() -> (r: GlyphTable)
    ensures
        r.wf(),
        r@.dom() == set!['A', 'B', 'C'],
        r@['A'].primitives@ == outline_a(),
        r@['B'].primitives@ == outline_b(),
        r@['C'].primitives@ == outline_c(),
        r@['A'].width == 1000,
        r@['B'].width == 1000,
        r@['C'].width == 1000,
{
    let mut font = GlyphTable::new();
    let a = vec![
        Primitive::Segment { x1: 0, y1: 1000, x2: 500, y2: 0 },
        Primitive::Segment { x1: 500, y1: 0, x2: 1000, y2: 1000 },
        Primitive::Segment { x1: 250, y1: 500, x2: 750, y2: 500 },
    ];
    assert(a@ =~= outline_a());
    font.insert('A', Glyph { primitives: a, width: 1000 });
    let b = vec![
        Primitive::Segment { x1: 0, y1: 0, x2: 0, y2: 1000 },
        Primitive::Segment { x1: 0, y1: 0, x2: 800, y2: 0 },
        Primitive::QuadCurve { x1: 800, y1: 0, cx: 1000, cy: 250, x2: 800, y2: 500 },
        Primitive::Segment { x1: 0, y1: 500, x2: 800, y2: 500 },
        Primitive::QuadCurve { x1: 800, y1: 500, cx: 1000, cy: 750, x2: 800, y2: 1000 },
        Primitive::Segment { x1: 800, y1: 1000, x2: 0, y2: 1000 },
    ];
    assert(b@ =~= outline_b());
    font.insert('B', Glyph { primitives: b, width: 1000 });
    let c = vec![
        Primitive::QuadCurve { x1: 800, y1: 180, cx: 500, cy: 18, x2: 180, y2: 500 },
        Primitive::QuadCurve { x1: 180, y1: 500, cx: 500, cy: 880, x2: 800, y2: 720 },
    ];
    assert(c@ =~= outline_c());
    font.insert('C', Glyph { primitives: c, width: 1000 });
    assert(font@.dom() =~= set!['A', 'B', 'C']);
    font
}

/// The built-in outlines stay within their cells under the standard layout:
/// scaled to 96 pixels, no horizontal coordinate reaches the cell's edge at 100.
pub proof fn lemma_builtin_fits_standard(table: Map<char, Glyph>, layout: Layout)
    requires
        table.dom() == set!['A', 'B', 'C'],
        table['A'].primitives@ == outline_a(),
        table['B'].primitives@ == outline_b(),
        table['C'].primitives@ == outline_c(),
        layout == (Layout { glyph_size: 32, scale: 3, spacing: 4 }),
    ensures
        table_fits_cells(table, layout),
{
    assert(layout.em_spec() == 96);
    assert(layout.cell_spec() == 100);
    assert forall|c: char, k: int|
        table.contains_key(c) && 0 <= k < table[c].primitives@.len() implies
        primitive_fits_cell(#[trigger] table[c].primitives@[k], layout) by {
        assert(set!['A', 'B', 'C'].contains(c));
    }
}

} // verus!
